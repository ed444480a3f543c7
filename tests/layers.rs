use dbsp::layers::advance;

#[test]
fn advance_counts_short_prefix() {
    let v: Vec<u32> = vec![1, 2, 3, 10, 11];
    assert_eq!(advance(&v, |x| *x < 5), 3);
    assert_eq!(advance(&v, |x| *x < 100), 5);
    assert_eq!(advance(&v, |x| *x < 0), 0);
}

#[test]
fn advance_exponential_search() {
    let v: Vec<u32> = (0..1000).collect();
    for bound in [0u32, 1, 8, 9, 10, 17, 100, 511, 512, 513, 999, 1000, 5000] {
        let expected = v.iter().filter(|x| **x < bound).count();
        assert_eq!(advance(&v, |x| *x < bound), expected);
    }
}

#[test]
fn advance_empty() {
    let v: Vec<u32> = vec![];
    assert_eq!(advance(&v, |_| true), 0);
}

#[test]
fn advance_with_predicate_that_turns_true_again() {
    let v: Vec<u32> = (0..40).collect();
    let r = advance(&v, |x| *x % 3 != 2);
    assert!(r <= v.len());
}
