use dbsp::consolidation::{consolidate, consolidate_from};

#[test]
fn test_consolidate() {
    let test_cases = vec![
        (vec![("a", -1), ("b", -2), ("a", 1)], vec![("b", -2)]),
        (vec![("a", -1), ("b", 0), ("a", 1)], vec![]),
        (vec![("a", 0)], vec![]),
        (vec![("a", 0), ("b", 0)], vec![]),
        (vec![("a", 1), ("b", 1)], vec![("a", 1), ("b", 1)]),
    ];

    for (mut input, output) in test_cases {
        consolidate(&mut input);
        assert_eq!(input, output);
    }
}

#[test]
fn consolidate_sorts_and_sums() {
    let mut v: Vec<((usize, usize), isize)> =
        vec![((3, 1), 2), ((1, 2), 1), ((3, 1), 5), ((1, 1), -4), ((1, 2), -1), ((2, 0), 0)];
    consolidate(&mut v);
    assert_eq!(v, vec![((1, 1), -4), ((3, 1), 7)]);
}

#[test]
fn consolidate_twice_is_once() {
    let mut v: Vec<(u64, i64)> = vec![(5, 1), (2, 3), (5, 1), (9, -2), (2, -3), (7, 4)];
    consolidate(&mut v);
    let once = v.clone();
    consolidate(&mut v);
    assert_eq!(v, once);
    assert_eq!(once, vec![(5, 2), (7, 4), (9, -2)]);
}

#[test]
fn consolidate_empty() {
    let mut v: Vec<(u64, i64)> = vec![];
    consolidate(&mut v);
    assert!(v.is_empty());
}

#[test]
fn consolidate_from_keeps_prefix() {
    let mut v: Vec<(u64, i32)> = vec![(9, 1), (1, 1), (4, 2), (3, 1), (4, -2), (3, 1)];
    consolidate_from(&mut v, 2);
    assert_eq!(v, vec![(9, 1), (1, 1), (3, 2)]);
}

#[test]
fn consolidate_at_weight_limits() {
    let mut v: Vec<(u8, i32)> = vec![(1, i32::MAX), (2, i32::MIN), (1, -1), (1, 1)];
    consolidate(&mut v);
    assert_eq!(v, vec![(1, i32::MAX), (2, i32::MIN)]);
}

#[test]
fn consolidate_lone_minimum_weight() {
    let mut v: Vec<(u64, i64)> = vec![(3, i64::MIN)];
    consolidate(&mut v);
    assert_eq!(v, vec![(3, i64::MIN)]);
    consolidate(&mut v);
    assert_eq!(v, vec![(3, i64::MIN)]);
}

#[test]
fn consolidate_runs_that_cancel_near_limits() {
    let mut v: Vec<(u64, i64)> = vec![(1, i64::MAX), (2, i64::MIN), (1, -i64::MAX), (2, 1), (1, 5)];
    consolidate(&mut v);
    assert_eq!(v, vec![(1, 5), (2, i64::MIN + 1)]);
}
