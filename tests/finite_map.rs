use dbsp::finite_map::FiniteHashMap;

fn map(entries: &[(u64, i64)]) -> FiniteHashMap {
    let mut m = FiniteHashMap::new();
    for (k, v) in entries {
        m.increment(k, *v);
    }
    m
}

fn sorted_support(m: &FiniteHashMap) -> Vec<u64> {
    let mut keys = m.support();
    keys.sort();
    keys
}

#[test]
fn increment_adds_and_removes() {
    let mut m = FiniteHashMap::with_capacity(4);
    m.increment(&1, 5);
    m.increment_owned(2, 3);
    m.increment(&1, -5);
    m.increment(&3, 0);
    assert_eq!(m.lookup(&1), 0);
    assert_eq!(m.get_in_support(&1), None);
    assert_eq!(m.get_in_support(&2), Some(3));
    assert_eq!(m.support_size(), 1);
    assert_eq!(m.num_entries(), 1);
    assert_eq!(sorted_support(&m), vec![2]);
}

#[test]
fn update_applies_function() {
    let mut m = map(&[(1, 2), (2, 7)]);
    m.update(&1, |w| w * 10);
    m.update(&2, |w| w - 7);
    m.update_owned(3, |w| w + 4);
    assert_eq!(m.lookup(&1), 20);
    assert_eq!(m.lookup(&2), 0);
    assert_eq!(m.lookup(&3), 4);
    assert_eq!(sorted_support(&m), vec![1, 3]);
}

#[test]
fn add_sums_pointwise() {
    let a = map(&[(1, 1), (2, 2), (3, 3)]);
    let b = map(&[(2, -2), (3, 1), (4, 9)]);
    let s = a.add_by_ref(&b);
    assert!(s.eq(&map(&[(1, 1), (3, 4), (4, 9)])));
    let t = b.add(a);
    assert!(t.eq(&s));
    let mut u = map(&[(7, 1)]);
    u.add_assign(map(&[(7, -1)]));
    assert!(u.is_zero());
    let mut v = map(&[(8, 2)]);
    v.add_assign_by_ref(&map(&[(9, 1)]));
    assert_eq!(sorted_support(&v), vec![8, 9]);
}

#[test]
fn neg_cancels() {
    let a = map(&[(1, 3), (5, -2)]);
    let n = a.neg_by_ref();
    assert_eq!(n.lookup(&1), -3);
    assert_eq!(n.lookup(&5), 2);
    assert!(a.add_by_ref(&n).is_zero());
    assert!(map(&[(2, 1)]).neg().eq(&map(&[(2, -1)])));
}

#[test]
fn equality_of_maps() {
    assert!(map(&[(1, 1), (2, 2)]).eq(&map(&[(2, 2), (1, 1)])));
    assert!(!map(&[(1, 1)]).eq(&map(&[(1, 2)])));
    assert!(!map(&[(1, 1)]).eq(&map(&[(1, 1), (2, 1)])));
    assert!(FiniteHashMap::empty().eq(&FiniteHashMap::zero()));
}

#[test]
fn from_iter_sums_repeated_keys() {
    let m = FiniteHashMap::from_iter(vec![(1, 2), (2, 5), (1, -2), (3, 1), (2, 1)]);
    assert!(m.eq(&map(&[(2, 6), (3, 1)])));
    assert_eq!(m.lookup(&1), 0);
}
