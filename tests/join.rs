use dbsp::batch::OrdZSet;
use dbsp::consolidation::consolidate;
use dbsp::join::join;

type A = OrdZSet<(u64, u64), i64>;
type B = OrdZSet<(u64, char), i64>;

fn joined(a: &A, b: &B) -> Vec<((u64, (u64, char)), i64)> {
    let mut r = join(a, b);
    consolidate(&mut r);
    r
}

#[test]
fn join_multiplies_weights_on_common_keys() {
    let a: A = OrdZSet::from_tuples(vec![((1, 10), 2), ((1, 11), 1), ((2, 20), 1), ((5, 50), 1)]);
    let b: B = OrdZSet::from_tuples(vec![((1, 'x'), 3), ((2, 'y'), -1), ((3, 'z'), 1)]);
    assert_eq!(
        joined(&a, &b),
        vec![((1, (10, 'x')), 6), ((1, (11, 'x')), 3), ((2, (20, 'y')), -1)]
    );
}

#[test]
fn join_with_empty_is_empty() {
    let a: A = OrdZSet::from_tuples(vec![((1, 10), 2)]);
    let b: B = OrdZSet::empty();
    assert!(join(&a, &b).is_empty());
}

#[test]
fn join_decomposes_over_changes() {
    let a: A = OrdZSet::from_tuples(vec![((1, 10), 1), ((2, 20), 2)]);
    let da: A = OrdZSet::from_tuples(vec![((1, 11), 1), ((2, 20), -2), ((3, 30), 1)]);
    let b: B = OrdZSet::from_tuples(vec![((1, 'p'), 1), ((2, 'q'), 1)]);
    let db: B = OrdZSet::from_tuples(vec![((3, 'r'), 4), ((1, 'p'), 1)]);
    let a_new = a.merge(&da);
    let b_new = b.merge(&db);

    let mut lhs = join(&a_new, &b_new);
    let old = OrdZSet::from_tuples(join(&a, &b)).neg();
    lhs.extend(old.tuples().iter().copied());
    consolidate(&mut lhs);

    let mut rhs = join(&da, &b);
    rhs.extend(join(&a, &db));
    rhs.extend(join(&da, &db));
    consolidate(&mut rhs);
    assert_eq!(lhs, rhs);
}
