use dbsp::batch::OrdZSet;
use dbsp::stream::{differentiate_step, integrate_step};

type Z = OrdZSet<u64, i64>;

#[test]
fn differentiate_of_integrate_is_identity() {
    let changes: Vec<Z> = vec![
        OrdZSet::from_tuples(vec![(1, 1), (2, 1)]),
        OrdZSet::from_tuples(vec![(2, -1), (3, 5)]),
        OrdZSet::from_tuples(vec![]),
        OrdZSet::from_tuples(vec![(1, -1), (4, 2)]),
    ];
    let mut integral: Z = OrdZSet::empty();
    for change in &changes {
        let next = integrate_step(&integral, change);
        let diff = differentiate_step(&next, &integral);
        assert_eq!(diff.tuples(), change.tuples());
        integral = next;
    }
    assert_eq!(integral.tuples(), &vec![(3, 5), (4, 2)]);
}

#[test]
fn integrate_of_differentiate_is_identity() {
    let values: Vec<Z> = vec![
        OrdZSet::from_tuples(vec![(1, 1)]),
        OrdZSet::from_tuples(vec![(1, 1), (2, 3)]),
        OrdZSet::from_tuples(vec![(2, 1)]),
    ];
    let mut previous: Z = OrdZSet::empty();
    let mut integral: Z = OrdZSet::empty();
    for value in &values {
        let diff = differentiate_step(value, &previous);
        integral = integrate_step(&integral, &diff);
        assert_eq!(integral.tuples(), value.tuples());
        previous = OrdZSet::from_tuples(value.tuples().clone());
    }
}
