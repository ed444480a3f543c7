use dbsp::batch::OrdZSet;
use dbsp::group::{DiffGroupTransformer, GroupDistinct, GroupTransform, GroupTransformer, Monotonicity};

fn izset(v: Vec<((u64, u64), i64)>) -> OrdZSet<(u64, u64), i64> {
    OrdZSet::from_tuples(v)
}

#[test]
fn group_distinct_emits_changes_in_order() {
    let input_trace = izset(vec![((1, 10), 2), ((1, 20), -1), ((2, 5), 1)]);
    let output_trace = izset(vec![((1, 10), 1), ((2, 5), 1)]);
    let delta = izset(vec![((1, 20), 2), ((1, 10), -2), ((3, 7), 1)]);
    let op = GroupTransform::new(DiffGroupTransformer::new(GroupDistinct));
    let out = op.eval(&delta, &input_trace, &output_trace);
    assert_eq!(out, vec![((1, 10), -1), ((1, 20), 1), ((3, 7), 1)]);
}

#[test]
fn group_distinct_integrates_to_support() {
    let input_trace = izset(vec![((1, 10), 2), ((1, 20), -1), ((2, 5), 1)]);
    let output_trace = izset(vec![((1, 10), 1), ((2, 5), 1)]);
    let delta = izset(vec![((1, 20), 2), ((1, 10), -2), ((3, 7), 1)]);
    let op = GroupTransform::new(DiffGroupTransformer::new(GroupDistinct));
    let out = izset(op.eval(&delta, &input_trace, &output_trace));
    let integrated = output_trace.merge(&out);
    assert_eq!(integrated.tuples(), &vec![((1, 20), 1), ((2, 5), 1), ((3, 7), 1)]);
}

#[test]
fn group_transform_first_tick() {
    let empty = izset(vec![]);
    let delta = izset(vec![((4, 1), 3), ((4, 2), -1), ((6, 0), 1)]);
    let op = GroupTransform::new(DiffGroupTransformer::new(GroupDistinct));
    let out = op.eval(&delta, &empty, &empty);
    assert_eq!(out, vec![((4, 1), 1), ((6, 0), 1)]);
}

#[test]
fn group_transformer_reports_its_kind() {
    let t = DiffGroupTransformer::new(GroupDistinct);
    assert_eq!(GroupTransformer::<u64, u64, i64>::name(&t), "Distinct");
    assert_eq!(GroupTransformer::<u64, u64, i64>::monotonicity(&t), Monotonicity::Ascending);
}
