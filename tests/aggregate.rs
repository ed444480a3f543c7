use dbsp::aggregate::{aggregate_incremental, Aggregate, AggregateIncremental};
use dbsp::apply2::Apply2;
use dbsp::batch::OrdZSet;

type IZSet = OrdZSet<(usize, usize), isize>;

fn sum(key: &usize, group: &Vec<(usize, isize)>) -> (usize, isize) {
    let mut result: isize = 0;
    for (v, w) in group {
        result += (*v as isize) * w;
    }
    (*key, result)
}

fn min(key: &usize, group: &Vec<(usize, isize)>) -> (usize, usize) {
    let mut result = usize::MAX;
    for (v, _) in group {
        if *v < result {
            result = *v;
        }
    }
    (*key, result)
}

#[test]
fn aggregate_test() {
    let deltas: Vec<Vec<((usize, usize), isize)>> = vec![
        vec![((1, 10), 1), ((1, 20), 1)],
        vec![((2, 10), 1), ((1, 10), -1), ((1, 20), 1), ((3, 10), 1)],
        vec![((4, 20), 1), ((2, 10), -1)],
        vec![((5, 10), 1), ((6, 10), 1)],
        vec![],
    ];
    let mut integral: IZSet = OrdZSet::empty();
    for d in deltas {
        let delta = OrdZSet::from_tuples(d);

        let (new_integral, sum_inc) = aggregate_incremental(sum, &delta, &integral);
        let sum_agg = Aggregate::new(sum);
        let sum_noninc = sum_agg.eval(&new_integral).merge(&sum_agg.eval(&integral).neg());
        assert_eq!(sum_inc.tuples(), sum_noninc.tuples());

        let (_, min_inc) = aggregate_incremental(min, &delta, &integral);
        let min_agg = Aggregate::new(min);
        let min_noninc = min_agg.eval(&new_integral).merge(&min_agg.eval(&integral).neg());
        assert_eq!(min_inc.tuples(), min_noninc.tuples());

        integral = new_integral;
    }
}

#[test]
fn aggregate_values() {
    let i: IZSet = OrdZSet::from_tuples(vec![((1, 10), 1), ((1, 20), 1), ((2, 10), 2)]);
    let out = Aggregate::new(sum).eval(&i);
    assert_eq!(out.tuples(), &vec![((1, 30), 1), ((2, 20), 1)]);
}

#[test]
fn aggregate_equal_results_add_up() {
    let i: IZSet = OrdZSet::from_tuples(vec![((1, 10), 1), ((2, 10), 1), ((3, 4), 1)]);
    let out = Aggregate::new(|_k: &usize, g: &Vec<(usize, isize)>| g[0].0).eval(&i);
    assert_eq!(out.tuples(), &vec![(4, 1), (10, 2)]);
}

#[test]
fn aggregate_incremental_polarity() {
    let delta: IZSet = OrdZSet::from_tuples(vec![((1, 5), 1), ((9, 5), 1)]);
    let integral: IZSet = OrdZSet::from_tuples(vec![((1, 10), 1), ((1, 20), 1), ((2, 3), 1)]);
    let retract = AggregateIncremental::new(false, sum).eval(&delta, &integral);
    assert_eq!(retract.tuples(), &vec![((1, 30), -1)]);
    let insert = AggregateIncremental::new(true, sum).eval(&delta, &integral);
    assert_eq!(insert.tuples(), &vec![((1, 30), 1)]);
}

#[test]
fn aggregate_first_tick() {
    let delta: IZSet = OrdZSet::from_tuples(vec![((1, 10), 1), ((1, 20), 1)]);
    let (integral, out) = aggregate_incremental(sum, &delta, &OrdZSet::empty());
    assert_eq!(integral.tuples(), &vec![((1, 10), 1), ((1, 20), 1)]);
    assert_eq!(out.tuples(), &vec![((1, 30), 1)]);
}

#[test]
fn apply2_test() {
    let inputs1 = vec![1, 2, 3];
    let inputs2 = vec![-1, -2, -3];
    let op = Apply2::new(|x: &i32, y: &i32| *x + *y);
    for i in 0..3 {
        let z: i32 = op.eval(&inputs1[i], &inputs2[i]);
        assert_eq!(z, 0);
    }
    assert_eq!(op.name(), "Apply2");
}
