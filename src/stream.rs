//! Streams of Z-sets over clock ticks: integration (the running sum of the
//! changes) and differentiation (the change from the previous tick), and
//! the laws that relate them and the operators.

use vstd::prelude::*;
use crate::algebra::{ZRingValue, ordered_key};
use crate::batch::OrdZSet;
use crate::consolidation::{is_canonical, lemma_canonical_unique, weight_of};
use crate::group::{GroupDistinct, NonIncrementalGroupTransformer};

verus! {

/// The weight of `k` in the sum of the first `t + 1` Z-sets of `s`: the
/// integral of the stream at tick `t` (zero before the first tick).
pub open spec fn integral_weight<K, R: ZRingValue>(s: Seq<Seq<(K, R)>>, t: int, k: K) -> int
    decreases t + 1,
{
    if t < 0 {
        0
    } else {
        integral_weight(s, t - 1, k) + weight_of(s[t], k)
    }
}

/// The next integral: the previous one plus this tick's change.
pub fn integrate_step<K: Ord + Copy, R: ZRingValue>(
    integral: &OrdZSet<K, R>,
    delta: &OrdZSet<K, R>,
) -> (r: OrdZSet<K, R>)
    requires
        ordered_key::<K>(),
        forall|k: K|
            R::min_value() <= #[trigger] weight_of(integral@, k) + weight_of(delta@, k)
                <= R::max_value(),
    ensures
        is_canonical(r@),
        forall|k: K| #[trigger] weight_of(r@, k) == weight_of(integral@, k) + weight_of(delta@, k),
{
    integral.merge(delta)
}

/// This tick's change: the current value minus the previous one.
pub fn differentiate_step<K: Ord + Copy, R: ZRingValue>(
    current: &OrdZSet<K, R>,
    previous: &OrdZSet<K, R>,
) -> (r: OrdZSet<K, R>)
    requires
        ordered_key::<K>(),
        forall|i: int|
            0 <= i < previous@.len() ==> R::min_value() < (#[trigger] previous@[i]).1.as_int(),
        forall|k: K|
            R::min_value() <= #[trigger] weight_of(current@, k) - weight_of(previous@, k)
                <= R::max_value(),
    ensures
        is_canonical(r@),
        forall|k: K| #[trigger] weight_of(r@, k) == weight_of(current@, k) - weight_of(previous@, k),
{
    let negated = previous.neg();
    current.merge(&negated)
}

/// Differentiating the integral gives back the change: if `integral` is
/// `previous` plus `delta`, and `diff` is `integral` minus `previous`, all
/// canonical, then `diff == delta`.
pub proof fn lemma_differentiate_integrate<K: Ord, R: ZRingValue>(
    previous: Seq<(K, R)>,
    delta: Seq<(K, R)>,
    integral: Seq<(K, R)>,
    diff: Seq<(K, R)>,
)
    requires
        ordered_key::<K>(),
        is_canonical(delta),
        is_canonical(diff),
        forall|k: K| #[trigger] weight_of(integral, k) == weight_of(previous, k) + weight_of(delta, k),
        forall|k: K| #[trigger] weight_of(diff, k) == weight_of(integral, k) - weight_of(previous, k),
    ensures
        diff == delta,
{
    assert forall|k: K| #[trigger] weight_of(diff, k) == weight_of(delta, k) by {
        assert(weight_of(integral, k) == weight_of(previous, k) + weight_of(delta, k));
    }
    lemma_canonical_unique(diff, delta);
}

/// Integrating the change gives back the value: if `diff` is `current` minus
/// `previous`, and `integral` is `previous` plus `diff`, all canonical, then
/// `integral == current`.
pub proof fn lemma_integrate_differentiate<K: Ord, R: ZRingValue>(
    previous: Seq<(K, R)>,
    current: Seq<(K, R)>,
    diff: Seq<(K, R)>,
    integral: Seq<(K, R)>,
)
    requires
        ordered_key::<K>(),
        is_canonical(current),
        is_canonical(integral),
        forall|k: K| #[trigger] weight_of(diff, k) == weight_of(current, k) - weight_of(previous, k),
        forall|k: K| #[trigger] weight_of(integral, k) == weight_of(previous, k) + weight_of(diff, k),
    ensures
        integral == current,
{
    assert forall|k: K| #[trigger] weight_of(integral, k) == weight_of(current, k) by {
        assert(weight_of(diff, k) == weight_of(current, k) - weight_of(previous, k));
    }
    lemma_canonical_unique(integral, current);
}

/// Over whole streams: where each `integrals[t]` is the integral of
/// `changes` at tick `t` and each `diffs[t]` is `integrals[t]` minus the
/// integral before it, all canonical, the differences are the changes.
pub proof fn lemma_stream_differentiate_integrate<K: Ord, R: ZRingValue>(
    changes: Seq<Seq<(K, R)>>,
    diffs: Seq<Seq<(K, R)>>,
)
    requires
        ordered_key::<K>(),
        diffs.len() == changes.len(),
        forall|t: int| 0 <= t < changes.len() ==> is_canonical(#[trigger] changes[t]),
        forall|t: int| 0 <= t < diffs.len() ==> is_canonical(#[trigger] diffs[t]),
        forall|t: int, k: K|
            0 <= t < diffs.len() ==> #[trigger] weight_of(diffs[t], k) == integral_weight(
                changes,
                t,
                k,
            ) - integral_weight(changes, t - 1, k),
    ensures
        diffs == changes,
{
    assert forall|t: int| 0 <= t < diffs.len() implies #[trigger] diffs[t] == changes[t] by {
        assert forall|k: K| #[trigger] weight_of(diffs[t], k) == weight_of(changes[t], k) by {
            assert(weight_of(diffs[t], k) == integral_weight(changes, t, k) - integral_weight(
                changes,
                t - 1,
                k,
            ));
        }
        lemma_canonical_unique(diffs[t], changes[t]);
    }
    assert(diffs =~= changes);
}

/// Distinct, integrated, is the support of the integrated input with weight
/// one. At each tick `t` the incremental distinct emits, for the integrated
/// input `integrals[t]`, the distinct output minus the output integrated so
/// far (the contract of `DiffGroupTransformer<GroupDistinct>`). Then at every
/// tick the integrated output gives weight one to exactly the records of
/// positive integrated weight, and zero to all others.
pub proof fn lemma_distinct_integrates<K: Ord + Copy, R: ZRingValue>(
    inputs: Seq<Seq<(K, R)>>,
    integrals: Seq<Seq<(K, R)>>,
    outputs: Seq<Seq<(K, R)>>,
)
    requires
        outputs.len() == inputs.len(),
        integrals.len() == inputs.len(),
        forall|t: int, k: K|
            0 <= t < integrals.len() ==> #[trigger] weight_of(integrals[t], k) == integral_weight(
                inputs,
                t,
                k,
            ),
        forall|t: int, k: K|
            0 <= t < outputs.len() ==> #[trigger] weight_of(outputs[t], k)
                == <GroupDistinct as NonIncrementalGroupTransformer<K, K, R>>::output_weight(
                &GroupDistinct,
                integrals[t],
                k,
            ) - integral_weight(outputs, t - 1, k),
    ensures
        forall|t: int, k: K|
            0 <= t < outputs.len() ==> #[trigger] integral_weight(outputs, t, k) == if integral_weight(
                inputs,
                t,
                k,
            ) > 0 {
                1int
            } else {
                0
            },
{
    assert forall|t: int, k: K| 0 <= t < outputs.len() implies #[trigger] integral_weight(
        outputs,
        t,
        k,
    ) == if integral_weight(inputs, t, k) > 0 {
        1int
    } else {
        0
    } by {
        assert(weight_of(outputs[t], k) == <GroupDistinct as NonIncrementalGroupTransformer<
            K,
            K,
            R,
        >>::output_weight(&GroupDistinct, integrals[t], k) - integral_weight(outputs, t - 1, k));
        assert(weight_of(integrals[t], k) == integral_weight(inputs, t, k));
    }
}

} // verus!
