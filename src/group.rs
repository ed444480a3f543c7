//! Incremental transformation of groups: the output of each group is
//! recomputed from its integrated input, and the difference to the previous
//! output is emitted.

use vstd::prelude::*;
use vstd::std_specs::cmp::OrdSpec;
use crate::algebra::{ZRingValue, ordered_key, key_lt, lemma_key_order};
use crate::consolidation::{
    contribution, is_canonical, lemma_weight_absent, lemma_weight_concat,
    lemma_weight_push, lemma_weight_take_step, weight_of,
};
use crate::cursor::{BatchCursor, CursorPair, Direction};
use crate::batch::OrdZSet;
use core::cmp::Ordering;

verus! {

/// The order in which a transformer emits the outputs of a group.
#[derive(Clone, Copy, PartialEq, Eq, Structural, Debug)]
pub enum Monotonicity {
    Ascending,
    Descending,
    Unordered,
}

/// `m` is the canonical form of the sum of `a` and `b`.
pub open spec fn is_sum_of<I: Ord, R: ZRingValue>(
    m: Seq<(I, R)>,
    a: Seq<(I, R)>,
    b: Seq<(I, R)>,
) -> bool {
    &&& is_canonical(m)
    &&& forall|v: I| #[trigger] weight_of(m, v) == weight_of(a, v) + weight_of(b, v)
}

/// The weights of the sum of `a` and `b` are representable.
pub open spec fn sum_fits<I, R: ZRingValue>(a: Seq<(I, R)>, b: Seq<(I, R)>) -> bool {
    forall|v: I| R::min_value() <= #[trigger] weight_of(a, v) + weight_of(b, v) <= R::max_value()
}

/// Every weight of `s` can be negated.
pub open spec fn negatable<O, R: ZRingValue>(s: Seq<(O, R)>) -> bool {
    forall|i: int| 0 <= i < s.len() ==> R::min_value() < (#[trigger] s[i]).1.as_int()
}

/// Records ascend, possibly repeating.
pub open spec fn nondecreasing<T: Ord, R>(s: Seq<(T, R)>) -> bool {
    forall|i: int, j: int| 0 <= i < j < s.len() ==> !key_lt(#[trigger] s[j].0, #[trigger] s[i].0)
}

/// Records descend, possibly repeating.
pub open spec fn nonincreasing<T: Ord, R>(s: Seq<(T, R)>) -> bool {
    forall|i: int, j: int| 0 <= i < j < s.len() ==> !key_lt(#[trigger] s[i].0, #[trigger] s[j].0)
}

/// Records strictly descend.
pub open spec fn strictly_descending<T: Ord, R>(s: Seq<(T, R)>) -> bool {
    forall|i: int, j: int| 0 <= i < j < s.len() ==> key_lt(#[trigger] s[j].0, #[trigger] s[i].0)
}

/// Every record of `s` is at most `k`.
pub open spec fn all_at_most<T: Ord, R>(s: Seq<(T, R)>, k: T) -> bool {
    forall|i: int| 0 <= i < s.len() ==> !key_lt(k, (#[trigger] s[i]).0)
}

/// Every record of `s` is at least `k`.
pub open spec fn all_at_least<T: Ord, R>(s: Seq<(T, R)>, k: T) -> bool {
    forall|i: int| 0 <= i < s.len() ==> !key_lt((#[trigger] s[i]).0, k)
}

/// The records of `s` with the integers their weights stand for.
pub open spec fn weights_view<O, R: ZRingValue>(s: Seq<(O, R)>) -> Seq<(O, int)> {
    s.map_values(|e: (O, R)| (e.0, e.1.as_int()))
}

/// The retraction of a weighted record: the same record, negated.
pub open spec fn retraction<O>(e: (O, int)) -> (O, int) {
    (e.0, -e.1)
}

/// Every record of `s` retracted, in order.
pub open spec fn retract_all<O>(s: Seq<(O, int)>) -> Seq<(O, int)> {
    s.map_values(|e: (O, int)| retraction(e))
}

/// What an ascending transformer's change looks like: the new outputs in
/// order, each preceded by the retraction of the old outputs up to it; the
/// old outputs above the last new one are retracted at the end.
pub open spec fn ascending_emission<O: Ord>(outputs: Seq<(O, int)>, old: Seq<(O, int)>) -> Seq<
    (O, int),
>
    decreases outputs.len() + old.len(),
{
    if old.len() > 0 && (outputs.len() == 0 || !key_lt(outputs[0].0, old[0].0)) {
        seq![retraction(old[0])] + ascending_emission(outputs, old.drop_first())
    } else if outputs.len() > 0 {
        seq![outputs[0]] + ascending_emission(outputs.drop_first(), old)
    } else {
        seq![]
    }
}

/// What a descending transformer's change looks like: the old outputs are
/// walked from the last one down, each retracted before any new output
/// below or at it.
pub open spec fn descending_emission<O: Ord>(outputs: Seq<(O, int)>, old: Seq<(O, int)>) -> Seq<
    (O, int),
>
    decreases outputs.len() + old.len(),
{
    if old.len() > 0 && (outputs.len() == 0 || !key_lt(old.last().0, outputs[0].0)) {
        seq![retraction(old.last())] + descending_emission(outputs, old.drop_last())
    } else if outputs.len() > 0 {
        seq![outputs[0]] + descending_emission(outputs.drop_first(), old)
    } else {
        seq![]
    }
}

/// The change that a transformer of the given monotonicity emits, with
/// `outputs` the new output of the group and `old` its previous output: an
/// unordered transformer emits its new outputs as they are, then retracts
/// every old output in ascending order, a full replacement.
pub open spec fn emission<O: Ord>(m: Monotonicity, outputs: Seq<(O, int)>, old: Seq<(O, int)>) -> Seq<
    (O, int),
> {
    match m {
        Monotonicity::Ascending => ascending_emission(outputs, old),
        Monotonicity::Descending => descending_emission(outputs, old),
        Monotonicity::Unordered => outputs + retract_all(old),
    }
}

/// The values of positive weight in `m`, each with weight one, in order.
pub open spec fn positive_records<I, R: ZRingValue>(m: Seq<(I, R)>) -> Seq<(I, int)>
    decreases m.len(),
{
    if m.len() == 0 {
        seq![]
    } else if m.last().1.as_int() > 0 {
        positive_records(m.drop_last()).push((m.last().0, 1))
    } else {
        positive_records(m.drop_last())
    }
}

/// A transformer that computes the output of one group from the group's
/// whole contents.
pub trait NonIncrementalGroupTransformer<I: Ord, O: Ord, R: ZRingValue>: Sized {
    /// The weight of output `o` for a group whose contents are `input`.
    spec fn output_weight(&self, input: Seq<(I, R)>, o: O) -> int;

    /// The outputs, in order, for a group whose contents are `input`.
    spec fn output(&self, input: Seq<(I, R)>) -> Seq<(O, int)>;

    /// The order in which `transform` emits its outputs.
    spec fn spec_monotonicity(&self) -> Monotonicity;

    fn name(&self) -> &'static str;

    fn monotonicity(&self) -> (r: Monotonicity)
        ensures
            r == self.spec_monotonicity(),
    ;

    /// The output of the group that `cursor` presents, from its start.
    fn transform(&self, cursor: &mut CursorPair<'_, I, R>) -> (r: Vec<(O, R)>)
        requires
            old(cursor).wf(),
            old(cursor).key_direction() == Direction::Forward,
            old(cursor).cursor1().pos() == 0,
            old(cursor).cursor2().pos() == 0,
            sum_fits(old(cursor).cursor1().data(), old(cursor).cursor2().data()),
        ensures
            forall|m: Seq<(I, R)>, o: O|
                is_sum_of(m, old(cursor).cursor1().data(), old(cursor).cursor2().data())
                    ==> weight_of(r@, o) == #[trigger] self.output_weight(m, o),
            forall|m: Seq<(I, R)>|
                is_sum_of(m, old(cursor).cursor1().data(), old(cursor).cursor2().data())
                    ==> weights_view(r@) == #[trigger] self.output(m),
            self.spec_monotonicity() == Monotonicity::Ascending ==> crate::consolidation::strictly_sorted(r@),
            self.spec_monotonicity() == Monotonicity::Descending ==> strictly_descending(r@),
    ;
}

/// A transformer that, given the change to a group's input, the group's
/// input so far and its output so far, emits the change to its output.
pub trait GroupTransformer<I: Ord, O: Ord, R: ZRingValue>: Sized {
    /// The weight of output `o` for a group whose contents are `input`.
    spec fn output_weight(&self, input: Seq<(I, R)>, o: O) -> int;

    /// The change emitted, in order, for a group whose contents are now
    /// `input` and whose previous output was `old_output`.
    spec fn emitted(&self, input: Seq<(I, R)>, old_output: Seq<(O, int)>) -> Seq<(O, int)>;

    /// The order in which `transform` emits its outputs.
    spec fn spec_monotonicity(&self) -> Monotonicity;

    fn name(&self) -> &'static str;

    fn monotonicity(&self) -> (r: Monotonicity)
        ensures
            r == self.spec_monotonicity(),
    ;

    /// Emits, for the group whose input was `input_trace` and now changes
    /// by `input_delta`, the change from `output_trace` to the new output.
    fn transform(
        &self,
        input_delta: BatchCursor<'_, I, R>,
        input_trace: BatchCursor<'_, I, R>,
        output_trace: &mut BatchCursor<'_, O, R>,
    ) -> (r: Vec<(O, R)>)
        requires
            ordered_key::<I>(),
            ordered_key::<O>(),
            input_delta.inv(),
            input_trace.inv(),
            old(output_trace).inv(),
            is_canonical(input_delta.data()),
            is_canonical(input_trace.data()),
            is_canonical(old(output_trace).data()),
            input_delta.pos() == 0,
            input_trace.pos() == 0,
            old(output_trace).pos() == 0,
            input_delta.direction() == Direction::Forward,
            input_trace.direction() == Direction::Forward,
            old(output_trace).direction() == Direction::Forward,
            sum_fits(input_delta.data(), input_trace.data()),
            negatable(old(output_trace).data()),
        ensures
            forall|m: Seq<(I, R)>, o: O|
                is_sum_of(m, input_delta.data(), input_trace.data()) ==> weight_of(r@, o)
                    == #[trigger] self.output_weight(m, o) - weight_of(
                    old(output_trace).data(),
                    o,
                ),
            forall|m: Seq<(I, R)>|
                is_sum_of(m, input_delta.data(), input_trace.data()) ==> weights_view(r@)
                    == #[trigger] self.emitted(m, weights_view(old(output_trace).data())),
            self.spec_monotonicity() == Monotonicity::Ascending ==> nondecreasing(r@),
            self.spec_monotonicity() == Monotonicity::Descending ==> nonincreasing(r@),
            final(output_trace).inv(),
            final(output_trace).data() == old(output_trace).data(),
            !final(output_trace).valid(),
    ;
}

/// Turns a non-incremental transformer into an incremental one: the new
/// output of the group is computed in full, and the previous output is
/// retracted.
pub struct DiffGroupTransformer<T> {
    transformer: T,
}

impl<T> DiffGroupTransformer<T> {
    pub fn new(transformer: T) -> (r: Self)
        ensures
            r.inner() == transformer,
    {
        DiffGroupTransformer { transformer }
    }

    pub closed spec fn inner(&self) -> T {
        self.transformer
    }
}

/// A copy of a weight.
fn copy_weight<R: ZRingValue>(w: &R) -> (r: R)
    ensures
        r.as_int() == w.as_int(),
{
    proof {
        R::lemma_in_range(w);
        R::lemma_bounds();
    }
    R::zero().add_by_ref(w)
}

/// The negation of a weight above the smallest one.
fn negate<R: ZRingValue>(w: &R) -> (r: R)
    requires
        R::min_value() < w.as_int(),
    ensures
        r.as_int() == -w.as_int(),
{
    proof {
        R::lemma_in_range(w);
        R::lemma_bounds();
    }
    w.neg_by_ref()
}

pub proof fn lemma_weight_skip_step<T, R: ZRingValue>(s: Seq<(T, R)>, p: int, k: T)
    requires
        0 <= p < s.len(),
    ensures
        weight_of(s.skip(p), k) == contribution(s[p], k) + weight_of(s.skip(p + 1), k),
{
    let one = seq![s[p]];
    assert(s.skip(p) =~= one + s.skip(p + 1));
    lemma_weight_concat(one, s.skip(p + 1), k);
    assert(one.drop_last() =~= Seq::<(T, R)>::empty());
    assert(weight_of(one, k) == weight_of(one.drop_last(), k) + contribution(s[p], k));
}

pub proof fn lemma_weight_take_skip<T, R: ZRingValue>(s: Seq<(T, R)>, p: int, k: T)
    requires
        0 <= p <= s.len(),
    ensures
        weight_of(s, k) == weight_of(s.take(p), k) + weight_of(s.skip(p), k),
{
    assert(s =~= s.take(p) + s.skip(p));
    lemma_weight_concat(s.take(p), s.skip(p), k);
}

proof fn lemma_le_le<T: Ord>(x: T, y: T, z: T)
    requires
        ordered_key::<T>(),
        !key_lt(y, x),
        !key_lt(z, y),
    ensures
        !key_lt(z, x),
{
    lemma_key_order::<T>();
    if key_lt(z, x) {
        if y.cmp_spec(&x) == Ordering::Greater {
            assert(key_lt(x, y));
            assert(key_lt(z, y));
        } else {
            assert(y.cmp_spec(&x) == Ordering::Equal);
        }
    }
}

proof fn lemma_lt_asym<T: Ord>(x: T, y: T)
    requires
        ordered_key::<T>(),
        key_lt(x, y),
    ensures
        !key_lt(y, x),
{
    lemma_key_order::<T>();
}

/// A bound above every record is also below any larger bound.
proof fn lemma_raise_bound<T: Ord, R>(s: Seq<(T, R)>, a: T, b: T)
    requires
        ordered_key::<T>(),
        all_at_most(s, a),
        !key_lt(b, a),
    ensures
        all_at_most(s, b),
{
    assert forall|i: int| 0 <= i < s.len() implies !key_lt(b, (#[trigger] s[i]).0) by {
        lemma_le_le(s[i].0, a, b);
    }
}

/// A bound below every record is also above any smaller bound.
proof fn lemma_lower_bound<T: Ord, R>(s: Seq<(T, R)>, a: T, b: T)
    requires
        ordered_key::<T>(),
        all_at_least(s, a),
        !key_lt(a, b),
    ensures
        all_at_least(s, b),
{
    assert forall|i: int| 0 <= i < s.len() implies !key_lt((#[trigger] s[i]).0, b) by {
        lemma_le_le(b, a, s[i].0);
    }
}

proof fn lemma_push_up<T: Ord, R>(s: Seq<(T, R)>, e: (T, R))
    requires
        ordered_key::<T>(),
        nondecreasing(s),
        all_at_most(s, e.0),
    ensures
        nondecreasing(s.push(e)),
        all_at_most(s.push(e), e.0),
{
    lemma_key_order::<T>();
    assert forall|i: int, j: int| 0 <= i < j < s.push(e).len() implies !key_lt(
        #[trigger] s.push(e)[j].0,
        #[trigger] s.push(e)[i].0,
    ) by {
        if j < s.len() {
            assert(s.push(e)[i] == s[i] && s.push(e)[j] == s[j]);
        }
    }
    assert forall|i: int| 0 <= i < s.push(e).len() implies !key_lt(e.0, (#[trigger] s.push(e)[i]).0) by {
        if i < s.len() {
            assert(s.push(e)[i] == s[i]);
        }
    }
}

proof fn lemma_push_down<T: Ord, R>(s: Seq<(T, R)>, e: (T, R))
    requires
        ordered_key::<T>(),
        nonincreasing(s),
        all_at_least(s, e.0),
    ensures
        nonincreasing(s.push(e)),
        all_at_least(s.push(e), e.0),
{
    lemma_key_order::<T>();
    assert forall|i: int, j: int| 0 <= i < j < s.push(e).len() implies !key_lt(
        #[trigger] s.push(e)[i].0,
        #[trigger] s.push(e)[j].0,
    ) by {
        if j < s.len() {
            assert(s.push(e)[i] == s[i] && s.push(e)[j] == s[j]);
        }
    }
    assert forall|i: int| 0 <= i < s.push(e).len() implies !key_lt((#[trigger] s.push(e)[i]).0, e.0) by {
        if i < s.len() {
            assert(s.push(e)[i] == s[i]);
        }
    }
}

/// The old outputs that a backward cursor has not passed yet.
pub open spec fn remaining_back<O: Ord, R: ZRingValue>(c: BatchCursor<'_, O, R>) -> Seq<(O, int)> {
    if c.valid() {
        weights_view(c.data()).take(c.pos() + 1)
    } else {
        Seq::empty()
    }
}

pub proof fn lemma_view_push<O, R: ZRingValue>(s: Seq<(O, R)>, e: (O, R))
    ensures
        weights_view(s.push(e)) == weights_view(s).push((e.0, e.1.as_int())),
{
    assert(weights_view(s.push(e)) =~= weights_view(s).push((e.0, e.1.as_int())));
}

/// With no new outputs left, an ascending change retracts the rest.
pub proof fn lemma_ascending_rest<O: Ord>(old: Seq<(O, int)>)
    ensures
        ascending_emission(Seq::<(O, int)>::empty(), old) == retract_all(old),
    decreases old.len(),
{
    if old.len() > 0 {
        lemma_ascending_rest(old.drop_first());
        assert(retract_all(old) =~= seq![retraction(old[0])] + retract_all(old.drop_first()));
    } else {
        assert(retract_all(old) =~= Seq::<(O, int)>::empty());
    }
}

/// Pushes `(k, -w)` for each remaining pair `(k, w)` of a forward cursor.
fn retract_forward<O: Ord + Copy, R: ZRingValue>(
    output_trace: &mut BatchCursor<'_, O, R>,
    out: &mut Vec<(O, R)>,
)
    requires
        ordered_key::<O>(),
        is_canonical(old(output_trace).data()),
        old(output_trace).inv(),
        old(output_trace).direction() == Direction::Forward,
        negatable(old(output_trace).data()),
    ensures
        nondecreasing(old(out)@) && (old(output_trace).valid() ==> all_at_most(
            old(out)@,
            old(output_trace).current_key(),
        )) ==> nondecreasing(final(out)@),
        final(output_trace).inv(),
        final(output_trace).data() == old(output_trace).data(),
        final(output_trace).direction() == Direction::Forward,
        !final(output_trace).valid(),
        weights_view(final(out)@) == weights_view(old(out)@) + retract_all(
            weights_view(old(output_trace).data()).skip(old(output_trace).pos()),
        ),
        forall|o: O| #[trigger]
            weight_of(final(out)@, o) == weight_of(old(out)@, o) - weight_of(
                old(output_trace).data().skip(old(output_trace).pos()),
                o,
            ),
{
    let ghost od = output_trace.data();
    let ghost start = output_trace.pos();
    let ghost out0 = out@;
    let ghost ordered = nondecreasing(out0) && (output_trace.valid() ==> all_at_most(
        out0,
        output_trace.current_key(),
    ));
    while output_trace.key_valid()
        invariant
            ordered_key::<O>(),
            is_canonical(od),
            ordered ==> nondecreasing(out@),
            ordered ==> (output_trace.valid() ==> all_at_most(out@, output_trace.current_key())),
            weights_view(out@) + retract_all(weights_view(od).skip(output_trace.pos()))
                == weights_view(out0) + retract_all(weights_view(od).skip(start)),
            output_trace.inv(),
            output_trace.data() == od,
            output_trace.direction() == Direction::Forward,
            negatable(od),
            start <= output_trace.pos(),
            forall|o: O| #[trigger]
                weight_of(out@, o) == weight_of(out0, o) - (weight_of(od.skip(start), o) - weight_of(
                    od.skip(output_trace.pos()),
                    o,
                )),
        decreases od.len() - output_trace.pos(),
    {
        let k = *output_trace.key();
        let w = negate(output_trace.weight());
        let ghost p = output_trace.pos();
        let ghost before = out@;
        out.push((k, w));
        output_trace.step_key();
        proof {
            lemma_view_push(before, (k, w));
            let rest = weights_view(od).skip(p);
            assert(retract_all(rest) =~= seq![retraction(rest[0])] + retract_all(
                weights_view(od).skip(p + 1),
            ));
            assert(weights_view(out@) + retract_all(weights_view(od).skip(p + 1)) =~= weights_view(
                before,
            ) + retract_all(rest));
            assert forall|o: O| #[trigger]
                weight_of(out@, o) == weight_of(out0, o) - (weight_of(od.skip(start), o) - weight_of(
                    od.skip(output_trace.pos()),
                    o,
                )) by {
                lemma_weight_push(before, (k, w), o);
                lemma_weight_skip_step(od, p, o);
            }
            if ordered {
                lemma_push_up(before, (k, w));
                if output_trace.valid() {
                    assert(key_lt(od[p].0, od[p + 1].0));
                    lemma_lt_asym(od[p].0, od[p + 1].0);
                    lemma_raise_bound(out@, k, output_trace.current_key());
                }
            }
        }
    }
    proof {
        assert(od.skip(od.len() as int) =~= Seq::<(O, R)>::empty());
        assert(retract_all(weights_view(od).skip(od.len() as int)) =~= Seq::<(O, int)>::empty());
        assert(weights_view(out@) =~= weights_view(out@) + Seq::<(O, int)>::empty());
    }
}

/// Pushes a copy of `vals[i]`.
fn push_output<O: Copy, R: ZRingValue>(out: &mut Vec<(O, R)>, vals: &Vec<(O, R)>, i: usize)
    requires
        i < vals.len(),
    ensures
        final(out)@ == old(out)@.push((vals@[i as int].0, final(out)@.last().1)),
        final(out)@.last().1.as_int() == vals@[i as int].1.as_int(),
        forall|o: O| #[trigger]
            weight_of(final(out)@, o) == weight_of(old(out)@, o) + contribution(vals@[i as int], o),
{
    let v = vals[i].0;
    let w = copy_weight(&vals[i].1);
    let ghost before = out@;
    out.push((v, w));
    proof {
        assert(out@ =~= before.push((v, w)));
        assert forall|o: O| #[trigger]
            weight_of(out@, o) == weight_of(before, o) + contribution(vals@[i as int], o) by {
            lemma_weight_push(before, (v, w), o);
        }
    }
}

impl<I: Ord, O: Ord + Copy, R: ZRingValue, T: NonIncrementalGroupTransformer<I, O, R>> GroupTransformer<
    I,
    O,
    R,
> for DiffGroupTransformer<T> {
    open spec fn output_weight(&self, input: Seq<(I, R)>, o: O) -> int {
        self.inner().output_weight(input, o)
    }

    open spec fn emitted(&self, input: Seq<(I, R)>, old_output: Seq<(O, int)>) -> Seq<(O, int)> {
        emission(self.inner().spec_monotonicity(), self.inner().output(input), old_output)
    }

    open spec fn spec_monotonicity(&self) -> Monotonicity {
        self.inner().spec_monotonicity()
    }

    fn name(&self) -> &'static str {
        self.transformer.name()
    }

    fn monotonicity(&self) -> (r: Monotonicity) {
        self.transformer.monotonicity()
    }

    fn transform(
        &self,
        input_delta: BatchCursor<'_, I, R>,
        input_trace: BatchCursor<'_, I, R>,
        output_trace: &mut BatchCursor<'_, O, R>,
    ) -> (r: Vec<(O, R)>) {
        let mut pair = CursorPair::new(input_delta, input_trace);
        let vals = self.transformer.transform(&mut pair);
        let ghost od = output_trace.data();
        let ghost vv = weights_view(vals@);
        let ghost ov = weights_view(od);
        let mut out: Vec<(O, R)> = Vec::new();
        proof {
            assert(vv.skip(0) =~= vv);
            assert(ov.skip(0) =~= ov);
            assert(weights_view(out@) =~= Seq::<(O, int)>::empty());
            assert(od.take(0) =~= Seq::<(O, R)>::empty());
            assert(vals@.take(0) =~= Seq::<(O, R)>::empty());
            assert(od.skip(0) =~= od);
        }
        match self.transformer.monotonicity() {
            Monotonicity::Ascending => {
                // Each new output is preceded by the retraction of the old
                // outputs up to it, so that the result ascends.
                let mut i: usize = 0;
                while i < vals.len()
                    invariant
                        ordered_key::<O>(),
                        is_canonical(od),
                        crate::consolidation::strictly_sorted(vals@),
                        weights_view(out@) + ascending_emission(vv.skip(i as int), ov.skip(output_trace.pos()))
                            == ascending_emission(vv, ov),
                        vv == weights_view(vals@),
                        ov == weights_view(od),
                        nondecreasing(out@),
                        output_trace.valid() ==> all_at_most(out@, output_trace.current_key()),
                        i == 0 ==> out@.len() == 0,
                        i > 0 ==> all_at_most(out@, vals@[i - 1].0),
                        output_trace.inv(),
                        output_trace.data() == od,
                        output_trace.direction() == Direction::Forward,
                        negatable(od),
                        i <= vals.len(),
                        forall|o: O| #[trigger]
                            weight_of(out@, o) == weight_of(vals@.take(i as int), o) - weight_of(
                                od.take(output_trace.pos()),
                                o,
                            ),
                    decreases vals.len() - i,
                {
                    let v: O = vals[i].0;
                    proof {
                        if i > 0 {
                            assert(key_lt(vals@[i - 1].0, vals@[i as int].0));
                            lemma_lt_asym(vals@[i - 1].0, v);
                            lemma_raise_bound(out@, vals@[i - 1].0, v);
                        }
                    }
                    loop
                        invariant
                            ordered_key::<O>(),
                            is_canonical(od),
                            nondecreasing(out@),
                            all_at_most(out@, v),
                            v == vals@[i as int].0,
                            weights_view(out@) + ascending_emission(vv.skip(i as int), ov.skip(output_trace.pos()))
                                == ascending_emission(vv, ov),
                            vv == weights_view(vals@),
                            ov == weights_view(od),
                            output_trace.valid() ==> all_at_most(out@, output_trace.current_key()),
                            output_trace.inv(),
                            output_trace.data() == od,
                            output_trace.direction() == Direction::Forward,
                            negatable(od),
                            i < vals.len(),
                            forall|o: O| #[trigger]
                                weight_of(out@, o) == weight_of(vals@.take(i as int), o)
                                    - weight_of(od.take(output_trace.pos()), o),
                        ensures
                            nondecreasing(out@),
                            all_at_most(out@, v),
                            output_trace.valid() ==> key_lt(v, output_trace.current_key()),
                            weights_view(out@) + ascending_emission(vv.skip(i as int), ov.skip(output_trace.pos()))
                                == ascending_emission(vv, ov),
                            vv == weights_view(vals@),
                            ov == weights_view(od),
                            output_trace.inv(),
                            output_trace.data() == od,
                            output_trace.direction() == Direction::Forward,
                            forall|o: O| #[trigger]
                                weight_of(out@, o) == weight_of(vals@.take(i as int), o)
                                    - weight_of(od.take(output_trace.pos()), o),
                        decreases od.len() - output_trace.pos(),
                    {
                        proof {
                            lemma_key_order::<O>();
                        }
                        if !output_trace.key_valid() {
                            break;
                        }
                        let k = *output_trace.key();
                        match k.cmp(&v) {
                            Ordering::Greater => {
                                break;
                            },
                            _ => {
                                let w = negate(output_trace.weight());
                                let ghost p = output_trace.pos();
                                let ghost before = out@;
                                out.push((k, w));
                                output_trace.step_key();
                                proof {
                                    assert forall|o: O| #[trigger]
                                        weight_of(out@, o) == weight_of(vals@.take(i as int), o)
                                            - weight_of(od.take(output_trace.pos()), o) by {
                                        lemma_weight_push(before, (k, w), o);
                                        lemma_weight_take_step(od, p, o);
                                    }
                                    lemma_push_up(before, (k, w));
                                    assert(!key_lt(v, k));
                                    lemma_view_push(before, (k, w));
                                    let rest = ov.skip(p);
                                    assert(vv.skip(i as int)[0] == vv[i as int]);
                                    assert(rest[0] == ov[p]);
                                    assert(rest.drop_first() =~= ov.skip(p + 1));
                                    assert(ascending_emission(vv.skip(i as int), rest) == seq![
                                        retraction(rest[0]),
                                    ] + ascending_emission(vv.skip(i as int), rest.drop_first()));
                                    assert(weights_view(out@) + ascending_emission(
                                        vv.skip(i as int),
                                        ov.skip(p + 1),
                                    ) =~= weights_view(before) + ascending_emission(
                                        vv.skip(i as int),
                                        rest,
                                    ));
                                    assert forall|j: int| 0 <= j < out@.len() implies !key_lt(v, (#[trigger] out@[j]).0) by {
                                        if j < before.len() {
                                            assert(out@[j] == before[j]);
                                        }
                                    }
                                    if output_trace.valid() {
                                        assert(key_lt(od[p].0, od[p + 1].0));
                                        lemma_lt_asym(od[p].0, od[p + 1].0);
                                        lemma_raise_bound(out@, k, output_trace.current_key());
                                    }
                                }
                            },
                        }
                    }
                    let ghost before = out@;
                    push_output(&mut out, &vals, i);
                    proof {
                        assert forall|o: O| #[trigger]
                            weight_of(out@, o) == weight_of(vals@.take(i + 1), o) - weight_of(
                                od.take(output_trace.pos()),
                                o,
                            ) by {
                            lemma_weight_take_step(vals@, i as int, o);
                        }
                        lemma_push_up(before, out@.last());
                        lemma_view_push(before, out@.last());
                        let rest = ov.skip(output_trace.pos());
                        if !output_trace.valid() {
                            assert(rest =~= Seq::<(O, int)>::empty());
                        } else {
                            assert(rest[0] == ov[output_trace.pos()]);
                        }
                        assert(vv.skip(i as int)[0] == vv[i as int]);
                        assert(vv.skip(i as int).drop_first() =~= vv.skip(i + 1));
                        assert(ascending_emission(vv.skip(i as int), rest) == seq![vv[i as int]]
                            + ascending_emission(vv.skip(i + 1), rest));
                        assert(weights_view(out@) + ascending_emission(vv.skip(i + 1), rest)
                            =~= weights_view(before) + ascending_emission(vv.skip(i as int), rest));
                        if output_trace.valid() {
                            lemma_lt_asym(v, output_trace.current_key());
                            lemma_raise_bound(out@, v, output_trace.current_key());
                        }
                    }
                    i = i + 1;
                }
                let ghost before = out@;
                let ghost p = output_trace.pos();
                retract_forward(output_trace, &mut out);
                proof {
                    assert(vv.skip(vv.len() as int) =~= Seq::<(O, int)>::empty());
                    lemma_ascending_rest(ov.skip(p));
                    assert(weights_view(out@) == ascending_emission(vv, ov));
                    assert(vals@.take(vals@.len() as int) =~= vals@);
                    assert forall|o: O| #[trigger]
                        weight_of(out@, o) == weight_of(vals@, o) - weight_of(od, o) by {
                        lemma_weight_take_skip(od, p, o);
                    }
                }
            },
            Monotonicity::Descending => {
                // Walks the old outputs from the top down, so that the result
                // descends.
                output_trace.fast_forward_keys();
                proof {
                    if output_trace.valid() {
                        assert(ov.take(output_trace.pos() + 1) =~= ov);
                    } else {
                        assert(ov =~= Seq::<(O, int)>::empty());
                    }
                }
                let mut i: usize = 0;
                while i < vals.len()
                    invariant
                        ordered_key::<O>(),
                        is_canonical(od),
                        strictly_descending(vals@),
                        weights_view(out@) + descending_emission(vv.skip(i as int), remaining_back(*output_trace))
                            == descending_emission(vv, ov),
                        vv == weights_view(vals@),
                        ov == weights_view(od),
                        nonincreasing(out@),
                        output_trace.valid() ==> all_at_least(out@, output_trace.current_key()),
                        i == 0 ==> out@.len() == 0,
                        i > 0 ==> all_at_least(out@, vals@[i - 1].0),
                        output_trace.inv(),
                        output_trace.data() == od,
                        output_trace.direction() == Direction::Backward,
                        negatable(od),
                        i <= vals.len(),
                        output_trace.valid() || output_trace.pos() == od.len(),
                        forall|o: O| #[trigger]
                            weight_of(out@, o) == weight_of(vals@.take(i as int), o) - weight_of(
                                if output_trace.valid() {
                                    od.skip(output_trace.pos() + 1)
                                } else {
                                    od
                                },
                                o,
                            ),
                    decreases vals.len() - i,
                {
                    let v: O = vals[i].0;
                    proof {
                        if i > 0 {
                            assert(key_lt(v, vals@[i - 1].0));
                            lemma_lt_asym(v, vals@[i - 1].0);
                            lemma_lower_bound(out@, vals@[i - 1].0, v);
                        }
                    }
                    loop
                        invariant
                            ordered_key::<O>(),
                            is_canonical(od),
                            nonincreasing(out@),
                            all_at_least(out@, v),
                            v == vals@[i as int].0,
                            weights_view(out@) + descending_emission(vv.skip(i as int), remaining_back(*output_trace))
                                == descending_emission(vv, ov),
                            vv == weights_view(vals@),
                            ov == weights_view(od),
                            output_trace.valid() ==> all_at_least(out@, output_trace.current_key()),
                            output_trace.inv(),
                            output_trace.data() == od,
                            output_trace.direction() == Direction::Backward,
                            negatable(od),
                            i < vals.len(),
                            output_trace.valid() || output_trace.pos() == od.len(),
                            forall|o: O| #[trigger]
                                weight_of(out@, o) == weight_of(vals@.take(i as int), o)
                                    - weight_of(
                                    if output_trace.valid() {
                                        od.skip(output_trace.pos() + 1)
                                    } else {
                                        od
                                    },
                                    o,
                                ),
                        ensures
                            nonincreasing(out@),
                            all_at_least(out@, v),
                            output_trace.valid() ==> key_lt(output_trace.current_key(), v),
                            weights_view(out@) + descending_emission(vv.skip(i as int), remaining_back(*output_trace))
                                == descending_emission(vv, ov),
                            vv == weights_view(vals@),
                            ov == weights_view(od),
                            output_trace.inv(),
                            output_trace.data() == od,
                            output_trace.direction() == Direction::Backward,
                            output_trace.valid() || output_trace.pos() == od.len(),
                            forall|o: O| #[trigger]
                                weight_of(out@, o) == weight_of(vals@.take(i as int), o)
                                    - weight_of(
                                    if output_trace.valid() {
                                        od.skip(output_trace.pos() + 1)
                                    } else {
                                        od
                                    },
                                    o,
                                ),
                        decreases (if output_trace.valid() {
                            output_trace.pos() + 1
                        } else {
                            0
                        }),
                    {
                        proof {
                            lemma_key_order::<O>();
                        }
                        if !output_trace.key_valid() {
                            break;
                        }
                        let k = *output_trace.key();
                        match k.cmp(&v) {
                            Ordering::Less => {
                                break;
                            },
                            _ => {
                                let w = negate(output_trace.weight());
                                let ghost p = output_trace.pos();
                                let ghost before = out@;
                                out.push((k, w));
                                output_trace.step_key_reverse();
                                proof {
                                    assert(od.skip(0) =~= od);
                                    assert forall|o: O| #[trigger]
                                        weight_of(out@, o) == weight_of(vals@.take(i as int), o)
                                            - weight_of(
                                            if output_trace.valid() {
                                                od.skip(output_trace.pos() + 1)
                                            } else {
                                                od
                                            },
                                            o,
                                        ) by {
                                        lemma_weight_push(before, (k, w), o);
                                        lemma_weight_skip_step(od, p, o);
                                    }
                                    lemma_push_down(before, (k, w));
                                    assert(!key_lt(k, v));
                                    lemma_view_push(before, (k, w));
                                    let rest = ov.take(p + 1);
                                    assert(rest.last() == ov[p]);
                                    assert(rest.drop_last() =~= ov.take(p));
                                    assert(ov.take(0) =~= Seq::<(O, int)>::empty());
                                    assert(remaining_back(*output_trace) == ov.take(p));
                                    assert(vv.skip(i as int)[0] == vv[i as int]);
                                    assert(descending_emission(vv.skip(i as int), rest) == seq![
                                        retraction(rest.last()),
                                    ] + descending_emission(vv.skip(i as int), rest.drop_last()));
                                    assert(weights_view(out@) + descending_emission(
                                        vv.skip(i as int),
                                        ov.take(p),
                                    ) =~= weights_view(before) + descending_emission(
                                        vv.skip(i as int),
                                        rest,
                                    ));
                                    assert forall|j: int| 0 <= j < out@.len() implies !key_lt((#[trigger] out@[j]).0, v) by {
                                        if j < before.len() {
                                            assert(out@[j] == before[j]);
                                        }
                                    }
                                    if output_trace.valid() {
                                        assert(key_lt(od[p - 1].0, od[p].0));
                                        lemma_lt_asym(od[p - 1].0, od[p].0);
                                        lemma_lower_bound(out@, k, output_trace.current_key());
                                    }
                                }
                            },
                        }
                    }
                    let ghost before = out@;
                    push_output(&mut out, &vals, i);
                    proof {
                        assert forall|o: O| #[trigger]
                            weight_of(out@, o) == weight_of(vals@.take(i + 1), o) - weight_of(
                                if output_trace.valid() {
                                    od.skip(output_trace.pos() + 1)
                                } else {
                                    od
                                },
                                o,
                            ) by {
                            lemma_weight_take_step(vals@, i as int, o);
                        }
                        lemma_push_down(before, out@.last());
                        lemma_view_push(before, out@.last());
                        let rest = remaining_back(*output_trace);
                        if output_trace.valid() {
                            assert(rest.last() == ov[output_trace.pos()]);
                        }
                        assert(vv.skip(i as int)[0] == vv[i as int]);
                        assert(vv.skip(i as int).drop_first() =~= vv.skip(i + 1));
                        assert(descending_emission(vv.skip(i as int), rest) == seq![vv[i as int]]
                            + descending_emission(vv.skip(i + 1), rest));
                        assert(weights_view(out@) + descending_emission(vv.skip(i + 1), rest)
                            =~= weights_view(before) + descending_emission(vv.skip(i as int), rest));
                        if output_trace.valid() {
                            lemma_lt_asym(output_trace.current_key(), v);
                            lemma_lower_bound(out@, v, output_trace.current_key());
                        }
                    }
                    i = i + 1;
                }
                // Retracts what remains below.
                proof {
                    assert(vals@.take(vals@.len() as int) =~= vals@);
                    assert(vv.skip(vv.len() as int) =~= Seq::<(O, int)>::empty());
                }
                loop
                    invariant
                        ordered_key::<O>(),
                        is_canonical(od),
                        nonincreasing(out@),
                        output_trace.valid() ==> all_at_least(out@, output_trace.current_key()),
                        weights_view(out@) + descending_emission(Seq::<(O, int)>::empty(), remaining_back(*output_trace))
                            == descending_emission(vv, ov),
                        ov == weights_view(od),
                        output_trace.inv(),
                        output_trace.data() == od,
                        output_trace.direction() == Direction::Backward,
                        negatable(od),
                        output_trace.valid() || output_trace.pos() == od.len(),
                        forall|o: O| #[trigger]
                            weight_of(out@, o) == weight_of(vals@, o) - weight_of(
                                if output_trace.valid() {
                                    od.skip(output_trace.pos() + 1)
                                } else {
                                    od
                                },
                                o,
                            ),
                    ensures
                        nonincreasing(out@),
                        weights_view(out@) == descending_emission(vv, ov),
                        !output_trace.valid(),
                        forall|o: O| #[trigger] weight_of(out@, o) == weight_of(vals@, o) - weight_of(od, o),
                    decreases (if output_trace.valid() {
                        output_trace.pos() + 1
                    } else {
                        0
                    }),
                {
                    proof {
                        assert(vals@.take(vals@.len() as int) =~= vals@);
                    }
                    if !output_trace.key_valid() {
                        proof {
                            assert(weights_view(out@) =~= weights_view(out@) + Seq::<(O, int)>::empty());
                        }
                        break;
                    }
                    let k = *output_trace.key();
                    let w = negate(output_trace.weight());
                    let ghost p = output_trace.pos();
                    let ghost before = out@;
                    out.push((k, w));
                    output_trace.step_key_reverse();
                    proof {
                        assert(od.skip(0) =~= od);
                        assert forall|o: O| #[trigger]
                            weight_of(out@, o) == weight_of(vals@, o) - weight_of(
                                if output_trace.valid() {
                                    od.skip(output_trace.pos() + 1)
                                } else {
                                    od
                                },
                                o,
                            ) by {
                            lemma_weight_push(before, (k, w), o);
                            lemma_weight_skip_step(od, p, o);
                        }
                        lemma_push_down(before, (k, w));
                        lemma_view_push(before, (k, w));
                        let rest = ov.take(p + 1);
                        assert(rest.last() == ov[p]);
                        assert(rest.drop_last() =~= ov.take(p));
                        assert(ov.take(0) =~= Seq::<(O, int)>::empty());
                        assert(remaining_back(*output_trace) == ov.take(p));
                        assert(descending_emission(Seq::<(O, int)>::empty(), rest) == seq![
                            retraction(rest.last()),
                        ] + descending_emission(Seq::<(O, int)>::empty(), rest.drop_last()));
                        assert(weights_view(out@) + descending_emission(Seq::<(O, int)>::empty(), ov.take(p))
                            =~= weights_view(before) + descending_emission(Seq::<(O, int)>::empty(), rest));
                        if output_trace.valid() {
                            assert(key_lt(od[p - 1].0, od[p].0));
                            lemma_lt_asym(od[p - 1].0, od[p].0);
                            lemma_lower_bound(out@, k, output_trace.current_key());
                        }
                    }
                }
            },
            Monotonicity::Unordered => {
                let mut i: usize = 0;
                while i < vals.len()
                    invariant
                        i <= vals.len(),
                        vv == weights_view(vals@),
                        weights_view(out@) == vv.take(i as int),
                        forall|o: O| #[trigger] weight_of(out@, o) == weight_of(vals@.take(i as int), o),
                    decreases vals.len() - i,
                {
                    let ghost before = out@;
                    push_output(&mut out, &vals, i);
                    proof {
                        lemma_view_push(before, out@.last());
                        assert(vv.take(i + 1) =~= vv.take(i as int).push(vv[i as int]));
                        assert forall|o: O| #[trigger]
                            weight_of(out@, o) == weight_of(vals@.take(i + 1), o) by {
                            lemma_weight_take_step(vals@, i as int, o);
                        }
                    }
                    i = i + 1;
                }
                // Retracts the whole previous output.
                retract_forward(output_trace, &mut out);
                proof {
                    assert(vals@.take(vals@.len() as int) =~= vals@);
                    assert(vv.take(vv.len() as int) =~= vv);
                    assert(weights_view(out@) == vv + retract_all(ov));
                }
            },
        }
        proof {
            // The transformer's outputs are its output for any group sum.
            assert forall|m: Seq<(I, R)>|
                is_sum_of(m, input_delta.data(), input_trace.data()) implies weights_view(out@)
                == #[trigger] self.emitted(m, ov) by {
                assert(self.inner().output(m) == vv);
            }
        }
        out
    }
}

/// Per group, keeps each value of positive weight once, with weight one.
pub struct GroupDistinct;

impl<I: Ord + Copy, R: ZRingValue> NonIncrementalGroupTransformer<I, I, R> for GroupDistinct {
    open spec fn output_weight(&self, input: Seq<(I, R)>, o: I) -> int {
        if weight_of(input, o) > 0 {
            1
        } else {
            0
        }
    }

    open spec fn output(&self, input: Seq<(I, R)>) -> Seq<(I, int)> {
        positive_records(input)
    }

    open spec fn spec_monotonicity(&self) -> Monotonicity {
        Monotonicity::Ascending
    }

    fn name(&self) -> &'static str {
        "Distinct"
    }

    fn monotonicity(&self) -> (r: Monotonicity) {
        Monotonicity::Ascending
    }

    fn transform(&self, cursor: &mut CursorPair<'_, I, R>) -> (r: Vec<(I, R)>) {
        let all = cursor.collect();
        let mut out: Vec<(I, R)> = Vec::new();
        let mut i: usize = 0;
        proof {
            assert(all@.take(0) =~= Seq::<(I, R)>::empty());
        }
        while i < all.len()
            invariant
                ordered_key::<I>(),
                is_canonical(all@),
                i <= all.len(),
                crate::consolidation::strictly_sorted(out@),
                weights_view(out@) == positive_records(all@.take(i as int)),
                i < all.len() ==> forall|j: int| 0 <= j < out@.len() ==> key_lt((#[trigger] out@[j]).0, all@[i as int].0),
                forall|o: I| #[trigger]
                    weight_of(out@, o) == if weight_of(all@.take(i as int), o) > 0 {
                        1int
                    } else {
                        0
                    },
            decreases all.len() - i,
        {
            proof {
                lemma_key_order::<I>();
                assert forall|a: int, b: int| 0 <= a < b < all@.len() implies all@[a].0
                    != all@[b].0 by {
                    assert(key_lt(all@[a].0, all@[b].0));
                }
            }
            let ghost before = out@;
            let ghost e = all@[i as int];
            let keep = all[i].1.is_positive();
            if keep {
                let k = all[i].0;
                out.push((k, R::one()));
            }
            proof {
                assert(all@.take(i + 1).drop_last() =~= all@.take(i as int));
                if keep {
                    assert(weights_view(out@) =~= weights_view(before).push((e.0, 1)));
                } else {
                    assert(out@ == before);
                }
                if i + 1 < all.len() {
                    assert(key_lt(all@[i as int].0, all@[i + 1].0));
                    assert forall|j: int| 0 <= j < out@.len() implies key_lt((#[trigger] out@[j]).0, all@[i + 1].0) by {
                        if j < before.len() {
                            assert(key_lt(before[j].0, all@[i as int].0));
                        }
                    }
                }
                assert forall|a: int, b: int| 0 <= a < b < out@.len() implies key_lt(#[trigger] out@[a].0, #[trigger] out@[b].0) by {
                    if b == before.len() {
                        assert(key_lt(before[a].0, all@[i as int].0));
                    } else {
                        assert(out@[a] == before[a] && out@[b] == before[b]);
                    }
                }
                assert forall|o: I| #[trigger]
                    weight_of(out@, o) == if weight_of(all@.take(i + 1), o) > 0 {
                        1int
                    } else {
                        0
                    } by {
                    lemma_weight_take_step(all@, i as int, o);
                    if keep {
                        lemma_weight_push(before, out@.last(), o);
                        assert(out@ =~= before.push(out@.last()));
                    }
                    if o == e.0 {
                        lemma_weight_absent(all@.take(i as int), o);
                    }
                }
            }
            i = i + 1;
        }
        proof {
            assert(all@.take(all@.len() as int) =~= all@);
            // The contents given are the collected ones: the canonical form
            // is unique.
            assert forall|m: Seq<(I, R)>|
                is_sum_of(m, old(cursor).cursor1().data(), old(cursor).cursor2().data()) implies m
                == all@ by {
                crate::consolidation::lemma_canonical_unique(m, all@);
            }
        }
        out
    }
}


/// The tuple order, read on the first components: a tuple below another
/// has a first component below or equal to the other's.
pub proof fn lemma_pair_order<K: Ord, V: Ord>(a: (K, V), b: (K, V))
    requires
        ordered_key::<K>(),
        ordered_key::<V>(),
    ensures
        key_lt(a, b) ==> key_lt(a.0, b.0) || a.0 == b.0,
        a.0 == b.0 ==> (key_lt(a, b) <==> key_lt(a.1, b.1)),
        key_lt(a.0, b.0) ==> key_lt(a, b),
{
    lemma_key_order::<K>();
    lemma_key_order::<V>();
}

/// Tuples of ordered records are ordered records.
pub proof fn lemma_pair_ordered<K: Ord, V: Ord>()
    requires
        ordered_key::<K>(),
        ordered_key::<V>(),
    ensures
        ordered_key::<(K, V)>(),
{
    broadcast use vstd::laws_cmp::group_laws_cmp, vstd::laws_eq::group_laws_eq;

}

/// Some pair of `s` has first component `k`.
pub open spec fn has_key<K, V, R>(s: Seq<((K, V), R)>, k: K) -> bool {
    exists|i: int| 0 <= i < s.len() && (#[trigger] s[i]).0.0 == k
}

/// `m` is the canonical form of the sum of the groups of `k` in `a` and `b`.
pub open spec fn is_group_sum<K, V: Ord, R: ZRingValue>(
    m: Seq<(V, R)>,
    a: Seq<((K, V), R)>,
    b: Seq<((K, V), R)>,
    k: K,
) -> bool {
    &&& is_canonical(m)
    &&& forall|v: V| #[trigger] weight_of(m, v) == weight_of(a, (k, v)) + weight_of(b, (k, v))
}

/// The group of `key` in a canonical indexed batch, read from position
/// `from`, before which every key is smaller: the values and weights of
/// the pairs whose key is `key`, and the position after them.
pub(crate) fn extract_group<K: Ord + Copy, V: Ord + Copy, R: ZRingValue>(
    s: &Vec<((K, V), R)>,
    from: usize,
    key: K,
) -> (r: (Vec<(V, R)>, usize))
    requires
        ordered_key::<K>(),
        ordered_key::<V>(),
        is_canonical(s@),
        from <= s.len(),
        forall|i: int| 0 <= i < from ==> key_lt((#[trigger] s@[i]).0.0, key),
    ensures
        from <= r.1 <= s.len(),
        is_canonical(r.0@),
        negatable(s@) ==> negatable(r.0@),
        forall|v: V| #[trigger] weight_of(r.0@, v) == weight_of(s@, (key, v)),
        forall|i: int| 0 <= i < r.1 ==> !key_lt(key, (#[trigger] s@[i]).0.0),
        r.1 < s.len() ==> key_lt(key, s@[r.1 as int].0.0),
        forall|i: int| from <= i < r.1 && !key_lt((#[trigger] s@[i]).0.0, key) ==> s@[i].0.0 == key,
        from < s.len() && s@[from as int].0.0 == key ==> r.1 > from && forall|i: int|
            from <= i < r.1 ==> (#[trigger] s@[i]).0.0 == key,
{
    proof {
        lemma_key_order::<K>();
        lemma_key_order::<V>();
    }
    let len = s.len();
    let mut pos = from;
    loop
        invariant
            ordered_key::<K>(),
            K::obeys_cmp_spec(),
            from <= pos <= len == s@.len(),
            forall|i: int| 0 <= i < pos ==> key_lt((#[trigger] s@[i]).0.0, key),
        ensures
            from <= pos <= len,
            forall|i: int| 0 <= i < pos ==> key_lt((#[trigger] s@[i]).0.0, key),
            pos < len ==> !key_lt(s@[pos as int].0.0, key),
        decreases len - pos,
    {
        if pos >= len {
            break;
        }
        match s[pos].0.0.cmp(&key) {
            Ordering::Less => {
                pos = pos + 1;
            },
            _ => {
                break;
            },
        }
    }
    let start = pos;
    proof {
        if from < len && s@[from as int].0.0 == key {
            if start > from {
                assert(key_lt(s@[from as int].0.0, key));
            }
        }
    }
    let mut group: Vec<(V, R)> = Vec::new();
    loop
        invariant
            ordered_key::<K>(),
            ordered_key::<V>(),
            K::obeys_cmp_spec(),
            is_canonical(s@),
            from <= start <= pos <= len == s@.len(),
            forall|i: int| 0 <= i < start ==> key_lt((#[trigger] s@[i]).0.0, key),
            forall|i: int| start <= i < pos ==> (#[trigger] s@[i]).0.0 == key,
            start < len ==> !key_lt(s@[start as int].0.0, key),
            group@.len() == pos - start,
            is_canonical(group@),
            pos > start ==> group@.last().0 == s@[pos - 1].0.1,
            negatable(s@) ==> negatable(group@),
            forall|v: V| #[trigger]
                weight_of(group@, v) == weight_of(s@.subrange(start as int, pos as int), (key, v)),
        ensures
            start <= pos <= len,
            forall|i: int| start <= i < pos ==> (#[trigger] s@[i]).0.0 == key,
            pos < len ==> s@[pos as int].0.0 != key,
            is_canonical(group@),
            negatable(s@) ==> negatable(group@),
            forall|v: V| #[trigger]
                weight_of(group@, v) == weight_of(s@.subrange(start as int, pos as int), (key, v)),
        decreases len - pos,
    {
        proof {
            lemma_key_order::<K>();
        }
        if pos >= len {
            break;
        }
        match s[pos].0.0.cmp(&key) {
            Ordering::Equal => {},
            _ => {
                break;
            },
        }
        let v = s[pos].0.1;
        let w = copy_weight(&s[pos].1);
        let ghost before = group@;
        proof {
            lemma_key_order::<K>();
            lemma_key_order::<V>();
            if pos > start {
                assert(key_lt(s@[pos - 1].0, s@[pos as int].0));
                lemma_pair_order(s@[pos - 1].0, s@[pos as int].0);
            }
            R::lemma_as_int_injective(&w, &s@[pos as int].1);
        }
        group.push((v, w));
        proof {
            assert(s@.subrange(start as int, pos + 1) =~= s@.subrange(start as int, pos as int).push(
                s@[pos as int],
            ));
            assert forall|x: V| #[trigger]
                weight_of(group@, x) == weight_of(
                    s@.subrange(start as int, pos + 1),
                    (key, x),
                ) by {
                lemma_weight_push(before, (v, w), x);
                lemma_weight_push(s@.subrange(start as int, pos as int), s@[pos as int], (key, x));
            }
            assert forall|i: int, j: int| 0 <= i < j < group@.len() implies key_lt(
                #[trigger] group@[i].0,
                #[trigger] group@[j].0,
            ) by {
                if j == group@.len() - 1 && i < j - 1 {
                    assert(key_lt(before[i].0, before.last().0));
                }
            }
        }
        pos = pos + 1;
    }
    proof {
        lemma_key_order::<K>();
        // Outside the run the keys differ from `key`.
        assert forall|v: V| #[trigger] weight_of(group@, v) == weight_of(s@, (key, v)) by {
            let pre = s@.subrange(0, start as int);
            let run = s@.subrange(start as int, pos as int);
            let post = s@.subrange(pos as int, len as int);
            assert(s@ =~= pre + run + post);
            lemma_weight_concat(pre + run, post, (key, v));
            lemma_weight_concat(pre, run, (key, v));
            assert forall|a: int| 0 <= a < pre.len() implies pre[a].0 != (key, v) by {
                assert(key_lt(s@[a].0.0, key));
            }
            lemma_weight_absent(pre, (key, v));
            assert forall|a: int| 0 <= a < post.len() implies post[a].0 != (key, v) by {
                let j = pos + a;
                assert(s@[pos as int].0.0 != key);
                assert(!key_lt(s@[pos as int].0.0, key));
                if a > 0 {
                    assert(key_lt(s@[pos as int].0, s@[j].0));
                    lemma_pair_order(s@[pos as int].0, s@[j].0);
                }
            }
            lemma_weight_absent(post, (key, v));
        }
        assert forall|i: int| 0 <= i < pos implies !key_lt(key, (#[trigger] s@[i]).0.0) by {
            if i < start {
                assert(key_lt(s@[i].0.0, key));
            }
        }
        if pos < len {
            assert(!key_lt(s@[pos as int].0.0, key));
            if pos > start {
                assert(key_lt(s@[pos - 1].0, s@[pos as int].0));
                lemma_pair_order(s@[pos - 1].0, s@[pos as int].0);
            }
        }
    }
    (group, pos)
}


/// `x <= y < z` gives `x < z`.
pub proof fn lemma_le_lt<K: Ord>(x: K, y: K, z: K)
    requires
        ordered_key::<K>(),
        !key_lt(y, x),
        key_lt(y, z),
    ensures
        key_lt(x, z),
{
    lemma_key_order::<K>();
    if y.cmp_spec(&x) == Ordering::Greater {
        assert(key_lt(x, y));
    } else {
        assert(y.cmp_spec(&x) == Ordering::Equal);
    }
}

/// Pushes `((key, o), w)` for each `(o, w)` of `vals`.
fn push_keyed<K: Copy, O: Copy, R: ZRingValue>(
    out: &mut Vec<((K, O), R)>,
    key: K,
    vals: &Vec<(O, R)>,
)
    ensures
        final(out)@.len() == old(out)@.len() + vals@.len(),
        forall|j: int| 0 <= j < old(out)@.len() ==> #[trigger] final(out)@[j] == old(out)@[j],
        forall|j: int|
            0 <= j < vals@.len() ==> #[trigger] final(out)@[old(out)@.len() + j].0 == (key, vals@[j].0),
        forall|k: K, o: O| #[trigger]
            weight_of(final(out)@, (k, o)) == weight_of(old(out)@, (k, o)) + (if k == key {
                weight_of(vals@, o)
            } else {
                0
            }),
{
    let ghost out0 = out@;
    let mut i: usize = 0;
    proof {
        assert(vals@.take(0) =~= Seq::<(O, R)>::empty());
    }
    while i < vals.len()
        invariant
            i <= vals.len(),
            out@.len() == out0.len() + i,
            forall|j: int| 0 <= j < out0.len() ==> #[trigger] out@[j] == out0[j],
            forall|j: int| 0 <= j < i ==> #[trigger] out@[out0.len() + j].0 == (key, vals@[j].0),
            forall|k: K, o: O| #[trigger]
                weight_of(out@, (k, o)) == weight_of(out0, (k, o)) + (if k == key {
                    weight_of(vals@.take(i as int), o)
                } else {
                    0
                }),
        decreases vals.len() - i,
    {
        let o = vals[i].0;
        let w = copy_weight(&vals[i].1);
        let ghost before = out@;
        out.push(((key, o), w));
        proof {
            assert forall|k: K, x: O| #[trigger]
                weight_of(out@, (k, x)) == weight_of(out0, (k, x)) + (if k == key {
                    weight_of(vals@.take(i + 1), x)
                } else {
                    0
                }) by {
                lemma_weight_push(before, ((key, o), w), (k, x));
                lemma_weight_take_step(vals@, i as int, x);
            }
        }
        i = i + 1;
    }
    proof {
        assert(vals@.take(vals@.len() as int) =~= vals@);
    }
}

/// Moves the pairs of `buffer` to `out`, last first.
fn drain_reversed<T, R: ZRingValue>(buffer: &mut Vec<(T, R)>, out: &mut Vec<(T, R)>)
    ensures
        final(buffer)@.len() == 0,
        final(out)@.len() == old(out)@.len() + old(buffer)@.len(),
        forall|j: int| 0 <= j < old(out)@.len() ==> #[trigger] final(out)@[j] == old(out)@[j],
        forall|j: int|
            0 <= j < old(buffer)@.len() ==> #[trigger] final(out)@[old(out)@.len() + j] == old(
                buffer,
            )@[old(buffer)@.len() - 1 - j],
        forall|k: T| #[trigger]
            weight_of(final(out)@, k) == weight_of(old(out)@, k) + weight_of(old(buffer)@, k),
{
    let ghost out0 = out@;
    let ghost buf0 = buffer@;
    while buffer.len() > 0
        invariant
            buffer@.len() <= buf0.len(),
            buffer@ == buf0.take(buffer@.len() as int),
            out@.len() == out0.len() + (buf0.len() - buffer@.len()),
            forall|j: int| 0 <= j < out0.len() ==> #[trigger] out@[j] == out0[j],
            forall|j: int|
                0 <= j < buf0.len() - buffer@.len() ==> #[trigger] out@[out0.len() + j] == buf0[buf0.len() - 1 - j],
            forall|k: T| #[trigger]
                weight_of(out@, k) + weight_of(buffer@, k) == weight_of(out0, k) + weight_of(
                    buf0,
                    k,
                ),
        decreases buffer.len(),
    {
        let ghost b = buffer@;
        let ghost o = out@;
        let e = buffer.pop().unwrap();
        out.push(e);
        proof {
            assert(b =~= buffer@.push(e));
            assert(buffer@ =~= buf0.take(buffer@.len() as int));
            assert forall|k: T| #[trigger]
                weight_of(out@, k) + weight_of(buffer@, k) == weight_of(out0, k) + weight_of(
                    buf0,
                    k,
                ) by {
                lemma_weight_push(buffer@, e, k);
                lemma_weight_push(o, e, k);
            }
        }
    }
}

/// Sorts pairs by record, keeping every pair: the Z-set is unchanged.
fn sort_tuples<T: Ord, R: ZRingValue>(buffer: Vec<(T, R)>) -> (r: Vec<(T, R)>)
    requires
        ordered_key::<T>(),
    ensures
        forall|i: int, j: int| 0 <= i < j < r@.len() ==> !key_lt(#[trigger] r@[j].0, #[trigger] r@[i].0),
        forall|i: int| 0 <= i < r@.len() ==> buffer@.contains(#[trigger] r@[i]),
        forall|k: T| #[trigger] weight_of(r@, k) == weight_of(buffer@, k),
{
    let ghost buf0 = buffer@;
    let mut buffer = buffer;
    let mut sorted: Vec<(T, R)> = Vec::new();
    while buffer.len() > 0
        invariant
            ordered_key::<T>(),
            forall|i: int, j: int|
                0 <= i < j < sorted@.len() ==> !key_lt(#[trigger] sorted@[j].0, #[trigger] sorted@[i].0),
            forall|k: T| #[trigger]
                weight_of(sorted@, k) + weight_of(buffer@, k) == weight_of(buf0, k),
            buffer@.len() <= buf0.len(),
            buffer@ == buf0.take(buffer@.len() as int),
            forall|i: int| 0 <= i < sorted@.len() ==> buf0.contains(#[trigger] sorted@[i]),
        decreases buffer.len(),
    {
        proof {
            lemma_key_order::<T>();
        }
        let ghost b = buffer@;
        let ghost s0 = sorted@;
        let e = buffer.pop().unwrap();
        let mut p: usize = 0;
        while p < sorted.len()
            invariant
                ordered_key::<T>(),
                T::obeys_cmp_spec(),
                sorted@ == s0,
                p <= sorted.len(),
                forall|i: int| 0 <= i < p ==> !key_lt(e.0, #[trigger] sorted@[i].0),
            ensures
                p <= sorted.len(),
                forall|i: int| 0 <= i < p ==> !key_lt(e.0, #[trigger] sorted@[i].0),
                p < sorted.len() ==> key_lt(e.0, sorted@[p as int].0),
            decreases sorted.len() - p,
        {
            proof {
                lemma_key_order::<T>();
            }
            match sorted[p].0.cmp(&e.0) {
                Ordering::Greater => {
                    break;
                },
                _ => {
                    p = p + 1;
                },
            }
        }
        proof {
            assert forall|k: T| true implies #[trigger] weight_of(s0.insert(p as int, e), k)
                == weight_of(s0, k) + contribution(e, k) by {
                crate::consolidation::lemma_weight_insert(s0, p as int, e, k);
            }
        }
        sorted.insert(p, e);
        proof {
            assert(b =~= buffer@.push(e));
            assert(buffer@ =~= buf0.take(buffer@.len() as int));
            assert(buf0[buffer@.len() as int] == e);
            assert forall|i: int| 0 <= i < sorted@.len() implies buf0.contains(#[trigger] sorted@[i]) by {
                if i < p {
                    assert(sorted@[i] == s0[i]);
                } else if i > p {
                    assert(sorted@[i] == s0[i - 1]);
                } else {
                    assert(buf0[buffer@.len() as int] == sorted@[i]);
                }
            }
            assert forall|k: T| #[trigger]
                weight_of(sorted@, k) + weight_of(buffer@, k) == weight_of(buf0, k) by {
                lemma_weight_push(buffer@, e, k);
            }
            assert forall|i: int, j: int| 0 <= i < j < sorted@.len() implies !key_lt(
                #[trigger] sorted@[j].0,
                #[trigger] sorted@[i].0,
            ) by {
                if i == p {
                    if j - 1 > p {
                        assert(!key_lt(s0[j - 1].0, s0[p as int].0));
                        if key_lt(s0[j - 1].0, e.0) {
                            assert(key_lt(s0[j - 1].0, s0[p as int].0));
                        }
                    }
                } else if j == p {
                } else if i < p && j > p {
                    if key_lt(s0[j - 1].0, s0[i].0) {
                        assert(!key_lt(e.0, s0[i].0));
                        assert(key_lt(e.0, s0[p as int].0));
                        if p < j - 1 {
                            assert(!key_lt(s0[j - 1].0, s0[p as int].0));
                        }
                    }
                }
            }
        }
    }
    proof {
        assert forall|k: T| #[trigger] weight_of(sorted@, k) == weight_of(buf0, k) by {
            assert(weight_of(buffer@, k) == 0);
        }
    }
    sorted
}

/// Appending a block of one key, in order, after records of smaller keys
/// keeps the records in order.
proof fn lemma_append_block<K: Ord, O: Ord, R>(out0: Seq<((K, O), R)>, block: Seq<((K, O), R)>, key: K)
    requires
        ordered_key::<K>(),
        ordered_key::<O>(),
        nondecreasing(out0),
        forall|j: int| 0 <= j < out0.len() ==> key_lt((#[trigger] out0[j]).0.0, key),
        nondecreasing(block),
        forall|j: int| 0 <= j < block.len() ==> (#[trigger] block[j]).0.0 == key,
    ensures
        nondecreasing(out0 + block),
{
    lemma_key_order::<K>();
    let all = out0 + block;
    assert forall|i: int, j: int| 0 <= i < j < all.len() implies !key_lt(#[trigger] all[j].0, #[trigger] all[i].0) by {
        if j < out0.len() {
            assert(all[i] == out0[i] && all[j] == out0[j]);
        } else if i >= out0.len() {
            assert(all[i] == block[i - out0.len()] && all[j] == block[j - out0.len()]);
        } else {
            assert(all[i] == out0[i] && all[j] == block[j - out0.len()]);
            lemma_pair_order(all[i].0, all[j].0);
            lemma_pair_order(all[j].0, all[i].0);
        }
    }
}

/// The operator that applies a group transformer to every group that
/// changes in a tick.
pub struct GroupTransform<GT> {
    transformer: GT,
}

impl<GT> GroupTransform<GT> {
    pub fn new(transformer: GT) -> (r: Self)
        ensures
            r.transformer() == transformer,
    {
        GroupTransform { transformer }
    }

    pub closed spec fn transformer(&self) -> GT {
        self.transformer
    }

    /// Evaluates one tick. For each key of `delta`, the key's group of
    /// `input_trace` changed by that of `delta` is transformed, and the change
    /// from the key's group of `output_trace` is emitted under the key. Keys
    /// absent from `delta` emit nothing.
    pub fn eval<K: Ord + Copy, V: Ord + Copy, O: Ord + Copy, R: ZRingValue>(
        &self,
        delta: &OrdZSet<(K, V), R>,
        input_trace: &OrdZSet<(K, V), R>,
        output_trace: &OrdZSet<(K, O), R>,
    ) -> (r: Vec<((K, O), R)>) where GT: GroupTransformer<V, O, R>
        requires
            ordered_key::<K>(),
            ordered_key::<V>(),
            ordered_key::<O>(),
            sum_fits(delta@, input_trace@),
            negatable(output_trace@),
        ensures
            nondecreasing(r@),
            forall|k: K, o: O| !has_key(delta@, k) ==> #[trigger] weight_of(r@, (k, o)) == 0,
            forall|k: K, o: O, m: Seq<(V, R)>|
                #![trigger is_group_sum(m, delta@, input_trace@, k), weight_of(r@, (k, o))]
                has_key(delta@, k) && is_group_sum(m, delta@, input_trace@, k) ==> weight_of(
                    r@,
                    (k, o),
                ) == self.transformer().output_weight(m, o) - weight_of(output_trace@, (k, o)),
    {
        let dd = delta.tuples();
        let tt = input_trace.tuples();
        let oo = output_trace.tuples();
        proof {
            lemma_key_order::<K>();
        }
        let mut out: Vec<((K, O), R)> = Vec::new();
        let mut d: usize = 0;
        let mut t: usize = 0;
        let mut u: usize = 0;
        while d < dd.len()
            invariant
                ordered_key::<K>(),
                ordered_key::<V>(),
                ordered_key::<O>(),
                dd@ == delta@,
                tt@ == input_trace@,
                oo@ == output_trace@,
                is_canonical(dd@),
                is_canonical(tt@),
                is_canonical(oo@),
                sum_fits(dd@, tt@),
                negatable(oo@),
                d <= dd.len(),
                t <= tt.len(),
                u <= oo.len(),
                nondecreasing(out@),
                d < dd.len() ==> forall|j: int| 0 <= j < out@.len() ==> key_lt((#[trigger] out@[j]).0.0, dd@[d as int].0.0),
                d < dd.len() ==> forall|i: int| 0 <= i < d ==> key_lt(#[trigger] dd@[i].0.0, dd@[d as int].0.0),
                d < dd.len() ==> forall|i: int| 0 <= i < t ==> key_lt(#[trigger] tt@[i].0.0, dd@[d as int].0.0),
                d < dd.len() ==> forall|i: int| 0 <= i < u ==> key_lt(#[trigger] oo@[i].0.0, dd@[d as int].0.0),
                forall|k: K, o: O|
                    !has_key(dd@.take(d as int), k) ==> #[trigger] weight_of(out@, (k, o)) == 0,
                forall|k: K, o: O, m: Seq<(V, R)>|
                    #![trigger is_group_sum(m, dd@, tt@, k), weight_of(out@, (k, o))]
                    has_key(dd@.take(d as int), k) && is_group_sum(m, dd@, tt@, k) ==> weight_of(
                        out@,
                        (k, o),
                    ) == self.transformer().output_weight(m, o) - weight_of(oo@, (k, o)),
            decreases dd.len() - d,
        {
            let key = dd[d].0.0;
            let (dg, d2) = extract_group(dd, d, key);
            let (tg, t2) = extract_group(tt, t, key);
            let (og, u2) = extract_group(oo, u, key);
            let mut output_cursor = BatchCursor::new(&og);
            let vals = self.transformer.transform(
                BatchCursor::new(&dg),
                BatchCursor::new(&tg),
                &mut output_cursor,
            );
            let ghost out0 = out@;
            proof {
                lemma_pair_ordered::<K, O>();
                lemma_key_order::<O>();
            }
            match self.transformer.monotonicity() {
                Monotonicity::Ascending => {
                    push_keyed(&mut out, key, &vals);
                    proof {
                        let block = out@.subrange(out0.len() as int, out@.len() as int);
                        assert(out@ =~= out0 + block);
                        assert(block.len() == vals@.len());
                        assert forall|j: int| 0 <= j < block.len() implies (#[trigger] block[j]).0 == (key, vals@[j].0) by {
                            assert(block[j] == out@[out0.len() + j]);
                        }
                        assert forall|i: int, j: int| 0 <= i < j < block.len() implies !key_lt(
                            #[trigger] block[j].0,
                            #[trigger] block[i].0,
                        ) by {
                            assert(block[i].0 == (key, vals@[i].0));
                            assert(block[j].0 == (key, vals@[j].0));
                            lemma_pair_order(block[j].0, block[i].0);
                        }
                        assert forall|j: int| 0 <= j < block.len() implies (#[trigger] block[j]).0.0 == key by {
                            assert(block[j].0 == (key, vals@[j].0));
                        }
                        lemma_append_block(out0, block, key);
                    }
                },
                Monotonicity::Descending => {
                    // The transformer emits descending: reversed, the group
                    // ascends.
                    let mut buffer: Vec<((K, O), R)> = Vec::new();
                    push_keyed(&mut buffer, key, &vals);
                    let ghost buf = buffer@;
                    drain_reversed(&mut buffer, &mut out);
                    proof {
                        let n = vals@.len();
                        let block = out@.subrange(out0.len() as int, out@.len() as int);
                        assert(out@ =~= out0 + block);
                        assert(buf.len() == n);
                        assert(block.len() == n);
                        assert forall|j: int| 0 <= j < block.len() implies (#[trigger] block[j]).0 == (key, vals@[n - 1 - j].0) by {
                            assert(block[j] == out@[out0.len() + j]);
                            assert(block[j] == buf[n - 1 - j]);
                            assert(buf[0 + (n - 1 - j)].0 == (key, vals@[n - 1 - j].0));
                        }
                        assert forall|i: int, j: int| 0 <= i < j < block.len() implies !key_lt(
                            #[trigger] block[j].0,
                            #[trigger] block[i].0,
                        ) by {
                            assert(block[i].0 == (key, vals@[n - 1 - i].0));
                            assert(block[j].0 == (key, vals@[n - 1 - j].0));
                            assert(!key_lt(vals@[n - 1 - j].0, vals@[n - 1 - i].0));
                            lemma_pair_order(block[j].0, block[i].0);
                        }
                        assert forall|j: int| 0 <= j < block.len() implies (#[trigger] block[j]).0.0 == key by {
                            assert(block[j].0 == (key, vals@[n - 1 - j].0));
                        }
                        lemma_append_block(out0, block, key);
                    }
                },
                Monotonicity::Unordered => {
                    let mut buffer: Vec<((K, O), R)> = Vec::new();
                    push_keyed(&mut buffer, key, &vals);
                    let ghost buf = buffer@;
                    let mut sorted = sort_tuples(buffer);
                    let ghost s = sorted@;
                    out.append(&mut sorted);
                    proof {
                        assert forall|x: (K, O)| #[trigger] weight_of(out@, x) == weight_of(out0, x)
                            + weight_of(s, x) by {
                            crate::consolidation::lemma_weight_concat(out0, s, x);
                        }
                        assert(out@ =~= out0 + s);
                        assert forall|j: int| 0 <= j < s.len() implies (#[trigger] s[j]).0.0 == key by {
                            assert(buf.contains(s[j]));
                            let a = choose|a: int| 0 <= a < buf.len() && buf[a] == s[j];
                            assert(buf[0 + a].0 == (key, vals@[a].0));
                        }
                        lemma_append_block(out0, s, key);
                    }
                },
            }
            proof {
                lemma_key_order::<K>();
                assert forall|k: K, o: O| #[trigger]
                    weight_of(out@, (k, o)) == weight_of(out0, (k, o)) + (if k == key {
                        weight_of(vals@, o)
                    } else {
                        0
                    }) by {}
                // The keys taken in.
                assert(!key_lt(key, dd@[d as int].0.0));
                assert(d < d2);
                assert forall|k: K| has_key(dd@.take(d2 as int), k) == (has_key(dd@.take(d as int), k)
                    || k == key) by {
                    if has_key(dd@.take(d2 as int), k) && k != key {
                        let i = choose|i: int| 0 <= i < d2 && (#[trigger] dd@.take(d2 as int)[i]).0.0 == k;
                        if i >= d {
                            if i > d {
                                assert(key_lt(dd@[d as int].0, dd@[i].0));
                                lemma_pair_order(dd@[d as int].0, dd@[i].0);
                            }
                            assert(!key_lt(dd@[i].0.0, key));
                        }
                        assert(dd@.take(d as int)[i] == dd@[i]);
                    }
                    if k == key {
                        assert(dd@.take(d2 as int)[d as int] == dd@[d as int]);
                    }
                    if has_key(dd@.take(d as int), k) {
                        let i = choose|i: int| 0 <= i < d && (#[trigger] dd@.take(d as int)[i]).0.0 == k;
                        assert(dd@.take(d2 as int)[i] == dd@[i]);
                    }
                }
                assert(!has_key(dd@.take(d as int), key)) by {
                    if has_key(dd@.take(d as int), key) {
                        let i = choose|i: int| 0 <= i < d && (#[trigger] dd@.take(d as int)[i]).0.0 == key;
                        assert(key_lt(dd@[i].0.0, key));
                    }
                }
                // The weights of the new key.
                assert forall|m: Seq<(V, R)>, o: O|
                    #![trigger is_group_sum(m, dd@, tt@, key), weight_of(out@, (key, o))]
                    is_group_sum(m, dd@, tt@, key) implies weight_of(out@, (key, o))
                    == self.transformer().output_weight(m, o) - weight_of(oo@, (key, o)) by {
                    assert(is_sum_of(m, dg@, tg@));
                    assert(weight_of(vals@, o) == self.transformer().output_weight(m, o)
                        - weight_of(og@, o));
                }
                // The order of the next key.
                if d2 < dd.len() {
                    let nk = dd@[d2 as int].0.0;
                    assert(key_lt(key, nk));
                    assert forall|j: int| 0 <= j < out@.len() implies key_lt((#[trigger] out@[j]).0.0, nk) by {
                        if j < out0.len() {
                            assert(out@[j] == out0[j]);
                            assert(key_lt(out0[j].0.0, key));
                        } else {
                            assert(out@[j].0.0 == key);
                        }
                    }
                    assert forall|i: int| 0 <= i < d2 implies key_lt(#[trigger] dd@[i].0.0, nk) by {
                        lemma_le_lt(dd@[i].0.0, key, nk);
                    }
                    assert forall|i: int| 0 <= i < t2 implies key_lt(#[trigger] tt@[i].0.0, nk) by {
                        lemma_le_lt(tt@[i].0.0, key, nk);
                    }
                    assert forall|i: int| 0 <= i < u2 implies key_lt(#[trigger] oo@[i].0.0, nk) by {
                        lemma_le_lt(oo@[i].0.0, key, nk);
                    }
                }
            }
            d = d2;
            t = t2;
            u = u2;
        }
        proof {
            assert(dd@.take(dd@.len() as int) =~= dd@);
        }
        out
    }
}

} // verus!
