//! What becomes of the records of a batch.
//!
//! Where a closure has one answer for each time and record, what a logic makes of a batch is what the
//! common operations on sequences make of it.

use vstd::prelude::*;
use crate::operators::branch::{failures, select, successes};
use crate::wired::logic::{
    answers, applies_in_turn, expands, flattened, part_seqs, stops_at, take_keeps_the_first,
    BatchLogic, FilterLogic, FlatMapLogic, InspectBatchLogic, InspectLogic, MapBatchLogic, MapLogic,
    PassLogic, TakeLogic, TakeWhileLogic,
};
use crate::wired::relay::{applies_all, applies_at, made_batches};
use crate::wired::streams::{
    answers_ok, answers_shared, AndThenLogic, BranchLogic, ErrLogic, FilterOkLogic, MapOkLogic,
    OkLogic,
};

verus! {

/// The places of a sequence, in order.
pub open spec fn places<D>(data: Seq<D>) -> Seq<int> {
    Seq::new(data.len(), |i: int| i)
}

/// The records at the chosen places, in order.
pub open spec fn chosen<D>(data: Seq<D>, keep: spec_fn(int) -> bool) -> Seq<D> {
    places(data).filter(keep).map_values(|i: int| data[i])
}

/// The records with a yes, in order.
pub open spec fn picked<D>(data: Seq<D>, flags: Seq<bool>) -> Seq<D> {
    chosen(data, |i: int| flags[i])
}

/// What is left of a sequence was there.
pub(crate) proof fn lemma_filter_from<X>(s: Seq<X>, keep: spec_fn(X) -> bool, k: int)
    requires
        0 <= k < s.filter(keep).len(),
    ensures
        s.contains(s.filter(keep)[k]),
        keep(s.filter(keep)[k]),
    decreases s.len(),
{
    reveal(Seq::filter);
    let less = s.drop_last();
    if k < less.filter(keep).len() {
        lemma_filter_from(less, keep, k);
        let i = choose|i: int| 0 <= i < less.len() && less[i] == less.filter(keep)[k];
        assert(s[i] == s.filter(keep)[k]);
    } else {
        assert(s[s.len() - 1] == s.filter(keep)[k]);
    }
}

pub(crate) proof fn lemma_chosen_step<D>(data: Seq<D>, keep: spec_fn(int) -> bool)
    requires
        data.len() > 0,
    ensures
        chosen(data, keep) == if keep(data.len() - 1) {
            chosen(data.drop_last(), keep).push(data.last())
        } else {
            chosen(data.drop_last(), keep)
        },
{
    reveal(Seq::filter);
    let less = data.drop_last();
    assert(places(data).drop_last() =~= places(less));
    let kept = places(less).filter(keep);
    assert forall|k: int| 0 <= k < kept.len() implies 0 <= #[trigger] kept[k] < less.len() by {
        lemma_filter_from(places(less), keep, k);
    }
    assert(chosen(data, keep) =~= if keep(data.len() - 1) {
        chosen(less, keep).push(data.last())
    } else {
        chosen(less, keep)
    });
}

/// Records are selected by their answers, each at its place.
pub proof fn selecting_is_choosing<D>(data: Seq<D>, flags: Seq<bool>, want: bool)
    requires
        data.len() <= flags.len(),
    ensures
        select(data, flags, want) == chosen(data, |i: int| flags[i] == want),
    decreases data.len(),
{
    let keep = |i: int| flags[i] == want;
    if data.len() == 0 {
        reveal(Seq::filter);
        assert(chosen(data, keep) =~= Seq::<D>::empty());
    } else {
        selecting_is_choosing(data.drop_last(), flags, want);
        lemma_chosen_step(data, keep);
    }
}

/// Choosing by what a record is, is filtering.
proof fn lemma_chosen_filter<D>(data: Seq<D>, keep: spec_fn(int) -> bool, p: spec_fn(D) -> bool)
    requires
        forall|i: int| 0 <= i < data.len() ==> keep(i) == p(#[trigger] data[i]),
    ensures
        chosen(data, keep) == data.filter(p),
    decreases data.len(),
{
    reveal(Seq::filter);
    if data.len() == 0 {
        assert(chosen(data, keep) =~= Seq::<D>::empty());
    } else {
        let less = data.drop_last();
        assert forall|i: int| 0 <= i < less.len() implies keep(i) == p(#[trigger] less[i]) by {
            assert(keep(i) == p(data[i]));
        }
        lemma_chosen_filter(less, keep, p);
        lemma_chosen_step(data, keep);
        assert(keep(data.len() - 1) == p(data[data.len() - 1]));
    }
}

proof fn lemma_chosen_holds<D>(data: Seq<D>, keep: spec_fn(int) -> bool, i: int)
    requires
        0 <= i < data.len(),
        keep(i),
    ensures
        chosen(data, keep).contains(data[i]),
    decreases data.len(),
{
    lemma_chosen_step(data, keep);
    let less = data.drop_last();
    let all = chosen(data, keep);
    if i < less.len() {
        lemma_chosen_holds(less, keep, i);
        let before = chosen(less, keep);
        let k = choose|k: int| 0 <= k < before.len() && before[k] == less[i];
        assert(all[k] == data[i]);
    } else {
        assert(all[all.len() - 1] == data[i]);
    }
}

proof fn lemma_chosen_from<D>(data: Seq<D>, keep: spec_fn(int) -> bool, k: int)
    requires
        0 <= k < chosen(data, keep).len(),
    ensures
        exists|i: int| 0 <= i < data.len() && #[trigger] keep(i) && data[i] == chosen(data, keep)[k],
{
    let kept = places(data).filter(keep);
    lemma_filter_from(places(data), keep, k);
    assert(keep(kept[k]) && data[kept[k]] == chosen(data, keep)[k]);
}

/// The predicate has the one answer that `p` gives for each time and record.
pub open spec fn decides<T, D, F: FnMut(&T, &D) -> bool>(
    predicate: F,
    p: spec_fn(T, D) -> bool,
) -> bool {
    forall|t: T, x: D, b: bool| #[trigger]
        call_ensures(predicate, (&t, &x), b) ==> b == p(t, x)
}

/// A function has the one value that `f` gives for each time and record.
pub open spec fn computes<T, D, D2, F: FnMut(&T, D) -> D2>(
    function: F,
    f: spec_fn(T, D) -> D2,
) -> bool {
    forall|t: T, x: D, y: D2| #[trigger] call_ensures(function, (&t, x), y) ==> y == f(t, x)
}

/// Filtering keeps the records to which the predicate answers yes, all of them and in order, and no
/// others.
pub proof fn filters_keep_what_satisfies<T, D, F: FnMut(&T, &D) -> bool>(
    logic: FilterLogic<F>,
    after: FilterLogic<F>,
    time: T,
    data: Seq<D>,
    out: Seq<D>,
)
    requires
        logic.applies(&after, time, data, out),
    ensures
        exists|flags: Seq<bool>|
            {
                &&& flags.len() == data.len()
                &&& forall|i: int|
                    0 <= i < data.len() ==> call_ensures(
                        logic.predicate,
                        (&time, &data[i]),
                        #[trigger] flags[i],
                    )
                &&& out == #[trigger] picked(data, flags)
            },
        forall|i: int|
            0 <= i < data.len() && !call_ensures(logic.predicate, (&time, &data[i]), false)
                ==> out.contains(#[trigger] data[i]),
        forall|k: int|
            0 <= k < out.len() ==> data.contains(#[trigger] out[k]) && call_ensures(
                logic.predicate,
                (&time, &out[k]),
                true,
            ),
        (forall|i: int|
            0 <= i < data.len() ==> !call_ensures(
                logic.predicate,
                (&time, #[trigger] &data[i]),
                false,
            )) ==> out == data,
        forall|p: spec_fn(T, D) -> bool| #[trigger]
            decides(logic.predicate, p) ==> out == data.filter(|x: D| p(time, x)),
        after == logic,
{
    let flags = choose|flags: Seq<bool>| #[trigger]
        answers(logic.predicate, time, data, flags) && out == select(data, flags, true);
    let keep = |i: int| flags[i];
    selecting_is_choosing(data, flags, true);
    lemma_chosen_same(data, |i: int| flags[i] == true, keep);
    assert(out == picked(data, flags));
    assert forall|i: int|
        0 <= i < data.len() && !call_ensures(
            logic.predicate,
            (&time, &data[i]),
            false,
        ) implies out.contains(#[trigger] data[i]) by {
        assert(call_ensures(logic.predicate, (&time, &data[i]), flags[i]));
        lemma_chosen_holds(data, keep, i);
    }
    assert forall|k: int| 0 <= k < out.len() implies data.contains(#[trigger] out[k])
        && call_ensures(logic.predicate, (&time, &out[k]), true) by {
        lemma_chosen_from(data, keep, k);
        let i = choose|i: int| 0 <= i < data.len() && #[trigger] keep(i) && data[i] == out[k];
        assert(call_ensures(logic.predicate, (&time, &data[i]), flags[i]));
        assert(data[i] == out[k]);
    }
    if forall|i: int|
        0 <= i < data.len() ==> !call_ensures(
            logic.predicate,
            (&time, #[trigger] &data[i]),
            false,
        ) {
        assert forall|i: int| 0 <= i < data.len() implies #[trigger] keep(i) by {
            assert(call_ensures(logic.predicate, (&time, &data[i]), flags[i]));
        }
        lemma_chosen_all(data, keep);
    }
    assert forall|p: spec_fn(T, D) -> bool| #[trigger] decides(
        logic.predicate,
        p,
    ) implies out == data.filter(|x: D| p(time, x)) by {
        let q = |x: D| p(time, x);
        assert forall|i: int| 0 <= i < data.len() implies keep(i) == q(#[trigger] data[i]) by {
            assert(call_ensures(logic.predicate, (&time, &data[i]), flags[i]));
        }
        lemma_chosen_filter(data, keep, q);
    }
}

pub(crate) proof fn lemma_chosen_same<D>(data: Seq<D>, a: spec_fn(int) -> bool, b: spec_fn(int) -> bool)
    requires
        forall|i: int| 0 <= i < data.len() ==> #[trigger] a(i) == b(i),
    ensures
        chosen(data, a) == chosen(data, b),
    decreases data.len(),
{
    if data.len() == 0 {
        reveal(Seq::filter);
        assert(chosen(data, a) =~= chosen(data, b));
    } else {
        lemma_chosen_same(data.drop_last(), a, b);
        lemma_chosen_step(data, a);
        lemma_chosen_step(data, b);
        assert(a(data.len() - 1) == b(data.len() - 1));
    }
}

proof fn lemma_chosen_all<D>(data: Seq<D>, keep: spec_fn(int) -> bool)
    requires
        forall|i: int| 0 <= i < data.len() ==> #[trigger] keep(i),
    ensures
        chosen(data, keep) == data,
    decreases data.len(),
{
    if data.len() == 0 {
        reveal(Seq::filter);
        assert(chosen(data, keep) =~= data);
    } else {
        lemma_chosen_all(data.drop_last(), keep);
        lemma_chosen_step(data, keep);
        assert(keep(data.len() - 1));
        assert(data.drop_last().push(data.last()) =~= data);
    }
}

/// Filtering one batch and then another is filtering both as one.
pub proof fn filters_work_record_by_record<T, D, F: FnMut(&T, &D) -> bool>(
    logic: FilterLogic<F>,
    time: T,
    a: Seq<D>,
    b: Seq<D>,
    x: Seq<D>,
    y: Seq<D>,
)
    requires
        logic.applies(&logic, time, a, x),
        logic.applies(&logic, time, b, y),
    ensures
        logic.applies(&logic, time, a + b, x + y),
{
    let f = choose|flags: Seq<bool>| #[trigger]
        answers(logic.predicate, time, a, flags) && x == select(a, flags, true);
    let g = choose|flags: Seq<bool>| #[trigger]
        answers(logic.predicate, time, b, flags) && y == select(b, flags, true);
    let all = a + b;
    let h = f + g;
    assert forall|i: int| 0 <= i < all.len() implies call_ensures(
        logic.predicate,
        (&time, &all[i]),
        #[trigger] h[i],
    ) by {
        if i < a.len() {
            assert(call_ensures(logic.predicate, (&time, &a[i]), f[i]));
        } else {
            assert(call_ensures(logic.predicate, (&time, &b[i - a.len()]), g[i - a.len()]));
        }
    }
    lemma_select_both(a, b, f, g, true);
    assert(answers(logic.predicate, time, all, h));
}

proof fn lemma_select_both<D>(a: Seq<D>, b: Seq<D>, f: Seq<bool>, g: Seq<bool>, want: bool)
    requires
        f.len() == a.len(),
        b.len() <= g.len(),
    ensures
        select(a + b, f + g, want) == select(a, f, want) + select(b, g, want),
    decreases b.len(),
{
    if b.len() == 0 {
        assert(a + b =~= a);
        lemma_select_prefix_of(a, f, f + g, want);
        assert(select(a, f, want) + select(b, g, want) =~= select(a, f, want));
    } else {
        assert((a + b).drop_last() =~= a + b.drop_last());
        lemma_select_both(a, b.drop_last(), f, g, want);
        assert((f + g)[a.len() + b.len() - 1] == g[b.len() - 1]);
        assert(select(a + b, f + g, want) =~= select(a, f, want) + select(b, g, want));
    }
}

proof fn lemma_select_prefix_of<D>(data: Seq<D>, a: Seq<bool>, b: Seq<bool>, want: bool)
    requires
        data.len() <= a.len(),
        data.len() <= b.len(),
        forall|i: int| 0 <= i < data.len() ==> a[i] == b[i],
    ensures
        select(data, a, want) == select(data, b, want),
    decreases data.len(),
{
    if data.len() > 0 {
        lemma_select_prefix_of(data.drop_last(), a, b, want);
    }
}

/// Mapping turns each record into one other, at the same place.
pub proof fn maps_turn_each_record<T, D, D2, F: FnMut(&T, D) -> D2>(
    logic: MapLogic<F>,
    after: MapLogic<F>,
    time: T,
    data: Seq<D>,
    out: Seq<D2>,
)
    requires
        logic.applies(&after, time, data, out),
    ensures
        out.len() == data.len(),
        forall|i: int|
            0 <= i < data.len() ==> call_ensures(logic.logic, (&time, data[i]), #[trigger] out[i]),
        forall|f: spec_fn(T, D) -> D2| #[trigger]
            computes(logic.logic, f) ==> out == data.map_values(|x: D| f(time, x)),
        after == logic,
{
    assert forall|f: spec_fn(T, D) -> D2| #[trigger] computes(logic.logic, f) implies out
        == data.map_values(|x: D| f(time, x)) by {
        assert(out =~= data.map_values(|x: D| f(time, x)));
    }
}

/// Mapping one batch and then another is mapping both as one.
pub proof fn maps_work_record_by_record<T, D, D2, F: FnMut(&T, D) -> D2>(
    logic: MapLogic<F>,
    time: T,
    a: Seq<D>,
    b: Seq<D>,
    x: Seq<D2>,
    y: Seq<D2>,
)
    requires
        logic.applies(&logic, time, a, x),
        logic.applies(&logic, time, b, y),
    ensures
        logic.applies(&logic, time, a + b, x + y),
{
    assert forall|i: int| 0 <= i < (a + b).len() implies call_ensures(
        logic.logic,
        (&time, (a + b)[i]),
        #[trigger] (x + y)[i],
    ) by {
        if i < a.len() {
            assert(call_ensures(logic.logic, (&time, a[i]), x[i]));
        } else {
            assert(call_ensures(logic.logic, (&time, b[i - a.len()]), y[i - a.len()]));
        }
    }
}

/// Looking at records changes nothing, and none is passed over.
pub proof fn inspections_change_nothing<T, D, F: FnMut(&T, &D)>(
    logic: InspectLogic<F>,
    after: InspectLogic<F>,
    time: T,
    data: Seq<D>,
    out: Seq<D>,
)
    requires
        logic.applies(&after, time, data, out),
    ensures
        out == data,
        forall|i: int|
            0 <= i < data.len() ==> call_ensures(logic.logic, (&time, #[trigger] &data[i]), ()),
{
}

/// Looking at batches changes nothing, and the whole batch is seen.
pub proof fn batch_inspections_change_nothing<T, D, F: FnMut(&T, &[D])>(
    logic: InspectBatchLogic<F>,
    after: InspectBatchLogic<F>,
    time: T,
    data: Seq<D>,
    out: Seq<D>,
)
    requires
        logic.applies(&after, time, data, out),
    ensures
        out == data,
        exists|b: &[D]| b@ == data && #[trigger] call_ensures(logic.logic, (&time, b), ()),
{
}

/// Passing a batch on changes nothing.
pub proof fn passing_changes_nothing<T, D>(
    logic: PassLogic,
    after: PassLogic,
    time: T,
    data: Seq<D>,
    out: Seq<D>,
)
    requires
        BatchLogic::<T, D, D>::applies(&logic, &after, time, data, out),
    ensures
        out == data,
{
}

/// A batch is turned into another as a whole.
pub proof fn batches_are_turned_whole<T, D, D2, F: FnMut(&T, Vec<D>) -> Vec<D2>>(
    logic: MapBatchLogic<F>,
    after: MapBatchLogic<F>,
    time: T,
    data: Seq<D>,
    out: Seq<D2>,
)
    requires
        logic.applies(&after, time, data, out),
    ensures
        exists|b: Vec<D>, c: Vec<D2>|
            b@ == data && c@ == out && #[trigger] call_ensures(logic.logic, (&time, b), c),
{
}

/// Parts, one after the other, are what they are when they are joined.
pub proof fn flattened_is_joined<D>(parts: Seq<Seq<D>>)
    ensures
        flattened(parts) == parts.flatten(),
    decreases parts.len(),
{
    parts.lemma_flatten_and_flatten_alt_are_equivalent();
    if parts.len() > 0 {
        flattened_is_joined(parts.drop_last());
        parts.drop_last().lemma_flatten_and_flatten_alt_are_equivalent();
    }
}

/// Each record is turned into a part, and the parts come one after the other.
pub proof fn flat_maps_join_the_parts<T, D, D2, F: FnMut(&T, D) -> Vec<D2>>(
    logic: FlatMapLogic<F>,
    after: FlatMapLogic<F>,
    time: T,
    data: Seq<D>,
    out: Seq<D2>,
) -> (parts: Seq<Vec<D2>>)
    requires
        logic.applies(&after, time, data, out),
    ensures
        parts.len() == data.len(),
        forall|i: int|
            0 <= i < data.len() ==> call_ensures(
                logic.logic,
                (&time, data[i]),
                #[trigger] parts[i],
            ),
        out == parts.map_values(|p: Vec<D2>| p@).flatten(),
        forall|f: spec_fn(T, D) -> Seq<D2>|
            (forall|t: T, x: D, y: Vec<D2>| #[trigger]
                call_ensures(logic.logic, (&t, x), y) ==> y@ == f(t, x)) ==> out
                == #[trigger] joined_parts(data, f, time),
        after == logic,
{
    let parts = choose|parts: Seq<Vec<D2>>| #[trigger]
        expands(logic.logic, time, data, parts) && out == flattened(part_seqs(parts));
    flattened_is_joined(part_seqs(parts));
    assert(part_seqs(parts) =~= parts.map_values(|p: Vec<D2>| p@));
    assert forall|f: spec_fn(T, D) -> Seq<D2>|
        (forall|t: T, x: D, y: Vec<D2>| #[trigger]
            call_ensures(logic.logic, (&t, x), y) ==> y@ == f(t, x)) implies out
        == #[trigger] joined_parts(data, f, time) by {
        assert(part_seqs(parts) =~= data.map_values(|x: D| f(time, x)));
    }
    parts
}

/// What a function makes of records, one after the other.
pub open spec fn joined_parts<T, D, D2>(
    data: Seq<D>,
    f: spec_fn(T, D) -> Seq<D2>,
    time: T,
) -> Seq<D2> {
    data.map_values(|x: D| f(time, x)).flatten()
}

/// Of a batch, as many records pass as still may, from the first on, and so many fewer may pass
/// afterwards.
pub proof fn takes_count_down<T, D>(
    logic: TakeLogic,
    after: TakeLogic,
    time: T,
    data: Seq<D>,
    out: Seq<D>,
)
    requires
        BatchLogic::<T, D, D>::applies(&logic, &after, time, data, out),
    ensures
        out == data.take(out.len() as int),
        out.len() + after.remaining == logic.remaining,
        out.len() < data.len() ==> after.remaining == 0,
        BatchLogic::<T, D, D>::sated(&logic) <==> logic.remaining == 0,
{
    assert(out =~= data.take(out.len() as int));
}

/// Of all records, in whatever batches they come, just the first ones pass, as many as there should.
pub proof fn takes_pass_the_first<T, D>(
    states: Seq<TakeLogic>,
    times: Seq<T>,
    data: Seq<Seq<D>>,
    outs: Seq<Seq<D>>,
)
    requires
        applies_in_turn::<T, D, D, TakeLogic>(states, times, data, outs),
    ensures
        outs.flatten() == data.flatten().take(outs.flatten().len() as int),
        outs.flatten().len() == if data.flatten().len() <= states[0].remaining {
            data.flatten().len() as int
        } else {
            states[0].remaining as int
        },
{
    take_keeps_the_first(states, times, data, outs);
    flattened_is_joined(data);
    flattened_is_joined(outs);
    assert(outs.flatten() =~= data.flatten().take(outs.flatten().len() as int));
}

/// Of a batch, the records pass that stand before the first one to which the predicate answers no. As
/// soon as there was one, nothing passes any more.
pub proof fn takes_stop_at_the_first_no<T, D, F: FnMut(&T, &D) -> bool>(
    logic: TakeWhileLogic<F>,
    after: TakeWhileLogic<F>,
    time: T,
    data: Seq<D>,
    out: Seq<D>,
)
    requires
        logic.applies(&after, time, data, out),
    ensures
        logic.stopped ==> out.len() == 0 && after.stopped,
        out.len() <= data.len(),
        out == data.take(out.len() as int),
        forall|i: int|
            0 <= i < out.len() ==> call_ensures(
                logic.predicate,
                (&time, #[trigger] &out[i]),
                true,
            ),
        !logic.stopped && out.len() < data.len() ==> after.stopped && call_ensures(
            logic.predicate,
            (&time, &data[out.len() as int]),
            false,
        ),
        !logic.stopped && out.len() == data.len() ==> !after.stopped,
        after.predicate == logic.predicate,
        BatchLogic::<T, D, D>::sated(&logic) <==> logic.stopped,
{
    if logic.stopped {
        assert(out =~= data.take(0));
    } else {
        let k = choose|k: int| #[trigger]
            stops_at(logic.predicate, time, data, k) && out == data.take(k)
                && after.stopped == (k < data.len());
        assert forall|i: int| 0 <= i < out.len() implies call_ensures(
            logic.predicate,
            (&time, #[trigger] &out[i]),
            true,
        ) by {
            assert(call_ensures(logic.predicate, (&time, &data[i]), true));
        }
    }
}

/// Successes are turned into others, failures stay as they are, each at its place.
pub proof fn ok_maps_turn_each_success<T, V, V2, E, F: FnMut(&T, V) -> V2>(
    logic: MapOkLogic<F>,
    after: MapOkLogic<F>,
    time: T,
    data: Seq<core::result::Result<V, E>>,
    out: Seq<core::result::Result<V2, E>>,
)
    requires
        logic.applies(&after, time, data, out),
    ensures
        out.len() == data.len(),
        forall|i: int|
            0 <= i < data.len() ==> (#[trigger] data[i] matches Ok(v) ==> (out[i] matches Ok(w)
                && call_ensures(logic.logic, (&time, v), w))),
        forall|i: int|
            0 <= i < data.len() ==> (#[trigger] data[i] matches Err(e) ==> out[i] == Err::<V2, E>(
                e,
            )),
{
    assert forall|i: int| 0 <= i < data.len() implies (#[trigger] data[i] matches Ok(v) ==> (
    out[i] matches Ok(w) && call_ensures(logic.logic, (&time, v), w))) && (
    data[i] matches Err(e) ==> out[i] == Err::<V2, E>(e)) by {
        let x = out[i];
    }
}

/// Successes are turned into results, failures stay as they are, each at its place.
pub proof fn results_follow_each_success<
    T,
    V,
    V2,
    E,
    F: FnMut(&T, V) -> core::result::Result<V2, E>,
>(
    logic: AndThenLogic<F>,
    after: AndThenLogic<F>,
    time: T,
    data: Seq<core::result::Result<V, E>>,
    out: Seq<core::result::Result<V2, E>>,
)
    requires
        logic.applies(&after, time, data, out),
    ensures
        out.len() == data.len(),
        forall|i: int|
            0 <= i < data.len() ==> (#[trigger] data[i] matches Ok(v) ==> call_ensures(
                logic.logic,
                (&time, v),
                out[i],
            )),
        forall|i: int|
            0 <= i < data.len() ==> (#[trigger] data[i] matches Err(e) ==> out[i] == Err::<V2, E>(
                e,
            )),
{
    assert forall|i: int| 0 <= i < data.len() implies (#[trigger] data[i] matches Ok(v)
        ==> call_ensures(logic.logic, (&time, v), out[i])) && (data[i] matches Err(e) ==> out[i]
        == Err::<V2, E>(e)) by {
        let x = out[i];
    }
}

/// Failures all stay, and of the successes those to which the predicate answers yes, in order.
pub proof fn ok_filters_keep_failures<T, V, E, F: FnMut(&T, &V) -> bool>(
    logic: FilterOkLogic<F>,
    after: FilterOkLogic<F>,
    time: T,
    data: Seq<core::result::Result<V, E>>,
    out: Seq<core::result::Result<V, E>>,
)
    requires
        logic.applies(&after, time, data, out),
    ensures
        forall|p: spec_fn(T, V) -> bool| #[trigger]
            decides(logic.predicate, p) ==> out == data.filter(
                |r: core::result::Result<V, E>| (r matches Ok(v) ==> p(time, v)),
            ),
        forall|i: int| 0 <= i < data.len() && data[i] is Err ==> out.contains(#[trigger] data[i]),
        forall|k: int|
            0 <= k < out.len() ==> data.contains(#[trigger] out[k]) && (out[k] matches Ok(v)
                ==> call_ensures(logic.predicate, (&time, &v), true)),
{
    let flags = choose|flags: Seq<bool>| #[trigger]
        answers_ok(logic.predicate, time, data, flags) && out == select(data, flags, true);
    let keep = |i: int| flags[i] == true;
    selecting_is_choosing(data, flags, true);
    assert forall|i: int| 0 <= i < data.len() && data[i] is Err implies out.contains(
        #[trigger] data[i],
    ) by {
        let flag = flags[i];
        lemma_chosen_holds(data, keep, i);
    }
    assert forall|k: int| 0 <= k < out.len() implies data.contains(#[trigger] out[k]) && (
    out[k] matches Ok(v) ==> call_ensures(logic.predicate, (&time, &v), true)) by {
        lemma_chosen_from(data, keep, k);
        let i = choose|i: int| 0 <= i < data.len() && #[trigger] keep(i) && data[i] == out[k];
        let flag = flags[i];
        assert(data[i] == out[k]);
    }
    assert forall|p: spec_fn(T, V) -> bool| #[trigger] decides(
        logic.predicate,
        p,
    ) implies out == data.filter(
        |r: core::result::Result<V, E>| (r matches Ok(v) ==> p(time, v)),
    ) by {
        let q = |r: core::result::Result<V, E>| (r matches Ok(v) ==> p(time, v));
        assert forall|i: int| 0 <= i < data.len() implies keep(i) == q(#[trigger] data[i]) by {
            let flag = flags[i];
            match data[i] {
                Ok(v) => {
                    assert(call_ensures(logic.predicate, (&time, &v), flag));
                },
                Err(_) => {},
            }
        }
        lemma_chosen_filter(data, keep, q);
    }
}

/// A side of a split keeps the records to which the predicate gives the wanted answer, in order.
pub proof fn branches_keep_their_side<T, D, F: Fn(&T, &D) -> bool>(
    logic: BranchLogic<F>,
    after: BranchLogic<F>,
    time: T,
    data: Seq<D>,
    out: Seq<D>,
)
    requires
        logic.applies(&after, time, data, out),
    ensures
        forall|k: int|
            0 <= k < out.len() ==> data.contains(#[trigger] out[k]) && call_ensures(
                *logic.predicate,
                (&time, &out[k]),
                logic.want,
            ),
        forall|i: int|
            0 <= i < data.len() && !call_ensures(
                *logic.predicate,
                (&time, &data[i]),
                !logic.want,
            ) ==> out.contains(#[trigger] data[i]),
        forall|p: spec_fn(T, D) -> bool| #[trigger]
            decides(*logic.predicate, p) ==> out == data.filter(
                |x: D| p(time, x) == logic.want,
            ),
        after == logic,
{
    let flags = choose|flags: Seq<bool>| #[trigger]
        answers_shared(*logic.predicate, time, data, flags) && out == select(
            data,
            flags,
            logic.want,
        );
    let keep = |i: int| flags[i] == logic.want;
    selecting_is_choosing(data, flags, logic.want);
    assert forall|k: int| 0 <= k < out.len() implies data.contains(#[trigger] out[k])
        && call_ensures(*logic.predicate, (&time, &out[k]), logic.want) by {
        lemma_chosen_from(data, keep, k);
        let i = choose|i: int| 0 <= i < data.len() && #[trigger] keep(i) && data[i] == out[k];
        assert(call_ensures(*logic.predicate, (&time, &data[i]), flags[i]));
        assert(data[i] == out[k]);
    }
    assert forall|i: int|
        0 <= i < data.len() && !call_ensures(
            *logic.predicate,
            (&time, &data[i]),
            !logic.want,
        ) implies out.contains(#[trigger] data[i]) by {
        assert(call_ensures(*logic.predicate, (&time, &data[i]), flags[i]));
        lemma_chosen_holds(data, keep, i);
    }
    assert forall|p: spec_fn(T, D) -> bool| #[trigger] decides(
        *logic.predicate,
        p,
    ) implies out == data.filter(|x: D| p(time, x) == logic.want) by {
        let q = |x: D| p(time, x) == logic.want;
        assert forall|i: int| 0 <= i < data.len() implies keep(i) == q(#[trigger] data[i]) by {
            assert(call_ensures(*logic.predicate, (&time, &data[i]), flags[i]));
        }
        lemma_chosen_filter(data, keep, q);
    }
}

/// The values of the successes, in order.
pub proof fn successes_are_the_ok_values<V, E>(data: Seq<core::result::Result<V, E>>)
    ensures
        successes(data) == data.filter_map(
            |r: core::result::Result<V, E>|
                match r {
                    Ok(v) => Some(v),
                    Err(_) => None,
                },
        ),
    decreases data.len(),
{
    if data.len() > 0 {
        successes_are_the_ok_values(data.drop_last());
    }
    assert(successes(data) =~= data.filter_map(
        |r: core::result::Result<V, E>|
            match r {
                Ok(v) => Some(v),
                Err(_) => None,
            },
    ));
}

/// The values of the failures, in order.
pub proof fn failures_are_the_err_values<V, E>(data: Seq<core::result::Result<V, E>>)
    ensures
        failures(data) == data.filter_map(
            |r: core::result::Result<V, E>|
                match r {
                    Ok(_) => None,
                    Err(e) => Some(e),
                },
        ),
    decreases data.len(),
{
    if data.len() > 0 {
        failures_are_the_err_values(data.drop_last());
    }
    assert(failures(data) =~= data.filter_map(
        |r: core::result::Result<V, E>|
            match r {
                Ok(_) => None,
                Err(e) => Some(e),
            },
    ));
}

/// Splitting results lets the values of the successes pass on one side and those of the failures on
/// the other.
pub proof fn results_are_split<T, V, E>(
    oks: (OkLogic, OkLogic),
    errs: (ErrLogic, ErrLogic),
    time: T,
    data: Seq<core::result::Result<V, E>>,
    good: Seq<V>,
    bad: Seq<E>,
)
    requires
        BatchLogic::<T, core::result::Result<V, E>, V>::applies(
            &oks.0,
            &oks.1,
            time,
            data,
            good,
        ),
        BatchLogic::<T, core::result::Result<V, E>, E>::applies(
            &errs.0,
            &errs.1,
            time,
            data,
            bad,
        ),
    ensures
        good == data.filter_map(
            |r: core::result::Result<V, E>|
                match r {
                    Ok(v) => Some(v),
                    Err(_) => None,
                },
        ),
        bad == data.filter_map(
            |r: core::result::Result<V, E>|
                match r {
                    Ok(_) => None,
                    Err(e) => Some(e),
                },
        ),
        good.len() + bad.len() == data.len(),
{
    successes_are_the_ok_values(data);
    failures_are_the_err_values(data);
    lemma_split_len(data);
}

proof fn lemma_split_len<V, E>(data: Seq<core::result::Result<V, E>>)
    ensures
        successes(data).len() + failures(data).len() == data.len(),
    decreases data.len(),
{
    if data.len() > 0 {
        lemma_split_len(data.drop_last());
    }
}

/// What a logic makes of batches keeps their times and their order; what is empty is left out.
pub proof fn batches_keep_times_and_order<T, D, D2>(given: Seq<(T, Seq<D>)>, made: Seq<Seq<D2>>)
    requires
        given.len() <= made.len(),
    ensures
        made_batches(given, made) == Seq::new(
            given.len(),
            |i: int| (given[i].0, made[i]),
        ).filter(|b: (T, Seq<D2>)| b.1.len() > 0),
    decreases given.len(),
{
    reveal(Seq::filter);
    let filled = |b: (T, Seq<D2>)| b.1.len() > 0;
    let all = Seq::new(given.len(), |i: int| (given[i].0, made[i]));
    if given.len() > 0 {
        let less = given.drop_last();
        batches_keep_times_and_order(less, made);
        assert(all.drop_last() =~= Seq::new(less.len(), |i: int| (less[i].0, made[i])));
    } else {
        assert(made_batches(given, made) =~= all.filter(filled));
    }
}

/// A logic that makes of each batch what `f` says, and stays as it is, makes of batches what `f` says
/// of each, in order; what is empty is left out.
pub proof fn batches_are_turned_one_by_one<T, D, D2, B: BatchLogic<T, D, D2>>(
    states: Seq<B>,
    given: Seq<(T, Seq<D>)>,
    made: Seq<Seq<D2>>,
    f: spec_fn(T, Seq<D>) -> Seq<D2>,
)
    requires
        applies_all(states, given, made),
        forall|i: int|
            0 <= i < given.len() && states[i].applies(
                &states[i + 1],
                given[i].0,
                given[i].1,
                made[i],
            ) ==> #[trigger] made[i] == f(given[i].0, given[i].1),
    ensures
        made_batches(given, made) == given.map_values(
            |b: (T, Seq<D>)| (b.0, f(b.0, b.1)),
        ).filter(|b: (T, Seq<D2>)| b.1.len() > 0),
{
    batches_keep_times_and_order(given, made);
    let all = Seq::new(given.len(), |i: int| (given[i].0, made[i]));
    assert(all =~= given.map_values(|b: (T, Seq<D>)| (b.0, f(b.0, b.1)))) by {
        assert forall|i: int| 0 <= i < given.len() implies made[i] == f(given[i].0, given[i].1) by {
            assert(applies_at(states, given, made, i));
        }
    }
}

} // verus!
