//! What becomes of the records of a complete time.

use vstd::prelude::*;
use vstd::std_specs::cmp::PartialEqSpec;
use crate::order::Timestamp;
use crate::wired::choosing::{
    chosen, flattened_is_joined, lemma_chosen_same, lemma_chosen_step,
};
use crate::wired::distinct::{distinct_of, has_equal, DistinctFinish};
use crate::wired::gathered::{records_at, times_are_given_out_once, GatherRun};
use crate::wired::gathering::{
    emitted, folds, fold_step, moves, reduce_step, reduces, released, Assign, CountFinish, Delay,
    DelayBatch, Finish, FoldFinish, KeepFinish, KeepTime, ReduceFinish, Waiting,
};
use crate::wired::logic::flattened;
use crate::wired::stash::held_at;

verus! {

/// Counting tells how many records there are, if there are any.
pub proof fn counts_are_lengths<D>(finish: CountFinish, data: Seq<D>, out: Seq<usize>)
    requires
        finish.finishes(data, out),
    ensures
        data.len() > 0 ==> out == seq![data.len() as usize] && out[0] as nat == data.len(),
        data.len() == 0 ==> out.len() == 0,
{
    if data.len() > 0 {
        assert(out =~= seq![data.len() as usize]);
    }
}

/// A function of two values has the one value that `f` gives.
pub open spec fn combines<A, B, F: FnMut(A, B) -> A>(function: F, f: spec_fn(A, B) -> A) -> bool {
    forall|a: A, b: B, c: A| #[trigger] call_ensures(function, (a, b), c) ==> c == f(a, b)
}

proof fn lemma_fold<D, D2, F: FnMut(D2, D) -> D2>(
    folder: F,
    f: spec_fn(D2, D) -> D2,
    data: Seq<D>,
    values: Seq<D2>,
    k: int,
)
    requires
        combines(folder, f),
        values.len() == data.len() + 1,
        forall|i: int| 0 <= i < data.len() ==> #[trigger] fold_step(folder, data, values, i),
        0 <= k <= data.len(),
    ensures
        values[k] == data.take(k).fold_left(values[0], f),
    decreases k,
{
    if k == 0 {
        assert(data.take(0).fold_left(values[0], f) == values[0]);
    } else {
        lemma_fold(folder, f, data, values, k - 1);
        assert(fold_step(folder, data, values, k - 1));
        let part = data.take(k);
        assert(part.drop_last() =~= data.take(k - 1));
        assert(part.last() == data[k - 1]);
        assert(call_ensures(folder, (values[k - 1], data[k - 1]), values[k]));
        assert(part.fold_left(values[0], f) == f(
            part.drop_last().fold_left(values[0], f),
            part.last(),
        ));
    }
}

/// Folding combines all records with a clone of the first value, from the first to the last, and comes
/// to nothing if there are no records.
pub proof fn folds_combine_all<D, D2: Clone, F: FnMut(D2, D) -> D2>(
    finish: FoldFinish<D2, F>,
    data: Seq<D>,
    out: Seq<D2>,
    f: spec_fn(D2, D) -> D2,
)
    requires
        finish.finishes(data, out),
        combines(finish.folder, f),
    ensures
        data.len() == 0 ==> out.len() == 0,
        data.len() > 0 ==> out.len() == 1 && exists|start: D2|
            cloned(finish.init, start) && out[0] == #[trigger] data.fold_left(start, f),
{
    if data.len() > 0 {
        let values = choose|values: Seq<D2>| #[trigger]
            folds(finish.init, finish.folder, data, values) && out == seq![values.last()];
        lemma_fold(finish.folder, f, data, values, data.len() as int);
        assert(data.take(data.len() as int) =~= data);
        assert(out[0] == data.fold_left(values[0], f));
    }
}

/// Reducing combines all records, from the first to the last, and comes to nothing if there are none.
pub proof fn reductions_combine_all<D, F: FnMut(D, D) -> D>(
    finish: ReduceFinish<F>,
    data: Seq<D>,
    out: Seq<D>,
    f: spec_fn(D, D) -> D,
)
    requires
        finish.finishes(data, out),
        combines(finish.reducer, f),
    ensures
        data.len() == 0 ==> out.len() == 0,
        data.len() > 0 ==> out == seq![data.drop_first().fold_left(data[0], f)],
{
    if data.len() > 0 {
        let values = choose|values: Seq<D>| #[trigger]
            reduces(finish.reducer, data, values) && out == seq![values.last()];
        lemma_reduce(finish.reducer, f, data, values, data.len() - 1);
        assert(data.drop_first().take(data.len() - 1) =~= data.drop_first());
    }
}

proof fn lemma_reduce<D, F: FnMut(D, D) -> D>(
    reducer: F,
    f: spec_fn(D, D) -> D,
    data: Seq<D>,
    values: Seq<D>,
    k: int,
)
    requires
        combines(reducer, f),
        reduces(reducer, data, values),
        0 <= k < data.len(),
    ensures
        values[k] == data.drop_first().take(k).fold_left(data[0], f),
    decreases k,
{
    let rest = data.drop_first();
    if k == 0 {
        assert(rest.take(0).fold_left(data[0], f) == data[0]);
    } else {
        lemma_reduce(reducer, f, data, values, k - 1);
        assert(reduce_step(reducer, data, values, k));
        let part = rest.take(k);
        assert(part.drop_last() =~= rest.take(k - 1));
        assert(part.last() == data[k]);
        assert(call_ensures(reducer, (values[k - 1], data[k]), values[k]));
        assert(part.fold_left(data[0], f) == f(
            part.drop_last().fold_left(data[0], f),
            part.last(),
        ));
    }
}

/// Records that are only held back come out as they are.
pub proof fn kept_records_are_the_same<D>(finish: KeepFinish, data: Seq<D>, out: Seq<D>)
    requires
        finish.finishes(data, out),
    ensures
        out == data,
{
}

/// Where equality is what it should be, of equal records just the first one stays, in order.
pub proof fn distinct_keeps_the_first_of_each<D: PartialEq>(data: Seq<D>)
    requires
        forall|x: D, y: D| #[trigger] x.eq_spec(&y) <==> x == y,
    ensures
        distinct_of(data) == chosen(data, |i: int| !data.take(i).contains(data[i])),
        forall|x: D| #[trigger] distinct_of(data).contains(x) <==> data.contains(x),
        distinct_of(data).no_duplicates(),
    decreases data.len(),
{
    let first = |i: int| !data.take(i).contains(data[i]);
    if data.len() == 0 {
        reveal(Seq::filter);
        assert(chosen(data, first) =~= Seq::<D>::empty());
    } else {
        let less = data.drop_last();
        let n = data.len() - 1;
        distinct_keeps_the_first_of_each(less);
        let first_less = |i: int| !less.take(i).contains(less[i]);
        assert forall|i: int| 0 <= i < less.len() implies #[trigger] first_less(i) == first(i) by {
            assert(less.take(i) =~= data.take(i));
        }
        lemma_chosen_same(less, first_less, first);
        lemma_chosen_step(data, first);
        let kept = distinct_of(less);
        let all = distinct_of(data);
        assert(data.take(n) =~= less);
        assert(has_equal(kept, data.last()) <==> kept.contains(data.last())) by {
            if has_equal(kept, data.last()) {
                let i = choose|i: int|
                    0 <= i < kept.len() && #[trigger] kept[i].eq_spec(&data.last());
                assert(kept[i] == data.last());
            }
            if kept.contains(data.last()) {
                let i = choose|i: int| 0 <= i < kept.len() && kept[i] == data.last();
                assert(kept[i].eq_spec(&data.last()));
            }
        }
        assert forall|x: D| #[trigger] all.contains(x) <==> data.contains(x) by {
            assert(kept.contains(x) <==> less.contains(x));
            if all.contains(x) {
                let i = choose|i: int| 0 <= i < all.len() && all[i] == x;
                if i < kept.len() {
                    assert(kept[i] == x);
                    let j = choose|j: int| 0 <= j < less.len() && less[j] == x;
                    assert(data[j] == x);
                } else {
                    assert(data[n] == x);
                }
            }
            if data.contains(x) {
                let i = choose|i: int| 0 <= i < data.len() && data[i] == x;
                if i < n {
                    assert(less[i] == x);
                    let j = choose|j: int| 0 <= j < kept.len() && kept[j] == x;
                    assert(all[j] == x);
                } else if kept.contains(data.last()) {
                    let j = choose|j: int| 0 <= j < kept.len() && kept[j] == x;
                    assert(all[j] == x);
                } else {
                    assert(all[all.len() - 1] == x);
                }
            }
        }
    }
}

/// What is sent of records of equal kinds.
pub proof fn distinct_sends_one_of_each<D: PartialEq>(
    finish: DistinctFinish,
    data: Seq<D>,
    out: Seq<D>,
)
    requires
        finish.finishes(data, out),
        D::obeys_eq_spec(),
        forall|x: D, y: D| #[trigger] x.eq_spec(&y) <==> x == y,
    ensures
        out == chosen(data, |i: int| !data.take(i).contains(data[i])),
        out.no_duplicates(),
        forall|x: D| #[trigger] out.contains(x) <==> data.contains(x),
{
    distinct_keeps_the_first_of_each(data);
}

/// What is sent for complete times is what became of their records, in the order in which the times
/// were delivered; nothing is sent for a time of which nothing has become.
pub proof fn complete_times_are_sent_in_order<T, D2>(times: Seq<T>, outs: Seq<Seq<D2>>)
    requires
        times.len() <= outs.len(),
    ensures
        emitted(times, outs) == Seq::new(times.len(), |i: int| (times[i], outs[i])).filter(
            |b: (T, Seq<D2>)| b.1.len() > 0,
        ),
    decreases times.len(),
{
    reveal(Seq::filter);
    let all = Seq::new(times.len(), |i: int| (times[i], outs[i]));
    let filled = |b: (T, Seq<D2>)| b.1.len() > 0;
    if times.len() > 0 {
        let less = times.drop_last();
        complete_times_are_sent_in_order(less, outs);
        assert(all.drop_last() =~= Seq::new(less.len(), |i: int| (less[i], outs[i])));
    } else {
        assert(emitted(times, outs) =~= all.filter(filled));
    }
}

/// Taking the records of some times leaves those of all others.
pub proof fn releasing_takes_just_these<T, D>(held: Map<T, Seq<D>>, times: Seq<T>, t: T)
    ensures
        released(held, times).dom().contains(t) <==> held.dom().contains(t) && !times.contains(t),
        released(held, times).dom().contains(t) ==> released(held, times)[t] == held[t],
    decreases times.len(),
{
    if times.len() > 0 {
        let less = times.drop_last();
        releasing_takes_just_these(held, less, t);
        if times.contains(t) {
            let i = choose|i: int| 0 <= i < times.len() && times[i] == t;
            if i < less.len() {
                assert(less[i] == t);
            }
        }
        if less.contains(t) {
            let i = choose|i: int| 0 <= i < less.len() && less[i] == t;
            assert(times[i] == t);
        }
        if times.last() == t {
            assert(times[times.len() - 1] == t);
        }
    }
}

/// Records that come for a time are held behind those that are there, and those of other times stay
/// as they are. The time is requested if it is not yet.
pub proof fn records_are_held_under_their_time<T, D>(
    w: Waiting<T, D>,
    time: T,
    data: Seq<D>,
    t: T,
)
    ensures
        held_at(w.with_part(time, data).held, t) == if t == time {
            held_at(w.held, t) + data
        } else {
            held_at(w.held, t)
        },
        w.with_part(time, data).held.dom().contains(time),
        w.with_part(time, data).requests.contains(time),
        w.requests.contains(t) ==> w.with_part(time, data).requests.contains(t),
        w.with_part(time, data).requests.contains(t) && t != time ==> w.requests.contains(t),
{
    let after = w.with_part(time, data);
    if !w.requests.contains(time) {
        assert(after.requests[w.requests.len() as int] == time);
    }
    if w.requests.contains(t) {
        let i = choose|i: int| 0 <= i < w.requests.len() && w.requests[i] == t;
        assert(after.requests[i] == t);
    }
    if after.requests.contains(t) && t != time {
        let i = choose|i: int| 0 <= i < after.requests.len() && after.requests[i] == t;
        assert(w.requests[i] == t);
    }
}

/// Records that are kept under their own time.
pub proof fn kept_times_are_their_own<T, D>(
    keep: KeepTime,
    time: T,
    data: Seq<D>,
    parts: Seq<(T, Seq<D>)>,
)
    requires
        keep.assigns(time, data, parts),
    ensures
        parts == seq![(time, data)],
        !Assign::<T, D>::refuses(&keep, time, data),
{
}

/// A batch that is moved to another time keeps its records, and is not moved to an earlier time.
pub proof fn delayed_batches_keep_their_records<T: Timestamp, D, F: Fn(&T) -> T>(
    delay: DelayBatch<F>,
    time: T,
    data: Seq<D>,
    parts: Seq<(T, Seq<D>)>,
)
    requires
        delay.assigns(time, data, parts),
    ensures
        parts.len() == 1,
        parts[0].1 == data,
        call_ensures(delay.delay, (&time,), parts[0].0),
        !parts[0].0.earlier(&time),
{
}

/// Records that are moved to other times are all there, in order, each at the time that it was moved
/// to, and none is moved to an earlier time.
pub proof fn delayed_records_are_all_there<T: Timestamp, D, F: Fn(&T, &D) -> T>(
    delay: Delay<F>,
    time: T,
    data: Seq<D>,
    parts: Seq<(T, Seq<D>)>,
)
    requires
        delay.assigns(time, data, parts),
    ensures
        parts.len() == data.len(),
        forall|i: int|
            0 <= i < data.len() ==> (#[trigger] parts[i]).1 == seq![data[i]] && call_ensures(
                delay.delay,
                (&time, &data[i]),
                parts[i].0,
            ) && !parts[i].0.earlier(&time),
        parts.map_values(|p: (T, Seq<D>)| p.1).flatten() == data,
{
    assert forall|i: int| 0 <= i < data.len() implies (#[trigger] parts[i]).1 == seq![data[i]]
        && call_ensures(delay.delay, (&time, &data[i]), parts[i].0) && !parts[i].0.earlier(
        &time,
    ) by {
        assert(moves(delay.delay, time, data, parts, i));
    }
    lemma_singles(parts.map_values(|p: (T, Seq<D>)| p.1), data);
}

proof fn lemma_singles<D>(parts: Seq<Seq<D>>, data: Seq<D>)
    requires
        parts.len() == data.len(),
        forall|i: int| 0 <= i < data.len() ==> #[trigger] parts[i] == seq![data[i]],
    ensures
        parts.flatten() == data,
    decreases data.len(),
{
    flattened_is_joined(parts);
    if data.len() > 0 {
        let less = parts.drop_last();
        assert forall|i: int| 0 <= i < less.len() implies #[trigger] less[i]
            == seq![data.drop_last()[i]] by {
            assert(less[i] == parts[i]);
        }
        lemma_singles(less, data.drop_last());
        flattened_is_joined(less);
        assert(parts.last() == seq![data.last()]);
        assert(flattened(parts) =~= data);
    } else {
        assert(flattened(parts) =~= data);
    }
}

proof fn lemma_records_are_joined<T, D>(parts: Seq<(T, Seq<D>)>, t: T)
    ensures
        records_at(parts, t) == parts.filter(|p: (T, Seq<D>)| p.0 == t).map_values(
            |p: (T, Seq<D>)| p.1,
        ).flatten(),
    decreases parts.len(),
{
    reveal(Seq::filter);
    let at = |p: (T, Seq<D>)| p.0 == t;
    let data = |p: (T, Seq<D>)| p.1;
    let all = parts.filter(at).map_values(data);
    flattened_is_joined(all);
    if parts.len() > 0 {
        let less = parts.drop_last();
        lemma_records_are_joined(less, t);
        let before = less.filter(at).map_values(data);
        flattened_is_joined(before);
        if parts.last().0 == t {
            assert(all.drop_last() =~= before);
            assert(all.last() == parts.last().1);
        } else {
            assert(all =~= before);
        }
    } else {
        assert(all =~= Seq::<Seq<D>>::empty());
    }
}

/// Of records that are held back until their time is complete, what is sent for a time comes of all
/// records that ever came in batches of that time, in the order in which they came, and of no others.
pub proof fn complete_times_have_all_records<T: Timestamp, D, D2, K: Finish<D, D2>>(
    run: GatherRun<T, D, D2, KeepTime, K>,
    i: int,
    k: int,
)
    requires
        run.wf(),
        0 <= i < run.len(),
        0 <= k < run.courses[i].times.len(),
    ensures
        ({
            let t = run.courses[i].times[k];
            run.before[i].finisher.finishes(
                all_batches(run, run.len()).filter(|b: (T, Seq<D>)| b.0 == t).map_values(
                    |b: (T, Seq<D>)| b.1,
                ).flatten(),
                run.courses[i].outs[k],
            )
        }),
{
    let t = run.courses[i].times[k];
    times_are_given_out_once(run, i, k);
    lemma_all_batches(run, run.len());
    lemma_records_are_joined(run.all_parts(run.len()), t);
}

/// The batches that came in the first `n` activations.
pub open spec fn all_batches<T: Timestamp, D, D2, K: Finish<D, D2>>(
    run: GatherRun<T, D, D2, KeepTime, K>,
    n: int,
) -> Seq<(T, Seq<D>)>
    decreases n,
{
    if n <= 0 {
        Seq::empty()
    } else {
        all_batches(run, n - 1) + run.inputs[n - 1].0.pending
    }
}

proof fn lemma_all_batches<T: Timestamp, D, D2, K: Finish<D, D2>>(
    run: GatherRun<T, D, D2, KeepTime, K>,
    n: int,
)
    requires
        run.wf(),
        0 <= n <= run.len(),
    ensures
        run.all_parts(n) == all_batches(run, n),
    decreases n,
{
    if n > 0 {
        lemma_all_batches(run, n - 1);
        assert(run.works_at(n - 1));
        let parts = run.courses[n - 1].parts;
        let given = run.inputs[n - 1].0.pending;
        assert forall|i: int| 0 <= i < given.len() implies #[trigger] parts[i] == seq![given[i]] by {
            assert(run.before[n - 1].assigner.assigns(given[i].0, given[i].1, parts[i]));
        }
        lemma_singles(parts, given);
        flattened_is_joined(parts);
    }
}

} // verus!
