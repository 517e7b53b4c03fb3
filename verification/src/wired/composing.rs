//! Maps in a row.

use vstd::prelude::*;
use crate::order::Timestamp;
use crate::wired::logic::{leads_on, MapLogic};
use crate::wired::outbox::{copies, is_copy, same_or_cloned};
use crate::wired::passage::{
    operators_pass_everything, passes, pipelines_deliver, sinks_take_everything,
    sources_send_everything, strands_stay, strands_stay_between, strands_stay_last, succeeds, turns,
    BatchRun, SinkRun, SourceRun,
};
use crate::wired::relay::{applies_all, applies_at, made_batches};

verus! {

/// Clones are equal to what they are clones of.
pub open spec fn clones_are_equal<D: Clone>() -> bool {
    forall|a: D, b: D| #[trigger] same_or_cloned(a, b) ==> a == b
}

pub(crate) proof fn lemma_equal_copies<T, D: Clone>(a: Seq<(T, Seq<D>)>, b: Seq<(T, Seq<D>)>)
    requires
        clones_are_equal::<D>(),
        copies(a, b),
    ensures
        a == b,
{
    assert forall|i: int| 0 <= i < a.len() implies a[i] == b[i] by {
        assert(is_copy(a[i], b[i]));
        assert forall|k: int| 0 <= k < a[i].1.len() implies a[i].1[k] == b[i].1[k] by {
            assert(same_or_cloned(a[i].1[k], b[i].1[k]));
        }
        assert(a[i].1 =~= b[i].1);
    }
    assert(a =~= b);
}

proof fn lemma_copies_itself<T, D: Clone>(a: Seq<(T, Seq<D>)>)
    ensures
        copies(a, a),
{
    assert forall|i: int| 0 <= i < a.len() implies is_copy(#[trigger] a[i], a[i]) by {
        assert forall|k: int| 0 <= k < a[i].1.len() implies #[trigger] same_or_cloned(
            a[i].1[k],
            a[i].1[k],
        ) by {}
    }
}

/// A function can turn each record of a batch into the one in its place.
pub open spec fn maps_batch<T, D, D2, F: FnMut(&T, D) -> D2>(
    f: F,
    time: T,
    data: Seq<D>,
    out: Seq<D2>,
) -> bool {
    &&& out.len() == data.len()
    &&& forall|i: int| 0 <= i < data.len() ==> call_ensures(f, (&time, data[i]), #[trigger] out[i])
}

/// A function can turn the records of batches into those that were made, batch by batch.
pub open spec fn maps_all<T, D, D2, F: FnMut(&T, D) -> D2>(
    f: F,
    given: Seq<(T, Seq<D>)>,
    made: Seq<Seq<D2>>,
) -> bool {
    &&& made.len() >= given.len()
    &&& forall|i: int|
        0 <= i < given.len() ==> maps_batch(f, given[i].0, given[i].1, #[trigger] made[i])
}

proof fn lemma_turns_maps<T, D, D2, F: FnMut(&T, D) -> D2>(
    f: F,
    to: MapLogic<F>,
    given: Seq<(T, Seq<D>)>,
    out: Seq<(T, Seq<D2>)>,
) -> (made: Seq<Seq<D2>>)
    requires
        turns(MapLogic { logic: f }, to, given, out),
    ensures
        made.len() == given.len(),
        maps_all(f, given, made),
        out == made_batches(given, made),
{
    let m = MapLogic { logic: f };
    let (states, made) = choose|states: Seq<MapLogic<F>>, made: Seq<Seq<D2>>| #[trigger]
        applies_all(states, given, made) && states[0] == m && states.last() == to && out
            == made_batches(given, made);
    assert forall|i: int| 0 <= i < states.len() implies #[trigger] states[i] == m by {
        lemma_same_state(f, states, given, made, i);
    }
    assert forall|i: int| 0 <= i < given.len() implies maps_batch(
        f,
        given[i].0,
        given[i].1,
        #[trigger] made[i],
    ) by {
        assert(applies_at(states, given, made, i));
        assert(states[i] == m);
    }
    made
}

proof fn lemma_same_state<T, D, D2, F: FnMut(&T, D) -> D2>(
    f: F,
    states: Seq<MapLogic<F>>,
    given: Seq<(T, Seq<D>)>,
    made: Seq<Seq<D2>>,
    i: int,
)
    requires
        applies_all(states, given, made),
        states[0] == (MapLogic { logic: f }),
        0 <= i < states.len(),
    ensures
        states[i] == (MapLogic { logic: f }),
    decreases i,
{
    if i > 0 {
        lemma_same_state(f, states, given, made, i - 1);
        assert(applies_at(states, given, made, i - 1));
    }
}

proof fn lemma_maps_turn<T, D, D2, F: FnMut(&T, D) -> D2>(
    f: F,
    given: Seq<(T, Seq<D>)>,
    made: Seq<Seq<D2>>,
)
    requires
        made.len() == given.len(),
        maps_all(f, given, made),
    ensures
        turns(
            MapLogic { logic: f },
            MapLogic { logic: f },
            given,
            made_batches(given, made),
        ),
{
    let m = MapLogic { logic: f };
    let states = Seq::new(given.len() + 1, |i: int| m);
    assert forall|i: int| 0 <= i < given.len() implies #[trigger] applies_at(
        states,
        given,
        made,
        i,
    ) by {
        assert(maps_batch(f, given[i].0, given[i].1, made[i]));
    }
    assert(applies_all(states, given, made));
}

/// One function does what two do one after the other.
pub open spec fn composes<
    T,
    D,
    D2,
    D3,
    F: FnMut(&T, D) -> D2,
    G: FnMut(&T, D2) -> D3,
    H: FnMut(&T, D) -> D3,
>(f: F, g: G, h: H) -> bool {
    forall|time: T, x: D, z: D3| #[trigger]
        call_ensures(h, (&time, x), z) <==> leads_on(f, g, time, x, z)
}

proof fn lemma_compose<
    T,
    D,
    D2,
    D3,
    F: FnMut(&T, D) -> D2,
    G: FnMut(&T, D2) -> D3,
    H: FnMut(&T, D) -> D3,
>(
    f: F,
    g: G,
    h: H,
    given: Seq<(T, Seq<D>)>,
    first: Seq<Seq<D2>>,
    second: Seq<Seq<D3>>,
) -> (made: Seq<Seq<D3>>)
    requires
        composes(f, g, h),
        maps_all(f, given, first),
        maps_all(g, made_batches(given, first), second),
    ensures
        made.len() == given.len(),
        maps_all(h, given, made),
        made_batches(given, made) == made_batches(made_batches(given, first), second),
    decreases given.len(),
{
    if given.len() == 0 {
        let made = Seq::<Seq<D3>>::empty();
        assert(made_batches(given, made) =~= made_batches(made_batches(given, first), second));
        made
    } else {
        let n = given.len() - 1;
        let less = given.drop_last();
        let mid = made_batches(given, first);
        let mid0 = made_batches(less, first);
        let (time, data) = given.last();
        assert(maps_batch(f, given[n].0, given[n].1, first[n]));
        if first[n].len() > 0 {
            assert(mid == mid0.push((time, first[n])));
            assert(mid.drop_last() =~= mid0);
        } else {
            assert(mid == mid0);
        }
        assert forall|i: int| 0 <= i < less.len() implies maps_batch(
            f,
            less[i].0,
            less[i].1,
            #[trigger] first[i],
        ) by {
            assert(maps_batch(f, given[i].0, given[i].1, first[i]));
        }
        assert forall|i: int| 0 <= i < mid0.len() implies maps_batch(
            g,
            mid0[i].0,
            mid0[i].1,
            #[trigger] second[i],
        ) by {
            assert(maps_batch(g, mid[i].0, mid[i].1, second[i]));
        }
        let before = lemma_compose(f, g, h, less, first, second);
        let new = if first[n].len() > 0 {
            second[mid0.len() as int]
        } else {
            Seq::<D3>::empty()
        };
        let made = before.push(new);
        if first[n].len() > 0 {
            let m = mid0.len() as int;
            assert(maps_batch(g, mid[m].0, mid[m].1, second[m]));
            assert forall|i: int| 0 <= i < data.len() implies call_ensures(
                h,
                (&time, data[i]),
                #[trigger] new[i],
            ) by {
                assert(call_ensures(f, (&time, data[i]), first[n][i]));
                assert(call_ensures(g, (&time, first[n][i]), second[m][i]));
                assert(leads_on(f, g, time, data[i], new[i]));
            }
        }
        assert(maps_batch(h, time, data, new));
        assert forall|i: int| 0 <= i < given.len() implies maps_batch(
            h,
            given[i].0,
            given[i].1,
            #[trigger] made[i],
        ) by {
            if i < n {
                assert(maps_batch(h, less[i].0, less[i].1, before[i]));
            }
        }
        lemma_made_same(less, before, made);
        assert(made_batches(given, made) =~= made_batches(mid, second));
        made
    }
}

proof fn lemma_made_same<T, D, D2>(given: Seq<(T, Seq<D>)>, a: Seq<Seq<D2>>, b: Seq<Seq<D2>>)
    requires
        given.len() <= a.len(),
        given.len() <= b.len(),
        forall|i: int| 0 <= i < given.len() ==> a[i] == b[i],
    ensures
        made_batches(given, a) == made_batches(given, b),
    decreases given.len(),
{
    if given.len() > 0 {
        lemma_made_same(given.drop_last(), a, b);
    }
}

/// Whatever two maps in a row make of what is sent to them, one map with the composed function can
/// make of it, where clones are equal.
pub proof fn maps_in_a_row_are_one<
    T,
    D: Clone,
    D2: Clone,
    D3: Clone,
    F: FnMut(&T, D) -> D2,
    G: FnMut(&T, D2) -> D3,
    H: FnMut(&T, D) -> D3,
>(
    f: F,
    g: G,
    h: H,
    ends: (MapLogic<F>, MapLogic<G>),
    given: Seq<(T, Seq<D>)>,
    mid: Seq<(T, Seq<D2>)>,
    got: Seq<(T, Seq<D3>)>,
)
    requires
        clones_are_equal::<D>(),
        clones_are_equal::<D2>(),
        clones_are_equal::<D3>(),
        composes(f, g, h),
        passes(given, MapLogic { logic: f }, ends.0, mid),
        passes(mid, MapLogic { logic: g }, ends.1, got),
    ensures
        passes(given, MapLogic { logic: h }, MapLogic { logic: h }, got),
{
    let mf = MapLogic { logic: f };
    let mg = MapLogic { logic: g };
    let mh = MapLogic { logic: h };
    let (read, out) = choose|read: Seq<(T, Seq<D>)>, out: Seq<(T, Seq<D2>)>|
        copies(given, read) && #[trigger] turns(mf, ends.0, read, out) && #[trigger] copies(
            out,
            mid,
        );
    let (read2, out2) = choose|read: Seq<(T, Seq<D2>)>, out: Seq<(T, Seq<D3>)>|
        copies(mid, read) && #[trigger] turns(mg, ends.1, read, out) && #[trigger] copies(
            out,
            got,
        );
    lemma_equal_copies(given, read);
    lemma_equal_copies(out, mid);
    lemma_equal_copies(mid, read2);
    let first = lemma_turns_maps(f, ends.0, read, out);
    let second = lemma_turns_maps(g, ends.1, read2, out2);
    let made = lemma_compose(f, g, h, given, first, second);
    lemma_maps_turn(h, given, made);
    lemma_copies_itself(given);
    assert(turns(mh, mh, given, out2));
    assert(copies(out2, got));
}

/// A map whose function has one answer for each time and record makes the same of the same.
pub proof fn maps_are_functions<T, D: Clone, D2: Clone, F: FnMut(&T, D) -> D2>(
    f: F,
    ends: (MapLogic<F>, MapLogic<F>),
    given: Seq<(T, Seq<D>)>,
    a: Seq<(T, Seq<D2>)>,
    b: Seq<(T, Seq<D2>)>,
)
    requires
        clones_are_equal::<D>(),
        clones_are_equal::<D2>(),
        is_function(f),
        passes(given, MapLogic { logic: f }, ends.0, a),
        passes(given, MapLogic { logic: f }, ends.1, b),
    ensures
        a == b,
{
    let m = MapLogic { logic: f };
    let (read, out) = choose|read: Seq<(T, Seq<D>)>, out: Seq<(T, Seq<D2>)>|
        copies(given, read) && #[trigger] turns(m, ends.0, read, out) && #[trigger] copies(out, a);
    let (read2, out2) = choose|read: Seq<(T, Seq<D>)>, out: Seq<(T, Seq<D2>)>|
        copies(given, read) && #[trigger] turns(m, ends.1, read, out) && #[trigger] copies(out, b);
    lemma_equal_copies(given, read);
    lemma_equal_copies(given, read2);
    lemma_equal_copies(out, a);
    lemma_equal_copies(out2, b);
    let x = lemma_turns_maps(f, ends.0, given, out);
    let y = lemma_turns_maps(f, ends.1, given, out2);
    assert forall|i: int| 0 <= i < given.len() implies x[i] == y[i] by {
        let (time, data) = given[i];
        assert(maps_batch(f, given[i].0, given[i].1, x[i]));
        assert(maps_batch(f, given[i].0, given[i].1, y[i]));
        assert forall|k: int| 0 <= k < data.len() implies x[i][k] == y[i][k] by {
            assert(call_ensures(f, (&time, data[k]), x[i][k]));
            assert(call_ensures(f, (&time, data[k]), y[i][k]));
        }
        assert(x[i] =~= y[i]);
    }
    lemma_made_same(given, x, y);
}

/// The function has one answer for each time and record.
pub open spec fn is_function<T, D, D2, F: FnMut(&T, D) -> D2>(f: F) -> bool {
    forall|time: T, x: D, y: D2, z: D2| #[trigger]
        call_ensures(f, (&time, x), y) && #[trigger] call_ensures(f, (&time, x), z) ==> y == z
}

/// A pipeline with two maps in a row and a pipeline with one map that does what both do collect the
/// same of the same batches, when they are through, whatever order their operators were activated in
/// and whatever room there was. The function has one answer for each time and record, and clones are
/// equal.
pub proof fn map_pipelines_compose<
    T: Timestamp,
    D: Clone,
    D2: Clone,
    D3: Clone,
    F: FnMut(&T, D) -> D2,
    G: FnMut(&T, D2) -> D3,
    H: FnMut(&T, D) -> D3,
>(
    sources: (SourceRun<T, D>, SourceRun<T, D>),
    first: BatchRun<T, D, D2, MapLogic<F>>,
    second: BatchRun<T, D2, D3, MapLogic<G>>,
    both: BatchRun<T, D, D3, MapLogic<H>>,
    sinks: (SinkRun<T, D3>, SinkRun<T, D3>),
) -> (got: Seq<(T, Seq<D3>)>)
    requires
        clones_are_equal::<D>(),
        clones_are_equal::<D2>(),
        clones_are_equal::<D3>(),
        composes(first.logics().0.logic, second.logics().0.logic, both.logics().0.logic),
        is_function(both.logics().0.logic),
        sources.0.wf() && sources.1.wf() && first.wf() && second.wf() && both.wf() && sinks.0.wf()
            && sinks.1.wf(),
        sources.0.given() == sources.1.given(),
        first.cores[0].input.strand() == sources.0.cores[0].outlets.strand(),
        second.cores[0].input.strand() == first.cores[0].outlets.strand(),
        sinks.0.cores[0].input.strand() == second.cores[0].outlets.strand(),
        both.cores[0].input.strand() == sources.1.cores[0].outlets.strand(),
        sinks.1.cores[0].input.strand() == both.cores[0].outlets.strand(),
        sources.0.cores.last().state.done && sources.1.cores.last().state.done,
        first.cores.last().state.done && second.cores.last().state.done
            && both.cores.last().state.done,
        sinks.0.cores.last().done && sinks.1.cores.last().done,
        succeeds(sources.0.traces.last(), first.traces.last().0),
        succeeds(first.traces.last().1, second.traces.last().0),
        succeeds(second.traces.last().1, sinks.0.traces.last().0),
        succeeds(sources.1.traces.last(), both.traces.last().0),
        succeeds(both.traces.last().1, sinks.1.traces.last().0),
    ensures
        sinks.0.collected().1 == sinks.0.collected().0 + got,
        sinks.1.collected().1 == sinks.1.collected().0 + got,
{
    let given = sources.0.given();
    sources_send_everything(sources.0);
    let m1 = operators_pass_everything(first);
    let m2 = operators_pass_everything(second);
    let got1 = sinks_take_everything(sinks.0);
    let (m, got2) = pipelines_deliver(sources.1, both, sinks.1);
    strands_stay(sources.0, first);
    strands_stay_between(first, second);
    strands_stay_last(second, sinks.0);
    let sent = sources.0.traces.last().after()@.written();
    let mid = first.traces.last().1.after()@.written();
    let made = second.traces.last().1.after()@.written();
    assert(sent.take(m1) =~= sent);
    assert(mid.take(m2) =~= mid);
    lemma_equal_copies(given, sent);
    lemma_equal_copies(made, got1);
    let ends = (first.logics().1, second.logics().1);
    maps_in_a_row_are_one(
        first.logics().0.logic,
        second.logics().0.logic,
        both.logics().0.logic,
        ends,
        given,
        mid,
        made,
    );
    let h = both.logics().0;
    assert(given.take(m) =~= given);
    let (sent2, made2) = choose|sent: Seq<(T, Seq<D>)>, made: Seq<(T, Seq<D3>)>|
        copies(given.take(m), sent) && #[trigger] passes(sent, h, both.logics().1, made)
            && #[trigger] copies(made, got2);
    lemma_equal_copies(given, sent2);
    lemma_equal_copies(made2, got2);
    maps_are_functions(h.logic, (h, both.logics().1), given, made, made2);
    got1
}

} // verus!
