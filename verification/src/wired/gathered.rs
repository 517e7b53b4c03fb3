//! What becomes of records that are held back, over all activations.

use vstd::prelude::*;
use crate::frontier::{covers, drain_step, drains_by, NotificatorView};
use crate::handles::InputView;
use crate::order::Timestamp;
use crate::wired::gathering::{
    gathers_by, lemma_draining, lemma_parts_sound, released, Assign, Finish, GatherCourse,
    StashLogic, Waiting,
};
use crate::wired::logic::flattened;
use crate::wired::stash::held_at;

verus! {

/// The records of one time, in order.
pub open spec fn records_at<T, D>(parts: Seq<(T, Seq<D>)>, time: T) -> Seq<D>
    decreases parts.len(),
{
    if parts.len() == 0 {
        Seq::empty()
    } else {
        let before = records_at(parts.drop_last(), time);
        if parts.last().0 == time {
            before + parts.last().1
        } else {
            before
        }
    }
}

/// The activations of an operator that holds records back: its logic before and after each of them,
/// with the frontier that it was told in between, what it was given, what it sent, and how.
pub struct GatherRun<T, D, D2, A, K> {
    pub before: Seq<StashLogic<T, D, A, K>>,
    pub after: Seq<StashLogic<T, D, A, K>>,
    pub inputs: Seq<(InputView<T, D>, InputView<T, D>)>,
    pub outputs: Seq<Seq<(T, Seq<D2>)>>,
    pub courses: Seq<GatherCourse<T, D, D2>>,
}

impl<T: Timestamp, D, D2, A: Assign<T, D>, K: Finish<D, D2>> GatherRun<T, D, D2, A, K> {
    /// The number of activations.
    pub open spec fn len(self) -> int {
        self.courses.len() as int
    }

    /// What the records were held under, in the activation `i`.
    pub open spec fn parts(self, i: int) -> Seq<(T, Seq<D>)> {
        flattened(self.courses[i].parts)
    }

    /// What the records were held under, in the first `n` activations.
    pub open spec fn all_parts(self, n: int) -> Seq<(T, Seq<D>)>
        decreases n,
    {
        if n <= 0 {
            Seq::empty()
        } else {
            self.all_parts(n - 1) + self.parts(n - 1)
        }
    }

    /// The frontier in the activation `i`.
    pub open spec fn frontier(self, i: int) -> Seq<T> {
        self.before[i].context@.frontier
    }

    /// What waited in the activation `i` before complete times were delivered.
    pub open spec fn waiting(self, i: int) -> Waiting<T, D> {
        self.before[i].waiting().with_parts(self.parts(i))
    }

    /// The activation `i`.
    pub open spec fn works_at(self, i: int) -> bool {
        &&& self.before[i].waiting().sound()
        &&& gathers_by(
            &self.before[i],
            &self.after[i],
            self.inputs[i].0,
            self.inputs[i].1,
            self.outputs[i],
            self.courses[i],
        )
    }

    /// From one activation to the next nothing changes but the frontier, which does not go back.
    pub open spec fn goes_on_at(self, i: int) -> bool {
        &&& self.before[i].stash@ == self.after[i - 1].stash@
        &&& self.before[i].assigner == self.after[i - 1].assigner
        &&& self.before[i].finisher == self.after[i - 1].finisher
        &&& forall|t: T| #[trigger]
            covers(self.frontier(i), t) ==> covers(self.frontier(i - 1), t)
    }

    /// The operator holds nothing at first. Records come for times that can still come.
    pub open spec fn wf(self) -> bool {
        let n = self.len();
        &&& self.before.len() == n
        &&& self.after.len() == n
        &&& self.inputs.len() == n
        &&& self.outputs.len() == n
        &&& n > 0
        &&& self.before[0].stash@ == Map::<T, Seq<D>>::empty()
        &&& forall|i: int| 0 <= i < n ==> #[trigger] self.works_at(i)
        &&& forall|i: int| 0 < i < n ==> #[trigger] self.goes_on_at(i)
        &&& forall|i: int, k: int|
            0 <= i < n && 0 <= k < self.parts(i).len() ==> covers(
                self.frontier(i),
                (#[trigger] self.parts(i)[k]).0,
            )
    }

    /// The time was given out in one of the first `n` activations.
    pub open spec fn is_out(self, n: int, t: T) -> bool {
        exists|i: int| 0 <= i < n && (#[trigger] self.courses[i]).times.contains(t)
    }
}

proof fn lemma_records_more<T, D>(a: Seq<(T, Seq<D>)>, b: Seq<(T, Seq<D>)>, t: T)
    ensures
        records_at(a + b, t) == records_at(a, t) + records_at(b, t),
    decreases b.len(),
{
    if b.len() == 0 {
        assert(a + b =~= a);
        assert(records_at(a, t) + records_at(b, t) =~= records_at(a, t));
    } else {
        assert((a + b).drop_last() =~= a + b.drop_last());
        lemma_records_more(a, b.drop_last(), t);
        assert(records_at(a + b, t) =~= records_at(a, t) + records_at(b, t));
    }
}

proof fn lemma_records_none<T, D>(parts: Seq<(T, Seq<D>)>, t: T)
    requires
        forall|k: int| 0 <= k < parts.len() ==> (#[trigger] parts[k]).0 != t,
    ensures
        records_at(parts, t) == Seq::<D>::empty(),
    decreases parts.len(),
{
    if parts.len() > 0 {
        lemma_records_none(parts.drop_last(), t);
    }
}

/// What is held at a time grows by the records that come for it.
proof fn lemma_held_more<T, D>(w: Waiting<T, D>, parts: Seq<(T, Seq<D>)>, t: T)
    ensures
        held_at(w.with_parts(parts).held, t) == held_at(w.held, t) + records_at(parts, t),
        w.with_parts(parts).held.dom().contains(t) ==> w.held.dom().contains(t) || exists|k: int|
            0 <= k < parts.len() && (#[trigger] parts[k]).0 == t,
        w.held.dom().contains(t) ==> w.with_parts(parts).held.dom().contains(t),
    decreases parts.len(),
{
    if parts.len() == 0 {
        assert(held_at(w.held, t) + records_at(parts, t) =~= held_at(w.held, t));
    } else {
        let less = parts.drop_last();
        let n = parts.len() - 1;
        lemma_held_more(w, less, t);
        assert(held_at(w.with_parts(parts).held, t) =~= held_at(w.held, t) + records_at(parts, t));
        if w.with_parts(parts).held.dom().contains(t) && !w.held.dom().contains(t) {
            if parts[n].0 != t {
                let k = choose|k: int| 0 <= k < less.len() && (#[trigger] less[k]).0 == t;
                assert(parts[k].0 == t);
            }
        }
    }
}

proof fn lemma_others_stay<T, D>(held: Map<T, Seq<D>>, times: Seq<T>, t: T)
    ensures
        !times.contains(t) ==> held_at(released(held, times), t) == held_at(held, t)
            && released(held, times).dom().contains(t) == held.dom().contains(t),
        times.contains(t) ==> !released(held, times).dom().contains(t),
    decreases times.len(),
{
    if times.len() > 0 {
        let less = times.drop_last();
        lemma_others_stay(held, less, t);
        if times.contains(t) && !less.contains(t) {
            let i = choose|i: int| 0 <= i < times.len() && times[i] == t;
            if i < less.len() {
                assert(less[i] == t);
            }
        }
        if less.contains(t) {
            let i = choose|i: int| 0 <= i < less.len() && less[i] == t;
            assert(times[i] == t);
        }
        if times.last() == t {
            assert(times[times.len() - 1] == t);
        }
    }
}

/// Before the activation `n`: a time that was given out is complete, and nothing is held at it; at any
/// other time everything is held that came for it.
proof fn lemma_gathered<T: Timestamp, D, D2, A: Assign<T, D>, K: Finish<D, D2>>(
    run: GatherRun<T, D, D2, A, K>,
    n: int,
    t: T,
)
    requires
        run.wf(),
        0 <= n < run.len(),
    ensures
        run.is_out(n, t) ==> !run.before[n].stash@.dom().contains(t) && !covers(
            run.frontier(n),
            t,
        ),
        !run.is_out(n, t) ==> held_at(run.before[n].stash@, t) == records_at(run.all_parts(n), t),
    decreases n,
{
    if n > 0 {
        let i = n - 1;
        lemma_gathered(run, i, t);
        assert(run.works_at(i));
        assert(run.goes_on_at(n));
        let w = run.waiting(i);
        let c = run.courses[i];
        lemma_step(run, i, t);
        lemma_records_more(run.all_parts(i), run.parts(i), t);
        lemma_others_stay(w.held, c.times, t);
        if run.is_out(n, t) {
            let j = choose|j: int| 0 <= j < n && (#[trigger] run.courses[j]).times.contains(t);
            if j < i {
                assert(run.is_out(i, t));
            }
        } else {
            assert(!c.times.contains(t));
            assert(!run.is_out(i, t)) by {
                if run.is_out(i, t) {
                    let j = choose|j: int|
                        0 <= j < i && (#[trigger] run.courses[j]).times.contains(t);
                    assert(run.courses[j].times.contains(t));
                }
            }
        }
    }
}

/// In an activation: a time that was given out before gets no more records and is not given out; a
/// time that is given out is complete, and all records are there that came for it.
proof fn lemma_step<T: Timestamp, D, D2, A: Assign<T, D>, K: Finish<D, D2>>(
    run: GatherRun<T, D, D2, A, K>,
    i: int,
    t: T,
)
    requires
        run.wf(),
        0 <= i < run.len(),
        run.is_out(i, t) ==> !run.before[i].stash@.dom().contains(t) && !covers(
            run.frontier(i),
            t,
        ),
        !run.is_out(i, t) ==> held_at(run.before[i].stash@, t) == records_at(run.all_parts(i), t),
    ensures
        run.is_out(i, t) ==> !run.courses[i].times.contains(t) && !run.waiting(
            i,
        ).held.dom().contains(t) && records_at(run.parts(i), t).len() == 0,
        !run.is_out(i, t) ==> held_at(run.waiting(i).held, t) == records_at(
            run.all_parts(i + 1),
            t,
        ),
        run.courses[i].times.contains(t) ==> !covers(run.frontier(i), t) && run.waiting(
            i,
        ).held.dom().contains(t),
{
    assert(run.works_at(i));
    let w0 = run.before[i].waiting();
    let w = run.waiting(i);
    let c = run.courses[i];
    lemma_parts_sound(w0, run.parts(i));
    lemma_draining(c.states, c.times, c.times.len() as int);
    lemma_held_more(w0, run.parts(i), t);
    lemma_records_more(run.all_parts(i), run.parts(i), t);
    if c.times.contains(t) {
        let j = choose|j: int| 0 <= j < c.times.len() && c.times[j] == t;
        assert(c.states[0].pending.contains(c.times[j]));
        assert(w.requests.contains(t));
        assert(w.held.dom().contains(t));
        assert(!covers(c.states[0].frontier, c.times[j]));
    }
    if run.is_out(i, t) {
        assert forall|k: int| 0 <= k < run.parts(i).len() implies (
        #[trigger] run.parts(i)[k]).0 != t by {
            assert(covers(run.frontier(i), run.parts(i)[k].0));
        }
        lemma_records_none(run.parts(i), t);
    }
}

/// After a time was given out nothing comes for it any more.
proof fn lemma_nothing_more<T: Timestamp, D, D2, A: Assign<T, D>, K: Finish<D, D2>>(
    run: GatherRun<T, D, D2, A, K>,
    i: int,
    n: int,
    t: T,
)
    requires
        run.wf(),
        0 <= i < n <= run.len(),
        run.courses[i].times.contains(t),
    ensures
        records_at(run.all_parts(n), t) == records_at(run.all_parts(i + 1), t),
        forall|j: int| i < j < n ==> !(#[trigger] run.courses[j]).times.contains(t),
    decreases n,
{
    if n > i + 1 {
        lemma_nothing_more(run, i, n - 1, t);
        lemma_gathered(run, n - 1, t);
        assert(run.is_out(n - 1, t));
        lemma_step(run, n - 1, t);
        lemma_records_more(run.all_parts(n - 1), run.parts(n - 1), t);
        assert(records_at(run.all_parts(n), t) =~= records_at(run.all_parts(n - 1), t));
    }
}

/// Of records that are held back, each time is given out at most once, not before it is complete, and
/// with all the records that ever come for it, whatever happens in the other activations.
pub proof fn times_are_given_out_once<T: Timestamp, D, D2, A: Assign<T, D>, K: Finish<D, D2>>(
    run: GatherRun<T, D, D2, A, K>,
    i: int,
    k: int,
)
    requires
        run.wf(),
        0 <= i < run.len(),
        0 <= k < run.courses[i].times.len(),
    ensures
        ({
            let t = run.courses[i].times[k];
            &&& !covers(run.frontier(i), t)
            &&& forall|j: int|
                0 <= j < run.len() && j != i ==> !(#[trigger] run.courses[j]).times.contains(t)
            &&& forall|j: int|
                0 <= j < run.courses[i].times.len() && j != k ==> #[trigger] run.courses[i].times[j]
                    != t
            &&& run.before[i].finisher.finishes(
                records_at(run.all_parts(run.len()), t),
                run.courses[i].outs[k],
            )
        }),
{
    let t = run.courses[i].times[k];
    let c = run.courses[i];
    assert(c.times.contains(t));
    lemma_gathered(run, i, t);
    lemma_step(run, i, t);
    lemma_nothing_more(run, i, run.len(), t);
    assert forall|j: int| 0 <= j < run.len() && j != i implies !(
    #[trigger] run.courses[j]).times.contains(t) by {
        if j < i && run.courses[j].times.contains(t) {
            assert(run.is_out(i, t));
        }
    }
    assert(run.works_at(i));
    lemma_parts_sound(run.before[i].waiting(), run.parts(i));
    lemma_draining(c.states, c.times, c.times.len() as int);
    assert(!run.is_out(i, t));
    assert(run.waiting(i).held[t] == held_at(run.waiting(i).held, t));
    assert(run.before[i].finisher.finishes(run.waiting(i).held[c.times[k]], c.outs[k]));
}

/// A time for which records came, and which is complete in the last activation, was given out.
pub proof fn complete_times_are_given_out<
    T: Timestamp,
    D,
    D2,
    A: Assign<T, D>,
    K: Finish<D, D2>,
>(run: GatherRun<T, D, D2, A, K>, t: T)
    requires
        run.wf(),
        !covers(run.frontier(run.len() - 1), t),
        records_at(run.all_parts(run.len()), t).len() > 0,
    ensures
        run.is_out(run.len(), t),
{
    let n = run.len();
    let i = n - 1;
    lemma_gathered(run, i, t);
    lemma_step(run, i, t);
    if run.is_out(i, t) {
        let j = choose|j: int| 0 <= j < i && (#[trigger] run.courses[j]).times.contains(t);
        assert(run.courses[j].times.contains(t));
    } else {
        assert(run.works_at(i));
        let w = run.waiting(i);
        let c = run.courses[i];
        lemma_parts_sound(run.before[i].waiting(), run.parts(i));
        assert(w.held.dom().contains(t));
        assert(w.requests.contains(t));
        lemma_draining(c.states, c.times, c.times.len() as int);
        if !c.times.contains(t) {
            lemma_still_pending(c.states, c.times, c.times.len() as int, t);
            let end = run.after[i].context@;
            let j = choose|j: int| 0 <= j < end.pending.len() && end.pending[j] == t;
            assert(!covers(end.frontier, end.pending[j]));
            assert(end.ready());
        }
        assert(run.courses[i].times.contains(t));
    }
}

proof fn lemma_still_pending<T: Timestamp>(
    states: Seq<NotificatorView<T>>,
    times: Seq<T>,
    k: int,
    t: T,
)
    requires
        drains_by(states, times),
        states[0].pending.contains(t),
        !times.contains(t),
        0 <= k <= times.len(),
    ensures
        states[k].pending.contains(t),
    decreases k,
{
    if k > 0 {
        lemma_still_pending(states, times, k - 1, t);
        let a = states[k - 1];
        assert(drain_step(states, times, k - 1));
        let i = choose|i: int| #[trigger]
            a.is_next(i) && times[k - 1] == a.pending[i] && states[k - 1 + 1] == (
            NotificatorView { pending: a.pending.remove(i), ..a });
        let j = choose|j: int| 0 <= j < a.pending.len() && a.pending[j] == t;
        assert(times[k - 1] != t) by {
            assert(times.contains(times[k - 1]));
        }
        if j < i {
            assert(a.pending.remove(i)[j] == t);
        } else {
            assert(a.pending.remove(i)[j - 1] == t);
        }
    }
}

} // verus!
