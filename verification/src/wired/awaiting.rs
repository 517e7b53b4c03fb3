//! Operators tell of everything that waits at their inputs.

use vstd::prelude::*;
use crate::error::Result;
use crate::handles::{InputHandle, OutputHandle};
use crate::order::{Product, Timestamp};
use crate::schedulable::SchedulableOperator;
use crate::strand::{ChannelCell, Log};
use crate::wired::logic::flattened;
use crate::wired::operator::{
    all_can_hold, can_hold, AsIs, CollectCore, ForEachCore, FrontierLogic, JoinCore, LoopOperator,
    MergeCore, NotifyCore, Outside, Projection, RelayCore, TaskCore, WiredCore,
};
use crate::wired::promises::{readers_tell_of_what_is_next, starts_at};
use crate::wired::relay::RelayLogic;

verus! {

/// The times are those, among others, of all batches that a reader could read at some moment, as `seen`
/// shows them, as many as it sees at a time.
pub open spec fn tells_of<T, D, S>(
    cell: ChannelCell<T, D>,
    times: Seq<S>,
    seen: spec_fn(T) -> S,
) -> bool {
    exists|log: Log<T, D>, at: int| #[trigger]
        starts_at(cell, log, at) && cell.strand().log().turned(log, log) && forall|i: int|
            at <= i < log@.written().len() && i < at + cell.limit() && i < usize::MAX
                ==> times.contains(seen((#[trigger] log@.written()[i]).0))
}

proof fn lemma_tells<T, D: Clone, S>(
    cell: ChannelCell<T, D>,
    waiting: Seq<T>,
    times: Seq<S>,
    seen: spec_fn(T) -> S,
)
    requires
        can_hold(cell, waiting),
        forall|k: int| 0 <= k < waiting.len() ==> times.contains(seen(#[trigger] waiting[k])),
    ensures
        tells_of(cell, times, seen),
{
    readers_tell_of_what_is_next(cell, waiting);
    let (log, at) = choose|log: Log<T, D>, at: int| #[trigger]
        starts_at(cell, log, at) && cell.strand().log().turned(log, log) && waiting.len()
            <= cell.limit() && at + waiting.len() <= log@.written().len() && (waiting.len()
            < cell.limit() && at + waiting.len() < usize::MAX ==> at + waiting.len()
            == log@.written().len()) && forall|i: int|
            0 <= i < waiting.len() ==> #[trigger] waiting[i] == log@.written()[at + i].0;
    assert forall|i: int|
        at <= i < log@.written().len() && i < at + cell.limit() && i
            < usize::MAX implies times.contains(seen((#[trigger] log@.written()[i]).0)) by {
        assert(waiting[i - at] == log@.written()[at + (i - at)].0);
    }
}

/// The executor sees times as they are, and of a time inside a loop the time outside.
pub proof fn times_are_seen_from_outside<T: Timestamp, TInner>(t: T, p: Product<T, TInner>)
    ensures
        <AsIs as Projection<T, T>>::seen(t) == t,
        <Outside as Projection<Product<T, TInner>, T>>::seen(p) == p.outer,
{
}

/// An operator with one input tells of all that waits there.
pub proof fn operators_tell_of_what_waits<
    T: Timestamp,
    T1: Timestamp,
    D1: Clone,
    T2: Timestamp,
    D2: Clone,
    L: RelayLogic<T1, D1, T2, D2>,
    P1: Projection<T1, T>,
    P2: Projection<T2, T>,
>(core: RelayCore<T1, D1, T2, D2, L, P1, P2>, times: Seq<T>)
    requires
        WiredCore::<T>::queues(&core, times),
    ensures
        tells_of(core.input, times, |t: T1| P1::seen(t)),
{
    let seen = |t: T1| P1::seen(t);
    let inner = choose|inner: Seq<T1>| #[trigger]
        can_hold(core.input, inner) && times == inner.map_values(|t: T1| P1::seen(t));
    assert forall|k: int| 0 <= k < inner.len() implies times.contains(
        seen(#[trigger] inner[k]),
    ) by {
        assert(times[k] == seen(inner[k]));
    }
    lemma_tells(core.input, inner, times, seen);
}

/// An operator that waits for complete times tells of all that waits at its input.
pub proof fn waiting_operators_tell_of_what_waits<
    T: Timestamp,
    D1: Clone,
    D2: Clone,
    L: FrontierLogic<T, D1, D2>,
>(core: NotifyCore<T, D1, D2, L>, times: Seq<T>)
    requires
        core.queues(times),
    ensures
        tells_of(core.relay.input, times, |t: T| t),
{
    lemma_tells(core.relay.input, times, times, |t: T| t);
}

/// An operator with tasks tells of all that waits at its input.
pub proof fn task_operators_tell_of_what_waits<T: Timestamp, D: Clone, D2: Clone>(
    core: TaskCore<T, D, D2>,
    times: Seq<T>,
)
    requires
        core.queues(times),
    ensures
        tells_of(core.input, times, |t: T| t),
{
    lemma_tells(core.input, times, times, |t: T| t);
}

/// Sinks tell of all that waits at their input.
pub proof fn sinks_tell_of_what_waits<T: Timestamp, D: Clone, F: FnMut(&T, &[D])>(
    collect: CollectCore<T, D>,
    show: ForEachCore<T, D, F>,
    times: Seq<T>,
)
    ensures
        collect.queues(times) ==> tells_of(collect.input, times, |t: T| t),
        show.queues(times) ==> tells_of(show.input, times, |t: T| t),
{
    if collect.queues(times) {
        lemma_tells(collect.input, times, times, |t: T| t);
    }
    if show.queues(times) {
        lemma_tells(show.input, times, times, |t: T| t);
    }
}

/// An operator with two inputs tells of all that waits at either.
pub proof fn joins_tell_of_what_waits<
    T: Timestamp,
    D1: Clone,
    D2: Clone,
    D3: Clone,
    L: FnMut(&mut InputHandle<T, D1>, &mut InputHandle<T, D2>, &mut OutputHandle<T, D3>) -> Result<
        (),
    >,
>(core: JoinCore<T, D1, D2, D3, L>, times: Seq<T>)
    requires
        core.queues(times),
    ensures
        tells_of(core.left, times, |t: T| t),
        tells_of(core.right, times, |t: T| t),
{
    let (left, right) = choose|left: Seq<T>, right: Seq<T>|
        #[trigger] can_hold(core.left, left) && #[trigger] can_hold(core.right, right) && times
            == left + right;
    let seen = |t: T| t;
    assert forall|k: int| 0 <= k < left.len() implies times.contains(seen(#[trigger] left[k])) by {
        assert(times[k] == left[k]);
    }
    assert forall|k: int| 0 <= k < right.len() implies times.contains(
        seen(#[trigger] right[k]),
    ) by {
        assert(times[left.len() + k] == right[k]);
    }
    lemma_tells(core.left, left, times, seen);
    lemma_tells(core.right, right, times, seen);
}

proof fn lemma_in_flattened<X>(parts: Seq<Seq<X>>, j: int, k: int)
    requires
        0 <= j < parts.len(),
        0 <= k < parts[j].len(),
    ensures
        flattened(parts).contains(parts[j][k]),
    decreases parts.len(),
{
    let less = parts.drop_last();
    let all = flattened(parts);
    let head = flattened(less);
    if j < less.len() {
        lemma_in_flattened(less, j, k);
        let m = choose|m: int| 0 <= m < head.len() && head[m] == less[j][k];
        assert(all[m] == parts[j][k]);
    } else {
        assert(all[head.len() + k] == parts[j][k]);
    }
}

/// An operator that merges streams tells of all that waits at each of its inputs.
pub proof fn merges_tell_of_what_waits<T: Timestamp, T1: Timestamp, D: Clone, P: Projection<T1, T>>(
    core: MergeCore<T1, D, P>,
    times: Seq<T>,
    j: int,
)
    requires
        WiredCore::<T>::queues(&core, times),
        0 <= j < core.inputs@.len(),
    ensures
        tells_of(core.inputs@[j], times, |t: T1| P::seen(t)),
{
    let seen = |t: T1| P::seen(t);
    let parts = choose|parts: Seq<Seq<T1>>| #[trigger]
        all_can_hold(core.inputs@, parts) && times == flattened(parts).map_values(
            |t: T1| P::seen(t),
        );
    assert(can_hold(core.inputs@[j], parts[j]));
    let all = flattened(parts);
    assert forall|k: int| 0 <= k < parts[j].len() implies times.contains(
        seen(#[trigger] parts[j][k]),
    ) by {
        lemma_in_flattened(parts, j, k);
        let m = choose|m: int| 0 <= m < all.len() && all[m] == parts[j][k];
        assert(times[m] == seen(parts[j][k]));
    }
    lemma_tells(core.inputs@[j], parts[j], times, seen);
}

/// What waits at an operator inside a loop is told of at the times outside.
pub proof fn loops_tell_of_what_waits<T: Timestamp, TInner: Timestamp>(
    op: LoopOperator<T, TInner>,
    times: Seq<T>,
) -> (inner: Seq<Product<T, TInner>>)
    requires
        op.queues(times),
    ensures
        op.op.queues(inner),
        times.len() == inner.len(),
        forall|k: int| 0 <= k < inner.len() ==> (#[trigger] inner[k]).outer == times[k],
{
    let inner = choose|inner: Seq<Product<T, TInner>>| #[trigger]
        op.op.queues(inner) && times == inner.map_values(|t: Product<T, TInner>| t.outer);
    inner
}

} // verus!
