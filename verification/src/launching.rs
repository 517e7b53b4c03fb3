//! What an executor knows of its dataflow when it begins, and when it asks to be called again.

use vstd::prelude::*;
use crate::assembly::{counts_for, is_task_map, is_task_of, places, stage_places};
use crate::builder::{BuilderView, DataflowBuilder};
use crate::combine::{joined_inputs, merging, pair_inputs, splits_by, Part};
use crate::delivery::placed;
use crate::graph::EdgeInfo;
use crate::growing::{leads_to, operators_are_joined_to_what_they_read};
use crate::materialize::{adjacent, is_adjacency, is_position_map, leads};
use crate::metrics::DataflowMetrics;
use crate::order::Timestamp;
use crate::pipe::{reading, Pipe};
use crate::progress::outset;
use crate::role::Line;
use crate::schedulable::BoxedOperator;
use crate::shared::Mark;
use crate::stage::StageInfo;
use crate::stream::Slot;
use crate::text::{decimal, digit};
use crate::verdict::{signal_after, SweepOutcome};
use crate::wake::WakeState;

verus! {

/// The operators stand at different positions.
pub open spec fn all_differ(indices: Seq<usize>) -> bool {
    forall|i: int, j: int|
        0 <= i < j < indices.len() ==> #[trigger] indices[i] != #[trigger] indices[j]
}

/// An operator is found at its position.
pub proof fn operators_are_found_where_they_stand(indices: Seq<usize>, map: Seq<usize>, p: int, x: int)
    requires
        is_position_map(indices, map),
        all_differ(indices),
        0 <= p < indices.len() <= usize::MAX,
    ensures
        indices[p] < map.len(),
        map[indices[p] as int] == p,
        0 <= x < map.len() && !indices.contains(x as usize) && x <= usize::MAX ==> map[x]
            == usize::MAX,
{
    let m = map[indices[p] as int] as int;
    assert(indices[m] == indices[p]);
    if m != p {
        assert(indices[p] != indices[m]);
    }
    if 0 <= x < map.len() && x <= usize::MAX && map[x] != usize::MAX {
        assert(indices[map[x] as int] == x);
    }
}

/// An operator is behind another just if an edge leads from the one to the other, and in front of it just
/// if an edge leads the other way.
pub proof fn neighbours_are_joined_by_edges(
    edges: Seq<EdgeInfo>,
    indices: Seq<usize>,
    map: Seq<usize>,
    behind: Seq<Seq<usize>>,
    in_front: Seq<Seq<usize>>,
    p: int,
    q: int,
)
    requires
        is_position_map(indices, map),
        all_differ(indices),
        indices.len() < usize::MAX,
        is_adjacency(edges, map, indices.len() as int, true, behind),
        is_adjacency(edges, map, indices.len() as int, false, in_front),
        0 <= p < indices.len(),
        0 <= q < indices.len(),
    ensures
        behind.len() == indices.len(),
        in_front.len() == indices.len(),
        behind[p].contains(q as usize) <==> exists|e: int|
            0 <= e < edges.len() && (#[trigger] edges[e]).source.operator_index == indices[p]
                && edges[e].target.operator_index == indices[q],
        in_front[q].contains(p as usize) <==> exists|e: int|
            0 <= e < edges.len() && (#[trigger] edges[e]).source.operator_index == indices[p]
                && edges[e].target.operator_index == indices[q],
{
    let n = indices.len() as int;
    operators_are_found_where_they_stand(indices, map, p, 0);
    operators_are_found_where_they_stand(indices, map, q, 0);
    assert(behind[p].contains(q as usize) <==> adjacent(edges, map, n, p as usize, q as usize));
    assert(in_front[q].contains(p as usize) <==> adjacent(edges, map, n, p as usize, q as usize));
    if adjacent(edges, map, n, p as usize, q as usize) {
        let e = choose|e: int| #[trigger] leads(edges, map, n, e, p as usize, q as usize);
        let a = edges[e].source.operator_index as int;
        let b = edges[e].target.operator_index as int;
        assert(map[a] == p && indices[map[a] as int] == a);
        assert(map[b] == q && indices[map[b] as int] == b);
        assert(edges[e].source.operator_index == indices[p]);
    }
    if exists|e: int|
        0 <= e < edges.len() && (#[trigger] edges[e]).source.operator_index == indices[p]
            && edges[e].target.operator_index == indices[q] {
        let e = choose|e: int|
            0 <= e < edges.len() && (#[trigger] edges[e]).source.operator_index == indices[p]
                && edges[e].target.operator_index == indices[q];
        assert(leads(edges, map, n, e, p as usize, q as usize));
    }
}

/// If all the operators have a position, all of these are there, in the order of the operators.
pub proof fn all_places_are_found(indices: Seq<usize>, map: Seq<usize>, ops: Seq<usize>)
    requires
        is_position_map(indices, map),
        all_differ(indices),
        indices.len() < usize::MAX,
        forall|k: int| 0 <= k < ops.len() ==> indices.contains(#[trigger] ops[k]),
    ensures
        places(map, ops).len() == ops.len(),
        forall|k: int|
            0 <= k < ops.len() ==> #[trigger] places(map, ops)[k] < indices.len()
                && indices[places(map, ops)[k] as int] == ops[k],
    decreases ops.len(),
{
    if ops.len() > 0 {
        let less = ops.drop_last();
        let n = ops.len() - 1;
        assert forall|k: int| 0 <= k < less.len() implies indices.contains(#[trigger] less[k]) by {
            assert(less[k] == ops[k]);
        }
        all_places_are_found(indices, map, less);
        assert(indices.contains(ops[n]));
        let p = choose|p: int| 0 <= p < indices.len() && indices[p] == ops[n];
        operators_are_found_where_they_stand(indices, map, p, 0);
        assert(placed(map, ops.last()));
        let all = places(map, ops);
        assert(all == places(map, less).push(p as usize));
        assert forall|k: int| 0 <= k < ops.len() implies #[trigger] all[k] < indices.len()
            && indices[all[k] as int] == ops[k] by {
            if k < n {
                assert(all[k] == places(map, less)[k]);
                assert(less[k] == ops[k]);
            }
        }
    }
}

/// The operators of a stage are scheduled together, each at its position.
pub proof fn stages_hold_their_operators(
    indices: Seq<usize>,
    map: Seq<usize>,
    stages: Seq<StageInfo>,
    s: int,
    k: int,
)
    requires
        is_position_map(indices, map),
        all_differ(indices),
        indices.len() < usize::MAX,
        0 <= s < stages.len(),
        forall|j: int|
            0 <= j < stages[s].operator_indices@.len() ==> indices.contains(
                #[trigger] stages[s].operator_indices@[j],
            ),
        0 <= k < stages[s].operator_indices@.len(),
    ensures
        stage_places(map, stages).len() == stages.len(),
        stage_places(map, stages)[s].len() == stages[s].operator_indices@.len(),
        stage_places(map, stages)[s][k] < indices.len(),
        indices[stage_places(map, stages)[s][k] as int] == stages[s].operator_indices@[k],
{
    all_places_are_found(indices, map, stages[s].operator_indices@);
}

/// Every operator is looked up in the one task that holds it, and in none if no task does.
pub proof fn operators_belong_to_their_task(
    tasks: Seq<Seq<usize>>,
    n: nat,
    task_of: Seq<usize>,
    p: int,
    t: int,
)
    requires
        is_task_map(tasks, n, task_of),
        0 <= p < n <= usize::MAX,
        tasks.len() < usize::MAX,
        0 <= t < tasks.len(),
        forall|u: int|
            0 <= u < tasks.len() && u != t ==> !(#[trigger] tasks[u]).contains(p as usize),
    ensures
        task_of.len() == n,
        tasks[t].contains(p as usize) ==> task_of[p] == t,
        !tasks[t].contains(p as usize) ==> task_of[p] == usize::MAX,
{
    let f = task_of[p];
    assert(is_task_of(tasks, p, f));
    if f != usize::MAX {
        assert(tasks[f as int].contains(p as usize));
        assert(f as int == t);
    } else {
        assert(!tasks[t].contains(p as usize));
    }
}

/// At the start just the sources may send, each at any time.
pub proof fn sources_may_send_at_any_time<T: Timestamp>(sources: Seq<usize>, i: usize, t: T)
    ensures
        sources.contains(i) <==> exists|k: int|
            0 <= k < outset::<T>(sources).len() && (#[trigger] outset::<T>(sources)[k]).operator
                == i,
        sources.contains(i) ==> exists|k: int|
            0 <= k < outset::<T>(sources).len() && (#[trigger] outset::<T>(sources)[k]).operator
                == i && outset::<T>(sources)[k].time.le(&t),
{
    let all = outset::<T>(sources);
    t.least_is_below();
    if sources.contains(i) {
        let k = choose|k: int| 0 <= k < sources.len() && sources[k] == i;
        assert(all[k].operator == i);
        assert(all[k].time.le(&t));
    }
    if exists|k: int| 0 <= k < all.len() && (#[trigger] all[k]).operator == i {
        let k = choose|k: int| 0 <= k < all.len() && (#[trigger] all[k]).operator == i;
        assert(sources[k] == i);
    }
}

/// At the start nothing is counted yet, and each operator has a counter under its name.
pub proof fn counters_begin_at_zero<T: Timestamp>(
    m: DataflowMetrics,
    operators: Seq<BoxedOperator<T>>,
    i: int,
)
    requires
        counts_for(m, operators),
        0 <= i < operators.len(),
    ensures
        m@.operators.len() == operators.len(),
        m@.activations.len() == operators.len(),
        m@.cpu_nanos.len() == operators.len(),
        m@.operators[i] == operators[i].label(),
        m@.activations[i] == 0,
        m@.cpu_nanos[i] == 0,
        m@.wall_nanos == 0,
{
}

/// Whoever runs a dataflow is called again, or at once, unless the dataflow has come to its end or is
/// to be swept again anyway: nobody waits in vain, and nobody is called when nothing is left to do.
pub proof fn nobody_waits_in_vain(
    outcome: Option<SweepOutcome>,
    spent: bool,
    before: WakeState,
    after: WakeState,
)
    requires
        before.takes(signal_after(outcome, spent), after),
    ensures
        outcome is None || outcome->0 is Completed || outcome->0 is Quiescent ==> after.waker is None
            && after.notified == before.notified,
        outcome matches Some(o) && o is WaitingForInput ==> after.waker is Some && after.notified
            == before.notified,
        outcome matches Some(o) && (o is MadeProgress || o is Idle) && spent ==> after.waker is Some
            && after.notified,
        outcome matches Some(o) && (o is MadeProgress || o is Idle) && !spent ==> after.waker
            == before.waker && after.notified == before.notified,
        before.notified ==> after.notified,
{
}

/// What a notation of a number in digits stands for.
pub open spec fn reads_as(text: Seq<char>) -> int
    decreases text.len(),
{
    if text.len() == 0 {
        0
    } else {
        10 * reads_as(text.drop_last()) + (text.last() as int - '0' as int)
    }
}

/// A number that is written down reads as that number, and is written with digits only.
pub proof fn numbers_read_back(n: nat)
    ensures
        reads_as(decimal(n)) == n,
        decimal(n).len() > 0,
        forall|i: int| 0 <= i < decimal(n).len() ==> '0' <= #[trigger] decimal(n)[i] <= '9',
    decreases n,
{
    reveal_with_fuel(reads_as, 2);
    if n < 10 {
        assert(decimal(n).drop_last() =~= Seq::<char>::empty());
        assert(decimal(n).last() == digit(n));
    } else {
        numbers_read_back(n / 10);
        assert(decimal(n).drop_last() =~= decimal(n / 10));
        assert(decimal(n).last() == digit(n % 10));
    }
}

/// Streams that are merged are all read, each by an input of its own, in their order.
pub proof fn all_merged_streams_are_read<T, D>(
    before: BuilderView,
    after: BuilderView,
    streams: Seq<Pipe<T, D>>,
    writes: Mark,
    k: int,
)
    requires
        before.adds(after, merging(joined_inputs(streams, before), writes)),
        before.next < usize::MAX,
        before.graph.edges.len() + streams.len() <= usize::MAX,
        0 <= k < streams.len(),
    ensures
        after.graph.edges.len() == before.graph.edges.len() + streams.len(),
        leads_to(
            after.graph.edges[before.graph.edges.len() + k],
            streams[k].source(),
            before.next as int,
            k,
        ),
        after.graph.operators[before.next].input_count == streams.len(),
        after.channels.contains(
            (
                (before.graph.edges.len() + k) as usize,
                Line { capacity: streams[k].limit(before), mark: streams[k].mark() },
            ),
        ),
{
    let op = merging(joined_inputs(streams, before), writes);
    operators_are_joined_to_what_they_read(before, after, op, k);
}

/// Two streams that are joined are both read, the first by the first input.
pub proof fn both_joined_streams_are_read<T, D, D2>(
    left: Pipe<T, D>,
    right: Pipe<T, D2>,
    before: BuilderView,
)
    ensures
        pair_inputs(left, right, before).len() == 2,
        pair_inputs(left, right, before)[0].0 == left.source(),
        pair_inputs(left, right, before)[0].1.mark == left.mark(),
        pair_inputs(left, right, before)[0].1.capacity == left.limit(before),
        pair_inputs(left, right, before)[1].0 == right.source(),
        pair_inputs(left, right, before)[1].1.mark == right.mark(),
        pair_inputs(left, right, before)[1].1.capacity == right.limit(before),
{
}

/// Both parts of a stream that is split read the stream.
pub proof fn both_parts_read_the_stream<T: Timestamp + 'static>(
    before: DataflowBuilder<T>,
    mid: DataflowBuilder<T>,
    after: DataflowBuilder<T>,
    source: Slot,
    line: Line,
    first: Part,
    second: Part,
)
    requires
        splits_by(before, mid, after, source, line, first, second),
        before@.next + 2 <= usize::MAX,
        before@.graph.edges.len() + 2 <= usize::MAX,
    ensures
        after@.graph.edges.len() == before@.graph.edges.len() + 2,
        leads_to(
            after@.graph.edges[before@.graph.edges.len() as int],
            source,
            before@.next as int,
            0,
        ),
        leads_to(
            after@.graph.edges[before@.graph.edges.len() + 1int],
            source,
            before@.next + 1,
            0,
        ),
        after@.graph.operators[before@.next].name@ == first.name,
        after@.graph.operators[(before@.next + 1) as usize].name@ == second.name,
        after@.next == before@.next + 2,
        after.crew().len() == before.crew().len() + 2,
{
    let a = reading(
        source,
        Line { capacity: before@.capacity, mark: line.mark },
        first.name,
        first.role,
        seq![first.writes],
        1,
    );
    let b = reading(source, line, second.name, second.role, seq![second.writes], 1);
    operators_are_joined_to_what_they_read(before@, mid@, a, 0);
    operators_are_joined_to_what_they_read(mid@, after@, b, 0);
    assert(mid@.graph.operators.contains_key(before@.next));
}

} // verus!
