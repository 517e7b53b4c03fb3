//! How a dataflow grows.

use vstd::prelude::*;
use crate::builder::{BuilderView, DataflowBuilder, NewOperator};
use crate::graph::EdgeInfo;
use crate::iterate::{
    gains_loop, loops_by, opens_loop, IterateResult, LoopCourse, LoopMarks,
};
use crate::order::{Product, Timestamp};
use crate::pipe::Pipe;
use crate::role::Line;
use crate::schedulable::BoxedOperator;
use crate::shared::Mark;
use crate::strand::{Outlets, Strand};
use crate::stream::Slot;
use crate::wired::operator::{
    runs, AsIs, LoopOperator, MergeCore, Outside, RelayCore,
};
use crate::wired::streams::{Entering, Leaving, RetimeLogic, Returning};

verus! {

/// An edge leads from an output to input `k` of the operator `i`, inside a stage.
pub open spec fn leads_to(edge: EdgeInfo, from: Slot, i: int, k: int) -> bool {
    &&& edge.source == from
    &&& edge.target.operator_index == i
    &&& edge.target.slot_index == k
    &&& edge.kind is Pipeline
}

/// An operator that is added gets the next number; each of its inputs is joined, by an edge, a link and
/// a channel, to the output that it reads, and everything that was there stays.
pub proof fn operators_are_joined_to_what_they_read(
    before: BuilderView,
    after: BuilderView,
    op: NewOperator,
    k: int,
)
    requires
        before.adds(after, op),
        before.next < usize::MAX,
        before.graph.edges.len() + op.inputs.len() <= usize::MAX,
        0 <= k < op.inputs.len(),
    ensures
        after.next == before.next + 1,
        after.graph.operators.contains_key(before.next),
        after.graph.operators[before.next].name@ == op.name,
        after.graph.operators[before.next].input_count == op.inputs.len(),
        after.graph.operators[before.next].output_count == op.outputs,
        forall|i: usize| #[trigger]
            before.graph.operators.contains_key(i) && i != before.next
                ==> after.graph.operators.contains_key(i) && after.graph.operators[i]
                == before.graph.operators[i],
        after.graph.edges.len() == before.graph.edges.len() + op.inputs.len(),
        forall|e: int|
            0 <= e < before.graph.edges.len() ==> #[trigger] after.graph.edges[e]
                == before.graph.edges[e],
        ({
            let edge = after.graph.edges[before.graph.edges.len() + k];
            &&& edge.source == op.inputs[k].0
            &&& edge.target.operator_index == before.next
            &&& edge.target.slot_index == k
            &&& edge.kind == op.kind
            &&& edge.target_parallelism == if op.kind is Exchange {
                op.width
            } else {
                None
            }
        }),
        after.subgraph.links.contains((op.inputs[k].0.operator_index, before.next)),
        after.subgraph.operators.contains(before.next),
        after.channels.contains(((before.graph.edges.len() + k) as usize, op.inputs[k].1)),
        after.subgraph.sources.contains(before.next) ==> op.kind is Exchange
            || before.subgraph.sources.contains(before.next),
{
    let n = before.graph.edges.len() as int;
    assert(after.subgraph.links[before.subgraph.links.len() + k] == (
        op.inputs[k].0.operator_index,
        before.next,
    ));
    assert(after.subgraph.operators[before.subgraph.operators.len() as int] == before.next);
    assert(after.channels[before.channels.len() + k] == ((n + k) as usize, op.inputs[k].1));
}

/// An operator that reads nothing may send at any time from the start.
pub proof fn operators_without_input_may_always_send(
    before: BuilderView,
    after: BuilderView,
    op: NewOperator,
)
    requires
        before.adds(after, op),
    ensures
        op.inputs.len() == 0 || op.kind is Exchange ==> after.subgraph.sources.contains(
            before.next,
        ),
        forall|i: usize| #[trigger]
            before.subgraph.sources.contains(i) ==> after.subgraph.sources.contains(i),
        forall|i: usize| #[trigger]
            after.subgraph.sources.contains(i) && i != before.next
                ==> before.subgraph.sources.contains(i),
{
    let n = before.subgraph.sources.len() as int;
    if op.inputs.len() == 0 || op.kind is Exchange {
        assert(after.subgraph.sources[n] == before.next);
    }
    assert forall|i: usize| #[trigger] before.subgraph.sources.contains(
        i,
    ) implies after.subgraph.sources.contains(i) by {
        let k = choose|k: int|
            0 <= k < before.subgraph.sources.len() && before.subgraph.sources[k] == i;
        assert(after.subgraph.sources[k] == i);
    }
}

/// What goes into a loop comes to the same place as what comes back; what leaves the inside for good
/// leads to the way out, and what goes round once more leads to the way back.
pub proof fn loops_are_joined_up<
    T: Timestamp + 'static,
    TInner: Timestamp + 'static,
    D: Clone + 'static,
    F: FnOnce(DataflowBuilder<Product<T, TInner>>, Pipe<Product<T, TInner>, D>) -> (
        DataflowBuilder<Product<T, TInner>>,
        IterateResult<Product<T, TInner>, D>,
    ),
>(
    before: BuilderView,
    after: BuilderView,
    name: Seq<char>,
    source: Slot,
    line: Line,
    body: F,
    writes: Mark,
    c: LoopCourse<T, TInner, D>,
)
    requires
        loops_by(before, after, name, source, line, body, writes, c),
        !c.held,
        before.next + 4 <= usize::MAX,
    ensures
        ({
            let i = before.next as int;
            let out = |k: int| Slot { operator_index: (i + k) as usize, slot_index: 0 };
            let edges = after.graph.edges;
            &&& exists|e: int|
                0 <= e < edges.len() && leads_to(#[trigger] edges[e], source, i, 0)
            &&& exists|e: int|
                0 <= e < edges.len() && leads_to(#[trigger] edges[e], out(0), i + 2, 0)
            &&& exists|e: int|
                0 <= e < edges.len() && leads_to(#[trigger] edges[e], out(1), i + 2, 1)
            &&& exists|e: int|
                0 <= e < edges.len() && leads_to(
                    #[trigger] edges[e],
                    c.result.output.source(),
                    i + 3,
                    0,
                )
            &&& after.graph.feedback_edges.len() > 0
            &&& leads_to(
                after.graph.feedback_edges.last(),
                c.result.feedback.source(),
                i + 1,
                0,
            )
            &&& after.subgraph.links.contains((source.operator_index, i as usize))
            &&& after.subgraph.links.contains((i as usize, (i + 2) as usize))
            &&& after.subgraph.links.contains(((i + 1) as usize, (i + 2) as usize))
            &&& after.subgraph.links.contains(
                (c.result.output.source().operator_index, (i + 3) as usize),
            )
        }),
        forall|e: int|
            0 <= e < before.graph.edges.len() ==> #[trigger] after.graph.edges[e]
                == before.graph.edges[e],
        forall|e: int|
            0 <= e < c.inner@.graph.edges.len() ==> after.graph.edges[before.graph.edges.len() + 3
                + e] == #[trigger] c.inner@.graph.edges[e],
        forall|i: usize| #[trigger]
            c.inner@.graph.operators.contains_key(i) ==> after.graph.operators.contains_key(i)
                && after.graph.operators[i] == c.inner@.graph.operators[i],
        after.next == c.inner@.next,
        after.errors == before.errors + c.inner@.errors,
{
    let i = before.next as int;
    let n = before.graph.edges.len() as int;
    let m = before.subgraph.links.len() as int;
    let edges = after.graph.edges;
    let links = after.subgraph.links;
    let last = edges.len() - 1;
    assert(leads_to(edges[n], source, i, 0));
    assert(leads_to(
        edges[n + 1],
        Slot { operator_index: (i + 0) as usize, slot_index: 0 },
        i + 2,
        0,
    ));
    assert(leads_to(
        edges[n + 2],
        Slot { operator_index: (i + 1) as usize, slot_index: 0 },
        i + 2,
        1,
    ));
    assert(leads_to(edges[last], c.result.output.source(), i + 3, 0));
    assert(links[m] == (source.operator_index, i as usize));
    assert(links[m + 1] == (i as usize, (i + 2) as usize));
    assert(links[m + 2] == ((i + 1) as usize, (i + 2) as usize));
    assert(links[links.len() - 1] == (
        c.result.output.source().operator_index,
        (i + 3) as usize,
    ));
}

/// The operators that make up a loop: behind those that were there come the way in, which reads what
/// goes into the loop; the way back, which reads what goes round once more and lets its time advance
/// by the summary that was given; the place where both meet, whose output the inside begins with;
/// the operators of the inside, in their order; and the way out, which reads what leaves for good. All
/// of them begin with the first batch.
pub proof fn loops_run_the_way_back_with_their_summary<
    T: Timestamp + 'static,
    TInner: Timestamp + 'static,
    D: Clone + 'static,
>(
    before: Seq<BoxedOperator<T>>,
    after: Seq<BoxedOperator<T>>,
    input: Strand<T, D>,
    limit: usize,
    summary: TInner::Summary,
    c: LoopCourse<T, TInner, D>,
    outlets: Outlets<T, D>,
) where TInner::Summary: 'static
    requires
        gains_loop(before, after, input, limit, summary, c, outlets),
        !c.held,
    ensures
        ({
            let n = before.len() as int;
            let m = c.inner.crew().len();
            &&& after.len() == n + m + 4
            &&& forall|k: int| 0 <= k < n ==> #[trigger] after[k] == before[k]
            &&& exists|
                core: RelayCore<T, D, Product<T, TInner>, D, RetimeLogic<Entering>, AsIs, Outside>,
            | #[trigger]
                runs(after[n], core) && core.input.strand() == input && core.input.cursor() == 0
                    && core.outlets == c.borders.entered && core.state.outbox@.len() == 0
            &&& exists|
                core: RelayCore<
                    Product<T, TInner>,
                    D,
                    Product<T, TInner>,
                    D,
                    RetimeLogic<Returning<TInner::Summary>>,
                    Outside,
                    Outside,
                >,
            | #[trigger]
                runs(after[n + 1], core) && core.state.logic.change.summary == summary
                    && core.input.strand() == c.result.feedback.strand() && core.input.cursor()
                    == 0 && core.outlets == c.borders.returned && core.state.outbox@.len() == 0
            &&& exists|core: MergeCore<Product<T, TInner>, D, Outside>| #[trigger]
                runs(after[n + 2], core) && core.inputs@.len() == 2 && core.inputs@[0].strand()
                    == c.borders.entered.strand() && core.inputs@[1].strand()
                    == c.borders.returned.strand() && core.inputs@[0].cursor() == 0
                    && core.inputs@[1].cursor() == 0 && core.outlets == c.borders.round
            &&& forall|k: int|
                0 <= k < m ==> after[n + 3 + k] == BoxedOperator::of(
                    LoopOperator::<T, TInner> { op: #[trigger] c.inner.crew()[k], heard: Ghost(None) },
                )
            &&& exists|
                core: RelayCore<Product<T, TInner>, D, T, D, RetimeLogic<Leaving>, Outside, AsIs>,
            | #[trigger]
                runs(after[n + m + 3], core) && core.input.strand() == c.result.output.strand()
                    && core.input.cursor() == 0 && core.outlets == outlets
                    && core.state.outbox@.len() == 0
        }),
{
    let n = before.len() as int;
    let m = c.inner.crew().len();
    assert(c.crew.len() == n + 2);
    assert(after[n] == c.crew[n]);
    assert(after[n + 2] == c.crew[n + 1]);
    assert(after.last() == after[n + m + 3]);
    assert forall|k: int| 0 <= k < n implies #[trigger] after[k] == before[k] by {
        assert(c.crew[k] == before[k]);
    }
}

/// At the borders of a loop stand four operators, under names of their own: the way in, the way back,
/// the place where both meet, with two inputs, and the way out. The others stay as they are.
pub proof fn loops_have_borders(
    before: BuilderView,
    after: BuilderView,
    name: Seq<char>,
    source: Slot,
    line: Line,
    marks: LoopMarks,
    x: usize,
)
    requires
        opens_loop(before, after, name, source, line, marks),
        before.next + 4 <= usize::MAX,
    ensures
        ({
            let i = before.next as int;
            let ops = after.graph.operators;
            &&& after.next == i + 4
            &&& ops[i as usize].name@ == name + "::enter"@
            &&& ops[(i + 1) as usize].name@ == name + "::feedback"@
            &&& ops[(i + 2) as usize].name@ == name + "::concat"@
            &&& ops[(i + 3) as usize].name@ == name + "::leave"@
            &&& ops[i as usize].input_count == 1 && ops[i as usize].output_count == 1
            &&& ops[(i + 1) as usize].input_count == 1 && ops[(i + 1) as usize].output_count == 1
            &&& ops[(i + 2) as usize].input_count == 2 && ops[(i + 2) as usize].output_count == 1
            &&& ops[(i + 3) as usize].input_count == 1 && ops[(i + 3) as usize].output_count == 1
            &&& ops.contains_key(x) <==> before.graph.operators.contains_key(x) || i <= x < i + 4
            &&& x < i && before.graph.operators.contains_key(x) ==> ops[x]
                == before.graph.operators[x]
        }),
{
    let i = before.next as int;
    assert(after.graph.operators.dom().contains(x) <==> before.graph.operators.dom().contains(x)
        || x == i || x == i + 1 || x == i + 2 || x == i + 3);
}

} // verus!
