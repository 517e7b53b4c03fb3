//! What is put together from pipes can be built.

use vstd::prelude::*;
use crate::builder::{new_edge, BuilderView, NewOperator};
use crate::graph::{
    edge_fault, is_repeated, is_well_wired, same_ports, EdgeInfo, GraphView, OperatorInfo,
};
use crate::iterate::{
    in_port, opens_loop, out_port, plain_edge, with_loop_closed, LoopMarks,
};
use crate::role::Line;
use crate::shared::Mark;
use crate::stream::Slot;
use crate::topology::{closed_walk, follows, has_cycle};

verus! {

/// The operator of the port is there and has such an output.
pub open spec fn has_output(ops: Map<usize, OperatorInfo>, port: Slot) -> bool {
    ops.dom().contains(port.operator_index) && port.slot_index
        < ops[port.operator_index].output_count
}

/// The operator of the port is there and has such an input.
pub open spec fn has_input(ops: Map<usize, OperatorInfo>, port: Slot) -> bool {
    ops.dom().contains(port.operator_index) && port.slot_index
        < ops[port.operator_index].input_count
}

/// The edge leads from an output to an input, and to a higher rank. Outputs may also be outside.
pub open spec fn links(
    g: GraphView,
    outside: Map<usize, OperatorInfo>,
    rank: spec_fn(usize) -> int,
    e: EdgeInfo,
) -> bool {
    &&& has_output(outside.union_prefer_right(g.operators), e.source)
    &&& has_input(g.operators, e.target)
    &&& rank(e.source.operator_index) < rank(e.target.operator_index)
}

/// All edges lead from outputs to inputs, no two to the same one, and to higher ranks.
pub open spec fn linked(
    g: GraphView,
    outside: Map<usize, OperatorInfo>,
    rank: spec_fn(usize) -> int,
) -> bool {
    &&& forall|k: int| 0 <= k < g.edges.len() ==> links(g, outside, rank, #[trigger] g.edges[k])
    &&& forall|j: int, k: int|
        0 <= j < k < g.edges.len() ==> (#[trigger] g.edges[j]).target != (
        #[trigger] g.edges[k]).target
}

/// More than the ranks of the operators that are read from.
pub open spec fn rank_above(rank: spec_fn(usize) -> int, inputs: Seq<(Slot, Line)>) -> int
    decreases inputs.len(),
{
    if inputs.len() == 0 {
        0
    } else {
        let before = rank_above(rank, inputs.drop_last());
        let here = rank(inputs.last().0.operator_index) + 1;
        if before >= here {
            before
        } else {
            here
        }
    }
}

/// The ranks with another one for the operator `i`.
pub open spec fn with_rank(rank: spec_fn(usize) -> int, i: usize, r: int) -> spec_fn(usize) -> int {
    |x: usize|
        if x == i {
            r
        } else {
            rank(x)
        }
}

proof fn lemma_rank_above(rank: spec_fn(usize) -> int, inputs: Seq<(Slot, Line)>, k: int)
    requires
        0 <= k < inputs.len(),
    ensures
        rank(inputs[k].0.operator_index) < rank_above(rank, inputs),
    decreases inputs.len(),
{
    if k < inputs.len() - 1 {
        lemma_rank_above(rank, inputs.drop_last(), k);
    }
}

/// An operator that reads outputs that are there keeps a dataflow linked.
pub proof fn adding_keeps_linked(
    before: BuilderView,
    after: BuilderView,
    op: NewOperator,
    outside: Map<usize, OperatorInfo>,
    rank: spec_fn(usize) -> int,
)
    requires
        before.sound(),
        linked(before.graph, outside, rank),
        before.adds(after, op),
        op.inputs.len() <= usize::MAX,
        forall|x: usize| #[trigger] outside.dom().contains(x) ==> x < before.next,
        forall|k: int|
            0 <= k < op.inputs.len() ==> has_output(
                outside.union_prefer_right(before.graph.operators),
                (#[trigger] op.inputs[k]).0,
            ),
    ensures
        linked(after.graph, outside, with_rank(rank, before.next, rank_above(rank, op.inputs))),
{
    let i = before.next;
    let r = with_rank(rank, i, rank_above(rank, op.inputs));
    let n = before.graph.edges.len();
    let ops0 = outside.union_prefer_right(before.graph.operators);
    let ops1 = outside.union_prefer_right(after.graph.operators);
    assert forall|p: Slot| #[trigger] has_output(ops0, p) implies has_output(ops1, p)
        && p.operator_index != i by {
        let x = p.operator_index;
        if before.graph.operators.dom().contains(x) {
            assert(after.graph.operators[x] == before.graph.operators[x]);
        } else {
            assert(outside.dom().contains(x));
        }
    }
    assert forall|p: Slot| #[trigger] has_input(before.graph.operators, p) implies has_input(
        after.graph.operators,
        p,
    ) && p.operator_index != i by {
        assert(before.graph.operators.dom().contains(p.operator_index));
    }
    assert forall|k: int| 0 <= k < after.graph.edges.len() implies links(
        after.graph,
        outside,
        r,
        #[trigger] after.graph.edges[k],
    ) by {
        if k < n {
            let e = before.graph.edges[k];
            assert(after.graph.edges[k] == e);
            assert(links(before.graph, outside, rank, e));
        } else {
            let e = new_edge(op, i, k - n);
            assert(after.graph.edges[k] == e);
            assert(e.source == op.inputs[k - n].0);
            lemma_rank_above(rank, op.inputs, k - n);
            assert(after.graph.operators.dom().contains(i));
        }
    }
    assert forall|j: int, k: int| 0 <= j < k < after.graph.edges.len() implies (
    #[trigger] after.graph.edges[j]).target != (#[trigger] after.graph.edges[k]).target by {
        if k < n {
            assert(after.graph.edges[j] == before.graph.edges[j]);
            assert(after.graph.edges[k] == before.graph.edges[k]);
        } else {
            assert(after.graph.edges[k] == new_edge(op, i, k - n));
            if j < n {
                assert(after.graph.edges[j] == before.graph.edges[j]);
                assert(links(before.graph, outside, rank, before.graph.edges[j]));
            } else {
                assert(after.graph.edges[j] == new_edge(op, i, j - n));
            }
        }
    }
}

/// Ranks rise along a walk.
proof fn lemma_walk_rises(g: GraphView, rank: spec_fn(usize) -> int, walk: Seq<int>, n: int)
    requires
        linked(g, Map::empty(), rank),
        closed_walk(g.edges, walk),
        0 <= n < walk.len(),
    ensures
        rank(g.edges[walk[0]].source.operator_index) < rank(
            g.edges[walk[n]].target.operator_index,
        ),
    decreases n,
{
    let e = g.edges[walk[n]];
    assert(links(g, Map::empty(), rank, e));
    if n > 0 {
        lemma_walk_rises(g, rank, walk, n - 1);
        assert(follows(g.edges, walk, n - 1));
    }
}

/// What is linked can be built: all edges join ports that are there, none twice, and there is no
/// cycle.
pub proof fn linked_is_well_wired(g: GraphView, rank: spec_fn(usize) -> int)
    requires
        linked(g, Map::empty(), rank),
    ensures
        is_well_wired(g),
        !has_cycle(g.edges),
{
    let none = Map::<usize, OperatorInfo>::empty();
    assert(none.union_prefer_right(g.operators) =~= g.operators);
    assert forall|i: int| 0 <= i < g.edges.len() implies #[trigger] edge_fault(g, i) is None by {
        assert(links(g, none, rank, g.edges[i]));
    }
    assert forall|i: int| 0 <= i < g.edges.len() implies !#[trigger] is_repeated(g.edges, i) by {
        if is_repeated(g.edges, i) {
            let k = choose|k: int| 0 <= k < i && same_ports(#[trigger] g.edges[k], g.edges[i]);
            assert(g.edges[k].target != g.edges[i].target);
        }
    }
    if has_cycle(g.edges) {
        let walk = choose|walk: Seq<int>| closed_walk(g.edges, walk);
        lemma_walk_rises(g, rank, walk, walk.len() - 1);
    }
}

/// The place where the records that enter a loop meet those that go round, seen from inside.
pub open spec fn meeting_place(opened: BuilderView, i: int) -> Map<usize, OperatorInfo> {
    Map::empty().insert((i + 2) as usize, opened.graph.operators[(i + 2) as usize])
}

/// The ranks after a loop was added: the way in comes behind the source, what meets comes behind the
/// way in, the inside comes behind that, and the way out behind all that it reads.
pub open spec fn loop_rank(
    rank: spec_fn(usize) -> int,
    inner_rank: spec_fn(usize) -> int,
    i: int,
    source: usize,
    output: usize,
) -> spec_fn(usize) -> int {
    let start = rank(source);
    let shift = start + 2 - inner_rank((i + 2) as usize);
    |x: usize|
        if x < i {
            rank(x)
        } else if x == i {
            start + 1
        } else if x == i + 1 {
            start + 1
        } else if x == i + 2 {
            start + 2
        } else if x == i + 3 {
            inner_rank(output) + shift + 1
        } else {
            inner_rank(x) + shift
        }
}

/// A loop whose inside is linked keeps a dataflow linked.
pub proof fn loops_keep_linked(
    before: BuilderView,
    opened: BuilderView,
    inner: BuilderView,
    name: Seq<char>,
    marks: LoopMarks,
    source: (Slot, Line),
    output: (Slot, Line),
    feedback: (Slot, Line),
    writes: Mark,
    outside: Map<usize, OperatorInfo>,
    rank: spec_fn(usize) -> int,
    inner_rank: spec_fn(usize) -> int,
)
    requires
        before.sound(),
        before.next + 4 <= usize::MAX,
        linked(before.graph, outside, rank),
        forall|x: usize| #[trigger] outside.dom().contains(x) ==> x < before.next,
        has_output(outside.union_prefer_right(before.graph.operators), source.0),
        opens_loop(before, opened, name, source.0, source.1, marks),
        inner.sound(),
        inner.first == before.next + 4,
        linked(inner.graph, meeting_place(opened, before.next as int), inner_rank),
        has_output(
            meeting_place(opened, before.next as int).union_prefer_right(inner.graph.operators),
            output.0,
        ),
    ensures
        linked(
            with_loop_closed(
                opened.merged(inner),
                before.next as int,
                before.operators.len() + 1int,
                name,
                output,
                feedback,
                marks.returned,
                writes,
            ).graph,
            outside,
            loop_rank(
                rank,
                inner_rank,
                before.next as int,
                source.0.operator_index,
                output.0.operator_index,
            ),
        ),
{
    let i = before.next as int;
    let place = meeting_place(opened, i);
    let after = with_loop_closed(
        opened.merged(inner),
        i,
        before.operators.len() + 1int,
        name,
        output,
        feedback,
        marks.returned,
        writes,
    );
    let g = after.graph;
    let r = loop_rank(rank, inner_rank, i, source.0.operator_index, output.0.operator_index);
    let n = before.graph.edges.len() as int;
    let m = inner.graph.edges.len() as int;
    let ops0 = outside.union_prefer_right(before.graph.operators);
    let ops = outside.union_prefer_right(g.operators);
    assert forall|p: Slot| #[trigger] has_output(ops0, p) implies has_output(ops, p)
        && p.operator_index < i by {
        let x = p.operator_index;
        if before.graph.operators.dom().contains(x) {
            assert(opened.graph.operators[x] == before.graph.operators[x]);
            assert(!inner.graph.operators.dom().contains(x));
            assert(g.operators[x] == before.graph.operators[x]);
        } else {
            assert(outside.dom().contains(x));
            assert(!opened.graph.operators.dom().contains(x));
            assert(!inner.graph.operators.dom().contains(x));
        }
    }
    assert forall|p: Slot| #[trigger] has_input(before.graph.operators, p) implies has_input(
        g.operators,
        p,
    ) && p.operator_index < i by {
        let x = p.operator_index;
        assert(before.graph.operators.dom().contains(x));
        assert(!inner.graph.operators.dom().contains(x));
        assert(g.operators[x] == before.graph.operators[x]);
    }
    assert forall|p: Slot| #[trigger]
        has_output(place.union_prefer_right(inner.graph.operators), p) implies has_output(ops, p)
        && (p.operator_index == i + 2 || p.operator_index >= i + 4) by {
        let x = p.operator_index;
        if inner.graph.operators.dom().contains(x) {
        } else {
            assert(x == i + 2);
            assert(opened.graph.operators.dom().contains(x));
        }
    }
    assert forall|p: Slot| #[trigger] has_input(inner.graph.operators, p) implies has_input(
        g.operators,
        p,
    ) && p.operator_index >= i + 4 by {
        assert(inner.graph.operators.dom().contains(p.operator_index));
    }
    assert forall|x: int| i <= x < i + 4 implies g.operators.dom().contains(x as usize)
        && #[trigger] g.operators[x as usize] == opened.graph.operators[x as usize] by {
        assert(!inner.graph.operators.dom().contains(x as usize));
    }
    let e0 = plain_edge(source.0, in_port(i, 0));
    let e1 = plain_edge(out_port(i), in_port(i + 2, 0));
    let e2 = plain_edge(out_port(i + 1), in_port(i + 2, 1));
    let e3 = plain_edge(output.0, in_port(i + 3, 0));
    assert(g.edges[n] == e0);
    assert(g.edges[n + 1] == e1);
    assert(g.edges[n + 2] == e2);
    assert(g.edges[n + 3 + m] == e3);
    assert(g.edges.len() == n + 3 + m + 1);
    assert(g.operators[i as usize] == opened.graph.operators[i as usize]);
    assert(g.operators[(i + 1) as usize] == opened.graph.operators[(i + 1) as usize]);
    assert(g.operators[(i + 2) as usize] == opened.graph.operators[(i + 2) as usize]);
    assert(g.operators[(i + 3) as usize] == opened.graph.operators[(i + 3) as usize]);
    assert(links(g, outside, r, e0));
    assert(links(g, outside, r, e1));
    assert(links(g, outside, r, e2));
    assert(links(g, outside, r, e3));
    assert forall|k: int| 0 <= k < n implies links(g, outside, r, #[trigger] g.edges[k])
        && g.edges[k].target.operator_index < i by {
        let e = before.graph.edges[k];
        assert(g.edges[k] == e);
        assert(links(before.graph, outside, rank, e));
        assert(has_output(ops0, e.source));
        assert(has_input(before.graph.operators, e.target));
    }
    assert forall|k: int| n + 3 <= k < n + 3 + m implies links(
        g,
        outside,
        r,
        #[trigger] g.edges[k],
    ) && g.edges[k].target.operator_index >= i + 4 && g.edges[k] == inner.graph.edges[k - n
        - 3] by {
        let e = inner.graph.edges[k - n - 3];
        assert(g.edges[k] == e);
        assert(links(inner.graph, place, inner_rank, e));
        assert(has_output(place.union_prefer_right(inner.graph.operators), e.source));
        assert(has_input(inner.graph.operators, e.target));
    }
    assert forall|k: int| 0 <= k < g.edges.len() implies links(
        g,
        outside,
        r,
        #[trigger] g.edges[k],
    ) by {
        if k == n || k == n + 1 || k == n + 2 || k == n + 3 + m {
        } else if k < n {
        } else {
            assert(n + 3 <= k < n + 3 + m);
        }
    }
    assert forall|j: int, k: int| 0 <= j < k < g.edges.len() implies (
    #[trigger] g.edges[j]).target != (#[trigger] g.edges[k]).target by {
        if k < n {
            assert(g.edges[j] == before.graph.edges[j]);
            assert(g.edges[k] == before.graph.edges[k]);
        } else if j >= n + 3 && k < n + 3 + m {
            assert(g.edges[j] == inner.graph.edges[j - n - 3]);
            assert(g.edges[k] == inner.graph.edges[k - n - 3]);
        }
    }
}

} // verus!
