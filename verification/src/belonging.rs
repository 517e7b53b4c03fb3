//! Everything in a dataflow belongs to one of its stages.

use vstd::prelude::*;
use crate::builder::{BuilderView, NewOperator};
use crate::dataflow::{is_buildable, is_built, memberships, DataflowView};
use crate::graph::{edge_fault, edge_in_regions, region_in, EdgeInfo};
use crate::iterate::{in_port, opens_loop, plain_edge, with_loop_closed, LoopMarks};
use crate::retain::{
    all_take_part, keeps_edge, restricted, restricting_to_all_changes_nothing, takes_part,
};
use crate::role::Line;
use crate::shared::Mark;
use crate::stage::{StageId, StageInfo};
use crate::staging::{groups, is_stage, stages_are_the_connected_parts};
use crate::stream::Slot;
use crate::topology::{settles_unless_cyclic, settling_order};

verus! {

/// Factories, ports, probes, sources and edges that close loops name operators that are there.
pub open spec fn all_known(v: BuilderView) -> bool {
    let ops = v.graph.operators.dom();
    &&& forall|k: int| 0 <= k < v.operators.len() ==> ops.contains((#[trigger] v.operators[k]).0)
    &&& forall|k: int|
        0 <= k < v.input_ports.len() ==> ops.contains((#[trigger] v.input_ports[k]).1)
    &&& forall|k: int|
        0 <= k < v.output_ports.len() ==> ops.contains((#[trigger] v.output_ports[k]).1)
    &&& forall|k: int|
        0 <= k < v.async_sources.len() ==> ops.contains(#[trigger] v.async_sources[k])
    &&& forall|k: int| 0 <= k < v.probes.len() ==> ops.contains(#[trigger] v.probes[k])
    &&& forall|k: int|
        0 <= k < v.graph.feedback_edges.len() ==> joins_known(
            v,
            #[trigger] v.graph.feedback_edges[k],
        )
}

/// The edge joins operators that are there.
pub open spec fn joins_known(v: BuilderView, e: EdgeInfo) -> bool {
    &&& v.graph.operators.dom().contains(e.source.operator_index)
    &&& v.graph.operators.dom().contains(e.target.operator_index)
}

/// An operator that is added brings nothing with it that is not there.
pub proof fn adding_keeps_known(before: BuilderView, after: BuilderView, op: NewOperator)
    requires
        all_known(before),
        before.adds(after, op),
    ensures
        all_known(after),
        after.graph.operators.dom().contains(before.next),
{
    let n = before.operators.len() as int;
    assert forall|k: int| 0 <= k < after.operators.len() implies after.graph.operators.dom().contains(
        (#[trigger] after.operators[k]).0,
    ) by {
        if k < n {
            assert(after.operators[k] == before.operators[k]);
        }
    }
    assert forall|k: int| 0 <= k < after.graph.feedback_edges.len() implies joins_known(
        after,
        #[trigger] after.graph.feedback_edges[k],
    ) by {
        assert(joins_known(before, before.graph.feedback_edges[k]));
    }
}

/// Nor does a loop, if its inside does not.
pub proof fn loops_keep_known(
    before: BuilderView,
    opened: BuilderView,
    inner: BuilderView,
    name: Seq<char>,
    marks: LoopMarks,
    source: (Slot, Line),
    output: (Slot, Line),
    feedback: (Slot, Line),
    writes: Mark,
)
    requires
        before.sound(),
        before.next + 4 <= usize::MAX,
        all_known(before),
        opens_loop(before, opened, name, source.0, source.1, marks),
        all_known(inner),
        opened.merged(inner).graph.operators.dom().contains(feedback.0.operator_index),
    ensures
        all_known(
            with_loop_closed(
                opened.merged(inner),
                before.next as int,
                before.operators.len() + 1int,
                name,
                output,
                feedback,
                marks.returned,
                writes,
            ),
        ),
{
    let i = before.next as int;
    let o = before.operators.len() as int;
    let q = inner.operators.len() as int;
    let f = before.graph.feedback_edges.len() as int;
    let g = inner.graph.feedback_edges.len() as int;
    let after = with_loop_closed(
        opened.merged(inner),
        i,
        o + 1,
        name,
        output,
        feedback,
        marks.returned,
        writes,
    );
    let ops = after.graph.operators.dom();
    assert forall|x: usize| before.graph.operators.dom().contains(x) implies ops.contains(x) by {
        assert(opened.graph.operators.dom().contains(x));
    }
    assert forall|x: usize| inner.graph.operators.dom().contains(x) implies ops.contains(x) by {}
    assert forall|x: int| i <= x < i + 4 implies ops.contains(#[trigger] (x as usize)) by {
        assert(opened.graph.operators.dom().contains(x as usize));
    }
    assert forall|k: int| 0 <= k < after.operators.len() implies ops.contains(
        (#[trigger] after.operators[k]).0,
    ) by {
        if k < o {
            assert(after.operators[k] == before.operators[k]);
        } else if o + 3 <= k < o + 3 + q {
            assert(after.operators[k] == inner.operators[k - o - 3]);
        } else if k == o {
            assert(after.operators[k].0 == (i as usize));
        } else if k == o + 1 {
            assert(after.operators[k].0 == ((i + 1) as usize));
        } else if k == o + 2 {
            assert(after.operators[k].0 == ((i + 2) as usize));
        } else {
            assert(after.operators[k].0 == ((i + 3) as usize));
        }
    }
    assert forall|k: int| 0 <= k < after.graph.feedback_edges.len() implies joins_known(
        after,
        #[trigger] after.graph.feedback_edges[k],
    ) by {
        if k < f {
            assert(joins_known(before, before.graph.feedback_edges[k]));
        } else if k < f + g {
            assert(joins_known(inner, inner.graph.feedback_edges[k - f]));
        } else {
            assert(after.graph.feedback_edges[k] == plain_edge(feedback.0, in_port(i + 1, 0)));
            assert(ops.contains((i + 1) as usize));
        }
    }
}

/// An operator of a stage is put into one of the stages.
proof fn lemma_region_of(stages: Seq<StageInfo>, ids: Seq<StageId>, op: usize)
    requires
        takes_part(stages, ids, op),
        forall|s: int| 0 <= s < stages.len() ==> ids.contains((#[trigger] stages[s]).id),
    ensures
        region_in(memberships(stages), op) is Some,
        ids.contains(region_in(memberships(stages), op)->0),
    decreases stages.len(),
{
    let rest = stages.drop_last();
    let last = stages.last();
    let own = last.operator_indices@.map_values(|i: usize| (i, last.id));
    let before = memberships(rest);
    assert(stages[stages.len() - 1] == last);
    if last.operator_indices@.contains(op) {
        let k = choose|k: int|
            0 <= k < last.operator_indices@.len() && last.operator_indices@[k] == op;
        assert(own[k].0 == op);
        lemma_region_here(before, own, op, last.id);
    } else {
        assert(takes_part(rest, ids, op)) by {
            let s = choose|s: int|
                0 <= s < stages.len() && ids.contains((#[trigger] stages[s]).id)
                    && stages[s].operator_indices@.contains(op);
            assert(rest[s] == stages[s]);
        }
        assert forall|s: int| 0 <= s < rest.len() implies ids.contains(
            (#[trigger] rest[s]).id,
        ) by {
            assert(rest[s] == stages[s]);
        }
        lemma_region_of(rest, ids, op);
        lemma_region_not_here(before, own, op);
    }
}

proof fn lemma_region_here(
    before: Seq<(usize, StageId)>,
    own: Seq<(usize, StageId)>,
    op: usize,
    id: StageId,
)
    requires
        exists|k: int| 0 <= k < own.len() && (#[trigger] own[k]).0 == op,
        forall|k: int| 0 <= k < own.len() ==> (#[trigger] own[k]).1 == id,
    ensures
        region_in(before + own, op) == Some(id),
    decreases own.len(),
{
    let all = before + own;
    assert(all.last() == own.last());
    if own.last().0 != op {
        let k = choose|k: int| 0 <= k < own.len() && (#[trigger] own[k]).0 == op;
        assert(own.drop_last()[k].0 == op);
        assert(all.drop_last() =~= before + own.drop_last());
        lemma_region_here(before, own.drop_last(), op, id);
    }
}

proof fn lemma_region_not_here(
    before: Seq<(usize, StageId)>,
    own: Seq<(usize, StageId)>,
    op: usize,
)
    requires
        forall|k: int| 0 <= k < own.len() ==> (#[trigger] own[k]).0 != op,
    ensures
        region_in(before + own, op) == region_in(before, op),
    decreases own.len(),
{
    let all = before + own;
    if own.len() == 0 {
        assert(all =~= before);
    } else {
        assert(all.last() == own.last());
        assert(all.drop_last() =~= before + own.drop_last());
        lemma_region_not_here(before, own.drop_last(), op);
    }
}

/// Everything in a dataflow that was built belongs to one of its stages.
pub proof fn all_of_it_belongs(v: BuilderView, d: DataflowView, ids: Seq<StageId>)
    requires
        all_known(v),
        is_buildable(v),
        is_built(v, d),
        forall|s: int| 0 <= s < d.stages.len() ==> ids.contains((#[trigger] d.stages[s]).id),
    ensures
        all_take_part(d, ids),
{
    let ops = v.graph.operators.dom();
    let edges = v.graph.edges;
    let order = settling_order(ops, edges);
    assert forall|k: int| 0 <= k < edges.len() implies ops.contains(
        (#[trigger] edges[k]).source.operator_index,
    ) && ops.contains(edges[k].target.operator_index) by {
        assert(edge_fault(v.graph, k) is None);
    }
    settles_unless_cyclic(ops, edges, order);
    assert forall|x: usize| #[trigger] ops.contains(x) implies takes_part(d.stages, ids, x) by {
        assert(order.contains(x));
        stages_are_the_connected_parts(order, edges, x, x);
        let gs = groups(order, edges, order.len());
        let g = choose|g: int| 0 <= g < gs.len() && (#[trigger] gs[g]).contains(x);
        assert(is_stage(d.stages[g], g, gs[g], edges));
        assert(ids.contains(d.stages[g].id));
    }
    assert(d.graph.operators.dom() =~= ops);
    assert forall|k: int| 0 <= k < d.graph.edges.len() implies keeps_edge(
        d.stages,
        ids,
        #[trigger] d.graph.edges[k],
    ) by {
        let e = edges[k];
        assert(d.graph.edges[k] == edge_in_regions(memberships(d.stages), e));
        assert(ops.contains(e.source.operator_index) && ops.contains(e.target.operator_index));
        lemma_region_of(d.stages, ids, e.source.operator_index);
    }
    assert forall|k: int| 0 <= k < d.graph.feedback_edges.len() implies crate::retain::joins_parts(
        d.stages,
        ids,
        #[trigger] d.graph.feedback_edges[k],
    ) by {
        assert(joins_known(v, v.graph.feedback_edges[k]));
    }
}

/// Restricting a dataflow that was built to all its stages changes nothing.
pub proof fn keeping_all_stages_changes_nothing(
    v: BuilderView,
    d: DataflowView,
    ids: Seq<StageId>,
)
    requires
        all_known(v),
        is_buildable(v),
        is_built(v, d),
        d.sound(),
        forall|s: int| 0 <= s < d.stages.len() ==> ids.contains((#[trigger] d.stages[s]).id),
    ensures
        restricted(d, ids) == d,
{
    all_of_it_belongs(v, d, ids);
    restricting_to_all_changes_nothing(d, ids);
}

} // verus!
