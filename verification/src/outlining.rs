//! What graphs, stages and restricted dataflows consist of.

use vstd::prelude::*;
use crate::builder::{BoxedPlan, BuilderView};
use crate::dataflow::{is_built, memberships, DataflowView};
use crate::error::Error;
use crate::graph::{
    edge_fault, is_repeated, is_valid, is_well_wired, region_in, same_ports, EdgeInfo, GraphView,
};
use crate::handles::without_empty;
use crate::operators::branch::{routed, routed_failures, routed_successes, select};
use crate::operators::concat::merged;
use crate::operators::exchange::{is_redistributed, stream_width};
use crate::retain::{
    joins_parts, keeps_edge, kept_edges, kept_exchanges, kept_feedback, restricted, takes_part,
    wanted_before,
};
use crate::scope::{stage_width, ScopeView};
use crate::stage::{StageId, StageInfo};
use crate::staging::{
    connected, groups, in_one_stage, is_stage, pipeline_edges_connect, stages_are_the_connected_parts,
    stages_keep_the_order, width_of,
};
use crate::stream::{Slot, StreamView};
use crate::topology::{has_cycle, settles, settles_unless_cyclic, settling_order};
use crate::wired::choosing::{
    chosen, failures_are_the_err_values, flattened_is_joined, lemma_chosen_same,
    selecting_is_choosing, successes_are_the_ok_values,
};
use crate::wired::logic::flattened;

verus! {

/// An edge leads from an output that is there to an input that is there.
pub open spec fn joins_ports(g: GraphView, e: EdgeInfo) -> bool {
    &&& g.operators.contains_key(e.source.operator_index)
    &&& g.operators.contains_key(e.target.operator_index)
    &&& e.source.slot_index < g.operators[e.source.operator_index].output_count
    &&& e.target.slot_index < g.operators[e.target.operator_index].input_count
}

/// A graph is well wired just if all its edges join ports that are there, and no two the same ones.
pub proof fn well_wired_graphs_join_ports(g: GraphView)
    ensures
        is_well_wired(g) <==> (forall|i: int|
            0 <= i < g.edges.len() ==> joins_ports(g, #[trigger] g.edges[i])) && (forall|
            i: int,
            j: int,
        |
            0 <= i < j < g.edges.len() ==> (#[trigger] g.edges[i]).source != (
            #[trigger] g.edges[j]).source || g.edges[i].target != g.edges[j].target),
{
    if is_well_wired(g) {
        assert forall|i: int| 0 <= i < g.edges.len() implies joins_ports(
            g,
            #[trigger] g.edges[i],
        ) by {
            assert(edge_fault(g, i) is None);
        }
        assert forall|i: int, j: int| 0 <= i < j < g.edges.len() implies (
        #[trigger] g.edges[i]).source != (#[trigger] g.edges[j]).source || g.edges[i].target
            != g.edges[j].target by {
            assert(!is_repeated(g.edges, j));
            assert(!same_ports(g.edges[i], g.edges[j]));
        }
    } else {
        if forall|i: int| 0 <= i < g.edges.len() ==> #[trigger] edge_fault(g, i) is None {
            let j = choose|j: int| 0 <= j < g.edges.len() && #[trigger] is_repeated(g.edges, j);
            let i = choose|i: int| 0 <= i < j && same_ports(#[trigger] g.edges[i], g.edges[j]);
            assert(g.edges[i].source == g.edges[j].source);
        } else {
            let i = choose|i: int|
                0 <= i < g.edges.len() && !(#[trigger] edge_fault(g, i) is None);
            assert(!joins_ports(g, g.edges[i]));
        }
    }
}

/// A fault of an edge names what is wrong with it.
pub proof fn faults_name_what_is_wrong(g: GraphView, i: int)
    requires
        0 <= i < g.edges.len() <= usize::MAX,
    ensures
        edge_fault(g, i) matches Some(Error::SourceNotRegistered { edge, operator_index }) ==> edge
            == i && operator_index == g.edges[i].source.operator_index
            && !g.operators.contains_key(operator_index),
        edge_fault(g, i) matches Some(Error::TargetNotRegistered { edge, operator_index }) ==> edge
            == i && operator_index == g.edges[i].target.operator_index
            && !g.operators.contains_key(operator_index),
        edge_fault(g, i) matches Some(Error::SourcePortOutOfRange { edge, port, operator, count })
            ==> edge == i && port == g.edges[i].source.slot_index && port >= count && operator
            == g.operators[g.edges[i].source.operator_index].name && count
            == g.operators[g.edges[i].source.operator_index].output_count,
        edge_fault(g, i) matches Some(Error::TargetPortOutOfRange { edge, port, operator, count })
            ==> edge == i && port == g.edges[i].target.slot_index && port >= count && operator
            == g.operators[g.edges[i].target.operator_index].name && count
            == g.operators[g.edges[i].target.operator_index].input_count,
{
}

/// A graph whose operators settle can be run just if it is well wired and has no cycle.
pub proof fn valid_graphs_have_no_cycle(g: GraphView)
    requires
        g.operators.dom().finite(),
        settles(
            g.operators.dom(),
            g.edges,
            settling_order(g.operators.dom(), g.edges),
        ),
    ensures
        is_valid(g) <==> is_well_wired(g) && !has_cycle(g.edges),
{
    if is_well_wired(g) {
        assert forall|i: int| 0 <= i < g.edges.len() implies g.operators.dom().contains(
            (#[trigger] g.edges[i]).source.operator_index,
        ) && g.operators.dom().contains(g.edges[i].target.operator_index) by {
            assert(edge_fault(g, i) is None);
        }
        settles_unless_cyclic(
            g.operators.dom(),
            g.edges,
            settling_order(g.operators.dom(), g.edges),
        );
    }
}

/// The ends of a pipeline edge between two of the operators are in one stage.
pub proof fn pipelines_stay_in_a_stage(ops: Seq<usize>, edges: Seq<EdgeInfo>, i: int)
    requires
        0 <= i < edges.len(),
        edges[i].kind is Pipeline,
        ops.contains(edges[i].source.operator_index),
        ops.contains(edges[i].target.operator_index),
    ensures
        in_one_stage(
            ops,
            edges,
            edges[i].source.operator_index,
            edges[i].target.operator_index,
        ),
{
    pipeline_edges_connect(ops, edges, edges.len(), i);
}

/// Nothing but pipeline edges keeps operators in one stage: whatever is the same at both ends of each
/// pipeline edge is the same in the whole stage.
pub proof fn only_pipelines_join_stages<X>(
    ops: Seq<usize>,
    edges: Seq<EdgeInfo>,
    k: nat,
    label: spec_fn(usize) -> X,
    a: usize,
    b: usize,
)
    requires
        k <= edges.len(),
        forall|i: int|
            0 <= i < edges.len() && (#[trigger] edges[i]).kind is Pipeline && ops.contains(
                edges[i].source.operator_index,
            ) && ops.contains(edges[i].target.operator_index) ==> label(
                edges[i].source.operator_index,
            ) == label(edges[i].target.operator_index),
        connected(ops, edges, k, a, b),
    ensures
        label(a) == label(b),
    decreases k,
{
    if k > 0 {
        let j = (k - 1) as nat;
        let e = edges[k - 1];
        let s = e.source.operator_index;
        let t = e.target.operator_index;
        if connected(ops, edges, j, a, b) {
            only_pipelines_join_stages(ops, edges, j, label, a, b);
        } else {
            if connected(ops, edges, j, a, s) {
                only_pipelines_join_stages(ops, edges, j, label, a, s);
            } else {
                only_pipelines_join_stages(ops, edges, j, label, a, t);
            }
            if connected(ops, edges, j, b, s) {
                only_pipelines_join_stages(ops, edges, j, label, b, s);
            } else {
                only_pipelines_join_stages(ops, edges, j, label, b, t);
            }
        }
    }
}

/// An exchange edge into the members fixes a degree of parallelism.
pub open spec fn fixes_width(e: EdgeInfo, members: Seq<usize>) -> bool {
    e.kind is Exchange && members.contains(e.target.operator_index) && e.target_parallelism is Some
}

/// A stage is as wide as the first exchange edge into it says that says anything, and of no fixed
/// width if none does.
pub proof fn exchanges_fix_the_width(edges: Seq<EdgeInfo>, members: Seq<usize>, i: int)
    requires
        0 <= i < edges.len(),
        fixes_width(edges[i], members),
        forall|j: int| 0 <= j < i ==> !fixes_width(#[trigger] edges[j], members),
    ensures
        width_of(edges, members) == edges[i].target_parallelism,
    decreases edges.len(),
{
    if i > 0 {
        let rest = edges.drop_first();
        assert(!fixes_width(edges[0], members));
        assert forall|j: int| 0 <= j < i - 1 implies !fixes_width(#[trigger] rest[j], members) by {
            assert(rest[j] == edges[j + 1]);
        }
        exchanges_fix_the_width(rest, members, i - 1);
    }
}

/// Where no exchange edge into a stage says how wide it is, it has no fixed width.
pub proof fn other_stages_have_no_width(edges: Seq<EdgeInfo>, members: Seq<usize>)
    requires
        forall|j: int| 0 <= j < edges.len() ==> !fixes_width(#[trigger] edges[j], members),
    ensures
        width_of(edges, members) is None,
    decreases edges.len(),
{
    if edges.len() > 0 {
        let rest = edges.drop_first();
        assert(!fixes_width(edges[0], members));
        assert forall|j: int| 0 <= j < rest.len() implies !fixes_width(
            #[trigger] rest[j],
            members,
        ) by {
            assert(rest[j] == edges[j + 1]);
        }
        other_stages_have_no_width(rest, members);
    }
}

/// An operator stays: one of its stages does.
pub open spec fn stays(d: DataflowView, ids: Seq<StageId>, op: usize) -> bool {
    exists|s: int|
        0 <= s < d.stages.len() && ids.contains((#[trigger] d.stages[s]).id)
            && d.stages[s].operator_indices@.contains(op)
}

/// An edge stays: an exchange edge if a stage at one of its ends does, another one if both its
/// operators do.
pub open spec fn edge_stays(d: DataflowView, ids: Seq<StageId>, e: EdgeInfo) -> bool {
    if e.kind is Exchange {
        ids.contains(e.source_region) || ids.contains(e.target_region)
    } else {
        stays(d, ids, e.source.operator_index) && stays(d, ids, e.target.operator_index)
    }
}

proof fn lemma_select_by<X>(data: Seq<X>, flags: Seq<bool>, p: spec_fn(X) -> bool)
    requires
        flags.len() == data.len(),
        forall|i: int| 0 <= i < data.len() ==> #[trigger] flags[i] == p(data[i]),
    ensures
        select(data, flags, true) == data.filter(p),
    decreases data.len(),
{
    reveal(Seq::filter);
    if data.len() > 0 {
        let less = data.drop_last();
        let fewer = flags.drop_last();
        assert forall|i: int| 0 <= i < less.len() implies #[trigger] fewer[i] == p(less[i]) by {
            assert(flags[i] == p(data[i]));
        }
        lemma_select_by(less, fewer, p);
        lemma_select_fewer(less, fewer, flags);
        assert(flags[data.len() - 1] == p(data[data.len() - 1]));
    }
}

proof fn lemma_select_fewer<X>(data: Seq<X>, a: Seq<bool>, b: Seq<bool>)
    requires
        data.len() <= a.len(),
        data.len() <= b.len(),
        forall|i: int| 0 <= i < data.len() ==> a[i] == b[i],
    ensures
        select(data, a, true) == select(data, b, true),
    decreases data.len(),
{
    if data.len() > 0 {
        lemma_select_fewer(data.drop_last(), a, b);
    }
}

/// A dataflow that is restricted to some stages consists of what belongs to them, in its order: the
/// operators and their factories, the ports, the probes and the sources of these stages; the edges
/// inside them, and the exchange edges that lead to them or away from them.
pub proof fn restricted_dataflows_keep_what_belongs(d: DataflowView, ids: Seq<StageId>, i: usize)
    ensures
        ({
            let r = restricted(d, ids);
            &&& r.graph.operators.dom().contains(i) <==> d.graph.operators.dom().contains(i)
                && stays(d, ids, i)
            &&& r.graph.operators.dom().contains(i) ==> r.graph.operators[i]
                == d.graph.operators[i]
            &&& r.graph.edges == d.graph.edges.filter(|e: EdgeInfo| edge_stays(d, ids, e))
            &&& r.graph.feedback_edges == d.graph.feedback_edges.filter(
                |e: EdgeInfo|
                    stays(d, ids, e.source.operator_index) && stays(
                        d,
                        ids,
                        e.target.operator_index,
                    ),
            )
            &&& r.stages == d.stages.filter(|s: StageInfo| ids.contains(s.id))
            &&& r.input_ports == d.input_ports.filter(
                |p: (Seq<char>, usize)| stays(d, ids, p.1),
            )
            &&& r.output_ports == d.output_ports.filter(
                |p: (Seq<char>, usize)| stays(d, ids, p.1),
            )
            &&& r.async_sources == d.async_sources.filter(|x: usize| stays(d, ids, x))
            &&& r.probes == d.probes.filter(|x: usize| stays(d, ids, x))
            &&& r.subgraph == d.subgraph
            &&& r.channels.len() == select(
                d.channels,
                kept_edges(d, ids) + kept_feedback(d, ids),
                true,
            ).len()
        }),
{
    let r = restricted(d, ids);
    assert forall|x: usize| #[trigger] takes_part(d.stages, ids, x) == stays(d, ids, x) by {}
    let keep = kept_edges(d, ids);
    let stay = |e: EdgeInfo| edge_stays(d, ids, e);
    assert forall|k: int| 0 <= k < d.graph.edges.len() implies #[trigger] keep[k] == stay(
        d.graph.edges[k],
    ) by {
        assert(keep[k] == keeps_edge(d.stages, ids, d.graph.edges[k]));
    }
    lemma_select_by(d.graph.edges, keep, stay);
    let back = kept_feedback(d, ids);
    let both = |e: EdgeInfo|
        stays(d, ids, e.source.operator_index) && stays(d, ids, e.target.operator_index);
    assert forall|k: int| 0 <= k < d.graph.feedback_edges.len() implies #[trigger] back[k] == both(
        d.graph.feedback_edges[k],
    ) by {
        assert(back[k] == joins_parts(d.stages, ids, d.graph.feedback_edges[k]));
    }
    lemma_select_by(d.graph.feedback_edges, back, both);
    lemma_filters_agree(
        d.input_ports,
        |p: (Seq<char>, usize)| takes_part(d.stages, ids, p.1),
        |p: (Seq<char>, usize)| stays(d, ids, p.1),
    );
    lemma_filters_agree(
        d.output_ports,
        |p: (Seq<char>, usize)| takes_part(d.stages, ids, p.1),
        |p: (Seq<char>, usize)| stays(d, ids, p.1),
    );
    lemma_filters_agree(
        d.async_sources,
        |x: usize| takes_part(d.stages, ids, x),
        |x: usize| stays(d, ids, x),
    );
    lemma_filters_agree(
        d.probes,
        |x: usize| takes_part(d.stages, ids, x),
        |x: usize| stays(d, ids, x),
    );
}

proof fn lemma_filters_agree<X>(s: Seq<X>, p: spec_fn(X) -> bool, q: spec_fn(X) -> bool)
    requires
        forall|x: X| #[trigger] p(x) == q(x),
    ensures
        s.filter(p) == s.filter(q),
    decreases s.len(),
{
    reveal(Seq::filter);
    if s.len() > 0 {
        lemma_filters_agree(s.drop_last(), p, q);
        assert(p(s.last()) == q(s.last()));
    }
}

/// The number of an edge after edges were left out is how many of those before it stay.
pub proof fn edges_are_numbered_anew(keep: Seq<bool>, n: int)
    requires
        0 <= n <= keep.len(),
    ensures
        wanted_before(keep, n) == keep.take(n).filter(|b: bool| b).len(),
    decreases n,
{
    reveal(Seq::filter);
    if n > 0 {
        edges_are_numbered_anew(keep, n - 1);
        assert(keep.take(n).drop_last() =~= keep.take(n - 1));
    }
}

/// The channels that stay are those of the edges that stay, in the same order, numbered anew.
pub proof fn channels_stay_with_their_edges(d: DataflowView, ids: Seq<StageId>, k: int)
    requires
        d.sound(),
        0 <= k < restricted(d, ids).channels.len() <= usize::MAX,
    ensures
        ({
            let r = restricted(d, ids);
            let all = d.graph.edges + d.graph.feedback_edges;
            let kept = chosen(
                d.channels,
                |i: int|
                    if i < d.graph.edges.len() {
                        edge_stays(d, ids, d.graph.edges[i])
                    } else {
                        stays(d, ids, all[i].source.operator_index) && stays(
                            d,
                            ids,
                            all[i].target.operator_index,
                        )
                    },
            );
            &&& r.channels.len() == kept.len()
            &&& r.channels[k].0 == k
            &&& r.channels[k].1 == kept[k].1
        }),
{
    let flags = kept_edges(d, ids) + kept_feedback(d, ids);
    let all = d.graph.edges + d.graph.feedback_edges;
    let p = |i: int|
        if i < d.graph.edges.len() {
            edge_stays(d, ids, d.graph.edges[i])
        } else {
            stays(d, ids, all[i].source.operator_index) && stays(
                d,
                ids,
                all[i].target.operator_index,
            )
        };
    selecting_is_choosing(d.channels, flags, true);
    let yes = |j: int| flags[j] == true;
    assert forall|i: int| 0 <= i < d.channels.len() implies #[trigger] yes(i) == p(i) by {
        if i < d.graph.edges.len() {
            assert(flags[i] == keeps_edge(d.stages, ids, d.graph.edges[i]));
            let e = d.graph.edges[i];
            assert(takes_part(d.stages, ids, e.source.operator_index) == stays(
                d,
                ids,
                e.source.operator_index,
            ));
            assert(takes_part(d.stages, ids, e.target.operator_index) == stays(
                d,
                ids,
                e.target.operator_index,
            ));
        } else {
            let j = i - d.graph.edges.len();
            let e = d.graph.feedback_edges[j];
            assert(flags[i] == joins_parts(d.stages, ids, e));
            assert(all[i] == e);
            assert(takes_part(d.stages, ids, e.source.operator_index) == stays(
                d,
                ids,
                e.source.operator_index,
            ));
            assert(takes_part(d.stages, ids, e.target.operator_index) == stays(
                d,
                ids,
                e.target.operator_index,
            ));
        }
    }
    lemma_chosen_same(d.channels, yes, p);
}

/// What is merged is what was there, followed by the batches of all inputs that hold records, input
/// after input, each in its order.
pub proof fn merging_joins_the_inputs<T, D>(
    buffered: Seq<(T, Seq<D>)>,
    inputs: Seq<Seq<(T, Seq<D>)>>,
)
    ensures
        merged(buffered, inputs) == buffered + inputs.map_values(
            |s: Seq<(T, Seq<D>)>| s.filter(|b: (T, Seq<D>)| b.1.len() > 0),
        ).flatten(),
    decreases inputs.len(),
{
    let f = |s: Seq<(T, Seq<D>)>| s.filter(|b: (T, Seq<D>)| b.1.len() > 0);
    let parts = inputs.map_values(f);
    flattened_is_joined(parts);
    if inputs.len() > 0 {
        let less = inputs.drop_last();
        merging_joins_the_inputs(buffered, less);
        flattened_is_joined(less.map_values(f));
        assert(parts.drop_last() =~= less.map_values(f));
        assert(parts.last() == without_empty(inputs.last()));
        assert(merged(buffered, inputs) =~= buffered + flattened(parts));
    } else {
        assert(merged(buffered, inputs) =~= buffered + flattened(parts));
    }
}

/// A branch sends, behind what it has sent, of each batch the records with the wanted answer; batches
/// of which there are none are left out.
pub proof fn branches_route_by_answers<T, D>(
    buffered: Seq<(T, Seq<D>)>,
    input: Seq<(T, Seq<D>)>,
    answers: Seq<Seq<bool>>,
    want: bool,
)
    requires
        input.len() <= answers.len(),
        forall|i: int|
            0 <= i < input.len() ==> (#[trigger] input[i]).1.len() <= answers[i].len(),
    ensures
        routed(buffered, input, answers, want) == buffered + Seq::new(
            input.len(),
            |i: int| (input[i].0, chosen(input[i].1, |k: int| answers[i][k] == want)),
        ).filter(|b: (T, Seq<D>)| b.1.len() > 0),
    decreases input.len(),
{
    reveal(Seq::filter);
    let side = |i: int| (input[i].0, chosen(input[i].1, |k: int| answers[i][k] == want));
    let all = Seq::new(input.len(), side);
    let filled = |b: (T, Seq<D>)| b.1.len() > 0;
    if input.len() > 0 {
        let less = input.drop_last();
        let n = input.len() - 1;
        assert forall|i: int| 0 <= i < less.len() implies (#[trigger] less[i]).1.len()
            <= answers[i].len() by {
            assert(less[i] == input[i]);
        }
        branches_route_by_answers(buffered, less, answers, want);
        assert(all.drop_last() =~= Seq::new(
            less.len(),
            |i: int| (less[i].0, chosen(less[i].1, |k: int| answers[i][k] == want)),
        ));
        assert(input[n].1.len() <= answers[n].len());
        selecting_is_choosing(input[n].1, answers[n], want);
        assert(routed(buffered, input, answers, want) =~= buffered + all.filter(filled));
    } else {
        assert(routed(buffered, input, answers, want) =~= buffered + all.filter(filled));
    }
}

/// Results are split batch by batch: the values of the successes come out on one side, behind what has
/// come out there, and those of the failures on the other; what is empty is left out.
pub proof fn results_are_routed_apart<T, D, O, E>(
    oks: Seq<(T, Seq<O>)>,
    errs: Seq<(T, Seq<E>)>,
    input: Seq<(T, Seq<D>)>,
    results: Seq<Seq<core::result::Result<O, E>>>,
)
    ensures
        routed_successes(oks, input, results) == oks + Seq::new(
            input.len(),
            |i: int|
                (
                    input[i].0,
                    results[i].filter_map(
                        |r: core::result::Result<O, E>|
                            match r {
                                Ok(v) => Some(v),
                                Err(_) => None,
                            },
                    ),
                ),
        ).filter(|b: (T, Seq<O>)| b.1.len() > 0),
        routed_failures(errs, input, results) == errs + Seq::new(
            input.len(),
            |i: int|
                (
                    input[i].0,
                    results[i].filter_map(
                        |r: core::result::Result<O, E>|
                            match r {
                                Ok(_) => None,
                                Err(e) => Some(e),
                            },
                    ),
                ),
        ).filter(|b: (T, Seq<E>)| b.1.len() > 0),
    decreases input.len(),
{
    reveal(Seq::filter);
    let ok = |r: core::result::Result<O, E>|
        match r {
            Ok(v) => Some(v),
            Err(_) => None,
        };
    let err = |r: core::result::Result<O, E>|
        match r {
            Ok(_) => None,
            Err(e) => Some(e),
        };
    let good = Seq::new(input.len(), |i: int| (input[i].0, results[i].filter_map(ok)));
    let bad = Seq::new(input.len(), |i: int| (input[i].0, results[i].filter_map(err)));
    let some_good = |b: (T, Seq<O>)| b.1.len() > 0;
    let some_bad = |b: (T, Seq<E>)| b.1.len() > 0;
    if input.len() > 0 {
        let less = input.drop_last();
        let n = input.len() - 1;
        results_are_routed_apart(oks, errs, less, results);
        assert(good.drop_last() =~= Seq::new(
            less.len(),
            |i: int| (less[i].0, results[i].filter_map(ok)),
        ));
        assert(bad.drop_last() =~= Seq::new(
            less.len(),
            |i: int| (less[i].0, results[i].filter_map(err)),
        ));
        successes_are_the_ok_values(results[n]);
        failures_are_the_err_values(results[n]);
    }
    assert(routed_successes(oks, input, results) =~= oks + good.filter(some_good));
    assert(routed_failures(errs, input, results) =~= errs + bad.filter(some_bad));
}

/// A stream that is redistributed comes out of one more operator, behind an exchange edge, in the stage
/// that it was in if that is as wide as it should be and nothing is forced, and else in a new stage of
/// the wanted width. Nothing else changes.
pub proof fn redistribution_adds_one_operator(
    before: ScopeView,
    after: ScopeView,
    name: Seq<char>,
    stream: StreamView,
    target_parallelism: usize,
    forced: bool,
    out: StreamView,
)
    requires
        is_redistributed(before, after, name, stream, target_parallelism, forced, out),
        before.next_index < usize::MAX,
    ensures
        out.source.slot_index == 0,
        out.source.operator_index == before.next_index,
        after.next_index == before.next_index + 1,
        after.graph.operators.dom() == before.graph.operators.dom().insert(
            out.source.operator_index,
        ),
        ({
            let op = after.graph.operators[out.source.operator_index];
            &&& op.name@ == name
            &&& op.index == out.source.operator_index
            &&& op.input_count == 1
            &&& op.output_count == 1
            &&& op.region_id == out.stage_id
        }),
        forall|x: usize|
            x != out.source.operator_index && before.graph.operators.dom().contains(x)
                ==> #[trigger] after.graph.operators[x] == before.graph.operators[x],
        after.graph.edges.len() == before.graph.edges.len() + 1,
        after.graph.edges.drop_last() == before.graph.edges,
        ({
            let e = after.graph.edges.last();
            &&& e.kind is Exchange
            &&& e.source == stream.source
            &&& e.target == (Slot {
                operator_index: out.source.operator_index,
                slot_index: 0,
            })
            &&& e.source_region == stream.stage_id
            &&& e.target_region == out.stage_id
            &&& e.target_parallelism == Some(target_parallelism)
        }),
        after.graph.feedback_edges == before.graph.feedback_edges,
        forced || (stage_width(before, stream.stage_id) != Some(target_parallelism) && (
        stage_width(before, stream.stage_id) is Some || target_parallelism != 1))
            ==> out.stage_id.0 == before.parallelism.len() && after.parallelism
            == before.parallelism.push(target_parallelism),
        !forced && stage_width(before, stream.stage_id) == Some(target_parallelism)
            ==> out.stage_id == stream.stage_id && after.parallelism == before.parallelism,
{
    assert(after.graph.edges.drop_last() =~= before.graph.edges);
}

proof fn lemma_region_behind(a: Seq<(usize, StageId)>, ops: Seq<usize>, id: StageId, op: usize)
    ensures
        region_in(a + ops.map_values(|i: usize| (i, id)), op) == if ops.contains(op) {
            Some(id)
        } else {
            region_in(a, op)
        },
    decreases ops.len(),
{
    let all = a + ops.map_values(|i: usize| (i, id));
    if ops.len() == 0 {
        assert(all =~= a);
    } else {
        let less = ops.drop_last();
        lemma_region_behind(a, less, id, op);
        assert(all.drop_last() =~= a + less.map_values(|i: usize| (i, id)));
        assert(all.last() == (ops.last(), id));
        if ops.last() == op {
            assert(ops[ops.len() - 1] == op);
        } else if ops.contains(op) {
            let k = choose|k: int| 0 <= k < ops.len() && ops[k] == op;
            assert(less[k] == op);
        } else if less.contains(op) {
            let k = choose|k: int| 0 <= k < less.len() && less[k] == op;
            assert(ops[k] == op);
        }
    }
}

proof fn lemma_region_of_stage(stages: Seq<StageInfo>, s: int, op: usize)
    requires
        0 <= s < stages.len(),
        stages[s].operator_indices@.contains(op),
        forall|u: int|
            s < u < stages.len() ==> !(#[trigger] stages[u]).operator_indices@.contains(op),
    ensures
        region_in(memberships(stages), op) == Some(stages[s].id),
    decreases stages.len(),
{
    let less = stages.drop_last();
    let last = stages.last();
    lemma_region_behind(memberships(less), last.operator_indices@, last.id, op);
    if s < less.len() {
        assert(!stages[stages.len() - 1].operator_indices@.contains(op));
        lemma_region_of_stage(less, s, op);
    }
}

/// In a dataflow that was built, each operator is in the region of the stage that holds it, and is
/// otherwise what it was; each edge leads between the regions of its ends.
pub proof fn operators_live_in_their_stage(
    v: BuilderView,
    d: DataflowView,
    s: int,
    op: usize,
    e: int,
)
    requires
        is_built(v, d),
        0 <= s < d.stages.len(),
        d.stages[s].operator_indices@.contains(op),
        forall|u: int|
            0 <= u < d.stages.len() && u != s ==> !(#[trigger] d.stages[u]).operator_indices@.contains(
                op,
            ),
        v.graph.operators.contains_key(op),
        v.graph.operators[op].index == op,
        0 <= e < v.graph.edges.len(),
    ensures
        d.graph.operators.contains_key(op),
        d.graph.operators[op].region_id == d.stages[s].id,
        d.graph.operators[op].name == v.graph.operators[op].name,
        d.graph.operators[op].index == op,
        d.graph.operators[op].input_count == v.graph.operators[op].input_count,
        d.graph.operators[op].output_count == v.graph.operators[op].output_count,
        d.graph.edges.len() == v.graph.edges.len(),
        d.graph.edges[e].source == v.graph.edges[e].source,
        d.graph.edges[e].target == v.graph.edges[e].target,
        d.graph.edges[e].kind == v.graph.edges[e].kind,
        d.graph.edges[e].target_parallelism == v.graph.edges[e].target_parallelism,
        v.graph.edges[e].source.operator_index == op ==> d.graph.edges[e].source_region
            == d.stages[s].id,
        v.graph.edges[e].target.operator_index == op ==> d.graph.edges[e].target_region
            == d.stages[s].id,
{
    lemma_region_of_stage(d.stages, s, op);
}

/// What a builder has put together is what is built: the same operators, edges, channels, ports,
/// probes and exchanges, and the channels of the edges that close loops are numbered behind the
/// others.
pub proof fn what_is_put_together_is_built(v: BuilderView, d: DataflowView, k: int)
    requires
        is_built(v, d),
        v.graph.edges.len() + v.graph.feedback_edges.len() <= usize::MAX,
        0 <= k < v.feedback_channels.len(),
        v.feedback_channels[k].0 < v.graph.feedback_edges.len(),
    ensures
        d.graph.operators.dom() == v.graph.operators.dom(),
        d.graph.feedback_edges == v.graph.feedback_edges,
        d.subgraph == v.subgraph,
        d.operators == v.operators,
        d.probes == v.probes,
        d.input_ports == v.input_ports,
        d.output_ports == v.output_ports,
        d.exchanges == v.exchanges,
        d.channels.len() == v.channels.len() + v.feedback_channels.len(),
        forall|c: int| 0 <= c < v.channels.len() ==> #[trigger] d.channels[c] == v.channels[c],
        d.channels[v.channels.len() + k].0 == v.graph.edges.len() + v.feedback_channels[k].0,
        d.channels[v.channels.len() + k].1 == v.feedback_channels[k].1,
{
    assert(d.graph.operators.dom() =~= v.graph.operators.dom());
}

/// What was put together inside a loop is taken over: the channels and exchanges are numbered behind
/// those that are there, and everything else stays.
pub proof fn what_is_inside_is_taken_over(b: BuilderView, inner: BuilderView, k: int, x: int)
    requires
        b.graph.edges.len() + inner.graph.edges.len() <= usize::MAX,
        0 <= k < inner.channels.len(),
        inner.channels[k].0 < inner.graph.edges.len(),
        0 <= x < inner.exchanges.len(),
        inner.exchanges[x].0 < inner.graph.edges.len(),
    ensures
        ({
            let m = b.merged(inner);
            &&& m.channels.len() == b.channels.len() + inner.channels.len()
            &&& m.channels[b.channels.len() + k].0 == b.graph.edges.len() + inner.channels[k].0
            &&& m.channels[b.channels.len() + k].1 == inner.channels[k].1
            &&& m.graph.edges[m.channels[b.channels.len() + k].0 as int]
                == inner.graph.edges[inner.channels[k].0 as int]
            &&& m.exchanges[b.exchanges.len() + x].0 == b.graph.edges.len()
                + inner.exchanges[x].0
            &&& m.exchanges[b.exchanges.len() + x].1 == inner.exchanges[x].1
            &&& m.exchanges[b.exchanges.len() + x].2 == inner.exchanges[x].2
            &&& m.graph.edges[m.exchanges[b.exchanges.len() + x].0 as int]
                == inner.graph.edges[inner.exchanges[x].0 as int]
            &&& forall|i: int| 0 <= i < b.channels.len() ==> #[trigger] m.channels[i]
                == b.channels[i]
            &&& forall|i: int| 0 <= i < b.exchanges.len() ==> #[trigger] m.exchanges[i]
                == b.exchanges[i]
            &&& forall|i: int| 0 <= i < b.operators.len() ==> #[trigger] m.operators[i]
                == b.operators[i]
            &&& forall|i: int|
                0 <= i < inner.operators.len() ==> m.operators[b.operators.len() + i]
                    == #[trigger] inner.operators[i]
            &&& m.probes == b.probes
            &&& m.capacity == b.capacity
        }),
{
}

proof fn lemma_selected_at<D>(s: Seq<D>, keep: Seq<bool>, n: int)
    requires
        s.len() <= keep.len(),
        0 <= n <= s.len(),
    ensures
        select(s, keep, true).len() == wanted_before(keep, s.len() as int),
        n < s.len() && keep[n] ==> wanted_before(keep, n) < select(s, keep, true).len() && select(
            s,
            keep,
            true,
        )[wanted_before(keep, n) as int] == s[n],
    decreases s.len(),
{
    lemma_fewer_wanted(keep, n);
    if s.len() > 0 {
        let less = s.drop_last();
        if n < s.len() {
            lemma_selected_at(less, keep, n);
        } else {
            lemma_selected_at(less, keep, n - 1);
        }
    }
}

/// The exchanges that stay are those of the edges that stay, in the same order, each with its capacity
/// and its way of distribution, and each still names its edge.
pub proof fn exchanges_stay_with_their_edges(
    exchanges: Seq<(usize, usize, BoxedPlan, Seq<char>)>,
    edges: Seq<EdgeInfo>,
    keep: Seq<bool>,
    k: int,
)
    requires
        keep.len() == edges.len() <= usize::MAX,
        forall|i: int| 0 <= i < exchanges.len() ==> (#[trigger] exchanges[i]).0 < edges.len(),
        0 <= k < kept_exchanges(exchanges, keep).len(),
    ensures
        ({
            let stay = exchanges.filter(
                |x: (usize, usize, BoxedPlan, Seq<char>)| keep[x.0 as int],
            );
            let kept = kept_exchanges(exchanges, keep);
            let left = select(edges, keep, true);
            &&& kept.len() == stay.len()
            &&& kept[k].1 == stay[k].1
            &&& kept[k].2 == stay[k].2
            &&& kept[k].3 == stay[k].3
            &&& kept[k].0 < left.len()
            &&& left[kept[k].0 as int] == edges[stay[k].0 as int]
        }),
{
    let f = |x: (usize, usize, BoxedPlan, Seq<char>)| keep[x.0 as int];
    let stay = exchanges.filter(f);
    lemma_filtered(exchanges, f, k);
    let i = choose|i: int| 0 <= i < exchanges.len() && exchanges[i] == stay[k];
    assert(exchanges[i].0 < edges.len());
    lemma_selected_at(edges, keep, stay[k].0 as int);
    lemma_fewer_wanted(keep, stay[k].0 as int);
}

proof fn lemma_fewer_wanted(keep: Seq<bool>, n: int)
    requires
        0 <= n <= keep.len(),
    ensures
        0 <= wanted_before(keep, n) <= n,
    decreases n,
{
    if n > 0 {
        lemma_fewer_wanted(keep, n - 1);
    }
}

proof fn lemma_filtered<X>(s: Seq<X>, f: spec_fn(X) -> bool, k: int)
    requires
        0 <= k < s.filter(f).len(),
    ensures
        f(s.filter(f)[k]),
        s.contains(s.filter(f)[k]),
    decreases s.len(),
{
    reveal(Seq::filter);
    if s.len() > 0 {
        let less = s.drop_last();
        if k < less.filter(f).len() {
            lemma_filtered(less, f, k);
            let i = choose|i: int| 0 <= i < less.len() && less[i] == less.filter(f)[k];
            assert(s[i] == s.filter(f)[k]);
        } else {
            assert(s[s.len() - 1] == s.filter(f)[k]);
        }
    }
}

/// A stream is as wide as its stage, and one wide in a stage that is not known.
pub proof fn streams_are_as_wide_as_their_stage(scope: ScopeView, stream: StreamView)
    ensures
        stream.stage_id.0 < scope.parallelism.len() ==> stream_width(scope, stream)
            == scope.parallelism[stream.stage_id.0 as int],
        stream.stage_id.0 >= scope.parallelism.len() ==> stream_width(scope, stream) == 1,
{
}

/// Every operator of a dataflow that was built is in a stage, and together with just those that pipeline
/// edges connect it to. The stages are numbered from 0 on, and are as wide as an exchange into them
/// demands.
pub proof fn stages_are_numbered_parts(v: BuilderView, d: DataflowView, a: usize, b: usize, s: int)
    requires
        is_built(v, d),
        settling_order(v.graph.operators.dom(), v.graph.edges).contains(a),
        settling_order(v.graph.operators.dom(), v.graph.edges).contains(b),
        0 <= s < d.stages.len(),
    ensures
        exists|g: int|
            0 <= g < d.stages.len() && (#[trigger] d.stages[g]).operator_indices@.contains(a),
        in_one_stage(
            settling_order(v.graph.operators.dom(), v.graph.edges),
            v.graph.edges,
            a,
            b,
        ) <==> exists|g: int|
            0 <= g < d.stages.len() && (#[trigger] d.stages[g]).operator_indices@.contains(a)
                && d.stages[g].operator_indices@.contains(b),
        d.stages[s].id.0 == s,
        d.stages[s].operator_indices@.len() > 0,
        d.stages[s].fused_order.positions@ == d.stages[s].operator_indices@,
        d.stages[s].parallelism matches Some(w) ==> exists|e: int|
            0 <= e < v.graph.edges.len() && (#[trigger] v.graph.edges[e]).kind is Exchange
                && v.graph.edges[e].target_parallelism == Some(w)
                && d.stages[s].operator_indices@.contains(
                v.graph.edges[e].target.operator_index,
            ),
{
    let ops = settling_order(v.graph.operators.dom(), v.graph.edges);
    let edges = v.graph.edges;
    let gs = groups(ops, edges, ops.len());
    stages_are_the_connected_parts(ops, edges, a, b);
    let g = choose|g: int| 0 <= g < gs.len() && (#[trigger] gs[g]).contains(a);
    assert(is_stage(d.stages[g], g, gs[g], edges));
    assert(d.stages[g].operator_indices@.contains(a));
    if in_one_stage(ops, edges, a, b) {
        let h = choose|h: int|
            0 <= h < gs.len() && (#[trigger] gs[h]).contains(a) && gs[h].contains(b);
        assert(is_stage(d.stages[h], h, gs[h], edges));
        assert(d.stages[h].operator_indices@.contains(a));
    }
    if exists|h: int|
        0 <= h < d.stages.len() && (#[trigger] d.stages[h]).operator_indices@.contains(a)
            && d.stages[h].operator_indices@.contains(b) {
        let h = choose|h: int|
            0 <= h < d.stages.len() && (#[trigger] d.stages[h]).operator_indices@.contains(a)
                && d.stages[h].operator_indices@.contains(b);
        assert(is_stage(d.stages[h], h, gs[h], edges));
        assert(gs[h].contains(a));
    }
    assert(is_stage(d.stages[s], s, gs[s], edges));
    stages_keep_the_order(ops, edges, ops.len(), s);
    lemma_width_comes_from_an_edge(edges, gs[s]);
}

proof fn lemma_width_comes_from_an_edge(edges: Seq<EdgeInfo>, members: Seq<usize>)
    ensures
        width_of(edges, members) matches Some(w) ==> exists|e: int|
            0 <= e < edges.len() && (#[trigger] edges[e]).kind is Exchange
                && edges[e].target_parallelism == Some(w) && members.contains(
                edges[e].target.operator_index,
            ),
    decreases edges.len(),
{
    if edges.len() > 0 && width_of(edges, members) is Some {
        let w = width_of(edges, members)->0;
        let first = edges[0];
        let rest = edges.drop_first();
        if !(first.kind is Exchange && members.contains(first.target.operator_index)
            && first.target_parallelism is Some) {
            lemma_width_comes_from_an_edge(rest, members);
            let e = choose|e: int|
                0 <= e < rest.len() && (#[trigger] rest[e]).kind is Exchange
                    && rest[e].target_parallelism == Some(w) && members.contains(
                    rest[e].target.operator_index,
                );
            assert(edges[e + 1] == rest[e]);
        }
    }
}

} // verus!
