//! Restricting a dataflow to some of its stages.

use vstd::prelude::*;
use crate::builder::{
    all_plain, all_ready, exchange_views, lists_exchanges, made_by, opened_by, port_views, BoxedPlan,
    ExchangeInfo, PortInfo,
};
use crate::dataflow::DataflowView;
use crate::graph::{exchange_edges, exchange_edges_are_all, EdgeInfo, GraphView};
use crate::operators::branch::select;
use crate::order::Timestamp;
use crate::progress::ProbeHandle;
use crate::role::{Duty, Line};
use crate::schedulable::{BoxedChannelFactory, BoxedOperatorFactory};
use crate::stage::{StageId, StageInfo};

verus! {

/// The operator belongs to one of the given stages.
pub open spec fn takes_part(stages: Seq<StageInfo>, ids: Seq<StageId>, op: usize) -> bool {
    exists|s: int|
        0 <= s < stages.len() && ids.contains((#[trigger] stages[s]).id)
            && stages[s].operator_indices@.contains(op)
}

/// Both ends of the edge take part.
pub open spec fn joins_parts(stages: Seq<StageInfo>, ids: Seq<StageId>, e: EdgeInfo) -> bool {
    takes_part(stages, ids, e.source.operator_index) && takes_part(
        stages,
        ids,
        e.target.operator_index,
    )
}

/// The edge is kept: an exchange edge if one of its stages is, another edge if both its ends are.
pub open spec fn keeps_edge(stages: Seq<StageInfo>, ids: Seq<StageId>, e: EdgeInfo) -> bool {
    if e.kind is Exchange {
        ids.contains(e.source_region) || ids.contains(e.target_region)
    } else {
        joins_parts(stages, ids, e)
    }
}

/// Which edges are kept.
pub open spec fn kept_edges(d: DataflowView, ids: Seq<StageId>) -> Seq<bool> {
    d.graph.edges.map_values(|e: EdgeInfo| keeps_edge(d.stages, ids, e))
}

/// Which of the edges that close loops are kept.
pub open spec fn kept_feedback(d: DataflowView, ids: Seq<StageId>) -> Seq<bool> {
    d.graph.feedback_edges.map_values(|e: EdgeInfo| joins_parts(d.stages, ids, e))
}

/// The channels, numbered anew in their order.
pub open spec fn renumbered(channels: Seq<(usize, Line)>) -> Seq<(usize, Line)> {
    Seq::new(channels.len(), |k: int| (k as usize, channels[k].1))
}

/// The exchanges on edges that are kept, with the new numbers of their edges.
pub open spec fn kept_exchanges(
    exchanges: Seq<(usize, usize, BoxedPlan, Seq<char>)>,
    edges: Seq<bool>,
) -> Seq<(usize, usize, BoxedPlan, Seq<char>)> {
    exchanges.filter(
        |x: (usize, usize, BoxedPlan, Seq<char>)| edges[x.0 as int],
    ).map_values(
        |x: (usize, usize, BoxedPlan, Seq<char>)|
            (wanted_before(edges, x.0 as int) as usize, x.1, x.2, x.3),
    )
}

/// The dataflow restricted to some of its stages. All operators stay known to the progress tracker,
/// so that it can account for what other workers do.
pub open spec fn restricted(d: DataflowView, ids: Seq<StageId>) -> DataflowView {
    let edges = kept_edges(d, ids);
    let feedback = kept_feedback(d, ids);
    DataflowView {
        graph: GraphView {
            operators: d.graph.operators.restrict(
                Set::new(|i: usize| takes_part(d.stages, ids, i)),
            ),
            edges: select(d.graph.edges, edges, true),
            feedback_edges: select(d.graph.feedback_edges, feedback, true),
        },
        operators: d.operators.filter(
            |o: (usize, Option<(usize, Seq<char>, Duty)>)|
                takes_part(d.stages, ids, o.0),
        ),
        channels: renumbered(select(d.channels, edges + feedback, true)),
        input_ports: d.input_ports.filter(
            |p: (Seq<char>, usize)| takes_part(d.stages, ids, p.1),
        ),
        async_sources: d.async_sources.filter(|i: usize| takes_part(d.stages, ids, i)),
        exchanges: kept_exchanges(d.exchanges, edges),
        output_ports: d.output_ports.filter(
            |p: (Seq<char>, usize)| takes_part(d.stages, ids, p.1),
        ),
        probes: d.probes.filter(|i: usize| takes_part(d.stages, ids, i)),
        stages: d.stages.filter(|s: StageInfo| ids.contains(s.id)),
        ..d
    }
}

/// As many answers as wanted were among the first `n`.
pub open spec fn wanted_before(answers: Seq<bool>, n: int) -> int
    decreases n,
{
    if n <= 0 {
        0
    } else {
        wanted_before(answers, n - 1) + if answers[n - 1] {
            1int
        } else {
            0int
        }
    }
}

proof fn lemma_select_len<X>(data: Seq<X>, answers: Seq<bool>)
    requires
        data.len() <= answers.len(),
    ensures
        select(data, answers, true).len() == wanted_before(answers, data.len() as int),
        select(data, answers, true).len() <= data.len(),
    decreases data.len(),
{
    if data.len() > 0 {
        lemma_select_len(data.drop_last(), answers);
    }
}

proof fn lemma_wanted_concat(a: Seq<bool>, b: Seq<bool>, n: int)
    requires
        0 <= n <= b.len(),
    ensures
        wanted_before(a + b, a.len() + n) == wanted_before(a, a.len() as int) + wanted_before(b, n),
    decreases n,
{
    if n > 0 {
        lemma_wanted_concat(a, b, n - 1);
    } else {
        lemma_wanted_prefix(a, b, a.len() as int);
    }
}

proof fn lemma_wanted_prefix(a: Seq<bool>, b: Seq<bool>, n: int)
    requires
        0 <= n <= a.len(),
    ensures
        wanted_before(a + b, n) == wanted_before(a, n),
    decreases n,
{
    if n > 0 {
        lemma_wanted_prefix(a, b, n - 1);
    }
}

proof fn lemma_filter_holds<X>(s: Seq<X>, p: spec_fn(X) -> bool, k: int)
    requires
        0 <= k < s.filter(p).len(),
    ensures
        p(s.filter(p)[k]),
        s.contains(s.filter(p)[k]),
    decreases s.len(),
{
    reveal(Seq::filter);
    if s.len() > 0 {
        let rest = s.drop_last();
        if k < rest.filter(p).len() {
            lemma_filter_holds(rest, p, k);
            let i = choose|i: int| 0 <= i < rest.len() && rest[i] == rest.filter(p)[k];
            assert(s[i] == s.filter(p)[k]);
        } else {
            assert(s[s.len() - 1] == s.filter(p)[k]);
        }
    }
}

/// What is left of plain factories is plain.
pub(crate) proof fn lemma_filter_plain<T: Timestamp>(
    factories: Seq<(usize, BoxedOperatorFactory<T>)>,
    p: spec_fn((usize, BoxedOperatorFactory<T>)) -> bool,
)
    requires
        all_plain(factories),
    ensures
        all_plain(factories.filter(p)),
{
    let kept = factories.filter(p);
    assert forall|k: int| 0 <= k < kept.len() implies (#[trigger] kept[k]).1.is_plain() by {
        lemma_filter_holds(factories, p, k);
        let i = choose|i: int| 0 <= i < factories.len() && factories[i] == kept[k];
        assert(factories[i].1.is_plain());
    }
}

/// The exchange edges that are kept, with their new numbers.
proof fn lemma_kept_exchange_edges(edges: Seq<EdgeInfo>, keep: Seq<bool>)
    requires
        edges.len() <= keep.len(),
        edges.len() <= usize::MAX,
    ensures
        exchange_edges(select(edges, keep, true)) == exchange_edges(edges).filter(
            |i: usize| keep[i as int],
        ).map_values(|i: usize| wanted_before(keep, i as int) as usize),
    decreases edges.len(),
{
    reveal(Seq::filter);
    let p = |i: usize| keep[i as int];
    let f = |i: usize| wanted_before(keep, i as int) as usize;
    if edges.len() == 0 {
        assert(exchange_edges(edges).filter(p).map_values(f) =~= Seq::<usize>::empty());
    } else {
        let rest = edges.drop_last();
        let n = edges.len() - 1;
        lemma_kept_exchange_edges(rest, keep);
        lemma_select_len(rest, keep);
        let kept = select(rest, keep, true);
        if keep[n] {
            assert(select(edges, keep, true).drop_last() =~= kept);
        }
        if edges.last().kind is Exchange {
            let list = exchange_edges(edges);
            assert(list.drop_last() =~= exchange_edges(rest));
            if keep[n] {
                assert(list.filter(p).map_values(f) =~= exchange_edges(rest).filter(
                    p,
                ).map_values(f).push(f(n as usize)));
            }
        }
    }
}

/// The exchanges of a restricted dataflow are those on its exchange edges.
proof fn lemma_kept_exchanges(
    exchanges: Seq<(usize, usize, BoxedPlan, Seq<char>)>,
    edges: Seq<EdgeInfo>,
    keep: Seq<bool>,
)
    requires
        lists_exchanges(exchanges, edges),
        edges.len() == keep.len(),
        edges.len() <= usize::MAX,
    ensures
        lists_exchanges(kept_exchanges(exchanges, keep), select(edges, keep, true)),
{
    let ends = |x: (usize, usize, BoxedPlan, Seq<char>)| x.0;
    let p = |x: (usize, usize, BoxedPlan, Seq<char>)| keep[x.0 as int];
    let q = |i: usize| keep[i as int];
    let f = |i: usize| wanted_before(keep, i as int) as usize;
    lemma_filter_map(exchanges, ends, p, q);
    lemma_kept_exchange_edges(edges, keep);
    assert(kept_exchanges(exchanges, keep).map_values(ends) =~= exchanges.filter(p).map_values(
        ends,
    ).map_values(f));
}

/// Restricting keeps a dataflow in order: there is still a factory for each edge that is kept, and
/// only the operators that take part are made.
pub proof fn restricting_keeps_sound(d: DataflowView, ids: Seq<StageId>)
    requires
        d.sound(),
    ensures
        restricted(d, ids).sound(),
        forall|k: int|
            0 <= k < restricted(d, ids).operators.len() ==> takes_part(
                d.stages,
                ids,
                (#[trigger] restricted(d, ids).operators[k]).0,
            ),
{
    let r = restricted(d, ids);
    let edges = kept_edges(d, ids);
    let feedback = kept_feedback(d, ids);
    lemma_select_len(d.graph.edges, edges);
    lemma_select_len(d.graph.feedback_edges, feedback);
    lemma_select_len(d.channels, edges + feedback);
    lemma_wanted_concat(edges, feedback, feedback.len() as int);
    lemma_kept_exchanges(d.exchanges, d.graph.edges, edges);
    assert forall|k: int| 0 <= k < r.channels.len() implies (#[trigger] r.channels[k]).0 == k by {
        assert(d.channels[k].0 == k);
    }
    let p = |o: (usize, Option<(usize, Seq<char>, Duty)>)|
        takes_part(d.stages, ids, o.0);
    assert forall|k: int| 0 <= k < r.operators.len() implies (#[trigger] r.operators[k]).0
        < usize::MAX && r.operators[k].1 is Some && (r.operators[k].1->0).0 == r.operators[k].0
        && takes_part(d.stages, ids, r.operators[k].0) by {
        lemma_filter_holds(d.operators, p, k);
        let i = choose|i: int| 0 <= i < d.operators.len() && d.operators[i] == r.operators[k];
        assert(d.operators[i].1 is Some);
    }
}

proof fn lemma_select_all<X>(data: Seq<X>, answers: Seq<bool>)
    requires
        data.len() <= answers.len(),
        forall|k: int| 0 <= k < data.len() ==> #[trigger] answers[k],
    ensures
        select(data, answers, true) == data,
    decreases data.len(),
{
    if data.len() > 0 {
        lemma_select_all(data.drop_last(), answers);
        assert(answers[data.len() - 1]);
        assert(data.drop_last().push(data.last()) =~= data);
    }
}

proof fn lemma_filter_all<X>(s: Seq<X>, p: spec_fn(X) -> bool)
    requires
        forall|k: int| 0 <= k < s.len() ==> p(#[trigger] s[k]),
    ensures
        s.filter(p) == s,
    decreases s.len(),
{
    reveal(Seq::filter);
    if s.len() > 0 {
        lemma_filter_all(s.drop_last(), p);
        assert(p(s[s.len() - 1]));
        assert(s.drop_last().push(s.last()) =~= s);
    }
}

proof fn lemma_wanted_all(keep: Seq<bool>, n: int)
    requires
        0 <= n <= keep.len(),
        forall|k: int| 0 <= k < keep.len() ==> #[trigger] keep[k],
    ensures
        wanted_before(keep, n) == n,
    decreases n,
{
    if n > 0 {
        lemma_wanted_all(keep, n - 1);
        assert(keep[n - 1]);
    }
}

proof fn lemma_exchanges_all(
    exchanges: Seq<(usize, usize, BoxedPlan, Seq<char>)>,
    edges: Seq<EdgeInfo>,
    keep: Seq<bool>,
)
    requires
        lists_exchanges(exchanges, edges),
        edges.len() == keep.len(),
        edges.len() <= usize::MAX,
        forall|k: int| 0 <= k < keep.len() ==> #[trigger] keep[k],
    ensures
        kept_exchanges(exchanges, keep) == exchanges,
{
    let ends = exchanges.map_values(|x: (usize, usize, BoxedPlan, Seq<char>)| x.0);
    exchange_edges_are_all(edges);
    assert forall|k: int| 0 <= k < exchanges.len() implies keep[(#[trigger] exchanges[k]).0 as int]
        && wanted_before(keep, exchanges[k].0 as int) == exchanges[k].0 by {
        assert(ends[k] == exchanges[k].0);
        assert(exchange_edges(edges)[k] < edges.len());
        lemma_wanted_all(keep, exchanges[k].0 as int);
    }
    lemma_filter_all(
        exchanges,
        |x: (usize, usize, BoxedPlan, Seq<char>)| keep[x.0 as int],
    );
    assert(kept_exchanges(exchanges, keep) =~= exchanges);
}

/// All of the dataflow takes part.
pub open spec fn all_take_part(d: DataflowView, ids: Seq<StageId>) -> bool {
    &&& forall|k: int|
        0 <= k < d.input_ports.len() ==> takes_part(d.stages, ids, (#[trigger] d.input_ports[k]).1)
    &&& forall|k: int|
        0 <= k < d.async_sources.len() ==> takes_part(
            d.stages,
            ids,
            #[trigger] d.async_sources[k],
        )
    &&& forall|s: int| 0 <= s < d.stages.len() ==> ids.contains((#[trigger] d.stages[s]).id)
    &&& forall|i: usize| #[trigger]
        d.graph.operators.dom().contains(i) ==> takes_part(d.stages, ids, i)
    &&& forall|k: int|
        0 <= k < d.operators.len() ==> takes_part(d.stages, ids, (#[trigger] d.operators[k]).0)
    &&& forall|k: int|
        0 <= k < d.output_ports.len() ==> takes_part(
            d.stages,
            ids,
            (#[trigger] d.output_ports[k]).1,
        )
    &&& forall|k: int|
        0 <= k < d.probes.len() ==> takes_part(d.stages, ids, #[trigger] d.probes[k])
    &&& forall|k: int|
        0 <= k < d.graph.edges.len() ==> keeps_edge(d.stages, ids, #[trigger] d.graph.edges[k])
    &&& forall|k: int|
        0 <= k < d.graph.feedback_edges.len() ==> joins_parts(
            d.stages,
            ids,
            #[trigger] d.graph.feedback_edges[k],
        )
}

/// Restricting a dataflow to stages that all of it belongs to changes nothing.
pub proof fn restricting_to_all_changes_nothing(d: DataflowView, ids: Seq<StageId>)
    requires
        d.sound(),
        all_take_part(d, ids),
    ensures
        restricted(d, ids) == d,
{
    let edges = kept_edges(d, ids);
    let feedback = kept_feedback(d, ids);
    let r = restricted(d, ids);
    lemma_select_all(d.graph.edges, edges);
    lemma_select_all(d.graph.feedback_edges, feedback);
    assert forall|k: int| 0 <= k < d.channels.len() implies #[trigger] (edges + feedback)[k] by {
        if k < edges.len() {
            assert(edges[k] == keeps_edge(d.stages, ids, d.graph.edges[k]));
        } else {
            let j = k - edges.len();
            assert(feedback[j] == joins_parts(d.stages, ids, d.graph.feedback_edges[j]));
        }
    }
    lemma_select_all(d.channels, edges + feedback);
    assert(renumbered(d.channels) =~= d.channels);
    lemma_filter_all(
        d.operators,
        |o: (usize, Option<(usize, Seq<char>, Duty)>)| takes_part(d.stages, ids, o.0),
    );
    lemma_filter_all(
        d.output_ports,
        |p: (Seq<char>, usize)| takes_part(d.stages, ids, p.1),
    );
    lemma_filter_all(
        d.input_ports,
        |p: (Seq<char>, usize)| takes_part(d.stages, ids, p.1),
    );
    lemma_filter_all(d.async_sources, |i: usize| takes_part(d.stages, ids, i));
    lemma_filter_all(d.probes, |i: usize| takes_part(d.stages, ids, i));
    assert forall|k: int| 0 <= k < edges.len() implies #[trigger] edges[k] by {
        assert(keeps_edge(d.stages, ids, d.graph.edges[k]));
    }
    lemma_exchanges_all(d.exchanges, d.graph.edges, edges);
    lemma_filter_all(d.stages, |s: StageInfo| ids.contains(s.id));
    assert(r.graph.operators =~= d.graph.operators);
}

proof fn lemma_select_holds<X>(data: Seq<X>, answers: Seq<bool>, k: int)
    requires
        data.len() <= answers.len(),
        0 <= k < select(data, answers, true).len(),
    ensures
        exists|i: int|
            0 <= i < data.len() && #[trigger] answers[i] && data[i] == select(
                data,
                answers,
                true,
            )[k],
    decreases data.len(),
{
    if data.len() > 0 {
        let rest = data.drop_last();
        if k < select(rest, answers, true).len() {
            lemma_select_holds(rest, answers, k);
            let i = choose|i: int|
                0 <= i < rest.len() && #[trigger] answers[i] && rest[i] == select(
                    rest,
                    answers,
                    true,
                )[k];
            assert(answers[i] && data[i] == select(data, answers, true)[k]);
        } else {
            assert(answers[data.len() - 1]);
        }
    }
}

/// Restricting a dataflow once more to the same stages changes nothing.
pub proof fn restricting_twice_is_restricting_once(d: DataflowView, ids: Seq<StageId>)
    requires
        d.sound(),
    ensures
        restricted(restricted(d, ids), ids) == restricted(d, ids),
{
    let r = restricted(d, ids);
    let in_ids = |s: StageInfo| ids.contains(s.id);
    restricting_keeps_sound(d, ids);
    assert forall|i: usize| takes_part(r.stages, ids, i) <==> #[trigger] takes_part(
        d.stages,
        ids,
        i,
    ) by {
        if takes_part(d.stages, ids, i) {
            let s = choose|s: int|
                0 <= s < d.stages.len() && ids.contains((#[trigger] d.stages[s]).id)
                    && d.stages[s].operator_indices@.contains(i);
            lemma_filter_keeps(d.stages, in_ids, s);
            let t = choose|t: int| 0 <= t < r.stages.len() && r.stages[t] == d.stages[s];
            assert(ids.contains(r.stages[t].id));
        }
        if takes_part(r.stages, ids, i) {
            let t = choose|t: int|
                0 <= t < r.stages.len() && ids.contains((#[trigger] r.stages[t]).id)
                    && r.stages[t].operator_indices@.contains(i);
            lemma_filter_holds(d.stages, in_ids, t);
            let s = choose|s: int| 0 <= s < d.stages.len() && d.stages[s] == r.stages[t];
            assert(ids.contains(d.stages[s].id));
        }
    }
    assert forall|s: int| 0 <= s < r.stages.len() implies ids.contains(
        (#[trigger] r.stages[s]).id,
    ) by {
        lemma_filter_holds(d.stages, in_ids, s);
    }
    assert forall|k: int| 0 <= k < r.operators.len() implies takes_part(
        r.stages,
        ids,
        (#[trigger] r.operators[k]).0,
    ) by {
        assert(takes_part(d.stages, ids, r.operators[k].0));
    }
    assert forall|k: int| 0 <= k < r.input_ports.len() implies takes_part(
        r.stages,
        ids,
        (#[trigger] r.input_ports[k]).1,
    ) by {
        lemma_filter_holds(
            d.input_ports,
            |p: (Seq<char>, usize)| takes_part(d.stages, ids, p.1),
            k,
        );
    }
    assert forall|k: int| 0 <= k < r.async_sources.len() implies takes_part(
        r.stages,
        ids,
        #[trigger] r.async_sources[k],
    ) by {
        lemma_filter_holds(d.async_sources, |i: usize| takes_part(d.stages, ids, i), k);
    }
    assert forall|k: int| 0 <= k < r.output_ports.len() implies takes_part(
        r.stages,
        ids,
        (#[trigger] r.output_ports[k]).1,
    ) by {
        lemma_filter_holds(
            d.output_ports,
            |p: (Seq<char>, usize)| takes_part(d.stages, ids, p.1),
            k,
        );
    }
    assert forall|k: int| 0 <= k < r.probes.len() implies takes_part(
        r.stages,
        ids,
        #[trigger] r.probes[k],
    ) by {
        lemma_filter_holds(d.probes, |i: usize| takes_part(d.stages, ids, i), k);
    }
    assert forall|k: int| 0 <= k < r.graph.edges.len() implies keeps_edge(
        r.stages,
        ids,
        #[trigger] r.graph.edges[k],
    ) by {
        let keep = kept_edges(d, ids);
        lemma_select_holds(d.graph.edges, keep, k);
        let i = choose|i: int|
            0 <= i < d.graph.edges.len() && #[trigger] keep[i] && d.graph.edges[i]
                == r.graph.edges[k];
        assert(keep[i] == keeps_edge(d.stages, ids, d.graph.edges[i]));
    }
    assert forall|k: int| 0 <= k < r.graph.feedback_edges.len() implies joins_parts(
        r.stages,
        ids,
        #[trigger] r.graph.feedback_edges[k],
    ) by {
        let keep = kept_feedback(d, ids);
        lemma_select_holds(d.graph.feedback_edges, keep, k);
        let i = choose|i: int|
            0 <= i < d.graph.feedback_edges.len() && #[trigger] keep[i]
                && d.graph.feedback_edges[i] == r.graph.feedback_edges[k];
        assert(keep[i] == joins_parts(d.stages, ids, d.graph.feedback_edges[i]));
    }
    lemma_select_len(d.graph.edges, kept_edges(d, ids));
    assert(all_take_part(r, ids));
    restricting_to_all_changes_nothing(r, ids);
}

proof fn lemma_filter_keeps<X>(s: Seq<X>, p: spec_fn(X) -> bool, i: int)
    requires
        0 <= i < s.len(),
        p(s[i]),
    ensures
        s.filter(p).contains(s[i]),
    decreases s.len(),
{
    reveal(Seq::filter);
    let rest = s.drop_last();
    if i < rest.len() {
        lemma_filter_keeps(rest, p, i);
        let k = choose|k: int| 0 <= k < rest.filter(p).len() && rest.filter(p)[k] == rest[i];
        assert(s.filter(p)[k] == s[i]);
    } else {
        assert(s.filter(p)[s.filter(p).len() - 1] == s[i]);
    }
}

/// Selecting by what items are mapped to, and then mapping, is mapping and then selecting.
proof fn lemma_filter_map<X, Y>(s: Seq<X>, f: spec_fn(X) -> Y, p: spec_fn(X) -> bool, q: spec_fn(
    Y,
) -> bool)
    requires
        forall|x: X| #[trigger] p(x) == q(f(x)),
    ensures
        s.filter(p).map_values(f) == s.map_values(f).filter(q),
    decreases s.len(),
{
    reveal(Seq::filter);
    if s.len() > 0 {
        let rest = s.drop_last();
        lemma_filter_map(rest, f, p, q);
        assert(s.map_values(f).drop_last() =~= rest.map_values(f));
        assert(p(s.last()) == q(f(s.last())));
        assert(s.map_values(f).last() == f(s.last()));
        if p(s.last()) {
            assert(rest.filter(p).push(s.last()).map_values(f) =~= rest.filter(p).map_values(
                f,
            ).push(f(s.last())));
        }
    }
    assert(s.filter(p).map_values(f) =~= s.map_values(f).filter(q));
}

/// Whether a list of stages holds the given one.
pub(crate) fn has_stage(ids: &Vec<StageId>, id: StageId) -> (b: bool)
    ensures
        b == ids@.contains(id),
{
    let mut i: usize = 0;
    while i < ids.len()
        invariant
            i <= ids@.len(),
            forall|k: int| 0 <= k < i ==> ids@[k] != id,
        decreases ids@.len() - i,
    {
        if ids[i].0 == id.0 {
            assert(ids@[i as int] == id);
            return true;
        }
        i = i + 1;
    }
    false
}

/// Whether a list holds the given index.
fn has_index(list: &Vec<usize>, x: usize) -> (b: bool)
    ensures
        b == list@.contains(x),
{
    let mut i: usize = 0;
    while i < list.len()
        invariant
            i <= list@.len(),
            forall|k: int| 0 <= k < i ==> list@[k] != x,
        decreases list@.len() - i,
    {
        if list[i] == x {
            return true;
        }
        i = i + 1;
    }
    false
}

/// The list holds just the operators that take part.
pub open spec fn lists_parts(
    members: Seq<usize>,
    stages: Seq<StageInfo>,
    ids: Seq<StageId>,
) -> bool {
    forall|op: usize| #[trigger] members.contains(op) <==> takes_part(stages, ids, op)
}

/// The operators of the given stages.
pub(crate) fn collect_members(stages: &Vec<StageInfo>, ids: &Vec<StageId>) -> (members: Vec<usize>)
    ensures
        lists_parts(members@, stages@, ids@),
{
    let mut members: Vec<usize> = Vec::new();
    let mut s: usize = 0;
    while s < stages.len()
        invariant
            s <= stages@.len(),
            lists_parts(members@, stages@.take(s as int), ids@),
        decreases stages@.len() - s,
    {
        let ghost start = members@;
        let ghost stage = stages@[s as int];
        let ghost more = stages@.take(s + 1);
        proof {
            assert(more[s as int] == stage);
        }
        if has_stage(ids, stages[s].id) {
            let mut own: Vec<usize> = stages[s].operator_indices.clone();
            let ghost added = own@;
            members.append(&mut own);
            proof {
                assert(added =~= stage.operator_indices@);
                assert forall|op: usize| #[trigger]
                    members@.contains(op) <==> takes_part(more, ids@, op) by {
                    if members@.contains(op) {
                        let k = choose|k: int| 0 <= k < members@.len() && members@[k] == op;
                        if k < start.len() {
                            assert(start[k] == op);
                            assert(start.contains(op));
                            lemma_takes_part_more(stages@, ids@, s as int, op);
                        } else {
                            assert(added[k - start.len()] == op);
                            assert(more[s as int].operator_indices@.contains(op));
                        }
                    }
                    if takes_part(more, ids@, op) {
                        let t = choose|t: int|
                            0 <= t < more.len() && ids@.contains((#[trigger] more[t]).id)
                                && more[t].operator_indices@.contains(op);
                        if t < s {
                            assert(stages@.take(s as int)[t] == more[t]);
                            assert(takes_part(stages@.take(s as int), ids@, op));
                            assert(start.contains(op));
                            let k = choose|k: int| 0 <= k < start.len() && start[k] == op;
                            assert(members@[k] == op);
                        } else {
                            let k = choose|k: int| 0 <= k < added.len() && added[k] == op;
                            assert(members@[start.len() + k] == op);
                        }
                    }
                }
            }
        } else {
            proof {
                assert forall|op: usize| #[trigger]
                    members@.contains(op) <==> takes_part(more, ids@, op) by {
                    if members@.contains(op) {
                        lemma_takes_part_more(stages@, ids@, s as int, op);
                    }
                    if takes_part(more, ids@, op) {
                        let t = choose|t: int|
                            0 <= t < more.len() && ids@.contains((#[trigger] more[t]).id)
                                && more[t].operator_indices@.contains(op);
                        assert(t < s);
                        assert(stages@.take(s as int)[t] == more[t]);
                        assert(takes_part(stages@.take(s as int), ids@, op));
                    }
                }
            }
        }
        s = s + 1;
    }
    assert(stages@.take(s as int) =~= stages@);
    members
}

proof fn lemma_takes_part_more(stages: Seq<StageInfo>, ids: Seq<StageId>, s: int, op: usize)
    requires
        0 <= s < stages.len(),
        takes_part(stages.take(s), ids, op),
    ensures
        takes_part(stages.take(s + 1), ids, op),
{
    let few = stages.take(s);
    let t = choose|t: int|
        0 <= t < few.len() && ids.contains((#[trigger] few[t]).id)
            && few[t].operator_indices@.contains(op);
    assert(stages.take(s + 1)[t] == few[t]);
}

/// Which edges are kept. `members` lists the operators that take part.
pub(crate) fn edges_to_keep(
    edges: &Vec<EdgeInfo>,
    stages: &Vec<StageInfo>,
    ids: &Vec<StageId>,
    members: &Vec<usize>,
) -> (keep: Vec<bool>)
    requires
        lists_parts(members@, stages@, ids@),
    ensures
        keep@ == edges@.map_values(|e: EdgeInfo| keeps_edge(stages@, ids@, e)),
{
    let mut keep: Vec<bool> = Vec::new();
    let mut i: usize = 0;
    while i < edges.len()
        invariant
            lists_parts(members@, stages@, ids@),
            i <= edges@.len(),
            keep@.len() == i,
            forall|k: int|
                0 <= k < i ==> #[trigger] keep@[k] == keeps_edge(stages@, ids@, edges@[k]),
        decreases edges@.len() - i,
    {
        let e = &edges[i];
        let b = if e.is_exchange() {
            has_stage(ids, e.source_region) || has_stage(ids, e.target_region)
        } else {
            has_index(members, e.source.operator_index) && has_index(
                members,
                e.target.operator_index,
            )
        };
        keep.push(b);
        i = i + 1;
    }
    assert(keep@ =~= edges@.map_values(|e: EdgeInfo| keeps_edge(stages@, ids@, e)));
    keep
}

/// Which of the edges that close loops are kept. `members` lists the operators that take part.
pub(crate) fn feedback_to_keep(
    edges: &Vec<EdgeInfo>,
    stages: &Vec<StageInfo>,
    ids: &Vec<StageId>,
    members: &Vec<usize>,
) -> (keep: Vec<bool>)
    requires
        lists_parts(members@, stages@, ids@),
    ensures
        keep@ == edges@.map_values(|e: EdgeInfo| joins_parts(stages@, ids@, e)),
{
    let mut keep: Vec<bool> = Vec::new();
    let mut i: usize = 0;
    while i < edges.len()
        invariant
            lists_parts(members@, stages@, ids@),
            i <= edges@.len(),
            keep@.len() == i,
            forall|k: int|
                0 <= k < i ==> #[trigger] keep@[k] == joins_parts(stages@, ids@, edges@[k]),
        decreases edges@.len() - i,
    {
        let e = &edges[i];
        let b = has_index(members, e.source.operator_index) && has_index(
            members,
            e.target.operator_index,
        );
        keep.push(b);
        i = i + 1;
    }
    assert(keep@ =~= edges@.map_values(|e: EdgeInfo| joins_parts(stages@, ids@, e)));
    keep
}

/// The entries whose operators are listed.
pub(crate) fn keep_listed<X>(entries: Vec<(usize, X)>, members: &Vec<usize>) -> (out: Vec<
    (usize, X),
>)
    ensures
        out@ == entries@.filter(|e: (usize, X)| members@.contains(e.0)),
{
    let ghost given = entries@;
    let ghost p = |e: (usize, X)| members@.contains(e.0);
    let mut out: Vec<(usize, X)> = Vec::new();
    proof {
        reveal(Seq::filter);
        assert(given.take(0).filter(p) =~= Seq::<(usize, X)>::empty());
    }
    for entry in it: entries
        invariant
            it.seq() == given,
            p == (|e: (usize, X)| members@.contains(e.0)),
            out@ == given.take(it.index() as int).filter(p),
    {
        let ghost k = it.index() as int;
        proof {
            reveal(Seq::filter);
            assert(given.take(k + 1).drop_last() =~= given.take(k));
            assert(given.take(k + 1).last() == entry);
        }
        if has_index(members, entry.0) {
            out.push(entry);
        }
    }
    assert(given.take(given.len() as int) =~= given);
    out
}

/// The ports whose operators are listed.
pub(crate) fn keep_ports(ports: Vec<PortInfo>, members: &Vec<usize>) -> (out: Vec<PortInfo>)
    ensures
        out@ == ports@.filter(|p: PortInfo| members@.contains(p.operator_index)),
{
    let ghost given = ports@;
    let ghost p = |p: PortInfo| members@.contains(p.operator_index);
    let mut out: Vec<PortInfo> = Vec::new();
    proof {
        reveal(Seq::filter);
        assert(given.take(0).filter(p) =~= Seq::<PortInfo>::empty());
    }
    for port in it: ports
        invariant
            it.seq() == given,
            p == (|p: PortInfo| members@.contains(p.operator_index)),
            out@ == given.take(it.index() as int).filter(p),
    {
        let ghost k = it.index() as int;
        proof {
            reveal(Seq::filter);
            assert(given.take(k + 1).drop_last() =~= given.take(k));
            assert(given.take(k + 1).last() == port);
        }
        if has_index(members, port.operator_index) {
            out.push(port);
        }
    }
    assert(given.take(given.len() as int) =~= given);
    out
}

/// The listed operators.
pub(crate) fn keep_indices(indices: &Vec<usize>, members: &Vec<usize>) -> (out: Vec<usize>)
    ensures
        out@ == indices@.filter(|i: usize| members@.contains(i)),
{
    let ghost given = indices@;
    let ghost p = |i: usize| members@.contains(i);
    let mut out: Vec<usize> = Vec::new();
    let mut k: usize = 0;
    proof {
        reveal(Seq::filter);
        assert(given.take(0).filter(p) =~= Seq::<usize>::empty());
    }
    while k < indices.len()
        invariant
            k <= indices@.len(),
            given == indices@,
            p == (|i: usize| members@.contains(i)),
            out@ == given.take(k as int).filter(p),
        decreases indices@.len() - k,
    {
        proof {
            reveal(Seq::filter);
            assert(given.take(k + 1).drop_last() =~= given.take(k as int));
            assert(given.take(k + 1).last() == given[k as int]);
        }
        if has_index(members, indices[k]) {
            out.push(indices[k]);
        }
        k = k + 1;
    }
    assert(given.take(k as int) =~= given);
    out
}

/// How many of the first `n` edges are kept.
fn kept_before(keep: &Vec<bool>, n: usize) -> (count: usize)
    requires
        n <= keep@.len(),
    ensures
        count == wanted_before(keep@, n as int),
        count <= n,
{
    let mut count: usize = 0;
    let mut i: usize = 0;
    while i < n
        invariant
            count <= i <= n <= keep@.len(),
            count == wanted_before(keep@, i as int),
        decreases n - i,
    {
        if keep[i] {
            count = count + 1;
        }
        i = i + 1;
    }
    count
}

/// The exchanges on edges that are kept, with the new numbers of their edges.
pub(crate) fn keep_exchanges(exchanges: Vec<ExchangeInfo>, edges: &Vec<bool>) -> (out: Vec<
    ExchangeInfo,
>)
    requires
        forall|k: int|
            0 <= k < exchanges@.len() ==> (#[trigger] exchanges@[k]).edge_index < edges@.len(),
    ensures
        exchange_views(out@) == kept_exchanges(exchange_views(exchanges@), edges@),
{
    let ghost given = exchanges@;
    let ghost views = exchange_views(given);
    let ghost keep = edges@;
    let ghost p = |x: (usize, usize, BoxedPlan, Seq<char>)| keep[x.0 as int];
    let mut out: Vec<ExchangeInfo> = Vec::new();
    proof {
        reveal(Seq::filter);
        assert(views.take(0).filter(p) =~= Seq::<(usize, usize, BoxedPlan, Seq<char>)>::empty());
        assert(exchange_views(out@) =~= kept_exchanges(views.take(0), keep));
    }
    for entry in it: exchanges
        invariant
            it.seq() == given,
            views == exchange_views(given),
            keep == edges@,
            p == (|x: (usize, usize, BoxedPlan, Seq<char>)| keep[x.0 as int]),
            forall|k: int|
                0 <= k < given.len() ==> (#[trigger] given[k]).edge_index < edges@.len(),
            exchange_views(out@) == kept_exchanges(views.take(it.index() as int), keep),
    {
        let ghost k = it.index() as int;
        let ghost before = out@;
        assert(given[k] == entry);
        proof {
            reveal(Seq::filter);
            assert(views.take(k + 1).drop_last() =~= views.take(k));
            assert(views.take(k + 1).last() == views[k]);
        }
        if edges[entry.edge_index] {
            let edge_index: usize = kept_before(edges, entry.edge_index);
            out.push(ExchangeInfo { edge_index, ..entry });
            proof {
                assert(views.take(k + 1).filter(p) =~= views.take(k).filter(p).push(views[k]));
                let item = (edge_index, entry.capacity, entry.plan, entry.name@);
                assert(exchange_views(out@) =~= exchange_views(before).push(item));
                assert(kept_exchanges(views.take(k + 1), keep) =~= kept_exchanges(
                    views.take(k),
                    keep,
                ).push(item));
            }
        } else {
            assert(views.take(k + 1).filter(p) =~= views.take(k).filter(p));
        }
    }
    assert(views.take(views.len() as int) =~= views);
    out
}

/// The given stages.
pub(crate) fn keep_stages(stages: Vec<StageInfo>, ids: &Vec<StageId>) -> (out: Vec<StageInfo>)
    ensures
        out@ == stages@.filter(|s: StageInfo| ids@.contains(s.id)),
{
    let ghost given = stages@;
    let ghost p = |s: StageInfo| ids@.contains(s.id);
    let mut out: Vec<StageInfo> = Vec::new();
    proof {
        reveal(Seq::filter);
        assert(given.take(0).filter(p) =~= Seq::<StageInfo>::empty());
    }
    for stage in it: stages
        invariant
            it.seq() == given,
            p == (|s: StageInfo| ids@.contains(s.id)),
            out@ == given.take(it.index() as int).filter(p),
    {
        let ghost k = it.index() as int;
        proof {
            reveal(Seq::filter);
            assert(given.take(k + 1).drop_last() =~= given.take(k));
            assert(given.take(k + 1).last() == stage);
        }
        if has_stage(ids, stage.id) {
            out.push(stage);
        }
    }
    assert(given.take(given.len() as int) =~= given);
    out
}

/// The channels that are kept, numbered anew in their order.
pub(crate) fn keep_channels(
    factories: Vec<(usize, BoxedChannelFactory)>,
    edges: &Vec<bool>,
    feedback: &Vec<bool>,
) -> (out: Vec<(usize, BoxedChannelFactory)>)
    requires
        factories@.len() == edges@.len() + feedback@.len(),
        all_ready(factories@),
    ensures
        all_ready(out@),
        opened_by(out@) == renumbered(select(opened_by(factories@), edges@ + feedback@, true)),
{
    let ghost given = factories@;
    let ghost keep = edges@ + feedback@;
    let ghost views = opened_by(given);
    let mut out: Vec<(usize, BoxedChannelFactory)> = Vec::new();
    let mut i: usize = 0;
    let n: usize = factories.len();
    proof {
        assert(views.take(0) =~= Seq::<(usize, Line)>::empty());
    }
    for entry in it: factories
        invariant
            it.seq() == given,
            i == it.index(),
            n == given.len(),
            all_ready(given),
            all_ready(out@),
            given.len() == edges@.len() + feedback@.len(),
            keep == edges@ + feedback@,
            views == opened_by(given),
            out@.len() == select(views.take(i as int), keep, true).len(),
            out@.len() <= i,
            forall|k: int|
                0 <= k < out@.len() ==> (#[trigger] out@[k]).0 == k && out@[k].1.line()
                    == select(views.take(i as int), keep, true)[k].1,
    {
        proof {
            assert(given[i as int] == entry);
            assert(views.take(i + 1).drop_last() =~= views.take(i as int));
            assert(views.take(i + 1).last() == (entry.0, entry.1.line()));
        }
        let wanted = if i < edges.len() {
            edges[i]
        } else {
            feedback[i - edges.len()]
        };
        assert(wanted == keep[i as int]);
        if wanted {
            let position: usize = out.len();
            out.push((position, entry.1));
        }
        i = i + 1;
    }
    proof {
        assert(views.take(i as int) =~= views);
        assert(opened_by(out@) =~= renumbered(select(views, keep, true)));
    }
    out
}

/// The views of what is kept are the views that are kept.
pub(crate) proof fn lemma_kept_views<T: Timestamp>(
    factories: Seq<(usize, BoxedOperatorFactory<T>)>,
    ports: Seq<PortInfo>,
    probes: Seq<(usize, ProbeHandle<T>)>,
    members: Seq<usize>,
    stages: Seq<StageInfo>,
    ids: Seq<StageId>,
)
    requires
        lists_parts(members, stages, ids),
    ensures
        made_by(
            factories.filter(|e: (usize, BoxedOperatorFactory<T>)| members.contains(e.0)),
        ) == made_by(factories).filter(
            |o: (usize, Option<(usize, Seq<char>, Duty)>)|
                takes_part(stages, ids, o.0),
        ),
        port_views(ports.filter(|p: PortInfo| members.contains(p.operator_index))) == port_views(
            ports,
        ).filter(|p: (Seq<char>, usize)| takes_part(stages, ids, p.1)),
        probes.filter(|e: (usize, ProbeHandle<T>)| members.contains(e.0)).map_values(
            |p: (usize, ProbeHandle<T>)| p.0,
        ) == probes.map_values(|p: (usize, ProbeHandle<T>)| p.0).filter(
            |i: usize| takes_part(stages, ids, i),
        ),
{
    lemma_filter_map(
        factories,
        |f: (usize, BoxedOperatorFactory<T>)| (f.0, f.1.makes()),
        |e: (usize, BoxedOperatorFactory<T>)| members.contains(e.0),
        |o: (usize, Option<(usize, Seq<char>, Duty)>)| takes_part(stages, ids, o.0),
    );
    lemma_filter_map(
        ports,
        |p: PortInfo| (p.name@, p.operator_index),
        |p: PortInfo| members.contains(p.operator_index),
        |p: (Seq<char>, usize)| takes_part(stages, ids, p.1),
    );
    lemma_filter_map(
        probes,
        |p: (usize, ProbeHandle<T>)| p.0,
        |e: (usize, ProbeHandle<T>)| members.contains(e.0),
        |i: usize| takes_part(stages, ids, i),
    );
}

} // verus!
