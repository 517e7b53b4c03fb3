//! Finding the stages of a dataflow.

use vstd::prelude::*;
use crate::error::{Error, Result};
use crate::graph::{ChannelKind, DataflowGraph, EdgeInfo, GraphView};
use crate::stage::{FusedActivationOrder, StageId, StageInfo};
use crate::topology::{settles, settling_order};

verus! {

/// A pipeline edge between two of the operators.
pub open spec fn binds(ops: Seq<usize>, e: EdgeInfo) -> bool {
    &&& e.kind is Pipeline
    &&& ops.contains(e.source.operator_index)
    &&& ops.contains(e.target.operator_index)
}

/// Two operators are the same, or pipeline edges among the first `k` ones connect them, in whatever
/// direction.
pub open spec fn connected(ops: Seq<usize>, edges: Seq<EdgeInfo>, k: nat, a: usize, b: usize) -> bool
    decreases k,
{
    if k == 0 {
        a == b
    } else {
        let j = (k - 1) as nat;
        let e = edges[k - 1];
        let s = e.source.operator_index;
        let t = e.target.operator_index;
        ||| connected(ops, edges, j, a, b)
        ||| binds(ops, e) && (connected(ops, edges, j, a, s) || connected(ops, edges, j, a, t)) && (
        connected(ops, edges, j, b, s) || connected(ops, edges, j, b, t))
    }
}

/// Being connected is an equivalence.
pub proof fn connection_is_an_equivalence(
    ops: Seq<usize>,
    edges: Seq<EdgeInfo>,
    k: nat,
    a: usize,
    b: usize,
    c: usize,
)
    ensures
        connected(ops, edges, k, a, a),
        connected(ops, edges, k, a, b) ==> connected(ops, edges, k, b, a),
        connected(ops, edges, k, a, b) && connected(ops, edges, k, b, c) ==> connected(
            ops,
            edges,
            k,
            a,
            c,
        ),
    decreases k,
{
    if k > 0 {
        let e = edges[k - 1];
        let s = e.source.operator_index;
        let t = e.target.operator_index;
        let j = (k - 1) as nat;
        connection_is_an_equivalence(ops, edges, j, a, b, c);
        connection_is_an_equivalence(ops, edges, j, b, a, c);
        connection_is_an_equivalence(ops, edges, j, a, b, s);
        connection_is_an_equivalence(ops, edges, j, a, b, t);
        connection_is_an_equivalence(ops, edges, j, b, a, s);
        connection_is_an_equivalence(ops, edges, j, b, a, t);
        connection_is_an_equivalence(ops, edges, j, c, b, s);
        connection_is_an_equivalence(ops, edges, j, c, b, t);
        connection_is_an_equivalence(ops, edges, j, b, c, s);
        connection_is_an_equivalence(ops, edges, j, b, c, t);
    }
}

/// The ends of each pipeline edge are connected.
pub proof fn pipeline_edges_connect(ops: Seq<usize>, edges: Seq<EdgeInfo>, k: nat, i: int)
    requires
        0 <= i < k <= edges.len(),
        binds(ops, edges[i]),
    ensures
        connected(
            ops,
            edges,
            k,
            edges[i].source.operator_index,
            edges[i].target.operator_index,
        ),
    decreases k,
{
    let e = edges[i];
    let s = e.source.operator_index;
    let t = e.target.operator_index;
    let j = (k - 1) as nat;
    if i == j {
        connection_is_an_equivalence(ops, edges, j, s, s, s);
        connection_is_an_equivalence(ops, edges, j, t, t, t);
    } else {
        pipeline_edges_connect(ops, edges, j, i);
    }
}

/// All pipeline edges are considered.
pub open spec fn in_one_stage(ops: Seq<usize>, edges: Seq<EdgeInfo>, a: usize, b: usize) -> bool {
    connected(ops, edges, edges.len(), a, b)
}

/// The first group whose first operator is connected to `op`, or the number of groups.
pub open spec fn group_of(ops: Seq<usize>, edges: Seq<EdgeInfo>, groups: Seq<Seq<usize>>, op: usize) -> int
    decreases groups.len(),
{
    if groups.len() == 0 || in_one_stage(ops, edges, groups[0][0], op) {
        0
    } else {
        1 + group_of(ops, edges, groups.drop_first(), op)
    }
}

/// The operator joins the group that it is connected to, or starts one of its own.
pub open spec fn with_member(
    ops: Seq<usize>,
    edges: Seq<EdgeInfo>,
    groups: Seq<Seq<usize>>,
    op: usize,
) -> Seq<Seq<usize>> {
    let g = group_of(ops, edges, groups, op);
    if g < groups.len() {
        groups.update(g, groups[g].push(op))
    } else {
        groups.push(seq![op])
    }
}

/// The first `k` operators, grouped: groups in the order of their first operators, and in each group
/// the operators in their order.
pub open spec fn groups(ops: Seq<usize>, edges: Seq<EdgeInfo>, k: nat) -> Seq<Seq<usize>>
    decreases k,
{
    if k == 0 {
        Seq::empty()
    } else {
        with_member(ops, edges, groups(ops, edges, (k - 1) as nat), ops[k - 1])
    }
}

/// Groups of connected operators that are not connected to each other.
spec fn sorted_out(
    ops: Seq<usize>,
    edges: Seq<EdgeInfo>,
    gs: Seq<Seq<usize>>,
    members: Seq<usize>,
) -> bool {
    &&& forall|g: int| 0 <= g < gs.len() ==> (#[trigger] gs[g]).len() > 0
    &&& forall|g: int, i: int|
        0 <= g < gs.len() && 0 <= i < gs[g].len() ==> in_one_stage(
            ops,
            edges,
            gs[g][0],
            #[trigger] gs[g][i],
        ) && members.contains(gs[g][i])
    &&& forall|g: int, h: int|
        0 <= g < h < gs.len() ==> !in_one_stage(
            ops,
            edges,
            (#[trigger] gs[g])[0],
            (#[trigger] gs[h])[0],
        )
    &&& forall|x: usize| #[trigger]
        members.contains(x) ==> exists|g: int| 0 <= g < gs.len() && (#[trigger] gs[g]).contains(x)
}

proof fn lemma_group_of(ops: Seq<usize>, edges: Seq<EdgeInfo>, gs: Seq<Seq<usize>>, op: usize)
    ensures
        0 <= group_of(ops, edges, gs, op) <= gs.len(),
        group_of(ops, edges, gs, op) < gs.len() ==> in_one_stage(
            ops,
            edges,
            gs[group_of(ops, edges, gs, op)][0],
            op,
        ),
        forall|g: int|
            0 <= g < group_of(ops, edges, gs, op) ==> !in_one_stage(
                ops,
                edges,
                (#[trigger] gs[g])[0],
                op,
            ),
    decreases gs.len(),
{
    if gs.len() > 0 && !in_one_stage(ops, edges, gs[0][0], op) {
        let rest = gs.drop_first();
        lemma_group_of(ops, edges, rest, op);
        assert forall|g: int| 0 <= g < group_of(ops, edges, gs, op) implies !in_one_stage(
            ops,
            edges,
            (#[trigger] gs[g])[0],
            op,
        ) by {
            if g > 0 {
                assert(rest[g - 1] == gs[g]);
            }
        }
    }
}

proof fn lemma_with_member(
    ops: Seq<usize>,
    edges: Seq<EdgeInfo>,
    gs: Seq<Seq<usize>>,
    members: Seq<usize>,
    op: usize,
)
    requires
        sorted_out(ops, edges, gs, members),
    ensures
        sorted_out(ops, edges, with_member(ops, edges, gs, op), members.push(op)),
{
    lemma_group_of(ops, edges, gs, op);
    let at = group_of(ops, edges, gs, op);
    let hs = with_member(ops, edges, gs, op);
    let more = members.push(op);
    connection_is_an_equivalence(ops, edges, edges.len(), op, op, op);
    assert forall|x: usize| members.contains(x) implies more.contains(x) by {
        let i = choose|i: int| 0 <= i < members.len() && members[i] == x;
        assert(more[i] == x);
    }
    assert(more[members.len() as int] == op);
    assert forall|g: int| 0 <= g < hs.len() implies (#[trigger] hs[g]).len() > 0 by {
        if g < gs.len() {
            assert(gs[g].len() > 0);
        }
    }
    assert forall|g: int, i: int| 0 <= g < hs.len() && 0 <= i < hs[g].len() implies in_one_stage(
        ops,
        edges,
        hs[g][0],
        #[trigger] hs[g][i],
    ) && more.contains(hs[g][i]) by {
        if g < gs.len() {
            assert(gs[g].len() > 0);
            assert(hs[g][0] == gs[g][0]);
            if i < gs[g].len() {
                assert(hs[g][i] == gs[g][i]);
            }
        }
    }
    assert forall|g: int, h: int| 0 <= g < h < hs.len() implies !in_one_stage(
        ops,
        edges,
        (#[trigger] hs[g])[0],
        (#[trigger] hs[h])[0],
    ) by {
        assert(gs[g].len() > 0);
        assert(hs[g][0] == gs[g][0]);
        if h < gs.len() {
            assert(gs[h].len() > 0);
            assert(hs[h][0] == gs[h][0]);
            assert(!in_one_stage(ops, edges, gs[g][0], gs[h][0]));
        }
    }
    assert forall|x: usize| #[trigger] more.contains(x) implies exists|g: int|
        0 <= g < hs.len() && (#[trigger] hs[g]).contains(x) by {
        if members.contains(x) {
            let g = choose|g: int| 0 <= g < gs.len() && (#[trigger] gs[g]).contains(x);
            let i = choose|i: int| 0 <= i < gs[g].len() && gs[g][i] == x;
            assert(hs[g][i] == x);
            assert(hs[g].contains(x));
        } else {
            let i = choose|i: int| 0 <= i < more.len() && more[i] == x;
            assert(i == members.len());
            if at < gs.len() {
                assert(hs[at][gs[at].len() as int] == x);
                assert(hs[at].contains(x));
            } else {
                assert(hs[at][0] == x);
                assert(hs[at].contains(x));
            }
        }
    }
}

proof fn lemma_groups(ops: Seq<usize>, edges: Seq<EdgeInfo>, k: nat)
    requires
        k <= ops.len(),
    ensures
        sorted_out(ops, edges, groups(ops, edges, k), ops.take(k as int)),
    decreases k,
{
    if k == 0 {
        assert(ops.take(0) =~= Seq::<usize>::empty());
    } else {
        lemma_groups(ops, edges, (k - 1) as nat);
        lemma_with_member(
            ops,
            edges,
            groups(ops, edges, (k - 1) as nat),
            ops.take(k - 1),
            ops[k - 1],
        );
        assert(ops.take(k as int) =~= ops.take(k - 1).push(ops[k - 1]));
    }
}

/// Every operator is in a stage, and two operators are in the same stage exactly if pipeline edges
/// connect them.
pub proof fn stages_are_the_connected_parts(ops: Seq<usize>, edges: Seq<EdgeInfo>, a: usize, b: usize)
    requires
        ops.contains(a),
        ops.contains(b),
    ensures
        exists|g: int|
            0 <= g < groups(ops, edges, ops.len()).len() && (#[trigger] groups(
                ops,
                edges,
                ops.len(),
            )[g]).contains(a),
        in_one_stage(ops, edges, a, b) <==> exists|g: int|
            0 <= g < groups(ops, edges, ops.len()).len() && (#[trigger] groups(
                ops,
                edges,
                ops.len(),
            )[g]).contains(a) && groups(ops, edges, ops.len())[g].contains(b),
{
    let gs = groups(ops, edges, ops.len());
    lemma_groups(ops, edges, ops.len());
    assert(ops.take(ops.len() as int) =~= ops);
    let g = choose|g: int| 0 <= g < gs.len() && (#[trigger] gs[g]).contains(a);
    let h = choose|h: int| 0 <= h < gs.len() && (#[trigger] gs[h]).contains(b);
    let i = choose|i: int| 0 <= i < gs[g].len() && gs[g][i] == a;
    let j = choose|j: int| 0 <= j < gs[h].len() && gs[h][j] == b;
    let n = edges.len();
    let x = gs[g][0];
    let y = gs[h][0];
    assert(in_one_stage(ops, edges, x, gs[g][i]));
    assert(in_one_stage(ops, edges, y, gs[h][j]));
    connection_is_an_equivalence(ops, edges, n, x, a, b);
    connection_is_an_equivalence(ops, edges, n, y, b, x);
    connection_is_an_equivalence(ops, edges, n, b, y, x);
    connection_is_an_equivalence(ops, edges, n, x, b, y);
    connection_is_an_equivalence(ops, edges, n, x, y, x);
    connection_is_an_equivalence(ops, edges, n, y, x, y);
    connection_is_an_equivalence(ops, edges, n, a, x, b);
    if in_one_stage(ops, edges, a, b) {
        assert(in_one_stage(ops, edges, x, b));
        assert(in_one_stage(ops, edges, x, y));
        assert(g == h) by {
            if g < h {
                assert(!in_one_stage(ops, edges, gs[g][0], gs[h][0]));
            } else if h < g {
                assert(!in_one_stage(ops, edges, gs[h][0], gs[g][0]));
            }
        }
        assert(gs[g].contains(a) && gs[g].contains(b));
    }
    if exists|f: int| 0 <= f < gs.len() && (#[trigger] gs[f]).contains(a) && gs[f].contains(b) {
        let f = choose|f: int|
            0 <= f < gs.len() && (#[trigger] gs[f]).contains(a) && gs[f].contains(b);
        let p = choose|p: int| 0 <= p < gs[f].len() && gs[f][p] == a;
        let q = choose|q: int| 0 <= q < gs[f].len() && gs[f][q] == b;
        let z = gs[f][0];
        assert(in_one_stage(ops, edges, z, gs[f][p]));
        assert(in_one_stage(ops, edges, z, gs[f][q]));
        connection_is_an_equivalence(ops, edges, n, z, a, b);
        connection_is_an_equivalence(ops, edges, n, a, z, b);
    }
}

/// A stage holds the operators that are connected to its first one, in the order in which they are
/// given, and the stages are in the order of their first operators.
pub proof fn stages_keep_the_order(ops: Seq<usize>, edges: Seq<EdgeInfo>, k: nat, g: int)
    requires
        k <= ops.len(),
        0 <= g < groups(ops, edges, k).len(),
    ensures
        groups(ops, edges, k)[g].len() > 0,
        groups(ops, edges, k)[g] == ops.take(k as int).filter(
            |x: usize| in_one_stage(ops, edges, groups(ops, edges, k)[g][0], x),
        ),
        groups(ops, edges, k)[0][0] == ops[0],
    decreases k,
{
    reveal(Seq::filter);
    let gs = groups(ops, edges, k);
    let j = (k - 1) as nat;
    let before = groups(ops, edges, j);
    let op = ops[k - 1];
    let at = group_of(ops, edges, before, op);
    lemma_groups(ops, edges, j);
    lemma_group_of(ops, edges, before, op);
    let part = ops.take(k as int);
    assert(part.drop_last() =~= ops.take(j as int));
    assert(part.last() == op);
    let n = edges.len();
    connection_is_an_equivalence(ops, edges, n, op, op, op);
    if j > 0 {
        assert(before.len() > 0) by {
            assert(ops.take(j as int).contains(ops[0])) by {
                assert(ops.take(j as int)[0] == ops[0]);
            }
        }
        stages_keep_the_order(ops, edges, j, if g < before.len() {
            g
        } else {
            0
        });
        assert(before[0].len() > 0);
    }
    let head = gs[g][0];
    let mine = |x: usize| in_one_stage(ops, edges, head, x);
    if g < before.len() {
        assert(before[g].len() > 0);
        assert(head == before[g][0]);
        if g == at {
            assert(mine(op));
        } else {
            assert(!mine(op)) by {
                if g > at {
                    connection_is_an_equivalence(ops, edges, n, before[at][0], op, head);
                    connection_is_an_equivalence(ops, edges, n, head, op, before[at][0]);
                    assert(!in_one_stage(ops, edges, before[at][0], before[g][0]));
                }
            }
        }
    } else {
        assert(head == op);
        assert forall|i: int| 0 <= i < j implies !mine(#[trigger] ops.take(j as int)[i]) by {
            let x = ops.take(j as int)[i];
            assert(ops.take(j as int).contains(x));
            let h = choose|h: int| 0 <= h < before.len() && (#[trigger] before[h]).contains(x);
            let m = choose|m: int| 0 <= m < before[h].len() && before[h][m] == x;
            assert(in_one_stage(ops, edges, before[h][0], before[h][m]));
            assert(!in_one_stage(ops, edges, before[h][0], op));
            connection_is_an_equivalence(ops, edges, n, before[h][0], x, op);
            connection_is_an_equivalence(ops, edges, n, op, x, x);
        }
        lemma_none_left(ops.take(j as int), mine);
        assert(part.filter(mine) =~= seq![op]);
        assert(gs[g] =~= seq![op]);
    }
}

proof fn lemma_none_left(s: Seq<usize>, p: spec_fn(usize) -> bool)
    requires
        forall|i: int| 0 <= i < s.len() ==> !p(#[trigger] s[i]),
    ensures
        s.filter(p) == Seq::<usize>::empty(),
    decreases s.len(),
{
    reveal(Seq::filter);
    if s.len() > 0 {
        let less = s.drop_last();
        assert forall|i: int| 0 <= i < less.len() implies !p(#[trigger] less[i]) by {
            assert(less[i] == s[i]);
        }
        lemma_none_left(less, p);
        assert(!p(s[s.len() - 1]));
    }
}

/// The degree of parallelism of the first exchange edge into the members that fixes one.
pub open spec fn width_of(edges: Seq<EdgeInfo>, members: Seq<usize>) -> Option<usize>
    decreases edges.len(),
{
    if edges.len() == 0 {
        None
    } else {
        let first = edges[0];
        if first.kind is Exchange && members.contains(first.target.operator_index)
            && first.target_parallelism is Some {
            first.target_parallelism
        } else {
            width_of(edges.drop_first(), members)
        }
    }
}

/// The stage with number `i`.
pub open spec fn is_stage(s: StageInfo, i: int, members: Seq<usize>, edges: Seq<EdgeInfo>) -> bool {
    &&& s.id.0 == i
    &&& s.parallelism == width_of(edges, members)
    &&& s.operator_indices@ == members
    &&& s.fused_order.positions@ == members
}

/// The stages of a graph: the parts that pipeline edges connect, numbered in the order in which the
/// topological order reaches them, each with its operators in that order.
pub open spec fn are_stages(g: GraphView, stages: Seq<StageInfo>) -> bool {
    let ops = settling_order(g.operators.dom(), g.edges);
    let gs = groups(ops, g.edges, ops.len());
    &&& g.operators.dom().finite()
    &&& settles(g.operators.dom(), g.edges, ops)
    &&& stages.len() == gs.len()
    &&& forall|i: int|
        0 <= i < stages.len() ==> is_stage(#[trigger] stages[i], i, gs[i], g.edges)
}

fn position_in(list: &Vec<usize>, x: usize) -> (r: Option<usize>)
    ensures
        r matches Some(i) ==> i < list@.len() && list@[i as int] == x,
        r is Some <==> list@.contains(x),
{
    let mut i: usize = 0;
    while i < list.len()
        invariant
            i <= list@.len(),
            forall|k: int| 0 <= k < i ==> list@[k] != x,
        decreases list@.len() - i,
    {
        if list[i] == x {
            assert(list@.contains(x));
            return Some(i);
        }
        i = i + 1;
    }
    None
}

/// Labels that are the same exactly for connected operators.
fn connect(ops: &Vec<usize>, edges: &Vec<EdgeInfo>) -> (labels: Vec<usize>)
    requires
        ops@.no_duplicates(),
    ensures
        labels@.len() == ops@.len(),
        forall|i: int, j: int|
            #![trigger labels@[i], labels@[j]]
            0 <= i < ops@.len() && 0 <= j < ops@.len() ==> (labels@[i] == labels@[j]
                <==> in_one_stage(ops@, edges@, ops@[i], ops@[j])),
{
    let mut labels: Vec<usize> = Vec::new();
    let n: usize = ops.len();
    let mut p: usize = 0;
    while p < n
        invariant
            p <= n,
            n == ops@.len(),
            labels@ == ops@.take(p as int),
        decreases n - p,
    {
        labels.push(ops[p]);
        p = p + 1;
        assert(labels@ =~= ops@.take(p as int));
    }
    assert(labels@ =~= ops@);
    let mut k: usize = 0;
    while k < edges.len()
        invariant
            k <= edges@.len(),
            n == ops@.len(),
            labels@.len() == n,
            forall|i: int, j: int|
                #![trigger labels@[i], labels@[j]]
                0 <= i < n && 0 <= j < n ==> (labels@[i] == labels@[j] <==> connected(
                    ops@,
                    edges@,
                    k as nat,
                    ops@[i],
                    ops@[j],
                )),
        decreases edges@.len() - k,
    {
        let e = edges[k];
        let ghost before = labels@;
        let pipeline = match e.kind {
            ChannelKind::Pipeline => true,
            ChannelKind::Exchange => false,
        };
        let from = position_in(ops, e.source.operator_index);
        let to = position_in(ops, e.target.operator_index);
        let mut bound = false;
        match (pipeline, from, to) {
            (true, Some(s), Some(t)) => {
                bound = true;
                let keep: usize = labels[s];
                let gone: usize = labels[t];
                let mut i: usize = 0;
                while i < n
                    invariant
                        i <= n,
                        n == labels@.len(),
                        before.len() == n,
                        forall|q: int|
                            0 <= q < i ==> #[trigger] labels@[q] == if before[q] == gone {
                                keep
                            } else {
                                before[q]
                            },
                        forall|q: int| i <= q < n ==> #[trigger] labels@[q] == before[q],
                    decreases n - i,
                {
                    if labels[i] == gone {
                        labels.set(i, keep);
                    }
                    i = i + 1;
                }
                proof {
                    assert(binds(ops@, e));
                    assert forall|i: int, j: int|
                        #![trigger labels@[i], labels@[j]]
                        0 <= i < n && 0 <= j < n implies (labels@[i] == labels@[j] <==> connected(
                        ops@,
                        edges@,
                        (k + 1) as nat,
                        ops@[i],
                        ops@[j],
                    )) by {
                        assert(before[i] == before[j] <==> connected(
                            ops@,
                            edges@,
                            k as nat,
                            ops@[i],
                            ops@[j],
                        ));
                        assert(before[i] == before[s as int] <==> connected(
                            ops@,
                            edges@,
                            k as nat,
                            ops@[i],
                            ops@[s as int],
                        ));
                        assert(before[i] == before[t as int] <==> connected(
                            ops@,
                            edges@,
                            k as nat,
                            ops@[i],
                            ops@[t as int],
                        ));
                        assert(before[j] == before[s as int] <==> connected(
                            ops@,
                            edges@,
                            k as nat,
                            ops@[j],
                            ops@[s as int],
                        ));
                        assert(before[j] == before[t as int] <==> connected(
                            ops@,
                            edges@,
                            k as nat,
                            ops@[j],
                            ops@[t as int],
                        ));
                    }
                }
            },
            _ => {},
        }
        proof {
            if !bound {
                assert(!binds(ops@, e));
                assert forall|i: int, j: int|
                    #![trigger labels@[i], labels@[j]]
                    0 <= i < n && 0 <= j < n implies (labels@[i] == labels@[j] <==> connected(
                    ops@,
                    edges@,
                    (k + 1) as nat,
                    ops@[i],
                    ops@[j],
                )) by {
                    assert(before[i] == before[j] <==> connected(
                        ops@,
                        edges@,
                        k as nat,
                        ops@[i],
                        ops@[j],
                    ));
                }
            }
        }
        k = k + 1;
    }
    labels
}

fn find_width(edges: &Vec<EdgeInfo>, members: &Vec<usize>) -> (w: Option<usize>)
    ensures
        w == width_of(edges@, members@),
{
    let mut i: usize = 0;
    assert(edges@.skip(0) =~= edges@);
    while i < edges.len()
        invariant
            i <= edges@.len(),
            width_of(edges@, members@) == width_of(edges@.skip(i as int), members@),
        decreases edges@.len() - i,
    {
        let e = edges[i];
        proof {
            assert(edges@.skip(i as int)[0] == e);
            assert(edges@.skip(i as int).drop_first() =~= edges@.skip(i + 1));
        }
        let exchange = e.is_exchange();
        if exchange && e.target_parallelism.is_some() {
            if position_in(members, e.target.operator_index).is_some() {
                return e.target_parallelism;
            }
        }
        i = i + 1;
    }
    None
}

/// Lists of operators as sequences.
spec fn group_seqs(found: Seq<Vec<usize>>) -> Seq<Seq<usize>> {
    found.map_values(|g: Vec<usize>| g@)
}

/// Puts operators with the same label into one list.
fn collect_groups(ops: &Vec<usize>, edges: &Vec<EdgeInfo>) -> (found: Vec<Vec<usize>>)
    requires
        ops@.no_duplicates(),
    ensures
        group_seqs(found@) == groups(ops@, edges@, ops@.len() as nat),
{
    let labels = connect(ops, edges);
    let mut found: Vec<Vec<usize>> = Vec::new();
    // The position in `ops` of the first operator of each list.
    let mut firsts: Vec<usize> = Vec::new();
    let mut k: usize = 0;
    assert(group_seqs(found@) =~= Seq::<Seq<usize>>::empty());
    while k < ops.len()
        invariant
            k <= ops@.len(),
            labels@.len() == ops@.len(),
            forall|i: int, j: int|
                #![trigger labels@[i], labels@[j]]
                0 <= i < ops@.len() && 0 <= j < ops@.len() ==> (labels@[i] == labels@[j]
                    <==> in_one_stage(ops@, edges@, ops@[i], ops@[j])),
            group_seqs(found@) == groups(ops@, edges@, k as nat),
            firsts@.len() == found@.len(),
            forall|g: int|
                #![trigger found@[g]]
                #![trigger firsts@[g]]
                0 <= g < found@.len() ==> found@[g]@.len() > 0 && firsts@[g] < ops@.len()
                    && found@[g]@[0] == ops@[firsts@[g] as int],
        decreases ops@.len() - k,
    {
        let op: usize = ops[k];
        let ghost gs = group_seqs(found@);
        proof {
            lemma_group_of(ops@, edges@, gs, op);
        }
        let mut g: usize = 0;
        while g < found.len() && labels[firsts[g]] != labels[k]
            invariant
                g <= found@.len(),
                k < ops@.len(),
                op == ops@[k as int],
                labels@.len() == ops@.len(),
                firsts@.len() == found@.len(),
                gs == group_seqs(found@),
                forall|h: int|
                    #![trigger found@[h]]
                    #![trigger firsts@[h]]
                    0 <= h < found@.len() ==> found@[h]@.len() > 0 && firsts@[h] < ops@.len()
                        && found@[h]@[0] == ops@[firsts@[h] as int],
                forall|i: int, j: int|
                    #![trigger labels@[i], labels@[j]]
                    0 <= i < ops@.len() && 0 <= j < ops@.len() ==> (labels@[i] == labels@[j]
                        <==> in_one_stage(ops@, edges@, ops@[i], ops@[j])),
                forall|h: int|
                    0 <= h < g ==> !in_one_stage(ops@, edges@, (#[trigger] gs[h])[0], op),
            decreases found@.len() - g,
        {
            assert(gs[g as int][0] == found@[g as int]@[0]);
            g = g + 1;
        }
        proof {
            let at = group_of(ops@, edges@, gs, op);
            if g < found@.len() {
                assert(gs[g as int][0] == found@[g as int]@[0]);
                assert(in_one_stage(ops@, edges@, gs[g as int][0], op));
                if at < g {
                    assert(!in_one_stage(ops@, edges@, gs[at][0], op));
                }
                if g < at {
                    assert(!in_one_stage(ops@, edges@, gs[g as int][0], op));
                }
            } else if at < gs.len() {
                assert(!in_one_stage(ops@, edges@, gs[at][0], op));
            }
            assert(at == g);
        }
        if g < found.len() {
            found[g].push(op);
            assert(group_seqs(found@) =~= gs.update(g as int, gs[g as int].push(op)));
        } else {
            let mut one: Vec<usize> = Vec::new();
            one.push(op);
            assert(one@ =~= seq![op]);
            found.push(one);
            firsts.push(k);
            assert(group_seqs(found@) =~= gs.push(seq![op]));
        }
        k = k + 1;
    }
    found
}

fn copy_list(list: &Vec<usize>) -> (copy: Vec<usize>)
    ensures
        copy@ == list@,
{
    let mut copy: Vec<usize> = Vec::new();
    let mut i: usize = 0;
    while i < list.len()
        invariant
            i <= list@.len(),
            copy@ == list@.take(i as int),
        decreases list@.len() - i,
    {
        copy.push(list[i]);
        i = i + 1;
        assert(copy@ =~= list@.take(i as int));
    }
    assert(copy@ =~= list@);
    copy
}

/// Finds the stages of a graph. A cycle is an error.
pub fn infer_stages(graph: &DataflowGraph) -> (r: Result<Vec<StageInfo>>)
    ensures
        graph@.operators.dom().finite(),
        settles(
            graph@.operators.dom(),
            graph@.edges,
            settling_order(graph@.operators.dom(), graph@.edges),
        ),
        ({
            let order = settling_order(graph@.operators.dom(), graph@.edges);
            let total = graph@.operators.dom().len();
            match r {
                Ok(stages) => order.len() == total && are_stages(graph@, stages@),
                Err(e) => order.len() != total && e == (Error::CycleDetected {
                    processed: order.len() as usize,
                    total: total as usize,
                }),
            }
        }),
{
    let sorted = graph.topological_order();
    let ops = match sorted {
        Ok(ops) => ops,
        Err(e) => {
            return Err(e);
        },
    };
    let edges = graph.edges();
    let found = collect_groups(&ops, edges);
    let ghost gs = group_seqs(found@);
    let mut stages: Vec<StageInfo> = Vec::new();
    let mut i: usize = 0;
    while i < found.len()
        invariant
            i <= found@.len(),
            edges@ == graph@.edges,
            gs == group_seqs(found@),
            stages@.len() == i,
            forall|k: int|
                0 <= k < i ==> is_stage(#[trigger] stages@[k], k, gs[k], graph@.edges),
        decreases found@.len() - i,
    {
        let members = copy_list(&found[i]);
        let positions = copy_list(&found[i]);
        let parallelism = find_width(edges, &members);
        assert(gs[i as int] == found@[i as int]@);
        stages.push(
            StageInfo {
                id: StageId::new(i),
                parallelism,
                operator_indices: members,
                fused_order: FusedActivationOrder::new(positions),
            },
        );
        i = i + 1;
    }
    Ok(stages)
}

} // verus!
