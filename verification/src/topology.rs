//! Topological order of the operators of a graph.

use vstd::prelude::*;
use crate::graph::EdgeInfo;
use crate::ordered::{insert, position, strictly_increasing};

verus! {

/// A node of a graph: one of its operators, or an operator that an edge leads to.
pub open spec fn is_node(operators: Set<usize>, edges: Seq<EdgeInfo>, v: usize) -> bool {
    operators.contains(v) || exists|i: int|
        0 <= i < edges.len() && #[trigger] edges[i].target.operator_index == v
}

/// Every edge into `v` comes from a member of `settled`.
pub open spec fn is_free(edges: Seq<EdgeInfo>, settled: Seq<usize>, v: usize) -> bool {
    forall|i: int|
        0 <= i < edges.len() && edges[i].target.operator_index == v ==> settled.contains(
            (#[trigger] edges[i]).source.operator_index,
        )
}

/// One more than the last position in `order` from which an edge leads to `v`; zero if no edge
/// leads to `v`. It is how much of `order` has to be settled before `v` is free.
pub open spec fn free_after(edges: Seq<EdgeInfo>, order: Seq<usize>, v: usize) -> int
    decreases edges.len(),
{
    if edges.len() == 0 {
        0
    } else {
        let before = free_after(edges.drop_last(), order, v);
        let at = order.index_of(edges.last().source.operator_index) + 1;
        if edges.last().target.operator_index == v && at > before {
            at
        } else {
            before
        }
    }
}

/// The order in which a graph settles. Each node appears at most once and only when every edge
/// into it comes from an earlier one; a node is left out only while an edge into it comes from a
/// node that is left out or missing; and nodes stand in the order in which they become free,
/// those that become free together in the order of their indices.
pub open spec fn settles(operators: Set<usize>, edges: Seq<EdgeInfo>, order: Seq<usize>) -> bool {
    &&& order.no_duplicates()
    &&& forall|i: int| 0 <= i < order.len() ==> is_node(operators, edges, #[trigger] order[i])
    &&& forall|i: int| 0 <= i < order.len() ==> is_free(edges, order.take(i), #[trigger] order[i])
    &&& forall|v: usize| #[trigger]
        is_node(operators, edges, v) && is_free(edges, order, v) ==> order.contains(v)
    &&& forall|i: int, j: int|
        0 <= i < j < order.len() ==> comes_before(edges, order, #[trigger] order[i], #[trigger] order[j])
}

/// `a` becomes free before `b`, or with it and has the smaller index.
pub open spec fn comes_before(edges: Seq<EdgeInfo>, order: Seq<usize>, a: usize, b: usize) -> bool {
    let fa = free_after(edges, order, a);
    let fb = free_after(edges, order, b);
    fa < fb || (fa == fb && a < b)
}

/// How many edges into `v` come from outside `settled`.
spec fn pending(edges: Seq<EdgeInfo>, settled: Seq<usize>, v: usize) -> int
    decreases edges.len(),
{
    if edges.len() == 0 {
        0
    } else {
        let e = edges.last();
        pending(edges.drop_last(), settled, v) + if e.target.operator_index == v
            && !settled.contains(e.source.operator_index) {
            1int
        } else {
            0
        }
    }
}

proof fn lemma_pending_bounds(edges: Seq<EdgeInfo>, settled: Seq<usize>, v: usize)
    ensures
        0 <= pending(edges, settled, v) <= edges.len(),
    decreases edges.len(),
{
    if edges.len() > 0 {
        lemma_pending_bounds(edges.drop_last(), settled, v);
    }
}

proof fn lemma_pending_zero(edges: Seq<EdgeInfo>, settled: Seq<usize>, v: usize)
    ensures
        pending(edges, settled, v) == 0 <==> is_free(edges, settled, v),
    decreases edges.len(),
{
    if edges.len() > 0 {
        let rest = edges.drop_last();
        lemma_pending_zero(rest, settled, v);
        lemma_pending_bounds(rest, settled, v);
        if is_free(edges, settled, v) {
            assert forall|i: int|
                0 <= i < rest.len() && rest[i].target.operator_index == v implies settled.contains(
                (#[trigger] rest[i]).source.operator_index,
            ) by {
                assert(edges[i] == rest[i]);
            }
            assert(edges[edges.len() - 1] == edges.last());
        }
        if pending(edges, settled, v) == 0 {
            assert forall|i: int|
                0 <= i < edges.len() && edges[i].target.operator_index == v implies settled.contains(
                (#[trigger] edges[i]).source.operator_index,
            ) by {
                if i < rest.len() {
                    assert(rest[i] == edges[i]);
                }
            }
        }
    }
}

proof fn lemma_pending_step(edges: Seq<EdgeInfo>, settled: Seq<usize>, v: usize, k: int)
    requires
        0 <= k < edges.len(),
    ensures
        pending(edges.take(k + 1), settled, v) == pending(edges.take(k), settled, v) + if edges[k].target.operator_index
            == v && !settled.contains(edges[k].source.operator_index) {
            1int
        } else {
            0
        },
{
    assert(edges.take(k + 1).drop_last() =~= edges.take(k));
    assert(edges.take(k + 1).last() == edges[k]);
}

proof fn lemma_pending_monotone(edges: Seq<EdgeInfo>, settled: Seq<usize>, v: usize, k: int)
    requires
        0 <= k <= edges.len(),
    ensures
        pending(edges.take(k), settled, v) <= pending(edges, settled, v),
    decreases edges.len() - k,
{
    if k == edges.len() {
        assert(edges.take(k) =~= edges);
    } else {
        lemma_pending_step(edges, settled, v, k);
        lemma_pending_monotone(edges, settled, v, k + 1);
    }
}

proof fn lemma_pending_shrinks(edges: Seq<EdgeInfo>, settled: Seq<usize>, node: usize, v: usize)
    ensures
        pending(edges, settled.push(node), v) <= pending(edges, settled, v),
    decreases edges.len(),
{
    if edges.len() > 0 {
        lemma_pending_shrinks(edges.drop_last(), settled, node, v);
        let s = edges.last().source.operator_index;
        if settled.contains(s) {
            let i = choose|i: int| 0 <= i < settled.len() && settled[i] == s;
            assert(settled.push(node)[i] == s);
        }
    }
}

/// What `free_after` is, from the edges into a node.
proof fn lemma_free_after(edges: Seq<EdgeInfo>, order: Seq<usize>, v: usize, r: int)
    requires
        order.no_duplicates(),
        0 <= r <= order.len(),
        is_free(edges, order.take(r), v),
        r > 0 ==> exists|i: int|
            0 <= i < edges.len() && #[trigger] edges[i].target.operator_index == v
                && edges[i].source.operator_index == order[r - 1],
    ensures
        free_after(edges, order, v) == r,
{
    lemma_free_after_at_most(edges, order, v, r);
    if r > 0 {
        let i = choose|i: int|
            0 <= i < edges.len() && #[trigger] edges[i].target.operator_index == v
                && edges[i].source.operator_index == order[r - 1];
        lemma_free_after_at_least(edges, order, v, i);
        assert(order.index_of(order[r - 1]) == r - 1);
    } else {
        lemma_free_after_nonneg(edges, order, v);
    }
}

proof fn lemma_free_after_nonneg(edges: Seq<EdgeInfo>, order: Seq<usize>, v: usize)
    ensures
        free_after(edges, order, v) >= 0,
    decreases edges.len(),
{
    if edges.len() > 0 {
        lemma_free_after_nonneg(edges.drop_last(), order, v);
    }
}

proof fn lemma_free_after_at_most(edges: Seq<EdgeInfo>, order: Seq<usize>, v: usize, r: int)
    requires
        order.no_duplicates(),
        0 <= r <= order.len(),
        is_free(edges, order.take(r), v),
    ensures
        free_after(edges, order, v) <= r,
    decreases edges.len(),
{
    if edges.len() > 0 {
        let rest = edges.drop_last();
        assert forall|i: int|
            0 <= i < rest.len() && rest[i].target.operator_index == v implies order.take(
            r,
        ).contains((#[trigger] rest[i]).source.operator_index) by {
            assert(edges[i] == rest[i]);
        }
        lemma_free_after_at_most(rest, order, v, r);
        let e = edges.last();
        if e.target.operator_index == v {
            assert(edges[edges.len() - 1] == e);
            let s = e.source.operator_index;
            assert(order.take(r).contains(s));
            let j = choose|j: int| 0 <= j < order.take(r).len() && order.take(r)[j] == s;
            assert(order[j] == s);
            assert(order.index_of(s) == j);
        }
    }
}

proof fn lemma_free_after_at_least(edges: Seq<EdgeInfo>, order: Seq<usize>, v: usize, i: int)
    requires
        0 <= i < edges.len(),
        edges[i].target.operator_index == v,
    ensures
        free_after(edges, order, v) >= order.index_of(edges[i].source.operator_index) + 1,
    decreases edges.len(),
{
    if i < edges.len() - 1 {
        let rest = edges.drop_last();
        assert(rest[i] == edges[i]);
        lemma_free_after_at_least(rest, order, v, i);
    }
}

/// Settles the nodes of a graph: whatever no edge leads to comes first, and each settled node in
/// turn frees those that waited for it alone.
#[verifier::rlimit(60)]
pub fn settle(operators: &Vec<usize>, edges: &Vec<EdgeInfo>) -> (order: Vec<usize>)
    requires
        strictly_increasing(operators@),
    ensures
        settles(operators@.to_set(), edges@, order@),
{
    let ghost ops = operators@.to_set();
    let mut nodes: Vec<usize> = Vec::new();
    let mut i: usize = 0;
    while i < operators.len()
        invariant
            i <= operators@.len(),
            strictly_increasing(nodes@),
            forall|x: usize| #[trigger] nodes@.contains(x) <==> operators@.take(i as int).contains(x),
        decreases operators@.len() - i,
    {
        proof {
            assert forall|x: usize| #[trigger]
                operators@.take(i + 1).contains(x) <==> operators@.take(i as int).contains(x) || x
                    == operators@[i as int] by {
                lemma_take_contains(operators@, i as int, x);
            }
        }
        insert(&mut nodes, operators[i]);
        i = i + 1;
    }
    assert(operators@.take(i as int) =~= operators@);
    let mut k: usize = 0;
    while k < edges.len()
        invariant
            k <= edges@.len(),
            strictly_increasing(nodes@),
            ops == operators@.to_set(),
            forall|x: usize| #[trigger]
                nodes@.contains(x) <==> is_node(ops, edges@.take(k as int), x),
        decreases edges@.len() - k,
    {
        let ghost before = nodes@;
        insert(&mut nodes, edges[k].target.operator_index);
        proof {
            assert forall|x: usize| #[trigger]
                nodes@.contains(x) <==> is_node(ops, edges@.take(k + 1), x) by {
                lemma_node_step(ops, edges@, k as int, x);
                assert(before.contains(x) <==> is_node(ops, edges@.take(k as int), x));
            }
        }
        k = k + 1;
    }
    assert(edges@.take(k as int) =~= edges@);
    assert forall|x: usize| #[trigger] nodes@.contains(x) <==> is_node(ops, edges@, x) by {}

    let mut degree: Vec<usize> = Vec::new();
    let mut queue: Vec<usize> = Vec::new();
    let mut n: usize = 0;
    let ghost none = Seq::<usize>::empty();
    while n < nodes.len()
        invariant
            n <= nodes@.len(),
            strictly_increasing(nodes@),
            none == Seq::<usize>::empty(),
            degree@.len() == n,
            forall|m: int| 0 <= m < n ==> #[trigger] degree@[m] == pending(edges@, none, nodes@[m]),
            strictly_increasing(queue@),
            forall|x: usize| #[trigger]
                queue@.contains(x) <==> nodes@.take(n as int).contains(x) && is_free(
                    edges@,
                    none,
                    x,
                ),
        decreases nodes@.len() - n,
    {
        let v: usize = nodes[n];
        let mut d: usize = 0;
        let mut k: usize = 0;
        while k < edges.len()
            invariant
                k <= edges@.len(),
                d <= k,
                none == Seq::<usize>::empty(),
                d == pending(edges@.take(k as int), none, v),
            decreases edges@.len() - k,
        {
            proof {
                lemma_pending_step(edges@, none, v, k as int);
            }
            if edges[k].target.operator_index == v {
                d = d + 1;
            }
            k = k + 1;
        }
        assert(edges@.take(k as int) =~= edges@);
        proof {
            lemma_pending_zero(edges@, none, v);
            assert forall|x: usize| #[trigger]
                nodes@.take(n + 1).contains(x) <==> nodes@.take(n as int).contains(x) || x
                    == v by {
                lemma_take_contains(nodes@, n as int, x);
            }
        }
        degree.push(d);
        if d == 0 {
            insert(&mut queue, v);
        }
        n = n + 1;
    }
    assert(nodes@.take(n as int) =~= nodes@);

    // `ready[i]` is how many settled nodes it took to free `queue[i]`.
    let ghost mut ready: Seq<int> = Seq::new(queue@.len(), |i: int| 0int);
    let mut idx: usize = 0;
    assert(queue@.take(0) =~= none);
    assert(queue@.no_duplicates());
    proof {
        assert forall|i: int| 0 <= i < queue@.len() implies is_free(
            edges@,
            queue@.take(#[trigger] ready[i]),
            queue@[i],
        ) by {
            assert(queue@.contains(queue@[i]));
        }
        lemma_no_more_than(queue@, nodes@);
    }
    while idx < queue.len()
        invariant
            strictly_increasing(nodes@),
            forall|x: usize| #[trigger] nodes@.contains(x) <==> is_node(ops, edges@, x),
            idx <= queue@.len(),
            degree@.len() == nodes@.len(),
            forall|m: int|
                0 <= m < nodes@.len() ==> #[trigger] degree@[m] == pending(
                    edges@,
                    queue@.take(idx as int),
                    nodes@[m],
                ),
            queue@.no_duplicates(),
            forall|x: usize| #[trigger]
                queue@.contains(x) <==> is_node(ops, edges@, x) && is_free(
                    edges@,
                    queue@.take(idx as int),
                    x,
                ),
            settling(edges@, queue@, ready, idx as int),
            queue@.len() <= nodes@.len(),
        decreases nodes@.len() - idx,
    {
        let node: usize = queue[idx];
        let ghost settled = queue@.take(idx as int);
        let ghost next = settled.push(node);
        assert(queue@.take(idx + 1) =~= next);
        assert(!settled.contains(node));
        let ghost before_queue = queue@;
        let mut freed: Vec<usize> = Vec::new();
        let mut k: usize = 0;
        proof {
            assert(edges@.take(0) =~= Seq::empty());
            assert forall|m: int| 0 <= m < nodes@.len() implies #[trigger] degree@[m] == pending(
                edges@.take(0),
                next,
                nodes@[m],
            ) + pending(edges@, settled, nodes@[m]) - pending(edges@.take(0), settled, nodes@[m]) by {}
        }
        while k < edges.len()
            invariant
                k <= edges@.len(),
                strictly_increasing(nodes@),
                forall|x: usize| #[trigger] nodes@.contains(x) <==> is_node(ops, edges@, x),
                next == settled.push(node),
                !settled.contains(node),
                degree@.len() == nodes@.len(),
                forall|m: int|
                    0 <= m < nodes@.len() ==> #[trigger] degree@[m] == pending(
                        edges@.take(k as int),
                        next,
                        nodes@[m],
                    ) + pending(edges@, settled, nodes@[m]) - pending(
                        edges@.take(k as int),
                        settled,
                        nodes@[m],
                    ),
                strictly_increasing(freed@),
                forall|x: usize| #[trigger]
                    freed@.contains(x) <==> exists|m: int|
                        0 <= m < nodes@.len() && nodes@[m] == x && #[trigger] degree@[m] == 0
                            && pending(edges@, settled, x) > 0,
            decreases edges@.len() - k,
        {
            let e = edges[k];
            let target: usize = e.target.operator_index;
            proof {
                assert(edges@[k as int].target.operator_index == target);
                assert(is_node(ops, edges@, target));
                assert(nodes@.contains(target));
                assert forall|m: int| 0 <= m < nodes@.len() implies {
                    let v = #[trigger] nodes@[m];
                    &&& pending(edges@.take(k + 1), next, v) == pending(
                        edges@.take(k as int),
                        next,
                        v,
                    ) + (if target == v && !next.contains(e.source.operator_index) {
                        1int
                    } else {
                        0
                    })
                    &&& pending(edges@.take(k + 1), settled, v) == pending(
                        edges@.take(k as int),
                        settled,
                        v,
                    ) + (if target == v && !settled.contains(e.source.operator_index) {
                        1int
                    } else {
                        0
                    })
                } by {
                    lemma_pending_step(edges@, next, nodes@[m], k as int);
                    lemma_pending_step(edges@, settled, nodes@[m], k as int);
                }
                lemma_push_contains(settled, node, e.source.operator_index);
            }
            if e.source.operator_index == node {
                let ghost before = degree@;
                match position(&nodes, target) {
                    Some(p) => {
                        proof {
                            lemma_pending_monotone(edges@, settled, target, k + 1);
                            lemma_pending_bounds(edges@.take(k as int), next, target);
                        }
                        let d: usize = degree[p] - 1;
                        degree.set(p, d);
                        if d == 0 {
                            proof {
                                lemma_pending_bounds(edges@.take(k as int), settled, target);
                            }
                            insert(&mut freed, target);
                        }
                        proof {
                            assert forall|x: usize| #[trigger]
                                freed@.contains(x) <==> exists|m: int|
                                    0 <= m < nodes@.len() && nodes@[m] == x && #[trigger] degree@[m]
                                        == 0 && pending(edges@, settled, x) > 0 by {
                                if freed@.contains(x) {
                                    if x == target && d == 0 {
                                        assert(degree@[p as int] == 0);
                                    } else {
                                        let m = choose|m: int|
                                            0 <= m < nodes@.len() && nodes@[m] == x
                                                && #[trigger] before[m] == 0 && pending(
                                                edges@,
                                                settled,
                                                x,
                                            ) > 0;
                                        assert(m != p);
                                        assert(degree@[m] == 0);
                                    }
                                }
                                if exists|m: int|
                                    0 <= m < nodes@.len() && nodes@[m] == x && #[trigger] degree@[m]
                                        == 0 && pending(edges@, settled, x) > 0 {
                                    let m = choose|m: int|
                                        0 <= m < nodes@.len() && nodes@[m] == x
                                            && #[trigger] degree@[m] == 0 && pending(
                                            edges@,
                                            settled,
                                            x,
                                        ) > 0;
                                    if m != p {
                                        assert(before[m] == 0);
                                    }
                                }
                            }
                        }
                    },
                    None => {},
                }
            }
            k = k + 1;
        }
        assert(edges@.take(k as int) =~= edges@);
        assert forall|m: int| 0 <= m < nodes@.len() implies #[trigger] degree@[m] == pending(
            edges@,
            next,
            nodes@[m],
        ) by {}
        proof {
            assert forall|x: usize| #[trigger]
                freed@.contains(x) <==> is_node(ops, edges@, x) && is_free(edges@, next, x)
                    && !is_free(edges@, settled, x) by {
                lemma_pending_zero(edges@, next, x);
                lemma_pending_zero(edges@, settled, x);
                lemma_pending_bounds(edges@, settled, x);
                if is_node(ops, edges@, x) {
                    assert(nodes@.contains(x));
                    let m = choose|m: int| 0 <= m < nodes@.len() && nodes@[m] == x;
                    assert(degree@[m] == pending(edges@, next, x));
                }
                if freed@.contains(x) {
                    let m = choose|m: int|
                        0 <= m < nodes@.len() && nodes@[m] == x && #[trigger] degree@[m] == 0
                            && pending(edges@, settled, x) > 0;
                    assert(nodes@.contains(x));
                }
            }
            lemma_settling_step(ops, edges@, queue@, ready, idx as int, freed@);
            ready = ready + Seq::new(freed@.len(), |i: int| idx + 1);
        }
        queue.append(&mut freed);
        assert(queue@.take(idx + 1) =~= next);
        proof {
            assert forall|x: usize| #[trigger]
                queue@.contains(x) <==> is_node(ops, edges@, x) && is_free(edges@, next, x) by {
                lemma_push_contains_free(edges@, settled, node, x);
            }
            lemma_no_more_than(queue@, nodes@);
        }
        idx = idx + 1;
    }
    proof {
        assert(queue@.take(idx as int) =~= queue@);
        lemma_settled(ops, edges@, queue@, ready);
    }
    queue
}

/// The state of the queue after `idx` of its nodes were settled.
spec fn settling(edges: Seq<EdgeInfo>, queue: Seq<usize>, ready: Seq<int>, idx: int) -> bool {
    &&& ready.len() == queue.len()
    &&& forall|i: int|
        0 <= i < queue.len() ==> {
            &&& 0 <= #[trigger] ready[i] <= idx
            &&& ready[i] <= i
            &&& is_free(edges, queue.take(ready[i]), queue[i])
            &&& ready[i] > 0 ==> exists|k: int|
                0 <= k < edges.len() && #[trigger] edges[k].target.operator_index == queue[i]
                    && edges[k].source.operator_index == queue[ready[i] - 1]
        }
    &&& forall|i: int, j: int|
        0 <= i < j < queue.len() ==> #[trigger] ready[i] < #[trigger] ready[j] || (ready[i]
            == ready[j] && queue[i] < queue[j])
}

proof fn lemma_take_contains(s: Seq<usize>, i: int, x: usize)
    requires
        0 <= i < s.len(),
    ensures
        s.take(i + 1).contains(x) <==> s.take(i).contains(x) || x == s[i],
{
    assert(s.take(i + 1) =~= s.take(i).push(s[i]));
    lemma_push_contains(s.take(i), s[i], x);
}

proof fn lemma_push_contains(s: Seq<usize>, y: usize, x: usize)
    ensures
        s.push(y).contains(x) <==> s.contains(x) || x == y,
{
    let t = s.push(y);
    if s.contains(x) {
        let i = choose|i: int| 0 <= i < s.len() && s[i] == x;
        assert(t[i] == x);
    }
    if x == y {
        assert(t[s.len() as int] == x);
    }
    if t.contains(x) {
        let i = choose|i: int| 0 <= i < t.len() && t[i] == x;
        if i < s.len() {
            assert(s[i] == x);
        }
    }
}

proof fn lemma_push_contains_free(edges: Seq<EdgeInfo>, settled: Seq<usize>, node: usize, x: usize)
    ensures
        is_free(edges, settled, x) ==> is_free(edges, settled.push(node), x),
{
    if is_free(edges, settled, x) {
        assert forall|i: int|
            0 <= i < edges.len() && edges[i].target.operator_index == x implies settled.push(
            node,
        ).contains((#[trigger] edges[i]).source.operator_index) by {
            lemma_push_contains(settled, node, edges[i].source.operator_index);
        }
    }
}

proof fn lemma_node_step(ops: Set<usize>, edges: Seq<EdgeInfo>, k: int, x: usize)
    requires
        0 <= k < edges.len(),
    ensures
        is_node(ops, edges.take(k + 1), x) <==> is_node(ops, edges.take(k), x) || x
            == edges[k].target.operator_index,
{
    let a = edges.take(k);
    let b = edges.take(k + 1);
    if exists|i: int| 0 <= i < a.len() && #[trigger] a[i].target.operator_index == x {
        let i = choose|i: int| 0 <= i < a.len() && #[trigger] a[i].target.operator_index == x;
        assert(b[i].target.operator_index == x);
    }
    if exists|i: int| 0 <= i < b.len() && #[trigger] b[i].target.operator_index == x {
        let i = choose|i: int| 0 <= i < b.len() && #[trigger] b[i].target.operator_index == x;
        if i < k {
            assert(a[i].target.operator_index == x);
        }
    }
    assert(b[k] == edges[k]);
}

/// A list without repetition is no longer than a list that holds all its entries.
proof fn lemma_no_more_than(a: Seq<usize>, b: Seq<usize>)
    requires
        a.no_duplicates(),
        forall|x: usize| a.contains(x) ==> b.contains(x),
    ensures
        a.len() <= b.len(),
{
    a.unique_seq_to_set();
    b.lemma_cardinality_of_set();
    assert(a.to_set().subset_of(b.to_set()));
    vstd::set_lib::lemma_len_subset(a.to_set(), b.to_set());
}

/// Settling one more node extends the queue by what it frees.
proof fn lemma_settling_step(
    ops: Set<usize>,
    edges: Seq<EdgeInfo>,
    queue: Seq<usize>,
    ready: Seq<int>,
    idx: int,
    freed: Seq<usize>,
)
    requires
        0 <= idx < queue.len(),
        queue.no_duplicates(),
        settling(edges, queue, ready, idx),
        strictly_increasing(freed),
        forall|x: usize| #[trigger]
            queue.contains(x) <==> is_node(ops, edges, x) && is_free(edges, queue.take(idx), x),
        forall|x: usize| #[trigger]
            freed.contains(x) <==> is_node(ops, edges, x) && is_free(
                edges,
                queue.take(idx).push(queue[idx]),
                x,
            ) && !is_free(edges, queue.take(idx), x),
    ensures
        (queue + freed).no_duplicates(),
        settling(edges, queue + freed, ready + Seq::new(freed.len(), |i: int| idx + 1), idx + 1),
        forall|x: usize| #[trigger]
            (queue + freed).contains(x) <==> queue.contains(x) || freed.contains(x),
{
    let q = queue + freed;
    let r = ready + Seq::new(freed.len(), |i: int| idx + 1);
    assert(queue.take(idx + 1) =~= queue.take(idx).push(queue[idx]));
    assert forall|x: usize| #[trigger] q.contains(x) <==> queue.contains(x) || freed.contains(x) by {
        if queue.contains(x) {
            let i = choose|i: int| 0 <= i < queue.len() && queue[i] == x;
            assert(q[i] == x);
        }
        if freed.contains(x) {
            let i = choose|i: int| 0 <= i < freed.len() && freed[i] == x;
            assert(q[queue.len() + i] == x);
        }
        if q.contains(x) {
            let i = choose|i: int| 0 <= i < q.len() && q[i] == x;
            if i < queue.len() {
                assert(queue[i] == x);
            } else {
                assert(freed[i - queue.len()] == x);
            }
        }
    }
    assert(q.no_duplicates()) by {
        assert forall|i: int, j: int| 0 <= i < q.len() && 0 <= j < q.len() && i != j implies q[i]
            != q[j] by {
            if i < queue.len() && j >= queue.len() {
                assert(queue.contains(q[i]));
                assert(freed.contains(q[j]));
            }
            if j < queue.len() && i >= queue.len() {
                assert(queue.contains(q[j]));
                assert(freed.contains(q[i]));
            }
        }
    }
    assert forall|i: int| 0 <= i < q.len() implies {
        &&& 0 <= #[trigger] r[i] <= idx + 1
        &&& r[i] <= i
        &&& is_free(edges, q.take(r[i]), q[i])
        &&& r[i] > 0 ==> exists|k: int|
            0 <= k < edges.len() && #[trigger] edges[k].target.operator_index == q[i]
                && edges[k].source.operator_index == q[r[i] - 1]
    } by {
        if i < queue.len() {
            assert(r[i] == ready[i]);
            assert(q.take(r[i]) =~= queue.take(ready[i]));
        } else {
            let x = q[i];
            assert(x == freed[i - queue.len()]);
            assert(freed.contains(x));
            assert(r[i] == idx + 1);
            assert(q.take(idx + 1) =~= queue.take(idx).push(queue[idx]));
            let k = choose|k: int|
                0 <= k < edges.len() && edges[k].target.operator_index == x && !queue.take(
                    idx,
                ).contains((#[trigger] edges[k]).source.operator_index);
            lemma_push_contains(queue.take(idx), queue[idx], edges[k].source.operator_index);
            assert(edges[k].target.operator_index == x);
            assert(edges[k].source.operator_index == q[idx]);
        }
    }
    assert forall|i: int, j: int| 0 <= i < j < q.len() implies #[trigger] r[i] < #[trigger] r[j] || (
    r[i] == r[j] && q[i] < q[j]) by {
        if j < queue.len() {
            assert(r[i] == ready[i] && r[j] == ready[j]);
        } else if i < queue.len() {
            assert(r[i] == ready[i]);
        } else {
            assert(freed[i - queue.len()] < freed[j - queue.len()]);
        }
    }
}

/// When every node of the queue is settled, the queue is the order in which the graph settles.
proof fn lemma_settled(ops: Set<usize>, edges: Seq<EdgeInfo>, queue: Seq<usize>, ready: Seq<int>)
    requires
        queue.no_duplicates(),
        settling(edges, queue, ready, queue.len() as int),
        forall|x: usize| #[trigger]
            queue.contains(x) <==> is_node(ops, edges, x) && is_free(edges, queue, x),
    ensures
        settles(ops, edges, queue),
{
    assert forall|i: int| 0 <= i < queue.len() implies free_after(edges, queue, queue[i])
        == #[trigger] ready[i] by {
        lemma_free_after(edges, queue, queue[i], ready[i]);
    }
    assert forall|i: int| 0 <= i < queue.len() implies is_node(ops, edges, #[trigger] queue[i]) by {
        assert(queue.contains(queue[i]));
    }
    assert forall|i: int| 0 <= i < queue.len() implies is_free(
        edges,
        queue.take(i),
        #[trigger] queue[i],
    ) by {
        let r = ready[i];
        assert forall|k: int|
            0 <= k < edges.len() && edges[k].target.operator_index == queue[i] implies queue.take(
            i,
        ).contains((#[trigger] edges[k]).source.operator_index) by {
            let s = edges[k].source.operator_index;
            assert(queue.take(r).contains(s));
            let j = choose|j: int| 0 <= j < queue.take(r).len() && queue.take(r)[j] == s;
            assert(queue.take(i)[j] == s);
        }
    }
    assert forall|i: int, j: int| 0 <= i < j < queue.len() implies comes_before(
        edges,
        queue,
        #[trigger] queue[i],
        #[trigger] queue[j],
    ) by {
        assert(free_after(edges, queue, queue[i]) == ready[i]);
        assert(free_after(edges, queue, queue[j]) == ready[j]);
    }
}

/// The order in which a graph settles.
pub open spec fn settling_order(operators: Set<usize>, edges: Seq<EdgeInfo>) -> Seq<usize> {
    choose|order: Seq<usize>| settles(operators, edges, order)
}

/// A graph settles in one order only.
pub proof fn settling_order_is_unique(
    operators: Set<usize>,
    edges: Seq<EdgeInfo>,
    a: Seq<usize>,
    b: Seq<usize>,
)
    requires
        settles(operators, edges, a),
        settles(operators, edges, b),
    ensures
        a == b,
{
    if a.len() <= b.len() {
        lemma_same_prefix(operators, edges, a, b, a.len() as int);
        assert(a.take(a.len() as int) =~= a);
        lemma_not_longer(operators, edges, a, b);
        assert(a =~= b);
    } else {
        lemma_same_prefix(operators, edges, b, a, b.len() as int);
        assert(b.take(b.len() as int) =~= b);
        lemma_not_longer(operators, edges, b, a);
    }
}

/// Nothing settles beyond an order that settles.
proof fn lemma_not_longer(operators: Set<usize>, edges: Seq<EdgeInfo>, a: Seq<usize>, b: Seq<usize>)
    requires
        settles(operators, edges, a),
        settles(operators, edges, b),
        a.len() <= b.len(),
        a == b.take(a.len() as int),
    ensures
        a.len() == b.len(),
{
    if a.len() < b.len() {
        let w = b[a.len() as int];
        assert(is_node(operators, edges, w));
        assert(is_free(edges, b.take(a.len() as int), w));
        assert(a.contains(w));
        let i = choose|i: int| 0 <= i < a.len() && a[i] == w;
        assert(b[i] == w);
    }
}

proof fn lemma_same_prefix(
    operators: Set<usize>,
    edges: Seq<EdgeInfo>,
    a: Seq<usize>,
    b: Seq<usize>,
    n: int,
)
    requires
        settles(operators, edges, a),
        settles(operators, edges, b),
        0 <= n <= a.len(),
        n <= b.len(),
    ensures
        a.take(n) == b.take(n),
    decreases n,
{
    if n == 0 {
        assert(a.take(0) =~= b.take(0));
    } else {
        let i = n - 1;
        lemma_same_prefix(operators, edges, a, b, i);
        let v = a[i];
        let w = b[i];
        if v != w {
            let k = lemma_stands_later(operators, edges, a, b, i);
            let m = lemma_stands_later(operators, edges, b, a, i);
            lemma_same_free_after(edges, a, b, i, v);
            lemma_same_free_after(edges, a, b, i, w);
            assert(comes_before(edges, b, b[i], b[k]));
            assert(comes_before(edges, a, a[i], a[m]));
        }
        assert(a.take(n) =~= a.take(i).push(v));
        assert(b.take(n) =~= b.take(i).push(w));
    }
}

/// What stands at `i` in one order stands at `i` or later in the other.
proof fn lemma_stands_later(
    operators: Set<usize>,
    edges: Seq<EdgeInfo>,
    a: Seq<usize>,
    b: Seq<usize>,
    i: int,
) -> (k: int)
    requires
        settles(operators, edges, a),
        settles(operators, edges, b),
        0 <= i < a.len(),
        i < b.len(),
        a.take(i) == b.take(i),
        a[i] != b[i],
    ensures
        i < k < b.len(),
        b[k] == a[i],
        is_free(edges, a.take(i), a[i]),
{
    let v = a[i];
    assert(is_node(operators, edges, v));
    assert(is_free(edges, a.take(i), v));
    assert(is_free(edges, b, v)) by {
        assert forall|e: int|
            0 <= e < edges.len() && edges[e].target.operator_index == v implies b.contains(
            (#[trigger] edges[e]).source.operator_index,
        ) by {
            let s = edges[e].source.operator_index;
            assert(a.take(i).contains(s));
            let j = choose|j: int| 0 <= j < b.take(i).len() && b.take(i)[j] == s;
            assert(b[j] == s);
        }
    }
    assert(b.contains(v));
    let k = choose|k: int| 0 <= k < b.len() && b[k] == v;
    if k < i {
        assert(b.take(i)[k] == v);
        assert(a.take(i)[k] == v);
        assert(a[k] == a[i]);
    }
    k
}

/// Where two orders agree far enough to free a node, they agree on when it is free.
proof fn lemma_same_free_after(
    edges: Seq<EdgeInfo>,
    a: Seq<usize>,
    b: Seq<usize>,
    n: int,
    v: usize,
)
    requires
        a.no_duplicates(),
        b.no_duplicates(),
        0 <= n <= a.len(),
        n <= b.len(),
        a.take(n) == b.take(n),
        is_free(edges, a.take(n), v),
    ensures
        free_after(edges, a, v) == free_after(edges, b, v),
    decreases edges.len(),
{
    if edges.len() > 0 {
        let rest = edges.drop_last();
        assert forall|i: int|
            0 <= i < rest.len() && rest[i].target.operator_index == v implies a.take(n).contains(
            (#[trigger] rest[i]).source.operator_index,
        ) by {
            assert(edges[i] == rest[i]);
        }
        lemma_same_free_after(rest, a, b, n, v);
        let e = edges.last();
        if e.target.operator_index == v {
            assert(edges[edges.len() - 1] == e);
            let s = e.source.operator_index;
            let j = choose|j: int| 0 <= j < a.take(n).len() && a.take(n)[j] == s;
            assert(a[j] == s);
            assert(b.take(n)[j] == s);
            assert(b[j] == s);
            assert(a.index_of(s) == j);
            assert(b.index_of(s) == j);
        }
    }
}

/// Every edge joins two operators of the graph.
pub open spec fn joins_operators(operators: Set<usize>, edges: Seq<EdgeInfo>) -> bool {
    forall|i: int|
        0 <= i < edges.len() ==> operators.contains((#[trigger] edges[i]).source.operator_index)
            && operators.contains(edges[i].target.operator_index)
}

/// The edge after the `i`-th one of a walk starts where that one ends.
pub open spec fn follows(edges: Seq<EdgeInfo>, walk: Seq<int>, i: int) -> bool {
    edges[walk[i]].target.operator_index == edges[walk[i + 1]].source.operator_index
}

/// A walk along edges that ends where it began: edge numbers, each edge starting where the one
/// before it ends, and the first where the last one ends.
pub open spec fn closed_walk(edges: Seq<EdgeInfo>, walk: Seq<int>) -> bool {
    &&& walk.len() > 0
    &&& forall|i: int| 0 <= i < walk.len() ==> 0 <= #[trigger] walk[i] < edges.len()
    &&& forall|i: int| 0 <= i < walk.len() - 1 ==> #[trigger] follows(edges, walk, i)
    &&& edges[walk.last()].target.operator_index == edges[walk[0]].source.operator_index
}

/// Some edges of the graph form a cycle.
pub open spec fn has_cycle(edges: Seq<EdgeInfo>) -> bool {
    exists|walk: Seq<int>| closed_walk(edges, walk)
}

/// Where every node settles, each edge leads forward, and there is no cycle.
pub proof fn settled_edges_lead_forward(
    operators: Set<usize>,
    edges: Seq<EdgeInfo>,
    order: Seq<usize>,
    i: int,
)
    requires
        settles(operators, edges, order),
        0 <= i < edges.len(),
        order.contains(edges[i].target.operator_index),
    ensures
        order.contains(edges[i].source.operator_index),
        order.index_of(edges[i].source.operator_index) < order.index_of(
            edges[i].target.operator_index,
        ),
{
    let t = edges[i].target.operator_index;
    let s = edges[i].source.operator_index;
    let p = order.index_of(t);
    assert(order[p] == t);
    assert(is_free(edges, order.take(p), order[p]));
    assert(order.take(p).contains(s));
    let j = choose|j: int| 0 <= j < order.take(p).len() && order.take(p)[j] == s;
    assert(order[j] == s);
    assert(order.index_of(s) == j);
}

/// Along a walk through settled nodes the positions grow.
proof fn lemma_walk_climbs(
    operators: Set<usize>,
    edges: Seq<EdgeInfo>,
    order: Seq<usize>,
    walk: Seq<int>,
    n: int,
)
    requires
        settles(operators, edges, order),
        closed_walk(edges, walk),
        forall|i: int|
            0 <= i < edges.len() ==> order.contains((#[trigger] edges[i]).target.operator_index),
        0 <= n < walk.len(),
    ensures
        order.index_of(edges[walk[0]].source.operator_index) < order.index_of(
            edges[walk[n]].target.operator_index,
        ),
    decreases n,
{
    settled_edges_lead_forward(operators, edges, order, walk[n]);
    if n > 0 {
        lemma_walk_climbs(operators, edges, order, walk, n - 1);
        let k = n - 1;
        assert(follows(edges, walk, k));
    }
}

/// Going back from `v` along edges that are still waited for: the `n`-th edge of the way.
spec fn way_back(edges: Seq<EdgeInfo>, order: Seq<usize>, v: usize, n: nat) -> int
    decreases n,
{
    let at = if n == 0 {
        v
    } else {
        edges[way_back(edges, order, v, (n - 1) as nat)].source.operator_index
    };
    choose|i: int|
        0 <= i < edges.len() && edges[i].target.operator_index == at && !order.contains(
            (#[trigger] edges[i]).source.operator_index,
        )
}

proof fn lemma_way_back(
    operators: Set<usize>,
    edges: Seq<EdgeInfo>,
    order: Seq<usize>,
    v: usize,
    n: nat,
)
    requires
        settles(operators, edges, order),
        joins_operators(operators, edges),
        operators.contains(v),
        !order.contains(v),
    ensures
        0 <= way_back(edges, order, v, n) < edges.len(),
        !order.contains(edges[way_back(edges, order, v, n)].source.operator_index),
        operators.contains(edges[way_back(edges, order, v, n)].source.operator_index),
        n > 0 ==> edges[way_back(edges, order, v, n)].target.operator_index == edges[way_back(
            edges,
            order,
            v,
            (n - 1) as nat,
        )].source.operator_index,
    decreases n,
{
    let at = if n == 0 {
        v
    } else {
        lemma_way_back(operators, edges, order, v, (n - 1) as nat);
        edges[way_back(edges, order, v, (n - 1) as nat)].source.operator_index
    };
    assert(is_node(operators, edges, at));
    assert(!is_free(edges, order, at));
    let i = choose|i: int|
        0 <= i < edges.len() && edges[i].target.operator_index == at && !order.contains(
            (#[trigger] edges[i]).source.operator_index,
        );
    assert(edges[i].target.operator_index == at);
}

/// Where edges join operators of the graph, all operators settle exactly if there is no cycle.
pub proof fn settles_unless_cyclic(operators: Set<usize>, edges: Seq<EdgeInfo>, order: Seq<usize>)
    requires
        operators.finite(),
        joins_operators(operators, edges),
        settles(operators, edges, order),
    ensures
        forall|v: usize| order.contains(v) ==> operators.contains(v),
        order.len() == operators.len() <==> !has_cycle(edges),
        order.len() == operators.len() ==> forall|v: usize|
            operators.contains(v) ==> order.contains(v),
{
    assert forall|v: usize| order.contains(v) implies operators.contains(v) by {
        let i = choose|i: int| 0 <= i < order.len() && order[i] == v;
        assert(is_node(operators, edges, order[i]));
    }
    order.unique_seq_to_set();
    assert(order.to_set().subset_of(operators));
    if order.len() == operators.len() {
        vstd::set_lib::lemma_subset_equality(order.to_set(), operators);
        assert forall|v: usize| operators.contains(v) implies order.contains(v) by {
            assert(order.to_set().contains(v));
        }
        if has_cycle(edges) {
            let walk = choose|walk: Seq<int>| closed_walk(edges, walk);
            let n = walk.len() - 1;
            lemma_walk_climbs(operators, edges, order, walk, n);
            settled_edges_lead_forward(operators, edges, order, walk[0]);
        }
    } else {
        assert(exists|v: usize| operators.contains(v) && !order.contains(v)) by {
            if forall|v: usize| operators.contains(v) ==> order.contains(v) {
                assert(order.to_set() =~= operators);
            }
        }
        let v = choose|v: usize| operators.contains(v) && !order.contains(v);
        lemma_cycle_behind(operators, edges, order, v);
    }
}

/// Behind an operator that does not settle there is a cycle.
proof fn lemma_cycle_behind(operators: Set<usize>, edges: Seq<EdgeInfo>, order: Seq<usize>, v: usize)
    requires
        operators.finite(),
        joins_operators(operators, edges),
        settles(operators, edges, order),
        operators.contains(v),
        !order.contains(v),
    ensures
        has_cycle(edges),
{
    let count = (operators.len() + 1) as nat;
    let met = Seq::new(
        count,
        |n: int| edges[way_back(edges, order, v, n as nat)].source.operator_index,
    );
    assert forall|n: int| 0 <= n < count implies operators.contains(#[trigger] met[n]) by {
        lemma_way_back(operators, edges, order, v, n as nat);
    }
    if met.no_duplicates() {
        met.unique_seq_to_set();
        assert(met.to_set().subset_of(operators));
        vstd::set_lib::lemma_len_subset(met.to_set(), operators);
        assert(false);
    }
    let (i, j) = choose|i: int, j: int|
        0 <= i < j < met.len() && #[trigger] met[i] == #[trigger] met[j];
    assert(0 <= i < j < met.len() && met[i] == met[j]) by {
        let (a, b) = choose|a: int, b: int|
            0 <= a < met.len() && 0 <= b < met.len() && a != b && met[a] == met[b];
        if a < b {
            assert(met[a] == met[b]);
        } else {
            assert(met[b] == met[a]);
        }
    }
    let walk = Seq::new((j - i) as nat, |k: int| way_back(edges, order, v, (j - k) as nat));
    assert forall|k: int| 0 <= k < walk.len() implies 0 <= #[trigger] walk[k] < edges.len() by {
        lemma_way_back(operators, edges, order, v, (j - k) as nat);
    }
    assert forall|k: int| 0 <= k < walk.len() - 1 implies #[trigger] follows(edges, walk, k) by {
        lemma_way_back(operators, edges, order, v, (j - k) as nat);
        assert(walk[k + 1] == way_back(edges, order, v, (j - k - 1) as nat));
    }
    lemma_way_back(operators, edges, order, v, (i + 1) as nat);
    assert(walk.last() == way_back(edges, order, v, (i + 1) as nat));
    assert(closed_walk(edges, walk));
}

} // verus!
