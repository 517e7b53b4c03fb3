//! From a logical dataflow to operators and channels that can run.

use vstd::prelude::*;
use crate::error::{Error, Result};
use crate::graph::EdgeInfo;
use crate::order::Timestamp;
use crate::ordered::{insert, strictly_increasing};
use crate::schedulable::{
    BoxedChannelFactory, BoxedOperator, BoxedOperatorFactory, ChannelEndpoints, WorkerContext,
};
use crate::schedule::lists;
use crate::wake::WakeHandle;

verus! {

/// The factory at `k` is the one for the edge: no later one is.
pub open spec fn is_factory_for(
    factories: Seq<(usize, BoxedChannelFactory)>,
    edge: int,
    k: int,
) -> bool {
    &&& 0 <= k < factories.len()
    &&& factories[k].0 as int == edge
    &&& forall|j: int| k < j < factories.len() ==> (#[trigger] factories[j]).0 as int != edge
}

/// Some factory is for the edge.
pub open spec fn has_factory(factories: Seq<(usize, BoxedChannelFactory)>, edge: int) -> bool {
    exists|k: int| #[trigger] is_factory_for(factories, edge, k)
}

/// The channel of the edge can be opened.
pub open spec fn can_open(factories: Seq<(usize, BoxedChannelFactory)>, edge: int) -> bool {
    exists|k: int| #[trigger] is_factory_for(factories, edge, k) && factories[k].1.ready()
}

/// The channel of the edge was opened.
pub open spec fn is_opened(
    factories: Seq<(usize, BoxedChannelFactory)>,
    edge: int,
    wake: WakeHandle,
) -> bool {
    exists|k: int| #[trigger] is_factory_for(factories, edge, k) && factories[k].1.opened(wake)
}

/// Opens the channels of all edges. The first edge without a factory is an error.
pub fn open_channels(
    factories: Vec<(usize, BoxedChannelFactory)>,
    edge_count: usize,
    context: &WorkerContext,
    wake: &WakeHandle,
) -> (r: Result<()>)
    ensures
        r is Ok <==> forall|i: int| 0 <= i < edge_count ==> #[trigger] can_open(factories@, i),
        r is Ok ==> forall|i: int|
            0 <= i < edge_count ==> #[trigger] is_opened(factories@, i, *wake),
        r matches Err(e) ==> exists|i: int|
            {
                &&& 0 <= i < edge_count
                &&& !#[trigger] can_open(factories@, i)
                &&& forall|j: int| 0 <= j < i ==> #[trigger] can_open(factories@, j)
                &&& if has_factory(factories@, i) {
                    exists|k: int| #[trigger]
                        is_factory_for(factories@, i, k) && factories@[k].1.refuses(e)
                } else {
                    e == (Error::MissingFactory { edge_index: i as usize })
                }
            },
{
    let ghost given = factories@;
    let mut slots = factories;
    let mut edge: usize = 0;
    while edge < edge_count
        invariant
            edge <= edge_count,
            given == factories@,
            slots@.len() == given.len(),
            forall|k: int| 0 <= k < given.len() ==> (#[trigger] slots@[k]).0 == given[k].0,
            forall|k: int|
                0 <= k < given.len() && given[k].0 >= edge ==> #[trigger] slots@[k] == given[k],
            forall|i: int| 0 <= i < edge ==> #[trigger] can_open(given, i),
            forall|i: int| 0 <= i < edge ==> #[trigger] is_opened(given, i, *wake),
        decreases edge_count - edge,
    {
        let mut found: Option<usize> = None;
        let mut k: usize = 0;
        while k < slots.len()
            invariant
                k <= slots@.len(),
                slots@.len() == given.len(),
                forall|j: int| 0 <= j < given.len() ==> (#[trigger] slots@[j]).0 == given[j].0,
                found matches Some(f) ==> f < k && given[f as int].0 == edge && forall|j: int|
                    f < j < k ==> (#[trigger] given[j]).0 != edge,
                found is None ==> forall|j: int| 0 <= j < k ==> (#[trigger] given[j]).0 != edge,
            decreases slots@.len() - k,
        {
            if slots[k].0 == edge {
                found = Some(k);
            }
            k = k + 1;
        }
        match found {
            None => {
                assert(!has_factory(given, edge as int)) by {
                    if has_factory(given, edge as int) {
                        let k = choose|k: int| #[trigger] is_factory_for(given, edge as int, k);
                        assert(given[k].0 != edge);
                    }
                }
                assert(!can_open(given, edge as int));
                return Err(Error::MissingFactory { edge_index: edge });
            },
            Some(f) => {
                assert(is_factory_for(given, edge as int, f as int));
                let r = slots[f].1.build(context, wake);
                match r {
                    Ok(_) => {
                        assert(can_open(given, edge as int));
                    },
                    Err(e) => {
                        proof {
                            assert(has_factory(given, edge as int));
                            assert(!can_open(given, edge as int)) by {
                                if can_open(given, edge as int) {
                                    let k = choose|k: int| #[trigger]
                                        is_factory_for(given, edge as int, k)
                                            && given[k].1.ready();
                                    if k < f {
                                        assert(given[f as int].0 as int != edge as int);
                                    } else if k > f {
                                        assert(given[k].0 as int != edge as int);
                                    }
                                }
                            }
                        }
                        return Err(e);
                    },
                }
            },
        }
        edge = edge + 1;
    }
    Ok(())
}

/// The port of an edge at its target or at its source.
pub open spec fn port_of(e: EdgeInfo, incoming: bool) -> usize {
    if incoming {
        e.target.slot_index
    } else {
        e.source.slot_index
    }
}

/// The operator of an edge at its target or at its source.
pub open spec fn end_of(e: EdgeInfo, incoming: bool) -> usize {
    if incoming {
        e.target.operator_index
    } else {
        e.source.operator_index
    }
}

/// The edges at the inputs, or at the outputs, of an operator: all of them, in the order of their
/// ports, and at one port in the order of the edges.
pub open spec fn is_port_order(
    edges: Seq<EdgeInfo>,
    op: usize,
    incoming: bool,
    list: Seq<usize>,
) -> bool {
    &&& forall|k: int|
        0 <= k < list.len() ==> #[trigger] list[k] < edges.len() && end_of(
            edges[list[k] as int],
            incoming,
        ) == op
    &&& forall|e: int|
        0 <= e < edges.len() && end_of(#[trigger] edges[e], incoming) == op ==> list.contains(
            e as usize,
        )
    &&& forall|i: int, j: int|
        0 <= i < j < list.len() ==> port_before(
            edges,
            incoming,
            #[trigger] list[i],
            #[trigger] list[j],
        )
}

/// Edge `a` comes before edge `b`: at a lower port, or at the same port and added earlier.
pub open spec fn port_before(edges: Seq<EdgeInfo>, incoming: bool, a: usize, b: usize) -> bool {
    let pa = port_of(edges[a as int], incoming);
    let pb = port_of(edges[b as int], incoming);
    pa < pb || (pa == pb && a < b)
}

/// The port of an edge at its target or at its source.
fn edge_port(e: &EdgeInfo, incoming: bool) -> (port: usize)
    ensures
        port == port_of(*e, incoming),
{
    if incoming {
        e.target.slot_index
    } else {
        e.source.slot_index
    }
}

/// The edges at the inputs, or at the outputs, of an operator, in the order of the ports.
fn port_order(edges: &Vec<EdgeInfo>, op: usize, incoming: bool) -> (list: Vec<usize>)
    ensures
        is_port_order(edges@, op, incoming, list@),
{
    let mut list: Vec<usize> = Vec::new();
    let mut e: usize = 0;
    while e < edges.len()
        invariant
            e <= edges@.len(),
            forall|k: int|
                0 <= k < list@.len() ==> #[trigger] list@[k] < e && end_of(
                    edges@[list@[k] as int],
                    incoming,
                ) == op,
            forall|x: int|
                0 <= x < e && end_of(#[trigger] edges@[x], incoming) == op ==> list@.contains(
                    x as usize,
                ),
            forall|i: int, j: int|
                0 <= i < j < list@.len() ==> port_before(
                    edges@,
                    incoming,
                    #[trigger] list@[i],
                    #[trigger] list@[j],
                ),
        decreases edges@.len() - e,
    {
        let edge = edges[e];
        let end: usize = if incoming {
            edge.target.operator_index
        } else {
            edge.source.operator_index
        };
        let port: usize = edge_port(&edge, incoming);
        if end == op {
            let ghost before = list@;
            let mut at: usize = list.len();
            while at > 0 && edge_port(&edges[list[at - 1]], incoming) > port
                invariant
                    at <= list@.len(),
                    list@ == before,
                    forall|k: int| 0 <= k < list@.len() ==> #[trigger] list@[k] < edges@.len(),
                    forall|k: int|
                        at <= k < list@.len() ==> port_of(
                            edges@[(#[trigger] list@[k]) as int],
                            incoming,
                        ) > port,
                decreases at,
            {
                at = at - 1;
            }
            list.insert(at, e);
            proof {
                let after = list@;
                assert(after =~= before.insert(at as int, e));
                assert forall|k: int| 0 <= k < after.len() implies #[trigger] after[k] < e + 1
                    && end_of(edges@[after[k] as int], incoming) == op by {
                    if k < at {
                        assert(after[k] == before[k]);
                    } else if k > at {
                        assert(after[k] == before[k - 1]);
                    }
                }
                assert forall|x: int|
                    0 <= x < e + 1 && end_of(
                        #[trigger] edges@[x],
                        incoming,
                    ) == op implies after.contains(x as usize) by {
                    if x < e {
                        assert(before.contains(x as usize));
                        let k = choose|k: int| 0 <= k < before.len() && before[k] == x as usize;
                        if k < at {
                            assert(after[k] == x as usize);
                        } else {
                            assert(after[k + 1] == x as usize);
                        }
                    } else {
                        assert(after[at as int] == x as usize);
                    }
                }
                assert forall|i: int, j: int| 0 <= i < j < after.len() implies port_before(
                    edges@,
                    incoming,
                    #[trigger] after[i],
                    #[trigger] after[j],
                ) by {
                    let bi = if i < at {
                        i
                    } else {
                        i - 1
                    };
                    let bj = if j < at {
                        j
                    } else {
                        j - 1
                    };
                    if i != at && j != at {
                        assert(after[i] == before[bi] && after[j] == before[bj]);
                        assert(port_before(edges@, incoming, before[bi], before[bj]));
                    } else if j == at {
                        assert(after[i] == before[i]);
                        assert(at > 0);
                        if i < at - 1 {
                            assert(port_before(edges@, incoming, before[i], before[at - 1]));
                        }
                    } else {
                        assert(after[j] == before[j - 1]);
                    }
                }
            }
        }
        e = e + 1;
    }
    list
}

/// The edges at the ports of an operator.
pub fn endpoints_of(edges: &Vec<EdgeInfo>, op: usize) -> (endpoints: ChannelEndpoints)
    ensures
        is_port_order(edges@, op, true, endpoints.inputs@),
        is_port_order(edges@, op, false, endpoints.outputs@),
{
    ChannelEndpoints {
        inputs: port_order(edges, op, true),
        outputs: port_order(edges, op, false),
    }
}

/// The keys of a list.
pub open spec fn keys<A>(s: Seq<(usize, A)>) -> Seq<usize> {
    s.map_values(|x: (usize, A)| x.0)
}

/// The keys do not decrease.
pub open spec fn key_sorted<A>(s: Seq<(usize, A)>) -> bool {
    forall|i: int, j: int| 0 <= i < j < s.len() ==> (#[trigger] s[i]).0 <= (#[trigger] s[j]).0
}

/// Puts an entry behind all entries with keys up to its own.
pub open spec fn with_sorted<A>(s: Seq<(usize, A)>, x: (usize, A)) -> Seq<(usize, A)>
    decreases s.len(),
{
    if s.len() == 0 || s.last().0 <= x.0 {
        s.push(x)
    } else {
        with_sorted(s.drop_last(), x).push(s.last())
    }
}

/// The entries in the order of their keys; entries with equal keys keep their order.
pub open spec fn sorted<A>(s: Seq<(usize, A)>) -> Seq<(usize, A)>
    decreases s.len(),
{
    if s.len() == 0 {
        Seq::empty()
    } else {
        with_sorted(sorted(s.drop_last()), s.last())
    }
}

proof fn lemma_with_sorted<A>(s: Seq<(usize, A)>, x: (usize, A), at: int)
    requires
        0 <= at <= s.len(),
        forall|i: int| at <= i < s.len() ==> (#[trigger] s[i]).0 > x.0,
        at > 0 ==> s[at - 1].0 <= x.0,
    ensures
        with_sorted(s, x) == s.insert(at, x),
    decreases s.len(),
{
    if at == s.len() {
        assert(s.insert(at, x) =~= s.push(x));
    } else {
        assert(s[s.len() - 1].0 > x.0);
        lemma_with_sorted(s.drop_last(), x, at);
        assert(s.insert(at, x) =~= s.drop_last().insert(at, x).push(s.last()));
    }
}

/// Sorting keeps the entries and puts the keys in order.
pub proof fn sorting_is_sorted<A>(s: Seq<(usize, A)>)
    ensures
        key_sorted(sorted(s)),
        sorted(s).to_multiset() == s.to_multiset(),
        sorted(s).len() == s.len(),
    decreases s.len(),
{
    broadcast use vstd::seq_lib::group_to_multiset_ensures;

    if s.len() > 0 {
        sorting_is_sorted(s.drop_last());
        lemma_with_sorted_sorted(sorted(s.drop_last()), s.last());
        assert(s =~= s.drop_last().push(s.last()));
    } else {
        assert(sorted(s) =~= s);
    }
}

proof fn lemma_with_sorted_sorted<A>(s: Seq<(usize, A)>, x: (usize, A))
    requires
        key_sorted(s),
    ensures
        key_sorted(with_sorted(s, x)),
        with_sorted(s, x).to_multiset() == s.to_multiset().insert(x),
        with_sorted(s, x).len() == s.len() + 1,
        s.len() > 0 ==> with_sorted(s, x).last().0 == if s.last().0 <= x.0 {
            x.0
        } else {
            s.last().0
        },
        s.len() == 0 ==> with_sorted(s, x).last().0 == x.0,
    decreases s.len(),
{
    broadcast use vstd::seq_lib::group_to_multiset_ensures;

    if s.len() == 0 || s.last().0 <= x.0 {
        assert forall|i: int, j: int| 0 <= i < j < s.push(x).len() implies (
        #[trigger] s.push(x)[i]).0 <= (#[trigger] s.push(x)[j]).0 by {
            if j == s.len() {
                if i < s.len() - 1 {
                    assert(s[i].0 <= s[s.len() - 1].0);
                }
            }
        }
    } else {
        let rest = s.drop_last();
        assert(key_sorted(rest)) by {
            assert forall|i: int, j: int| 0 <= i < j < rest.len() implies (#[trigger] rest[i]).0
                <= (#[trigger] rest[j]).0 by {
                assert(s[i] == rest[i] && s[j] == rest[j]);
            }
        }
        lemma_with_sorted_sorted(rest, x);
        let w = with_sorted(rest, x);
        let l = s.last();
        assert(s =~= rest.push(l));
        assert forall|i: int, j: int| 0 <= i < j < w.push(l).len() implies (
        #[trigger] w.push(l)[i]).0 <= (#[trigger] w.push(l)[j]).0 by {
            if j == w.len() {
                if i < w.len() - 1 {
                    assert(w[i].0 <= w[w.len() - 1].0);
                }
                if rest.len() > 0 {
                    assert(s[rest.len() - 1].0 <= s[s.len() - 1].0);
                }
            }
        }
        assert(w.push(l).to_multiset() =~= s.to_multiset().insert(x));
    }
}

/// Sorts entries by their keys.
pub fn sort_by_key<A>(entries: Vec<(usize, A)>) -> (out: Vec<(usize, A)>)
    ensures
        out@ == sorted(entries@),
{
    let ghost given = entries@;
    let mut out: Vec<(usize, A)> = Vec::new();
    assert(given.take(0) =~= Seq::empty());
    for x in it: entries
        invariant
            it.seq() == given,
            out@ == sorted(given.take(it.index() as int)),
    {
        let ghost k = it.index() as int;
        let key: usize = x.0;
        let mut at: usize = out.len();
        while at > 0 && out[at - 1].0 > key
            invariant
                at <= out@.len(),
                forall|i: int| at <= i < out@.len() ==> (#[trigger] out@[i]).0 > key,
            decreases at,
        {
            at = at - 1;
        }
        proof {
            lemma_with_sorted(out@, x, at as int);
            assert(given.take(k + 1).drop_last() =~= given.take(k));
            assert(given.take(k + 1).last() == x);
        }
        out.insert(at, x);
    }
    assert(given.take(given.len() as int) =~= given);
    out
}

/// `map` tells for each index the last position at which it stands, and the largest number for
/// indices that stand nowhere.
pub open spec fn is_position_map(indices: Seq<usize>, map: Seq<usize>) -> bool {
    &&& forall|p: int| 0 <= p < indices.len() ==> #[trigger] indices[p] < map.len()
    &&& forall|x: int|
        0 <= x < map.len() ==> #[trigger] map[x] == usize::MAX || (map[x] < indices.len()
            && indices[map[x] as int] == x)
    &&& forall|p: int|
        0 <= p < indices.len() ==> {
            let x = #[trigger] indices[p];
            p <= map[x as int] < indices.len() && indices[map[x as int] as int] == x
        }
}

/// Tells for each index the position at which it stands.
pub fn position_map(indices: &Vec<usize>) -> (map: Vec<usize>)
    requires
        forall|p: int| 0 <= p < indices@.len() ==> #[trigger] indices@[p] < usize::MAX,
    ensures
        is_position_map(indices@, map@),
        map@.len() > 0,
{
    let mut max: usize = 0;
    let mut i: usize = 0;
    while i < indices.len()
        invariant
            i <= indices@.len(),
            max < usize::MAX,
            forall|p: int| 0 <= p < indices@.len() ==> #[trigger] indices@[p] < usize::MAX,
            forall|p: int| 0 <= p < i ==> #[trigger] indices@[p] <= max,
        decreases indices@.len() - i,
    {
        if indices[i] > max {
            max = indices[i];
        }
        i = i + 1;
    }
    let mut map: Vec<usize> = Vec::new();
    let mut k: usize = 0;
    while k < max + 1
        invariant
            k <= max + 1,
            max < usize::MAX,
            map@.len() == k,
            forall|x: int| 0 <= x < k ==> #[trigger] map@[x] == usize::MAX,
        decreases max + 1 - k,
    {
        map.push(usize::MAX);
        k = k + 1;
    }
    let mut p: usize = 0;
    while p < indices.len()
        invariant
            p <= indices@.len(),
            map@.len() == max + 1,
            forall|q: int| 0 <= q < indices@.len() ==> #[trigger] indices@[q] <= max,
            forall|x: int|
                0 <= x < map@.len() ==> #[trigger] map@[x] == usize::MAX || (map@[x] < p
                    && indices@[map@[x] as int] == x),
            forall|q: int|
                0 <= q < p ==> {
                    let x = #[trigger] indices@[q];
                    q <= map@[x as int] < p && indices@[map@[x as int] as int] == x
                },
        decreases indices@.len() - p,
    {
        map.set(indices[p], p);
        p = p + 1;
    }
    map
}

/// Some edge leads from the operator at position `a` to the operator at position `b`.
pub open spec fn adjacent(
    edges: Seq<EdgeInfo>,
    map: Seq<usize>,
    n: int,
    a: usize,
    b: usize,
) -> bool {
    exists|e: int| #[trigger] leads(edges, map, n, e, a, b)
}

/// The edge `e` leads from the operator at position `a` to the operator at position `b`.
pub open spec fn leads(
    edges: Seq<EdgeInfo>,
    map: Seq<usize>,
    n: int,
    e: int,
    a: usize,
    b: usize,
) -> bool {
    &&& 0 <= e < edges.len()
    &&& edges[e].source.operator_index < map.len()
    &&& edges[e].target.operator_index < map.len()
    &&& map[edges[e].source.operator_index as int] == a
    &&& map[edges[e].target.operator_index as int] == b
    &&& a < n
    &&& b < n
}

/// The neighbours of each operator: those that its edges lead to, or come from, in increasing
/// order.
pub open spec fn is_adjacency(
    edges: Seq<EdgeInfo>,
    map: Seq<usize>,
    n: int,
    forward: bool,
    lists: Seq<Seq<usize>>,
) -> bool {
    &&& lists.len() == n
    &&& forall|p: int| 0 <= p < n ==> strictly_increasing(#[trigger] lists[p])
    &&& forall|p: int, q: usize|
        0 <= p < n ==> (#[trigger] lists[p].contains(q) <==> if forward {
            adjacent(edges, map, n, p as usize, q)
        } else {
            adjacent(edges, map, n, q, p as usize)
        })
}

/// The neighbours of each of `n` operators.
pub fn adjacency(edges: &Vec<EdgeInfo>, map: &Vec<usize>, n: usize, forward: bool) -> (out: Vec<
    Vec<usize>,
>)
    ensures
        is_adjacency(edges@, map@, n as int, forward, lists(out@)),
{
    let mut out: Vec<Vec<usize>> = Vec::new();
    let mut p: usize = 0;
    while p < n
        invariant
            p <= n,
            out@.len() == p,
            forall|k: int|
                0 <= k < p ==> is_neighbourhood(
                    edges@,
                    map@,
                    n as int,
                    forward,
                    edges@.len() as int,
                    k as usize,
                    (#[trigger] out@[k])@,
                ),
        decreases n - p,
    {
        let mut list: Vec<usize> = Vec::new();
        let mut e: usize = 0;
        while e < edges.len()
            invariant
                e <= edges@.len(),
                is_neighbourhood(edges@, map@, n as int, forward, e as int, p, list@),
            decreases edges@.len() - e,
        {
            let edge = edges[e];
            let s: usize = edge.source.operator_index;
            let t: usize = edge.target.operator_index;
            let ghost before = list@;
            if s < map.len() && t < map.len() {
                let a: usize = map[s];
                let b: usize = map[t];
                if a < n && b < n {
                    if forward && a == p {
                        insert(&mut list, b);
                    } else if !forward && b == p {
                        insert(&mut list, a);
                    }
                }
            }
            proof {
                assert forall|q: usize| #[trigger]
                    list@.contains(q) <==> neighbours_within(
                        edges@,
                        map@,
                        n as int,
                        forward,
                        e + 1,
                        p,
                        q,
                    ) by {
                    assert(before.contains(q) <==> neighbours_within(
                        edges@,
                        map@,
                        n as int,
                        forward,
                        e as int,
                        p,
                        q,
                    ));
                    lemma_neighbours_step(edges@, map@, n as int, forward, e as int, p, q);
                }
            }
            e = e + 1;
        }
        out.push(list);
        p = p + 1;
    }
    proof {
        let ls = lists(out@);
        assert forall|k: int| 0 <= k < n implies strictly_increasing(#[trigger] ls[k]) by {
            assert(ls[k] == out@[k]@);
        }
        assert forall|k: int, q: usize| 0 <= k < n implies (#[trigger] ls[k].contains(q) <==> if forward {
            adjacent(edges@, map@, n as int, k as usize, q)
        } else {
            adjacent(edges@, map@, n as int, q, k as usize)
        }) by {
            assert(ls[k] == out@[k]@);
            assert(out@[k]@.contains(q) <==> neighbours_within(
                edges@,
                map@,
                n as int,
                forward,
                edges@.len() as int,
                k as usize,
                q,
            ));
            if forward {
                if adjacent(edges@, map@, n as int, k as usize, q) {
                    let e = choose|e: int| #[trigger]
                        leads(edges@, map@, n as int, e, k as usize, q);
                    assert(leads(edges@, map@, n as int, e, k as usize, q));
                }
            } else {
                if adjacent(edges@, map@, n as int, q, k as usize) {
                    let e = choose|e: int| #[trigger]
                        leads(edges@, map@, n as int, e, q, k as usize);
                    assert(leads(edges@, map@, n as int, e, q, k as usize));
                }
            }
        }
    }
    out
}

/// One of the first `k` edges makes `q` a neighbour of `p`.
spec fn neighbours_within(
    edges: Seq<EdgeInfo>,
    map: Seq<usize>,
    n: int,
    forward: bool,
    k: int,
    p: usize,
    q: usize,
) -> bool {
    if forward {
        exists|e: int| e < k && #[trigger] leads(edges, map, n, e, p, q)
    } else {
        exists|e: int| e < k && #[trigger] leads(edges, map, n, e, q, p)
    }
}

spec fn is_neighbourhood(
    edges: Seq<EdgeInfo>,
    map: Seq<usize>,
    n: int,
    forward: bool,
    k: int,
    p: usize,
    list: Seq<usize>,
) -> bool {
    &&& strictly_increasing(list)
    &&& forall|q: usize| #[trigger]
        list.contains(q) <==> neighbours_within(edges, map, n, forward, k, p, q)
}

proof fn lemma_neighbours_step(
    edges: Seq<EdgeInfo>,
    map: Seq<usize>,
    n: int,
    forward: bool,
    k: int,
    p: usize,
    q: usize,
)
    requires
        0 <= k < edges.len(),
    ensures
        neighbours_within(edges, map, n, forward, k + 1, p, q) <==> neighbours_within(
            edges,
            map,
            n,
            forward,
            k,
            p,
            q,
        ) || (if forward {
            leads(edges, map, n, k, p, q)
        } else {
            leads(edges, map, n, k, q, p)
        }),
{
}

/// Lists in port order with the same entries are equal.
proof fn lemma_port_order(edges: Seq<EdgeInfo>, incoming: bool, a: Seq<usize>, b: Seq<usize>)
    requires
        forall|i: int, j: int|
            0 <= i < j < a.len() ==> port_before(
                edges,
                incoming,
                #[trigger] a[i],
                #[trigger] a[j],
            ),
        forall|i: int, j: int|
            0 <= i < j < b.len() ==> port_before(
                edges,
                incoming,
                #[trigger] b[i],
                #[trigger] b[j],
            ),
        forall|x: usize| a.contains(x) <==> b.contains(x),
    ensures
        a == b,
    decreases a.len(),
{
    if a.len() == 0 {
        if b.len() > 0 {
            assert(b.contains(b[0]));
        }
        assert(a =~= b);
    } else {
        assert(a.contains(a.last()));
        assert(b.contains(a.last()));
        let k = choose|k: int| 0 <= k < b.len() && b[k] == a.last();
        assert(b.contains(b.last()));
        let j = choose|j: int| 0 <= j < a.len() && a[j] == b.last();
        if k < b.len() - 1 {
            assert(port_before(edges, incoming, b[k], b[b.len() - 1]));
            if j < a.len() - 1 {
                assert(port_before(edges, incoming, a[j], a[a.len() - 1]));
            }
        }
        let (p, q) = (a.drop_last(), b.drop_last());
        assert forall|x: usize| p.contains(x) <==> q.contains(x) by {
            if p.contains(x) {
                let i = choose|i: int| 0 <= i < p.len() && p[i] == x;
                assert(a[i] == x);
                assert(port_before(edges, incoming, a[i], a[a.len() - 1]));
                assert(b.contains(x));
                let l = choose|l: int| 0 <= l < b.len() && b[l] == x;
                assert(q[l] == x);
            }
            if q.contains(x) {
                let i = choose|i: int| 0 <= i < q.len() && q[i] == x;
                assert(b[i] == x);
                assert(port_before(edges, incoming, b[i], b[b.len() - 1]));
                assert(a.contains(x));
                let l = choose|l: int| 0 <= l < a.len() && a[l] == x;
                assert(p[l] == x);
            }
        }
        lemma_port_order(edges, incoming, p, q);
        assert(a =~= p.push(a.last()));
        assert(b =~= q.push(b.last()));
    }
}

/// The edges at the inputs, or at the outputs, of an operator, in the order of their ports.
pub open spec fn ports_at(edges: Seq<EdgeInfo>, op: usize, incoming: bool) -> Seq<usize> {
    choose|list: Seq<usize>| is_port_order(edges, op, incoming, list)
}

/// There is but one list of the edges at an operator in the order of the ports.
pub proof fn port_order_is_unique(
    edges: Seq<EdgeInfo>,
    op: usize,
    incoming: bool,
    list: Seq<usize>,
)
    requires
        is_port_order(edges, op, incoming, list),
    ensures
        list == ports_at(edges, op, incoming),
{
    let other = ports_at(edges, op, incoming);
    assert(is_port_order(edges, op, incoming, other));
    assert forall|x: usize| list.contains(x) <==> other.contains(x) by {
        if list.contains(x) {
            let k = choose|k: int| 0 <= k < list.len() && list[k] == x;
            assert(end_of(edges[list[k] as int], incoming) == op);
            assert(other.contains(x as int as usize));
        }
        if other.contains(x) {
            let k = choose|k: int| 0 <= k < other.len() && other[k] == x;
            assert(end_of(edges[other[k] as int], incoming) == op);
            assert(list.contains(x as int as usize));
        }
    }
    lemma_port_order(edges, incoming, list, other);
}

/// The edges that the factory at place `k` is handed: those at the inputs and those at the outputs of
/// its operator, in the order of the ports. A further factory for the same operator is handed none.
pub open spec fn handed<T: Timestamp>(
    factories: Seq<(usize, BoxedOperatorFactory<T>)>,
    edges: Seq<EdgeInfo>,
    k: int,
) -> (Seq<usize>, Seq<usize>) {
    let op = factories[k].0;
    if k > 0 && factories[k - 1].0 == op {
        (Seq::empty(), Seq::empty())
    } else {
        (ports_at(edges, op, true), ports_at(edges, op, false))
    }
}

/// What the factory at place `k` makes for a worker of the edges that it is handed.
pub open spec fn made_at<T: Timestamp>(
    factories: Seq<(usize, BoxedOperatorFactory<T>)>,
    edges: Seq<EdgeInfo>,
    context: WorkerContext,
    k: int,
) -> Option<BoxedOperator<T>> {
    let ends = handed(factories, edges, k);
    factories[k].1.product(context, ends.0, ends.1)
}

/// The factory at place `k` is the first that cannot make its operator; `e` says why.
pub open spec fn fails_at<T: Timestamp>(
    factories: Seq<(usize, BoxedOperatorFactory<T>)>,
    edges: Seq<EdgeInfo>,
    context: WorkerContext,
    k: int,
    e: Error,
) -> bool {
    let ends = handed(factories, edges, k);
    &&& 0 <= k < factories.len()
    &&& made_at(factories, edges, context, k) is None
    &&& forall|j: int| 0 <= j < k ==> #[trigger] made_at(factories, edges, context, j) is Some
    &&& factories[k].1.refuses(context, ends.0, ends.1, e)
}

/// Makes the operators of a worker, in the order of the factories, which is that of the indices. Each
/// factory is called once.
pub fn make_operators<T: Timestamp>(
    factories: Vec<(usize, BoxedOperatorFactory<T>)>,
    edges: &Vec<EdgeInfo>,
    context: &WorkerContext,
) -> (r: Result<Vec<BoxedOperator<T>>>)
    ensures
        match r {
            Ok(ops) => ops@.len() == factories@.len() && forall|k: int|
                0 <= k < ops@.len() ==> made_at(factories@, edges@, *context, k) == Some(
                    #[trigger] ops@[k],
                ),
            Err(e) => exists|k: int| #[trigger] fails_at(factories@, edges@, *context, k, e),
        },
{
    let ghost given = factories@;
    let mut ops: Vec<BoxedOperator<T>> = Vec::new();
    let mut last: Option<usize> = None;
    for entry in it: factories
        invariant
            it.seq() == given,
            ops@.len() == it.index(),
            last == if it.index() == 0 {
                None::<usize>
            } else {
                Some(given[it.index() - 1].0)
            },
            forall|k: int|
                0 <= k < ops@.len() ==> made_at(given, edges@, *context, k) == Some(
                    #[trigger] ops@[k],
                ),
    {
        let (index, mut factory) = entry;
        let ghost k = it.index() as int;
        let repeated = match last {
            Some(l) => l == index,
            None => false,
        };
        let endpoints = if repeated {
            ChannelEndpoints { inputs: Vec::new(), outputs: Vec::new() }
        } else {
            endpoints_of(edges, index)
        };
        proof {
            assert(given[k] == entry);
            if repeated {
                assert(endpoints.inputs@ =~= Seq::<usize>::empty());
                assert(endpoints.outputs@ =~= Seq::<usize>::empty());
            } else {
                port_order_is_unique(edges@, index, true, endpoints.inputs@);
                port_order_is_unique(edges@, index, false, endpoints.outputs@);
            }
            assert((endpoints.inputs@, endpoints.outputs@) == handed(given, edges@, k));
        }
        let r = factory.build(context, endpoints);
        match r {
            Ok(op) => {
                ops.push(op);
            },
            Err(e) => {
                proof {
                    assert forall|j: int| 0 <= j < k implies #[trigger] made_at(
                        given,
                        edges@,
                        *context,
                        j,
                    ) is Some by {
                        assert(made_at(given, edges@, *context, j) == Some(ops@[j]));
                    }
                    assert(fails_at(given, edges@, *context, k, e));
                }
                return Err(e);
            },
        }
        last = Some(index);
    }
    Ok(ops)
}

} // verus!
