//! Times, and where streams lead in scopes.

use vstd::prelude::*;
use crate::graph::EdgeInfo;
use crate::handles::{with_batch, without_empty};
use crate::operators::binary::is_joined;
use crate::operators::branch::is_split_off;
use crate::operators::feedback::{entered, left};
use crate::order::{PartialOrder, PathSummary, Product, Timestamp};
use crate::scope::ScopeView;
use crate::stream::StreamView;

verus! {

/// A time inside a loop is at or before another just if it is so outside the loop and inside it; of two
/// such times the time outside decides which is earlier, and only then the time inside.
pub proof fn products_are_ordered_in_both_parts<TOuter: Timestamp, TInner: Timestamp>(
    a: Product<TOuter, TInner>,
    b: Product<TOuter, TInner>,
)
    ensures
        a.le(&b) <==> a.outer.le(&b.outer) && a.inner.le(&b.inner),
        a.outer.earlier(&b.outer) ==> a.earlier(&b) && !b.earlier(&a),
        a.outer == b.outer ==> (a.earlier(&b) <==> a.inner.earlier(&b.inner)),
        Product::<TOuter, TInner>::least().outer == TOuter::least(),
        Product::<TOuter, TInner>::least().inner == TInner::least(),
{
    a.outer.one_is_earlier(&b.outer);
}

/// Numbers are ordered as numbers, and the least is 0.
pub proof fn numbers_are_ordered(a: u64, b: u64, c: u32, d: u32)
    ensures
        PartialOrder::le(&a, &b) <==> a <= b,
        PartialOrder::le(&c, &d) <==> c <= d,
        a.earlier(&b) <==> a < b,
        c.earlier(&d) <==> c < d,
        <u64 as Timestamp>::least() == 0,
        <u32 as Timestamp>::least() == 0,
{
}

/// A summary of a time inside a loop advances both parts, each by its own part of the summary, and
/// leads somewhere just if both parts do.
pub proof fn summaries_advance_both_parts<TOuter: Timestamp, TInner: Timestamp>(
    s: Product<TOuter::Summary, TInner::Summary>,
    t: Product<TOuter, TInner>,
)
    ensures
        PathSummary::<Product<TOuter, TInner>>::result(&s, &t) matches Some(r) ==> s.outer.result(
            &t.outer,
        ) == Some(r.outer) && s.inner.result(&t.inner) == Some(r.inner),
        s.outer.result(&t.outer) is Some && s.inner.result(&t.inner) is Some ==> PathSummary::<
            Product<TOuter, TInner>,
        >::result(&s, &t) is Some,
{
}

/// A batch with records is put behind those that are there, as it is; one without records adds nothing.
pub proof fn batches_are_put_behind<T, D>(s: Seq<(T, Seq<D>)>, time: T, data: Seq<D>, i: int)
    ensures
        data.len() > 0 ==> with_batch(s, time, data).len() == s.len() + 1 && with_batch(
            s,
            time,
            data,
        ).last() == (time, data),
        data.len() == 0 ==> with_batch(s, time, data).len() == s.len(),
        0 <= i < s.len() ==> with_batch(s, time, data)[i] == s[i],
{
}

/// Leaving out empty batches loses no record: every batch with records stays, in the order in which they
/// were.
pub proof fn only_empty_batches_are_left_out<T, D>(s: Seq<(T, Seq<D>)>, t: Seq<(T, Seq<D>)>)
    ensures
        without_empty(s + t) == without_empty(s) + without_empty(t),
        forall|b: (T, Seq<D>)| #[trigger]
            without_empty(s).contains(b) <==> s.contains(b) && b.1.len() > 0,
        (forall|i: int| 0 <= i < s.len() ==> (#[trigger] s[i]).1.len() > 0) ==> without_empty(s)
            == s,
    decreases t.len(),
{
    let f = |b: (T, Seq<D>)| b.1.len() > 0;
    Seq::filter_distributes_over_add(s, t, f);
    assert forall|b: (T, Seq<D>)| #[trigger] without_empty(s).contains(b) <==> s.contains(b)
        && b.1.len() > 0 by {
        lemma_kept(s, b);
    }
    if forall|i: int| 0 <= i < s.len() ==> (#[trigger] s[i]).1.len() > 0 {
        lemma_all_kept(s);
    }
}

proof fn lemma_kept<T, D>(s: Seq<(T, Seq<D>)>, b: (T, Seq<D>))
    ensures
        without_empty(s).contains(b) <==> s.contains(b) && b.1.len() > 0,
    decreases s.len(),
{
    reveal(Seq::filter);
    if s.len() > 0 {
        let rest = s.drop_last();
        lemma_kept(rest, b);
        let kept = without_empty(rest);
        assert(s =~= rest.push(s.last()));
        if s.contains(b) && b.1.len() > 0 {
            let i = choose|i: int| 0 <= i < s.len() && s[i] == b;
            if i < rest.len() {
                assert(rest[i] == b);
                let k = choose|k: int| 0 <= k < kept.len() && kept[k] == b;
                assert(without_empty(s)[k] == b);
            } else {
                assert(without_empty(s)[kept.len() as int] == b);
            }
        }
        if without_empty(s).contains(b) {
            let k = choose|k: int| 0 <= k < without_empty(s).len() && without_empty(s)[k] == b;
            if k < kept.len() {
                assert(kept[k] == b);
                let i = choose|i: int| 0 <= i < rest.len() && rest[i] == b;
                assert(s[i] == b);
            } else {
                assert(s[s.len() - 1] == b);
            }
        }
    }
}

proof fn lemma_all_kept<T, D>(s: Seq<(T, Seq<D>)>)
    requires
        forall|i: int| 0 <= i < s.len() ==> (#[trigger] s[i]).1.len() > 0,
    ensures
        without_empty(s) == s,
    decreases s.len(),
{
    reveal(Seq::filter);
    if s.len() > 0 {
        let rest = s.drop_last();
        assert forall|i: int| 0 <= i < rest.len() implies (#[trigger] rest[i]).1.len() > 0 by {
            assert(rest[i] == s[i]);
        }
        lemma_all_kept(rest);
        assert(s[s.len() - 1].1.len() > 0);
        assert(rest.push(s.last()) =~= s);
    }
}

/// An edge joins a stream to input `k` of the operator `i`.
pub open spec fn brings(edge: EdgeInfo, stream: StreamView, i: int, k: int) -> bool {
    &&& edge.source == stream.source
    &&& edge.source_region == stream.stage_id
    &&& edge.target.operator_index == i
    &&& edge.target.slot_index == k
    &&& edge.kind is Pipeline
}

/// Everything that a scope held is still there.
pub open spec fn keeps_all(before: ScopeView, after: ScopeView) -> bool {
    &&& after.graph.edges.len() >= before.graph.edges.len()
    &&& forall|e: int|
        0 <= e < before.graph.edges.len() ==> #[trigger] after.graph.edges[e]
            == before.graph.edges[e]
    &&& after.graph.feedback_edges == before.graph.feedback_edges
    &&& after.parallelism == before.parallelism
    &&& after.name == before.name
    &&& after.addr == before.addr
}

/// A stream enters a loop at a port of its own of the operator that stands for the loop, which has one
/// input more.
pub proof fn streams_enter_at_their_own_port(
    parent: ScopeView,
    stream: StreamView,
    child: usize,
    slot: usize,
)
    requires
        parent.graph.operators.contains_key(child) ==> parent.graph.operators[child].input_count
            < usize::MAX,
    ensures
        ({
            let a = entered(parent, stream, child, slot);
            &&& keeps_all(parent, a)
            &&& a.graph.edges.len() == parent.graph.edges.len() + 1
            &&& brings(a.graph.edges.last(), stream, child as int, slot as int)
            &&& a.next_index == parent.next_index
            &&& parent.graph.operators.contains_key(child) ==> a.graph.operators[child].input_count
                == parent.graph.operators[child].input_count + 1
                && a.graph.operators[child].output_count
                == parent.graph.operators[child].output_count
            &&& forall|i: usize|
                i != child && parent.graph.operators.contains_key(i)
                    ==> #[trigger] a.graph.operators.contains_key(i) && a.graph.operators[i]
                    == parent.graph.operators[i]
        }),
{
}

/// A stream leaves a loop through a port of its own of the border, which is operator 0 inside.
pub proof fn streams_leave_through_their_own_port(child: ScopeView, stream: StreamView)
    requires
        0 <= child.egress < usize::MAX,
    ensures
        ({
            let a = left(child, stream);
            &&& keeps_all(child, a)
            &&& a.graph.edges.len() == child.graph.edges.len() + 1
            &&& brings(a.graph.edges.last(), stream, 0, child.egress)
            &&& a.egress == child.egress + 1
            &&& a.ingress == child.ingress
            &&& a.graph.operators == child.graph.operators
        }),
{
}

/// An operator with two inputs gets the next number; its first input reads the one stream and its second
/// the other.
pub proof fn two_streams_meet(
    before: ScopeView,
    after: ScopeView,
    name: Seq<char>,
    l: StreamView,
    r: StreamView,
)
    requires
        is_joined(before, after, name, l, r),
        0 <= before.next_index < usize::MAX,
    ensures
        keeps_all(before, after),
        after.next_index == before.next_index + 1,
        after.graph.operators.contains_key(before.next_index as usize),
        after.graph.operators[before.next_index as usize].name@ == name,
        after.graph.operators[before.next_index as usize].region_id == l.stage_id,
        after.graph.edges.len() == before.graph.edges.len() + 2,
        brings(after.graph.edges[before.graph.edges.len() as int], l, before.next_index, 0),
        brings(after.graph.edges[before.graph.edges.len() + 1int], r, before.next_index, 1),
{
}

/// An operator with two outputs gets the next number, and reads the stream.
pub proof fn streams_are_split_behind_themselves(
    before: ScopeView,
    after: ScopeView,
    name: Seq<char>,
    stream: StreamView,
)
    requires
        is_split_off(before, after, name, stream),
        0 <= before.next_index < usize::MAX,
    ensures
        keeps_all(before, after),
        after.next_index == before.next_index + 1,
        after.graph.operators.contains_key(before.next_index as usize),
        after.graph.operators[before.next_index as usize].name@ == name,
        after.graph.operators[before.next_index as usize].input_count == 1,
        after.graph.operators[before.next_index as usize].output_count == 2,
        after.graph.edges.len() == before.graph.edges.len() + 1,
        brings(after.graph.edges.last(), stream, before.next_index, 0),
{
}

} // verus!
