//! The times of batches that go round in a loop.

use vstd::prelude::*;
use crate::handles::InputView;
use crate::error::Result;
use crate::order::{PathSummary, Product, Timestamp};
use crate::wired::relay::RelayLogic;
use crate::wired::streams::{
    leads_all, lemma_retimed_same, retimed, Entering, Leaving, RetimeLogic, Returning, TimeChange,
};

verus! {

/// Where a batch enters a loop.
pub open spec fn entry<T: Timestamp, TInner: Timestamp>(t: T) -> Option<Product<T, TInner>> {
    TimeChange::<T, Product<T, TInner>>::leads(&Entering, t)
}

/// Where the way back of a loop leads.
pub open spec fn next_round<T: Timestamp, TInner: Timestamp>(
    summary: TInner::Summary,
    t: Product<T, TInner>,
) -> Option<Product<T, TInner>> {
    TimeChange::<Product<T, TInner>, Product<T, TInner>>::leads(&Returning { summary }, t)
}

/// Where the way out of a loop leads.
pub open spec fn exit<T: Timestamp, TInner: Timestamp>(t: Product<T, TInner>) -> Option<T> {
    TimeChange::<Product<T, TInner>, T>::leads(&Leaving, t)
}

/// A summary says by how much a time advances: the times that result from it are later by that much,
/// and there is none where that would be too much.
pub proof fn summaries_add_up(s: u32, t: u32, l: u64, u: u64)
    ensures
        PathSummary::<u32>::result(&s, &t) matches Some(r) ==> r - t == s,
        PathSummary::<u32>::result(&s, &t) is Some <==> s + t <= u32::MAX,
        PathSummary::<u64>::result(&l, &u) matches Some(r) ==> r - u == l,
        PathSummary::<u64>::result(&l, &u) is Some <==> l + u <= u64::MAX,
{
}

/// On the way back of a loop the inner time advances by the summary, and the outer time stays.
pub proof fn the_way_back_advances<T: Timestamp>(outer: T, s: u32, i: u32)
    ensures
        i + s <= u32::MAX ==> next_round::<T, u32>(s, Product { outer, inner: i }) == Some(
            Product { outer, inner: (i + s) as u32 },
        ),
        i + s > u32::MAX ==> next_round::<T, u32>(s, Product { outer, inner: i }) is None,
{
}

/// On the way back of a loop the inner time advances by the summary, and the outer time stays.
pub proof fn the_long_way_back_advances<T: Timestamp>(outer: T, s: u64, i: u64)
    ensures
        i + s <= u64::MAX ==> next_round::<T, u64>(s, Product { outer, inner: i }) == Some(
            Product { outer, inner: (i + s) as u64 },
        ),
        i + s > u64::MAX ==> next_round::<T, u64>(s, Product { outer, inner: i }) is None,
{
}

/// On the way back of a loop the inner time becomes what results from it by the summary, if anything
/// does, and the outer time stays.
pub proof fn the_way_back_follows_the_summary<T: Timestamp, TInner: Timestamp>(
    summary: TInner::Summary,
    t: Product<T, TInner>,
)
    ensures
        next_round(summary, t) is Some <==> summary.result(&t.inner) is Some,
        next_round(summary, t) matches Some(next) ==> next.outer == t.outer && summary.result(
            &t.inner,
        ) == Some(next.inner),
{
}

/// A batch that enters a loop with a summary of `s`, goes round `k` times, and leaves the loop: its
/// inner time is `k` times `s` then, and it leaves with the time that it came with.
pub proof fn rounds_are_counted<T: Timestamp>(
    t: T,
    s: u32,
    times: Seq<Product<T, u32>>,
    k: int,
)
    requires
        0 <= k < times.len(),
        entry::<T, u32>(t) == Some(times[0]),
        forall|j: int|
            0 <= j < times.len() - 1 ==> next_round::<T, u32>(s, #[trigger] times[j]) == Some(
                times[j + 1],
            ),
    ensures
        times[k].inner == k * s,
        times[k].outer == t,
        exit(times[k]) == Some(t),
    decreases k,
{
    if k > 0 {
        rounds_are_counted(t, s, times, k - 1);
        assert(next_round::<T, u32>(s, times[k - 1]) == Some(times[k - 1 + 1]));
        the_way_back_advances(times[k - 1].outer, s, times[k - 1].inner);
        assert(k * s == (k - 1) * s + s) by (nonlinear_arith);
    }
}

/// At a border of a loop, batches whose times lead nowhere are left out, and so are empty ones. All
/// others keep their records and their order, and have the time that theirs leads to.
pub proof fn borders_keep_records_and_order<T1, T2, D, C: TimeChange<T1, T2>>(
    change: C,
    given: Seq<(T1, Seq<D>)>,
)
    ensures
        retimed(given, leads_all::<T1, T2, D, C>(change, given)) == given.filter_map(
            |b: (T1, Seq<D>)|
                match change.leads(b.0) {
                    Some(t) if b.1.len() > 0 => Some((t, b.1)),
                    _ => None,
                },
        ),
    decreases given.len(),
{
    let f = |b: (T1, Seq<D>)|
        match change.leads(b.0) {
            Some(t) if b.1.len() > 0 => Some((t, b.1)),
            _ => None,
        };
    if given.len() > 0 {
        let less = given.drop_last();
        borders_keep_records_and_order::<T1, T2, D, C>(change, less);
        lemma_retimed_same(
            less,
            leads_all::<T1, T2, D, C>(change, given),
            leads_all::<T1, T2, D, C>(change, less),
        );
    }
    assert(retimed(given, leads_all::<T1, T2, D, C>(change, given)) =~= given.filter_map(f));
}

/// A border of a loop, in one go: all that is there is read, and nothing is sent but what was read, at
/// the times that it leads to.
pub proof fn borders_pass_everything_on<T1, T2, D, C: TimeChange<T1, T2>>(
    logic: RetimeLogic<C>,
    after: RetimeLogic<C>,
    input: InputView<T1, D>,
    rest: InputView<T1, D>,
    out: Seq<(T2, Seq<D>)>,
    r: Result<()>,
)
    requires
        RelayLogic::<T1, D, T2, D>::runs(&logic, &after, input, rest, out, r),
    ensures
        r is Ok,
        after == logic,
        rest.pending.len() == 0,
        rest.exhausted == input.exhausted,
        out == input.pending.filter_map(
            |b: (T1, Seq<D>)|
                match logic.change.leads(b.0) {
                    Some(t) if b.1.len() > 0 => Some((t, b.1)),
                    _ => None,
                },
        ),
{
    borders_keep_records_and_order::<T1, T2, D, C>(logic.change, input.pending);
}

} // verus!
