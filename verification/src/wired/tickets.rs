//! Which result belongs to which batch.

use vstd::prelude::*;
use crate::wired::tasks::{place_of, runs, TaskResult, TaskView};

verus! {

/// No ticket was given to two batches, and the tickets that will be given were not given yet.
pub open spec fn tickets_differ<T, D, D2>(v: TaskView<T, D, D2>) -> bool {
    &&& forall|i: int, j: int|
        0 <= i < j < v.running.len() ==> (#[trigger] v.running[i]).0 != (
        #[trigger] v.running[j]).0
    &&& forall|i: int| 0 <= i < v.running.len() ==> (#[trigger] v.running[i]).0 < v.next
}

proof fn lemma_place<T>(running: Seq<(u64, T)>, ticket: u64, i: int)
    requires
        0 <= i < running.len(),
        running[i].0 == ticket,
        forall|k: int| 0 <= k < i ==> (#[trigger] running[k]).0 != ticket,
    ensures
        place_of(running, ticket) == i,
    decreases running.len(),
{
    if i > 0 {
        assert(running[0].0 != ticket);
        let rest = running.drop_first();
        assert forall|k: int| 0 <= k < i - 1 implies (#[trigger] rest[k]).0 != ticket by {
            assert(rest[k] == running[k + 1]);
        }
        lemma_place(rest, ticket, i - 1);
    }
}

/// The result of a batch that is being processed is put behind what waits to be sent, at the time of
/// that batch; the batch is not processed any more, and all others are.
pub proof fn results_come_at_the_time_of_their_batch<T, D, D2>(
    v: TaskView<T, D, D2>,
    r: TaskResult<D2>,
    i: int,
)
    requires
        tickets_differ(v),
        0 <= i < v.running.len(),
        v.running[i].0 == r.ticket,
    ensures
        r.result matches Ok(data) ==> v.settled(r).outbox == if data@.len() > 0 {
            v.outbox.push((v.running[i].1, data@))
        } else {
            v.outbox
        },
        r.result is Err ==> v.settled(r).outbox == v.outbox,
        v.settled(r).running == v.running.remove(i),
        v.settled(r).waiting == v.waiting,
        tickets_differ(v.settled(r)),
        !runs(v.settled(r).running, r.ticket),
{
    assert forall|k: int| 0 <= k < i implies (#[trigger] v.running[k]).0 != r.ticket by {}
    lemma_place(v.running, r.ticket, i);
    assert(runs(v.running, r.ticket));
    let after = v.settled(r).running;
    assert forall|k: int| 0 <= k < after.len() implies #[trigger] after[k] == if k < i {
        v.running[k]
    } else {
        v.running[k + 1]
    } by {}
}

/// A result for a ticket that no batch has changes nothing.
pub proof fn unknown_results_change_nothing<T, D, D2>(v: TaskView<T, D, D2>, r: TaskResult<D2>)
    requires
        forall|i: int| 0 <= i < v.running.len() ==> (#[trigger] v.running[i]).0 != r.ticket,
    ensures
        v.settled(r) == v,
{
}

/// While other results come in, a batch goes on being processed, under its ticket and time.
pub proof fn others_are_not_touched<T, D, D2>(
    v: TaskView<T, D, D2>,
    r: TaskResult<D2>,
    ticket: u64,
    time: T,
)
    requires
        tickets_differ(v),
        v.running.contains((ticket, time)),
        r.ticket != ticket,
    ensures
        v.settled(r).running.contains((ticket, time)),
        tickets_differ(v.settled(r)),
{
    if runs(v.running, r.ticket) {
        let i = choose|i: int| 0 <= i < v.running.len() && (#[trigger] v.running[i]).0 == r.ticket;
        results_come_at_the_time_of_their_batch(v, r, i);
        let k = choose|k: int| 0 <= k < v.running.len() && v.running[k] == (ticket, time);
        let after = v.settled(r).running;
        if k < i {
            assert(after[k] == (ticket, time));
        } else {
            assert(after[k - 1] == (ticket, time));
        }
    }
}

/// Results of batches that are being processed, in whatever order they come: each is sent at the time
/// of its own batch, in the order in which they come, and no batch is left out.
pub proof fn results_come_in_their_order<T, D, D2>(
    v: TaskView<T, D, D2>,
    results: Seq<TaskResult<D2>>,
    times: Seq<T>,
)
    requires
        tickets_differ(v),
        times.len() == results.len(),
        forall|k: int|
            0 <= k < results.len() ==> v.running.contains(
                (#[trigger] results[k].ticket, times[k]),
            ),
        forall|j: int, k: int|
            0 <= j < k < results.len() ==> #[trigger] results[j].ticket
                != #[trigger] results[k].ticket,
        forall|k: int|
            0 <= k < results.len() ==> (#[trigger] results[k].result matches Ok(data) && data@.len()
                > 0),
    ensures
        v.settled_all(results).outbox == v.outbox + Seq::new(
            results.len(),
            |k: int| (times[k], results[k].result->Ok_0@),
        ),
        v.settled_all(results).running.len() == v.running.len() - results.len(),
        tickets_differ(v.settled_all(results)),
        forall|e: (u64, T)| #[trigger]
            v.running.contains(e) && (forall|k: int|
                0 <= k < results.len() ==> #[trigger] results[k].ticket != e.0)
                ==> v.settled_all(results).running.contains(e),
    decreases results.len(),
{
    let all = Seq::new(results.len(), |k: int| (times[k], results[k].result->Ok_0@));
    if results.len() == 0 {
        assert(v.outbox + all =~= v.outbox);
    } else {
        let n = results.len() - 1;
        let less = results.drop_last();
        results_come_in_their_order(v, less, times.drop_last());
        let mid = v.settled_all(less);
        let r = results.last();
        let e = (r.ticket, times[n]);
        assert(v.running.contains((results[n].ticket, times[n])));
        assert forall|k: int| 0 <= k < less.len() implies #[trigger] less[k].ticket != e.0 by {
            assert(results[k].ticket != results[n].ticket);
        }
        assert(mid.running.contains(e));
        let i = choose|i: int| 0 <= i < mid.running.len() && mid.running[i] == e;
        results_come_at_the_time_of_their_batch(mid, r, i);
        assert(results[n].result is Ok);
        assert(v.settled_all(results).outbox =~= v.outbox + all);
        assert forall|x: (u64, T)| #[trigger]
            v.running.contains(x) && (forall|k: int|
                0 <= k < results.len() ==> #[trigger] results[k].ticket
                    != x.0) implies v.settled_all(results).running.contains(x) by {
            assert forall|k: int| 0 <= k < less.len() implies #[trigger] less[k].ticket != x.0 by {
                assert(results[k].ticket != x.0);
            }
            assert(mid.running.contains(x));
            assert(results[n].ticket != x.0);
            others_are_not_touched(mid, r, x.0, x.1);
        }
    }
}

/// A failure is a failure of the operator just if its batch is being processed.
pub proof fn failures_are_noticed<T, D, D2>(
    v: TaskView<T, D, D2>,
    results: Seq<TaskResult<D2>>,
    k: int,
)
    requires
        tickets_differ(v),
        0 <= k < results.len(),
        forall|j: int| 0 <= j < k ==> (#[trigger] results[j]).ticket != results[k].ticket,
    ensures
        v.fails_at(results, k) <==> results[k].result is Err && exists|i: int|
            0 <= i < v.running.len() && (#[trigger] v.running[i]).0 == results[k].ticket,
{
    lemma_ticket_stays(v, results.take(k), results[k].ticket);
}

proof fn lemma_ticket_stays<T, D, D2>(
    v: TaskView<T, D, D2>,
    results: Seq<TaskResult<D2>>,
    ticket: u64,
)
    requires
        tickets_differ(v),
        forall|j: int| 0 <= j < results.len() ==> (#[trigger] results[j]).ticket != ticket,
    ensures
        runs(v.settled_all(results).running, ticket) <==> runs(v.running, ticket),
        tickets_differ(v.settled_all(results)),
    decreases results.len(),
{
    if results.len() > 0 {
        let less = results.drop_last();
        lemma_ticket_stays(v, less, ticket);
        let mid = v.settled_all(less);
        let r = results.last();
        assert(results[results.len() - 1].ticket != ticket);
        if runs(mid.running, r.ticket) {
            let p = choose|i: int|
                0 <= i < mid.running.len() && (#[trigger] mid.running[i]).0 == r.ticket;
            results_come_at_the_time_of_their_batch(mid, r, p);
            let after = mid.settled(r).running;
            if runs(mid.running, ticket) {
                let i = choose|i: int|
                    0 <= i < mid.running.len() && (#[trigger] mid.running[i]).0 == ticket;
                others_are_not_touched(mid, r, ticket, mid.running[i].1);
                let q = choose|q: int|
                    0 <= q < after.len() && after[q] == (ticket, mid.running[i].1);
                assert(after[q].0 == ticket);
            }
            if runs(after, ticket) {
                let i = choose|i: int| 0 <= i < after.len() && (#[trigger] after[i]).0 == ticket;
                if i < p {
                    assert(mid.running[i].0 == ticket);
                } else {
                    assert(mid.running[i + 1].0 == ticket);
                }
            }
        }
    }
}

/// Batches are started from the oldest on, each under a ticket of its own, and what is not started
/// goes on waiting. As many are started as may be.
pub proof fn the_oldest_are_started<T, D, D2>(v: TaskView<T, D, D2>)
    requires
        tickets_differ(v),
        v.next + v.waiting.len() <= u64::MAX,
    ensures
        ({
            let n = v.startable();
            let after = v.started(n);
            &&& n <= v.waiting.len()
            &&& after.waiting == v.waiting.skip(n as int)
            &&& after.running.len() == v.running.len() + n
            &&& forall|k: int| 0 <= k < v.running.len() ==> #[trigger] after.running[k]
                == v.running[k]
            &&& forall|k: int|
                0 <= k < n ==> #[trigger] after.running[v.running.len() + k] == (
                    (v.next + k) as u64,
                    v.waiting[k].0,
                )
            &&& after.outbox == v.outbox
            &&& tickets_differ(after)
            &&& after.waiting.len() == 0 || after.running.len() >= v.max
            &&& n > 0 ==> after.running.len() <= v.max
        }),
{
    let n = v.startable();
    let after = v.started(n);
    assert forall|i: int, j: int| 0 <= i < j < after.running.len() implies (
    #[trigger] after.running[i]).0 != (#[trigger] after.running[j]).0 by {
        if j >= v.running.len() && i < v.running.len() {
            assert(v.running[i].0 < v.next);
        }
    }
}

} // verus!
