//! Waking the operators that news of progress concerns.

use vstd::prelude::*;
use crate::schedule::{waking_keeps_agreement, Schedule, ScheduleView};

verus! {

/// The operator with index `op` has a position.
pub open spec fn placed(map: Seq<usize>, op: usize) -> bool {
    op < map.len() && map[op as int] != usize::MAX
}

/// Of the first `k` listed operators, those that have not finished are woken.
pub open spec fn with_listed_woken(s: ScheduleView, map: Seq<usize>, listed: Seq<usize>, k: nat) -> ScheduleView
    decreases k,
{
    if k == 0 {
        s
    } else {
        let before = with_listed_woken(s, map, listed, (k - 1) as nat);
        let op = listed[k - 1];
        if placed(map, op) && !s.done[map[op as int] as int] {
            before.with_woken(map[op as int])
        } else {
            before
        }
    }
}

/// Of the first `k` operators, those that are flagged and have not finished are woken.
pub open spec fn with_flagged_woken(s: ScheduleView, flags: Seq<bool>, k: nat) -> ScheduleView
    decreases k,
{
    if k == 0 {
        s
    } else {
        let before = with_flagged_woken(s, flags, (k - 1) as nat);
        if flags[k - 1] && !s.done[k - 1] {
            before.with_woken((k - 1) as usize)
        } else {
            before
        }
    }
}

/// Two schedules that differ at most in what is queued.
pub open spec fn same_but_queue(a: ScheduleView, b: ScheduleView) -> bool {
    &&& a.done == b.done
    &&& a.waiting == b.waiting
    &&& a.successors == b.successors
    &&& a.predecessors == b.predecessors
    &&& a.tasks == b.tasks
    &&& a.task_of == b.task_of
}

/// Wakes the listed operators that have not finished. Returns whether something was queued.
pub fn wake_listed(schedule: &mut Schedule, map: &Vec<usize>, listed: &Vec<usize>) -> (queued: bool)
    requires
        old(schedule)@.fits(old(schedule)@.done.len()),
        forall|i: int|
            0 <= i < map@.len() ==> #[trigger] map@[i] == usize::MAX || map@[i] < old(
                schedule,
            )@.done.len(),
    ensures
        final(schedule)@ == with_listed_woken(
            old(schedule)@,
            map@,
            listed@,
            listed@.len() as nat,
        ),
        final(schedule)@.fits(old(schedule)@.done.len()),
        same_but_queue(final(schedule)@, old(schedule)@),
        queued == (final(schedule)@.ready.len() > old(schedule)@.ready.len()),
        final(schedule)@.ready.len() >= old(schedule)@.ready.len(),
{
    let ghost n = schedule@.done.len();
    let mut queued = false;
    let mut i: usize = 0;
    while i < listed.len()
        invariant
            i <= listed@.len(),
            n == old(schedule)@.done.len(),
            forall|k: int|
                0 <= k < map@.len() ==> #[trigger] map@[k] == usize::MAX || map@[k] < n,
            schedule@ == with_listed_woken(old(schedule)@, map@, listed@, i as nat),
            schedule@.fits(n),
            same_but_queue(schedule@, old(schedule)@),
            schedule@.ready.len() >= old(schedule)@.ready.len(),
            queued == (schedule@.ready.len() > old(schedule)@.ready.len()),
        decreases listed@.len() - i,
    {
        let op: usize = listed[i];
        if op < map.len() {
            let pos: usize = map[op];
            if pos != usize::MAX && !schedule.done[pos] {
                proof {
                    waking_keeps_agreement(schedule@, pos, n);
                }
                let woken = schedule.wake(pos);
                queued = queued || woken;
            }
        }
        i = i + 1;
    }
    queued
}

/// Wakes the flagged operators that have not finished. Returns whether something was queued.
pub fn wake_flagged(schedule: &mut Schedule, flags: &Vec<bool>) -> (queued: bool)
    requires
        old(schedule)@.fits(old(schedule)@.done.len()),
        flags@.len() == old(schedule)@.done.len(),
    ensures
        final(schedule)@ == with_flagged_woken(old(schedule)@, flags@, flags@.len() as nat),
        final(schedule)@.fits(old(schedule)@.done.len()),
        same_but_queue(final(schedule)@, old(schedule)@),
        queued == (final(schedule)@.ready.len() > old(schedule)@.ready.len()),
        final(schedule)@.ready.len() >= old(schedule)@.ready.len(),
{
    let ghost n = schedule@.done.len();
    let mut queued = false;
    let mut p: usize = 0;
    while p < flags.len()
        invariant
            p <= flags@.len(),
            n == old(schedule)@.done.len(),
            flags@.len() == n,
            schedule@ == with_flagged_woken(old(schedule)@, flags@, p as nat),
            schedule@.fits(n),
            same_but_queue(schedule@, old(schedule)@),
            schedule@.ready.len() >= old(schedule)@.ready.len(),
            queued == (schedule@.ready.len() > old(schedule)@.ready.len()),
        decreases flags@.len() - p,
    {
        if flags[p] && !schedule.done[p] {
            proof {
                waking_keeps_agreement(schedule@, p, n);
            }
            let woken = schedule.wake(p);
            queued = queued || woken;
        }
        p = p + 1;
    }
    queued
}

} // verus!
