//! What operators and probes are told of the times that may still come.

use vstd::prelude::*;
use crate::executor::{
    gathered, is_informed, is_report_of, is_shown, listed_at, outstanding_at, reported,
    DataflowExecutor, News, Report,
};
use crate::delivery::placed;
use crate::frontier::{covers, Antichain};
use crate::order::Timestamp;
use crate::progress::{
    expects, frontier_changes, is_frontier, may_arrive, reaches, reaches_within, Link, Outstanding,
};
use crate::schedulable::BoxedOperator;

verus! {

/// A way along links, from its first operator to its last.
pub open spec fn is_way(links: Seq<Link>, way: Seq<usize>) -> bool {
    &&& way.len() >= 2
    &&& forall|i: int| 0 <= i < way.len() - 1 ==> #[trigger] goes_along(links, way, i)
}

/// A link leads from one place of a way to the next.
pub open spec fn goes_along(links: Seq<Link>, way: Seq<usize>, i: int) -> bool {
    links.contains((way[i], way[i + 1]))
}

/// There is a way from one operator to another.
pub open spec fn has_way(links: Seq<Link>, a: usize, b: usize) -> bool {
    exists|way: Seq<usize>| #[trigger] is_way(links, way) && way.first() == a && way.last() == b
}

/// What is outstanding at an operator can come to the input of `op`: it waits there, or there is a way.
pub open spec fn can_come<T>(links: Seq<Link>, o: Outstanding<T>, op: usize) -> bool {
    (o.operator == op && o.queued) || has_way(links, o.operator, op)
}

/// A time of the list is at or before `t`.
pub open spec fn is_at_or_after_one<T: Timestamp>(list: Seq<T>, t: T) -> bool {
    exists|j: int| 0 <= j < list.len() && (#[trigger] list[j]).le(&t)
}

/// Something at or before `t` can still come to the input of `op`.
pub open spec fn still_comes<T: Timestamp>(
    links: Seq<Link>,
    outstanding: Seq<Outstanding<T>>,
    op: usize,
    t: T,
) -> bool {
    exists|i: int|
        0 <= i < outstanding.len() && can_come(links, #[trigger] outstanding[i], op)
            && outstanding[i].time.le(&t)
}

proof fn lemma_way_reaches(links: Seq<Link>, way: Seq<usize>)
    requires
        is_way(links, way),
    ensures
        reaches_within(links, way.first(), way.last(), (way.len() - 1) as nat),
    decreases way.len(),
{
    assert(goes_along(links, way, 0));
    let i = choose|i: int| 0 <= i < links.len() && links[i] == (way[0], way[1]);
    assert(links[i].0 == way[0]);
    if way.len() > 2 {
        let rest = way.drop_first();
        assert forall|k: int| 0 <= k < rest.len() - 1 implies #[trigger] goes_along(links, rest, k) by {
            assert(goes_along(links, way, k + 1));
        }
        lemma_way_reaches(links, rest);
        assert(rest.last() == way.last());
    }
}

proof fn lemma_reaches_by_way(links: Seq<Link>, a: usize, b: usize, n: nat) -> (way: Seq<usize>)
    requires
        reaches_within(links, a, b, n),
    ensures
        is_way(links, way),
        way.first() == a,
        way.last() == b,
    decreases n,
{
    let i = choose|i: int|
        0 <= i < links.len() && #[trigger] links[i].0 == a && (links[i].1 == b || reaches_within(
            links,
            links[i].1,
            b,
            (n - 1) as nat,
        ));
    let next = links[i].1;
    assert(links.contains((a, next)));
    if next == b {
        seq![a, b]
    } else {
        let rest = lemma_reaches_by_way(links, next, b, (n - 1) as nat);
        let way = seq![a] + rest;
        assert forall|k: int| 0 <= k < way.len() - 1 implies #[trigger] goes_along(links, way, k) by {
            if k > 0 {
                assert(goes_along(links, rest, k - 1));
            }
        }
        way
    }
}

/// One operator reaches another just if there is a way, however long.
pub proof fn ways_lead_there(links: Seq<Link>, a: usize, b: usize)
    ensures
        reaches(links, a, b) <==> has_way(links, a, b),
{
    if reaches(links, a, b) {
        let n = choose|n: nat| #[trigger] reaches_within(links, a, b, n);
        let way = lemma_reaches_by_way(links, a, b, n);
        assert(is_way(links, way));
    }
    if has_way(links, a, b) {
        let way = choose|way: Seq<usize>| #[trigger]
            is_way(links, way) && way.first() == a && way.last() == b;
        lemma_way_reaches(links, way);
    }
}

/// Where there is a way from one operator to a second and from that to a third, there is one from the
/// first to the third.
pub proof fn ways_go_on(links: Seq<Link>, a: usize, b: usize, c: usize)
    requires
        reaches(links, a, b),
        reaches(links, b, c),
    ensures
        reaches(links, a, c),
{
    ways_lead_there(links, a, b);
    ways_lead_there(links, b, c);
    ways_lead_there(links, a, c);
    let x = choose|way: Seq<usize>| #[trigger]
        is_way(links, way) && way.first() == a && way.last() == b;
    let y = choose|way: Seq<usize>| #[trigger]
        is_way(links, way) && way.first() == b && way.last() == c;
    lemma_ways_join(links, x, y);
    let way = x + y.drop_first();
    assert(way.first() == a && way.last() == c);
}

proof fn lemma_ways_join(links: Seq<Link>, x: Seq<usize>, y: Seq<usize>)
    requires
        is_way(links, x),
        is_way(links, y),
        x.last() == y.first(),
    ensures
        is_way(links, x + y.drop_first()),
{
    let way = x + y.drop_first();
    assert forall|k: int| 0 <= k < way.len() - 1 implies #[trigger] goes_along(links, way, k) by {
        if k < x.len() - 1 {
            assert(goes_along(links, x, k));
        } else {
            let j = k - (x.len() - 1);
            assert(goes_along(links, y, j));
            assert(way[k] == y[j]);
            assert(way[k + 1] == y[j + 1]);
        }
    }
}

/// A frontier tells of each time whether something at or before it can still come. No element of it is
/// superfluous.
pub proof fn frontiers_tell_what_may_come<T: Timestamp>(
    links: Seq<Link>,
    outstanding: Seq<Outstanding<T>>,
    op: usize,
    frontier: Seq<T>,
    t: T,
)
    requires
        is_frontier(links, outstanding, op, frontier),
    ensures
        is_at_or_after_one(frontier, t) <==> still_comes(links, outstanding, op, t),
        forall|i: int, j: int|
            #![trigger frontier[i], frontier[j]]
            0 <= i < frontier.len() && 0 <= j < frontier.len() && i != j ==> !frontier[i].le(
                &frontier[j],
            ),
{
    assert(covers(frontier, t) <==> expects(links, outstanding, op, t));
    if expects(links, outstanding, op, t) {
        let i = choose|i: int|
            0 <= i < outstanding.len() && may_arrive(links, #[trigger] outstanding[i], op)
                && outstanding[i].time.le(&t);
        ways_lead_there(links, outstanding[i].operator, op);
        assert(can_come(links, outstanding[i], op));
    }
    if still_comes(links, outstanding, op, t) {
        let i = choose|i: int|
            0 <= i < outstanding.len() && can_come(links, #[trigger] outstanding[i], op)
                && outstanding[i].time.le(&t);
        ways_lead_there(links, outstanding[i].operator, op);
        assert(may_arrive(links, outstanding[i], op));
    }
    if covers(frontier, t) {
        let j = choose|j: int| 0 <= j < frontier.len() && (#[trigger] frontier[j]).le(&t);
        assert(frontier[j].le(&t));
    }
}

/// Behind an operator at which something is outstanding, and at the operator itself if it waits there,
/// no frontier passes its time.
pub proof fn frontiers_do_not_pass_what_is_outstanding<T: Timestamp>(
    links: Seq<Link>,
    outstanding: Seq<Outstanding<T>>,
    op: usize,
    frontier: Seq<T>,
    i: int,
    t: T,
)
    requires
        is_frontier(links, outstanding, op, frontier),
        0 <= i < outstanding.len(),
        can_come(links, outstanding[i], op),
        outstanding[i].time.le(&t),
    ensures
        is_at_or_after_one(frontier, t),
{
    frontiers_tell_what_may_come(links, outstanding, op, frontier, t);
}

/// The times of a report, with whether they are those of waiting batches.
pub open spec fn reports_time<T>(r: Report<T>, queued: bool, t: T) -> bool {
    if queued {
        r.queued.contains(t)
    } else {
        r.held.contains(t) || r.requested.contains(t)
    }
}

proof fn lemma_reported<T>(operator: usize, r: Report<T>, queued: bool, t: T)
    ensures
        reported(operator, r).contains(Outstanding { operator, queued, time: t })
            <==> reports_time(r, queued, t),
        forall|o: Outstanding<T>| #[trigger]
            reported(operator, r).contains(o) ==> o.operator == operator,
{
    let a = outstanding_at(operator, true, r.queued);
    let b = outstanding_at(operator, false, r.held);
    let c = outstanding_at(operator, false, r.requested);
    let all = reported(operator, r);
    let o = Outstanding { operator, queued, time: t };
    if r.queued.contains(t) && queued {
        let k = choose|k: int| 0 <= k < r.queued.len() && r.queued[k] == t;
        assert(all[k] == o);
    }
    if r.held.contains(t) && !queued {
        let k = choose|k: int| 0 <= k < r.held.len() && r.held[k] == t;
        assert(all[a.len() + k] == o);
    }
    if r.requested.contains(t) && !queued {
        let k = choose|k: int| 0 <= k < r.requested.len() && r.requested[k] == t;
        assert(all[a.len() + b.len() + k] == o);
    }
    if all.contains(o) {
        let k = choose|k: int| 0 <= k < all.len() && all[k] == o;
        if k < a.len() {
            assert(r.queued[k] == t);
        } else if k < a.len() + b.len() {
            assert(r.held[k - a.len()] == t);
        } else {
            assert(r.requested[k - a.len() - b.len()] == t);
        }
    }
    assert forall|x: Outstanding<T>| #[trigger] all.contains(x) implies x.operator == operator by {
        let k = choose|k: int| 0 <= k < all.len() && all[k] == x;
    }
}

/// Just what operators that have not finished tell is outstanding.
pub proof fn what_is_told_is_outstanding<T: Timestamp>(
    operators: Seq<BoxedOperator<T>>,
    done: Seq<bool>,
    reports: Seq<Report<T>>,
    n: nat,
    o: Outstanding<T>,
)
    ensures
        gathered(operators, done, reports, n).contains(o) <==> exists|p: int|
            0 <= p < n && !done[p] && (#[trigger] operators[p]).id() == o.operator && reports_time(
                reports[p],
                o.queued,
                o.time,
            ),
    decreases n,
{
    let all = gathered(operators, done, reports, n);
    if n > 0 {
        let p = n - 1;
        what_is_told_is_outstanding(operators, done, reports, p as nat, o);
        let before = gathered(operators, done, reports, p as nat);
        let id = operators[p].id();
        let own = reported(id, reports[p]);
        lemma_reported(id, reports[p], o.queued, o.time);
        if before.contains(o) {
            let k = choose|k: int| 0 <= k < before.len() && before[k] == o;
            assert(all[k] == o);
            let q = choose|q: int|
                0 <= q < p && !done[q] && (#[trigger] operators[q]).id() == o.operator
                    && reports_time(reports[q], o.queued, o.time);
            assert(operators[q].id() == o.operator);
        }
        if !done[p] && own.contains(o) {
            let k = choose|k: int| 0 <= k < own.len() && own[k] == o;
            assert(all[before.len() + k] == o);
        }
        if all.contains(o) {
            let k = choose|k: int| 0 <= k < all.len() && all[k] == o;
            if k < before.len() {
                assert(before.contains(o));
            } else {
                assert(own[k - before.len()] == o);
                assert(own.contains(o));
                assert(operators[p].id() == o.operator);
            }
        }
    }
}

/// As long as an operator has not finished, what it tells is outstanding after progress was
/// propagated: the times of the batches that wait for it, those at which it may send something, and
/// those that it waits for.
pub proof fn open_times_are_outstanding<T: Timestamp>(
    before: DataflowExecutor<T>,
    after: DataflowExecutor<T>,
    news: News<T>,
    woke: bool,
    q: int,
    t: T,
)
    requires
        before.delivers(&after, news, woke),
        before.progress_tracker is Some,
        0 <= q < before.crew.operators@.len(),
        !before.schedule@.done[q],
        before.crew.operators@[q].holding().contains(t)
            || before.crew.operators@[q].requesting().contains(t),
    ensures
        after.progress_tracker is Some,
        after.tracker_view()->0.outstanding.contains(
            Outstanding { operator: before.crew.operators@[q].id(), queued: false, time: t },
        ),
{
    let ops = before.crew.operators@;
    let done = before.schedule@.done;
    let o = Outstanding { operator: ops[q].id(), queued: false, time: t };
    assert(is_report_of(ops[q], news.reports[q]));
    what_is_told_is_outstanding(ops, done, news.reports, ops.len(), o);
    assert(ops[q].id() == o.operator);
}

/// The operator `op` is the only one at position `p`.
pub open spec fn sits_at(map: Seq<usize>, op: usize, p: int) -> bool {
    &&& placed(map, op)
    &&& map[op as int] == p
    &&& forall|x: usize| #[trigger] placed(map, x) && map[x as int] == p ==> x == op
}

/// An operator that knew what could come knows it after progress was propagated.
pub proof fn operators_know_their_frontier<T: Timestamp>(
    before: DataflowExecutor<T>,
    after: DataflowExecutor<T>,
    news: News<T>,
    woke: bool,
    op: usize,
    p: int,
    t: T,
)
    requires
        before.delivers(&after, news, woke),
        before.progress_tracker is Some,
        0 <= p < before.crew.operators@.len(),
        sits_at(before.index_to_pos@, op, p),
        before.tracker_view()->0.operators.contains(op),
        before.crew.operators@[p].heard() matches Some(f) && is_frontier(
            before.tracker_view()->0.links,
            before.tracker_view()->0.outstanding,
            op,
            f,
        ),
    ensures
        after.crew.operators@[p].heard() is Some,
        ({
            let heard = after.crew.operators@[p].heard()->0;
            let tracker = after.tracker_view()->0;
            is_at_or_after_one(heard, t) <==> still_comes(tracker.links, tracker.outstanding, op, t)
        }),
{
    let b = before.tracker_view()->0;
    let a = after.tracker_view()->0;
    let map = before.index_to_pos@;
    let listed = b.changed(a.outstanding);
    let old_op = before.crew.operators@[p];
    let new_op = after.crew.operators@[p];
    assert(is_informed(a, map, listed, p, old_op, new_op));
    if exists|i: int| #[trigger] listed_at(map, listed, i, p) {
        let i = choose|i: int| #[trigger]
            listed_at(map, listed, i, p) && new_op.heard() is Some && is_frontier(
                a.links,
                a.outstanding,
                listed[i],
                new_op.heard()->0,
            );
        assert(placed(map, listed[i]));
        frontiers_tell_what_may_come(a.links, a.outstanding, op, new_op.heard()->0, t);
    } else {
        let f = old_op.heard()->0;
        let changes = |x: usize| frontier_changes(b.links, b.outstanding, a.outstanding, x);
        assert(!changes(op)) by {
            if changes(op) {
                let k = choose|k: int| 0 <= k < b.operators.len() && b.operators[k] == op;
                lemma_filter_keeps(b.operators, changes, k);
                let i = choose|i: int| 0 <= i < listed.len() && listed[i] == op;
                assert(listed_at(map, listed, i, p));
            }
        }
        assert forall|x: T| #[trigger] covers(f, x) <==> expects(
            a.links,
            a.outstanding,
            op,
            x,
        ) by {
            assert(expects(b.links, b.outstanding, op, x) == expects(
                b.links,
                a.outstanding,
                op,
                x,
            ));
        }
        frontiers_tell_what_may_come(a.links, a.outstanding, op, f, t);
    }
}

pub(crate) proof fn lemma_filter_keeps<X>(s: Seq<X>, keep: spec_fn(X) -> bool, i: int)
    requires
        0 <= i < s.len(),
        keep(s[i]),
    ensures
        s.filter(keep).contains(s[i]),
    decreases s.len(),
{
    reveal(Seq::filter);
    let less = s.drop_last();
    let kept = s.filter(keep);
    if i < less.len() {
        lemma_filter_keeps(less, keep, i);
        let k = choose|k: int| 0 <= k < less.filter(keep).len() && less.filter(keep)[k] == less[i];
        assert(kept[k] == s[i]);
    } else {
        assert(kept[kept.len() - 1] == s[i]);
    }
}

/// No operator behind another is told that a time is past at which the other one may still send
/// something.
pub proof fn no_one_is_told_too_much<T: Timestamp>(
    before: DataflowExecutor<T>,
    after: DataflowExecutor<T>,
    news: News<T>,
    woke: bool,
    q: int,
    held: T,
    op: usize,
    p: int,
    t: T,
)
    requires
        before.delivers(&after, news, woke),
        before.progress_tracker is Some,
        0 <= p < before.crew.operators@.len(),
        0 <= q < before.crew.operators@.len(),
        sits_at(before.index_to_pos@, op, p),
        before.tracker_view()->0.operators.contains(op),
        before.crew.operators@[p].heard() matches Some(f) && is_frontier(
            before.tracker_view()->0.links,
            before.tracker_view()->0.outstanding,
            op,
            f,
        ),
        !before.schedule@.done[q],
        before.crew.operators@[q].holding().contains(held),
        has_way(before.tracker_view()->0.links, before.crew.operators@[q].id(), op),
        held.le(&t),
    ensures
        after.crew.operators@[p].heard() is Some,
        is_at_or_after_one(after.crew.operators@[p].heard()->0, t),
{
    open_times_are_outstanding(before, after, news, woke, q, held);
    operators_know_their_frontier(before, after, news, woke, op, p, t);
    let tracker = after.tracker_view()->0;
    let o = Outstanding {
        operator: before.crew.operators@[q].id(),
        queued: false,
        time: held,
    };
    let i = choose|i: int| 0 <= i < tracker.outstanding.len() && tracker.outstanding[i] == o;
    assert(can_come(tracker.links, tracker.outstanding[i], op));
}

/// After progress was propagated each probe has been shown a frontier that tells, of each time,
/// whether something at or before it can still come to the operator that the probe watches.
pub proof fn probes_are_shown_what_may_come<T: Timestamp>(
    before: DataflowExecutor<T>,
    after: DataflowExecutor<T>,
    news: News<T>,
    woke: bool,
    n: int,
) -> (shown: (Option<Antichain<T>>, Antichain<T>))
    requires
        before.delivers(&after, news, woke),
        before.progress_tracker is Some,
        0 <= n < before.probes@.len(),
    ensures
        before.probes@[n].1.seen().turned(shown.0, Some(shown.1)),
        after.progress_tracker is Some,
        forall|t: T| #[trigger]
            is_at_or_after_one(shown.1@, t) <==> still_comes(
                after.tracker_view()->0.links,
                after.tracker_view()->0.outstanding,
                before.probes@[n].0,
                t,
            ),
{
    let a = after.tracker_view()->0;
    let probe = before.probes@[n];
    assert(is_shown(a, probe));
    let (x, f) = choose|x: Option<Antichain<T>>, f: Antichain<T>| #[trigger]
        probe.1.seen().turned(x, Some(f)) && is_frontier(
            a.links,
            a.outstanding,
            probe.0,
            f@,
        );
    assert forall|t: T| #[trigger] is_at_or_after_one(f@, t) <==> still_comes(
        a.links,
        a.outstanding,
        probe.0,
        t,
    ) by {
        frontiers_tell_what_may_come(a.links, a.outstanding, probe.0, f@, t);
    }
    (x, f)
}

/// As long as an operator in front of a probe has not finished, the probe is shown nothing by which a
/// time were past at which that operator may still send something.
pub proof fn probes_wait_for_those_in_front<T: Timestamp>(
    before: DataflowExecutor<T>,
    after: DataflowExecutor<T>,
    news: News<T>,
    woke: bool,
    n: int,
    q: int,
    held: T,
    t: T,
) -> (shown: (Option<Antichain<T>>, Antichain<T>))
    requires
        before.delivers(&after, news, woke),
        before.progress_tracker is Some,
        0 <= n < before.probes@.len(),
        0 <= q < before.crew.operators@.len(),
        !before.schedule@.done[q],
        before.crew.operators@[q].holding().contains(held),
        has_way(
            before.tracker_view()->0.links,
            before.crew.operators@[q].id(),
            before.probes@[n].0,
        ),
        held.le(&t),
    ensures
        before.probes@[n].1.seen().turned(shown.0, Some(shown.1)),
        is_at_or_after_one(shown.1@, t),
{
    let shown = probes_are_shown_what_may_come(before, after, news, woke, n);
    open_times_are_outstanding(before, after, news, woke, q, held);
    let tracker = after.tracker_view()->0;
    let o = Outstanding {
        operator: before.crew.operators@[q].id(),
        queued: false,
        time: held,
    };
    let i = choose|i: int| 0 <= i < tracker.outstanding.len() && tracker.outstanding[i] == o;
    assert(can_come(tracker.links, tracker.outstanding[i], before.probes@[n].0));
    assert(still_comes(tracker.links, tracker.outstanding, before.probes@[n].0, t));
    shown
}

} // verus!
