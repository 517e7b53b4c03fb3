//! What readers see of a log, and how much may wait for them.

use vstd::prelude::*;
use crate::channel::ChannelView;
use crate::strand::{fitting, noted, read_by_all, some_read, LogView, Seat, Within};
use crate::stream::Slot;
use crate::wired::outbox::{is_copy, same_or_cloned};

verus! {

/// How many batches that a log holds a reader has already read.
pub open spec fn has_behind(seat: Seat, past: int) -> int {
    if seat.cursor > past {
        seat.cursor - past
    } else {
        0
    }
}

proof fn lemma_fitting(seats: Seq<Seat>, past: int, most: int, n: nat, k: int)
    requires
        n <= seats.len(),
    ensures
        fitting(seats, past, most, n) <= most,
        0 <= k < n && !seats[k].gone ==> fitting(seats, past, most, n) <= seats[k].limit
            + has_behind(seats[k], past),
        fitting(seats, past, most, n) == most || exists|i: int|
            0 <= i < n && !(#[trigger] seats[i]).gone && fitting(seats, past, most, n)
                == seats[i].limit + has_behind(seats[i], past),
    decreases n,
{
    if n > 0 {
        lemma_fitting(seats, past, most, (n - 1) as nat, k);
        let before = fitting(seats, past, most, (n - 1) as nat);
        if fitting(seats, past, most, n) == before && before != most {
            let i = choose|i: int|
                0 <= i < n - 1 && !(#[trigger] seats[i]).gone && before == seats[i].limit
                    + has_behind(seats[i], past);
            assert(!seats[i].gone);
        } else if fitting(seats, past, most, n) != before {
            assert(!seats[n - 1].gone);
        }
    }
}

/// There is room for a batch only as long as no more wait for any reader than its limit, and no more in
/// all than the log may hold; and as long as that is so, there is room.
pub proof fn the_slowest_reader_decides<T, D>(v: LogView<T, D>, bounds: Within, k: int)
    ensures
        ({
            let a = v.fitted(bounds);
            let held = a.channel.batches.len();
            let past = a.past.len() as int;
            &&& a.channel.batches == v.channel.batches
            &&& a.past == v.past
            &&& a.seats == v.seats
            &&& a.channel.closed == v.channel.closed
            &&& held <= a.channel.capacity
            &&& held < a.channel.capacity ==> a.channel.capacity <= bounds.limit
            &&& 0 <= k < a.seats.len() && !a.seats[k].gone && held < a.channel.capacity && past
                <= a.seats[k].cursor ==> past + a.channel.capacity - a.seats[k].cursor
                <= a.seats[k].limit
            &&& held < bounds.limit && (forall|i: int|
                0 <= i < a.seats.len() && !(#[trigger] a.seats[i]).gone ==> past + held
                    - a.seats[i].cursor < a.seats[i].limit && past <= a.seats[i].cursor) ==> held
                < a.channel.capacity
        }),
{
    let past = v.past.len() as int;
    let n = v.seats.len();
    lemma_fitting(v.seats, past, bounds.limit as int, n, k);
    let room = fitting(v.seats, past, bounds.limit as int, n);
    if room != bounds.limit {
        let i = choose|i: int|
            0 <= i < n && !(#[trigger] v.seats[i]).gone && room == v.seats[i].limit + has_behind(
                v.seats[i],
                past,
            );
        assert(!v.fitted(bounds).seats[i].gone);
    }
}

proof fn lemma_least(seats: Seq<Seat>, most: int, n: nat, k: int)
    requires
        n <= seats.len(),
        0 <= most,
    ensures
        0 <= read_by_all(seats, most, n) <= most,
        0 <= k < n && !seats[k].gone ==> read_by_all(seats, most, n) <= seats[k].cursor,
        read_by_all(seats, most, n) == most || exists|i: int|
            0 <= i < n && !(#[trigger] seats[i]).gone && read_by_all(seats, most, n)
                == seats[i].cursor,
    decreases n,
{
    if n > 0 {
        lemma_least(seats, most, (n - 1) as nat, k);
        let before = read_by_all(seats, most, (n - 1) as nat);
        if read_by_all(seats, most, n) == before && before != most {
            let i = choose|i: int|
                0 <= i < n - 1 && !(#[trigger] seats[i]).gone && before == seats[i].cursor;
            assert(!seats[i].gone);
        } else if read_by_all(seats, most, n) != before {
            assert(!seats[n - 1].gone);
        }
    }
}

/// What a log was told of a reader is noted for that reader and for no other.
pub proof fn each_reader_has_a_place(
    seats: Seq<Seat>,
    port: Slot,
    cursor: usize,
    gone: bool,
    k: int,
)
    requires
        0 <= k < seats.len(),
    ensures
        noted(seats, port, cursor, gone).len() == seats.len(),
        noted(seats, port, cursor, gone)[k].port == seats[k].port,
        noted(seats, port, cursor, gone)[k].limit == seats[k].limit,
        seats[k].port != port ==> noted(seats, port, cursor, gone)[k] == seats[k],
        seats[k].port == port ==> noted(seats, port, cursor, gone)[k].cursor == cursor && (
        noted(seats, port, cursor, gone)[k].gone <==> seats[k].gone || gone),
{
}

/// A log forgets, as far as there are readers, just what all of them have read.
pub proof fn what_all_have_read_is_forgotten<T, D>(v: LogView<T, D>, k: int)
    requires
        v.written().len() <= usize::MAX,
        exists|i: int| 0 <= i < v.seats.len() && !(#[trigger] v.seats[i]).gone,
    ensures
        ({
            let a = v.pruned();
            &&& a.written() == v.written()
            &&& a.seats == v.seats
            &&& a.past.len() >= v.past.len()
            &&& a.past.len() > v.past.len() && 0 <= k < v.seats.len() && !v.seats[k].gone
                ==> a.past.len() <= v.seats[k].cursor
            &&& a.past.len() == v.written().len() || exists|i: int|
                0 <= i < v.seats.len() && !(#[trigger] v.seats[i]).gone && v.seats[i].cursor
                    <= a.past.len()
        }),
{
    let all = v.written();
    let n = v.seats.len();
    let read = read_by_all(v.seats, all.len() as int, n);
    lemma_least(v.seats, all.len() as int, n, k);
    assert(some_read(v.seats));
    assert(all.take(read) + all.skip(read) =~= all);
    if read != all.len() {
        let i = choose|i: int|
            0 <= i < n && !(#[trigger] v.seats[i]).gone && read == v.seats[i].cursor;
        assert(!v.seats[i].gone && v.seats[i].cursor <= v.pruned().past.len());
    }
}

/// A log whose readers have all gone takes anything, to forget it, unless it lasts; as long as there is
/// a reader it does not.
pub proof fn logs_without_readers_are_abandoned<T, D>(v: LogView<T, D>, bounds: Within)
    requires
        v.written().len() <= usize::MAX,
        v.seats.len() > 0,
    ensures
        (forall|i: int| 0 <= i < v.seats.len() ==> (#[trigger] v.seats[i]).gone) && !bounds.lasting
            ==> v.deserted(bounds).channel.abandoned && v.deserted(
            bounds,
        ).channel.batches.len() == 0,
        (exists|i: int| 0 <= i < v.seats.len() && !(#[trigger] v.seats[i]).gone) || bounds.lasting
            ==> v.deserted(bounds) == v,
        v.deserted(bounds).written() == v.written(),
{
    assert(v.written() + Seq::<(T, Seq<D>)>::empty() =~= v.written());
}

/// A new reader begins with nothing read, behind those that are there.
pub proof fn new_readers_begin_at_the_start<T, D>(
    v: LogView<T, D>,
    port: Slot,
    limit: usize,
    bounds: Within,
)
    ensures
        ({
            let a = v.enrolled(port, limit, bounds);
            &&& a.seats.len() == v.seats.len() + 1
            &&& forall|k: int| 0 <= k < v.seats.len() ==> #[trigger] a.seats[k] == v.seats[k]
            &&& a.seats.last().port == port
            &&& a.seats.last().cursor == 0
            &&& a.seats.last().limit == limit
            &&& !a.seats.last().gone
            &&& a.channel.batches == v.channel.batches
            &&& a.past == v.past
        }),
{
}

/// A reader sees the batches that come next in the log, with their times and records in their order, as
/// many as it may see at a time. It sees the end just when the log is closed and nothing comes behind
/// what it sees.
pub proof fn readers_see_what_comes_next<T, D: Clone>(
    v: LogView<T, D>,
    from: int,
    most: int,
    at: int,
    c: ChannelView<T, D>,
    i: int,
)
    requires
        v.shows(from, most, at, c),
        v.written().len() <= usize::MAX,
        0 <= most,
    ensures
        v.past.len() <= from <= v.written().len() ==> at == from,
        v.past.len() <= at <= v.written().len(),
        c.batches.len() == if v.written().len() - at <= most {
            v.written().len() - at
        } else {
            most
        },
        0 <= i < c.batches.len() ==> c.batches[i].0 == v.written()[at + i].0
            && c.batches[i].1.len() == v.written()[at + i].1.len(),
        0 <= i < c.batches.len() ==> forall|r: int|
            0 <= r < c.batches[i].1.len() ==> ({
                ||| #[trigger] c.batches[i].1[r] == v.written()[at + i].1[r]
                ||| cloned(v.written()[at + i].1[r], c.batches[i].1[r])
            }),
        c.closed <==> v.channel.closed && at + c.batches.len() == v.written().len(),
        !c.abandoned,
{
    let rest = v.written().skip(at);
    let n = c.batches.len() as int;
    if 0 <= i < n {
        assert(is_copy(rest.take(n)[i], c.batches[i]));
        assert(rest.take(n)[i] == v.written()[at + i]);
        assert forall|r: int| 0 <= r < c.batches[i].1.len() implies ({
            ||| #[trigger] c.batches[i].1[r] == v.written()[at + i].1[r]
            ||| cloned(v.written()[at + i].1[r], c.batches[i].1[r])
        }) by {
            assert(same_or_cloned(rest.take(n)[i].1[r], c.batches[i].1[r]));
        }
    }
}

} // verus!
