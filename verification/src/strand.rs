//! What operators send, and how it reaches those who read it.
//!
//! Everything that is sent through an output goes into one log. Each reader of the output shares the
//! log and has a place in it of its own, so that it finds whatever was sent.

use vstd::predicate::Predicate;
use vstd::prelude::*;
use crate::channel::{Channel, ChannelView};
use crate::order::Timestamp;
use crate::shared::{Loan, Mark, Receipt, Shared, Tag};
use crate::stream::Slot;
use crate::wake::WakeHandle;
use crate::wired::outbox::{contents, copies, is_copy, same_bounds, same_or_cloned};

verus! {

/// How far a reader has come in a log.
#[derive(Clone, Copy, Debug)]
pub struct Seat {
    /// The input that reads.
    pub port: Slot,
    /// How many batches were read.
    pub cursor: usize,
    /// How many batches may wait for the reader.
    pub limit: usize,
    /// Whether no more will be read.
    pub gone: bool,
}

/// What a log holds.
pub struct LogView<T, D> {
    /// The batches that were forgotten, because everyone had read them.
    pub past: Seq<(T, Seq<D>)>,
    /// The other batches. The log takes a batch if this channel does.
    pub channel: ChannelView<T, D>,
    pub seats: Seq<Seat>,
}

/// The smaller number.
pub open spec fn lesser(a: int, b: int) -> int {
    if a <= b {
        a
    } else {
        b
    }
}

/// How many batches fit into a log that has forgotten `past` batches, as far as the first `n` seats
/// are concerned: no more may wait for a reader than its limit.
pub open spec fn fitting(seats: Seq<Seat>, past: int, most: int, n: nat) -> int
    decreases n,
{
    if n == 0 {
        most
    } else {
        let before = fitting(seats, past, most, (n - 1) as nat);
        let seat = seats[n - 1];
        if seat.gone {
            before
        } else {
            lesser(
                before,
                seat.limit + if seat.cursor > past {
                    seat.cursor - past
                } else {
                    0
                },
            )
        }
    }
}

/// What the first `n` readers have all read.
pub open spec fn read_by_all(seats: Seq<Seat>, most: int, n: nat) -> int
    decreases n,
{
    if n == 0 {
        most
    } else {
        let before = read_by_all(seats, most, (n - 1) as nat);
        if seats[n - 1].gone {
            before
        } else {
            lesser(before, seats[n - 1].cursor as int)
        }
    }
}

/// Some reader has not gone.
pub open spec fn some_read(seats: Seq<Seat>) -> bool {
    exists|k: int| 0 <= k < seats.len() && !(#[trigger] seats[k]).gone
}

/// The seats after the reader at a port has come to `cursor`, or has gone.
pub open spec fn noted(seats: Seq<Seat>, port: Slot, cursor: usize, gone: bool) -> Seq<Seat> {
    seats.map_values(
        |s: Seat|
            if s.port == port {
                Seat { cursor, gone: s.gone || gone, ..s }
            } else {
                s
            },
    )
}

impl<T, D> LogView<T, D> {
    /// Everything that was ever sent.
    pub open spec fn written(self) -> Seq<(T, Seq<D>)> {
        self.past + self.channel.batches
    }

    /// The place where a reader goes on who has read `from` batches.
    pub open spec fn place(self, from: int) -> int {
        if from < self.past.len() {
            self.past.len() as int
        } else if from > self.written().len() {
            self.written().len() as int
        } else {
            from
        }
    }

    /// What the readers that are there have all read is forgotten.
    pub open spec fn pruned(self) -> LogView<T, D> {
        let all = self.written();
        let read = read_by_all(self.seats, all.len() as int, self.seats.len());
        if all.len() <= usize::MAX && some_read(self.seats) && read > self.past.len() {
            LogView {
                past: all.take(read),
                channel: ChannelView { batches: all.skip(read), ..self.channel },
                ..self
            }
        } else {
            self
        }
    }

    /// If all readers have gone, what was sent is forgotten, and so is what will be.
    pub open spec fn deserted(self, bounds: Within) -> LogView<T, D> {
        if !some_read(self.seats) && self.seats.len() > 0 && !bounds.lasting
            && self.written().len() <= usize::MAX {
            LogView {
                past: self.written(),
                channel: ChannelView {
                    batches: Seq::empty(),
                    abandoned: true,
                    ..self.channel
                },
                ..self
            }
        } else {
            self
        }
    }

    /// There is as much room as the readers allow.
    pub open spec fn fitted(self, bounds: Within) -> LogView<T, D> {
        let room = fitting(
            self.seats,
            self.past.len() as int,
            bounds.limit as int,
            self.seats.len(),
        );
        let held = self.channel.batches.len() as int;
        LogView {
            channel: ChannelView {
                capacity: if room < held {
                    held
                } else {
                    room
                },
                ..self.channel
            },
            ..self
        }
    }

    /// A reader was let in who has read nothing yet.
    pub open spec fn enrolled(self, port: Slot, limit: usize, bounds: Within) -> LogView<T, D> {
        let seat = Seat { port, cursor: 0, limit, gone: false };
        (LogView { seats: self.seats.push(seat), ..self }).fitted(bounds)
    }

    /// A reader has come to `cursor`, or has gone.
    pub open spec fn informed(
        self,
        port: Slot,
        cursor: usize,
        gone: bool,
        bounds: Within,
    ) -> LogView<T, D> {
        (LogView { seats: noted(self.seats, port, cursor, gone), ..self }).pruned().deserted(
            bounds,
        ).fitted(bounds)
    }

    /// From one moment to a later one a log can only have grown, and not once it was closed.
    pub open spec fn leads_to(self, later: LogView<T, D>) -> bool {
        let n = self.written().len() as int;
        &&& n <= later.written().len()
        &&& later.written().take(n) == self.written()
        &&& self.channel.closed ==> later.channel.closed && later.written() == self.written()
    }

    /// Nothing was forgotten that a reader who is there has not read.
    pub open spec fn keeps_unread(self) -> bool {
        forall|k: int|
            0 <= k < self.seats.len() && !(#[trigger] self.seats[k]).gone ==> self.past.len()
                <= self.seats[k].cursor
    }

    /// Nothing was sent yet, and the log is open.
    pub open spec fn is_fresh(self) -> bool {
        self.written().len() == 0 && !self.channel.closed && !self.channel.abandoned
    }
}

impl<T, D: Clone> LogView<T, D> {
    /// What a reader sees who has read `from` batches: copies of the next ones, up to `most` of them,
    /// from place `at` on.
    pub open spec fn shows(self, from: int, most: int, at: int, c: ChannelView<T, D>) -> bool {
        let rest = self.written().skip(at);
        let n = lesser(lesser(rest.len() as int, most), usize::MAX - at);
        &&& at == self.place(from)
        &&& 0 <= at <= usize::MAX
        &&& copies(rest.take(n), c.batches)
        &&& c.capacity == most
        &&& c.closed == (self.channel.closed && n == rest.len())
        &&& !c.abandoned
    }
}

proof fn lemma_read_by_all(seats: Seq<Seat>, most: int, n: nat, k: int)
    requires
        n <= seats.len(),
        0 <= most,
    ensures
        0 <= read_by_all(seats, most, n) <= most,
        0 <= k < n && !seats[k].gone ==> read_by_all(seats, most, n) <= seats[k].cursor,
    decreases n,
{
    if n > 0 {
        lemma_read_by_all(seats, most, (n - 1) as nat, k);
    }
}

/// What a log is told by its readers changes nothing of what was sent, and lets it forget nothing that
/// a reader who is there has not read.
pub proof fn readers_change_nothing<T, D>(
    v: LogView<T, D>,
    port: Slot,
    cursor: usize,
    gone: bool,
    bounds: Within,
)
    ensures
        v.leads_to(v.informed(port, cursor, gone, bounds)),
        v.informed(port, cursor, gone, bounds).written() == v.written(),
        v.informed(port, cursor, gone, bounds).channel.closed == v.channel.closed,
        v.keeps_unread() && v.past.len() <= cursor ==> v.informed(
            port,
            cursor,
            gone,
            bounds,
        ).keeps_unread(),
{
    let seats = noted(v.seats, port, cursor, gone);
    let told = LogView { seats, ..v };
    let all = v.written();
    let pruned = told.pruned();
    let end = v.informed(port, cursor, gone, bounds);
    let read = read_by_all(seats, all.len() as int, seats.len());
    assert(told.written() =~= all);
    lemma_read_by_all(seats, all.len() as int, seats.len(), 0);
    assert(all.take(read) + all.skip(read) =~= all);
    assert(pruned.written() =~= all);
    assert(all + Seq::<(T, Seq<D>)>::empty() =~= all);
    assert(pruned.deserted(bounds).written() =~= all);
    assert(end.written() =~= all);
    assert(all.take(all.len() as int) =~= all);
    if v.keeps_unread() && v.past.len() <= cursor {
        assert forall|k: int|
            0 <= k < end.seats.len() && !(#[trigger] end.seats[k]).gone implies end.past.len()
            <= end.seats[k].cursor by {
            assert(end.seats == seats);
            assert(!v.seats[k].gone);
            lemma_read_by_all(seats, all.len() as int, seats.len(), k);
            assert(some_read(seats));
        }
    }
}

/// A reader who is let in changes nothing of what was sent.
pub proof fn newcomers_change_nothing<T, D>(
    v: LogView<T, D>,
    port: Slot,
    limit: usize,
    bounds: Within,
)
    ensures
        v.leads_to(v.enrolled(port, limit, bounds)),
        v.enrolled(port, limit, bounds).written() == v.written(),
        v.enrolled(port, limit, bounds).channel.closed == v.channel.closed,
        v.keeps_unread() && v.past.len() == 0 ==> v.enrolled(port, limit, bounds).keeps_unread(),
{
    let end = v.enrolled(port, limit, bounds);
    assert(end.written() =~= v.written());
    assert(v.written().take(v.written().len() as int) =~= v.written());
}

/// What all contents of a log have in common.
#[derive(Clone, Copy, Debug, PartialEq, Eq, Structural)]
pub struct Within {
    /// The log never holds more batches that someone has to read.
    pub limit: usize,
    /// Whether batches are read until the end: the log is never abandoned.
    pub lasting: bool,
}

/// Everything that was sent through an output.
pub struct Log<T, D> {
    channel: Channel<T, D>,
    past: Ghost<Seq<(T, Seq<D>)>>,
    dropped: usize,
    seats: Vec<Seat>,
    bounds: Within,
}

impl<T, D> View for Log<T, D> {
    type V = LogView<T, D>;

    closed spec fn view(&self) -> LogView<T, D> {
        LogView { past: self.past@, channel: self.channel@, seats: self.seats@ }
    }
}

impl<T, D> Log<T, D> {
    /// The log is in order.
    pub closed spec fn wf(&self) -> bool {
        &&& self.dropped == self.past@.len()
        &&& self.channel@.batches.len() <= self.channel@.capacity <= self.bounds.limit
        &&& self.bounds.lasting ==> !self.channel@.abandoned
    }

    /// What all contents of the log have in common.
    pub closed spec fn bounds(&self) -> Within {
        self.bounds
    }

    /// What bounds mean.
    pub proof fn is_bounded(&self)
        requires
            self.wf(),
        ensures
            self@.channel.batches.len() <= self@.channel.capacity <= self.bounds().limit,
            self.bounds().lasting ==> !self@.channel.abandoned,
            self@.past.len() <= usize::MAX,
    {
    }

    /// A log in which nothing was sent yet.
    pub fn new(bounds: Within) -> (log: Self)
        ensures
            log.wf(),
            log.bounds() == bounds,
            log@.is_fresh(),
            log@.past.len() == 0,
            log@.channel.capacity == bounds.limit,
            log@.seats.len() == 0,
    {
        Log {
            channel: Channel::new(bounds.limit),
            past: Ghost(Seq::empty()),
            dropped: 0,
            seats: Vec::new(),
            bounds,
        }
    }

    /// Stands in for a log that was lent: it is closed and takes nothing.
    fn stand_in(bounds: Within) -> (log: Self)
        ensures
            log.wf(),
            log.bounds() == bounds,
    {
        let mut channel: Channel<T, D> = Channel::new(0);
        channel.close();
        Log { channel, past: Ghost(Seq::empty()), dropped: 0, seats: Vec::new(), bounds }
    }

    /// Makes as much room as the readers allow.
    fn fit(&mut self)
        requires
            old(self).wf(),
        ensures
            final(self).wf(),
            final(self).bounds() == old(self).bounds(),
            final(self)@ == old(self)@.fitted(old(self).bounds()),
    {
        let mut room: usize = self.bounds.limit;
        let mut k: usize = 0;
        while k < self.seats.len()
            invariant
                k <= self.seats@.len(),
                self.wf(),
                *self == *old(self),
                room == fitting(
                    self.seats@,
                    self.past@.len() as int,
                    self.bounds.limit as int,
                    k as nat,
                ),
                room <= self.bounds.limit,
            decreases self.seats@.len() - k,
        {
            let seat = self.seats[k];
            if !seat.gone {
                let ahead: usize = if seat.cursor > self.dropped {
                    seat.cursor - self.dropped
                } else {
                    0
                };
                if seat.limit <= room && ahead <= room - seat.limit {
                    room = seat.limit + ahead;
                }
            }
            k = k + 1;
        }
        let held: usize = self.channel.len();
        self.channel.refit(if room < held { held } else { room });
    }

    /// Forgets what all readers have read.
    fn prune(&mut self)
        requires
            old(self).wf(),
        ensures
            final(self).wf(),
            final(self).bounds() == old(self).bounds(),
            final(self)@ == old(self)@.pruned(),
    {
        let held: usize = self.channel.len();
        if held > usize::MAX - self.dropped {
            return;
        }
        let end: usize = self.dropped + held;
        let mut read: usize = end;
        let mut any = false;
        let mut k: usize = 0;
        while k < self.seats.len()
            invariant
                k <= self.seats@.len(),
                *self == *old(self),
                self.wf(),
                end == self@.written().len(),
                read <= end,
                read == read_by_all(self.seats@, end as int, k as nat),
                any ==> some_read(self.seats@),
                !any ==> forall|j: int| 0 <= j < k ==> (#[trigger] self.seats@[j]).gone,
            decreases self.seats@.len() - k,
        {
            let seat = self.seats[k];
            if !seat.gone {
                assert(!self.seats@[k as int].gone);
                any = true;
                if seat.cursor < read {
                    read = seat.cursor;
                }
            }
            k = k + 1;
        }
        if any && read > self.dropped {
            let n: usize = read - self.dropped;
            let ghost gone = self.channel@.batches.take(n as int);
            let ghost before = self@;
            self.channel.forget(n);
            self.dropped = read;
            proof {
                self.past@ = self.past@ + gone;
                assert(self.past@ =~= before.written().take(read as int));
                assert(self.channel@.batches =~= before.written().skip(read as int));
            }
        }
    }

    /// Adds a reader who has read nothing yet and for whom up to `limit` batches may wait.
    fn enroll(&mut self, port: Slot, limit: usize)
        requires
            old(self).wf(),
        ensures
            final(self).wf(),
            final(self).bounds() == old(self).bounds(),
            final(self)@ == old(self)@.enrolled(port, limit, old(self).bounds()),
    {
        self.seats.push(Seat { port, cursor: 0, limit, gone: false });
        self.fit();
    }

    /// Takes note of how far the reader at a port has come, and whether it has gone. What all have
    /// read is forgotten; if all have gone, whatever is sent is.
    fn note(&mut self, port: Slot, cursor: usize, gone: bool)
        requires
            old(self).wf(),
        ensures
            final(self).wf(),
            final(self).bounds() == old(self).bounds(),
            final(self)@ == old(self)@.informed(port, cursor, gone, old(self).bounds()),
    {
        let mut k: usize = 0;
        let ghost before = self.seats@;
        let ghost after = noted(before, port, cursor, gone);
        let mut left = false;
        while k < self.seats.len()
            invariant
                k <= self.seats@.len(),
                self.wf(),
                self@ == (LogView { seats: self.seats@, ..old(self)@ }),
                self.bounds() == old(self).bounds(),
                self.seats@.len() == before.len(),
                after == noted(before, port, cursor, gone),
                forall|j: int| 0 <= j < k ==> #[trigger] self.seats@[j] == after[j],
                forall|j: int| k <= j < before.len() ==> #[trigger] self.seats@[j] == before[j],
                left ==> some_read(self.seats@.take(k as int)),
                !left ==> forall|j: int| 0 <= j < k ==> (#[trigger] self.seats@[j]).gone,
            decreases self.seats@.len() - k,
        {
            let seat = self.seats[k];
            let ghost mid = self.seats@;
            if seat.port.operator_index == port.operator_index && seat.port.slot_index
                == port.slot_index {
                self.seats.set(k, Seat { cursor, gone: seat.gone || gone, ..seat });
            }
            if !self.seats[k].gone {
                left = true;
                assert(!self.seats@.take(k + 1)[k as int].gone);
            }
            proof {
                if some_read(mid.take(k as int)) {
                    let j = choose|j: int|
                        0 <= j < mid.take(k as int).len() && !(#[trigger] mid.take(
                            k as int,
                        )[j]).gone;
                    assert(!self.seats@.take(k + 1)[j].gone);
                }
            }
            k = k + 1;
        }
        assert(self.seats@ =~= after);
        assert(self.seats@.take(k as int) =~= self.seats@);
        assert(left == some_read(self.seats@));
        self.prune();
        let held: usize = self.channel.len();
        if !left && self.seats.len() > 0 && !self.bounds.lasting && held <= usize::MAX
            - self.dropped {
            let ghost full = self@.written();
            self.dropped = self.dropped + held;
            proof {
                self.past@ = full;
            }
            self.channel.abandon();
        }
        self.fit();
    }

    /// Gets memory for `n` batches, as long as nothing was sent.
    fn reserve(&mut self, n: usize)
        requires
            old(self).wf(),
        ensures
            final(self).wf(),
            final(self).bounds() == old(self).bounds(),
            final(self)@ == old(self)@,
    {
        if self.channel.len() == 0 && !self.channel.is_closed() && !self.channel.is_abandoned() {
            let capacity: usize = self.channel.capacity();
            let ghost before = self@;
            self.channel = Channel::preallocated(capacity, n);
            assert(self@.channel.batches =~= before.channel.batches);
        }
    }
}

impl<T: Timestamp, D: Clone> Log<T, D> {
    /// Where a reader goes on who has read `from` batches, and how many of up to `most` batches it
    /// sees.
    fn reach(&self, from: usize, most: usize) -> (r: (usize, usize))
        requires
            self.wf(),
        ensures
            r.0 == self@.place(from as int),
            self@.past.len() <= r.0,
            r.0 + r.1 <= self@.written().len(),
            r.1 == lesser(
                lesser(self@.written().len() - r.0, most as int),
                usize::MAX - r.0,
            ),
    {
        let held: usize = self.channel.len();
        let start: usize = if from < self.dropped {
            self.dropped
        } else {
            from
        };
        let skipped: usize = if start - self.dropped > held {
            held
        } else {
            start - self.dropped
        };
        let at: usize = self.dropped + skipped;
        let mut n: usize = held - skipped;
        if most < n {
            n = most;
        }
        if usize::MAX - at < n {
            n = usize::MAX - at;
        }
        (at, n)
    }

    /// The times of `n` batches from place `at` on.
    fn times(&self, at: usize, n: usize) -> (times: Vec<T>)
        requires
            self.wf(),
            self@.past.len() <= at,
            at + n <= self@.written().len(),
        ensures
            times@.len() == n,
            forall|i: int| 0 <= i < n ==> #[trigger] times@[i] == self@.written()[at + i].0,
    {
        let first: usize = at - self.dropped;
        let times = self.channel.times_from(first, n);
        proof {
            assert forall|i: int| 0 <= i < n implies #[trigger] times@[i] == self@.written()[at
                + i].0 by {
                assert(self@.written()[at + i] == self.channel@.batches[first + i]);
            }
        }
        times
    }

    /// What a reader sees who has read `from` batches, up to `most` of them, and the place where that
    /// begins.
    fn window(&self, from: usize, most: usize) -> (w: (Channel<T, D>, usize))
        requires
            self.wf(),
        ensures
            self@.shows(from as int, most as int, w.1 as int, w.0@),
    {
        let held: usize = self.channel.len();
        let (at, n) = self.reach(from, most);
        let skipped: usize = at - self.dropped;
        let copy = self.channel.copied(skipped, n);
        let closed = self.channel.is_closed() && n == held - skipped;
        let c = Channel::holding(copy, most, closed);
        proof {
            let rest = self@.written().skip(at as int);
            assert(rest =~= self.channel@.batches.skip(skipped as int));
            assert(rest.take(n as int) =~= self.channel@.batches.subrange(
                skipped as int,
                skipped + n,
            ));
        }
        (c, at)
    }
}

impl<T, D> Predicate<Log<T, D>> for Within {
    open spec fn predicate(&self, log: Log<T, D>) -> bool {
        log.wf() && log.bounds() == *self
    }
}

/// Whom a log wakes, if it wakes anybody.
pub struct Calls {
    /// The only executor that is woken, or none if it is not settled yet.
    pub only: Ghost<Option<Option<WakeHandle>>>,
}

impl Predicate<Option<WakeHandle>> for Calls {
    open spec fn predicate(&self, w: Option<WakeHandle>) -> bool {
        match self.only@ {
            Some(settled) => w is None || w == settled,
            None => true,
        }
    }
}

/// A log that is shared, and the executor that is woken by it.
pub struct Strand<T, D> {
    log: Shared<Log<T, D>, Within>,
    bounds: Within,
    wake: Shared<Option<WakeHandle>, Calls>,
    mark: Mark,
}

impl<T, D> Strand<T, D> {
    #[verifier::type_invariant]
    closed spec fn inv(&self) -> bool {
        self.bounds == self.log.rule()
    }

    /// The log.
    pub closed spec fn log(&self) -> Shared<Log<T, D>, Within> {
        self.log
    }

    /// The mark by which the strand is known.
    pub closed spec fn mark(&self) -> Mark {
        self.mark
    }

    /// Whom the strand wakes, if that is settled: an executor, or nobody.
    pub closed spec fn calls(&self) -> Option<Option<WakeHandle>> {
        self.wake.rule().only@
    }

    /// What all contents of the log have in common.
    pub open spec fn bounds(&self) -> Within {
        self.log().rule()
    }

    /// Nothing was sent at first, and nobody read.
    pub open spec fn starts_empty(&self) -> bool {
        exists|log: Log<T, D>| #[trigger]
            self.log().began(log) && log@.is_fresh() && log@.past.len() == 0 && log@.seats.len()
                == 0
    }

    /// Who is woken.
    pub closed spec fn caller(&self) -> Shared<Option<WakeHandle>, Calls> {
        self.wake
    }

    /// Someone looked who is to be woken, and woke them.
    pub open spec fn woke(&self) -> bool {
        exists|w: Option<WakeHandle>| #[trigger]
            self.caller().turned(w, w) && (w matches Some(h) ==> h.notified())
    }

    /// A reader was let in, for whom up to `limit` batches may wait. What was sent stays.
    pub open spec fn seated(&self, port: Slot, limit: usize) -> bool {
        exists|before: Log<T, D>, after: Log<T, D>| #[trigger]
            self.log().turned(before, after) && after@ == before@.enrolled(
                port,
                limit,
                self.bounds(),
            )
    }

    /// A reader was let in, and the given executor was made the one that is woken.
    pub open spec fn opened(&self, port: Slot, limit: usize, wake: WakeHandle) -> bool {
        &&& self.seated(port, limit)
        &&& exists|w: Option<WakeHandle>| #[trigger] self.caller().turned(w, Some(wake))
    }

    /// The log was told how far a reader has come, or that it has gone; and if that has made room in
    /// a full log, whoever is to be woken was woken. What was sent stays.
    pub open spec fn told(&self, port: Slot, cursor: int, gone: bool) -> bool {
        exists|before: Log<T, D>, after: Log<T, D>| #[trigger]
            self.log().turned(before, after) && after@ == before@.informed(
                port,
                cursor as usize,
                gone,
                self.bounds(),
            ) && (!before@.channel.has_room() && after@.channel.has_room() ==> self.woke())
    }

    /// A strand that nothing was sent through.
    fn start(
        bounds: Within,
        wake: Option<WakeHandle>,
        only: Ghost<Option<Option<WakeHandle>>>,
        number: Ghost<Option<int>>,
    ) -> (s: Self)
        requires
            only@ matches Some(settled) ==> wake is None || wake == settled,
        ensures
            s.bounds() == bounds,
            s.calls() == only@,
            s.mark().rule().number@ == number@,
            s.starts_empty(),
            s.caller().began(wake),
    {
        let log: Log<T, D> = Log::new(bounds);
        let s = Strand {
            log: Shared::new(log, bounds),
            bounds,
            wake: Shared::new(wake, Calls { only }),
            mark: Shared::new(0, Tag { number }),
        };
        assert(s.log().began(log));
        s
    }

    /// One more holder of the same strand.
    pub fn share(&self) -> (s: Self)
        ensures
            s == *self,
    {
        proof {
            use_type_invariant(self);
        }
        Strand {
            log: self.log.share(),
            bounds: self.bounds,
            wake: self.wake.share(),
            mark: self.mark.share(),
        }
    }

    /// Lets the reader at a port limit what may wait for it, has the given executor woken, and gets
    /// memory for some batches.
    pub fn open(&self, port: Slot, limit: usize, wake: WakeHandle, preallocate: Option<usize>)
        requires
            self.calls() is None,
        ensures
            self.opened(port, limit, wake),
    {
        proof {
            use_type_invariant(self);
        }
        let (mut log, loan) = self.log.lend(Log::stand_in(self.bounds));
        let ghost before = log;
        log.enroll(port, limit);
        match preallocate {
            Some(n) => {
                log.reserve(n);
            },
            None => {},
        }
        let _ = self.log.settle(loan, log);
        assert(self.log().turned(before, log));
        let ghost given = wake;
        let w = self.wake.replace(Some(wake));
        assert(self.caller().turned(w, Some(given)));
    }

    /// Wakes the executor, if there is one.
    fn notify(&self)
        ensures
            self.woke(),
    {
        let (wake, loan) = self.wake.lend(None);
        let ghost w = wake;
        match &wake {
            Some(w) => {
                w.notify();
            },
            None => {},
        }
        let _ = self.wake.settle(loan, wake);
        assert(self.caller().turned(w, w));
    }

    /// Takes note of how far a reader has come, and wakes the executor if that makes room.
    fn note(&self, port: Slot, cursor: usize, gone: bool)
        ensures
            self.told(port, cursor as int, gone),
    {
        proof {
            use_type_invariant(self);
        }
        let (mut log, loan) = self.log.lend(Log::stand_in(self.bounds));
        let ghost before = log;
        let was_full = !log.channel.has_room();
        log.note(port, cursor, gone);
        let freed = was_full && log.channel.has_room();
        let ghost after = log;
        let _ = self.log.settle(loan, log);
        assert(self.log().turned(before, after));
        if freed {
            self.notify();
        }
    }
}

/// What is sent, while it is added to a log.
pub struct Draft<T, D> {
    loan: Loan<Log<T, D>, Within>,
    past: Ghost<Seq<(T, Seq<D>)>>,
    dropped: usize,
    seats: Vec<Seat>,
    bounds: Within,
    start: Ghost<ChannelView<T, D>>,
}

impl<T, D> Draft<T, D> {
    /// The log that is added to.
    pub closed spec fn log(&self) -> Shared<Log<T, D>, Within> {
        self.loan.cell()
    }

    /// What the log held.
    pub closed spec fn before(&self) -> LogView<T, D> {
        self.loan.before()@
    }

    /// The draft is in order.
    pub closed spec fn wf(&self) -> bool {
        &&& self.dropped == self.past@.len()
        &&& self.bounds == self.loan.cell().rule()
        &&& self.loan.before().wf()
        &&& self.loan.before().bounds() == self.bounds
        &&& self.loan.before()@ == (LogView {
            past: self.past@,
            channel: self.start@,
            seats: self.seats@,
        })
    }
}

/// The writing end of a strand.
pub struct Outlets<T, D> {
    strand: Strand<T, D>,
}

impl<T, D> Outlets<T, D> {
    /// The strand that is written to.
    pub closed spec fn strand(&self) -> Strand<T, D> {
        self.strand
    }

    /// The mark of the outlets.
    pub open spec fn mark(&self) -> Mark {
        self.strand().mark()
    }

    /// The operator that sends to the outlets.
    pub open spec fn owner(&self) -> Option<int> {
        self.mark().rule().number@
    }

    /// The outlets of the operator with the index `owner`, through which nothing was sent.
    pub fn new(owner: usize) -> (o: Self)
        ensures
            o.owner() == Some(owner as int),
            o.strand().calls() is None,
            o.strand().bounds() == (Within { limit: usize::MAX, lasting: false }),
            o.strand().starts_empty(),
    {
        let bounds = Within { limit: usize::MAX, lasting: false };
        Outlets {
            strand: Strand::start(bounds, None, Ghost(None), Ghost(Some(owner as int))),
        }
    }

    /// The outlets of the operator with the index `owner`, which nobody will read from: whatever is
    /// sent is forgotten.
    pub fn unread(owner: usize) -> (o: Self)
        ensures
            o.owner() == Some(owner as int),
            o.strand().calls() is None,
            exists|before: Log<T, D>, after: Log<T, D>| #[trigger]
                o.strand().log().turned(before, after) && after@.channel.abandoned,
    {
        let o: Self = Outlets::new(owner);
        let (mut outputs, draft) = o.begin();
        outputs[0].abandon();
        let receipt = o.commit(draft, outputs, false);
        assert(o.strand().log().turned(receipt.before(), receipt.after()));
        o
    }

    /// One more holder of the same outlets.
    pub fn share(&self) -> (o: Self)
        ensures
            o == *self,
    {
        Outlets { strand: self.strand.share() }
    }

    /// A reader of everything that is sent, at the given port, which sees up to `limit` batches at a
    /// time.
    pub fn reader(&self, port: Slot, limit: usize) -> (cell: ChannelCell<T, D>)
        ensures
            cell.strand() == self.strand(),
            cell.port() == port,
            cell.limit() == limit,
            cell.cursor() == 0,
    {
        ChannelCell { strand: self.strand.share(), port, cursor: 0, limit }
    }

    /// Hands out what is in the log, so that batches can be added.
    pub fn begin(&self) -> (d: (Vec<Channel<T, D>>, Draft<T, D>))
        ensures
            d.1.wf(),
            d.1.log() == self.strand().log(),
            d.0@.len() == 1,
            d.0@[0]@ == d.1.before().channel,
            contents(d.0@) == seq![d.1.before().channel],
            d.1.before().channel.batches.len() <= d.1.before().channel.capacity
                <= self.strand().bounds().limit,
            self.strand().bounds().lasting ==> !d.1.before().channel.abandoned,
    {
        proof {
            use_type_invariant(&self.strand);
        }
        let (log, loan) = self.strand.log.lend(Log::stand_in(self.strand.bounds));
        let ghost start = log.channel@;
        let Log { channel, past, dropped, seats, bounds } = log;
        let mut outputs: Vec<Channel<T, D>> = Vec::new();
        outputs.push(channel);
        assert(contents(outputs@) =~= seq![start]);
        (outputs, Draft { loan, past, dropped, seats, bounds, start: Ghost(start) })
    }

    /// Puts the log back, with what was added, and wakes the executor if something has changed.
    pub fn commit(&self, draft: Draft<T, D>, outputs: Vec<Channel<T, D>>, changed: bool) -> (receipt:
        Receipt<Log<T, D>, Within>)
        requires
            draft.wf(),
            draft.log() == self.strand().log(),
            outputs@.len() == 1,
            outputs@[0]@.capacity == draft.before().channel.capacity,
            self.strand().bounds().lasting ==> same_bounds(draft.before().channel, outputs@[0]@),
        ensures
            receipt.cell() == self.strand().log(),
            receipt.before()@ == draft.before(),
            receipt.after()@ == (LogView { channel: outputs@[0]@, ..draft.before() }),
            self.strand().log().turned(receipt.before(), receipt.after()),
            changed ==> self.strand().woke(),
    {
        let ghost left = outputs@[0]@;
        let mut outputs = outputs;
        let Draft { loan, past, dropped, seats, bounds, .. } = draft;
        let log = match outputs.pop() {
            Some(channel) => {
                let _ = channel.len();
                Log { channel, past, dropped, seats, bounds }
            },
            None => Log::stand_in(bounds),
        };
        let receipt = self.strand.log.settle(loan, log);
        if changed {
            self.strand.notify();
        }
        receipt
    }
}

/// The reading end of a strand.
pub struct ChannelCell<T, D> {
    strand: Strand<T, D>,
    port: Slot,
    cursor: usize,
    limit: usize,
}

impl<T, D> ChannelCell<T, D> {
    /// The strand that is read from.
    pub closed spec fn strand(&self) -> Strand<T, D> {
        self.strand
    }

    /// The input that reads.
    pub closed spec fn port(&self) -> Slot {
        self.port
    }

    /// How many batches were read.
    pub closed spec fn cursor(&self) -> usize {
        self.cursor
    }

    /// How many batches are seen at a time.
    pub closed spec fn limit(&self) -> usize {
        self.limit
    }

    /// The mark of what is read.
    pub open spec fn mark(&self) -> Mark {
        self.strand().mark()
    }

    /// A reader sees such batches at a time, whatever was sent.
    pub open spec fn admits(&self, c: ChannelView<T, D>) -> bool {
        &&& c.batches.len() <= c.capacity
        &&& c.capacity == self.limit()
        &&& !c.abandoned
    }

    /// The same reader as before, which has read up to `cursor`.
    pub open spec fn moves(&self, after: &Self, cursor: int) -> bool {
        &&& after.strand() == self.strand()
        &&& after.port() == self.port()
        &&& after.limit() == self.limit()
        &&& after.cursor() == cursor
    }

    /// The strand, for one who sets it up.
    pub(crate) fn share_strand(&self) -> (s: Strand<T, D>)
        ensures
            s == self.strand(),
    {
        self.strand.share()
    }

    /// Goes on to the batch `cursor`, or goes for good. Tells those who write how far it has come.
    pub fn advance(&mut self, cursor: usize, gone: bool)
        ensures
            old(self).moves(final(self), cursor as int),
            cursor != old(self).cursor() || gone ==> old(self).strand().told(
                old(self).port(),
                cursor as int,
                gone,
            ),
    {
        let moved = cursor != self.cursor;
        self.cursor = cursor;
        if moved || gone {
            self.strand.note(self.port, cursor, gone);
        }
    }
}

impl<T: Timestamp, D: Clone> ChannelCell<T, D> {
    /// What the reader sees of the log, up to `most` batches, and the place where that begins. The
    /// log stays as it is.
    pub fn peek(&self, most: usize) -> (w: (Channel<T, D>, usize, Receipt<Log<T, D>, Within>))
        ensures
            w.2.cell() == self.strand().log(),
            w.2.before()@.shows(self.cursor() as int, most as int, w.1 as int, w.0@),
            w.2.after() == w.2.before(),
            self.strand().log().turned(w.2.before(), w.2.before()),
            w.0@.batches.len() <= w.0@.capacity,
            w.1 + w.0@.batches.len() <= usize::MAX,
    {
        proof {
            use_type_invariant(&self.strand);
        }
        let (log, loan) = self.strand.log.lend(Log::stand_in(self.strand.bounds));
        let (c, at) = log.window(self.cursor, most);
        let _ = c.len();
        let receipt = self.strand.log.settle(loan, log);
        (c, at, receipt)
    }

    /// What the reader sees of the log, as far as its limit goes.
    pub fn look(&self) -> (w: (Channel<T, D>, usize, Receipt<Log<T, D>, Within>))
        ensures
            w.2.cell() == self.strand().log(),
            w.2.before()@.shows(self.cursor() as int, self.limit() as int, w.1 as int, w.0@),
            w.2.after() == w.2.before(),
            self.admits(w.0@),
            w.1 + w.0@.batches.len() <= usize::MAX,
    {
        self.peek(self.limit)
    }
}

impl<T: Timestamp, D: Clone> ChannelCell<T, D> {
    /// The times of what the reader sees of the log, as far as its limit goes.
    pub fn times(&self) -> (times: Vec<T>)
        ensures
            exists|log: Log<T, D>, at: int, c: ChannelView<T, D>| #[trigger]
                log@.shows(self.cursor() as int, self.limit() as int, at, c)
                    && self.strand().log().turned(log, log) && times@ == c.batches.map_values(
                    |b: (T, Seq<D>)| b.0,
                ),
    {
        proof {
            use_type_invariant(&self.strand);
        }
        let (log, loan) = self.strand.log.lend(Log::stand_in(self.strand.bounds));
        let ghost found = log;
        let (at, n) = log.reach(self.cursor, self.limit);
        let times = log.times(at, n);
        let ghost mut view = log@.channel;
        proof {
            let seen = log@.written().skip(at as int).take(n as int);
            let c = ChannelView {
                batches: seen,
                capacity: self.limit as int,
                closed: log@.channel.closed && n == log@.written().skip(at as int).len(),
                abandoned: false,
            };
            assert forall|i: int| 0 <= i < seen.len() implies is_copy(
                #[trigger] seen[i],
                seen[i],
            ) by {
                assert forall|k: int| 0 <= k < seen[i].1.len() implies #[trigger] same_or_cloned(
                    seen[i].1[k],
                    seen[i].1[k],
                ) by {}
            }
            assert(copies(seen, seen));
            assert(times@ =~= c.batches.map_values(|b: (T, Seq<D>)| b.0));
            view = c;
        }
        let _ = self.strand.log.settle(loan, log);
        proof {
            assert(found@.shows(self.cursor() as int, self.limit() as int, at as int, view));
            assert(self.strand().log().turned(found, found));
        }
        times
    }
}

/// The pushing side of a channel.
pub struct BoundedPush<T, D> {
    outlets: Outlets<T, D>,
    shut: bool,
}

/// The pulling side of a channel.
pub struct BoundedPull<T, D> {
    cell: ChannelCell<T, D>,
    over: bool,
}

/// A channel for `capacity` batches whose two sides wake the given executor: each push and the
/// closing wake it, and so does a pull that makes room in a full channel.
pub fn bounded_channel_with_wake<T, D>(capacity: usize, wake: Option<WakeHandle>) -> (sides: (
    BoundedPush<T, D>,
    BoundedPull<T, D>,
))
    ensures
        sides.0.strand() == sides.1.cell().strand(),
        sides.0.strand().bounds() == (Within { limit: capacity, lasting: true }),
        sides.0.strand().calls() == Some(wake),
        sides.0.strand().starts_empty(),
        sides.0.strand().caller().began(wake),
        sides.1.cell().cursor() == 0,
        sides.1.cell().limit() == capacity,
        sides.0.strand().seated(sides.1.cell().port(), capacity),
        !sides.0.is_shut(),
        !sides.1.is_over(),
{
    let bounds = Within { limit: capacity, lasting: true };
    let ghost settled = wake;
    let strand: Strand<T, D> = Strand::start(bounds, wake, Ghost(Some(settled)), Ghost(None));
    let outlets = Outlets { strand };
    let port = Slot::new(0, 0);
    let cell = outlets.reader(port, capacity);
    outlets.strand.seat(port, capacity);
    (BoundedPush { outlets, shut: false }, BoundedPull { cell, over: false })
}

impl<T, D> Strand<T, D> {
    /// Lets the reader at a port limit what may wait for it.
    fn seat(&self, port: Slot, limit: usize)
        ensures
            self.seated(port, limit),
    {
        proof {
            use_type_invariant(self);
        }
        let (mut log, loan) = self.log.lend(Log::stand_in(self.bounds));
        let ghost before = log;
        log.enroll(port, limit);
        let _ = self.log.settle(loan, log);
        assert(self.log().turned(before, log));
    }
}

impl<T, D> BoundedPush<T, D> {
    /// The strand that this is an end of.
    pub closed spec fn strand(&self) -> Strand<T, D> {
        self.outlets.strand()
    }

    /// The channel was closed from this side.
    pub closed spec fn is_shut(&self) -> bool {
        self.shut
    }

    /// The log behind the channel once was `before` and became `after`.
    pub open spec fn turned(&self, before: LogView<T, D>, after: LogView<T, D>) -> bool {
        exists|a: Log<T, D>, b: Log<T, D>| #[trigger]
            self.strand().log().turned(a, b) && a@ == before && b@ == after
    }

    /// Pushes a batch and wakes the executor, or hands the batch back if the channel is full or
    /// closed. What the channel holds depends on the other side.
    pub fn push(&mut self, time: T, data: Vec<D>) -> (r: core::result::Result<(), (T, Vec<D>)>)
        ensures
            r matches Err(b) ==> b == (time, data),
            old(self).is_shut() ==> r is Err,
            !old(self).is_shut() ==> exists|before: LogView<T, D>, after: LogView<T, D>| #[trigger]
                old(self).turned(before, after) && (r is Ok <==> before.channel.has_room())
                    && after == if r is Ok {
                    LogView { channel: before.channel.pushed(time, data@), ..before }
                } else {
                    before
                },
            r is Ok ==> old(self).strand().woke(),
            *final(self) == *old(self),
    {
        if self.shut {
            return Err((time, data));
        }
        let (mut outputs, draft) = self.outlets.begin();
        let r = outputs[0].try_push(time, data);
        let changed = r.is_ok();
        let receipt = self.outlets.commit(draft, outputs, changed);
        proof {
            assert(self.strand().log().turned(receipt.before(), receipt.after()));
            assert(self.turned(receipt.before()@, receipt.after()@));
        }
        r
    }

    /// Closes the channel and wakes the executor. Nothing more can be pushed.
    pub fn close(&mut self)
        ensures
            final(self).strand() == old(self).strand(),
            final(self).is_shut(),
            exists|before: LogView<T, D>, after: LogView<T, D>| #[trigger]
                old(self).turned(before, after) && after == (LogView {
                    channel: ChannelView { closed: true, ..before.channel },
                    ..before
                }),
            old(self).strand().woke(),
    {
        let (mut outputs, draft) = self.outlets.begin();
        outputs[0].close();
        let receipt = self.outlets.commit(draft, outputs, true);
        self.shut = true;
        proof {
            assert(old(self).strand().log().turned(receipt.before(), receipt.after()));
            assert(old(self).turned(receipt.before()@, receipt.after()@));
        }
    }
}

impl<T, D> BoundedPull<T, D> {
    /// The reader that pulls.
    pub closed spec fn cell(&self) -> ChannelCell<T, D> {
        self.cell
    }

    /// A pull found that everything was pulled and no more will be pushed.
    pub closed spec fn is_over(&self) -> bool {
        self.over
    }

    /// The reader itself.
    pub fn into_cell(self) -> (cell: ChannelCell<T, D>)
        ensures
            cell == self.cell(),
    {
        self.cell
    }
}

/// What a pull gives of what a channel holds: the oldest batch, if there is one.
pub open spec fn is_pulled<T, D>(c: ChannelView<T, D>, batch: Option<(T, Vec<D>)>) -> bool {
    match batch {
        Some(b) => c.batches.len() > 0 && (b.0, b.1@) == c.batches[0],
        None => c.batches.len() == 0,
    }
}

impl<T: Timestamp, D: Clone> BoundedPull<T, D> {
    /// Pulls the oldest batch, if there is one, and wakes the executor if that makes room in a
    /// full channel. What is there depends on the other side. A channel that is exhausted stays so.
    pub fn pull(&mut self) -> (batch: Option<(T, Vec<D>)>)
        ensures
            final(self).cell().strand() == old(self).cell().strand(),
            exists|log: Log<T, D>, at: int, c: ChannelView<T, D>|
                {
                    &&& #[trigger] log@.shows(old(self).cell().cursor() as int, 2, at, c)
                    &&& old(self).cell().strand().log().turned(log, log)
                    &&& old(self).is_over() || is_pulled(c, batch)
                    &&& final(self).is_over() == (old(self).is_over() || (c.closed
                        && c.batches.len() <= 1))
                    &&& !old(self).is_over() ==> final(self).cell().cursor() == at
                        + if batch is Some {
                        1int
                    } else {
                        0int
                    }
                },
            old(self).is_over() ==> batch is None,
    {
        let (mut channel, at, receipt) = self.cell.peek(2);
        let ghost log = receipt.before();
        let ghost shown = channel@;
        assert(log@.shows(old(self).cell().cursor() as int, 2, at as int, shown));
        if self.over {
            return None;
        }
        let batch = channel.pull();
        self.over = channel.is_exhausted();
        let cursor: usize = if batch.is_some() {
            at + 1
        } else {
            at
        };
        self.cell.advance(cursor, false);
        batch
    }

    /// Whether everything was pulled and no more will be pushed. What was found exhausted stays so.
    pub fn is_exhausted(&self) -> (b: bool)
        ensures
            self.is_over() ==> b,
            !self.is_over() ==> exists|log: Log<T, D>, at: int, c: ChannelView<T, D>|
                {
                    &&& #[trigger] log@.shows(self.cell().cursor() as int, 1, at, c)
                    &&& self.cell().strand().log().turned(log, log)
                    &&& b == c.exhausted()
                },
    {
        if self.over {
            return true;
        }
        let (channel, at, receipt) = self.cell.peek(1);
        let ghost log = receipt.before();
        assert(log@.shows(self.cell().cursor() as int, 1, at as int, channel@));
        channel.is_exhausted()
    }
}

} // verus!
