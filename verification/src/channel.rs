//! Bounded channels between operators.

use std::collections::VecDeque;
use vstd::prelude::*;
use crate::handles::batches;
use crate::order::Timestamp;
use crate::wired::outbox::{clone_batch, copies, is_copy};

verus! {

/// What a channel holds.
pub struct ChannelView<T, D> {
    /// The batches that were pushed and not pulled yet, oldest first.
    pub batches: Seq<(T, Seq<D>)>,
    /// How many batches the channel can hold.
    pub capacity: int,
    /// Whether no more batches will be pushed.
    pub closed: bool,
    /// Whether no more batches will be pulled.
    pub abandoned: bool,
}

impl<T, D> ChannelView<T, D> {
    /// The channel takes no batch until one is pulled.
    pub open spec fn full(self) -> bool {
        self.batches.len() >= self.capacity
    }

    /// The channel takes a batch now. A channel that nobody pulls from takes any batch, to forget
    /// it.
    pub open spec fn has_room(self) -> bool {
        !self.closed && (self.abandoned || !self.full())
    }

    /// The channel after a batch was pushed.
    pub open spec fn pushed(self, time: T, data: Seq<D>) -> ChannelView<T, D> {
        if self.abandoned {
            self
        } else {
            ChannelView { batches: self.batches.push((time, data)), ..self }
        }
    }

    /// Everything was pulled and no more will be pushed.
    pub open spec fn exhausted(self) -> bool {
        self.closed && self.batches.len() == 0
    }
}

/// A queue of batches with a limited length.
#[derive(Debug)]
pub struct Channel<T, D> {
    queue: VecDeque<(T, Vec<D>)>,
    capacity: usize,
    closed: bool,
    abandoned: bool,
}

impl<T, D> View for Channel<T, D> {
    type V = ChannelView<T, D>;

    closed spec fn view(&self) -> ChannelView<T, D> {
        ChannelView {
            batches: batches(self.queue@),
            capacity: self.capacity as int,
            closed: self.closed,
            abandoned: self.abandoned,
        }
    }
}

impl<T, D> Channel<T, D> {
    #[verifier::type_invariant]
    closed spec fn inv(&self) -> bool {
        self.queue@.len() <= self.capacity
    }

    /// An open channel for `capacity` batches.
    pub fn new(capacity: usize) -> (c: Self)
        ensures
            c@ == (ChannelView {
                batches: Seq::<(T, Seq<D>)>::empty(),
                capacity: capacity as int,
                closed: false,
                abandoned: false,
            }),
    {
        let c = Channel { queue: VecDeque::new(), capacity, closed: false, abandoned: false };
        assert(c@.batches =~= Seq::<(T, Seq<D>)>::empty());
        c
    }

    /// An open channel for `capacity` batches, with memory for `preallocate` of them, but for no
    /// more than it can hold.
    pub fn preallocated(capacity: usize, preallocate: usize) -> (c: Self)
        ensures
            c@ == (ChannelView {
                batches: Seq::<(T, Seq<D>)>::empty(),
                capacity: capacity as int,
                closed: false,
                abandoned: false,
            }),
    {
        let room: usize = if preallocate < capacity {
            preallocate
        } else {
            capacity
        };
        let c = Channel {
            queue: VecDeque::with_capacity(room),
            capacity,
            closed: false,
            abandoned: false,
        };
        assert(c@.batches =~= Seq::<(T, Seq<D>)>::empty());
        c
    }

    /// Appends a batch, or hands it back if the channel is full or closed. A channel that nobody
    /// pulls from forgets the batch.
    pub fn try_push(&mut self, time: T, data: Vec<D>) -> (r: core::result::Result<
        (),
        (T, Vec<D>),
    >)
        ensures
            r is Ok <==> old(self)@.has_room(),
            r is Ok ==> final(self)@ == old(self)@.pushed(time, data@),
            r matches Err(b) ==> final(self)@ == old(self)@ && b == (time, data),
    {
        if self.closed {
            return Err((time, data));
        }
        if self.abandoned {
            return Ok(());
        }
        if self.queue.len() >= self.capacity {
            return Err((time, data));
        }
        let mut queue: VecDeque<(T, Vec<D>)> = VecDeque::new();
        core::mem::swap(&mut queue, &mut self.queue);
        queue.push_back((time, data));
        self.queue = queue;
        assert(self@.batches =~= old(self)@.batches.push((time, data@)));
        Ok(())
    }

    /// The oldest batch, if there is one.
    pub fn pull(&mut self) -> (batch: Option<(T, Vec<D>)>)
        ensures
            batch is None <==> old(self)@.batches.len() == 0,
            batch is None ==> final(self)@ == old(self)@,
            batch matches Some(b) ==> (b.0, b.1@) == old(self)@.batches[0] && final(self)@ == (
            ChannelView { batches: old(self)@.batches.drop_first(), ..old(self)@ }),
    {
        proof {
            use_type_invariant(&*self);
        }
        let mut queue: VecDeque<(T, Vec<D>)> = VecDeque::new();
        core::mem::swap(&mut queue, &mut self.queue);
        let batch = queue.pop_front();
        self.queue = queue;
        match batch {
            Some(b) => {
                assert(self@.batches =~= old(self)@.batches.drop_first());
                Some(b)
            },
            None => {
                assert(self@.batches =~= old(self)@.batches);
                None
            },
        }
    }

    /// Notes that no more batches will be pushed.
    pub fn close(&mut self)
        ensures
            final(self)@ == (ChannelView { closed: true, ..old(self)@ }),
    {
        proof {
            use_type_invariant(&*self);
        }
        self.closed = true;
    }

    /// Forgets what is in the channel and what will be pushed.
    pub fn abandon(&mut self)
        ensures
            final(self)@ == (ChannelView {
                batches: Seq::<(T, Seq<D>)>::empty(),
                abandoned: true,
                ..old(self)@
            }),
    {
        self.queue = VecDeque::new();
        self.abandoned = true;
        assert(self@.batches =~= Seq::<(T, Seq<D>)>::empty());
    }

    /// Whether the channel takes a batch now.
    pub fn has_room(&self) -> (b: bool)
        ensures
            b == self@.has_room(),
    {
        !self.closed && (self.abandoned || self.queue.len() < self.capacity)
    }

    /// Whether no more batches will be pushed.
    pub fn is_closed(&self) -> (b: bool)
        ensures
            b == self@.closed,
    {
        self.closed
    }

    /// Whether the channel takes no batch until one is pulled.
    pub fn is_full(&self) -> (b: bool)
        ensures
            b == self@.full(),
    {
        self.queue.len() >= self.capacity
    }

    /// Whether everything was pulled and no more will be pushed.
    pub fn is_exhausted(&self) -> (b: bool)
        ensures
            b == self@.exhausted(),
    {
        self.closed && self.queue.len() == 0
    }

    /// A channel with the given batches.
    pub(crate) fn holding(queue: VecDeque<(T, Vec<D>)>, capacity: usize, closed: bool) -> (c: Self)
        requires
            queue@.len() <= capacity,
        ensures
            c@ == (ChannelView {
                batches: batches(queue@),
                capacity: capacity as int,
                closed,
                abandoned: false,
            }),
    {
        Channel { queue, capacity, closed, abandoned: false }
    }

    /// Forgets the oldest `n` batches.
    pub(crate) fn forget(&mut self, n: usize)
        requires
            n <= old(self)@.batches.len(),
        ensures
            final(self)@ == (ChannelView { batches: old(self)@.batches.skip(n as int), ..old(self)@ }),
    {
        let mut k: usize = 0;
        assert(self@.batches =~= old(self)@.batches.skip(0));
        while k < n
            invariant
                k <= n <= old(self)@.batches.len(),
                self@ == (ChannelView {
                    batches: old(self)@.batches.skip(k as int),
                    ..old(self)@
                }),
            decreases n - k,
        {
            let _ = self.pull();
            k = k + 1;
            assert(self@.batches =~= old(self)@.batches.skip(k as int));
        }
    }

    /// Changes how many batches the channel can hold; it holds no more than that.
    pub(crate) fn refit(&mut self, capacity: usize)
        requires
            old(self)@.batches.len() <= capacity,
        ensures
            final(self)@ == (ChannelView { capacity: capacity as int, ..old(self)@ }),
    {
        self.capacity = capacity;
    }

    /// Whether no more batches will be pulled.
    pub(crate) fn is_abandoned(&self) -> (b: bool)
        ensures
            b == self@.abandoned,
    {
        self.abandoned
    }

    /// How many batches the channel can hold.
    pub(crate) fn capacity(&self) -> (n: usize)
        ensures
            n == self@.capacity,
    {
        self.capacity
    }

    /// The number of batches in the channel.
    pub fn len(&self) -> (n: usize)
        ensures
            n == self@.batches.len(),
            n <= self@.capacity,
    {
        proof {
            use_type_invariant(self);
        }
        self.queue.len()
    }
}

impl<T: Timestamp, D: Clone> Channel<T, D> {
    /// Copies of `n` batches from place `at` on.
    pub(crate) fn copied(&self, at: usize, n: usize) -> (out: VecDeque<(T, Vec<D>)>)
        requires
            at + n <= self@.batches.len(),
        ensures
            copies(self@.batches.subrange(at as int, at + n), batches(out@)),
    {
        let mut out: VecDeque<(T, Vec<D>)> = VecDeque::new();
        let total: usize = self.queue.len();
        let mut k: usize = 0;
        while k < n
            invariant
                k <= n,
                total == self@.batches.len(),
                at + n <= total,
                out@.len() == k,
                forall|i: int|
                    0 <= i < k ==> is_copy(
                        self@.batches[at + i],
                        (#[trigger] out@[i].0, out@[i].1@),
                    ),
            decreases n - k,
        {
            let (time, data) = &self.queue[at + k];
            let ghost given = (*time, data@);
            assert(given == self@.batches[at + k]);
            let copy = clone_batch(data);
            let item = (time.duplicate(), copy);
            assert(is_copy(given, (item.0, item.1@)));
            out.push_back(item);
            k = k + 1;
        }
        proof {
            let part = self@.batches.subrange(at as int, at + n);
            assert forall|i: int| 0 <= i < part.len() implies is_copy(
                #[trigger] part[i],
                batches(out@)[i],
            ) by {
                assert(batches(out@)[i] == (out@[i].0, out@[i].1@));
            }
        }
        out
    }
}

impl<T: Timestamp, D> Channel<T, D> {
    /// The times of `n` batches from place `first` on.
    pub(crate) fn times_from(&self, first: usize, n: usize) -> (times: Vec<T>)
        requires
            first + n <= self@.batches.len(),
        ensures
            times@.len() == n,
            forall|i: int| 0 <= i < n ==> #[trigger] times@[i] == self@.batches[first + i].0,
    {
        let total: usize = self.queue.len();
        let mut times: Vec<T> = Vec::new();
        let mut k: usize = 0;
        while k < n
            invariant
                k <= n,
                total == self@.batches.len(),
                first + n <= total,
                times@.len() == k,
                forall|i: int| 0 <= i < k ==> #[trigger] times@[i] == self@.batches[first + i].0,
            decreases n - k,
        {
            times.push(self.queue[first + k].0.duplicate());
            k = k + 1;
        }
        times
    }

    /// The times of the batches in the channel, oldest first.
    pub fn times(&self) -> (times: Vec<T>)
        ensures
            times@ == self@.batches.map_values(|b: (T, Seq<D>)| b.0),
    {
        let mut times: Vec<T> = Vec::new();
        let mut i: usize = 0;
        while i < self.queue.len()
            invariant
                i <= self.queue@.len(),
                times@.len() == i,
                forall|k: int| 0 <= k < i ==> #[trigger] times@[k] == self.queue@[k].0,
            decreases self.queue@.len() - i,
        {
            times.push(self.queue[i].0.duplicate());
            i = i + 1;
        }
        assert(times@ =~= self@.batches.map_values(|b: (T, Seq<D>)| b.0));
        times
    }
}

/// After the batches were pushed one by one.
pub open spec fn pushed_all<T, D>(c: ChannelView<T, D>, given: Seq<(T, Seq<D>)>) -> ChannelView<T, D>
    decreases given.len(),
{
    if given.len() == 0 {
        c
    } else {
        pushed_all(c, given.drop_last()).pushed(given.last().0, given.last().1)
    }
}

/// What was pushed is what can be pulled, in the same order.
pub proof fn pulls_follow_pushes<T, D>(c: ChannelView<T, D>, given: Seq<(T, Seq<D>)>)
    requires
        !c.abandoned,
    ensures
        pushed_all(c, given) == (ChannelView { batches: c.batches + given, ..c }),
    decreases given.len(),
{
    if given.len() == 0 {
        assert(c.batches + given =~= c.batches);
    } else {
        pulls_follow_pushes(c, given.drop_last());
        assert(c.batches + given =~= (c.batches + given.drop_last()).push(given.last()));
    }
}

/// A channel never holds more than it can.
pub proof fn pushes_keep_within_capacity<T, D>(c: ChannelView<T, D>, time: T, data: Seq<D>)
    requires
        c.batches.len() <= c.capacity,
        c.has_room(),
    ensures
        c.pushed(time, data).batches.len() <= c.capacity,
{
}

} // verus!
