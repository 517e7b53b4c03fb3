//! The handles through which an operator reads its input batches and buffers its output batches.

use std::collections::VecDeque;
use vstd::prelude::*;
use crate::frontier::{Antichain, Notificator, NotificatorView};
use crate::order::Timestamp;

verus! {

/// Timestamped batches as sequences of records.
pub open spec fn batches<T, D>(s: Seq<(T, Vec<D>)>) -> Seq<(T, Seq<D>)> {
    s.map_values(|b: (T, Vec<D>)| (b.0, b.1@))
}

/// The batches that hold at least one record.
pub open spec fn without_empty<T, D>(s: Seq<(T, Seq<D>)>) -> Seq<(T, Seq<D>)> {
    s.filter(|b: (T, Seq<D>)| b.1.len() > 0)
}

/// One more batch; an empty one adds nothing.
pub open spec fn with_batch<T, D>(s: Seq<(T, Seq<D>)>, time: T, data: Seq<D>) -> Seq<
    (T, Seq<D>),
> {
    if data.len() > 0 {
        s.push((time, data))
    } else {
        s
    }
}

/// What an input handle holds.
pub struct InputView<T, D> {
    /// The batches that were not read yet.
    pub pending: Seq<(T, Seq<D>)>,
    /// Whether no more batches will come.
    pub exhausted: bool,
}

impl<T, D> InputView<T, D> {
    /// All batches were read and no more will come.
    pub open spec fn done(self) -> bool {
        self.exhausted && self.pending.len() == 0
    }
}

/// The reading side of an operator.
#[derive(Debug)]
pub struct InputHandle<T, D> {
    name: String,
    queue: VecDeque<(T, Vec<D>)>,
    exhausted: bool,
}

impl<T, D> View for InputHandle<T, D> {
    type V = InputView<T, D>;

    closed spec fn view(&self) -> InputView<T, D> {
        InputView { pending: batches(self.queue@), exhausted: self.exhausted }
    }
}

impl<T, D> InputHandle<T, D> {
    /// The name of the handle.
    pub closed spec fn label(&self) -> Seq<char> {
        self.name@
    }

    /// An open input without batches.
    pub fn new(name: String) -> (h: Self)
        ensures
            h.label() == name@,
            h@ == (InputView { pending: Seq::<(T, Seq<D>)>::empty(), exhausted: false }),
    {
        let h = InputHandle { name, queue: VecDeque::new(), exhausted: false };
        assert(h@.pending =~= Seq::<(T, Seq<D>)>::empty());
        h
    }

    /// The name of the handle.
    pub fn name(&self) -> (name: &str)
        ensures
            name@ == self.label(),
    {
        self.name.as_str()
    }

    /// Appends a batch.
    pub fn push_vec(&mut self, time: T, data: Vec<D>)
        ensures
            final(self).label() == old(self).label(),
            final(self)@ == (InputView {
                pending: old(self)@.pending.push((time, data@)),
                ..old(self)@
            }),
    {
        self.queue.push_back((time, data));
        assert(self@.pending =~= old(self)@.pending.push((time, data@)));
    }

    /// The next batch, if there is one.
    pub fn next(&mut self) -> (batch: Option<(T, Vec<D>)>)
        ensures
            final(self).label() == old(self).label(),
            final(self)@.exhausted == old(self)@.exhausted,
            batch is None <==> old(self)@.pending.len() == 0,
            batch is None ==> final(self)@ == old(self)@,
            batch matches Some(b) ==> (b.0, b.1@) == old(self)@.pending[0]
                && final(self)@.pending == old(self)@.pending.drop_first(),
    {
        let batch = self.queue.pop_front();
        match batch {
            Some(b) => {
                assert(self@.pending =~= old(self)@.pending.drop_first());
                Some(b)
            },
            None => {
                assert(old(self)@.pending =~= self@.pending);
                None
            },
        }
    }

    /// Notes that no more batches will come.
    pub fn mark_exhausted(&mut self)
        ensures
            final(self).label() == old(self).label(),
            final(self)@ == (InputView { exhausted: true, ..old(self)@ }),
    {
        self.exhausted = true;
    }

    /// Whether no more batches will come.
    pub fn is_exhausted(&self) -> (b: bool)
        ensures
            b == self@.exhausted,
    {
        self.exhausted
    }

    /// Whether all batches were read and no more will come.
    pub fn is_done(&self) -> (b: bool)
        ensures
            b == self@.done(),
    {
        self.exhausted && self.queue.len() == 0
    }

    /// The number of batches that were not read yet.
    pub fn pending_count(&self) -> (n: usize)
        ensures
            n == self@.pending.len(),
    {
        self.queue.len()
    }
}

/// The writing side of an operator: batches that wait to be sent.
#[derive(Debug)]
pub struct OutputHandle<T, D> {
    name: String,
    buffer: Vec<(T, Vec<D>)>,
}

impl<T, D> View for OutputHandle<T, D> {
    type V = Seq<(T, Seq<D>)>;

    /// The buffered batches.
    closed spec fn view(&self) -> Seq<(T, Seq<D>)> {
        batches(self.buffer@)
    }
}

impl<T, D> OutputHandle<T, D> {
    /// The name of the handle.
    pub closed spec fn label(&self) -> Seq<char> {
        self.name@
    }

    /// An output without batches.
    pub fn new(name: String) -> (h: Self)
        ensures
            h.label() == name@,
            h@ == Seq::<(T, Seq<D>)>::empty(),
    {
        let h = OutputHandle { name, buffer: Vec::new() };
        assert(h@ =~= Seq::<(T, Seq<D>)>::empty());
        h
    }

    /// The name of the handle.
    pub fn name(&self) -> (name: &str)
        ensures
            name@ == self.label(),
    {
        self.name.as_str()
    }

    /// Buffers a batch; an empty one is dropped.
    pub fn push_vec(&mut self, time: T, data: Vec<D>)
        ensures
            final(self).label() == old(self).label(),
            final(self)@ == with_batch(old(self)@, time, data@),
    {
        if data.len() > 0 {
            self.buffer.push((time, data));
            assert(self@ =~= old(self)@.push((time, data@)));
        }
    }

    /// Starts a batch at `time`.
    pub fn session(&self, time: T) -> (s: OutputSession<T, D>)
        ensures
            s.time == time,
            s.data@ == Seq::<D>::empty(),
    {
        OutputSession { time, data: Vec::new() }
    }

    /// The number of buffered batches.
    pub fn buffered_count(&self) -> (n: usize)
        ensures
            n == self@.len(),
    {
        self.buffer.len()
    }

    /// Hands the buffered batches out, in the order in which they were buffered.
    pub fn drain(&mut self) -> (out: Vec<(T, Vec<D>)>)
        ensures
            final(self).label() == old(self).label(),
            final(self)@ == Seq::<(T, Seq<D>)>::empty(),
            batches(out@) == old(self)@,
    {
        let mut out: Vec<(T, Vec<D>)> = Vec::new();
        core::mem::swap(&mut out, &mut self.buffer);
        assert(self@ =~= Seq::<(T, Seq<D>)>::empty());
        out
    }
}

/// A batch in the making.
#[derive(Debug)]
pub struct OutputSession<T, D> {
    pub time: T,
    pub data: Vec<D>,
}

impl<T, D> OutputSession<T, D> {
    /// Adds a record.
    pub fn give(&mut self, item: D)
        ensures
            final(self).time == old(self).time,
            final(self).data@ == old(self).data@.push(item),
    {
        self.data.push(item);
    }

    /// Adds records.
    pub fn give_vec(&mut self, items: Vec<D>)
        ensures
            final(self).time == old(self).time,
            final(self).data@ == old(self).data@ + items@,
    {
        let mut items = items;
        self.data.append(&mut items);
    }

    /// Completes the batch; an empty one is dropped.
    pub fn finish(self, output: &mut OutputHandle<T, D>)
        ensures
            final(output).label() == old(output).label(),
            final(output)@ == with_batch(old(output)@, self.time, self.data@),
    {
        output.push_vec(self.time, self.data);
    }
}

/// What an operator that waits for complete times sees of the frontier.
#[derive(Debug)]
pub struct NotifyContext<T> {
    notificator: Notificator<T>,
}

impl<T> View for NotifyContext<T> {
    type V = NotificatorView<T>;

    closed spec fn view(&self) -> NotificatorView<T> {
        self.notificator@
    }
}

impl<T: Timestamp> NotifyContext<T> {
    /// A context without requests.
    pub fn new(frontier: Antichain<T>) -> (c: Self)
        ensures
            c@ == (NotificatorView { frontier: frontier@, pending: Seq::<T>::empty() }),
    {
        NotifyContext { notificator: Notificator::new(frontier) }
    }

    /// Requests a notification for `time`; a time that is requested already stays single.
    pub fn notify_at(&mut self, time: T)
        ensures
            final(self)@.frontier == old(self)@.frontier,
            final(self)@.pending == if old(self)@.pending.contains(time) {
                old(self)@.pending
            } else {
                old(self)@.pending.push(time)
            },
    {
        self.notificator.notify_at(time);
    }

    /// The next requested time that is complete.
    pub fn next_notification(&mut self) -> (time: Option<T>)
        ensures
            final(self)@.frontier == old(self)@.frontier,
            time is Some <==> old(self)@.ready(),
            time is None ==> final(self)@.pending == old(self)@.pending,
            time matches Some(t) ==> exists|i: int| #[trigger]
                old(self)@.is_next(i) && t == old(self)@.pending[i] && final(self)@.pending == old(
                    self,
                )@.pending.remove(i),
    {
        self.notificator.next()
    }

    /// Moves the frontier.
    pub fn update_frontier(&mut self, frontier: &Antichain<T>)
        ensures
            final(self)@ == (NotificatorView { frontier: frontier@, ..old(self)@ }),
    {
        self.notificator.update_frontier(frontier);
    }

    /// Whether a requested time is complete.
    pub fn has_ready(&self) -> (b: bool)
        ensures
            b == self@.ready(),
    {
        self.notificator.has_ready()
    }

    /// The requested times that were not delivered yet.
    pub fn pending(&self) -> (times: &Vec<T>)
        ensures
            times@ == self@.pending,
    {
        self.notificator.pending()
    }
}

} // verus!
