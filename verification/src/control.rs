//! Signals between the workers of a dataflow, and its cancellation.

use vstd::prelude::*;
use crate::error::{Error, Result};
use crate::shared::{Anything, Shared};

verus! {

/// What one worker tells the others.
#[derive(Debug)]
pub enum ControlSignal {
    /// An operator failed.
    OperatorError { operator: String, message: String },
}

/// The sending side of the signals.
pub struct ControlSender {
    queue: Shared<Vec<ControlSignal>>,
}

/// The receiving side of the signals.
pub struct ControlReceiver {
    queue: Shared<Vec<ControlSignal>>,
}

/// Signals with a sending and a receiving side.
pub fn control_channel() -> (sides: (ControlSender, ControlReceiver))
    ensures
        sides.0.line() == sides.1.line(),
        exists|none: Vec<ControlSignal>| #[trigger] sides.0.line().began(none) && none@.len() == 0,
{
    let none: Vec<ControlSignal> = Vec::new();
    let queue = Shared::new(none, Anything);
    let sides = (ControlSender { queue: queue.share() }, ControlReceiver { queue });
    assert(sides.0.line().began(none));
    sides
}

impl ControlSender {
    /// What the sides share.
    pub closed spec fn line(&self) -> Shared<Vec<ControlSignal>> {
        self.queue
    }

    /// Tells the other workers of a failure.
    pub fn broadcast_error(&self, operator: String, message: String)
        ensures
            exists|before: Vec<ControlSignal>, after: Vec<ControlSignal>| #[trigger]
                self.line().turned(before, after) && after@ == before@.push(
                    ControlSignal::OperatorError { operator, message },
                ),
    {
        let (mut queue, loan) = self.queue.lend(Vec::new());
        let ghost before = queue;
        queue.push(ControlSignal::OperatorError { operator, message });
        let _ = self.queue.settle(loan, queue);
        assert(self.line().turned(before, queue));
    }
}

impl ControlReceiver {
    /// What the sides share.
    pub closed spec fn line(&self) -> Shared<Vec<ControlSignal>> {
        self.queue
    }

    /// Takes the signals that have arrived.
    pub fn try_recv(&self) -> (signals: Vec<ControlSignal>)
        ensures
            exists|after: Vec<ControlSignal>| #[trigger]
                self.line().turned(signals, after) && after@.len() == 0,
    {
        let none: Vec<ControlSignal> = Vec::new();
        let signals = self.queue.replace(none);
        assert(self.line().turned(signals, none));
        signals
    }
}

/// A request to stop, shared by everyone who may ask and everyone who has to obey.
pub struct CancellationToken {
    cancelled: Shared<bool>,
}

impl CancellationToken {
    /// What all holders of the token share: whether someone asked to stop.
    pub closed spec fn flag(&self) -> Shared<bool> {
        self.cancelled
    }

    /// A token that asks for nothing.
    pub fn new() -> (t: Self)
        ensures
            t.flag().began(false),
    {
        CancellationToken { cancelled: Shared::new(false, Anything) }
    }

    /// One more holder of the same token.
    pub fn share(&self) -> (t: Self)
        ensures
            t == *self,
    {
        CancellationToken { cancelled: self.cancelled.share() }
    }

    /// Asks to stop.
    pub fn cancel(&self)
        ensures
            exists|before: bool| #[trigger] self.flag().turned(before, true),
    {
        let before = self.cancelled.replace(true);
        assert(self.flag().turned(before, true));
    }

    /// Whether someone asked to stop.
    pub fn is_cancelled(&self) -> (b: bool)
        ensures
            self.flag().turned(b, b),
    {
        self.cancelled.get()
    }
}

/// What a token says: an error if someone asked to stop.
pub fn check_cancelled(cancelled: bool) -> (r: Result<()>)
    ensures
        r is Err <==> cancelled,
        r matches Err(e) ==> e == (Error::Cancelled { reason: None }),
{
    if cancelled {
        Err(Error::Cancelled { reason: None })
    } else {
        Ok(())
    }
}

} // verus!
