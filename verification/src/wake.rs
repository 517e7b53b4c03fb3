//! Wake-ups: how channels tell a sleeping executor that there is work.

use std::task::Waker;
use vstd::prelude::*;
use crate::shared::{Anything, Shared};
use crate::verdict::Signal;

verus! {

/// The wakers of `std::task`.
#[verifier::external_type_specification]
#[verifier::external_body]
pub struct ExWaker(Waker);

/// `Waker::wake_by_ref` wakes the task that belongs to the waker; nothing is claimed of what the
/// task does.
pub assume_specification[ Waker::wake_by_ref ](waker: &Waker)
;

/// `Waker::clone` makes another waker for the same task; nothing is claimed of it.
pub assume_specification[ <Waker as Clone>::clone ](waker: &Waker) -> (copy: Waker)
;

/// What a wake handle remembers.
pub struct WakeState {
    /// A notification was given and not taken yet.
    pub notified: bool,
    /// Whom to wake.
    pub waker: Option<Waker>,
}

impl WakeState {
    /// What a signal makes of the state.
    pub open spec fn takes(self, signal: Signal, after: WakeState) -> bool {
        &&& after.notified == (self.notified || signal is RegisterAndNotify)
        &&& match signal {
            Signal::Nothing => after.waker == self.waker,
            Signal::Clear => after.waker is None,
            Signal::Register | Signal::RegisterAndNotify => after.waker is Some,
        }
    }

    /// No notification, and nobody to wake.
    pub fn new() -> (s: Self)
        ensures
            !s.notified,
            s.waker is None,
    {
        WakeState { notified: false, waker: None }
    }

    /// Records a notification.
    pub fn notify(&mut self)
        ensures
            final(self).notified,
            final(self).waker == old(self).waker,
    {
        self.notified = true;
    }

    /// Takes the notification, if there is one.
    pub fn take_notification(&mut self) -> (taken: bool)
        ensures
            taken == old(self).notified,
            !final(self).notified,
            final(self).waker == old(self).waker,
    {
        let taken = self.notified;
        self.notified = false;
        taken
    }

    /// Records whom to wake.
    pub fn register(&mut self, waker: Waker)
        ensures
            final(self).notified == old(self).notified,
            final(self).waker == Some(waker),
    {
        self.waker = Some(waker);
    }

    /// Forgets whom to wake.
    pub fn clear(&mut self)
        ensures
            final(self).notified == old(self).notified,
            final(self).waker is None,
    {
        self.waker = None;
    }
}

/// A wake-up that channels give and the executor takes. All handles that were shared from one
/// another are one.
pub struct WakeHandle {
    state: Shared<WakeState>,
}

impl WakeHandle {
    /// What all holders of the handle share.
    pub closed spec fn state(&self) -> Shared<WakeState> {
        self.state
    }

    /// A handle without a notification.
    pub fn new() -> (h: Self)
        ensures
            exists|s: WakeState| #[trigger]
                h.state().began(s) && !s.notified && s.waker is None,
    {
        let s = WakeState::new();
        let h = WakeHandle { state: Shared::new(s, Anything) };
        assert(h.state().began(s));
        h
    }

    /// One more holder of the same handle.
    pub fn share(&self) -> (h: Self)
        ensures
            h == *self,
    {
        WakeHandle { state: self.state.share() }
    }

    /// What a signal makes of the state was put in place.
    pub open spec fn signalled(&self, signal: Signal) -> bool {
        exists|before: WakeState, after: WakeState| #[trigger]
            self.state().turned(before, after) && before.takes(signal, after)
    }

    /// Gives a signal, by which `waker` may be registered. A notification wakes whoever is
    /// registered.
    pub fn signal(&self, signal: Signal, waker: &Waker)
        ensures
            self.signalled(signal),
    {
        let (mut state, loan) = self.state.lend(WakeState::new());
        let ghost before = state;
        match signal {
            Signal::Nothing => {},
            Signal::Clear => {
                state.clear();
            },
            Signal::Register => {
                state.register(waker.clone());
            },
            Signal::RegisterAndNotify => {
                state.register(waker.clone());
                state.notify();
            },
        }
        assert(before.takes(signal, state));
        let _ = self.state.settle(loan, state);
        assert(self.state().turned(before, state));
        match signal {
            Signal::RegisterAndNotify => {
                waker.wake_by_ref();
            },
            _ => {},
        }
    }

    /// A notification was given.
    pub open spec fn notified(&self) -> bool {
        exists|before: WakeState, after: WakeState| #[trigger]
            self.state().turned(before, after) && after.notified && after.waker == before.waker
    }

    /// Gives a notification and wakes whoever is registered.
    pub fn notify(&self)
        ensures
            self.notified(),
    {
        let (mut state, loan) = self.state.lend(WakeState::new());
        let ghost before = state;
        state.notify();
        let waker = match &state.waker {
            Some(w) => Some(w.clone()),
            None => None,
        };
        let _ = self.state.settle(loan, state);
        assert(self.state().turned(before, state));
        match waker {
            Some(w) => {
                w.wake_by_ref();
            },
            None => {},
        }
    }

    /// Takes the notification, if there is one.
    pub fn take_notification(&self) -> (taken: bool)
        ensures
            exists|before: WakeState, after: WakeState| #[trigger]
                self.state().turned(before, after) && taken == before.notified && !after.notified
                    && after.waker == before.waker,
    {
        let (mut state, loan) = self.state.lend(WakeState::new());
        let ghost before = state;
        let taken = state.take_notification();
        let _ = self.state.settle(loan, state);
        assert(self.state().turned(before, state));
        taken
    }

    /// Records whom to wake.
    pub fn register_waker(&self, waker: &Waker)
        ensures
            self.signalled(Signal::Register),
    {
        self.signal(Signal::Register, waker);
    }

    /// Forgets whom to wake.
    pub fn clear_waker(&self)
        ensures
            self.signalled(Signal::Clear),
    {
        let (mut state, loan) = self.state.lend(WakeState::new());
        let ghost before = state;
        state.clear();
        assert(before.takes(Signal::Clear, state));
        let _ = self.state.settle(loan, state);
        assert(self.state().turned(before, state));
    }
}

} // verus!
