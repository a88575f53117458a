//! Process-wide interruption state with an armed/disarmed protocol.
//!
//! While armed, an interrupt must terminate the process at once. While a
//! scoped guard ([`SignalDataUnArmed`]) is held, an interrupt is only
//! recorded as pending; the guard holder checks the flag after finishing
//! its critical section, and releasing the guard re-arms the state and
//! clears the pending flag on every exit path.

use vstd::prelude::*;

verus! {

/// The armed/pending interruption state.
///
/// Invariant ([`Self::wf`]): the pending flag can only be set while the
/// state is disarmed; re-arming always clears it.
pub struct SignalDataIntern {
    ctrlc: bool,
    ctrlc_armed: bool,
}

impl SignalDataIntern {
    /// Whether an interrupt would terminate the process right now.
    pub closed spec fn armed(self) -> bool {
        self.ctrlc_armed
    }

    /// Whether an interrupt arrived while disarmed and is waiting to be
    /// consumed.
    pub closed spec fn pending(self) -> bool {
        self.ctrlc
    }

    /// An interrupt can be pending only while disarmed.
    pub open spec fn wf(self) -> bool {
        self.pending() ==> !self.armed()
    }

    /// Initial state at process start: armed, nothing pending.
    pub fn new() -> (s: Self)
        ensures
            s.armed(),
            !s.pending(),
            s.wf(),
    {
        SignalDataIntern { ctrlc: false, ctrlc_armed: true }
    }

    /// Reads the pending flag.
    pub fn got_ctrlc(&self) -> (r: bool)
        ensures
            r == self.pending(),
    {
        self.ctrlc
    }

    /// Reads the armed flag.
    pub fn is_ctrlc_armed(&self) -> (r: bool)
        ensures
            r == self.armed(),
    {
        self.ctrlc_armed
    }

    /// Sets the armed flag directly; any recorded interrupt is dropped.
    pub fn set_ctrlc_armed(&mut self, val: bool)
        ensures
            final(self).armed() == val,
            !final(self).pending(),
            final(self).wf(),
    {
        self.ctrlc_armed = val;
        self.ctrlc = false;
    }

    /// The decision half of the interrupt handler: returns whether the
    /// process must terminate immediately (it was armed). If disarmed, the
    /// interrupt is only recorded as pending and the holder of the current
    /// guard is responsible for acting on it.
    pub fn handle_ctrlc(&mut self) -> (terminate: bool)
        ensures
            terminate == old(self).armed(),
            final(self).armed() == old(self).armed(),
            final(self).pending() == (old(self).pending() || !old(self).armed()),
            old(self).wf() ==> final(self).wf(),
    {
        if self.is_ctrlc_armed() {
            true
        } else {
            self.ctrlc = true;
            false
        }
    }

    /// Enters the disarmed critical section: the only intended way out of
    /// the armed state. The state is consumed, so the section can only end
    /// by releasing the returned guard, which re-arms.
    pub fn disarm_aquire(self) -> (g: SignalDataUnArmed)
        ensures
            !g.pending(),
    {
        SignalDataUnArmed { ctrlc: false }
    }
}

/// Scoped guard for one disarmed critical section.
#[must_use]
pub struct SignalDataUnArmed {
    ctrlc: bool,
}

impl SignalDataUnArmed {
    /// Whether an interrupt arrived while this guard was held.
    pub closed spec fn pending(self) -> bool {
        self.ctrlc
    }

    /// Reads the pending flag while the guard is held.
    pub fn got_ctrlc(&self) -> (r: bool)
        ensures
            r == self.pending(),
    {
        self.ctrlc
    }

    /// The interrupt handler's action while the guard is held: the
    /// interrupt is deferred, only the pending flag is set.
    pub fn request_interrupt(&mut self)
        ensures
            final(self).pending(),
    {
        self.ctrlc = true;
    }

    /// Leaves the critical section: re-arms and clears the pending flag,
    /// whatever happened while the guard was held.
    pub fn release(self) -> (s: SignalDataIntern)
        ensures
            s.armed(),
            !s.pending(),
            s.wf(),
    {
        SignalDataIntern::new()
    }
}

} // verus!
