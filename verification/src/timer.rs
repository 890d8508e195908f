//! The discovery timer's configuration and re-arm rule.  It can be
//! disabled ("never fires"), one-shot, or repeating; the caller does the
//! actual sleeping and reports each expiry through `fire`.
use vstd::prelude::*;

verus! {

/// A timer configuration: disabled until `time` arms it; `repeat`
/// decides whether an expiry re-arms it.
pub struct Timer {
    pub repeat: bool,
    pub duration_ms: u64,
    armed: bool,
}

impl Timer {
    /// Whether the timer is waiting to expire.  A disarmed timer never
    /// fires.
    pub closed spec fn is_armed(&self) -> bool {
        self.armed
    }

    /// Whether an expiry re-arms the timer.
    pub closed spec fn is_repeating(&self) -> bool {
        self.repeat
    }

    /// The configured interval, in milliseconds.
    pub closed spec fn interval_ms(&self) -> u64 {
        self.duration_ms
    }

    /// A disabled timer: it never fires until `time` arms it.
    pub fn new() -> (r: Self)
        ensures
            !r.is_armed(),
            !r.is_repeating(),
            r.interval_ms() == 0,
    {
        Timer { repeat: false, duration_ms: 0, armed: false }
    }

    /// Chooses between one-shot and repeating.
    pub fn repeat(self, repeat: bool) -> (r: Self)
        ensures
            r.is_repeating() == repeat,
            r.interval_ms() == self.interval_ms(),
            r.is_armed() == self.is_armed(),
    {
        Timer { repeat, ..self }
    }

    /// Arms the timer with this interval.
    pub fn time(self, duration_ms: u64) -> (r: Self)
        ensures
            r.is_repeating() == self.is_repeating(),
            r.interval_ms() == duration_ms,
            r.is_armed(),
    {
        Timer { duration_ms, armed: true, ..self }
    }

    /// Whether the timer is currently armed.
    pub fn armed(&self) -> (b: bool)
        ensures
            b == self.is_armed(),
    {
        self.armed
    }

    /// Records one expiry: an armed timer fires and stays armed exactly
    /// when it repeats; a disarmed timer never fires.
    pub fn fire(&mut self) -> (fired: bool)
        ensures
            fired == old(self).is_armed(),
            final(self).is_repeating() == old(self).is_repeating(),
            final(self).interval_ms() == old(self).interval_ms(),
            old(self).is_armed() ==> final(self).is_armed() == old(self).is_repeating(),
            !old(self).is_armed() ==> !final(self).is_armed(),
    {
        if self.armed {
            if !self.repeat {
                self.armed = false;
            }
            true
        } else {
            false
        }
    }
}

} // verus!
