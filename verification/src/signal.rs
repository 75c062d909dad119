//! The termination signal: the flag by which the worker that finds a prime
//! tells the others to stop.

use vstd::prelude::*;

verus! {

/// A flag that starts lowered and can only be raised. Nothing lowers it
/// again, so a worker that has seen it raised will never see it otherwise.
pub struct TerminationSignal {
    raised: bool,
}

impl TerminationSignal {
    /// Whether the signal has been raised.
    pub closed spec fn raised(&self) -> bool {
        self.raised
    }

    /// A lowered signal.
    pub fn new() -> (signal: TerminationSignal)
        ensures
            !signal.raised(),
    {
        TerminationSignal { raised: false }
    }

    /// Reads the signal.
    pub fn is_raised(&self) -> (r: bool)
        ensures
            r == self.raised(),
    {
        self.raised
    }

    /// Raises the signal and tells the caller whether it was the one to do
    /// so: `true` for the first call on a signal, `false` for every later
    /// one. Only the caller that gets `true` may announce its find.
    pub fn raise(&mut self) -> (first: bool)
        ensures
            final(self).raised(),
            first == !old(self).raised(),
    {
        let first = !self.raised;
        self.raised = true;
        first
    }

    /// Takes note of the end of a test. A test that failed leaves the signal
    /// as it is. One that succeeded raises it, and the caller is told to
    /// announce its find if the signal was not raised before.
    pub fn report(&mut self, prime: bool) -> (announce: bool)
        ensures
            final(self).raised() == (old(self).raised() || prime),
            announce == (prime && !old(self).raised()),
    {
        if prime {
            self.raise()
        } else {
            false
        }
    }
}

} // verus!
