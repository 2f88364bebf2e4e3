use vstd::prelude::*;

verus! {

/// A connection's view of the server-wide shutdown signal: a flag that is
/// set once the signal has been seen, and never cleared.
pub struct Shutdown {
    is_shutdown: bool,
}

impl View for Shutdown {
    type V = bool;

    closed spec fn view(&self) -> bool {
        self.is_shutdown
    }
}

impl Shutdown {
    /// A handle that has not seen the signal.
    pub fn new() -> (r: Shutdown)
        ensures
            !r@,
    {
        Shutdown { is_shutdown: false }
    }

    /// Records that the signal has fired; a second call changes nothing.
    pub fn notify(&mut self)
        ensures
            final(self)@,
    {
        self.is_shutdown = true;
    }

    /// Whether the signal has been seen. Once true, it stays true: no
    /// operation of this type clears it.
    pub fn is_shutdown(&self) -> (r: bool)
        ensures
            r == self@,
    {
        self.is_shutdown
    }
}

} // verus!
