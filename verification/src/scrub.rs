//! Scrub reporting: the handler invoked when a blobstore read found an
//! inner store in need of repair.

use vstd::prelude::*;

verus! {

/// A scrub handler that reports repairs through the process log; `quiet`
/// suppresses the reports.
#[derive(Clone, Copy, PartialEq, Eq, Structural, Debug)]
pub struct LoggingScrubHandler {
    quiet: bool,
}

impl LoggingScrubHandler {
    /// A handler; `quiet` suppresses its reports.
    pub fn new(quiet: bool) -> (h: Self)
        ensures
            h.spec_quiet() == quiet,
    {
        LoggingScrubHandler { quiet }
    }

    /// Whether reports are suppressed.
    pub closed spec fn spec_quiet(self) -> bool {
        self.quiet
    }

    /// Whether a repair event should be reported.
    pub fn should_report(&self) -> (r: bool)
        ensures
            r == !self.spec_quiet(),
    {
        !self.quiet
    }
}

} // verus!
