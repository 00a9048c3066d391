//! Send-half lifecycle of one transport stream. The transport's own read and
//! write primitives live outside this crate; what the crate owns is the rule
//! that `finish` is final: once the send half is finished, no further write
//! may be issued, and a caller asking must be refused rather than silently
//! allowed through.

use vstd::prelude::*;

verus! {

/// Lifecycle state of the send half of one stream: open until `finish` is
/// called, finished forever after.
pub struct SendStreamState {
    pub finished: bool,
}

impl SendStreamState {
    /// A freshly opened send half accepts writes.
    pub fn new() -> (s: SendStreamState)
        ensures
            !s.finished,
    {
        SendStreamState { finished: false }
    }

    /// Signals that no more data will be written. From here on every write
    /// attempt must be refused with an error.
    pub fn finish(&mut self)
        ensures
            final(self).finished,
    {
        self.finished = true;
    }

    /// Whether a write attempt may proceed: exactly while the send half has
    /// not been finished. A caller holding `false` must fail the write with
    /// an I/O error, never drop it silently.
    pub fn may_write(&self) -> (b: bool)
        ensures
            b == !self.finished,
    {
        !self.finished
    }
}

} // verus!
