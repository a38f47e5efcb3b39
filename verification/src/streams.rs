//! A stream that never yields, used to exercise the event loop.

use vstd::prelude::*;

verus! {

/// What polling a stream gives: nothing yet, or the next item (none when the
/// stream has ended).
#[derive(Debug)]
pub enum StreamPoll {
    NotReady,
    Ready(Option<()>),
}

/// A stream that is never ready.
#[derive(Debug)]
pub struct TestStream {}

impl TestStream {
    pub fn new() -> Self {
        Self {  }
    }

    /// Polls the stream: it is not ready.
    pub fn poll(&mut self) -> (r: StreamPoll)
        ensures
            r is NotReady,
    {
        StreamPoll::NotReady
    }
}

} // verus!
