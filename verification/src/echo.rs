//! Smoke Test: echo back whatever a client sends.
use vstd::prelude::*;

verus! {

/// Problem 0 - echo back input
#[derive(Copy, Clone, Debug)]
pub struct EchoServer;

impl EchoServer {
    /// What to send back for the bytes just received: the very same bytes.
    pub fn reply<'a>(&self, received: &'a [u8]) -> (r: &'a [u8])
        ensures
            r@ == received@,
    {
        received
    }
}

} // verus!
