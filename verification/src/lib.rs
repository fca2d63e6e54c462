//! A single-threaded runtime for asynchronous tasks.
//!
//! The library takes the decisions of the runtime: which task is polled next ([`executor`]), who
//! waits for what and is to be woken ([`reactor`], [`timers`], [`waker`]), when a sleep is over
//! ([`time`]), and what follows from an attempt to use a socket ([`net`]). It neither polls
//! futures nor talks to the operating system: it says what is to be done, and is told what came
//! of it.
use vstd::prelude::*;

pub mod example;
pub mod executor;
pub mod net;
pub mod reactor;
pub mod time;
pub mod timers;
pub mod waker;

verus! {

/// Whether a future is done, and with what.
#[derive(Debug, PartialEq, Eq)]
pub enum Poll<T> {
    Ready(T),
    Pending,
}

} // verus!
