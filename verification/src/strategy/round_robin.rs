//! Upstreams in turn, by a counter shared between the request handlers.
use crate::strategy::{pick, picked};
use std::sync::atomic::{AtomicUsize, Ordering};
use std::sync::Arc;
use vstd::prelude::*;

verus! {

/// Picks the upstreams in turn.
pub struct RoundRobin {
    pub addrs: Vec<String>,
    pub req_counter: Arc<AtomicUsize>,
}

impl RoundRobin {
    /// The address whose turn it is: the shared counter is advanced by one,
    /// and the address at its previous value, modulo the number of
    /// addresses, is chosen. Which value that is depends on the requests
    /// handled before, here or on other threads.
    pub fn next_server(&self) -> (addr: String)
        requires
            self.addrs@.len() > 0,
        ensures
            exists|n: usize| addr@ == picked(self.addrs@, n),
    {
        let count: usize = self.req_counter.fetch_add(1, Ordering::Relaxed);
        pick(&self.addrs, count)
    }
}

} // verus!
