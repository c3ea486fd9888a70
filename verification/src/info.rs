//! Progress bookkeeping shared by the search drivers: the attempt counter,
//! the list of confirmed passwords, and the most recent candidate shown.
//! The concurrent wrapper (one atomic counter and mutexes around the lists)
//! lives with the program that spawns the workers; the search drivers work
//! on this plain value.

use vstd::prelude::*;

verus! {

/// Progress of a run: how many candidates were attempted, which passwords
/// were confirmed, and the candidate most recently published for display.
pub struct InfoData {
    /// Monotonic count of attempted candidates, wrapping at 64 bits.
    pub counter: u64,
    /// Confirmed passwords, in the order they were found.
    pub found_passwords: Vec<Vec<u8>>,
    /// The candidate most recently published for display.
    pub recent_password: Vec<u8>,
}

impl InfoData {
    /// Fresh progress: no attempts, no hits, and a placeholder dash as the
    /// recent candidate.
    pub fn new() -> (r: InfoData)
        ensures
            r.counter == 0,
            r.found_passwords@.len() == 0,
            r.recent_password@ =~= seq![45u8],
    {
        let mut recent: Vec<u8> = Vec::new();
        recent.push(45);
        InfoData { counter: 0, found_passwords: Vec::new(), recent_password: recent }
    }
}

} // verus!
