//! The page-replacement policies the system can run under.

use vstd::prelude::*;

verus! {

/// Which resident page the system evicts when real memory is full:
/// the oldest one (FIFO), the least recently used one (LRU), or one
/// chosen at random.
#[derive(Debug, Clone, Copy, PartialEq, Eq, Structural)]
pub enum PageReplacementAlgorithm {
    FIFO,
    LRU,
    Random,
}

impl PageReplacementAlgorithm {
    /// The short name under which the policy is selected.
    pub fn as_str(&self) -> (r: &'static str)
        ensures
            *self is FIFO ==> r@ == "fifo"@,
            *self is LRU ==> r@ == "lru"@,
            *self is Random ==> r@ == "rand"@,
    {
        match self {
            PageReplacementAlgorithm::FIFO => "fifo",
            PageReplacementAlgorithm::LRU => "lru",
            PageReplacementAlgorithm::Random => "rand",
        }
    }
}

} // verus!
