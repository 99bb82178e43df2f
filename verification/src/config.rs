//! The size parameters a simulation is configured with, and their
//! defaults.  Reading them from a command line is left to the caller;
//! the library only fixes their names and default values.

use vstd::prelude::*;

verus! {

/// The three sizes, in bytes, that shape the memory hierarchy.
#[derive(Debug, Clone, Copy, PartialEq, Eq, Structural)]
pub enum SizeArgument {
    /// The size of one page frame.
    Page,
    /// The total size of real memory.
    RealMemory,
    /// The total size of swap space.
    SwapSpace,
}

impl SizeArgument {
    /// The name under which the size is configured.
    pub fn as_str(&self) -> (r: &'static str)
        ensures
            *self is Page ==> r@ == "page size"@,
            *self is RealMemory ==> r@ == "real memory size"@,
            *self is SwapSpace ==> r@ == "swap space size"@,
    {
        match self {
            SizeArgument::Page => "page size",
            SizeArgument::RealMemory => "real memory size",
            SizeArgument::SwapSpace => "swap space size",
        }
    }

    /// The value, in bytes, the size takes when the caller gives none.
    pub fn default(&self) -> (r: usize)
        ensures
            *self is Page ==> r == 16,
            *self is RealMemory ==> r == 2048,
            *self is SwapSpace ==> r == 4096,
    {
        match self {
            SizeArgument::Page => 16,
            SizeArgument::RealMemory => 2048,
            SizeArgument::SwapSpace => 4096,
        }
    }
}

} // verus!
