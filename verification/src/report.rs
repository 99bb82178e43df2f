//! What the system hands back for every instruction it processes: the
//! recoverable validation errors, the per-instruction outcome, and the
//! end-of-run summary.

use vstd::prelude::*;

use crate::process::PID;
use crate::time::Time;
use crate::util::FrameRange;

verus! {

/// The recoverable ways an instruction can be rejected.  A rejected
/// instruction is skipped: the clock and every table stay as they were.
#[derive(Debug, Clone, Copy, PartialEq, Eq, Structural)]
pub enum SystemError {
    /// An allocation named a pid that is already alive.
    DuplicateProcess,
    /// An allocation asked for more bytes than the whole hierarchy has free.
    InsufficientTotalMemory,
    /// An allocation asked for more bytes than real memory holds in total,
    /// so it could never fit even after evicting everything.
    ProcessExceedsRealMemory,
    /// An access or a release named a pid that is not alive.
    UnknownProcess,
    /// An access named an address outside the process's size.
    AddressOutOfRange,
}

/// One process's line in the end-of-run summary.
#[derive(Debug, Clone, Copy, PartialEq, Eq, Structural)]
pub struct ProcessReport {
    pub pid: PID,
    /// The span from the process's birth to its death.
    pub turnaround: Time,
    pub page_faults: u16,
    pub swap_ins: u16,
    pub swap_outs: u16,
}

/// The end-of-run summary over the finished processes.
#[derive(Debug, Clone, PartialEq)]
pub struct Summary {
    pub per_process: Vec<ProcessReport>,
    /// The mean turnaround in whole milliseconds, rounded down; absent
    /// when no process has finished.
    pub average_turnaround: Option<Time>,
}

/// What a successfully processed instruction did.
#[derive(Debug, Clone, PartialEq)]
pub enum Outcome {
    /// A process was created and all its pages were loaded.
    Allocated { pid: PID, pages: usize, elapsed: Time },
    /// A virtual address was resolved; `real_address` is where it fell in
    /// real memory, and `page_fault` says whether the page had to be
    /// brought in from swap space first.
    Accessed {
        pid: PID,
        frame_index: usize,
        real_address: usize,
        page_fault: bool,
        elapsed: Time,
    },
    /// A process's frames were all released; the ranges list the freed
    /// slot indices of each table in coalesced form.
    Freed {
        pid: PID,
        real_ranges: Vec<FrameRange>,
        swap_ranges: Vec<FrameRange>,
        freed_frames: usize,
        elapsed: Time,
    },
    /// The end-of-run report.
    Report(Summary),
    /// A comment or an exit marker: nothing to do.
    Noop,
}

} // verus!
