//! The requests the system consumes, one per input line.
//!
//! Turning a line of text into an `Instruction`, and an `Instruction`
//! back into a display string, is the job of the surrounding program;
//! the library only ever receives already-parsed values.

use vstd::prelude::*;

use crate::process::PID;

verus! {

/// One request to the memory manager.
#[derive(Debug, Clone)]
pub enum Instruction {
    /// Create a process of `size` bytes and load all its pages.
    Process { pid: PID, size: usize },
    /// Touch (or, when `modifies` holds, write to) one virtual address
    /// of a process.
    Access { address: usize, modifies: bool, pid: PID },
    /// Release every frame a process occupies.
    Free { pid: PID },
    /// A comment line: no effect.
    Comment(String),
    /// End of the run: produce the summary report.
    End(),
    /// Stop reading input: no effect on the system.
    Exit(),
}

} // verus!
