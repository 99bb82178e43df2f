//! Per-process bookkeeping and per-page metadata.

use vstd::prelude::*;

use crate::time::Time;
use crate::time::TimeError;
use crate::util::ceil_div;
use crate::util::ceil_div_spec;

verus! {

/// The number that identifies a process.
pub type PID = u16;

/// Saturating increment on a 16-bit counter.
pub open spec fn sat_inc(a: int) -> int {
    if a + 1 <= u16::MAX {
        a + 1
    } else {
        u16::MAX as int
    }
}

/// The registry entry of one simulated process: its identity, its size in
/// bytes, the interval of simulated time it lived through, and the fault
/// and swap counters the run accumulates for it.  While the process is
/// alive, `life_end` holds the sentinel `Time::max()`.
#[derive(Debug, Clone, Copy, PartialEq, Eq, Structural)]
pub struct Process {
    pub pid: PID,
    pub size: usize,
    pub life_start: Time,
    pub life_end: Time,
    pub page_faults: u16,
    pub swap_ins: u16,
    pub swap_outs: u16,
}

impl Process {
    /// A fresh process of the given identity and byte size, not yet born
    /// and not yet dead, with all counters at zero.
    pub fn new(pid: PID, size: usize) -> (r: Process)
        ensures
            r == (Process {
                pid,
                size,
                life_start: Time(0),
                life_end: Time(u32::MAX),
                page_faults: 0,
                swap_ins: 0,
                swap_outs: 0,
            }),
    {
        Process {
            pid,
            size,
            life_start: Time::new(),
            life_end: Time::max(),
            page_faults: 0,
            swap_ins: 0,
            swap_outs: 0,
        }
    }

    /// The process's identity.
    pub fn get_pid(&self) -> (r: PID)
        ensures
            r == self.pid,
    {
        self.pid
    }

    /// How many pages of the given size the process's address space needs.
    pub fn num_pages(&self, page_size: usize) -> (r: usize)
        requires
            page_size >= 1,
        ensures
            r == ceil_div_spec(self.size as int, page_size as int),
    {
        ceil_div(self.size, page_size)
    }

    /// Whether a virtual address falls inside the process's address space.
    pub fn includes_address(&self, address: usize) -> (r: bool)
        ensures
            r == (address < self.size),
    {
        address < self.size
    }

    /// Counts one page of this process moved from swap space into real
    /// memory.  The counter saturates instead of wrapping.
    pub fn add_swap_in(&mut self)
        ensures
            *final(self) == (Process { swap_ins: final(self).swap_ins, ..*old(self) }),
            final(self).swap_ins == sat_inc(old(self).swap_ins as int),
    {
        if self.swap_ins < u16::MAX {
            self.swap_ins = self.swap_ins + 1;
        }
    }

    /// Counts one page of this process evicted from real memory into swap
    /// space.  The counter saturates instead of wrapping.
    pub fn add_swap_out(&mut self)
        ensures
            *final(self) == (Process { swap_outs: final(self).swap_outs, ..*old(self) }),
            final(self).swap_outs == sat_inc(old(self).swap_outs as int),
    {
        if self.swap_outs < u16::MAX {
            self.swap_outs = self.swap_outs + 1;
        }
    }

    /// Counts one page fault taken by this process.  The counter
    /// saturates instead of wrapping.
    pub fn add_page_fault(&mut self)
        ensures
            *final(self) == (Process { page_faults: final(self).page_faults, ..*old(self) }),
            final(self).page_faults == sat_inc(old(self).page_faults as int),
    {
        if self.page_faults < u16::MAX {
            self.page_faults = self.page_faults + 1;
        }
    }

    /// The pair of swap counters: how many pages came in from swap space
    /// and how many went out to it.
    pub fn get_swaps(&self) -> (r: (u16, u16))
        ensures
            r == (self.swap_ins, self.swap_outs),
    {
        (self.swap_ins, self.swap_outs)
    }

    /// Records the time at which the process finished loading.
    pub fn set_birth(&mut self, birth: Time)
        ensures
            *final(self) == (Process { life_start: birth, ..*old(self) }),
    {
        self.life_start = birth;
    }

    /// Records the time at which the process finished being released.
    pub fn set_death(&mut self, death: Time)
        ensures
            *final(self) == (Process { life_end: death, ..*old(self) }),
    {
        self.life_end = death;
    }

    /// The process's turnaround: the span from its birth to its death.
    /// Defined only for finished processes, whose death does not precede
    /// their birth.
    pub fn calc_turnaround(&self) -> (r: Result<Time, TimeError>)
        ensures
            self.life_start.0 <= self.life_end.0 ==> r == Ok::<Time, TimeError>(
                Time((self.life_end.0 - self.life_start.0) as u32),
            ),
            self.life_start.0 > self.life_end.0 ==> r == Err::<Time, TimeError>(
                TimeError::Underflow,
            ),
    {
        self.life_end.subtract(self.life_start)
    }
}

/// The metadata of one resident page: which process owns it, which page
/// of that process's address space it is, when it was created, and when
/// it was last touched.
#[derive(Debug, Clone, Copy, PartialEq, Eq, Structural)]
pub struct ProcessPage {
    pub pid: PID,
    pub index: usize,
    pub created: Time,
    pub accessed: Time,
}

impl ProcessPage {
    /// A page just loaded: its last access time is its creation time.
    pub fn new(pid: PID, index: usize, created: Time) -> (r: ProcessPage)
        ensures
            r == (ProcessPage { pid, index, created, accessed: created }),
    {
        ProcessPage { pid, index, created, accessed: created }
    }

    /// The identity of the owning process.
    pub fn get_pid(&self) -> (r: PID)
        ensures
            r == self.pid,
    {
        self.pid
    }

    /// The owning process and the page's position in its address space.
    pub fn get_page_info(&self) -> (r: (PID, usize))
        ensures
            r == (self.pid, self.index),
    {
        (self.pid, self.index)
    }

    /// When the page was created.
    pub fn get_created_time(&self) -> (r: Time)
        ensures
            r == self.created,
    {
        self.created
    }

    /// When the page was last accessed.
    pub fn get_accessed_time(&self) -> (r: Time)
        ensures
            r == self.accessed,
    {
        self.accessed
    }

    /// Records a new last-access time.
    pub fn update_accessed_time(&mut self, accessed: Time)
        ensures
            *final(self) == (ProcessPage { accessed, ..*old(self) }),
    {
        self.accessed = accessed;
    }
}

} // verus!
