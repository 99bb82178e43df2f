//! The memory manager: the frame tables, the process registry, the
//! simulated clock, and the instruction loop that drives them.

use vstd::prelude::*;

use crate::algorithm::PageReplacementAlgorithm;
use crate::instruction::Instruction;
use crate::process::PID;
use crate::process::Process;
use crate::process::ProcessPage;
use crate::process::sat_inc;
use crate::report::Outcome;
use crate::report::ProcessReport;
use crate::report::Summary;
use crate::report::SystemError;
use crate::time::Time;
use crate::time::sat_add;
use crate::util::FrameRange;
use crate::util::add_index_to_vec_of_ranges;
use crate::util::ceil_div;
use crate::util::ceil_div_spec;
use crate::util::lemma_ceil_div_le;
use crate::util::lemma_page_index_bound;
use crate::util::ranges_flat;
use crate::util::ranges_wf;

pub mod algorithms;
pub mod helpers;
pub mod model;

use helpers::among_first;
use helpers::lemma_wf_after_counter_update;
use model::bumped;
use model::accessed_lex_before;
use model::clear_pid;
use model::created_lex_before;
use model::distinct_across;
use model::distinct_within;
use model::empties;
use model::empties_to;
use model::fifo_min;
use model::has_pid;
use model::lemma_empties_push;
use model::lemma_empties_to_bound;
use model::lemma_empties_update;
use model::lemma_lookup_at;
use model::lemma_lookup_positional;
use model::lemma_lookup_props;
use model::lemma_lookup_push;
use model::lemma_lookup_remove;
use model::lemma_lookup_update;
use model::lemma_owned_to_bound;
use model::lemma_owned_to_zero_iff;
use model::lemma_owned_update;
use model::lemma_pids_distinct_push;
use model::lemma_pids_distinct_remove;
use model::lookup;
use model::lru_min;
use model::owned_frames;
use model::owned_indices;
use model::owned_indices_to;
use model::owned_to;
use model::pids_distinct;
use model::resident_in;
use model::sat_plus;
use model::slot_has;
use model::stats_like;
use model::turnaround_sum;
use model::turnaround_sum_to;

verus! {

/// Which of the two tables a frame belongs to.
#[derive(Debug, Clone, Copy, PartialEq, Eq, Structural)]
pub enum Memory {
    Real,
    Swap,
}

/// The coordinates of one frame: which table it lies in, and its slot
/// index there.
#[derive(Debug, Clone, Copy, PartialEq, Eq, Structural)]
pub struct Frame(pub Memory, pub usize);

/// The largest number of frames either table may hold.  The bound keeps
/// every per-instruction time cost representable in a 32-bit millisecond
/// counter.
pub const MAX_FRAMES: usize = 1000000;

/// The simulated time one in-memory access or modification costs, in
/// milliseconds.
pub const ACCESS_PAGE_TIME: u32 = 100;

/// The simulated time freeing one frame costs, in milliseconds.
pub const FREE_PAGE_TIME: u32 = 100;

/// The simulated time loading one page into an empty frame costs, in
/// milliseconds.
pub const LOAD_PAGE_TIME: u32 = 1000;

/// The simulated time one in-memory modification costs, in milliseconds.
pub const MODIFY_PAGE_TIME: u32 = 100;

/// The simulated time evicting one page to swap space costs, in
/// milliseconds.
pub const SWAP_PAGE_TIME: u32 = 1000;

/// The whole state of one simulated system: the replacement policy, the
/// clock, the registry of alive and finished processes, and the two
/// frame tables.
pub struct System {
    pub algorithm: PageReplacementAlgorithm,
    pub time: Time,
    pub alive_processes: Vec<Process>,
    pub dead_processes: Vec<Process>,
    pub frame_size: usize,
    pub real_memory: Vec<Option<ProcessPage>>,
    pub swap_space: Vec<Option<ProcessPage>>,
}

impl System {
    /// How many frames are empty over both tables together.
    pub open spec fn free_frames(self) -> int {
        empties(self.real_memory@) + empties(self.swap_space@)
    }

    /// How many bytes the empty frames of both tables add up to.
    pub open spec fn free_bytes(self) -> int {
        self.frame_size * self.free_frames()
    }

    /// How many bytes real memory holds in total.
    pub open spec fn real_capacity(self) -> int {
        self.real_memory@.len() * self.frame_size
    }

    /// How many pages a process of `size` bytes needs.
    pub open spec fn pages_of(self, size: usize) -> int {
        ceil_div_spec(size as int, self.frame_size as int)
    }

    /// Page `index` of process `pid` occupies a slot of one of the two
    /// tables.
    pub open spec fn resident(self, pid: PID, index: usize) -> bool {
        resident_in(self.real_memory@, pid, index) || resident_in(self.swap_space@, pid, index)
    }

    /// Frame `f` names the slot that holds page `index` of process `pid`.
    pub open spec fn frame_points_to(self, f: Frame, pid: PID, index: usize) -> bool {
        match f.0 {
            Memory::Real => slot_has(self.real_memory@, f.1 as int, pid, index),
            Memory::Swap => slot_has(self.swap_space@, f.1 as int, pid, index),
        }
    }

    /// The tables are well-formed: sized within bounds, and no page
    /// appears in two slots.
    pub open spec fn tables_wf(self) -> bool {
        &&& 1 <= self.frame_size
        &&& self.real_memory@.len() <= MAX_FRAMES
        &&& self.swap_space@.len() <= MAX_FRAMES
        &&& (self.real_memory@.len() + self.swap_space@.len()) * self.frame_size <= usize::MAX
        &&& distinct_within(self.real_memory@)
        &&& distinct_within(self.swap_space@)
        &&& distinct_across(self.real_memory@, self.swap_space@)
    }

    /// A resident page is legitimate: its owner is alive and the page
    /// index lies inside the owner's address space.
    pub open spec fn page_ok(self, pg: ProcessPage) -> bool {
        &&& lookup(self.alive_processes@, pg.pid) is Some
        &&& (pg.index as int) < self.pages_of(lookup(self.alive_processes@, pg.pid)->Some_0.size)
    }

    /// Every occupied slot of both tables holds a legitimate page.
    pub open spec fn owners_ok(self) -> bool {
        &&& forall|i: int|
            0 <= i < self.real_memory@.len() && (#[trigger] self.real_memory@[i]) is Some
                ==> self.page_ok(self.real_memory@[i]->Some_0)
        &&& forall|i: int|
            0 <= i < self.swap_space@.len() && (#[trigger] self.swap_space@[i]) is Some
                ==> self.page_ok(self.swap_space@[i]->Some_0)
    }

    /// Every page of one alive process occupies a slot somewhere.
    pub open spec fn proc_pages_resident(self, p: Process) -> bool {
        forall|idx: usize| idx < self.pages_of(p.size) ==> #[trigger] self.resident(p.pid, idx)
    }

    /// The registry is well-formed: pids are unique, every page of every
    /// alive process is resident, alive processes were born within the
    /// clock and still carry the death sentinel, and finished processes
    /// died no earlier than they were born.
    pub open spec fn registry_ok(self) -> bool {
        &&& pids_distinct(self.alive_processes@)
        &&& forall|k: int|
            0 <= k < self.alive_processes@.len() ==> self.proc_pages_resident(
                #[trigger] self.alive_processes@[k],
            )
        &&& forall|k: int|
            0 <= k < self.alive_processes@.len() ==> (#[trigger] self.alive_processes@[k]).life_start.0
                <= self.time.0
        &&& forall|k: int|
            0 <= k < self.alive_processes@.len() ==> (#[trigger] self.alive_processes@[k]).life_end.0
                == u32::MAX
        &&& forall|k: int|
            0 <= k < self.alive_processes@.len() ==> (#[trigger] self.alive_processes@[k]).size as int
                <= self.real_capacity()
        &&& forall|k: int|
            0 <= k < self.dead_processes@.len() ==> (#[trigger] self.dead_processes@[k]).life_start.0
                <= self.dead_processes@[k].life_end.0
    }

    /// The system invariant: constructors establish it and every
    /// instruction preserves it.  In particular, a given page of a given
    /// process never occupies more than one slot across both tables.
    pub open spec fn wf(self) -> bool {
        &&& self.tables_wf()
        &&& self.owners_ok()
        &&& self.registry_ok()
    }

    /// Builds a system with both tables empty, the clock at zero, and no
    /// process registered.  Table lengths are the configured byte sizes
    /// divided by the page size, rounded up.
    pub fn new(
        algorithm: PageReplacementAlgorithm,
        page_size: usize,
        real_memory_size: usize,
        swap_space_size: usize,
    ) -> (r: System)
        requires
            1 <= page_size,
            ceil_div_spec(real_memory_size as int, page_size as int) <= MAX_FRAMES,
            ceil_div_spec(swap_space_size as int, page_size as int) <= MAX_FRAMES,
            (ceil_div_spec(real_memory_size as int, page_size as int) + ceil_div_spec(
                swap_space_size as int,
                page_size as int,
            )) * page_size <= usize::MAX,
        ensures
            r.wf(),
            r.algorithm == algorithm,
            r.frame_size == page_size,
            r.time.0 == 0,
            r.alive_processes@.len() == 0,
            r.dead_processes@.len() == 0,
            r.real_memory@.len() == ceil_div_spec(real_memory_size as int, page_size as int),
            r.swap_space@.len() == ceil_div_spec(swap_space_size as int, page_size as int),
            forall|i: int| 0 <= i < r.real_memory@.len() ==> (#[trigger] r.real_memory@[i]) is None,
            forall|i: int| 0 <= i < r.swap_space@.len() ==> (#[trigger] r.swap_space@[i]) is None,
            empties(r.real_memory@) == r.real_memory@.len(),
            empties(r.swap_space@) == r.swap_space@.len(),
    {
        let num_real_frames = ceil_div(real_memory_size, page_size);
        let num_swap_frames = ceil_div(swap_space_size, page_size);
        System {
            algorithm,
            time: Time::new(),
            alive_processes: Vec::new(),
            dead_processes: Vec::new(),
            frame_size: page_size,
            real_memory: make_empty_table(num_real_frames),
            swap_space: make_empty_table(num_swap_frames),
        }
    }

    /// The number of bytes still free across the whole hierarchy: the
    /// page size times the number of empty slots of both tables combined.
    pub fn calc_free_space(&self) -> (r: usize)
        requires
            self.wf(),
        ensures
            r == self.free_bytes(),
    {
        let real_free = count_empty_frames(&self.real_memory);
        let swap_free = count_empty_frames(&self.swap_space);
        proof {
            lemma_empties_to_bound(self.real_memory@, self.real_memory@.len() as int);
            lemma_empties_to_bound(self.swap_space@, self.swap_space@.len() as int);
            assert(self.frame_size * (real_free + swap_free) <= (self.real_memory@.len()
                + self.swap_space@.len()) * self.frame_size) by (nonlinear_arith)
                requires
                    real_free + swap_free <= self.real_memory@.len() + self.swap_space@.len(),
                    self.frame_size >= 1,
            ;
        }
        self.frame_size * (real_free + swap_free)
    }
}

/// Page `idx` of process `pid` sits in some real-memory slot of `post`
/// freshly stamped: created when its load completed, `k` swaps and
/// `idx` loads after the clock value `pre_time` the allocation started
/// at, and not accessed since.
pub open spec fn fresh_page_stamped(
    post: System,
    pre_time: int,
    k: int,
    pid: PID,
    idx: usize,
) -> bool {
    exists|w: int|
        {
            let pg = (#[trigger] post.real_memory@[w])->Some_0;
            &&& slot_has(post.real_memory@, w, pid, idx)
            &&& pg.created.0 == sat_add(pre_time, SWAP_PAGE_TIME * k + LOAD_PAGE_TIME * idx)
            &&& pg.accessed == pg.created
        }
}

/// What a successful allocation did: `post` is `pre` after creating
/// process `pid` of `size` bytes, loading all its pages into real
/// memory (evicting older pages to swap space where real memory fell
/// short), charging one load per page and one swap per eviction, and
/// advancing the clock by the total.
pub open spec fn alloc_post(pre: System, post: System, pid: PID, size: usize, elapsed: Time) -> bool {
    let pages = pre.pages_of(size);
    let e = empties(pre.real_memory@);
    let k = if pages <= e {
        0int
    } else {
        pages - e
    };
    &&& post.wf()
    &&& elapsed.0 == LOAD_PAGE_TIME * pages + SWAP_PAGE_TIME * k
    &&& post.time.0 == sat_add(pre.time.0 as int, elapsed.0 as int)
    &&& post.frame_size == pre.frame_size
    &&& post.algorithm == pre.algorithm
    &&& post.dead_processes@ == pre.dead_processes@
    &&& post.real_memory@.len() == pre.real_memory@.len()
    &&& post.swap_space@.len() == pre.swap_space@.len()
    &&& owned_frames(post.real_memory@, pid) == pages
    &&& owned_frames(post.swap_space@, pid) == 0
    &&& forall|idx: usize| idx < pages ==> #[trigger] resident_in(post.real_memory@, pid, idx)
    &&& forall|idx: usize|
        idx < pages ==> #[trigger] fresh_page_stamped(
            post,
            pre.time.0 as int,
            k,
            pid,
            idx,
        )
    &&& forall|i: int, j: int|
        #![trigger post.real_memory@[i], post.real_memory@[j]]
        0 <= i < post.real_memory@.len() && 0 <= j < post.real_memory@.len()
            && post.real_memory@[i] is Some && post.real_memory@[i]->Some_0.pid == pid
            && post.real_memory@[j] is None ==> i < j
    &&& (pre.algorithm is FIFO ==> forall|v: int, j: int|
        #![trigger pre.real_memory@[v], post.real_memory@[j]]
        0 <= v < pre.real_memory@.len() && 0 <= j < pre.real_memory@.len()
            && pre.real_memory@[v] is Some && post.real_memory@[v] is Some
            && post.real_memory@[v]->Some_0.pid == pid && post.real_memory@[j] is Some
            && post.real_memory@[j]->Some_0.pid != pid ==> created_lex_before(
            pre.real_memory@,
            v,
            j,
        ))
    &&& (pre.algorithm is LRU ==> forall|v: int, j: int|
        #![trigger pre.real_memory@[v], post.real_memory@[j]]
        0 <= v < pre.real_memory@.len() && 0 <= j < pre.real_memory@.len()
            && pre.real_memory@[v] is Some && post.real_memory@[v] is Some
            && post.real_memory@[v]->Some_0.pid == pid && post.real_memory@[j] is Some
            && post.real_memory@[j]->Some_0.pid != pid ==> accessed_lex_before(
            pre.real_memory@,
            v,
            j,
        ))
    &&& empties(post.real_memory@) == (if pages <= e {
        e - pages
    } else {
        0int
    })
    &&& empties(post.swap_space@) == empties(pre.swap_space@) - k
    &&& lookup(post.alive_processes@, pid) == Some(
        Process {
            pid,
            size,
            life_start: post.time,
            life_end: Time(u32::MAX),
            page_faults: 0,
            swap_ins: 0,
            swap_outs: 0,
        },
    )
    &&& forall|q: PID|
        #![trigger lookup(post.alive_processes@, q)]
        q != pid ==> {
            &&& (lookup(post.alive_processes@, q) is Some <==> lookup(pre.alive_processes@, q)
                is Some)
            &&& (lookup(pre.alive_processes@, q) is Some ==> stats_like(
                lookup(pre.alive_processes@, q)->Some_0,
                lookup(post.alive_processes@, q)->Some_0,
            ))
            &&& (lookup(pre.alive_processes@, q) is Some ==> lookup(
                post.alive_processes@,
                q,
            )->Some_0.swap_outs as int == sat_plus(
                lookup(pre.alive_processes@, q)->Some_0.swap_outs as int,
                owned_frames(post.swap_space@, q) - owned_frames(pre.swap_space@, q),
            ))
        }
    &&& (k == 0 ==> forall|q: PID|
        #![trigger lookup(post.alive_processes@, q)]
        q != pid ==> lookup(post.alive_processes@, q) == lookup(pre.alive_processes@, q))
    &&& forall|q: PID, idx: usize|
        q != pid ==> (#[trigger] post.resident(q, idx) <==> pre.resident(q, idx))
}

/// What a successful release did: `post` is `pre` after process `pid`
/// gave back all `freed` frames it occupied across both tables, at the
/// per-frame cost, and moved from the alive registry to the finished
/// list with its death stamped at the new clock.
pub open spec fn free_post(pre: System, post: System, pid: PID, elapsed: Time, freed: int) -> bool {
    &&& post.wf()
    &&& freed == owned_frames(pre.real_memory@, pid) + owned_frames(pre.swap_space@, pid)
    &&& elapsed.0 == FREE_PAGE_TIME * freed
    &&& post.time.0 == sat_add(pre.time.0 as int, elapsed.0 as int)
    &&& post.frame_size == pre.frame_size
    &&& post.algorithm == pre.algorithm
    &&& post.real_memory@ == clear_pid(pre.real_memory@, pid)
    &&& post.swap_space@ == clear_pid(pre.swap_space@, pid)
    &&& lookup(post.alive_processes@, pid) is None
    &&& forall|q: PID|
        #![trigger lookup(post.alive_processes@, q)]
        q != pid ==> lookup(post.alive_processes@, q) == lookup(pre.alive_processes@, q)
    &&& post.alive_processes@.len() == pre.alive_processes@.len() - 1
    &&& post.dead_processes@ == pre.dead_processes@.push(
        Process { life_end: post.time, ..lookup(pre.alive_processes@, pid)->Some_0 },
    )
}

/// Empties every slot of a table owned by `pid`, and reports the freed
/// slot indices as coalesced ranges together with their count.
fn clear_table(table: &mut Vec<Option<ProcessPage>>, pid: PID) -> (r: (Vec<FrameRange>, usize))
    ensures
        final(table)@ == clear_pid(old(table)@, pid),
        final(table)@.len() == old(table)@.len(),
        r.1 == owned_frames(old(table)@, pid),
        ranges_wf(r.0@),
        ranges_flat(r.0@) == owned_indices(old(table)@, pid),
{
    let mut ranges: Vec<FrameRange> = Vec::new();
    let mut count: usize = 0;
    let mut i: usize = 0;
    while i < table.len()
        invariant
            i <= table@.len(),
            table@.len() == old(table)@.len(),
            forall|j: int|
                0 <= j < table@.len() ==> (#[trigger] table@[j]) == (if j < i && old(
                    table,
                )@[j] is Some && old(table)@[j]->Some_0.pid == pid {
                    None
                } else {
                    old(table)@[j]
                }),
            count == owned_to(old(table)@, pid, i as int),
            count <= i,
            ranges_wf(ranges@),
            ranges_flat(ranges@) == owned_indices_to(old(table)@, pid, i as int),
            ranges@.len() > 0 ==> ranges@.last().end < i,
        decreases table@.len() - i,
    {
        let owned_here: bool = match &table[i] {
            Some(p) => p.pid == pid,
            None => false,
        };
        if owned_here {
            table[i] = None;
            add_index_to_vec_of_ranges(i, &mut ranges);
            count = count + 1;
        }
        i = i + 1;
    }
    proof {
        assert(table@ =~= clear_pid(old(table)@, pid));
    }
    (ranges, count)
}

/// What the end-of-run summary holds: one report per finished process,
/// in the order they finished, each carrying the process's turnaround
/// and counters verbatim; and the mean turnaround in whole milliseconds
/// (rounded down), absent exactly when no process has finished.
pub open spec fn summary_post(pre: System, r: Summary) -> bool {
    let dead = pre.dead_processes@;
    &&& r.per_process@.len() == dead.len()
    &&& forall|k: int|
        0 <= k < dead.len() ==> (#[trigger] r.per_process@[k]) == (ProcessReport {
            pid: dead[k].pid,
            turnaround: Time((dead[k].life_end.0 - dead[k].life_start.0) as u32),
            page_faults: dead[k].page_faults,
            swap_ins: dead[k].swap_ins,
            swap_outs: dead[k].swap_outs,
        })
    &&& (dead.len() == 0 ==> r.average_turnaround is None)
    &&& (dead.len() > 0 ==> r.average_turnaround == Some(
        Time((turnaround_sum(dead) / (dead.len() as int)) as u32),
    ))
}

/// Which error, if any, an instruction is rejected with, checked in the
/// order the system checks them.  A rejected instruction changes
/// nothing.
pub open spec fn validate(pre: System, instruction: Instruction) -> Option<SystemError> {
    match instruction {
        Instruction::Process { pid, size } => if has_pid(pre.alive_processes@, pid) {
            Some(SystemError::DuplicateProcess)
        } else if size as int > pre.free_bytes() {
            Some(SystemError::InsufficientTotalMemory)
        } else if size as int > pre.real_capacity() {
            Some(SystemError::ProcessExceedsRealMemory)
        } else {
            None
        },
        Instruction::Access { address, modifies: _, pid } => if !has_pid(
            pre.alive_processes@,
            pid,
        ) {
            Some(SystemError::UnknownProcess)
        } else if address >= lookup(pre.alive_processes@, pid)->Some_0.size {
            Some(SystemError::AddressOutOfRange)
        } else {
            None
        },
        Instruction::Free { pid } => if !has_pid(pre.alive_processes@, pid) {
            Some(SystemError::UnknownProcess)
        } else {
            None
        },
        _ => None,
    }
}

/// The page of its process's address space a virtual address falls in.
pub open spec fn page_index_of(pre: System, address: usize) -> usize {
    ((address as int) / (pre.frame_size as int)) as usize
}

/// How the registry's counters read after an access that faulted:
/// the accessed process took the fault and the swap-in; the owner of the
/// evicted page, if eviction was needed, took the swap-out; nobody else
/// changed.  The evicted page, when there is one, sat in real-memory
/// slot `frame` before the access.
pub open spec fn access_registry_post(
    pre: System,
    post: System,
    pid: PID,
    frame: usize,
    evicted: bool,
) -> bool {
    let victim_owner = pre.real_memory@[frame as int]->Some_0.pid;
    &&& lookup(pre.alive_processes@, pid) is Some
    &&& forall|q: PID|
        #![trigger lookup(post.alive_processes@, q)]
        {
            if q == pid {
                &&& lookup(post.alive_processes@, q) is Some
                &&& bumped(
                    lookup(pre.alive_processes@, q)->Some_0,
                    lookup(post.alive_processes@, q)->Some_0,
                    true,
                    true,
                    evicted && victim_owner == pid,
                )
            } else if evicted && q == victim_owner {
                &&& lookup(pre.alive_processes@, q) is Some
                &&& lookup(post.alive_processes@, q) is Some
                &&& bumped(
                    lookup(pre.alive_processes@, q)->Some_0,
                    lookup(post.alive_processes@, q)->Some_0,
                    false,
                    false,
                    true,
                )
            } else {
                lookup(post.alive_processes@, q) == lookup(pre.alive_processes@, q)
            }
        }
}

/// What a successful access did: `post` is `pre` after resolving one
/// virtual address of process `pid`.  A hit in real memory costs only
/// the access itself; a page in swap space is a fault, which brings the
/// page in (evicting the policy's victim when no real slot is free,
/// at one swap of extra cost) and counts the fault and the swaps.  The
/// page ends up in real-memory slot `frame` with its access time set to
/// the new clock.
pub open spec fn access_post(
    pre: System,
    post: System,
    pid: PID,
    address: usize,
    modifies: bool,
    frame: usize,
    elapsed: Time,
) -> bool {
    let pidx = page_index_of(pre, address);
    let was_real = resident_in(pre.real_memory@, pid, pidx);
    let evicted = !was_real && empties(pre.real_memory@) == 0;
    &&& post.wf()
    &&& elapsed.0 == (if evicted {
        SWAP_PAGE_TIME as int
    } else {
        0int
    }) + (if modifies {
        MODIFY_PAGE_TIME as int
    } else {
        ACCESS_PAGE_TIME as int
    })
    &&& post.time.0 == sat_add(pre.time.0 as int, elapsed.0 as int)
    &&& post.frame_size == pre.frame_size
    &&& post.algorithm == pre.algorithm
    &&& post.dead_processes@ == pre.dead_processes@
    &&& post.real_memory@.len() == pre.real_memory@.len()
    &&& post.swap_space@.len() == pre.swap_space@.len()
    &&& (frame as int) < post.real_memory@.len()
    &&& slot_has(post.real_memory@, frame as int, pid, pidx)
    &&& post.real_memory@[frame as int]->Some_0.accessed == post.time
    &&& forall|q: PID, idx: usize| #[trigger] post.resident(q, idx) <==> pre.resident(q, idx)
    &&& (was_real ==> {
        &&& slot_has(pre.real_memory@, frame as int, pid, pidx)
        &&& post.swap_space@ == pre.swap_space@
        &&& post.real_memory@ == pre.real_memory@.update(
            frame as int,
            Some(
                ProcessPage { accessed: post.time, ..pre.real_memory@[frame as int]->Some_0 },
            ),
        )
        &&& post.alive_processes@ == pre.alive_processes@
    })
    &&& (!was_real ==> exists|si: int|
        #![trigger pre.swap_space@[si]]
        {
            &&& slot_has(pre.swap_space@, si, pid, pidx)
            &&& post.real_memory@ == pre.real_memory@.update(
                frame as int,
                Some(ProcessPage { accessed: post.time, ..pre.swap_space@[si]->Some_0 }),
            )
            &&& post.swap_space@ == pre.swap_space@.update(si, pre.real_memory@[frame as int])
            &&& (!evicted ==> {
                &&& pre.real_memory@[frame as int] is None
                &&& forall|j: int| 0 <= j < frame ==> (#[trigger] pre.real_memory@[j]) is Some
            })
            &&& (evicted ==> {
                &&& pre.real_memory@[frame as int] is Some
                &&& (pre.algorithm is FIFO ==> fifo_min(pre.real_memory@, frame as int))
                &&& (pre.algorithm is LRU ==> lru_min(pre.real_memory@, frame as int))
            })
        })
    &&& (!was_real ==> access_registry_post(pre, post, pid, frame, evicted))
}

impl System {
    /// Creates process `pid` of `total_size` bytes and loads all its
    /// pages, evicting older pages to swap space where real memory falls
    /// short, and returns the time that took.  The caller has already
    /// validated the request: the pid is fresh and the process fits both
    /// in the free space of the hierarchy and in real memory as a whole.
    pub fn process(&mut self, pid: PID, total_size: usize) -> (r: Time)
        requires
            old(self).wf(),
            !has_pid(old(self).alive_processes@, pid),
            total_size as int <= old(self).free_bytes(),
            total_size as int <= old(self).real_capacity(),
        ensures
            alloc_post(*old(self), *final(self), pid, total_size, r),
    {
        let ghost pre = *old(self);
        proof {
            assert(pre.real_capacity() == pre.real_memory@.len() * pre.frame_size);
            assert(pre.real_memory@.len() * pre.frame_size == (pre.real_memory@.len() as int)
                * (pre.frame_size as int)) by (nonlinear_arith);
            lemma_ceil_div_le(
                total_size as int,
                pre.frame_size as int,
                pre.real_memory@.len() as int,
            );
            assert(pre.free_bytes() == (pre.free_frames()) * (pre.frame_size as int))
                by (nonlinear_arith);
            lemma_empties_to_bound(pre.real_memory@, pre.real_memory@.len() as int);
            lemma_empties_to_bound(pre.swap_space@, pre.swap_space@.len() as int);
            lemma_ceil_div_le(total_size as int, pre.frame_size as int, pre.free_frames());
            // the fresh pid owns nothing yet
            assert forall|i: int|
                0 <= i < pre.real_memory@.len() implies !((#[trigger] pre.real_memory@[i]) is Some
                && pre.real_memory@[i]->Some_0.pid == pid) by {
                if pre.real_memory@[i] is Some && pre.real_memory@[i]->Some_0.pid == pid {
                    assert(pre.page_ok(pre.real_memory@[i]->Some_0));
                }
            }
            assert forall|i: int|
                0 <= i < pre.swap_space@.len() implies !((#[trigger] pre.swap_space@[i]) is Some
                && pre.swap_space@[i]->Some_0.pid == pid) by {
                if pre.swap_space@[i] is Some && pre.swap_space@[i]->Some_0.pid == pid {
                    assert(pre.page_ok(pre.swap_space@[i]->Some_0));
                }
            }
            lemma_owned_to_zero_iff(pre.real_memory@, pid, pre.real_memory@.len() as int);
            lemma_owned_to_zero_iff(pre.swap_space@, pid, pre.swap_space@.len() as int);
        }
        let pages_needed = ceil_div(total_size, self.frame_size);
        let (frames, swap_time) = self.allocate_n_frames(pages_needed);
        let ghost mid = *self;
        proof {
            // the fresh pid still owns nothing after the eviction pass
            assert forall|i: int|
                0 <= i < mid.real_memory@.len() implies !((#[trigger] mid.real_memory@[i]) is Some
                && mid.real_memory@[i]->Some_0.pid == pid) by {
                if mid.real_memory@[i] is Some && mid.real_memory@[i]->Some_0.pid == pid {
                    let idx = mid.real_memory@[i]->Some_0.index;
                    assert(slot_has(mid.real_memory@, i, pid, idx));
                    assert(mid.resident(pid, idx));
                    assert(pre.resident(pid, idx));
                    let w = choose|w: int|
                        slot_has(pre.real_memory@, w, pid, idx) || slot_has(
                            pre.swap_space@,
                            w,
                            pid,
                            idx,
                        );
                    assert(false);
                }
            }
            assert forall|i: int|
                0 <= i < mid.swap_space@.len() implies !((#[trigger] mid.swap_space@[i]) is Some
                && mid.swap_space@[i]->Some_0.pid == pid) by {
                if mid.swap_space@[i] is Some && mid.swap_space@[i]->Some_0.pid == pid {
                    let idx = mid.swap_space@[i]->Some_0.index;
                    assert(slot_has(mid.swap_space@, i, pid, idx));
                    assert(mid.resident(pid, idx));
                    assert(pre.resident(pid, idx));
                    let w = choose|w: int|
                        slot_has(pre.real_memory@, w, pid, idx) || slot_has(
                            pre.swap_space@,
                            w,
                            pid,
                            idx,
                        );
                    assert(false);
                }
            }
            lemma_owned_to_zero_iff(mid.real_memory@, pid, mid.real_memory@.len() as int);
            lemma_owned_to_zero_iff(mid.swap_space@, pid, mid.swap_space@.len() as int);
        }
        let ghost e = empties(pre.real_memory@);
        let ghost kk: int = if pages_needed as int <= e {
            0int
        } else {
            pages_needed - e
        };
        let mut time_offset = swap_time;
        let mut p: usize = 0;
        while p < pages_needed
            invariant
                p <= pages_needed,
                pre.wf(),
                mid.wf(),
                pages_needed as int == pre.pages_of(total_size),
                pages_needed <= mid.real_memory@.len() <= MAX_FRAMES,
                frames@.len() == pages_needed,
                forall|a: int, b: int| 0 <= a < b < pages_needed ==> frames@[a] < frames@[b],
                forall|a: int|
                    0 <= a < pages_needed ==> (#[trigger] frames@[a] as int)
                        < mid.real_memory@.len() && mid.real_memory@[frames@[a] as int] is None,
                self.frame_size == mid.frame_size,
                self.algorithm == mid.algorithm,
                self.time == mid.time,
                self.alive_processes == mid.alive_processes,
                self.dead_processes == mid.dead_processes,
                self.swap_space == mid.swap_space,
                self.real_memory@.len() == mid.real_memory@.len(),
                forall|u: int|
                    0 <= u < p ==> slot_has(
                        self.real_memory@,
                        #[trigger] frames@[u] as int,
                        pid,
                        u as usize,
                    ),
                forall|u: int|
                    #![trigger frames@[u]]
                    0 <= u < p ==> {
                        let pg = self.real_memory@[frames@[u] as int]->Some_0;
                        &&& pg.created.0 == sat_add(
                            mid.time.0 as int,
                            SWAP_PAGE_TIME * kk + LOAD_PAGE_TIME * u,
                        )
                        &&& pg.accessed == pg.created
                    },
                forall|i: int|
                    0 <= i < self.real_memory@.len() && !among_first(frames@, p as int, i)
                        ==> (#[trigger] self.real_memory@[i]) == mid.real_memory@[i],
                empties(self.real_memory@) == empties(mid.real_memory@) - p,
                owned_frames(self.real_memory@, pid) == p,
                distinct_within(self.real_memory@),
                distinct_across(self.real_memory@, self.swap_space@),
                forall|i: int|
                    0 <= i < self.real_memory@.len() && (#[trigger] self.real_memory@[i]) is Some
                        ==> ((self.real_memory@[i]->Some_0.pid == pid
                        && (self.real_memory@[i]->Some_0.index as int) < pages_needed)
                        || mid.page_ok(self.real_memory@[i]->Some_0)),
                forall|i: int|
                    0 <= i < mid.real_memory@.len() ==> !((#[trigger] mid.real_memory@[i]) is Some
                        && mid.real_memory@[i]->Some_0.pid == pid),
                forall|i: int|
                    0 <= i < mid.swap_space@.len() ==> !((#[trigger] mid.swap_space@[i]) is Some
                        && mid.swap_space@[i]->Some_0.pid == pid),
                time_offset.0 == SWAP_PAGE_TIME * kk + LOAD_PAGE_TIME * p,
                kk == (if pages_needed as int <= e {
                    0int
                } else {
                    pages_needed - e
                }),
                0 <= kk <= pages_needed,
                swap_time.0 == SWAP_PAGE_TIME * kk,
                forall|q: PID, idx: usize|
                    q != pid ==> (#[trigger] self.resident(q, idx) <==> mid.resident(q, idx)),
            decreases pages_needed - p,
        {
            let slot = frames[p];
            proof {
                assert(!among_first(frames@, p as int, slot as int)) by {
                    if among_first(frames@, p as int, slot as int) {
                        let u = choose|u: int|
                            0 <= u < p && (#[trigger] frames@[u]) as int == slot as int;
                        assert(frames@[u] < frames@[p as int]);
                    }
                }
                assert(self.real_memory@[slot as int] == mid.real_memory@[slot as int]);
            }
            let created = self.time.add(time_offset);
            let page = ProcessPage::new(pid, p, created);
            let ghost before = *self;
            self.real_memory[slot] = Some(page);
            proof {
                lemma_empties_update(before.real_memory@, slot as int, Some(page));
                lemma_owned_update(before.real_memory@, pid, slot as int, Some(page));
                assert(slot_has(self.real_memory@, frames@[p as int] as int, pid, p));
                assert forall|i: int|
                    0 <= i < self.real_memory@.len() && !among_first(frames@, p + 1, i)
                        implies (#[trigger] self.real_memory@[i]) == mid.real_memory@[i] by {
                    assert(i != slot as int) by {
                        if i == slot as int {
                            assert((#[trigger] frames@[p as int]) as int == i);
                            assert(among_first(frames@, p + 1, i));
                        }
                    }
                    assert(!among_first(frames@, p as int, i)) by {
                        if among_first(frames@, p as int, i) {
                            let u = choose|u: int|
                                0 <= u < p && (#[trigger] frames@[u]) as int == i;
                            assert(0 <= u < p + 1 && frames@[u] as int == i);
                        }
                    }
                }
                assert forall|u: int|
                    0 <= u < p + 1 implies slot_has(
                    self.real_memory@,
                    #[trigger] frames@[u] as int,
                    pid,
                    u as usize,
                ) by {
                    if u < p {
                        assert(frames@[u] < frames@[p as int]);
                        assert(slot_has(before.real_memory@, frames@[u] as int, pid, u as usize));
                    }
                }
                assert(page.created.0 == sat_add(
                    mid.time.0 as int,
                    SWAP_PAGE_TIME * kk + LOAD_PAGE_TIME * p,
                ));
                assert forall|u: int| #![trigger frames@[u]] 0 <= u < p + 1 implies {
                    let pg = self.real_memory@[frames@[u] as int]->Some_0;
                    &&& pg.created.0 == sat_add(
                        mid.time.0 as int,
                        SWAP_PAGE_TIME * kk + LOAD_PAGE_TIME * u,
                    )
                    &&& pg.accessed == pg.created
                } by {
                    if u < p {
                        assert(frames@[u] < frames@[p as int]);
                        assert(self.real_memory@[frames@[u] as int] == before.real_memory@[frames@[u] as int]);
                    }
                }
                assert(distinct_within(self.real_memory@)) by {
                    assert forall|i: int, j: int|
                        0 <= i < j < self.real_memory@.len() && (#[trigger] self.real_memory@[i])
                            is Some && (#[trigger] self.real_memory@[j]) is Some implies (
                        self.real_memory@[i]->Some_0.pid,
                        self.real_memory@[i]->Some_0.index,
                    ) != (self.real_memory@[j]->Some_0.pid, self.real_memory@[j]->Some_0.index) by {
                        if i != slot as int && j != slot as int {
                            assert(before.real_memory@[i] == self.real_memory@[i]);
                            assert(before.real_memory@[j] == self.real_memory@[j]);
                        } else {
                            let other = if i == slot as int {
                                j
                            } else {
                                i
                            };
                            assert(self.real_memory@[other] is Some);
                            if self.real_memory@[other]->Some_0.pid == pid {
                                // another freshly placed page: a different page index
                                assert(before.real_memory@[other] == self.real_memory@[other]);
                                let u = choose|u: int|
                                    0 <= u < p && slot_has(
                                        before.real_memory@,
                                        #[trigger] frames@[u] as int,
                                        pid,
                                        u as usize,
                                    ) && frames@[u] as int == other;
                                assert(self.real_memory@[other]->Some_0.index as int == u);
                                assert(u < p);
                            }
                        }
                    }
                }
                assert(distinct_across(self.real_memory@, self.swap_space@)) by {
                    assert forall|i: int, j: int|
                        0 <= i < self.real_memory@.len() && 0 <= j < self.swap_space@.len() && (
                        #[trigger] self.real_memory@[i]) is Some && (#[trigger] self.swap_space@[j])
                            is Some implies (self.real_memory@[i]->Some_0.pid,
                    self.real_memory@[i]->Some_0.index) != (self.swap_space@[j]->Some_0.pid,
                    self.swap_space@[j]->Some_0.index) by {
                        if i == slot as int {
                            assert(self.swap_space@[j]->Some_0.pid != pid);
                        } else {
                            assert(before.real_memory@[i] == self.real_memory@[i]);
                        }
                    }
                }
                assert forall|q: PID, idx: usize|
                    q != pid implies (#[trigger] self.resident(q, idx) <==> mid.resident(
                    q,
                    idx,
                )) by {
                    assert(before.resident(q, idx) <==> mid.resident(q, idx));
                    assert(self.swap_space@ == before.swap_space@);
                    if resident_in(self.real_memory@, q, idx) {
                        let w = choose|w: int| slot_has(self.real_memory@, w, q, idx);
                        assert(w != slot as int);
                        assert(slot_has(before.real_memory@, w, q, idx));
                    }
                    if resident_in(before.real_memory@, q, idx) {
                        let w = choose|w: int| slot_has(before.real_memory@, w, q, idx);
                        assert(w != slot as int);
                        assert(slot_has(self.real_memory@, w, q, idx));
                    }
                }
                assert(time_offset.0 + LOAD_PAGE_TIME == SWAP_PAGE_TIME * kk + LOAD_PAGE_TIME * (p
                    + 1)) by (nonlinear_arith)
                    requires
                        time_offset.0 == SWAP_PAGE_TIME * kk + LOAD_PAGE_TIME * p,
                ;
                assert(SWAP_PAGE_TIME * kk + LOAD_PAGE_TIME * (p + 1) <= 2000000000)
                    by (nonlinear_arith)
                    requires
                        0 <= kk <= MAX_FRAMES && 0 <= p + 1 <= MAX_FRAMES,
                ;
            }
            time_offset = time_offset.add(Time::from_miliseconds(LOAD_PAGE_TIME));
            p = p + 1;
        }
        let mut new_process = Process::new(pid, total_size);
        let birth = self.time.add(time_offset);
        new_process.set_birth(birth);
        let ghost placed = *self;
        self.alive_processes.push(new_process);
        self.time = birth;
        proof {
            let post = *self;
            assert(post.alive_processes@ == mid.alive_processes@.push(new_process));
            // the fresh pid was absent from the registry after allocation
            assert(!has_pid(mid.alive_processes@, pid)) by {
                lemma_lookup_positional(pre.alive_processes@, mid.alive_processes@, pid);
            }
            lemma_pids_distinct_push(mid.alive_processes@, new_process);
            assert forall|q: PID|
                #![trigger lookup(post.alive_processes@, q)]
                lookup(post.alive_processes@, q) == (if q == pid {
                    Some(new_process)
                } else {
                    lookup(mid.alive_processes@, q)
                }) by {
                lemma_lookup_push(mid.alive_processes@, new_process, q);
                if q != pid && !has_pid(mid.alive_processes@, q) {
                    assert(lookup(mid.alive_processes@, q) is None);
                }
            }
            // the invariant holds of the final state
            assert(post.owners_ok()) by {
                assert forall|i: int|
                    0 <= i < post.real_memory@.len() && (#[trigger] post.real_memory@[i]) is Some
                        implies post.page_ok(post.real_memory@[i]->Some_0) by {
                    let pg = post.real_memory@[i]->Some_0;
                    if pg.pid == pid {
                        assert(lookup(post.alive_processes@, pid) == Some(new_process));
                    } else {
                        assert(mid.page_ok(pg));
                        assert(lookup(mid.alive_processes@, pg.pid) is Some);
                    }
                }
                assert forall|i: int|
                    0 <= i < post.swap_space@.len() && (#[trigger] post.swap_space@[i]) is Some
                        implies post.page_ok(post.swap_space@[i]->Some_0) by {
                    let pg = post.swap_space@[i]->Some_0;
                    assert(post.swap_space@[i] == mid.swap_space@[i]);
                    assert(pg.pid != pid);
                    assert(mid.page_ok(pg));
                }
            }
            assert forall|k: int|
                0 <= k < post.alive_processes@.len() implies post.proc_pages_resident(
                #[trigger] post.alive_processes@[k],
            ) by {
                if k < mid.alive_processes@.len() {
                    let q = post.alive_processes@[k].pid;
                    assert(post.alive_processes@[k] == mid.alive_processes@[k]);
                    assert(mid.proc_pages_resident(mid.alive_processes@[k]));
                    assert(q != pid) by {
                        if q == pid {
                            crate::system::model::lemma_lookup_at(mid.alive_processes@, k);
                        }
                    }
                    assert forall|idx: usize|
                        idx < post.pages_of(post.alive_processes@[k].size)
                            implies #[trigger] post.resident(q, idx) by {
                        assert(mid.resident(q, idx));
                        assert(placed.resident(q, idx));
                    }
                } else {
                    assert(post.alive_processes@[k] == new_process);
                    assert forall|idx: usize|
                        idx < post.pages_of(new_process.size) implies #[trigger] post.resident(
                        pid,
                        idx,
                    ) by {
                        assert(slot_has(
                            placed.real_memory@,
                            frames@[idx as int] as int,
                            pid,
                            idx,
                        ));
                    }
                }
            }
            // the remaining alloc_post clauses
            assert forall|idx: usize|
                idx < pre.pages_of(total_size) implies #[trigger] resident_in(
                post.real_memory@,
                pid,
                idx,
            ) by {
                assert(slot_has(placed.real_memory@, frames@[idx as int] as int, pid, idx));
            }
            let ghost k_alloc: int = if pre.pages_of(total_size) <= e {
                0int
            } else {
                pre.pages_of(total_size) - e
            };
            assert forall|idx: usize|
                idx < pre.pages_of(total_size) implies #[trigger] fresh_page_stamped(
                post,
                pre.time.0 as int,
                k_alloc,
                pid,
                idx,
            ) by {
                let w = frames@[idx as int] as int;
                assert(slot_has(placed.real_memory@, w, pid, idx));
                assert(k_alloc == kk);
                assert(post.real_memory@[w] == placed.real_memory@[w]);
                assert(slot_has(post.real_memory@, w, pid, idx));
                assert(post.real_memory@[w]->Some_0.created.0 == sat_add(
                    pre.time.0 as int,
                    SWAP_PAGE_TIME * k_alloc + LOAD_PAGE_TIME * idx,
                ));
                assert(post.real_memory@[w]->Some_0.accessed == post.real_memory@[w]->Some_0.created);
            }
            // the new pages took the first empty slots, so every slot
            // still empty lies above all of them
            assert forall|i: int, j: int|
                #![trigger post.real_memory@[i], post.real_memory@[j]]
                0 <= i < post.real_memory@.len() && 0 <= j < post.real_memory@.len()
                    && post.real_memory@[i] is Some && post.real_memory@[i]->Some_0.pid == pid
                    && post.real_memory@[j] is None implies i < j by {
                assert(among_first(frames@, pages_needed as int, i)) by {
                    if !among_first(frames@, pages_needed as int, i) {
                        assert(post.real_memory@[i] == mid.real_memory@[i]);
                    }
                }
                let a = choose|a: int|
                    0 <= a < pages_needed && (#[trigger] frames@[a]) as int == i;
                assert(!among_first(frames@, pages_needed as int, j)) by {
                    if among_first(frames@, pages_needed as int, j) {
                        let u = choose|u: int|
                            0 <= u < pages_needed && (#[trigger] frames@[u]) as int == j;
                        assert(slot_has(placed.real_memory@, frames@[u] as int, pid, u as usize));
                    }
                }
                assert(post.real_memory@[j] == mid.real_memory@[j]);
                if j < i {
                    assert(mid.real_memory@[j] is None);
                    assert(frames@.contains(j as usize));
                    let w2 = choose|w2: int|
                        0 <= w2 < frames@.len() && (#[trigger] frames@[w2]) == j as usize;
                    assert(among_first(frames@, pages_needed as int, j));
                }
            }
            // the slots the new pages displaced were the policy's victims,
            // so they come before every kept page in key order
            assert forall|v: int, j: int|
                #![trigger pre.real_memory@[v], post.real_memory@[j]]
                0 <= v < pre.real_memory@.len() && 0 <= j < pre.real_memory@.len()
                    && pre.real_memory@[v] is Some && post.real_memory@[v] is Some
                    && post.real_memory@[v]->Some_0.pid == pid && post.real_memory@[j] is Some
                    && post.real_memory@[j]->Some_0.pid != pid implies (pre.algorithm is FIFO
                    ==> created_lex_before(pre.real_memory@, v, j)) && (pre.algorithm is LRU
                    ==> accessed_lex_before(pre.real_memory@, v, j)) by {
                assert(among_first(frames@, pages_needed as int, v)) by {
                    if !among_first(frames@, pages_needed as int, v) {
                        assert(post.real_memory@[v] == mid.real_memory@[v]);
                    }
                }
                assert(mid.real_memory@[v] is None) by {
                    let a = choose|a: int|
                        0 <= a < pages_needed && (#[trigger] frames@[a]) as int == v;
                }
                assert(!among_first(frames@, pages_needed as int, j)) by {
                    if among_first(frames@, pages_needed as int, j) {
                        let u = choose|u: int|
                            0 <= u < pages_needed && (#[trigger] frames@[u]) as int == j;
                        assert(slot_has(placed.real_memory@, frames@[u] as int, pid, u as usize));
                    }
                }
                assert(post.real_memory@[j] == mid.real_memory@[j]);
                assert(mid.real_memory@[j] is Some);
            }
            assert forall|q: PID|
                #![trigger lookup(post.alive_processes@, q)]
                q != pid implies {
                &&& (lookup(post.alive_processes@, q) is Some <==> lookup(pre.alive_processes@, q)
                    is Some)
                &&& (lookup(pre.alive_processes@, q) is Some ==> stats_like(
                    lookup(pre.alive_processes@, q)->Some_0,
                    lookup(post.alive_processes@, q)->Some_0,
                ))
                &&& (lookup(pre.alive_processes@, q) is Some ==> lookup(
                    post.alive_processes@,
                    q,
                )->Some_0.swap_outs as int == sat_plus(
                    lookup(pre.alive_processes@, q)->Some_0.swap_outs as int,
                    owned_frames(post.swap_space@, q) - owned_frames(pre.swap_space@, q),
                ))
            } by {
                lemma_lookup_positional(pre.alive_processes@, mid.alive_processes@, q);
                if lookup(pre.alive_processes@, q) is Some {
                    let k = choose|k: int|
                        0 <= k < pre.alive_processes@.len() && lookup(pre.alive_processes@, q)
                            == Some(#[trigger] pre.alive_processes@[k]) && lookup(
                            mid.alive_processes@,
                            q,
                        ) == Some(mid.alive_processes@[k]);
                    assert(stats_like(pre.alive_processes@[k], mid.alive_processes@[k]));
                    lemma_lookup_props(pre.alive_processes@, q);
                    assert(pre.alive_processes@[k].pid == q);
                    assert(mid.alive_processes@[k].swap_outs as int == sat_plus(
                        pre.alive_processes@[k].swap_outs as int,
                        owned_frames(mid.swap_space@, q) - owned_frames(pre.swap_space@, q),
                    ));
                    assert(post.swap_space@ == mid.swap_space@);
                }
            }
            if kk == 0 {
                assert(pages_needed as int <= e);
                assert(mid.alive_processes@ == pre.alive_processes@);
                assert forall|q: PID|
                    #![trigger lookup(post.alive_processes@, q)]
                    q != pid implies lookup(post.alive_processes@, q) == lookup(
                    pre.alive_processes@,
                    q,
                ) by {}
            }
            assert forall|q: PID, idx: usize|
                q != pid implies (#[trigger] post.resident(q, idx) <==> pre.resident(q, idx)) by {
                assert(placed.resident(q, idx) <==> mid.resident(q, idx));
                assert(mid.resident(q, idx) <==> pre.resident(q, idx));
            }
        }
        time_offset
    }

    /// Resolves one virtual address of process `pid`, bringing the page
    /// in from swap space first if it faulted, and returns the elapsed
    /// time together with the real-memory slot the page now occupies.
    /// The caller has already validated the request: the process is
    /// alive and the address falls inside its size.
    pub fn access(&mut self, pid: PID, process_address: usize, modifies: bool) -> (r: (Time, usize))
        requires
            old(self).wf(),
            has_pid(old(self).alive_processes@, pid),
            process_address < lookup(old(self).alive_processes@, pid)->Some_0.size,
        ensures
            access_post(*old(self), *final(self), pid, process_address, modifies, r.1, r.0),
    {
        let ghost pre = *old(self);
        let process_page_index = process_address / self.frame_size;
        proof {
            lemma_lookup_props(pre.alive_processes@, pid);
            let i = choose|i: int|
                0 <= i < pre.alive_processes@.len() && (#[trigger] pre.alive_processes@[i]).pid
                    == pid && lookup(pre.alive_processes@, pid) == Some(pre.alive_processes@[i]);
            assert(pre.proc_pages_resident(pre.alive_processes@[i]));
            lemma_page_index_bound(
                process_address as int,
                pre.alive_processes@[i].size as int,
                pre.frame_size as int,
            );
            assert(pre.resident(pid, process_page_index));
        }
        let located = self.find_page(pid, process_page_index);
        match located {
            Frame(Memory::Real, index) => {
                let cost = if modifies {
                    Time::from_miliseconds(MODIFY_PAGE_TIME)
                } else {
                    Time::from_miliseconds(ACCESS_PAGE_TIME)
                };
                let new_time = self.time.add(cost);
                self.stamp_accessed(index, new_time);
                self.advance_clock(cost);
                (cost, index)
            },
            Frame(Memory::Swap, sindex) => {
                proof {
                    assert(!resident_in(pre.real_memory@, pid, process_page_index));
                    assert(slot_has(pre.swap_space@, sindex as int, pid, process_page_index));
                    lemma_empties_to_bound(pre.real_memory@, pre.real_memory@.len() as int);
                    // the process is alive and nonempty, so real memory
                    // has at least one frame
                    lemma_lookup_props(pre.alive_processes@, pid);
                    let k0 = choose|i: int|
                        0 <= i < pre.alive_processes@.len() && (#[trigger] pre.alive_processes@[i]).pid
                            == pid && lookup(pre.alive_processes@, pid) == Some(
                            pre.alive_processes@[i],
                        );
                    assert(pre.alive_processes@[k0].size as int <= pre.real_capacity());
                    assert(pre.real_memory@.len() >= 1) by (nonlinear_arith)
                        requires
                            pre.real_memory@.len() * pre.frame_size >= 1,
                    ;
                }
                // count the fault and the swap-in against the process
                let m: usize = match self.find_alive_index(pid) {
                    Some(m) => m,
                    None => unreached(),
                };
                let mut entry: Process = self.alive_processes[m];
                entry.add_page_fault();
                entry.add_swap_in();
                self.alive_processes[m] = entry;
                proof {
                    lemma_wf_after_counter_update(pre, *self, m as int, entry);
                    lemma_lookup_at(pre.alive_processes@, m as int);
                }
                let ghost s1 = *self;
                // find the real-memory slot the page will go to
                let (rj, evict_cost) = self.get_frame_index_to_swap_into();
                let ghost s2 = *self;
                // move the page in (and the victim out, when there is one)
                self.exchange_slots(rj, sindex);
                let ghost s3 = *self;
                let cost = if modifies {
                    Time::from_miliseconds(MODIFY_PAGE_TIME)
                } else {
                    Time::from_miliseconds(ACCESS_PAGE_TIME)
                };
                let elapsed = evict_cost.add(cost);
                let new_time = self.time.add(elapsed);
                proof {
                    assert(s3.real_memory@[rj as int] == pre.swap_space@[sindex as int]);
                    assert(s3.real_memory@[rj as int] is Some);
                }
                self.stamp_accessed(rj, new_time);
                let ghost s4 = *self;
                self.advance_clock(elapsed);
                proof {
                    let post = *self;
                    let ghost evicted = empties(pre.real_memory@) == 0;
                    assert(empties(s1.real_memory@) == empties(pre.real_memory@));
                    // the final tables, composed across the steps
                    assert(post.real_memory@ =~= pre.real_memory@.update(
                        rj as int,
                        Some(
                            ProcessPage {
                                accessed: new_time,
                                ..pre.swap_space@[sindex as int]->Some_0
                            },
                        ),
                    ));
                    assert(post.swap_space@ =~= pre.swap_space@.update(
                        sindex as int,
                        pre.real_memory@[rj as int],
                    ));
                    assert(slot_has(post.real_memory@, rj as int, pid, process_page_index));
                    // residency is preserved end to end
                    assert forall|q: PID, idx: usize| #[trigger]
                        post.resident(q, idx) <==> pre.resident(q, idx) by {
                        assert(post.resident(q, idx) <==> s3.resident(q, idx));
                        assert(s3.resident(q, idx) <==> s2.resident(q, idx));
                        assert(s2.resident(q, idx) <==> pre.resident(q, idx));
                    }
                    // the registry, composed across the bumps
                    if evicted {
                        let victim_owner = pre.real_memory@[rj as int]->Some_0.pid;
                        let m2 = choose|m2: int|
                            #![trigger s1.alive_processes@[m2]]
                            {
                                let reg = s1.alive_processes@;
                                &&& 0 <= m2 < reg.len()
                                &&& reg[m2].pid == s1.real_memory@[rj as int]->Some_0.pid
                                &&& s2.alive_processes@ == reg.update(
                                    m2,
                                    Process {
                                        swap_outs: sat_inc(reg[m2].swap_outs as int) as u16,
                                        ..reg[m2]
                                    },
                                )
                            };
                        let bumped_out = Process {
                            swap_outs: sat_inc(s1.alive_processes@[m2].swap_outs as int) as u16,
                            ..s1.alive_processes@[m2]
                        };
                        lemma_lookup_at(s1.alive_processes@, m2);
                        assert forall|q: PID|
                            #![trigger lookup(s2.alive_processes@, q)]
                            lookup(s2.alive_processes@, q) == (if q == victim_owner {
                                Some(bumped_out)
                            } else {
                                lookup(s1.alive_processes@, q)
                            }) by {
                            lemma_lookup_update(s1.alive_processes@, m2, bumped_out, q);
                        }
                        assert(access_registry_post(pre, post, pid, rj, true)) by {
                            assert forall|q: PID|
                                #![trigger lookup(post.alive_processes@, q)]
                                {
                                    if q == pid {
                                        &&& lookup(post.alive_processes@, q) is Some
                                        &&& bumped(
                                            lookup(pre.alive_processes@, q)->Some_0,
                                            lookup(post.alive_processes@, q)->Some_0,
                                            true,
                                            true,
                                            victim_owner == pid,
                                        )
                                    } else if q == victim_owner {
                                        &&& lookup(pre.alive_processes@, q) is Some
                                        &&& lookup(post.alive_processes@, q) is Some
                                        &&& bumped(
                                            lookup(pre.alive_processes@, q)->Some_0,
                                            lookup(post.alive_processes@, q)->Some_0,
                                            false,
                                            false,
                                            true,
                                        )
                                    } else {
                                        lookup(post.alive_processes@, q) == lookup(
                                            pre.alive_processes@,
                                            q,
                                        )
                                    }
                                } by {
                                assert(lookup(post.alive_processes@, q) == lookup(
                                    s2.alive_processes@,
                                    q,
                                ));
                                assert(lookup(s1.alive_processes@, q) == (if q == pid {
                                    Some(entry)
                                } else {
                                    lookup(pre.alive_processes@, q)
                                }));
                            }
                        }
                    } else {
                        assert(s2.alive_processes@ == s1.alive_processes@);
                        assert(access_registry_post(pre, post, pid, rj, false)) by {
                            assert forall|q: PID|
                                #![trigger lookup(post.alive_processes@, q)]
                                lookup(post.alive_processes@, q) == (if q == pid {
                                    Some(entry)
                                } else {
                                    lookup(pre.alive_processes@, q)
                                }) by {}
                        }
                    }
                }
                (elapsed, rj)
            },
        }
    }

    /// Releases every frame process `pid` occupies in both tables, at
    /// the per-frame cost, and moves the process from the alive registry
    /// to the finished list with its death time set to the new clock.
    /// Besides the elapsed time, the freed slot indices of each table
    /// come back as coalesced ranges, with the total count of freed
    /// frames.  The caller has already validated that the process is
    /// alive.
    pub fn free(&mut self, pid: PID) -> (r: (Time, Vec<FrameRange>, Vec<FrameRange>, usize))
        requires
            old(self).wf(),
            has_pid(old(self).alive_processes@, pid),
        ensures
            free_post(*old(self), *final(self), pid, r.0, r.3 as int),
            ranges_wf(r.1@),
            ranges_flat(r.1@) == owned_indices(old(self).real_memory@, pid),
            ranges_wf(r.2@),
            ranges_flat(r.2@) == owned_indices(old(self).swap_space@, pid),
    {
        let ghost pre = *old(self);
        let m: usize = match self.find_alive_index(pid) {
            Some(m) => m,
            None => unreached(),
        };
        let mut now_dead: Process = self.alive_processes.remove(m);
        proof {
            lemma_lookup_at(pre.alive_processes@, m as int);
            lemma_pids_distinct_remove(pre.alive_processes@, m as int);
            assert forall|q: PID|
                #![trigger lookup(self.alive_processes@, q)]
                lookup(self.alive_processes@, q) == (if q == pid {
                    None::<Process>
                } else {
                    lookup(pre.alive_processes@, q)
                }) by {
                lemma_lookup_remove(pre.alive_processes@, m as int, q);
            }
            pre.alive_processes@.remove_ensures(m as int);
        }
        let (real_ranges, real_count) = clear_table(&mut self.real_memory, pid);
        let (swap_ranges, swap_count) = clear_table(&mut self.swap_space, pid);
        proof {
            lemma_owned_to_bound(pre.real_memory@, pid, pre.real_memory@.len() as int);
            lemma_owned_to_bound(pre.swap_space@, pid, pre.swap_space@.len() as int);
        }
        let total = real_count + swap_count;
        let elapsed = Time::from_miliseconds((total as u32) * FREE_PAGE_TIME);
        let new_time = self.time.add(elapsed);
        now_dead.set_death(new_time);
        self.dead_processes.push(now_dead);
        self.time = new_time;
        proof {
            let post = *self;
            let reg = pre.alive_processes@.remove(m as int);
            // the cleared tables keep only pages of other processes
            assert forall|q: PID, idx: usize|
                q != pid implies (#[trigger] post.resident(q, idx) <==> pre.resident(q, idx)) by {
                if resident_in(pre.real_memory@, q, idx) {
                    let w = choose|w: int| slot_has(pre.real_memory@, w, q, idx);
                    assert(slot_has(post.real_memory@, w, q, idx));
                }
                if resident_in(pre.swap_space@, q, idx) {
                    let w = choose|w: int| slot_has(pre.swap_space@, w, q, idx);
                    assert(slot_has(post.swap_space@, w, q, idx));
                }
                if resident_in(post.real_memory@, q, idx) {
                    let w = choose|w: int| slot_has(post.real_memory@, w, q, idx);
                    assert(slot_has(pre.real_memory@, w, q, idx));
                }
                if resident_in(post.swap_space@, q, idx) {
                    let w = choose|w: int| slot_has(post.swap_space@, w, q, idx);
                    assert(slot_has(pre.swap_space@, w, q, idx));
                }
            }
            assert(post.owners_ok()) by {
                assert forall|i: int|
                    0 <= i < post.real_memory@.len() && (#[trigger] post.real_memory@[i]) is Some
                        implies post.page_ok(post.real_memory@[i]->Some_0) by {
                    assert(post.real_memory@[i] == pre.real_memory@[i]);
                    assert(pre.page_ok(pre.real_memory@[i]->Some_0));
                    assert(pre.real_memory@[i]->Some_0.pid != pid);
                }
                assert forall|i: int|
                    0 <= i < post.swap_space@.len() && (#[trigger] post.swap_space@[i]) is Some
                        implies post.page_ok(post.swap_space@[i]->Some_0) by {
                    assert(post.swap_space@[i] == pre.swap_space@[i]);
                    assert(pre.page_ok(pre.swap_space@[i]->Some_0));
                    assert(pre.swap_space@[i]->Some_0.pid != pid);
                }
            }
            assert forall|k: int|
                0 <= k < post.alive_processes@.len() implies post.proc_pages_resident(
                #[trigger] post.alive_processes@[k],
            ) by {
                let k0 = if k < m as int {
                    k
                } else {
                    k + 1
                };
                assert(post.alive_processes@[k] == pre.alive_processes@[k0]);
                assert(pre.proc_pages_resident(pre.alive_processes@[k0]));
                assert(pre.alive_processes@[k0].pid != pid);
                assert forall|idx: usize|
                    idx < post.pages_of(post.alive_processes@[k].size)
                        implies #[trigger] post.resident(post.alive_processes@[k].pid, idx) by {
                    assert(pre.resident(pre.alive_processes@[k0].pid, idx));
                }
            }
            assert forall|k: int|
                0 <= k < post.alive_processes@.len() implies (#[trigger] post.alive_processes@[k]).life_start.0
                <= post.time.0 && post.alive_processes@[k].life_end.0 == u32::MAX
                && post.alive_processes@[k].size as int <= post.real_capacity() by {
                let k0 = if k < m as int {
                    k
                } else {
                    k + 1
                };
                assert(post.alive_processes@[k] == pre.alive_processes@[k0]);
            }
            assert(post.dead_processes@ == pre.dead_processes@.push(
                Process { life_end: post.time, ..lookup(pre.alive_processes@, pid)->Some_0 },
            ));
        }
        (elapsed, real_ranges, swap_ranges, total)
    }

    /// The end-of-run summary: one report per finished process, with its
    /// turnaround and its fault and swap counters, and the mean
    /// turnaround in whole milliseconds.  Costs no simulated time and
    /// changes nothing.
    pub fn end(&self) -> (r: Summary)
        requires
            self.wf(),
        ensures
            summary_post(*self, r),
    {
        let ghost dead = self.dead_processes@;
        let mut reports: Vec<ProcessReport> = Vec::new();
        let mut sum: u128 = 0;
        let mut k: usize = 0;
        while k < self.dead_processes.len()
            invariant
                k <= dead.len(),
                dead == self.dead_processes@,
                forall|j: int|
                    0 <= j < dead.len() ==> (#[trigger] dead[j]).life_start.0 <= dead[j].life_end.0,
                reports@.len() == k,
                forall|j: int|
                    0 <= j < k ==> (#[trigger] reports@[j]) == (ProcessReport {
                        pid: dead[j].pid,
                        turnaround: Time((dead[j].life_end.0 - dead[j].life_start.0) as u32),
                        page_faults: dead[j].page_faults,
                        swap_ins: dead[j].swap_ins,
                        swap_outs: dead[j].swap_outs,
                    }),
                sum == turnaround_sum_to(dead, k as int),
                sum <= k * (u32::MAX as int),
            decreases dead.len() - k,
        {
            let p: Process = self.dead_processes[k];
            let t: Time = match p.calc_turnaround() {
                Ok(t) => t,
                Err(_) => unreached(),
            };
            reports.push(
                ProcessReport {
                    pid: p.pid,
                    turnaround: t,
                    page_faults: p.page_faults,
                    swap_ins: p.swap_ins,
                    swap_outs: p.swap_outs,
                },
            );
            proof {
                assert(k * (u32::MAX as int) + (u32::MAX as int) == (k + 1) * (u32::MAX as int))
                    by (nonlinear_arith);
            }
            sum = sum + (t.0 as u128);
            k = k + 1;
        }
        let average: Option<Time> = if self.dead_processes.len() == 0 {
            None
        } else {
            let count = self.dead_processes.len();
            proof {
                model::lemma_turnaround_sum_to_bound(dead, dead.len() as int);
                assert(turnaround_sum(dead) / (dead.len() as int) <= u32::MAX as int)
                    by (nonlinear_arith)
                    requires
                        dead.len() >= 1,
                        0 <= turnaround_sum(dead) <= dead.len() * (u32::MAX as int),
                ;
            }
            Some(Time((sum / (count as u128)) as u32))
        };
        Summary { per_process: reports, average_turnaround: average }
    }

    /// Processes one instruction: validates it against the current
    /// state, rejects it with the matching error and no state change, or
    /// carries it out and reports what happened.  Allocations, accesses
    /// and releases advance the clock by the time they cost; comments,
    /// the end-of-run report and the exit marker cost nothing.
    pub fn process_instruction(&mut self, instruction: &Instruction) -> (r: Result<
        Outcome,
        SystemError,
    >)
        requires
            old(self).wf(),
        ensures
            final(self).wf(),
            validate(*old(self), *instruction) matches Some(e) ==> r == Err::<
                Outcome,
                SystemError,
            >(e) && *final(self) == *old(self),
            validate(*old(self), *instruction) is None ==> r is Ok && (match *instruction {
                Instruction::Process { pid, size } => r->Ok_0 matches Outcome::Allocated {
                    pid: opid,
                    pages,
                    elapsed,
                } && opid == pid && pages as int == old(self).pages_of(size) && alloc_post(
                    *old(self),
                    *final(self),
                    pid,
                    size,
                    elapsed,
                ),
                Instruction::Access { address, modifies, pid } => r->Ok_0
                    matches Outcome::Accessed {
                    pid: opid,
                    frame_index,
                    real_address,
                    page_fault,
                    elapsed,
                } && opid == pid && access_post(
                    *old(self),
                    *final(self),
                    pid,
                    address,
                    modifies,
                    frame_index,
                    elapsed,
                ) && page_fault == !resident_in(
                    old(self).real_memory@,
                    pid,
                    page_index_of(*old(self), address),
                ) && real_address as int == frame_index * old(self).frame_size + (
                address as int % old(self).frame_size as int),
                Instruction::Free { pid } => r->Ok_0 matches Outcome::Freed {
                    pid: opid,
                    real_ranges,
                    swap_ranges,
                    freed_frames,
                    elapsed,
                } && opid == pid && free_post(
                    *old(self),
                    *final(self),
                    pid,
                    elapsed,
                    freed_frames as int,
                ) && ranges_flat(real_ranges@) == owned_indices(old(self).real_memory@, pid)
                    && ranges_flat(swap_ranges@) == owned_indices(old(self).swap_space@, pid),
                Instruction::End() => r->Ok_0 matches Outcome::Report(s) && summary_post(
                    *old(self),
                    s,
                ) && *final(self) == *old(self),
                Instruction::Comment(_) => r->Ok_0 is Noop && *final(self) == *old(self),
                Instruction::Exit() => r->Ok_0 is Noop && *final(self) == *old(self),
            }),
    {
        let ghost pre = *old(self);
        match instruction {
            Instruction::Process { pid, size } => {
                let duplicate = match self.find_alive_index(*pid) {
                    Some(k) => {
                        proof {
                            lemma_lookup_at(self.alive_processes@, k as int);
                        }
                        true
                    },
                    None => false,
                };
                if duplicate {
                    Err(SystemError::DuplicateProcess)
                } else if *size > self.calc_free_space() {
                    Err(SystemError::InsufficientTotalMemory)
                } else {
                    proof {
                        assert(self.real_memory@.len() * self.frame_size <= (self.real_memory@.len()
                            + self.swap_space@.len()) * self.frame_size) by (nonlinear_arith)
                            requires
                                self.frame_size >= 1,
                                self.swap_space@.len() >= 0,
                        ;
                    }
                    let capacity = self.real_memory.len() * self.frame_size;
                    if *size > capacity {
                        Err(SystemError::ProcessExceedsRealMemory)
                    } else {
                        let pages = ceil_div(*size, self.frame_size);
                        let elapsed = self.process(*pid, *size);
                        Ok(Outcome::Allocated { pid: *pid, pages, elapsed })
                    }
                }
            },
            Instruction::Access { address, modifies, pid } => {
                match self.find_alive_index(*pid) {
                    None => Err(SystemError::UnknownProcess),
                    Some(k) => {
                        proof {
                            lemma_lookup_at(self.alive_processes@, k as int);
                        }
                        let size = self.alive_processes[k].size;
                        if *address >= size {
                            Err(SystemError::AddressOutOfRange)
                        } else {
                            let page_index = *address / self.frame_size;
                            proof {
                                lemma_lookup_props(pre.alive_processes@, *pid);
                                let i = choose|i: int|
                                    0 <= i < pre.alive_processes@.len() && (
                                    #[trigger] pre.alive_processes@[i]).pid == *pid && lookup(
                                        pre.alive_processes@,
                                        *pid,
                                    ) == Some(pre.alive_processes@[i]);
                                assert(pre.proc_pages_resident(pre.alive_processes@[i]));
                                lemma_page_index_bound(
                                    *address as int,
                                    size as int,
                                    pre.frame_size as int,
                                );
                                assert(pre.resident(*pid, page_index));
                            }
                            let located = self.find_page(*pid, page_index);
                            let page_fault: bool = match located {
                                Frame(Memory::Swap, _) => true,
                                Frame(Memory::Real, _) => false,
                            };
                            let (elapsed, frame_index) = self.access(*pid, *address, *modifies);
                            let fs = self.frame_size;
                            proof {
                                assert(fs == pre.frame_size);
                                assert(frame_index * fs + fs <= pre.real_memory@.len() * fs)
                                    by (nonlinear_arith)
                                    requires
                                        (frame_index as int) < pre.real_memory@.len(),
                                        fs >= 1,
                                ;
                                assert(pre.real_memory@.len() * fs <= (pre.real_memory@.len()
                                    + pre.swap_space@.len()) * fs) by (nonlinear_arith)
                                    requires
                                        fs >= 1,
                                        pre.swap_space@.len() >= 0,
                                ;
                                assert(((*address as int) % (fs as int)) < fs as int)
                                    by (nonlinear_arith)
                                    requires
                                        fs >= 1,
                                ;
                            }
                            let real_address = frame_index * fs + *address % fs;
                            Ok(
                                Outcome::Accessed {
                                    pid: *pid,
                                    frame_index,
                                    real_address,
                                    page_fault,
                                    elapsed,
                                },
                            )
                        }
                    },
                }
            },
            Instruction::Free { pid } => {
                match self.find_alive_index(*pid) {
                    None => Err(SystemError::UnknownProcess),
                    Some(k) => {
                        proof {
                            lemma_lookup_at(self.alive_processes@, k as int);
                        }
                        let (elapsed, real_ranges, swap_ranges, freed_frames) = self.free(*pid);
                        Ok(
                            Outcome::Freed {
                                pid: *pid,
                                real_ranges,
                                swap_ranges,
                                freed_frames,
                                elapsed,
                            },
                        )
                    },
                }
            },
            Instruction::End() => Ok(Outcome::Report(self.end())),
            Instruction::Comment(_) => Ok(Outcome::Noop),
            Instruction::Exit() => Ok(Outcome::Noop),
        }
    }
}

/// Law: in a well-formed system, a given `(pid, logical_index)` pair
/// never appears in more than one frame slot across both tables: any
/// two frames that hold the same page of the same process are the same
/// frame.  Every reachable state is well-formed, since `new` sets the
/// invariant up and `process_instruction` preserves it.
pub proof fn lemma_page_in_one_slot(s: System, pid: PID, index: usize, a: Frame, b: Frame)
    requires
        s.wf(),
        s.frame_points_to(a, pid, index),
        s.frame_points_to(b, pid, index),
    ensures
        a == b,
{
    if a.0 is Real && b.0 is Real {
        if a.1 != b.1 {
            let i = if a.1 < b.1 {
                a.1 as int
            } else {
                b.1 as int
            };
            let j = if a.1 < b.1 {
                b.1 as int
            } else {
                a.1 as int
            };
            assert(s.real_memory@[i] is Some && s.real_memory@[j] is Some && i < j);
            assert(false);
        }
    } else if a.0 is Swap && b.0 is Swap {
        if a.1 != b.1 {
            let i = if a.1 < b.1 {
                a.1 as int
            } else {
                b.1 as int
            };
            let j = if a.1 < b.1 {
                b.1 as int
            } else {
                a.1 as int
            };
            assert(s.swap_space@[i] is Some && s.swap_space@[j] is Some && i < j);
            assert(false);
        }
    } else {
        let ri = if a.0 is Real {
            a.1 as int
        } else {
            b.1 as int
        };
        let si = if a.0 is Real {
            b.1 as int
        } else {
            a.1 as int
        };
        assert(s.real_memory@[ri] is Some && s.swap_space@[si] is Some);
        assert(false);
    }
}

/// Law: looking a page up twice without mutation in between gives the
/// same answer.  `find_page` promises a frame that the page occupies,
/// and in a well-formed system that frame is unique, so any two results
/// of `find_page` on an unchanged system are equal.
pub proof fn lemma_locate_idempotent(s: System, pid: PID, index: usize)
    requires
        s.wf(),
    ensures
        forall|a: Frame, b: Frame|
            s.frame_points_to(a, pid, index) && s.frame_points_to(b, pid, index) ==> a == b,
{
    assert forall|a: Frame, b: Frame|
        s.frame_points_to(a, pid, index) && s.frame_points_to(b, pid, index) implies a == b by {
        lemma_page_in_one_slot(s, pid, index, a, b);
    }
}

/// A table of `n` frames, all empty.
fn make_empty_table(n: usize) -> (r: Vec<Option<ProcessPage>>)
    ensures
        r@.len() == n,
        forall|i: int| 0 <= i < n ==> (#[trigger] r@[i]) is None,
        empties(r@) == n,
{
    let mut table: Vec<Option<ProcessPage>> = Vec::new();
    let mut i: usize = 0;
    while i < n
        invariant
            i <= n,
            table@.len() == i,
            forall|j: int| 0 <= j < i ==> (#[trigger] table@[j]) is None,
            empties(table@) == i,
        decreases n - i,
    {
        proof {
            lemma_empties_push(table@, None);
        }
        table.push(None);
        i = i + 1;
    }
    table
}

/// How many slots of a frame table are empty.
pub(crate) fn count_empty_frames(table: &Vec<Option<ProcessPage>>) -> (r: usize)
    ensures
        r == empties(table@),
{
    let mut count: usize = 0;
    let mut i: usize = 0;
    while i < table.len()
        invariant
            i <= table@.len(),
            count == empties_to(table@, i as int),
            count <= i,
        decreases table@.len() - i,
    {
        if table[i].is_none() {
            count = count + 1;
        }
        i = i + 1;
    }
    count
}

} // verus!
