//! Frame-level operations of the memory hierarchy: locating a page,
//! finding an empty slot, and moving pages between the two tables.

use vstd::prelude::*;

use crate::process::PID;
use crate::process::Process;
use crate::process::ProcessPage;
use crate::process::sat_inc;
use crate::system::Frame;
use crate::system::MAX_FRAMES;
use crate::system::Memory;
use crate::system::SWAP_PAGE_TIME;
use crate::system::System;
use crate::system::count_empty_frames;
use crate::system::model::accessed_lex_before;
use crate::system::model::created_lex_before;
use crate::system::model::empties;
use crate::system::model::empties_to;
use crate::system::model::fifo_min;
use crate::system::model::has_pid;
use crate::system::model::lemma_empties_to_bound;
use crate::system::model::lemma_empties_to_zero_iff;
use crate::system::model::lemma_empties_update;
use crate::system::model::lemma_lookup_absent;
use crate::system::model::lemma_lookup_at;
use crate::system::model::lemma_lookup_update;
use crate::system::model::lookup;
use crate::system::model::lru_min;
use crate::system::model::lemma_owned_update;
use crate::system::model::owned_frames;
use crate::system::model::resident_in;
use crate::system::model::sat_plus;
use crate::system::model::slot_has;
use crate::system::model::stats_like;
use crate::time::Time;

verus! {

/// The index of the first empty slot of a table, if the table has one.
pub fn first_empty_index(table: &Vec<Option<ProcessPage>>) -> (r: Option<usize>)
    ensures
        r matches Some(i) ==> i < table@.len() && table@[i as int] is None && (forall|j: int|
            0 <= j < i ==> (#[trigger] table@[j]) is Some),
        r is None ==> empties(table@) == 0,
{
    let mut i: usize = 0;
    while i < table.len()
        invariant
            i <= table@.len(),
            forall|j: int| 0 <= j < i ==> (#[trigger] table@[j]) is Some,
        decreases table@.len() - i,
    {
        if table[i].is_none() {
            return Some(i);
        }
        i = i + 1;
    }
    proof {
        lemma_empties_to_zero_iff(table@, table@.len() as int);
    }
    None
}

/// Index `i` occurs among the first `j` entries of `vs`.
pub open spec fn among_first(vs: Seq<usize>, j: int, i: int) -> bool {
    exists|u: int| 0 <= u < j && (#[trigger] vs[u]) as int == i
}

/// The first `n` empty slot indices of a table, in ascending order:
/// every empty slot below a returned slot is itself returned.
fn collect_first_n_empty(table: &Vec<Option<ProcessPage>>, n: usize) -> (r: Vec<usize>)
    requires
        n as int <= empties(table@),
    ensures
        r@.len() == n,
        forall|a: int, b: int| 0 <= a < b < n ==> r@[a] < r@[b],
        forall|a: int|
            0 <= a < n ==> (#[trigger] r@[a] as int) < table@.len() && table@[r@[a] as int] is None,
        forall|a: int, j: int|
            #![trigger r@[a], table@[j]]
            0 <= a < n && 0 <= j < r@[a] && table@[j] is None ==> r@.contains(j as usize),
{
    let mut result: Vec<usize> = Vec::new();
    let mut i: usize = 0;
    while i < table.len() && result.len() < n
        invariant
            i <= table@.len(),
            n as int <= empties(table@),
            result@.len() == (if empties_to(table@, i as int) <= n {
                empties_to(table@, i as int)
            } else {
                n as int
            }),
            result@.len() <= n,
            forall|a: int|
                0 <= a < result@.len() ==> (#[trigger] result@[a] as int) < i
                    && table@[result@[a] as int] is None,
            forall|a: int, b: int| 0 <= a < b < result@.len() ==> result@[a] < result@[b],
            forall|j: int|
                0 <= j < i && (#[trigger] table@[j]) is None ==> result@.contains(j as usize),
        decreases table@.len() - i,
    {
        if table[i].is_none() {
            let ghost r0 = result@;
            result.push(i);
            proof {
                assert forall|j: int|
                    0 <= j < i + 1 && (#[trigger] table@[j]) is None implies result@.contains(
                    j as usize,
                ) by {
                    if j < i {
                        let w = choose|w: int| 0 <= w < r0.len() && r0[w] == j as usize;
                        assert(result@[w] == j as usize);
                    } else {
                        assert(result@[r0.len() as int] == i);
                    }
                }
            }
        }
        i = i + 1;
    }
    result
}

/// The system invariant survives replacing one registry entry by a copy
/// that differs only in its counters, and every lookup answers as
/// before, up to that one entry.
pub proof fn lemma_wf_after_counter_update(pre: System, post: System, m: int, p: Process)
    requires
        pre.wf(),
        0 <= m < pre.alive_processes@.len(),
        p.pid == pre.alive_processes@[m].pid,
        p.size == pre.alive_processes@[m].size,
        p.life_start == pre.alive_processes@[m].life_start,
        p.life_end == pre.alive_processes@[m].life_end,
        post.alive_processes@ == pre.alive_processes@.update(m, p),
        post.real_memory@ == pre.real_memory@,
        post.swap_space@ == pre.swap_space@,
        post.time == pre.time,
        post.frame_size == pre.frame_size,
        post.algorithm == pre.algorithm,
        post.dead_processes@ == pre.dead_processes@,
    ensures
        post.wf(),
        forall|q: PID|
            #![trigger lookup(post.alive_processes@, q)]
            lookup(post.alive_processes@, q) == (if q == p.pid {
                Some(p)
            } else {
                lookup(pre.alive_processes@, q)
            }),
{
    assert forall|q: PID|
        #![trigger lookup(post.alive_processes@, q)]
        lookup(post.alive_processes@, q) == (if q == p.pid {
            Some(p)
        } else {
            lookup(pre.alive_processes@, q)
        }) by {
        lemma_lookup_update(pre.alive_processes@, m, p, q);
    }
    lemma_lookup_at(pre.alive_processes@, m);
    assert(post.owners_ok()) by {
        assert forall|i: int|
            0 <= i < post.real_memory@.len() && (#[trigger] post.real_memory@[i]) is Some
                implies post.page_ok(post.real_memory@[i]->Some_0) by {
            assert(pre.page_ok(post.real_memory@[i]->Some_0));
        }
        assert forall|i: int|
            0 <= i < post.swap_space@.len() && (#[trigger] post.swap_space@[i]) is Some
                implies post.page_ok(post.swap_space@[i]->Some_0) by {
            assert(pre.page_ok(post.swap_space@[i]->Some_0));
        }
    }
    assert forall|k: int|
        0 <= k < post.alive_processes@.len() implies post.proc_pages_resident(
        #[trigger] post.alive_processes@[k],
    ) by {
        assert(pre.proc_pages_resident(pre.alive_processes@[k]));
        assert(post.alive_processes@[k].pid == pre.alive_processes@[k].pid);
        assert(post.alive_processes@[k].size == pre.alive_processes@[k].size);
        assert forall|idx: usize|
            idx < post.pages_of(post.alive_processes@[k].size) implies #[trigger] post.resident(
            post.alive_processes@[k].pid,
            idx,
        ) by {
            assert(pre.resident(pre.alive_processes@[k].pid, idx));
        }
    }
}

impl System {
    /// Where in the registry process `pid` stands, if it is alive.
    pub fn find_alive_index(&self, pid: PID) -> (r: Option<usize>)
        ensures
            r matches Some(k) ==> k < self.alive_processes@.len()
                && self.alive_processes@[k as int].pid == pid,
            r is None ==> !has_pid(self.alive_processes@, pid),
    {
        let mut k: usize = 0;
        while k < self.alive_processes.len()
            invariant
                k <= self.alive_processes@.len(),
                forall|j: int| 0 <= j < k ==> (#[trigger] self.alive_processes@[j]).pid != pid,
            decreases self.alive_processes@.len() - k,
        {
            if self.alive_processes[k].pid == pid {
                return Some(k);
            }
            k = k + 1;
        }
        proof {
            lemma_lookup_absent(self.alive_processes@, pid);
        }
        None
    }

    /// Locates page `page_index` of process `pid`: the frame returned is
    /// the one slot, across both tables, that holds the page.  Callers
    /// must know the page is resident; for a live process the system
    /// invariant guarantees it, and a miss would mean the bookkeeping was
    /// already corrupt.
    pub fn find_page(&self, pid: PID, page_index: usize) -> (r: Frame)
        requires
            self.wf(),
            self.resident(pid, page_index),
        ensures
            self.frame_points_to(r, pid, page_index),
            r.0 is Real <==> resident_in(self.real_memory@, pid, page_index),
    {
        let mut i: usize = 0;
        while i < self.real_memory.len()
            invariant
                i <= self.real_memory@.len(),
                forall|j: int| 0 <= j < i ==> !slot_has(self.real_memory@, j, pid, page_index),
            decreases self.real_memory@.len() - i,
        {
            match &self.real_memory[i] {
                Some(page) => {
                    if page.pid == pid && page.index == page_index {
                        return Frame(Memory::Real, i);
                    }
                },
                None => {},
            }
            i = i + 1;
        }
        assert(!resident_in(self.real_memory@, pid, page_index));
        let mut s: usize = 0;
        while s < self.swap_space.len()
            invariant
                s <= self.swap_space@.len(),
                !resident_in(self.real_memory@, pid, page_index),
                forall|j: int| 0 <= j < s ==> !slot_has(self.swap_space@, j, pid, page_index),
            decreases self.swap_space@.len() - s,
        {
            match &self.swap_space[s] {
                Some(page) => {
                    if page.pid == pid && page.index == page_index {
                        return Frame(Memory::Swap, s);
                    }
                },
                None => {},
            }
            s = s + 1;
        }
        proof {
            assert(!resident_in(self.swap_space@, pid, page_index));
            assert(false);
        }
        unreached()
    }

    /// Exchanges the contents of real-memory slot `rj` and swap-space
    /// slot `si`.  Both tables keep their lengths; nothing else of the
    /// system changes, and the invariant survives because the pages only
    /// trade places.
    pub fn exchange_slots(&mut self, rj: usize, si: usize)
        requires
            old(self).wf(),
            rj < old(self).real_memory@.len(),
            si < old(self).swap_space@.len(),
        ensures
            final(self).wf(),
            final(self).real_memory@ == old(self).real_memory@.update(
                rj as int,
                old(self).swap_space@[si as int],
            ),
            final(self).swap_space@ == old(self).swap_space@.update(
                si as int,
                old(self).real_memory@[rj as int],
            ),
            final(self).alive_processes == old(self).alive_processes,
            final(self).dead_processes == old(self).dead_processes,
            final(self).time == old(self).time,
            final(self).frame_size == old(self).frame_size,
            final(self).algorithm == old(self).algorithm,
            empties(final(self).real_memory@) == empties(old(self).real_memory@) - (if old(self).real_memory@[rj as int] is None {
                1int
            } else {
                0int
            }) + (if old(self).swap_space@[si as int] is None {
                1int
            } else {
                0int
            }),
            empties(final(self).swap_space@) == empties(old(self).swap_space@) - (if old(self).swap_space@[si as int] is None {
                1int
            } else {
                0int
            }) + (if old(self).real_memory@[rj as int] is None {
                1int
            } else {
                0int
            }),
            forall|q: PID, idx: usize| final(self).resident(q, idx) <==> old(self).resident(q, idx),
    {
        let held_real: Option<ProcessPage> = self.real_memory[rj];
        let held_swap: Option<ProcessPage> = self.swap_space[si];
        self.real_memory[rj] = held_swap;
        self.swap_space[si] = held_real;
        proof {
            let pre = *old(self);
            let post = *self;
            lemma_empties_update(pre.real_memory@, rj as int, held_swap);
            lemma_empties_update(pre.swap_space@, si as int, held_real);
            assert forall|q: PID, idx: usize| post.resident(q, idx) <==> pre.resident(
                q,
                idx,
            ) by {
                if pre.resident(q, idx) {
                    if slot_has(pre.real_memory@, rj as int, q, idx) {
                        assert(slot_has(post.swap_space@, si as int, q, idx));
                    } else if slot_has(pre.swap_space@, si as int, q, idx) {
                        assert(slot_has(post.real_memory@, rj as int, q, idx));
                    } else if resident_in(pre.real_memory@, q, idx) {
                        let w = choose|w: int| slot_has(pre.real_memory@, w, q, idx);
                        assert(slot_has(post.real_memory@, w, q, idx));
                    } else {
                        let w = choose|w: int| slot_has(pre.swap_space@, w, q, idx);
                        assert(slot_has(post.swap_space@, w, q, idx));
                    }
                }
                if post.resident(q, idx) {
                    if slot_has(post.real_memory@, rj as int, q, idx) {
                        assert(slot_has(pre.swap_space@, si as int, q, idx));
                    } else if slot_has(post.swap_space@, si as int, q, idx) {
                        assert(slot_has(pre.real_memory@, rj as int, q, idx));
                    } else if resident_in(post.real_memory@, q, idx) {
                        let w = choose|w: int| slot_has(post.real_memory@, w, q, idx);
                        assert(slot_has(pre.real_memory@, w, q, idx));
                    } else {
                        let w = choose|w: int| slot_has(post.swap_space@, w, q, idx);
                        assert(slot_has(pre.swap_space@, w, q, idx));
                    }
                }
            }
            assert forall|k: int|
                0 <= k < post.alive_processes@.len() implies post.proc_pages_resident(
                #[trigger] post.alive_processes@[k],
            ) by {
                assert(pre.proc_pages_resident(pre.alive_processes@[k]));
                assert forall|idx: usize|
                    idx < post.pages_of(post.alive_processes@[k].size) implies #[trigger] post.resident(
                    post.alive_processes@[k].pid,
                    idx,
                ) by {
                    assert(pre.resident(pre.alive_processes@[k].pid, idx));
                }
            }
        }
    }

    /// Moves the page in real-memory slot `v` out to the first empty
    /// swap-space slot, and counts one swap-out against the owning
    /// process.  The time this costs is accounted by the caller.
    pub fn evict_one(&mut self, v: usize)
        requires
            old(self).wf(),
            v < old(self).real_memory@.len(),
            old(self).real_memory@[v as int] is Some,
            empties(old(self).swap_space@) >= 1,
        ensures
            final(self).wf(),
            final(self).real_memory@ == old(self).real_memory@.update(
                v as int,
                None::<ProcessPage>,
            ),
            exists|s: int|
                0 <= s < old(self).swap_space@.len() && old(self).swap_space@[s] is None && final(self).swap_space@ == old(self).swap_space@.update(
                    s,
                    old(self).real_memory@[v as int],
                ),
            empties(final(self).real_memory@) == empties(old(self).real_memory@) + 1,
            empties(final(self).swap_space@) == empties(old(self).swap_space@) - 1,
            final(self).alive_processes@.len() == old(self).alive_processes@.len(),
            exists|m: int|
                #![trigger old(self).alive_processes@[m]]
                {
                    let pre = old(self).alive_processes@;
                    &&& 0 <= m < pre.len()
                    &&& pre[m].pid == old(self).real_memory@[v as int]->Some_0.pid
                    &&& final(self).alive_processes@ == pre.update(
                        m,
                        Process {
                            swap_outs: sat_inc(pre[m].swap_outs as int) as u16,
                            ..pre[m]
                        },
                    )
                },
            forall|q: PID, idx: usize| final(self).resident(q, idx) <==> old(self).resident(q, idx),
            final(self).dead_processes == old(self).dead_processes,
            final(self).time == old(self).time,
            final(self).frame_size == old(self).frame_size,
            final(self).algorithm == old(self).algorithm,
    {
        let page: ProcessPage = match &self.real_memory[v] {
            Some(p) => *p,
            None => unreached(),
        };
        let s: usize = match first_empty_index(&self.swap_space) {
            Some(s) => s,
            None => unreached(),
        };
        self.exchange_slots(v, s);
        let m: usize = match self.find_alive_index(page.pid) {
            Some(m) => m,
            None => {
                proof {
                    assert(old(self).page_ok(page));
                    assert(false);
                }
                unreached()
            },
        };
        proof {
            lemma_lookup_at(self.alive_processes@, m as int);
        }
        let mut owner: Process = self.alive_processes[m];
        owner.add_swap_out();
        let ghost mid = *self;
        self.alive_processes[m] = owner;
        proof {
            let pre = *old(self);
            let post = *self;
            lemma_lookup_at(pre.alive_processes@, m as int);
            assert forall|q: PID|
                #![trigger lookup(post.alive_processes@, q)]
                lookup(post.alive_processes@, q) == (if q == page.pid {
                    Some(owner)
                } else {
                    lookup(pre.alive_processes@, q)
                }) by {
                lemma_lookup_update(pre.alive_processes@, m as int, owner, q);
            }
            assert(post.owners_ok()) by {
                assert forall|i: int|
                    0 <= i < post.real_memory@.len() && (#[trigger] post.real_memory@[i]) is Some
                        implies post.page_ok(post.real_memory@[i]->Some_0) by {
                    assert(pre.page_ok(post.real_memory@[i]->Some_0));
                }
                assert forall|i: int|
                    0 <= i < post.swap_space@.len() && (#[trigger] post.swap_space@[i]) is Some
                        implies post.page_ok(post.swap_space@[i]->Some_0) by {
                    assert(pre.page_ok(post.swap_space@[i]->Some_0));
                }
            }
            assert forall|k: int|
                0 <= k < post.alive_processes@.len() implies post.proc_pages_resident(
                #[trigger] post.alive_processes@[k],
            ) by {
                assert(mid.proc_pages_resident(mid.alive_processes@[k]));
                assert(post.alive_processes@[k].pid == mid.alive_processes@[k].pid);
                assert(post.alive_processes@[k].size == mid.alive_processes@[k].size);
                assert forall|idx: usize|
                    idx < post.pages_of(post.alive_processes@[k].size) implies #[trigger] post.resident(
                    post.alive_processes@[k].pid,
                    idx,
                ) by {
                    assert(mid.resident(mid.alive_processes@[k].pid, idx));
                }
            }
        }
    }

    /// Stamps a new last-access time on the page in real-memory slot
    /// `index`; nothing else of the system changes.
    pub fn stamp_accessed(&mut self, index: usize, stamp: Time)
        requires
            old(self).wf(),
            index < old(self).real_memory@.len(),
            old(self).real_memory@[index as int] is Some,
        ensures
            final(self).wf(),
            final(self).real_memory@ == old(self).real_memory@.update(
                index as int,
                Some(
                    ProcessPage {
                        accessed: stamp,
                        ..old(self).real_memory@[index as int]->Some_0
                    },
                ),
            ),
            final(self).swap_space@ == old(self).swap_space@,
            final(self).alive_processes == old(self).alive_processes,
            final(self).dead_processes == old(self).dead_processes,
            final(self).time == old(self).time,
            final(self).frame_size == old(self).frame_size,
            final(self).algorithm == old(self).algorithm,
            empties(final(self).real_memory@) == empties(old(self).real_memory@),
            forall|q: PID, idx: usize| final(self).resident(q, idx) <==> old(self).resident(q, idx),
    {
        let page: ProcessPage = match &self.real_memory[index] {
            Some(p) => *p,
            None => unreached(),
        };
        let mut updated = page;
        updated.update_accessed_time(stamp);
        self.real_memory[index] = Some(updated);
        proof {
            let pre = *old(self);
            let post = *self;
            lemma_empties_update(pre.real_memory@, index as int, Some(updated));
            assert forall|q: PID, idx: usize| post.resident(q, idx) <==> pre.resident(
                q,
                idx,
            ) by {
                if resident_in(pre.real_memory@, q, idx) {
                    let w = choose|w: int| slot_has(pre.real_memory@, w, q, idx);
                    assert(slot_has(post.real_memory@, w, q, idx));
                }
                if resident_in(post.real_memory@, q, idx) {
                    let w = choose|w: int| slot_has(post.real_memory@, w, q, idx);
                    assert(slot_has(pre.real_memory@, w, q, idx));
                }
            }
            assert forall|k: int|
                0 <= k < post.alive_processes@.len() implies post.proc_pages_resident(
                #[trigger] post.alive_processes@[k],
            ) by {
                assert(pre.proc_pages_resident(pre.alive_processes@[k]));
                assert forall|idx: usize|
                    idx < post.pages_of(post.alive_processes@[k].size) implies #[trigger] post.resident(
                    post.alive_processes@[k].pid,
                    idx,
                ) by {
                    assert(pre.resident(pre.alive_processes@[k].pid, idx));
                }
            }
            assert forall|i: int|
                0 <= i < post.real_memory@.len() && (#[trigger] post.real_memory@[i]) is Some
                    implies post.page_ok(post.real_memory@[i]->Some_0) by {
                if i == index as int {
                    assert(pre.page_ok(pre.real_memory@[i]->Some_0));
                } else {
                    assert(pre.page_ok(pre.real_memory@[i]->Some_0));
                }
            }
        }
    }

    /// Advances the clock by `elapsed`, saturating at the cap; nothing
    /// else of the system changes.
    pub fn advance_clock(&mut self, elapsed: Time)
        requires
            old(self).wf(),
        ensures
            final(self).wf(),
            final(self).time.0 == crate::time::sat_add(old(self).time.0 as int, elapsed.0 as int),
            final(self).real_memory == old(self).real_memory,
            final(self).swap_space == old(self).swap_space,
            final(self).alive_processes == old(self).alive_processes,
            final(self).dead_processes == old(self).dead_processes,
            final(self).frame_size == old(self).frame_size,
            final(self).algorithm == old(self).algorithm,
    {
        self.time = self.time.add(elapsed);
        proof {
            let pre = *old(self);
            let post = *self;
            assert forall|k: int|
                0 <= k < post.alive_processes@.len() implies post.proc_pages_resident(
                #[trigger] post.alive_processes@[k],
            ) by {
                assert(pre.proc_pages_resident(pre.alive_processes@[k]));
                assert forall|idx: usize|
                    idx < post.pages_of(post.alive_processes@[k].size) implies #[trigger] post.resident(
                    post.alive_processes@[k].pid,
                    idx,
                ) by {
                    assert(pre.resident(pre.alive_processes@[k].pid, idx));
                }
            }
            assert forall|i: int|
                0 <= i < post.real_memory@.len() && (#[trigger] post.real_memory@[i]) is Some
                    implies post.page_ok(post.real_memory@[i]->Some_0) by {
                assert(pre.page_ok(pre.real_memory@[i]->Some_0));
            }
            assert forall|i: int|
                0 <= i < post.swap_space@.len() && (#[trigger] post.swap_space@[i]) is Some
                    implies post.page_ok(post.swap_space@[i]->Some_0) by {
                assert(pre.page_ok(post.swap_space@[i]->Some_0));
            }
        }
    }

    /// The real-memory slot a page being faulted in from swap space will
    /// go to: the first empty slot if one exists at no cost, otherwise
    /// the slot the replacement policy picks, at the cost of one swap-out
    /// counted against the victim's owner.  The tables themselves are
    /// untouched; the caller performs the exchange.
    pub fn get_frame_index_to_swap_into(&mut self) -> (r: (usize, Time))
        requires
            old(self).wf(),
            old(self).real_memory@.len() >= 1,
        ensures
            final(self).wf(),
            (r.0 as int) < old(self).real_memory@.len(),
            final(self).real_memory@ == old(self).real_memory@,
            final(self).swap_space@ == old(self).swap_space@,
            final(self).time == old(self).time,
            final(self).dead_processes == old(self).dead_processes,
            final(self).frame_size == old(self).frame_size,
            final(self).algorithm == old(self).algorithm,
            empties(old(self).real_memory@) > 0 ==> {
                &&& old(self).real_memory@[r.0 as int] is None
                &&& forall|j: int| 0 <= j < r.0 ==> (#[trigger] old(self).real_memory@[j]) is Some
                &&& r.1.0 == 0
                &&& final(self).alive_processes == old(self).alive_processes
            },
            empties(old(self).real_memory@) == 0 ==> {
                &&& old(self).real_memory@[r.0 as int] is Some
                &&& r.1.0 == SWAP_PAGE_TIME
                &&& (old(self).algorithm is FIFO ==> fifo_min(old(self).real_memory@, r.0 as int))
                &&& (old(self).algorithm is LRU ==> lru_min(old(self).real_memory@, r.0 as int))
                &&& exists|m: int|
                    #![trigger old(self).alive_processes@[m]]
                    {
                        let pre = old(self).alive_processes@;
                        &&& 0 <= m < pre.len()
                        &&& pre[m].pid == old(self).real_memory@[r.0 as int]->Some_0.pid
                        &&& final(self).alive_processes@ == pre.update(
                            m,
                            Process {
                                swap_outs: sat_inc(pre[m].swap_outs as int) as u16,
                                ..pre[m]
                            },
                        )
                    }
            },
    {
        match first_empty_index(&self.real_memory) {
            Some(i) => {
                proof {
                    lemma_empties_to_zero_iff(
                        self.real_memory@,
                        self.real_memory@.len() as int,
                    );
                    lemma_empties_to_bound(self.real_memory@, self.real_memory@.len() as int);
                }
                (i, Time::new())
            },
            None => {
                let v = self.find_page_to_replace();
                let page: ProcessPage = match &self.real_memory[v] {
                    Some(p) => *p,
                    None => unreached(),
                };
                let m: usize = match self.find_alive_index(page.pid) {
                    Some(m) => m,
                    None => {
                        proof {
                            assert(self.page_ok(page));
                            assert(false);
                        }
                        unreached()
                    },
                };
                let mut owner: Process = self.alive_processes[m];
                owner.add_swap_out();
                self.alive_processes[m] = owner;
                proof {
                    lemma_wf_after_counter_update(*old(self), *self, m as int, owner);
                    let pre = old(self).alive_processes@;
                    assert(owner == Process {
                        swap_outs: sat_inc(pre[m as int].swap_outs as int) as u16,
                        ..pre[m as int]
                    });
                    assert(pre[m as int].pid == old(self).real_memory@[v as int]->Some_0.pid);
                    assert(self.alive_processes@ == pre.update(
                        m as int,
                        Process {
                            swap_outs: sat_inc(pre[m as int].swap_outs as int) as u16,
                            ..pre[m as int]
                        },
                    ));
                }
                (v, Time::from_miliseconds(SWAP_PAGE_TIME))
            },
        }
    }

    /// Reserves `n` distinct real-memory slots for new pages, returned in
    /// ascending order, together with the time the reservation cost.  The
    /// empty slots are used first; beyond them, the replacement policy
    /// picks victims, and each victim's page moves to swap space at a
    /// cost of one swap-out (in time and in the owner's counter).  The
    /// returned slots are left empty for the caller to fill.
    pub fn allocate_n_frames(&mut self, n: usize) -> (r: (Vec<usize>, Time))
        requires
            old(self).wf(),
            n <= old(self).real_memory@.len(),
            n as int <= old(self).free_frames(),
        ensures
            final(self).wf(),
            r.0@.len() == n,
            forall|a: int, b: int| 0 <= a < b < n ==> r.0@[a] < r.0@[b],
            forall|a: int|
                0 <= a < n ==> (#[trigger] r.0@[a] as int) < final(self).real_memory@.len()
                    && final(self).real_memory@[r.0@[a] as int] is None,
            forall|a: int, j: int|
                #![trigger r.0@[a], final(self).real_memory@[j]]
                0 <= a < n && 0 <= j < r.0@[a] && final(self).real_memory@[j] is None
                    ==> r.0@.contains(j as usize),
            n as int <= empties(old(self).real_memory@) ==> forall|a: int, j: int|
                #![trigger r.0@[a], old(self).real_memory@[j]]
                0 <= a < n && 0 <= j < r.0@[a] && old(self).real_memory@[j] is None
                    ==> r.0@.contains(j as usize),
            old(self).algorithm is FIFO ==> forall|v: int, j: int|
                #![trigger old(self).real_memory@[v], final(self).real_memory@[j]]
                0 <= v < old(self).real_memory@.len() && 0 <= j < old(self).real_memory@.len()
                    && old(self).real_memory@[v] is Some && final(self).real_memory@[v] is None
                    && final(self).real_memory@[j] is Some ==> created_lex_before(
                    old(self).real_memory@,
                    v,
                    j,
                ),
            old(self).algorithm is LRU ==> forall|v: int, j: int|
                #![trigger old(self).real_memory@[v], final(self).real_memory@[j]]
                0 <= v < old(self).real_memory@.len() && 0 <= j < old(self).real_memory@.len()
                    && old(self).real_memory@[v] is Some && final(self).real_memory@[v] is None
                    && final(self).real_memory@[j] is Some ==> accessed_lex_before(
                    old(self).real_memory@,
                    v,
                    j,
                ),
            ({
                let e = empties(old(self).real_memory@);
                let k = if n as int <= e {
                    0int
                } else {
                    n - e
                };
                &&& r.1.0 == SWAP_PAGE_TIME * k
                &&& empties(final(self).real_memory@) == (if n as int <= e {
                    e
                } else {
                    n as int
                })
                &&& empties(final(self).swap_space@) == empties(old(self).swap_space@) - k
            }),
            final(self).real_memory@.len() == old(self).real_memory@.len(),
            final(self).swap_space@.len() == old(self).swap_space@.len(),
            final(self).time == old(self).time,
            final(self).frame_size == old(self).frame_size,
            final(self).algorithm == old(self).algorithm,
            final(self).dead_processes == old(self).dead_processes,
            final(self).alive_processes@.len() == old(self).alive_processes@.len(),
            forall|k2: int|
                0 <= k2 < old(self).alive_processes@.len() ==> stats_like(
                    old(self).alive_processes@[k2],
                    #[trigger] final(self).alive_processes@[k2],
                ),
            forall|k2: int|
                #![trigger final(self).alive_processes@[k2]]
                0 <= k2 < old(self).alive_processes@.len() ==> {
                    let q = old(self).alive_processes@[k2].pid;
                    final(self).alive_processes@[k2].swap_outs as int == sat_plus(
                        old(self).alive_processes@[k2].swap_outs as int,
                        owned_frames(final(self).swap_space@, q) - owned_frames(
                            old(self).swap_space@,
                            q,
                        ),
                    )
                },
            n as int <= empties(old(self).real_memory@) ==> final(self).alive_processes@ == old(self).alive_processes@ && final(self).real_memory@ == old(self).real_memory@ && final(self).swap_space@ == old(self).swap_space@,
            forall|q: PID, idx: usize| final(self).resident(q, idx) <==> old(self).resident(q, idx),
            forall|q: PID, idx: usize|
                resident_in(final(self).swap_space@, q, idx) ==> resident_in(
                    old(self).swap_space@,
                    q,
                    idx,
                ) || resident_in(old(self).real_memory@, q, idx),
    {
        let e = count_empty_frames(&self.real_memory);
        let mut elapsed = Time::new();
        if e < n {
            let shortfall = n - e;
            let victims = self.find_n_pages_to_replace(shortfall);
            let mut j: usize = 0;
            while j < shortfall
                invariant
                    old(self).wf(),
                    j <= shortfall,
                    shortfall == n - e,
                    e == empties(old(self).real_memory@),
                    e < n,
                    n <= old(self).real_memory@.len(),
                    n as int <= old(self).free_frames(),
                    victims@.len() == shortfall,
                    forall|a: int, b: int| 0 <= a < b < shortfall ==> victims@[a] < victims@[b],
                    forall|a: int|
                        0 <= a < shortfall ==> (#[trigger] victims@[a] as int) < old(self).real_memory@.len() && old(self).real_memory@[victims@[a] as int] is Some,
                    self.wf(),
                    self.real_memory@.len() == old(self).real_memory@.len(),
                    self.swap_space@.len() == old(self).swap_space@.len(),
                    self.time == old(self).time,
                    self.frame_size == old(self).frame_size,
                    self.algorithm == old(self).algorithm,
                    self.dead_processes == old(self).dead_processes,
                    self.alive_processes@.len() == old(self).alive_processes@.len(),
                    forall|k2: int|
                        0 <= k2 < old(self).alive_processes@.len() ==> stats_like(
                            old(self).alive_processes@[k2],
                            #[trigger] self.alive_processes@[k2],
                        ),
                    forall|k2: int|
                        #![trigger self.alive_processes@[k2]]
                        0 <= k2 < old(self).alive_processes@.len() ==> {
                            let q = old(self).alive_processes@[k2].pid;
                            self.alive_processes@[k2].swap_outs as int == sat_plus(
                                old(self).alive_processes@[k2].swap_outs as int,
                                owned_frames(self.swap_space@, q) - owned_frames(
                                    old(self).swap_space@,
                                    q,
                                ),
                            )
                        },
                    forall|i: int|
                        0 <= i < self.real_memory@.len() ==> (#[trigger] self.real_memory@[i]) == (
                        if among_first(victims@, j as int, i) {
                            None::<ProcessPage>
                        } else {
                            old(self).real_memory@[i]
                        }),
                    empties(self.real_memory@) == e + j,
                    empties(self.swap_space@) == empties(old(self).swap_space@) - j,
                    elapsed.0 == SWAP_PAGE_TIME * j,
                    forall|q: PID, idx: usize|
                        self.resident(q, idx) <==> old(self).resident(q, idx),
                    forall|q: PID, idx: usize|
                        resident_in(self.swap_space@, q, idx) ==> resident_in(
                            old(self).swap_space@,
                            q,
                            idx,
                        ) || resident_in(old(self).real_memory@, q, idx),
                decreases shortfall - j,
            {
                let v = victims[j];
                proof {
                    assert(!among_first(victims@, j as int, v as int)) by {
                        if among_first(victims@, j as int, v as int) {
                            let u = choose|u: int|
                                0 <= u < j && (#[trigger] victims@[u]) as int == v as int;
                            assert(victims@[u] < victims@[j as int]);
                        }
                    }
                    assert(self.real_memory@[v as int] == old(self).real_memory@[v as int]);
                }
                let ghost mid = *self;
                self.evict_one(v);
                elapsed = elapsed.add(Time::from_miliseconds(SWAP_PAGE_TIME));
                proof {
                    assert(elapsed.0 == SWAP_PAGE_TIME * (j + 1)) by {
                        assert(SWAP_PAGE_TIME * (j + 1) == SWAP_PAGE_TIME * j + SWAP_PAGE_TIME)
                            by (nonlinear_arith);
                        assert(j + 1 <= MAX_FRAMES);
                        assert(SWAP_PAGE_TIME * (j + 1) <= SWAP_PAGE_TIME * MAX_FRAMES)
                            by (nonlinear_arith)
                            requires
                                j + 1 <= MAX_FRAMES,
                        ;
                    }
                    let post = *self;
                    assert forall|i: int|
                        0 <= i < post.real_memory@.len() implies (#[trigger] post.real_memory@[i])
                            == (if among_first(victims@, j + 1, i) {
                            None::<ProcessPage>
                        } else {
                            old(self).real_memory@[i]
                        }) by {
                        if i == v as int {
                            assert((#[trigger] victims@[j as int]) as int == i);
                            assert(among_first(victims@, j + 1, i));
                        } else {
                            assert(post.real_memory@[i] == mid.real_memory@[i]);
                            if among_first(victims@, j + 1, i) {
                                let u = choose|u: int|
                                    0 <= u < j + 1 && (#[trigger] victims@[u]) as int == i;
                                assert(u < j);
                                assert(among_first(victims@, j as int, i));
                            } else {
                                assert(!among_first(victims@, j as int, i)) by {
                                    if among_first(victims@, j as int, i) {
                                        let u = choose|u: int|
                                            0 <= u < j && (#[trigger] victims@[u]) as int == i;
                                        assert(0 <= u < j + 1 && victims@[u] as int == i);
                                    }
                                }
                            }
                        }
                    }
                    let m = choose|m: int|
                        #![trigger mid.alive_processes@[m]]
                        {
                            let pre = mid.alive_processes@;
                            &&& 0 <= m < pre.len()
                            &&& pre[m].pid == mid.real_memory@[v as int]->Some_0.pid
                            &&& post.alive_processes@ == pre.update(
                                m,
                                Process {
                                    swap_outs: sat_inc(pre[m].swap_outs as int) as u16,
                                    ..pre[m]
                                },
                            )
                        };
                    assert forall|k2: int|
                        0 <= k2 < old(self).alive_processes@.len() implies stats_like(
                        old(self).alive_processes@[k2],
                        #[trigger] post.alive_processes@[k2],
                    ) by {
                        assert(stats_like(old(self).alive_processes@[k2], mid.alive_processes@[k2]));
                        if k2 != m {
                            assert(post.alive_processes@[k2] == mid.alive_processes@[k2]);
                        }
                    }
                    let s = choose|s: int|
                        0 <= s < mid.swap_space@.len() && mid.swap_space@[s] is None
                            && post.swap_space@ == mid.swap_space@.update(
                            s,
                            mid.real_memory@[v as int],
                        );
                    let o = mid.real_memory@[v as int]->Some_0.pid;
                    assert forall|q: PID|
                        #![trigger owned_frames(post.swap_space@, q)]
                        owned_frames(post.swap_space@, q) == owned_frames(mid.swap_space@, q) + (
                        if q == o {
                            1int
                        } else {
                            0int
                        }) by {
                        lemma_owned_update(mid.swap_space@, q, s, mid.real_memory@[v as int]);
                    }
                    assert forall|k2: int|
                        #![trigger post.alive_processes@[k2]]
                        0 <= k2 < old(self).alive_processes@.len() implies {
                        let q = old(self).alive_processes@[k2].pid;
                        post.alive_processes@[k2].swap_outs as int == sat_plus(
                            old(self).alive_processes@[k2].swap_outs as int,
                            owned_frames(post.swap_space@, q) - owned_frames(
                                old(self).swap_space@,
                                q,
                            ),
                        )
                    } by {
                        let q = old(self).alive_processes@[k2].pid;
                        assert(mid.alive_processes@[k2].swap_outs as int == sat_plus(
                            old(self).alive_processes@[k2].swap_outs as int,
                            owned_frames(mid.swap_space@, q) - owned_frames(
                                old(self).swap_space@,
                                q,
                            ),
                        ));
                        assert(owned_frames(post.swap_space@, q) == owned_frames(
                            mid.swap_space@,
                            q,
                        ) + (if q == o {
                            1int
                        } else {
                            0int
                        }));
                        if k2 == m {
                            assert(mid.alive_processes@[k2].pid == o);
                            assert(q == o);
                        } else {
                            assert(post.alive_processes@[k2] == mid.alive_processes@[k2]);
                            if q == o {
                                assert(mid.alive_processes@[k2].pid == mid.alive_processes@[m].pid);
                                if k2 < m {
                                    assert(mid.alive_processes@[k2].pid
                                        != mid.alive_processes@[m].pid);
                                } else {
                                    assert(mid.alive_processes@[m].pid
                                        != mid.alive_processes@[k2].pid);
                                }
                            }
                        }
                    }
                    assert forall|q: PID, idx: usize|
                        resident_in(post.swap_space@, q, idx) implies resident_in(
                        old(self).swap_space@,
                        q,
                        idx,
                    ) || resident_in(old(self).real_memory@, q, idx) by {
                        let w = choose|w: int| slot_has(post.swap_space@, w, q, idx);
                        if w == s {
                            assert(slot_has(old(self).real_memory@, v as int, q, idx));
                        } else {
                            assert(slot_has(mid.swap_space@, w, q, idx));
                        }
                    }
                }
                j = j + 1;
            }
            proof {
                // the emptied slots are exactly the policy's victims, so
                // every slot kept occupied comes after them in key order
                let t0 = old(self).real_memory@;
                assert forall|v: int, jj: int|
                    #![trigger t0[v], self.real_memory@[jj]]
                    0 <= v < t0.len() && 0 <= jj < t0.len() && t0[v] is Some
                        && self.real_memory@[v] is None && self.real_memory@[jj] is Some
                        implies (old(self).algorithm is FIFO ==> created_lex_before(t0, v, jj))
                        && (old(self).algorithm is LRU ==> accessed_lex_before(t0, v, jj)) by {
                    assert(among_first(victims@, shortfall as int, v)) by {
                        if !among_first(victims@, shortfall as int, v) {
                            assert(self.real_memory@[v] == t0[v]);
                        }
                    }
                    let u = choose|u: int|
                        0 <= u < shortfall && (#[trigger] victims@[u]) as int == v;
                    assert(!among_first(victims@, shortfall as int, jj)) by {
                        if among_first(victims@, shortfall as int, jj) {
                            assert(self.real_memory@[jj] is None);
                        }
                    }
                    assert(self.real_memory@[jj] == t0[jj]);
                    assert(!victims@.contains(jj as usize)) by {
                        if victims@.contains(jj as usize) {
                            let w = choose|w: int|
                                0 <= w < victims@.len() && (#[trigger] victims@[w]) == jj as usize;
                            assert(among_first(victims@, shortfall as int, jj));
                        }
                    }
                    if old(self).algorithm is FIFO {
                        assert(created_lex_before(t0, victims@[u] as int, jj));
                    }
                    if old(self).algorithm is LRU {
                        assert(accessed_lex_before(t0, victims@[u] as int, jj));
                    }
                }
            }
        }
        proof {
            if e >= n {
                assert(empties(self.real_memory@) >= n);
            }
        }
        let result = collect_first_n_empty(&self.real_memory, n);
        proof {
            if e >= n {
                // nothing was evicted, so the first empty slots of the
                // untouched table are the first empty slots of the old one
                assert(self.real_memory@ == old(self).real_memory@);
                assert forall|a: int, jj: int|
                    #![trigger result@[a], old(self).real_memory@[jj]]
                    0 <= a < n && 0 <= jj < result@[a] && old(self).real_memory@[jj] is None
                        implies result@.contains(jj as usize) by {
                    assert(self.real_memory@[jj] is None);
                }
            }
        }
        (result, elapsed)
    }
}

} // verus!
