//! The replacement policies: selecting which occupied real-memory slots
//! to evict, by creation time (FIFO), by last-access time (LRU), or at
//! random.  Ties on equal times are broken by the lower slot index, so
//! FIFO and LRU selection is deterministic for a fixed table.

use vstd::prelude::*;

use rand::seq::SliceRandom;

use crate::algorithm::PageReplacementAlgorithm;
use crate::system::System;
use crate::system::model::FrameTable;
use crate::system::model::accessed_lex_before;
use crate::system::model::created_lex_before;
use crate::system::model::empties;
use crate::system::model::empties_to;
use crate::system::model::fifo_min;
use crate::system::model::lemma_empties_to_bound;
use crate::system::model::lemma_empties_to_zero_iff;
use crate::system::model::lemma_trues_to_zero;
use crate::system::model::lemma_trues_update;
use crate::system::model::lemma_unmarked_occupied_exists;
use crate::system::model::lru_min;
use crate::system::model::trues;
use crate::system::model::trues_to;

verus! {

/// Relies on rand::random: a value from the thread-local generator.
/// Nothing is promised of it.
#[verifier::external_body]
fn random_usize() -> usize {
    rand::random::<usize>()
}

/// Relies on rand::seq::SliceRandom::shuffle: it reorders the slice in
/// place by swapping elements, so the contents are kept and only their
/// order changes.
#[verifier::external_body]
fn shuffle_indices(v: &mut Vec<usize>)
    ensures
        final(v)@.to_multiset() == old(v)@.to_multiset(),
{
    v.shuffle(&mut rand::thread_rng());
}

/// Occupied slot `a` comes before occupied slot `b` under the selected
/// key: creation time for FIFO, last-access time for LRU.
pub open spec fn key_lex_before(s: FrameTable, a: int, b: int, by_created: bool) -> bool {
    if by_created {
        created_lex_before(s, a, b)
    } else {
        accessed_lex_before(s, a, b)
    }
}

/// A mark vector of `n` entries, all clear.
fn make_marks(n: usize) -> (r: Vec<bool>)
    ensures
        r@.len() == n,
        forall|j: int| 0 <= j < n ==> !(#[trigger] r@[j]),
        trues(r@) == 0,
{
    let mut marks: Vec<bool> = Vec::new();
    let mut i: usize = 0;
    while i < n
        invariant
            i <= n,
            marks@.len() == i,
            forall|j: int| 0 <= j < i ==> !(#[trigger] marks@[j]),
        decreases n - i,
    {
        marks.push(false);
        i = i + 1;
    }
    proof {
        lemma_trues_to_zero(marks@, marks@.len() as int);
    }
    marks
}

/// The marked indices of a mark vector, in ascending order.
fn collect_marked(marks: &Vec<bool>) -> (r: Vec<usize>)
    ensures
        r@.len() == trues(marks@),
        forall|a: int| 0 <= a < r@.len() ==> (#[trigger] r@[a] as int) < marks@.len()
            && marks@[r@[a] as int],
        forall|a: int, b: int| 0 <= a < b < r@.len() ==> r@[a] < r@[b],
        forall|j: int| 0 <= j < marks@.len() && (#[trigger] marks@[j]) ==> r@.contains(j as usize),
{
    let mut result: Vec<usize> = Vec::new();
    let mut i: usize = 0;
    while i < marks.len()
        invariant
            i <= marks@.len(),
            result@.len() == trues_to(marks@, i as int),
            forall|a: int| 0 <= a < result@.len() ==> (#[trigger] result@[a] as int) < i
                && marks@[result@[a] as int],
            forall|a: int, b: int| 0 <= a < b < result@.len() ==> result@[a] < result@[b],
            forall|j: int| 0 <= j < i && (#[trigger] marks@[j]) ==> result@.contains(j as usize),
        decreases marks@.len() - i,
    {
        if marks[i] {
            let ghost r0 = result@;
            result.push(i);
            proof {
                assert forall|j: int| 0 <= j < i + 1 && (#[trigger] marks@[j]) implies
                    result@.contains(j as usize) by {
                    if j < i {
                        let w = choose|w: int| 0 <= w < r0.len() && r0[w] == j as usize;
                        assert(result@[w] == j as usize);
                    } else {
                        assert(result@[r0.len() as int] == i);
                    }
                }
            }
        }
        i = i + 1;
    }
    result
}

impl System {
    /// Marks the `n` occupied slots that come first under the selected
    /// key, oldest first, ties to the lower index.
    fn mark_n_first(&self, n: usize, by_created: bool) -> (marks: Vec<bool>)
        requires
            n + empties(self.real_memory@) <= self.real_memory@.len(),
        ensures
            marks@.len() == self.real_memory@.len(),
            trues(marks@) == n,
            forall|j: int| 0 <= j < marks@.len() && (#[trigger] marks@[j])
                ==> self.real_memory@[j] is Some,
            forall|a: int, b: int|
                0 <= a < marks@.len() && 0 <= b < marks@.len() && marks@[a] && !marks@[b]
                    && self.real_memory@[b] is Some ==> key_lex_before(
                    self.real_memory@,
                    a,
                    b,
                    by_created,
                ),
    {
        let ghost t = self.real_memory@;
        let len = self.real_memory.len();
        let mut marks = make_marks(len);
        let mut count: usize = 0;
        while count < n
            invariant
                count <= n,
                t == self.real_memory@,
                n + empties(t) <= len,
                len == t.len(),
                marks@.len() == len,
                trues(marks@) == count,
                forall|j: int| 0 <= j < len && (#[trigger] marks@[j]) ==> t[j] is Some,
                forall|a: int, b: int|
                    0 <= a < len && 0 <= b < len && marks@[a] && !marks@[b] && t[b] is Some
                        ==> key_lex_before(t, a, b, by_created),
            decreases n - count,
        {
            proof {
                lemma_unmarked_occupied_exists(t, marks@, len as int);
            }
            let mut found: bool = false;
            let mut best: usize = 0;
            let mut i: usize = 0;
            while i < len
                invariant
                    i <= len,
                    t == self.real_memory@,
                    len == t.len(),
                    marks@.len() == len,
                    found ==> best < i && t[best as int] is Some && !marks@[best as int],
                    found ==> forall|j: int|
                        0 <= j < i && j != best && (#[trigger] t[j]) is Some && !marks@[j]
                            ==> key_lex_before(t, best as int, j, by_created),
                    !found ==> forall|j: int|
                        0 <= j < i ==> !((#[trigger] t[j]) is Some && !marks@[j]),
                decreases len - i,
            {
                if !marks[i] {
                    match &self.real_memory[i] {
                        Some(page) => {
                            let key: u32 = if by_created {
                                page.created.0
                            } else {
                                page.accessed.0
                            };
                            if !found {
                                found = true;
                                best = i;
                            } else {
                                let best_key: u32 = match &self.real_memory[best] {
                                    Some(q) => if by_created {
                                        q.created.0
                                    } else {
                                        q.accessed.0
                                    },
                                    None => unreached(),
                                };
                                if key < best_key {
                                    proof {
                                        assert forall|j: int|
                                            0 <= j < i + 1 && j != i && (#[trigger] t[j]) is Some
                                                && !marks@[j] implies key_lex_before(
                                            t,
                                            i as int,
                                            j,
                                            by_created,
                                        ) by {
                                            if j != best {
                                                assert(key_lex_before(
                                                    t,
                                                    best as int,
                                                    j,
                                                    by_created,
                                                ));
                                            }
                                        }
                                    }
                                    best = i;
                                } else {
                                    proof {
                                        assert(key_lex_before(t, best as int, i as int, by_created));
                                    }
                                }
                            }
                        },
                        None => {},
                    }
                }
                i = i + 1;
            }
            if !found {
                proof {
                    let w = choose|w: int| 0 <= w < len && (#[trigger] t[w]) is Some && !marks@[w];
                    assert(false);
                }
                return unreached();
            }
            let ghost m0 = marks@;
            marks[best] = true;
            proof {
                lemma_trues_update(m0, best as int, true);
                assert forall|a: int, b: int|
                    0 <= a < len && 0 <= b < len && marks@[a] && !marks@[b] && t[b] is Some
                        implies key_lex_before(t, a, b, by_created) by {
                    if a != best {
                        assert(m0[a] && !m0[b]);
                    }
                }
            }
            count = count + 1;
        }
        marks
    }

    /// The real-memory slot FIFO evicts: the one whose page was created
    /// first, ties broken by the lower slot index.  Defined only when
    /// every slot is occupied, which is the only situation in which the
    /// system asks for a victim.
    pub fn fifo_find_page_to_replace(&self) -> (r: usize)
        requires
            self.real_memory@.len() >= 1,
            empties(self.real_memory@) == 0,
        ensures
            fifo_min(self.real_memory@, r as int),
    {
        proof {
            lemma_empties_to_zero_iff(self.real_memory@, self.real_memory@.len() as int);
        }
        let ghost t = self.real_memory@;
        let mut best: usize = 0;
        let mut i: usize = 1;
        while i < self.real_memory.len()
            invariant
                t == self.real_memory@,
                1 <= i <= t.len(),
                best < i,
                forall|j: int| 0 <= j < t.len() ==> (#[trigger] t[j]) is Some,
                forall|j: int| 0 <= j < i && j != best ==> created_lex_before(t, best as int, j),
            decreases t.len() - i,
        {
            let best_key: u32 = match &self.real_memory[best] {
                Some(p) => p.created.0,
                None => unreached(),
            };
            let key: u32 = match &self.real_memory[i] {
                Some(p) => p.created.0,
                None => unreached(),
            };
            if key < best_key {
                proof {
                    assert forall|j: int| 0 <= j < i + 1 && j != i implies created_lex_before(
                        t,
                        i as int,
                        j,
                    ) by {
                        if j != best {
                            assert(created_lex_before(t, best as int, j));
                        }
                    }
                }
                best = i;
            }
            i = i + 1;
        }
        best
    }

    /// The real-memory slot LRU evicts: the one whose page was accessed
    /// longest ago, ties broken by the lower slot index.  Defined only
    /// when every slot is occupied.
    pub fn lru_find_page_to_replace(&self) -> (r: usize)
        requires
            self.real_memory@.len() >= 1,
            empties(self.real_memory@) == 0,
        ensures
            lru_min(self.real_memory@, r as int),
    {
        proof {
            lemma_empties_to_zero_iff(self.real_memory@, self.real_memory@.len() as int);
        }
        let ghost t = self.real_memory@;
        let mut best: usize = 0;
        let mut i: usize = 1;
        while i < self.real_memory.len()
            invariant
                t == self.real_memory@,
                1 <= i <= t.len(),
                best < i,
                forall|j: int| 0 <= j < t.len() ==> (#[trigger] t[j]) is Some,
                forall|j: int| 0 <= j < i && j != best ==> accessed_lex_before(t, best as int, j),
            decreases t.len() - i,
        {
            let best_key: u32 = match &self.real_memory[best] {
                Some(p) => p.accessed.0,
                None => unreached(),
            };
            let key: u32 = match &self.real_memory[i] {
                Some(p) => p.accessed.0,
                None => unreached(),
            };
            if key < best_key {
                proof {
                    assert forall|j: int| 0 <= j < i + 1 && j != i implies accessed_lex_before(
                        t,
                        i as int,
                        j,
                    ) by {
                        if j != best {
                            assert(accessed_lex_before(t, best as int, j));
                        }
                    }
                }
                best = i;
            }
            i = i + 1;
        }
        best
    }

    /// A random occupied slot, drawn from the thread-local generator.
    /// Defined only when every slot is occupied.
    pub fn rand_find_page_to_replace(&self) -> (r: usize)
        requires
            self.real_memory@.len() >= 1,
            empties(self.real_memory@) == 0,
        ensures
            (r as int) < self.real_memory@.len(),
            self.real_memory@[r as int] is Some,
    {
        proof {
            lemma_empties_to_zero_iff(self.real_memory@, self.real_memory@.len() as int);
        }
        let x = random_usize();
        x % self.real_memory.len()
    }

    /// The slot the configured policy evicts, when all of real memory is
    /// occupied.
    pub fn find_page_to_replace(&self) -> (r: usize)
        requires
            self.real_memory@.len() >= 1,
            empties(self.real_memory@) == 0,
        ensures
            (r as int) < self.real_memory@.len(),
            self.real_memory@[r as int] is Some,
            self.algorithm is FIFO ==> fifo_min(self.real_memory@, r as int),
            self.algorithm is LRU ==> lru_min(self.real_memory@, r as int),
    {
        match self.algorithm {
            PageReplacementAlgorithm::FIFO => self.fifo_find_page_to_replace(),
            PageReplacementAlgorithm::LRU => self.lru_find_page_to_replace(),
            PageReplacementAlgorithm::Random => self.rand_find_page_to_replace(),
        }
    }

    /// The `n` occupied slots whose pages were created first, in
    /// ascending slot order: what FIFO evicts for an allocation that
    /// needs `n` frames beyond the empty ones.
    pub fn fifo_find_n_pages_to_replace(&self, n: usize) -> (r: Vec<usize>)
        requires
            n + empties(self.real_memory@) <= self.real_memory@.len(),
        ensures
            r@.len() == n,
            forall|a: int, b: int| 0 <= a < b < n ==> r@[a] < r@[b],
            forall|a: int| 0 <= a < n ==> (#[trigger] r@[a] as int) < self.real_memory@.len()
                && self.real_memory@[r@[a] as int] is Some,
            forall|a: int, j: int|
                #![trigger r@[a], self.real_memory@[j]]
                0 <= a < n && 0 <= j < self.real_memory@.len() && self.real_memory@[j] is Some
                    && !r@.contains(j as usize) ==> created_lex_before(
                    self.real_memory@,
                    r@[a] as int,
                    j,
                ),
    {
        let marks = self.mark_n_first(n, true);
        let r = collect_marked(&marks);
        proof {
            assert forall|a: int, j: int|
                #![trigger r@[a], self.real_memory@[j]]
                0 <= a < n && 0 <= j < self.real_memory@.len() && self.real_memory@[j] is Some
                    && !r@.contains(j as usize) implies created_lex_before(
                self.real_memory@,
                r@[a] as int,
                j,
            ) by {
                assert(marks@[r@[a] as int]);
                assert(!marks@[j]);
                assert(key_lex_before(self.real_memory@, r@[a] as int, j, true));
            }
        }
        r
    }

    /// The `n` occupied slots whose pages were accessed longest ago, in
    /// ascending slot order: what LRU evicts for an allocation that needs
    /// `n` frames beyond the empty ones.
    pub fn lru_find_n_pages_to_replace(&self, n: usize) -> (r: Vec<usize>)
        requires
            n + empties(self.real_memory@) <= self.real_memory@.len(),
        ensures
            r@.len() == n,
            forall|a: int, b: int| 0 <= a < b < n ==> r@[a] < r@[b],
            forall|a: int| 0 <= a < n ==> (#[trigger] r@[a] as int) < self.real_memory@.len()
                && self.real_memory@[r@[a] as int] is Some,
            forall|a: int, j: int|
                #![trigger r@[a], self.real_memory@[j]]
                0 <= a < n && 0 <= j < self.real_memory@.len() && self.real_memory@[j] is Some
                    && !r@.contains(j as usize) ==> accessed_lex_before(
                    self.real_memory@,
                    r@[a] as int,
                    j,
                ),
    {
        let marks = self.mark_n_first(n, false);
        let r = collect_marked(&marks);
        proof {
            assert forall|a: int, j: int|
                #![trigger r@[a], self.real_memory@[j]]
                0 <= a < n && 0 <= j < self.real_memory@.len() && self.real_memory@[j] is Some
                    && !r@.contains(j as usize) implies accessed_lex_before(
                self.real_memory@,
                r@[a] as int,
                j,
            ) by {
                assert(marks@[r@[a] as int]);
                assert(!marks@[j]);
                assert(key_lex_before(self.real_memory@, r@[a] as int, j, false));
            }
        }
        r
    }

    /// `n` occupied slots drawn at random without replacement, in
    /// ascending slot order.
    pub fn rand_find_n_pages_to_replace(&self, n: usize) -> (r: Vec<usize>)
        requires
            n + empties(self.real_memory@) <= self.real_memory@.len(),
        ensures
            r@.len() == n,
            forall|a: int, b: int| 0 <= a < b < n ==> r@[a] < r@[b],
            forall|a: int| 0 <= a < n ==> (#[trigger] r@[a] as int) < self.real_memory@.len()
                && self.real_memory@[r@[a] as int] is Some,
    {
        let ghost t = self.real_memory@;
        let len = self.real_memory.len();
        let mut candidates: Vec<usize> = Vec::new();
        let mut i: usize = 0;
        while i < len
            invariant
                i <= len,
                t == self.real_memory@,
                len == t.len(),
                candidates@.len() == i - empties_to(t, i as int),
                forall|a: int| 0 <= a < candidates@.len() ==> (#[trigger] candidates@[a] as int) < i
                    && t[candidates@[a] as int] is Some,
                forall|a: int, b: int| 0 <= a < b < candidates@.len() ==> candidates@[a]
                    < candidates@[b],
            decreases len - i,
        {
            proof {
                lemma_empties_to_bound(t, i as int);
            }
            match &self.real_memory[i] {
                Some(_) => {
                    candidates.push(i);
                },
                None => {},
            }
            i = i + 1;
        }
        let ghost pre = candidates@;
        proof {
            assert(pre.no_duplicates()) by {
                assert forall|a: int, b: int|
                    0 <= a < pre.len() && 0 <= b < pre.len() && a != b implies pre[a] != pre[b] by {
                    if a < b {
                        assert(pre[a] < pre[b]);
                    } else {
                        assert(pre[b] < pre[a]);
                    }
                }
            }
        }
        shuffle_indices(&mut candidates);
        proof {
            broadcast use vstd::seq_lib::group_to_multiset_ensures;

            let post = candidates@;
            pre.lemma_multiset_has_no_duplicates();
            post.lemma_multiset_has_no_duplicates_conv();
            assert(post.len() == post.to_multiset().len());
            assert(pre.len() == pre.to_multiset().len());
            assert forall|a: int| 0 <= a < post.len() implies (#[trigger] post[a] as int) < len
                && t[post[a] as int] is Some by {
                assert(post.contains(post[a]));
                assert(post.to_multiset().count(post[a]) > 0);
                assert(pre.to_multiset().count(post[a]) > 0);
                assert(pre.contains(post[a]));
                let w = choose|w: int| 0 <= w < pre.len() && pre[w] == post[a];
            }
        }
        let ghost shuffled = candidates@;
        let mut marks = make_marks(len);
        let mut chosen: usize = 0;
        while chosen < n
            invariant
                chosen <= n,
                t == self.real_memory@,
                len == t.len(),
                marks@.len() == len,
                candidates@ == shuffled,
                candidates@.len() == len - empties(t),
                n + empties(t) <= len,
                shuffled.no_duplicates(),
                forall|a: int| 0 <= a < shuffled.len() ==> (#[trigger] shuffled[a] as int) < len
                    && t[shuffled[a] as int] is Some,
                trues(marks@) == chosen,
                forall|j: int|
                    0 <= j < len ==> ((#[trigger] marks@[j]) <==> exists|u: int|
                        0 <= u < chosen && shuffled[u] == j as usize),
            decreases n - chosen,
        {
            let v = candidates[chosen];
            proof {
                assert(!marks@[v as int]) by {
                    if exists|u: int| 0 <= u < chosen && shuffled[u] == v as usize {
                        let u = choose|u: int| 0 <= u < chosen && shuffled[u] == v as usize;
                        assert(shuffled[u] == shuffled[chosen as int]);
                    }
                }
            }
            let ghost m0 = marks@;
            marks[v] = true;
            proof {
                lemma_trues_update(m0, v as int, true);
                assert forall|j: int|
                    0 <= j < len implies ((#[trigger] marks@[j]) <==> exists|u: int|
                    0 <= u < chosen + 1 && shuffled[u] == j as usize) by {
                    if marks@[j] {
                        if j == v as int {
                            assert(shuffled[chosen as int] == j as usize);
                        } else {
                            let u = choose|u: int| 0 <= u < chosen && shuffled[u] == j as usize;
                            assert(0 <= u < chosen + 1 && shuffled[u] == j as usize);
                        }
                    } else {
                        if exists|u: int| 0 <= u < chosen + 1 && shuffled[u] == j as usize {
                            let u = choose|u: int|
                                0 <= u < chosen + 1 && shuffled[u] == j as usize;
                            assert(u == chosen || m0[j]);
                        }
                    }
                }
            }
            chosen = chosen + 1;
        }
        let r = collect_marked(&marks);
        proof {
            assert forall|a: int| 0 <= a < n implies (#[trigger] r@[a] as int) < len
                && t[r@[a] as int] is Some by {
                assert(marks@[r@[a] as int]);
            }
        }
        r
    }

    /// The slots the configured policy evicts for an allocation that
    /// needs `n` frames beyond the empty ones, in ascending slot order.
    pub fn find_n_pages_to_replace(&self, n: usize) -> (r: Vec<usize>)
        requires
            n + empties(self.real_memory@) <= self.real_memory@.len(),
        ensures
            r@.len() == n,
            forall|a: int, b: int| 0 <= a < b < n ==> r@[a] < r@[b],
            forall|a: int| 0 <= a < n ==> (#[trigger] r@[a] as int) < self.real_memory@.len()
                && self.real_memory@[r@[a] as int] is Some,
            self.algorithm is FIFO ==> forall|a: int, j: int|
                #![trigger r@[a], self.real_memory@[j]]
                0 <= a < n && 0 <= j < self.real_memory@.len() && self.real_memory@[j] is Some
                    && !r@.contains(j as usize) ==> created_lex_before(
                    self.real_memory@,
                    r@[a] as int,
                    j,
                ),
            self.algorithm is LRU ==> forall|a: int, j: int|
                #![trigger r@[a], self.real_memory@[j]]
                0 <= a < n && 0 <= j < self.real_memory@.len() && self.real_memory@[j] is Some
                    && !r@.contains(j as usize) ==> accessed_lex_before(
                    self.real_memory@,
                    r@[a] as int,
                    j,
                ),
    {
        match self.algorithm {
            PageReplacementAlgorithm::FIFO => self.fifo_find_n_pages_to_replace(n),
            PageReplacementAlgorithm::LRU => self.lru_find_n_pages_to_replace(n),
            PageReplacementAlgorithm::Random => self.rand_find_n_pages_to_replace(n),
        }
    }
}

} // verus!
