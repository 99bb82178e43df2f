//! The mathematical model of the memory hierarchy: predicates and
//! counting functions over frame tables and over the process registry,
//! together with the induction lemmas the system's proofs lean on.

use vstd::prelude::*;

use crate::process::PID;
use crate::process::Process;
use crate::process::ProcessPage;
use crate::process::sat_inc;

verus! {

/// A frame table is a fixed-length sequence of optional page records.
pub type FrameTable = Seq<Option<ProcessPage>>;

/// Slot `i` of table `s` holds page `index` of process `pid`.
pub open spec fn slot_has(s: FrameTable, i: int, pid: PID, index: usize) -> bool {
    &&& 0 <= i < s.len()
    &&& s[i] is Some
    &&& s[i]->Some_0.pid == pid
    &&& s[i]->Some_0.index == index
}

/// Page `index` of process `pid` occupies some slot of table `s`.
pub open spec fn resident_in(s: FrameTable, pid: PID, index: usize) -> bool {
    exists|i: int| slot_has(s, i, pid, index)
}

/// No two occupied slots of one table hold the same page of the same
/// process.
pub open spec fn distinct_within(s: FrameTable) -> bool {
    forall|i: int, j: int|
        0 <= i < j < s.len() && (#[trigger] s[i]) is Some && (#[trigger] s[j]) is Some
            ==> (s[i]->Some_0.pid, s[i]->Some_0.index) != (s[j]->Some_0.pid, s[j]->Some_0.index)
}

/// No occupied slot of table `a` holds the same page as an occupied slot
/// of table `b`.
pub open spec fn distinct_across(a: FrameTable, b: FrameTable) -> bool {
    forall|i: int, j: int|
        0 <= i < a.len() && 0 <= j < b.len() && (#[trigger] a[i]) is Some && (#[trigger] b[j]) is Some
            ==> (a[i]->Some_0.pid, a[i]->Some_0.index) != (b[j]->Some_0.pid, b[j]->Some_0.index)
}

/// How many of the first `n` slots of `s` are empty.
pub open spec fn empties_to(s: FrameTable, n: int) -> int
    decreases n,
{
    if n <= 0 {
        0
    } else {
        empties_to(s, n - 1) + (if s[n - 1] is None {
            1int
        } else {
            0int
        })
    }
}

/// How many slots of `s` are empty.
pub open spec fn empties(s: FrameTable) -> int {
    empties_to(s, s.len() as int)
}

/// How many of the first `n` slots of `s` hold a page of process `pid`.
pub open spec fn owned_to(s: FrameTable, pid: PID, n: int) -> int
    decreases n,
{
    if n <= 0 {
        0
    } else {
        owned_to(s, pid, n - 1) + (if s[n - 1] is Some && s[n - 1]->Some_0.pid == pid {
            1int
        } else {
            0int
        })
    }
}

/// How many slots of `s` hold a page of process `pid`.
pub open spec fn owned_frames(s: FrameTable, pid: PID) -> int {
    owned_to(s, pid, s.len() as int)
}

pub proof fn lemma_empties_to_bound(s: FrameTable, n: int)
    requires
        n >= 0,
    ensures
        0 <= empties_to(s, n) <= n,
    decreases n,
{
    if n > 0 {
        lemma_empties_to_bound(s, n - 1);
    }
}

pub proof fn lemma_empties_to_agree(s1: FrameTable, s2: FrameTable, n: int)
    requires
        forall|j: int| 0 <= j < n ==> s1[j] == s2[j],
    ensures
        empties_to(s1, n) == empties_to(s2, n),
    decreases n,
{
    if n > 0 {
        lemma_empties_to_agree(s1, s2, n - 1);
    }
}

pub proof fn lemma_empties_to_update(s: FrameTable, i: int, v: Option<ProcessPage>, n: int)
    requires
        0 <= i < s.len(),
        n <= s.len(),
    ensures
        n <= i ==> empties_to(s.update(i, v), n) == empties_to(s, n),
        i < n ==> empties_to(s.update(i, v), n) == empties_to(s, n) - (if s[i] is None {
            1int
        } else {
            0int
        }) + (if v is None {
            1int
        } else {
            0int
        }),
    decreases n,
{
    if n > 0 {
        lemma_empties_to_update(s, i, v, n - 1);
    }
}

/// Empty-slot count of a table after one slot is overwritten.
pub proof fn lemma_empties_update(s: FrameTable, i: int, v: Option<ProcessPage>)
    requires
        0 <= i < s.len(),
    ensures
        empties(s.update(i, v)) == empties(s) - (if s[i] is None {
            1int
        } else {
            0int
        }) + (if v is None {
            1int
        } else {
            0int
        }),
{
    lemma_empties_to_update(s, i, v, s.len() as int);
}

pub proof fn lemma_empties_push(s: FrameTable, v: Option<ProcessPage>)
    ensures
        empties(s.push(v)) == empties(s) + (if v is None {
            1int
        } else {
            0int
        }),
{
    lemma_empties_to_agree(s.push(v), s, s.len() as int);
}

/// A prefix counts no empty slot exactly when every slot in it is
/// occupied.
pub proof fn lemma_empties_to_zero_iff(s: FrameTable, n: int)
    requires
        0 <= n,
    ensures
        (empties_to(s, n) == 0) <==> (forall|j: int| 0 <= j < n ==> (#[trigger] s[j]) is Some),
    decreases n,
{
    if n > 0 {
        lemma_empties_to_zero_iff(s, n - 1);
        lemma_empties_to_bound(s, n - 1);
    }
}

pub proof fn lemma_owned_to_bound(s: FrameTable, pid: PID, n: int)
    requires
        n >= 0,
    ensures
        0 <= owned_to(s, pid, n) <= n,
    decreases n,
{
    if n > 0 {
        lemma_owned_to_bound(s, pid, n - 1);
    }
}

pub proof fn lemma_owned_to_agree(s1: FrameTable, s2: FrameTable, pid: PID, n: int)
    requires
        forall|j: int| 0 <= j < n ==> s1[j] == s2[j],
    ensures
        owned_to(s1, pid, n) == owned_to(s2, pid, n),
    decreases n,
{
    if n > 0 {
        lemma_owned_to_agree(s1, s2, pid, n - 1);
    }
}

pub proof fn lemma_owned_to_update(s: FrameTable, pid: PID, i: int, v: Option<ProcessPage>, n: int)
    requires
        0 <= i < s.len(),
        n <= s.len(),
    ensures
        n <= i ==> owned_to(s.update(i, v), pid, n) == owned_to(s, pid, n),
        i < n ==> owned_to(s.update(i, v), pid, n) == owned_to(s, pid, n) - (if s[i] is Some
            && s[i]->Some_0.pid == pid {
            1int
        } else {
            0int
        }) + (if v is Some && v->Some_0.pid == pid {
            1int
        } else {
            0int
        }),
    decreases n,
{
    if n > 0 {
        lemma_owned_to_update(s, pid, i, v, n - 1);
    }
}

/// Owned-slot count of a table after one slot is overwritten.
pub proof fn lemma_owned_update(s: FrameTable, pid: PID, i: int, v: Option<ProcessPage>)
    requires
        0 <= i < s.len(),
    ensures
        owned_frames(s.update(i, v), pid) == owned_frames(s, pid) - (if s[i] is Some
            && s[i]->Some_0.pid == pid {
            1int
        } else {
            0int
        }) + (if v is Some && v->Some_0.pid == pid {
            1int
        } else {
            0int
        }),
{
    lemma_owned_to_update(s, pid, i, v, s.len() as int);
}

/// A prefix counts no slot of `pid` exactly when no slot in it holds a
/// page of `pid`.
pub proof fn lemma_owned_to_zero_iff(s: FrameTable, pid: PID, n: int)
    requires
        0 <= n,
    ensures
        (owned_to(s, pid, n) == 0) <==> (forall|j: int|
            0 <= j < n ==> !((#[trigger] s[j]) is Some && s[j]->Some_0.pid == pid)),
    decreases n,
{
    if n > 0 {
        lemma_owned_to_zero_iff(s, pid, n - 1);
        lemma_owned_to_bound(s, pid, n - 1);
    }
}

/// Table `s` with every slot that holds a page of process `pid`
/// emptied, and every other slot untouched.
pub open spec fn clear_pid(s: FrameTable, pid: PID) -> FrameTable {
    Seq::new(
        s.len(),
        |i: int|
            if s[i] is Some && s[i]->Some_0.pid == pid {
                None
            } else {
                s[i]
            },
    )
}

/// The indices of the first `n` slots of `s` that hold a page of
/// process `pid`, in ascending order.
pub open spec fn owned_indices_to(s: FrameTable, pid: PID, n: int) -> Seq<int>
    decreases n,
{
    if n <= 0 {
        Seq::empty()
    } else if s[n - 1] is Some && s[n - 1]->Some_0.pid == pid {
        owned_indices_to(s, pid, n - 1).push(n - 1)
    } else {
        owned_indices_to(s, pid, n - 1)
    }
}

/// The indices of the slots of `s` that hold a page of process `pid`,
/// in ascending order.
pub open spec fn owned_indices(s: FrameTable, pid: PID) -> Seq<int> {
    owned_indices_to(s, pid, s.len() as int)
}

/// Occupied slot `a` of table `s` comes before occupied slot `b` in
/// creation order: it was created earlier, or at the same instant but at
/// a lower slot index.  The index tie-break makes FIFO selection
/// deterministic.
pub open spec fn created_lex_before(s: FrameTable, a: int, b: int) -> bool {
    ||| s[a]->Some_0.created.0 < s[b]->Some_0.created.0
    ||| (s[a]->Some_0.created.0 == s[b]->Some_0.created.0 && a < b)
}

/// Occupied slot `a` of table `s` comes before occupied slot `b` in
/// last-access order: it was last touched earlier, or at the same
/// instant but at a lower slot index.
pub open spec fn accessed_lex_before(s: FrameTable, a: int, b: int) -> bool {
    ||| s[a]->Some_0.accessed.0 < s[b]->Some_0.accessed.0
    ||| (s[a]->Some_0.accessed.0 == s[b]->Some_0.accessed.0 && a < b)
}

/// Slot `r` holds the oldest page of table `s`: no occupied slot comes
/// before it in creation order.
pub open spec fn fifo_min(s: FrameTable, r: int) -> bool {
    &&& 0 <= r < s.len()
    &&& s[r] is Some
    &&& forall|j: int|
        0 <= j < s.len() && j != r && (#[trigger] s[j]) is Some ==> created_lex_before(s, r, j)
}

/// Slot `r` holds the least recently used page of table `s`: no occupied
/// slot comes before it in last-access order.
pub open spec fn lru_min(s: FrameTable, r: int) -> bool {
    &&& 0 <= r < s.len()
    &&& s[r] is Some
    &&& forall|j: int|
        0 <= j < s.len() && j != r && (#[trigger] s[j]) is Some ==> accessed_lex_before(s, r, j)
}

/// How many of the first `n` entries of a mark vector are set.
pub open spec fn trues_to(s: Seq<bool>, n: int) -> int
    decreases n,
{
    if n <= 0 {
        0
    } else {
        trues_to(s, n - 1) + (if s[n - 1] {
            1int
        } else {
            0int
        })
    }
}

/// How many entries of a mark vector are set.
pub open spec fn trues(s: Seq<bool>) -> int {
    trues_to(s, s.len() as int)
}

pub proof fn lemma_trues_to_bound(s: Seq<bool>, n: int)
    requires
        n >= 0,
    ensures
        0 <= trues_to(s, n) <= n,
    decreases n,
{
    if n > 0 {
        lemma_trues_to_bound(s, n - 1);
    }
}

pub proof fn lemma_trues_to_update(s: Seq<bool>, i: int, v: bool, n: int)
    requires
        0 <= i < s.len(),
        n <= s.len(),
    ensures
        n <= i ==> trues_to(s.update(i, v), n) == trues_to(s, n),
        i < n ==> trues_to(s.update(i, v), n) == trues_to(s, n) - (if s[i] {
            1int
        } else {
            0int
        }) + (if v {
            1int
        } else {
            0int
        }),
    decreases n,
{
    if n > 0 {
        lemma_trues_to_update(s, i, v, n - 1);
    }
}

pub proof fn lemma_trues_to_zero(s: Seq<bool>, n: int)
    requires
        forall|j: int| 0 <= j < n ==> !(#[trigger] s[j]),
    ensures
        trues_to(s, n) == 0,
    decreases n,
{
    if n > 0 {
        lemma_trues_to_zero(s, n - 1);
    }
}

/// Mark count of a mark vector after one entry is overwritten.
pub proof fn lemma_trues_update(s: Seq<bool>, i: int, v: bool)
    requires
        0 <= i < s.len(),
    ensures
        trues(s.update(i, v)) == trues(s) - (if s[i] {
            1int
        } else {
            0int
        }) + (if v {
            1int
        } else {
            0int
        }),
{
    lemma_trues_to_update(s, i, v, s.len() as int);
}

/// While fewer occupied slots are marked than exist, an occupied
/// unmarked slot remains.
pub proof fn lemma_unmarked_occupied_exists(s: FrameTable, marks: Seq<bool>, n: int)
    requires
        0 <= n <= s.len(),
        n <= marks.len(),
        forall|i: int| 0 <= i < n && (#[trigger] marks[i]) ==> s[i] is Some,
        trues_to(marks, n) < n - empties_to(s, n),
    ensures
        exists|i: int| 0 <= i < n && (#[trigger] s[i]) is Some && !marks[i],
    decreases n,
{
    if n > 0 {
        if s[n - 1] is Some && !marks[n - 1] {
        } else {
            lemma_unmarked_occupied_exists(s, marks, n - 1);
        }
    }
}

/// The total turnaround, in milliseconds, of the first `n` finished
/// processes.
pub open spec fn turnaround_sum_to(ps: Seq<Process>, n: int) -> int
    decreases n,
{
    if n <= 0 {
        0
    } else {
        turnaround_sum_to(ps, n - 1) + (ps[n - 1].life_end.0 - ps[n - 1].life_start.0)
    }
}

/// The total turnaround, in milliseconds, of a list of finished
/// processes.
pub open spec fn turnaround_sum(ps: Seq<Process>) -> int {
    turnaround_sum_to(ps, ps.len() as int)
}

pub proof fn lemma_turnaround_sum_to_bound(ps: Seq<Process>, n: int)
    requires
        0 <= n,
        forall|k: int| 0 <= k < n ==> (#[trigger] ps[k]).life_start.0 <= ps[k].life_end.0,
    ensures
        0 <= turnaround_sum_to(ps, n) <= n * (u32::MAX as int),
    decreases n,
{
    if n > 0 {
        lemma_turnaround_sum_to_bound(ps, n - 1);
        assert((n - 1) * (u32::MAX as int) + (u32::MAX as int) == n * (u32::MAX as int))
            by (nonlinear_arith);
    }
}

/// Registry entry `b` is entry `a` with the selected counters advanced
/// by one each, saturating; identity, size and lifetime are untouched.
pub open spec fn bumped(a: Process, b: Process, fault: bool, swap_in: bool, swap_out: bool) -> bool {
    &&& b.pid == a.pid
    &&& b.size == a.size
    &&& b.life_start == a.life_start
    &&& b.life_end == a.life_end
    &&& b.page_faults as int == (if fault {
        sat_inc(a.page_faults as int)
    } else {
        a.page_faults as int
    })
    &&& b.swap_ins as int == (if swap_in {
        sat_inc(a.swap_ins as int)
    } else {
        a.swap_ins as int
    })
    &&& b.swap_outs as int == (if swap_out {
        sat_inc(a.swap_outs as int)
    } else {
        a.swap_outs as int
    })
}

/// A 16-bit counter advanced `d` times, each step saturating at the
/// cap: the plain sum until the cap, the cap from then on.
pub open spec fn sat_plus(a: int, d: int) -> int {
    if a + d <= u16::MAX {
        a + d
    } else {
        u16::MAX as int
    }
}

/// Registry entry `b` is entry `a` with at most its swap-out counter
/// advanced: identity, size, lifetime and the other counters agree.
pub open spec fn stats_like(a: Process, b: Process) -> bool {
    &&& b.pid == a.pid
    &&& b.size == a.size
    &&& b.life_start == a.life_start
    &&& b.life_end == a.life_end
    &&& b.swap_ins == a.swap_ins
    &&& b.page_faults == a.page_faults
    &&& b.swap_outs >= a.swap_outs
}

/// The registry never lists one pid twice.
pub open spec fn pids_distinct(ps: Seq<Process>) -> bool {
    forall|i: int, j: int|
        0 <= i < j < ps.len() ==> (#[trigger] ps[i]).pid != (#[trigger] ps[j]).pid
}

/// The entry of process `pid` in registry `ps`, if one exists.
pub open spec fn lookup(ps: Seq<Process>, pid: PID) -> Option<Process>
    decreases ps.len(),
{
    if ps.len() == 0 {
        None
    } else if ps[0].pid == pid {
        Some(ps[0])
    } else {
        lookup(ps.drop_first(), pid)
    }
}

/// Whether registry `ps` lists process `pid`.
pub open spec fn has_pid(ps: Seq<Process>, pid: PID) -> bool {
    lookup(ps, pid) is Some
}

/// What a successful or failed lookup says about the registry itself.
pub proof fn lemma_lookup_props(ps: Seq<Process>, pid: PID)
    ensures
        lookup(ps, pid) is Some ==> exists|i: int|
            0 <= i < ps.len() && (#[trigger] ps[i]).pid == pid && lookup(ps, pid) == Some(ps[i]),
        lookup(ps, pid) is None ==> forall|i: int|
            0 <= i < ps.len() ==> (#[trigger] ps[i]).pid != pid,
        lookup(ps, pid) is Some ==> lookup(ps, pid)->Some_0.pid == pid,
    decreases ps.len(),
{
    if ps.len() > 0 && ps[0].pid != pid {
        lemma_lookup_props(ps.drop_first(), pid);
        let rest = ps.drop_first();
        if lookup(ps, pid) is Some {
            let i = choose|i: int|
                0 <= i < rest.len() && (#[trigger] rest[i]).pid == pid && lookup(rest, pid)
                    == Some(rest[i]);
            assert(ps[i + 1].pid == pid && lookup(ps, pid) == Some(ps[i + 1]));
        } else {
            assert forall|i: int| 0 <= i < ps.len() implies (#[trigger] ps[i]).pid != pid by {
                if i > 0 {
                    assert(ps[i] == rest[i - 1]);
                }
            }
        }
    }
}

/// In a registry with no pid absent, a registry position finds itself.
pub proof fn lemma_lookup_at(ps: Seq<Process>, k: int)
    requires
        pids_distinct(ps),
        0 <= k < ps.len(),
    ensures
        lookup(ps, ps[k].pid) == Some(ps[k]),
    decreases ps.len(),
{
    if k > 0 {
        assert(ps[0].pid != ps[k].pid);
        let rest = ps.drop_first();
        assert(pids_distinct(rest)) by {
            assert(forall|i: int, j: int|
                0 <= i < j < rest.len() ==> rest[i] == ps[i + 1] && rest[j] == ps[j + 1]);
        }
        lemma_lookup_at(rest, k - 1);
    }
}

/// Looking up a pid that no entry carries fails.
pub proof fn lemma_lookup_absent(ps: Seq<Process>, pid: PID)
    requires
        forall|i: int| 0 <= i < ps.len() ==> (#[trigger] ps[i]).pid != pid,
    ensures
        lookup(ps, pid) is None,
    decreases ps.len(),
{
    if ps.len() > 0 {
        let rest = ps.drop_first();
        assert(forall|i: int| 0 <= i < rest.len() ==> (#[trigger] rest[i]).pid != pid) by {
            assert(forall|i: int| 0 <= i < rest.len() ==> rest[i] == ps[i + 1]);
        }
        lemma_lookup_absent(rest, pid);
    }
}

/// How every lookup reads after one entry is replaced by another entry
/// of the same pid.
pub proof fn lemma_lookup_update(ps: Seq<Process>, k: int, p: Process, q: PID)
    requires
        pids_distinct(ps),
        0 <= k < ps.len(),
        p.pid == ps[k].pid,
    ensures
        lookup(ps.update(k, p), q) == (if q == p.pid {
            Some(p)
        } else {
            lookup(ps, q)
        }),
    decreases ps.len(),
{
    let ps2 = ps.update(k, p);
    if k == 0 {
        if q != p.pid {
            assert(ps2.drop_first() =~= ps.drop_first());
        }
    } else {
        assert(ps2[0] == ps[0]);
        if ps[0].pid == q {
        } else {
            let rest = ps.drop_first();
            assert(pids_distinct(rest)) by {
                assert(forall|i: int, j: int|
                    0 <= i < j < rest.len() ==> rest[i] == ps[i + 1] && rest[j] == ps[j + 1]);
            }
            assert(ps2.drop_first() =~= rest.update(k - 1, p));
            lemma_lookup_update(rest, k - 1, p, q);
        }
    }
}

/// How every lookup reads after a fresh entry is appended.
pub proof fn lemma_lookup_push(ps: Seq<Process>, p: Process, q: PID)
    ensures
        lookup(ps.push(p), q) == (if has_pid(ps, q) {
            lookup(ps, q)
        } else if p.pid == q {
            Some(p)
        } else {
            None::<Process>
        }),
    decreases ps.len(),
{
    let ps2 = ps.push(p);
    if ps.len() == 0 {
        assert(ps2.len() == 1 && ps2[0] == p);
        assert(lookup(ps, q) is None);
        if p.pid != q {
            assert(ps2.drop_first() =~= Seq::<Process>::empty());
            assert(lookup(ps2.drop_first(), q) is None);
            assert(lookup(ps2, q) is None);
        }
    } else {
        assert(ps2[0] == ps[0]);
        if ps[0].pid != q {
            assert(ps2.drop_first() =~= ps.drop_first().push(p));
            lemma_lookup_push(ps.drop_first(), p, q);
        }
    }
}

/// How every lookup reads after one entry is removed.
pub proof fn lemma_lookup_remove(ps: Seq<Process>, k: int, q: PID)
    requires
        pids_distinct(ps),
        0 <= k < ps.len(),
    ensures
        lookup(ps.remove(k), q) == (if q == ps[k].pid {
            None::<Process>
        } else {
            lookup(ps, q)
        }),
    decreases ps.len(),
{
    let ps2 = ps.remove(k);
    if k == 0 {
        assert(ps2 =~= ps.drop_first());
        if q == ps[0].pid {
            assert(forall|i: int| 0 <= i < ps2.len() ==> (#[trigger] ps2[i]).pid != q) by {
                assert(forall|i: int| 0 <= i < ps2.len() ==> ps2[i] == ps[i + 1]);
            }
            lemma_lookup_absent(ps2, q);
        }
    } else {
        assert(ps2[0] == ps[0]);
        let rest = ps.drop_first();
        assert(pids_distinct(rest)) by {
            assert(forall|i: int, j: int|
                0 <= i < j < rest.len() ==> rest[i] == ps[i + 1] && rest[j] == ps[j + 1]);
        }
        if ps[0].pid == q {
            assert(q != ps[k].pid);
        } else {
            assert(ps2.drop_first() =~= rest.remove(k - 1));
            lemma_lookup_remove(rest, k - 1, q);
        }
    }
}

/// Two registries that list the same pids at the same positions answer
/// every lookup at the same position.
pub proof fn lemma_lookup_positional(a: Seq<Process>, b: Seq<Process>, q: PID)
    requires
        a.len() == b.len(),
        forall|k: int| 0 <= k < a.len() ==> (#[trigger] a[k]).pid == b[k].pid,
    ensures
        lookup(a, q) is Some <==> lookup(b, q) is Some,
        lookup(a, q) is Some ==> exists|k: int|
            0 <= k < a.len() && lookup(a, q) == Some(#[trigger] a[k]) && lookup(b, q) == Some(
                b[k],
            ),
    decreases a.len(),
{
    if a.len() > 0 {
        if a[0].pid == q {
            assert(lookup(a, q) == Some(a[0]) && lookup(b, q) == Some(b[0]));
        } else {
            let ar = a.drop_first();
            let br = b.drop_first();
            assert(forall|k: int| 0 <= k < ar.len() ==> (#[trigger] ar[k]).pid == br[k].pid) by {
                assert(forall|k: int|
                    0 <= k < ar.len() ==> ar[k] == a[k + 1] && br[k] == b[k + 1]);
            }
            lemma_lookup_positional(ar, br, q);
            if lookup(ar, q) is Some {
                let k = choose|k: int|
                    0 <= k < ar.len() && lookup(ar, q) == Some(#[trigger] ar[k]) && lookup(br, q)
                        == Some(br[k]);
                assert(lookup(a, q) == Some(a[k + 1]) && lookup(b, q) == Some(b[k + 1]));
            }
        }
    }
}

/// Registry distinctness survives appending a pid nobody carries.
pub proof fn lemma_pids_distinct_push(ps: Seq<Process>, p: Process)
    requires
        pids_distinct(ps),
        !has_pid(ps, p.pid),
    ensures
        pids_distinct(ps.push(p)),
{
    lemma_lookup_props(ps, p.pid);
}

/// Registry distinctness survives removing an entry.
pub proof fn lemma_pids_distinct_remove(ps: Seq<Process>, k: int)
    requires
        pids_distinct(ps),
        0 <= k < ps.len(),
    ensures
        pids_distinct(ps.remove(k)),
{
    let ps2 = ps.remove(k);
    assert forall|i: int, j: int| 0 <= i < j < ps2.len() implies (#[trigger] ps2[i]).pid != (
    #[trigger] ps2[j]).pid by {
        let i0 = if i < k {
            i
        } else {
            i + 1
        };
        let j0 = if j < k {
            j
        } else {
            j + 1
        };
        assert(ps2[i] == ps[i0] && ps2[j] == ps[j0]);
    }
}

} // verus!
