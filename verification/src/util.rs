//! Small numeric helpers shared by the rest of the library.

use vstd::prelude::*;

verus! {

/// What `ceil_div` returns: the quotient of `top` by `bot`, rounded up.
pub open spec fn ceil_div_spec(top: int, bot: int) -> int
    recommends
        bot >= 1,
{
    if top % bot == 0 {
        top / bot
    } else {
        top / bot + 1
    }
}

/// Divides two integers and returns the smallest integer that is greater
/// than or equal to the exact quotient.
pub fn ceil_div(top: usize, bot: usize) -> (r: usize)
    requires
        bot >= 1,
    ensures
        r == ceil_div_spec(top as int, bot as int),
{
    if top % bot == 0 {
        top / bot
    } else {
        assert(bot >= 2 && top / bot < top) by (nonlinear_arith)
            requires
                bot >= 1 && top % bot != 0,
        ;
        1 + top / bot
    }
}

/// Whatever fits within `k` buckets of size `bot` needs at most `k`
/// buckets.
pub proof fn lemma_ceil_div_le(top: int, bot: int, k: int)
    requires
        bot >= 1,
        k >= 0,
        0 <= top <= k * bot,
    ensures
        ceil_div_spec(top, bot) <= k,
{
    if top % bot == 0 {
        assert(top / bot <= k) by (nonlinear_arith)
            requires
                bot >= 1 && 0 <= top <= k * bot,
        ;
    } else {
        assert(top / bot + 1 <= k) by (nonlinear_arith)
            requires
                bot >= 1 && 0 <= top <= k * bot && top % bot != 0,
        ;
    }
}

/// An offset inside an address space of `size` bytes falls in one of its
/// `ceil(size / bot)` pages.
pub proof fn lemma_page_index_bound(addr: int, size: int, bot: int)
    requires
        bot >= 1,
        0 <= addr < size,
    ensures
        addr / bot < ceil_div_spec(size, bot),
        addr / bot >= 0,
{
    if size % bot == 0 {
        assert(addr / bot < size / bot) by (nonlinear_arith)
            requires
                bot >= 1 && 0 <= addr < size && size % bot == 0,
        ;
    } else {
        assert(addr / bot <= size / bot) by (nonlinear_arith)
            requires
                bot >= 1 && 0 <= addr < size,
        ;
    }
    assert(addr / bot >= 0) by (nonlinear_arith)
        requires
            bot >= 1 && addr >= 0,
    ;
}

/// An inclusive run `start..=end` of table slot indices, used to report
/// freed or evicted slots compactly.
#[derive(Debug, Clone, Copy, PartialEq, Eq, Structural)]
pub struct FrameRange {
    pub start: usize,
    pub end: usize,
}

/// The indices a single range stands for, in ascending order.
pub open spec fn range_seq(r: FrameRange) -> Seq<int> {
    Seq::new((r.end - r.start + 1) as nat, |k: int| r.start + k)
}

/// The indices a list of ranges stands for, in list order.
pub open spec fn ranges_flat(rs: Seq<FrameRange>) -> Seq<int>
    decreases rs.len(),
{
    if rs.len() == 0 {
        Seq::empty()
    } else {
        ranges_flat(rs.drop_last()) + range_seq(rs.last())
    }
}

/// A well-formed range list: every range runs upward, and consecutive
/// ranges are separated by a gap, so no two of them could be merged.
pub open spec fn ranges_wf(rs: Seq<FrameRange>) -> bool {
    &&& forall|i: int| 0 <= i < rs.len() ==> (#[trigger] rs[i]).start <= rs[i].end
    &&& forall|i: int| 0 <= i < rs.len() - 1 ==> (#[trigger] rs[i]).end + 1 < rs[i + 1].start
}

/// Appends one index to a coalesced list of ranges: the index either
/// extends the last range by one or starts a new range of its own.
/// Indices must arrive in strictly ascending order.
pub fn add_index_to_vec_of_ranges(index: usize, vec_of_ranges: &mut Vec<FrameRange>)
    requires
        ranges_wf(old(vec_of_ranges)@),
        old(vec_of_ranges)@.len() > 0 ==> old(vec_of_ranges)@.last().end < index,
    ensures
        ranges_wf(final(vec_of_ranges)@),
        final(vec_of_ranges)@.len() > 0,
        final(vec_of_ranges)@.last().end == index,
        ranges_flat(final(vec_of_ranges)@) == ranges_flat(old(vec_of_ranges)@).push(index as int),
{
    let n = vec_of_ranges.len();
    if n > 0 && vec_of_ranges[n - 1].end + 1 == index {
        let extended = FrameRange { start: vec_of_ranges[n - 1].start, end: index };
        vec_of_ranges[n - 1] = extended;
        proof {
            let rs = old(vec_of_ranges)@;
            let rs2 = vec_of_ranges@;
            assert(rs2.drop_last() =~= rs.drop_last());
            assert(range_seq(rs2.last()) =~= range_seq(rs.last()).push(index as int));
            assert(ranges_flat(rs2) =~= ranges_flat(rs).push(index as int));
        }
    } else {
        vec_of_ranges.push(FrameRange { start: index, end: index });
        proof {
            let rs = old(vec_of_ranges)@;
            let rs2 = vec_of_ranges@;
            assert(rs2.drop_last() =~= rs);
            assert(range_seq(rs2.last()) =~= Seq::empty().push(index as int));
            assert(ranges_flat(rs2) =~= ranges_flat(rs).push(index as int));
        }
    }
}

} // verus!
