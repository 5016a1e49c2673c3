//! The mapping from a range of the spliced transcript to the genomic blocks
//! that hold it.

use crate::bed12::{begins_in_turn, exons_wf, lemma_tend_is_size_sum, total_size, Bed12Record, Exon};
use crate::error::Error;
use crate::strand::{is_minus, minus_strand, orient, oriented, oriented_twice};
use vstd::prelude::*;

verus! {

/// The index of the exon that holds transcript position `t`. In a
/// transcript's exon list there is exactly one for each position from 1 to
/// the transcript length (see [`lemma_exon_index`]).
pub open spec fn exon_index(exons: Seq<Exon>, t: int) -> int {
    choose|i: int| 0 <= i < exons.len() && (#[trigger] exons[i]).has_tpos(t)
}

/// The genomic block `(start, end)` that one exon gives to the transcript
/// range from `tstart` to `tend`. `first` says that the exon holds `tstart`,
/// `last` that it holds `tend`; an exon that holds neither lies between the
/// two and gives its whole interval.
///
/// On the plus strand an offset into the exon is counted from the exon's
/// genomic start, on the minus strand back from its genomic end.
pub open spec fn block_of(
    e: Exon,
    minus: bool,
    first: bool,
    last: bool,
    tstart: int,
    tend: int,
) -> (int, int) {
    let start_offset = tstart - e.tstart;
    let end_offset = tend - e.tstart;
    if first && last {
        if minus {
            (e.gend - end_offset, e.gend - start_offset)
        } else {
            (e.gstart + start_offset, e.gstart + end_offset)
        }
    } else if first {
        if minus {
            (e.gstart as int, e.gend - start_offset)
        } else {
            (e.gstart + start_offset, e.gend as int)
        }
    } else if last {
        if minus {
            (e.gend - end_offset, e.gend as int)
        } else {
            (e.gstart as int, e.gstart + end_offset)
        }
    } else {
        (e.gstart as int, e.gend as int)
    }
}

/// The blocks of the transcript range from `tstart` to `tend`, one for each
/// exon from the one that holds `tstart` to the one that holds `tend`, in
/// transcript order.
pub open spec fn spanned_blocks(exons: Seq<Exon>, minus: bool, tstart: int, tend: int) -> Seq<
    (int, int),
> {
    let a = exon_index(exons, tstart);
    let b = exon_index(exons, tend);
    Seq::new(
        (b - a + 1) as nat,
        |k: int| block_of(exons[a + k], minus, k == 0, a + k == b, tstart, tend),
    )
}

/// The blocks of the transcript range from `tstart` to `tend` in ascending
/// genomic order, whatever the strand.
pub open spec fn genomic_blocks(exons: Seq<Exon>, minus: bool, tstart: int, tend: int) -> Seq<
    (int, int),
> {
    oriented(spanned_blocks(exons, minus, tstart, tend), minus)
}

/// A list of starts and a list of ends as one list of `(start, end)`.
pub open spec fn paired(starts: Seq<u64>, ends: Seq<u64>) -> Seq<(int, int)> {
    Seq::new(starts.len(), |k: int| (starts[k] as int, ends[k] as int))
}

impl Bed12Record {
    /// The genomic blocks that hold the transcript range from `tstart` to
    /// `tend`: the starts and the ends of the blocks, in ascending genomic
    /// order on either strand, one block for each exon that the range
    /// touches. The range must begin after position 0, end after it begins,
    /// and end within the transcript; any other range is refused.
    ///
    /// The exons are walked once in transcript order. The exon that holds
    /// `tstart` opens the range with a block from the offset of `tstart` to
    /// the exon's far end (or, if it holds `tend` too, to the offset of
    /// `tend`); each exon after it gives its whole interval, until the one
    /// that holds `tend` closes the range with a block up to that offset.
    pub fn blocks(&self, tstart: u64, tend: u64) -> (r: Result<(Vec<u64>, Vec<u64>), Error>)
        requires
            self.wf(),
        ensures
            match r {
                Ok((starts, ends)) => {
                    &&& 0 < tstart < tend <= self.transcript_length
                    &&& starts.len() == ends.len()
                    &&& paired(starts@, ends@) == genomic_blocks(
                        self.exons@,
                        minus_strand(self.strand@),
                        tstart as int,
                        tend as int,
                    )
                },
                Err(e) => e == Error::RangeError && !(0 < tstart < tend <= self.transcript_length),
            },
    {
        if !(0 < tstart && tstart < tend && tend <= self.transcript_length) {
            return Err(Error::RangeError);
        }
        let minus = is_minus(self.strand.as_str());
        let n = self.exons.len();
        let ghost exons = self.exons@;
        let ghost a = exon_index(exons, tstart as int);
        let ghost b = exon_index(exons, tend as int);
        proof {
            lemma_tend_is_size_sum(exons, n - 1);
            lemma_exon_index(exons, tstart as int);
            lemma_exon_index(exons, tend as int);
            lemma_exon_index_ordered(exons, tstart as int, tend as int);
        }
        let mut block_starts: Vec<u64> = Vec::new();
        let mut block_ends: Vec<u64> = Vec::new();
        let mut open = false;
        let mut done = false;
        let mut i: usize = 0;
        while i < n && !done
            invariant
                i <= n == self.exons.len(),
                exons == self.exons@,
                exons_wf(exons),
                0 <= a <= b < n,
                tstart < tend,
                exons[a].has_tpos(tstart as int),
                exons[b].has_tpos(tend as int),
                forall|k: int|
                    0 <= k < n && (#[trigger] exons[k]).has_tpos(tstart as int) ==> k == a,
                forall|k: int| 0 <= k < n && (#[trigger] exons[k]).has_tpos(tend as int) ==> k == b,
                !done && !open ==> i <= a && block_starts.len() == 0,
                open ==> !done && a < i <= b && block_starts.len() == i - a,
                done ==> !open && block_starts.len() == b - a + 1,
                block_starts.len() == block_ends.len(),
                forall|k: int|
                    0 <= k < block_starts.len() ==> (block_starts[k] as int, block_ends[k] as int)
                        == block_of(exons[a + k], minus, k == 0, a + k == b, tstart as int, tend as int),
            decreases n - i, if done { 0int } else { 1int },
        {
            let exon = self.exons[i];
            assert(exon.wf());
            if exon.tcontains(tstart) {
                let start_offset = tstart - exon.tstart;
                if exon.tcontains(tend) {
                    let end_offset = tend - exon.tstart;
                    if minus {
                        block_starts.push(exon.gend - end_offset);
                        block_ends.push(exon.gend - start_offset);
                    } else {
                        block_starts.push(exon.gstart + start_offset);
                        block_ends.push(exon.gstart + end_offset);
                    }
                    done = true;
                } else {
                    if minus {
                        block_starts.push(exon.gstart);
                        block_ends.push(exon.gend - start_offset);
                    } else {
                        block_starts.push(exon.gstart + start_offset);
                        block_ends.push(exon.gend);
                    }
                    open = true;
                }
            } else if open {
                if exon.tcontains(tend) {
                    let end_offset = tend - exon.tstart;
                    if minus {
                        block_starts.push(exon.gend - end_offset);
                        block_ends.push(exon.gend);
                    } else {
                        block_starts.push(exon.gstart);
                        block_ends.push(exon.gstart + end_offset);
                    }
                    open = false;
                    done = true;
                } else {
                    block_starts.push(exon.gstart);
                    block_ends.push(exon.gend);
                }
            }
            i += 1;
        }
        assert(paired(block_starts@, block_ends@) =~= spanned_blocks(
            exons,
            minus,
            tstart as int,
            tend as int,
        ));
        proof {
            lemma_paired_oriented(block_starts@, block_ends@, minus);
        }
        Ok((orient(block_starts, minus), orient(block_ends, minus)))
    }
}

/// In a transcript's exon list a later exon begins after an earlier one ends.
pub proof fn lemma_exons_ascend(exons: Seq<Exon>, i: int, j: int)
    requires
        exons_wf(exons),
        0 <= i < j < exons.len(),
    ensures
        exons[i].tend < exons[j].tstart,
    decreases j - i,
{
    assert(begins_in_turn(exons, j));
    assert(exons[j - 1].wf());
    if i < j - 1 {
        lemma_exons_ascend(exons, i, j - 1);
    }
}

/// A position up to the end of exon `n - 1` lies in one of the first `n`
/// exons.
proof fn lemma_position_found(exons: Seq<Exon>, t: int, n: int)
    requires
        exons_wf(exons),
        1 <= n <= exons.len(),
        1 <= t <= exons[n - 1].tend,
    ensures
        exists|i: int| 0 <= i < n && (#[trigger] exons[i]).has_tpos(t),
    decreases n,
{
    if t >= exons[n - 1].tstart {
        assert(exons[n - 1].has_tpos(t));
    } else {
        assert(begins_in_turn(exons, n - 1));
        lemma_position_found(exons, t, n - 1);
    }
}

/// Each transcript position from 1 to the end of the last exon lies in
/// exactly one exon, and [`exon_index`] names it.
pub proof fn lemma_exon_index(exons: Seq<Exon>, t: int)
    requires
        exons_wf(exons),
        exons.len() > 0,
        1 <= t <= exons.last().tend,
    ensures
        0 <= exon_index(exons, t) < exons.len(),
        exons[exon_index(exons, t)].has_tpos(t),
        forall|i: int|
            0 <= i < exons.len() && (#[trigger] exons[i]).has_tpos(t) ==> i == exon_index(exons, t),
{
    lemma_position_found(exons, t, exons.len() as int);
    let a = exon_index(exons, t);
    assert forall|i: int| 0 <= i < exons.len() && (#[trigger] exons[i]).has_tpos(t) implies i
        == a by {
        if i < a {
            lemma_exons_ascend(exons, i, a);
        } else if a < i {
            lemma_exons_ascend(exons, a, i);
        }
    }
}

/// A later transcript position lies in the same exon or in a later one.
pub proof fn lemma_exon_index_ordered(exons: Seq<Exon>, t1: int, t2: int)
    requires
        exons_wf(exons),
        exons.len() > 0,
        1 <= t1 <= t2 <= exons.last().tend,
    ensures
        exon_index(exons, t1) <= exon_index(exons, t2),
{
    lemma_exon_index(exons, t1);
    lemma_exon_index(exons, t2);
    let a = exon_index(exons, t1);
    let b = exon_index(exons, t2);
    if b < a {
        lemma_exons_ascend(exons, b, a);
    }
}

/// Turning starts and ends round turns the pairs round.
proof fn lemma_paired_oriented(starts: Seq<u64>, ends: Seq<u64>, minus: bool)
    requires
        starts.len() == ends.len(),
    ensures
        paired(oriented(starts, minus), oriented(ends, minus)) == oriented(
            paired(starts, ends),
            minus,
        ),
{
    assert(paired(oriented(starts, minus), oriented(ends, minus)) =~= oriented(
        paired(starts, ends),
        minus,
    ));
}

/// The bases in the first `n` of `blocks`.
pub open spec fn block_len_sum(blocks: Seq<(int, int)>, n: int) -> int
    decreases n,
{
    if n <= 0 {
        0
    } else {
        block_len_sum(blocks, n - 1) + (blocks[n - 1].1 - blocks[n - 1].0)
    }
}

/// The bases in all of `blocks`.
pub open spec fn covered(blocks: Seq<(int, int)>) -> int {
    block_len_sum(blocks, blocks.len() as int)
}

/// Whether exon `i` lies before exon `i + 1` on the strand without reaching
/// into it: below it on the plus strand, above it on the minus strand.
pub open spec fn precedes_next(exons: Seq<Exon>, minus: bool, i: int) -> bool {
    if minus {
        exons[i + 1].gend <= exons[i].gstart
    } else {
        exons[i].gend <= exons[i + 1].gstart
    }
}

/// Whether the exons from `a` to `b` lie one after the other on the genome
/// in the direction of the strand, none reaching into the next, and those
/// between the two have at least one base each.
pub open spec fn genome_ordered(exons: Seq<Exon>, minus: bool, a: int, b: int) -> bool {
    &&& forall|i: int| a < i < b ==> (#[trigger] exons[i]).gstart < exons[i].gend
    &&& forall|i: int| a <= i < b ==> #[trigger] precedes_next(exons, minus, i)
}

/// The transcript position that genome coordinate `g` has by exon `e`: the
/// offset of `g` from the end of the exon at which the transcript enters it,
/// counted from the exon's first transcript position.
pub open spec fn transcript_position(e: Exon, minus: bool, g: int) -> int {
    if minus {
        e.tstart + (e.gend - g)
    } else {
        e.tstart + (g - e.gstart)
    }
}

/// The transcript positions of the two ends of a genomic block of exon `e`,
/// the end that the transcript reaches first coming first.
pub open spec fn transcript_span(e: Exon, minus: bool, block: (int, int)) -> (int, int) {
    if minus {
        (transcript_position(e, minus, block.1), transcript_position(e, minus, block.0))
    } else {
        (transcript_position(e, minus, block.0), transcript_position(e, minus, block.1))
    }
}

/// The bases of a list of blocks do not depend on its direction.
proof fn lemma_block_len_sum_reversed(blocks: Seq<(int, int)>, i: int)
    requires
        0 <= i <= blocks.len(),
    ensures
        block_len_sum(blocks.reverse(), i) + block_len_sum(blocks, blocks.len() - i)
            == block_len_sum(blocks, blocks.len() as int),
    decreases i,
{
    if i > 0 {
        lemma_block_len_sum_reversed(blocks, i - 1);
        assert(blocks.reverse()[i - 1] == blocks[blocks.len() - i]);
        assert(block_len_sum(blocks, blocks.len() - i + 1) == block_len_sum(
            blocks,
            blocks.len() - i,
        ) + (blocks[blocks.len() - i].1 - blocks[blocks.len() - i].0));
    }
}

/// The first `m` blocks of a range, none of them the last, hold the
/// positions from `tstart` up to the exon after them.
proof fn lemma_spanned_prefix(exons: Seq<Exon>, minus: bool, tstart: int, tend: int, m: int)
    requires
        exons_wf(exons),
        exons.len() > 0,
        0 < tstart < tend <= exons.last().tend,
        1 <= m <= exon_index(exons, tend) - exon_index(exons, tstart),
    ensures
        block_len_sum(spanned_blocks(exons, minus, tstart, tend), m) == exons[exon_index(
            exons,
            tstart,
        ) + m].tstart - tstart,
    decreases m,
{
    lemma_exon_index(exons, tstart);
    lemma_exon_index(exons, tend);
    let a = exon_index(exons, tstart);
    let sp = spanned_blocks(exons, minus, tstart, tend);
    let e = exons[a + m - 1];
    assert(e.wf());
    assert(begins_in_turn(exons, a + m));
    assert(sp[m - 1] == block_of(e, minus, m - 1 == 0, false, tstart, tend));
    assert(block_len_sum(sp, m) == block_len_sum(sp, m - 1) + (sp[m - 1].1 - sp[m - 1].0));
    if m > 1 {
        lemma_spanned_prefix(exons, minus, tstart, tend, m - 1);
    }
}

/// The blocks of a transcript range hold as many bases as there are
/// positions from `tstart` up to, and without, `tend`.
pub proof fn blocks_cover_range(exons: Seq<Exon>, minus: bool, tstart: int, tend: int)
    requires
        exons_wf(exons),
        exons.len() > 0,
        0 < tstart < tend <= total_size(exons),
    ensures
        covered(genomic_blocks(exons, minus, tstart, tend)) == tend - tstart,
        genomic_blocks(exons, minus, tstart, tend).len() == exon_index(exons, tend) - exon_index(
            exons,
            tstart,
        ) + 1,
{
    lemma_tend_is_size_sum(exons, exons.len() - 1);
    lemma_exon_index(exons, tstart);
    lemma_exon_index(exons, tend);
    lemma_exon_index_ordered(exons, tstart, tend);
    let a = exon_index(exons, tstart);
    let b = exon_index(exons, tend);
    let sp = spanned_blocks(exons, minus, tstart, tend);
    let m = b - a;
    assert(exons[b].wf());
    assert(sp[m] == block_of(exons[b], minus, m == 0, true, tstart, tend));
    assert(block_len_sum(sp, m + 1) == block_len_sum(sp, m) + (sp[m].1 - sp[m].0));
    if m > 0 {
        lemma_spanned_prefix(exons, minus, tstart, tend, m);
    }
    assert(covered(sp) == tend - tstart);
    if minus {
        lemma_block_len_sum_reversed(sp, sp.len() as int);
    }
}

/// Each block of a transcript range lies within the exon that gives it.
pub proof fn blocks_lie_in_exons(exons: Seq<Exon>, minus: bool, tstart: int, tend: int)
    requires
        exons_wf(exons),
        exons.len() > 0,
        0 < tstart < tend <= total_size(exons),
    ensures
        ({
            let a = exon_index(exons, tstart);
            let blocks = oriented(genomic_blocks(exons, minus, tstart, tend), minus);
            forall|k: int|
                0 <= k < blocks.len() ==> exons[a + k].gstart <= (#[trigger] blocks[k]).0
                    <= blocks[k].1 <= exons[a + k].gend
        }),
{
    oriented_twice(spanned_blocks(exons, minus, tstart, tend), minus);
    lemma_tend_is_size_sum(exons, exons.len() - 1);
    lemma_exon_index(exons, tstart);
    lemma_exon_index(exons, tend);
    lemma_exon_index_ordered(exons, tstart, tend);
    let a = exon_index(exons, tstart);
    let blocks = spanned_blocks(exons, minus, tstart, tend);
    assert forall|k: int| 0 <= k < blocks.len() implies exons[a + k].gstart <= (
    #[trigger] blocks[k]).0 <= blocks[k].1 <= exons[a + k].gend by {
        assert(exons[a + k].wf());
    }
}

/// Where the exons that a transcript range touches lie in genomic order,
/// those between its first and its last have at least one base each, and
/// the range does not end on the first position of an exon after the one in
/// which it begins, each block of the range holds at least one base and
/// ends no later than the next block begins: starts and ends both ascend
/// strictly.
pub proof fn blocks_ascend(exons: Seq<Exon>, minus: bool, tstart: int, tend: int)
    requires
        exons_wf(exons),
        exons.len() > 0,
        0 < tstart < tend <= total_size(exons),
        genome_ordered(exons, minus, exon_index(exons, tstart), exon_index(exons, tend)),
        exon_index(exons, tstart) == exon_index(exons, tend) || tend > exons[exon_index(
            exons,
            tend,
        )].tstart,
    ensures
        ({
            let blocks = genomic_blocks(exons, minus, tstart, tend);
            &&& forall|k: int| 0 <= k < blocks.len() ==> (#[trigger] blocks[k]).0 < blocks[k].1
            &&& forall|k: int|
                0 <= k < blocks.len() - 1 ==> (#[trigger] blocks[k]).1 <= blocks[k + 1].0
        }),
{
    lemma_tend_is_size_sum(exons, exons.len() - 1);
    lemma_exon_index(exons, tstart);
    lemma_exon_index(exons, tend);
    lemma_exon_index_ordered(exons, tstart, tend);
    let a = exon_index(exons, tstart);
    let b = exon_index(exons, tend);
    let sp = spanned_blocks(exons, minus, tstart, tend);
    let blocks = genomic_blocks(exons, minus, tstart, tend);
    let n = sp.len() as int;
    assert forall|k: int| 0 <= k < n implies {
        &&& exons[a + k].gstart <= (#[trigger] sp[k]).0 < sp[k].1 <= exons[a + k].gend
    } by {
        assert(exons[a + k].wf());
    }
    assert forall|k: int| 0 <= k < blocks.len() implies (#[trigger] blocks[k]).0
        < blocks[k].1 by {
        if minus {
            assert(blocks[k] == sp[n - 1 - k]);
        }
    }
    assert forall|k: int| 0 <= k < blocks.len() - 1 implies (#[trigger] blocks[k]).1 <= blocks[k
        + 1].0 by {
        if minus {
            assert(blocks[k] == sp[n - 1 - k]);
            assert(blocks[k + 1] == sp[n - 2 - k]);
            assert(precedes_next(exons, minus, a + n - 2 - k));
        } else {
            assert(precedes_next(exons, minus, a + k));
        }
    }
}

/// Taking the blocks of a transcript range back to transcript positions,
/// each through the exon that gave it, gives the range again: with the
/// blocks put in transcript order, the first block begins at `tstart`, each
/// block ends where the next begins, and the last block ends at `tend`.
pub proof fn blocks_map_back(exons: Seq<Exon>, minus: bool, tstart: int, tend: int)
    requires
        exons_wf(exons),
        exons.len() > 0,
        0 < tstart < tend <= total_size(exons),
    ensures
        ({
            let a = exon_index(exons, tstart);
            let blocks = oriented(genomic_blocks(exons, minus, tstart, tend), minus);
            let n = blocks.len() as int;
            &&& n >= 1
            &&& transcript_span(exons[a], minus, blocks[0]).0 == tstart
            &&& transcript_span(exons[a + n - 1], minus, blocks[n - 1]).1 == tend
            &&& forall|k: int|
                0 <= k < n - 1 ==> transcript_span(exons[a + k], minus, #[trigger] blocks[k]).1
                    == transcript_span(exons[a + k + 1], minus, blocks[k + 1]).0
        }),
{
    oriented_twice(spanned_blocks(exons, minus, tstart, tend), minus);
    lemma_tend_is_size_sum(exons, exons.len() - 1);
    lemma_exon_index(exons, tstart);
    lemma_exon_index(exons, tend);
    lemma_exon_index_ordered(exons, tstart, tend);
    let a = exon_index(exons, tstart);
    let blocks = spanned_blocks(exons, minus, tstart, tend);
    let n = blocks.len() as int;
    assert forall|k: int| 0 <= k < n - 1 implies transcript_span(
        exons[a + k],
        minus,
        #[trigger] blocks[k],
    ).1 == transcript_span(exons[a + k + 1], minus, blocks[k + 1]).0 by {
        assert(exons[a + k].wf());
        assert(begins_in_turn(exons, a + k + 1));
    }
}

} // verus!
