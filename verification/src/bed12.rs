//! BED12 records: a feature with its blocks, read as a transcript with its
//! exons.
//!
//! Genome coordinates count from 0 and an interval `[start, end)` leaves its
//! end out. Transcript positions count from 1 along the exons in transcript
//! order, with no gap between one exon and the next.

use crate::bed::{overlaps, ranges_overlap};
use crate::error::Error;
use crate::number::{
    format_region, i64_of, lemma_list_has_items, parse_i64, parse_u64, parse_u64_list, region_text,
    u64_list_of, u64_of,
};
use crate::strand::{is_minus, minus_strand, orient, oriented};
use crate::text::{field_ranges, fields, range_text, to_chars};
use vstd::prelude::*;

verus! {

/// One exon of a transcript, in both coordinate systems.
#[derive(Debug, Clone, Copy, PartialEq, Eq, Structural)]
pub struct Exon {
    /// Transcript position of the first base of the exon.
    pub tstart: u64,
    /// Transcript position of the last base of the exon.
    pub tend: u64,
    /// Genome coordinate at which the exon begins.
    pub gstart: u64,
    /// Genome coordinate at which the exon ends; the base there is not part of it.
    pub gend: u64,
    /// Number of bases in the exon.
    pub exon_size: u64,
}

impl Exon {
    /// The size is the genomic length, and the transcript positions span
    /// exactly that many bases.
    pub open spec fn wf(&self) -> bool {
        &&& self.gstart <= self.gend
        &&& self.exon_size == self.gend - self.gstart
        &&& self.tstart >= 1
        &&& self.tend + 1 == self.tstart + self.exon_size
    }

    /// Whether genome coordinate `gpos` lies on the exon or at its end.
    pub open spec fn has_gpos(&self, gpos: int) -> bool {
        self.gstart <= gpos <= self.gend
    }

    /// Whether transcript position `tpos` lies in the exon.
    pub open spec fn has_tpos(&self, tpos: int) -> bool {
        self.tstart <= tpos <= self.tend
    }

    /// The exon on `[gstart, gend)` that begins at transcript position
    /// `tstart`.
    fn new(gstart: u64, gend: u64, tstart: u64) -> (e: Exon)
        requires
            gstart <= gend,
            1 <= tstart,
            tstart + (gend - gstart) - 1 <= u64::MAX,
        ensures
            e.wf(),
            e.gstart == gstart,
            e.gend == gend,
            e.tstart == tstart,
    {
        let exon_size = gend - gstart;
        let tend = tstart - 1 + exon_size;
        Exon { tstart, tend, gstart, gend, exon_size }
    }

    /// Whether a genome coordinate lies on the exon or at its end.
    pub fn gcontains(&self, gpos: u64) -> (b: bool)
        ensures
            b == self.has_gpos(gpos as int),
    {
        self.gstart <= gpos && gpos <= self.gend
    }

    /// Whether a transcript position lies in the exon.
    pub fn tcontains(&self, tpos: u64) -> (b: bool)
        ensures
            b == self.has_tpos(tpos as int),
    {
        self.tstart <= tpos && tpos <= self.tend
    }
}

/// The bases in the first `i` of the intervals `[starts[k], ends[k])`.
pub open spec fn size_before(starts: Seq<u64>, ends: Seq<u64>, i: int) -> int
    decreases i,
{
    if i <= 0 {
        0
    } else {
        size_before(starts, ends, i - 1) + (ends[i - 1] - starts[i - 1])
    }
}

/// Whether two lists give the exons of a transcript: one end for each start,
/// no interval that ends before it starts, and a total size that leaves room
/// for the position after the last base.
pub open spec fn spans_ok(starts: Seq<u64>, ends: Seq<u64>) -> bool {
    &&& starts.len() == ends.len()
    &&& forall|i: int| 0 <= i < starts.len() ==> starts[i] <= ends[i]
    &&& size_before(starts, ends, starts.len() as int) < u64::MAX
}

/// The exon made of interval `i` of a transcript whose intervals are given
/// in transcript order.
pub open spec fn exon_of(starts: Seq<u64>, ends: Seq<u64>, i: int) -> Exon {
    Exon {
        tstart: (size_before(starts, ends, i) + 1) as u64,
        tend: size_before(starts, ends, i + 1) as u64,
        gstart: starts[i],
        gend: ends[i],
        exon_size: (ends[i] - starts[i]) as u64,
    }
}

/// The exons of a transcript whose intervals are given in transcript order.
pub open spec fn exons_of(starts: Seq<u64>, ends: Seq<u64>) -> Seq<Exon> {
    Seq::new(starts.len(), |i: int| exon_of(starts, ends, i))
}

/// The sum of the sizes of the first `n` exons.
pub open spec fn size_sum(exons: Seq<Exon>, n: int) -> int
    decreases n,
{
    if n <= 0 {
        0
    } else {
        size_sum(exons, n - 1) + exons[n - 1].exon_size
    }
}

/// The sum of the sizes of all exons.
pub open spec fn total_size(exons: Seq<Exon>) -> int {
    size_sum(exons, exons.len() as int)
}

/// Whether a list of exons is that of one transcript: each exon is well
/// formed, the first begins at transcript position 1, and each other one
/// begins right after the one before it.
pub open spec fn exons_wf(exons: Seq<Exon>) -> bool {
    &&& forall|i: int| 0 <= i < exons.len() ==> (#[trigger] exons[i]).wf()
    &&& forall|i: int| 0 <= i < exons.len() ==> #[trigger] begins_in_turn(exons, i)
}

/// Whether exon `i` begins where it should: the first at transcript
/// position 1, each other one right after the exon before it.
pub open spec fn begins_in_turn(exons: Seq<Exon>, i: int) -> bool {
    exons[i].tstart == if i == 0 {
        1
    } else {
        exons[i - 1].tend + 1
    }
}

/// Each of `rel` moved up by `start`.
pub open spec fn shifted(start: u64, rel: Seq<u64>) -> Seq<u64> {
    Seq::new(rel.len(), |i: int| (start + rel[i]) as u64)
}

/// The end of each interval that begins at `starts[i]` and holds `sizes[i]` bases.
pub open spec fn summed(starts: Seq<u64>, sizes: Seq<u64>) -> Seq<u64> {
    Seq::new(starts.len(), |i: int| (starts[i] + sizes[i]) as u64)
}

/// Whether there is one size for each start and each end fits in 64 bits.
pub open spec fn sums_fit(starts: Seq<u64>, sizes: Seq<u64>) -> bool {
    &&& starts.len() == sizes.len()
    &&& forall|i: int| 0 <= i < starts.len() ==> starts[i] + sizes[i] <= u64::MAX
}

/// Whether the blocks of a feature that begins at `start` fit in 64 bits:
/// one size for each relative start, and each block's genomic end in range.
pub open spec fn blocks_fit(start: u64, rel: Seq<u64>, sizes: Seq<u64>) -> bool {
    &&& rel.len() == sizes.len()
    &&& forall|i: int| 0 <= i < rel.len() ==> start + rel[i] + sizes[i] <= u64::MAX
}

/// The sum of the first `n` of `sizes`.
pub open spec fn sum_of(sizes: Seq<u64>, n: int) -> int
    decreases n,
{
    if n <= 0 {
        0
    } else {
        sum_of(sizes, n - 1) + sizes[n - 1]
    }
}

/// The exons of a feature that begins at `start`, in transcript order, from
/// the relative starts and the sizes of its blocks as the line lists them.
pub open spec fn block_exons(start: u64, rel: Seq<u64>, sizes: Seq<u64>, minus: bool) -> Seq<Exon> {
    let gstarts = shifted(start, rel);
    exons_of(oriented(gstarts, minus), oriented(summed(gstarts, sizes), minus))
}

/// Whether the blocks of a feature make a transcript: they fit in 64 bits
/// and their sizes add up to less than the largest 64-bit number.
pub open spec fn blocks_ok(start: u64, rel: Seq<u64>, sizes: Seq<u64>, minus: bool) -> bool {
    let gstarts = shifted(start, rel);
    &&& blocks_fit(start, rel, sizes)
    &&& spans_ok(oriented(gstarts, minus), oriented(summed(gstarts, sizes), minus))
}

/// A feature of a BED12 line, read as a transcript.
#[derive(Debug)]
pub struct Bed12Record {
    pub chrom: String,
    pub start: u64,
    pub end: u64,
    pub name: String,
    pub score: i64,
    pub strand: String,
    pub coding_start: u64,
    pub coding_end: u64,
    pub block_count: u64,
    /// The exons in transcript order: on the minus strand the block with the
    /// highest genome coordinates comes first.
    pub exons: Vec<Exon>,
    /// The number of bases in all exons together.
    pub transcript_length: u64,
}

/// What a [`Bed12Record`] holds, as plain values.
pub struct Bed12View {
    pub chrom: Seq<char>,
    pub start: u64,
    pub end: u64,
    pub name: Seq<char>,
    pub score: i64,
    pub strand: Seq<char>,
    pub coding_start: u64,
    pub coding_end: u64,
    pub block_count: u64,
    pub exons: Seq<Exon>,
    pub transcript_length: u64,
}

impl View for Bed12Record {
    type V = Bed12View;

    open spec fn view(&self) -> Bed12View {
        Bed12View {
            chrom: self.chrom@,
            start: self.start,
            end: self.end,
            name: self.name@,
            score: self.score,
            strand: self.strand@,
            coding_start: self.coding_start,
            coding_end: self.coding_end,
            block_count: self.block_count,
            exons: self.exons@,
            transcript_length: self.transcript_length,
        }
    }
}

/// The record that a BED12 line describes, or `None` if the line does not
/// follow the format.
///
/// A line has at least twelve tab-separated fields: chromosome, start, end,
/// name, score, strand, coding start, coding end, one field that is not
/// read, block count, block sizes and block starts. The two lists are
/// comma-separated and may end in a comma; block starts are relative to the
/// start of the feature. The line is refused if a number cannot be read, if
/// the feature ends before it starts, if the lists differ in length or
/// their length is not the block count, or if a coordinate does not fit.
pub open spec fn bed12_of(line: Seq<char>) -> Option<Bed12View> {
    let f = fields(line);
    if f.len() < 12 {
        None
    } else if u64_of(f[1]) is None || u64_of(f[2]) is None || i64_of(f[4]) is None || u64_of(
        f[6],
    ) is None || u64_of(f[7]) is None || u64_of(f[9]) is None || u64_list_of(f[10]) is None
        || u64_list_of(f[11]) is None {
        None
    } else {
        let start = u64_of(f[1])->0;
        let end = u64_of(f[2])->0;
        let block_count = u64_of(f[9])->0;
        let sizes = u64_list_of(f[10])->0;
        let rel = u64_list_of(f[11])->0;
        let minus = minus_strand(f[5]);
        let exons = block_exons(start, rel, sizes, minus);
        if start <= end && block_count == sizes.len() && blocks_ok(start, rel, sizes, minus) {
            Some(
                Bed12View {
                    chrom: f[0],
                    start,
                    end,
                    name: f[3],
                    score: i64_of(f[4])->0,
                    strand: f[5],
                    coding_start: u64_of(f[6])->0,
                    coding_end: u64_of(f[7])->0,
                    block_count,
                    exons,
                    transcript_length: sum_of(sizes, sizes.len() as int) as u64,
                },
            )
        } else {
            None
        }
    }
}

impl Bed12Record {
    /// There is at least one exon, the exons are those of one transcript,
    /// and the transcript length is the sum of their sizes.
    pub open spec fn wf(&self) -> bool {
        &&& self.exons.len() > 0
        &&& exons_wf(self.exons@)
        &&& self.transcript_length == total_size(self.exons@)
    }

    /// Decides [`Bed12Record::wf`] for a record that was put together by
    /// hand.
    pub fn is_well_formed(&self) -> (b: bool)
        ensures
            b == self.wf(),
    {
        let n = self.exons.len();
        if n == 0 {
            return false;
        }
        let mut i: usize = 0;
        while i < n
            invariant
                i <= n == self.exons.len(),
                forall|k: int| 0 <= k < i ==> (#[trigger] self.exons[k]).wf(),
                forall|k: int| 0 <= k < i ==> #[trigger] begins_in_turn(self.exons@, k),
            decreases n - i,
        {
            let e = self.exons[i];
            let sized = e.gstart <= e.gend && e.exon_size == e.gend - e.gstart && e.tstart >= 1
                && e.tend as u128 + 1 == e.tstart as u128 + e.exon_size as u128;
            let in_turn = if i == 0 {
                e.tstart == 1
            } else {
                e.tstart as u128 == self.exons[i - 1].tend as u128 + 1
            };
            if !sized || !in_turn {
                assert(!e.wf() || !begins_in_turn(self.exons@, i as int));
                return false;
            }
            i += 1;
        }
        proof {
            lemma_tend_is_size_sum(self.exons@, n - 1);
        }
        self.transcript_length == self.exons[n - 1].tend
    }

    /// Reads one BED12 line.
    pub fn new(bedline: String) -> (r: Result<Bed12Record, Error>)
        ensures
            match r {
                Ok(rec) => bed12_of(bedline@) == Some(rec@) && rec.wf(),
                Err(e) => e == Error::FormatError && bed12_of(bedline@) is None,
            },
    {
        let line = bedline.as_str();
        let chars = to_chars(line);
        let f = field_ranges(&chars);
        if f.len() < 12 {
            return Err(Error::FormatError);
        }
        let ghost fs = fields(bedline@);
        assert(forall|k: int| 0 <= k < 12 ==> chars@.subrange(f[k].0 as int, f[k].1 as int) == fs[k]);
        let start = match parse_u64(&chars, f[1].0, f[1].1) {
            Some(v) => v,
            None => {
                return Err(Error::FormatError);
            },
        };
        let end = match parse_u64(&chars, f[2].0, f[2].1) {
            Some(v) => v,
            None => {
                return Err(Error::FormatError);
            },
        };
        let score = match parse_i64(&chars, f[4].0, f[4].1) {
            Some(v) => v,
            None => {
                return Err(Error::FormatError);
            },
        };
        let coding_start = match parse_u64(&chars, f[6].0, f[6].1) {
            Some(v) => v,
            None => {
                return Err(Error::FormatError);
            },
        };
        let coding_end = match parse_u64(&chars, f[7].0, f[7].1) {
            Some(v) => v,
            None => {
                return Err(Error::FormatError);
            },
        };
        let block_count = match parse_u64(&chars, f[9].0, f[9].1) {
            Some(v) => v,
            None => {
                return Err(Error::FormatError);
            },
        };
        let block_sizes = match parse_u64_list(&chars, f[10].0, f[10].1) {
            Some(v) => v,
            None => {
                return Err(Error::FormatError);
            },
        };
        let block_starts = match parse_u64_list(&chars, f[11].0, f[11].1) {
            Some(v) => v,
            None => {
                return Err(Error::FormatError);
            },
        };
        let ghost sizes = block_sizes@;
        let ghost rel = block_starts@;
        if start > end || block_sizes.len() as u64 != block_count {
            return Err(Error::FormatError);
        }
        let strand = range_text(line, f[5]);
        let minus = is_minus(strand.as_str());
        let block_starts = match absolute_starts(block_starts, start) {
            Some(v) => v,
            None => {
                return Err(Error::FormatError);
            },
        };
        let (block_starts, block_ends) = match adding(block_starts, block_sizes) {
            Ok(pair) => pair,
            Err(e) => {
                return Err(e);
            },
        };
        assert(blocks_fit(start, rel, sizes));
        let block_starts = orient(block_starts, minus);
        let block_ends = orient(block_ends, minus);
        let exons = match Self::parse_exons(block_starts, block_ends) {
            Ok(v) => v,
            Err(e) => {
                return Err(e);
            },
        };
        proof {
            lemma_block_exons(start, rel, sizes, minus);
            lemma_tend_is_size_sum(exons@, exons.len() - 1);
        }
        let transcript_length = exons[exons.len() - 1].tend;
        Ok(
            Bed12Record {
                chrom: range_text(line, f[0]),
                start,
                end,
                name: range_text(line, f[3]),
                score,
                strand,
                coding_start,
                coding_end,
                block_count,
                exons,
                transcript_length,
            },
        )
    }

    /// Builds the exons of a transcript from the genomic intervals of its blocks,
    /// given in transcript order. Transcript positions are handed out from 1 on,
    /// each exon beginning right after the one before it.
    pub fn parse_exons(exon_start_vec: Vec<u64>, exon_end_vec: Vec<u64>) -> (r: Result<
        Vec<Exon>,
        Error,
    >)
        ensures
            match r {
                Ok(exons) => spans_ok(exon_start_vec@, exon_end_vec@) && exons@ == exons_of(
                    exon_start_vec@,
                    exon_end_vec@,
                ),
                Err(e) => e == Error::FormatError && !spans_ok(exon_start_vec@, exon_end_vec@),
            },
    {
        let n = exon_start_vec.len();
        if exon_end_vec.len() != n {
            return Err(Error::FormatError);
        }
        let ghost starts = exon_start_vec@;
        let ghost ends = exon_end_vec@;
        let mut exon_vec: Vec<Exon> = Vec::new();
        let mut tpos: u64 = 0;
        let mut i: usize = 0;
        while i < n
            invariant
                i <= n == exon_start_vec.len() == exon_end_vec.len(),
                starts == exon_start_vec@,
                ends == exon_end_vec@,
                forall|k: int| 0 <= k < i ==> starts[k] <= ends[k],
                tpos == size_before(starts, ends, i as int),
                tpos < u64::MAX,
                exon_vec.len() == i,
                forall|k: int| 0 <= k < i ==> exon_vec[k] == exon_of(starts, ends, k),
            decreases n - i,
        {
            let gstart = exon_start_vec[i];
            let gend = exon_end_vec[i];
            if gstart > gend {
                return Err(Error::FormatError);
            }
            let size = gend - gstart;
            if size >= u64::MAX - tpos {
                proof {
                    if spans_ok(starts, ends) {
                        lemma_size_before_grows(starts, ends, i as int + 1, n as int);
                    }
                }
                return Err(Error::FormatError);
            }
            let exon = Exon::new(gstart, gend, tpos + 1);
            tpos = tpos + exon.exon_size;
            exon_vec.push(exon);
            i += 1;
        }
        assert(exon_vec@ =~= exons_of(starts, ends));
        Ok(exon_vec)
    }

    /// The record's region as text: chromosome, colon, start, hyphen, end.
    pub fn coordinate(&self) -> (r: String)
        ensures
            r@ == region_text(self.chrom@, self.start, self.end),
    {
        format_region(self.chrom.as_str(), self.start, self.end)
    }

    /// Whether some exon of the record overlaps the range from `start` to
    /// `end` (see [`overlaps`]).
    pub fn overlap(&self, start: u64, end: u64) -> (b: bool)
        ensures
            b == exists|i: int|
                0 <= i < self.exons.len() && overlaps(
                    (#[trigger] self.exons[i]).gstart as int,
                    self.exons[i].gend as int,
                    start as int,
                    end as int,
                ),
    {
        let mut i: usize = 0;
        while i < self.exons.len()
            invariant
                i <= self.exons.len(),
                forall|k: int|
                    0 <= k < i ==> !overlaps(
                        (#[trigger] self.exons[k]).gstart as int,
                        self.exons[k].gend as int,
                        start as int,
                        end as int,
                    ),
            decreases self.exons.len() - i,
        {
            if ranges_overlap(self.exons[i].gstart, self.exons[i].gend, start, end) {
                return true;
            }
            i += 1;
        }
        false
    }
}

/// Pairs each start with the end of its interval, `starts[i] + sizes[i]`.
/// Refuses lists of different lengths and ends beyond 64 bits.
pub fn adding(starts: Vec<u64>, sizes: Vec<u64>) -> (r: Result<(Vec<u64>, Vec<u64>), Error>)
    ensures
        match r {
            Ok((s, e)) => sums_fit(starts@, sizes@) && s@ == starts@ && e@ == summed(
                starts@,
                sizes@,
            ),
            Err(e) => e == Error::FormatError && !sums_fit(starts@, sizes@),
        },
{
    let n = starts.len();
    if sizes.len() != n {
        return Err(Error::FormatError);
    }
    let mut res: Vec<u64> = Vec::new();
    let mut i: usize = 0;
    while i < n
        invariant
            i <= n == starts.len() == sizes.len(),
            res.len() == i,
            forall|k: int| 0 <= k < i ==> starts[k] + sizes[k] <= u64::MAX,
            forall|k: int| 0 <= k < i ==> res[k] == starts[k] + sizes[k],
        decreases n - i,
    {
        match starts[i].checked_add(sizes[i]) {
            Some(sum) => {
                res.push(sum);
            },
            None => {
                return Err(Error::FormatError);
            },
        }
        i += 1;
    }
    assert(res@ =~= summed(starts@, sizes@));
    Ok((starts, res))
}

/// Moves block starts that are relative to the start of a feature to
/// genome coordinates. `None` if one of them does not fit in 64 bits.
fn absolute_starts(rel: Vec<u64>, start: u64) -> (r: Option<Vec<u64>>)
    ensures
        match r {
            Some(v) => v@ == shifted(start, rel@) && forall|i: int|
                0 <= i < rel.len() ==> start + rel[i] <= u64::MAX,
            None => exists|i: int| 0 <= i < rel.len() && start + rel[i] > u64::MAX,
        },
{
    let n = rel.len();
    let mut out: Vec<u64> = Vec::new();
    let mut i: usize = 0;
    while i < n
        invariant
            i <= n == rel.len(),
            out.len() == i,
            forall|k: int| 0 <= k < i ==> start + rel[k] <= u64::MAX,
            forall|k: int| 0 <= k < i ==> out[k] == start + rel[k],
        decreases n - i,
    {
        match start.checked_add(rel[i]) {
            Some(g) => {
                out.push(g);
            },
            None => {
                return None;
            },
        }
        i += 1;
    }
    assert(out@ =~= shifted(start, rel@));
    Some(out)
}

/// Intervals that do not end before they start add bases, never take any
/// away.
pub proof fn lemma_size_before_grows(starts: Seq<u64>, ends: Seq<u64>, i: int, j: int)
    requires
        0 <= i <= j <= starts.len(),
        forall|k: int| i <= k < j ==> starts[k] <= ends[k],
    ensures
        size_before(starts, ends, i) <= size_before(starts, ends, j),
    decreases j - i,
{
    if i < j {
        lemma_size_before_grows(starts, ends, i, j - 1);
    }
}

/// In a transcript's exon list each exon ends at the sum of the sizes up
/// to and including its own.
pub proof fn lemma_tend_is_size_sum(exons: Seq<Exon>, i: int)
    requires
        exons_wf(exons),
        0 <= i < exons.len(),
    ensures
        exons[i].tend == size_sum(exons, i + 1),
        exons[i].tstart == size_sum(exons, i) + 1,
    decreases i,
{
    if i > 0 {
        lemma_tend_is_size_sum(exons, i - 1);
    }
    assert(begins_in_turn(exons, i));
    assert(exons[i].wf());
    assert(size_sum(exons, i + 1) == size_sum(exons, i) + exons[i].exon_size);
}

/// Intervals that pass [`spans_ok`] give a well-formed exon list whose
/// sizes add up to the bases of the intervals.
pub proof fn lemma_exons_of_wf(starts: Seq<u64>, ends: Seq<u64>)
    requires
        spans_ok(starts, ends),
    ensures
        exons_wf(exons_of(starts, ends)),
        exons_of(starts, ends).len() == starts.len(),
        total_size(exons_of(starts, ends)) == size_before(starts, ends, starts.len() as int),
{
    let exons = exons_of(starts, ends);
    let n = starts.len() as int;
    assert forall|i: int| 0 <= i <= n implies 0 <= #[trigger] size_before(starts, ends, i)
        < u64::MAX by {
        lemma_size_before_grows(starts, ends, 0, i);
        lemma_size_before_grows(starts, ends, i, n);
    }
    assert forall|i: int| 0 <= i < n implies (#[trigger] exons[i]).wf() by {
        assert(0 <= size_before(starts, ends, i) < u64::MAX);
        assert(0 <= size_before(starts, ends, i + 1) < u64::MAX);
    }
    assert forall|i: int| 0 <= i < n implies #[trigger] begins_in_turn(exons, i) by {
        assert(0 <= size_before(starts, ends, i) < u64::MAX);
    }
    lemma_size_sum_of(starts, ends, n);
}

/// The sizes of the exons built from intervals are the sizes of the
/// intervals.
proof fn lemma_size_sum_of(starts: Seq<u64>, ends: Seq<u64>, i: int)
    requires
        spans_ok(starts, ends),
        0 <= i <= starts.len(),
    ensures
        size_sum(exons_of(starts, ends), i) == size_before(starts, ends, i),
    decreases i,
{
    if i > 0 {
        lemma_size_sum_of(starts, ends, i - 1);
    }
}

/// A sum does not depend on the direction in which it is taken.
proof fn lemma_sum_reversed(sizes: Seq<u64>, i: int)
    requires
        0 <= i <= sizes.len(),
    ensures
        sum_of(sizes.reverse(), i) + sum_of(sizes, sizes.len() - i) == sum_of(
            sizes,
            sizes.len() as int,
        ),
    decreases i,
{
    if i > 0 {
        lemma_sum_reversed(sizes, i - 1);
        assert(sizes.reverse()[i - 1] == sizes[sizes.len() - i]);
        assert(sum_of(sizes, sizes.len() - i + 1) == sum_of(sizes, sizes.len() - i)
            + sizes[sizes.len() - i]);
    }
}

/// The bases of intervals given by starts and sizes are the sum of the
/// sizes.
proof fn lemma_size_before_is_sum(starts: Seq<u64>, sizes: Seq<u64>, i: int)
    requires
        sums_fit(starts, sizes),
        0 <= i <= starts.len(),
    ensures
        size_before(starts, summed(starts, sizes), i) == sum_of(sizes, i),
    decreases i,
{
    if i > 0 {
        lemma_size_before_is_sum(starts, sizes, i - 1);
    }
}

/// The bases of a feature's blocks add up to the sum of the block sizes on
/// either strand.
pub proof fn lemma_block_total(start: u64, rel: Seq<u64>, sizes: Seq<u64>, minus: bool)
    requires
        blocks_fit(start, rel, sizes),
    ensures
        ({
            let gstarts = shifted(start, rel);
            size_before(
                oriented(gstarts, minus),
                oriented(summed(gstarts, sizes), minus),
                rel.len() as int,
            ) == sum_of(sizes, sizes.len() as int)
        }),
{
    let gstarts = shifted(start, rel);
    let gends = summed(gstarts, sizes);
    let n = rel.len() as int;
    assert(sums_fit(gstarts, sizes));
    if minus {
        let rs = sizes.reverse();
        assert(sums_fit(gstarts.reverse(), rs));
        assert(summed(gstarts.reverse(), rs) =~= gends.reverse());
        lemma_size_before_is_sum(gstarts.reverse(), rs, n);
        lemma_sum_reversed(sizes, n);
    } else {
        lemma_size_before_is_sum(gstarts, sizes, n);
    }
}

/// Blocks that pass [`blocks_ok`] give a well-formed exon list whose sizes
/// add up to the sum of the block sizes.
pub proof fn lemma_block_exons(start: u64, rel: Seq<u64>, sizes: Seq<u64>, minus: bool)
    requires
        blocks_ok(start, rel, sizes, minus),
    ensures
        exons_wf(block_exons(start, rel, sizes, minus)),
        block_exons(start, rel, sizes, minus).len() == sizes.len(),
        total_size(block_exons(start, rel, sizes, minus)) == sum_of(sizes, sizes.len() as int),
        0 <= sum_of(sizes, sizes.len() as int) < u64::MAX,
{
    let gstarts = shifted(start, rel);
    let tstarts = oriented(gstarts, minus);
    let tends = oriented(summed(gstarts, sizes), minus);
    lemma_exons_of_wf(tstarts, tends);
    lemma_block_total(start, rel, sizes, minus);
    lemma_size_before_grows(tstarts, tends, 0, tstarts.len() as int);
}

/// The exons of a transcript are contiguous in transcript coordinates: the
/// first begins at position 1 and each other one begins at the position
/// after the end of the one before it.
pub proof fn exons_contiguous(exons: Seq<Exon>)
    requires
        exons_wf(exons),
    ensures
        exons.len() > 0 ==> exons[0].tstart == 1,
        forall|i: int| 0 <= i < exons.len() - 1 ==> exons[i + 1].tstart == exons[i].tend + 1,
{
    if exons.len() > 0 {
        assert(begins_in_turn(exons, 0));
    }
    assert forall|i: int| 0 <= i < exons.len() - 1 implies exons[i + 1].tstart == exons[i].tend
        + 1 by {
        assert(begins_in_turn(exons, i + 1));
    }
}

/// The exons of a BED12 line are contiguous in transcript coordinates: the
/// first begins at position 1 and each other one begins at the position
/// after the end of the one before it.
pub proof fn line_exons_contiguous(line: Seq<char>)
    requires
        bed12_of(line) is Some,
    ensures
        ({
            let exons = (bed12_of(line)->0).exons;
            &&& exons.len() > 0
            &&& exons[0].tstart == 1
            &&& forall|i: int| 0 <= i < exons.len() - 1 ==> exons[i + 1].tstart == exons[i].tend + 1
        }),
{
    let f = fields(line);
    let start = u64_of(f[1])->0;
    let sizes = u64_list_of(f[10])->0;
    let rel = u64_list_of(f[11])->0;
    let minus = minus_strand(f[5]);
    lemma_block_exons(start, rel, sizes, minus);
    lemma_list_has_items(f[10]);
    exons_contiguous(block_exons(start, rel, sizes, minus));
}

/// The sizes of the exons of a BED12 line add up to its transcript length.
pub proof fn transcript_length_is_exon_total(line: Seq<char>)
    requires
        bed12_of(line) is Some,
    ensures
        ({
            let rec = bed12_of(line)->0;
            total_size(rec.exons) == rec.transcript_length
        }),
{
    let f = fields(line);
    let start = u64_of(f[1])->0;
    let sizes = u64_list_of(f[10])->0;
    let rel = u64_list_of(f[11])->0;
    let minus = minus_strand(f[5]);
    lemma_block_exons(start, rel, sizes, minus);
}

/// A transcript on the minus strand, built from the same block starts and
/// sizes as one on the plus strand, has the same exons in the opposite
/// order: its exon `i` is the block that is exon `n - 1 - i` on the plus
/// strand. Its transcript positions are counted anew: the first exon begins
/// at position 1, each exon follows the one before it, and the transcript
/// length is the same.
pub proof fn minus_strand_reverses(start: u64, rel: Seq<u64>, sizes: Seq<u64>)
    requires
        blocks_ok(start, rel, sizes, false),
    ensures
        blocks_ok(start, rel, sizes, true),
        ({
            let plus = block_exons(start, rel, sizes, false);
            let minus = block_exons(start, rel, sizes, true);
            let n = plus.len();
            &&& minus.len() == n
            &&& forall|i: int|
                0 <= i < n ==> {
                    &&& (#[trigger] minus[i]).gstart == plus[n - 1 - i].gstart
                    &&& minus[i].gend == plus[n - 1 - i].gend
                    &&& minus[i].exon_size == plus[n - 1 - i].exon_size
                }
            &&& exons_wf(minus)
            &&& n > 0 ==> minus[0].tstart == 1
            &&& total_size(minus) == total_size(plus)
        }),
{
    let gstarts = shifted(start, rel);
    let gends = summed(gstarts, sizes);
    lemma_block_total(start, rel, sizes, false);
    lemma_block_total(start, rel, sizes, true);
    assert(spans_ok(gstarts.reverse(), gends.reverse()));
    lemma_exons_of_wf(gstarts, gends);
    lemma_exons_of_wf(gstarts.reverse(), gends.reverse());
    let minus = block_exons(start, rel, sizes, true);
    if minus.len() > 0 {
        assert(begins_in_turn(minus, 0));
    }
}

} // verus!
