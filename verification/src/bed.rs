//! BED records: a named interval on a chromosome, and the test whether two
//! intervals overlap.

use crate::error::Error;
use crate::number::{format_region, i64_of, parse_i64, parse_u64, region_text, u64_of};
use crate::text::{field_ranges, fields, range_text, to_chars};
use vstd::math::{max, min};
use vstd::prelude::*;

verus! {

/// Whether the range from `a_start` to `a_end` and the range from `b_start`
/// to `b_end` overlap: the later of the two starts is no greater than the
/// earlier of the two ends. Both ends count, so two ranges of which one ends
/// where the other starts overlap.
pub open spec fn overlaps(a_start: int, a_end: int, b_start: int, b_end: int) -> bool {
    max(a_start, b_start) <= min(a_end, b_end)
}

/// Which of two ranges is named first makes no difference to whether they
/// overlap.
pub proof fn overlap_symmetric(a_start: int, a_end: int, b_start: int, b_end: int)
    ensures
        overlaps(a_start, a_end, b_start, b_end) == overlaps(b_start, b_end, a_start, a_end),
{
}

/// Decides [`overlaps`] for two ranges of genome coordinates.
pub fn ranges_overlap(a_start: u64, a_end: u64, b_start: u64, b_end: u64) -> (b: bool)
    ensures
        b == overlaps(a_start as int, a_end as int, b_start as int, b_end as int),
{
    let later_start = if a_start >= b_start {
        a_start
    } else {
        b_start
    };
    let earlier_end = if a_end <= b_end {
        a_end
    } else {
        b_end
    };
    later_start <= earlier_end
}

/// An interval `[start, end)` on a chromosome, with a name and a strand.
#[derive(Debug)]
pub struct BedRecord {
    pub chrom: String,
    pub start: u64,
    pub end: u64,
    pub name: String,
    pub strand: String,
}

/// What a [`BedRecord`] holds, as plain values.
pub struct BedView {
    pub chrom: Seq<char>,
    pub start: u64,
    pub end: u64,
    pub name: Seq<char>,
    pub strand: Seq<char>,
}

impl View for BedRecord {
    type V = BedView;

    open spec fn view(&self) -> BedView {
        BedView {
            chrom: self.chrom@,
            start: self.start,
            end: self.end,
            name: self.name@,
            strand: self.strand@,
        }
    }
}

/// The record that a BED line describes, or `None` if the line does not
/// follow the format.
///
/// A line has at least six tab-separated fields: chromosome, start, end,
/// name, score and strand. The score must be a number and is not kept. The
/// line is refused if start, end or score cannot be read as a number, or if
/// the interval ends before it starts.
pub open spec fn bed_of(line: Seq<char>) -> Option<BedView> {
    let f = fields(line);
    if f.len() < 6 || u64_of(f[1]) is None || u64_of(f[2]) is None || i64_of(f[4]) is None {
        None
    } else {
        let start = u64_of(f[1])->0;
        let end = u64_of(f[2])->0;
        if start <= end {
            Some(BedView { chrom: f[0], start, end, name: f[3], strand: f[5] })
        } else {
            None
        }
    }
}

impl BedRecord {
    /// The interval does not end before it starts.
    pub open spec fn wf(&self) -> bool {
        self.start <= self.end
    }

    /// Reads one BED line.
    pub fn new(bedline: String) -> (r: Result<BedRecord, Error>)
        ensures
            match r {
                Ok(rec) => bed_of(bedline@) == Some(rec@) && rec.wf(),
                Err(e) => e == Error::FormatError && bed_of(bedline@) is None,
            },
    {
        let line = bedline.as_str();
        let chars = to_chars(line);
        let f = field_ranges(&chars);
        if f.len() < 6 {
            return Err(Error::FormatError);
        }
        let ghost fs = fields(bedline@);
        assert(forall|k: int| 0 <= k < 6 ==> chars@.subrange(f[k].0 as int, f[k].1 as int) == fs[k]);
        let start = match parse_u64(&chars, f[1].0, f[1].1) {
            Some(v) => v,
            None => {
                return Err(Error::FormatError);
            },
        };
        let end = match parse_u64(&chars, f[2].0, f[2].1) {
            Some(v) => v,
            None => {
                return Err(Error::FormatError);
            },
        };
        if start > end || parse_i64(&chars, f[4].0, f[4].1).is_none() {
            return Err(Error::FormatError);
        }
        Ok(
            BedRecord {
                chrom: range_text(line, f[0]),
                start,
                end,
                name: range_text(line, f[3]),
                strand: range_text(line, f[5]),
            },
        )
    }

    /// The record's region as text: chromosome, colon, start, hyphen, end.
    pub fn coordinate(&self) -> (r: String)
        ensures
            r@ == region_text(self.chrom@, self.start, self.end),
    {
        format_region(self.chrom.as_str(), self.start, self.end)
    }

    /// Whether the record overlaps the range from `start` to `end`.
    pub fn overlap(&self, start: u64, end: u64) -> (b: bool)
        ensures
            b == overlaps(self.start as int, self.end as int, start as int, end as int),
    {
        ranges_overlap(self.start, self.end, start, end)
    }
}

} // verus!
