//! The classification of the exons of a transcript by its coding sequence.
//!
//! The coding sequence runs from the coding start to the coding end, both
//! given as genome coordinates. An exon holds a coordinate that lies on it
//! or at one of its two ends.

use crate::error::Error;
use crate::transcriptome::Exon;
use vstd::prelude::*;

verus! {

/// Whether `pos` lies on the exon from `start` to `end`, both ends counted.
pub open spec fn holds(start: u64, end: u64, pos: u64) -> bool {
    start <= pos <= end
}

/// Whether one of the first `n` exons holds `pos`.
pub open spec fn seen(starts: Seq<u64>, ends: Seq<u64>, pos: u64, n: int) -> bool {
    exists|j: int| 0 <= j < n && holds(#[trigger] starts[j], ends[j], pos)
}

/// Whether a transcript is coding. Equal coding start and end mark one that
/// is not.
pub open spec fn is_coding(cds_start: u64, cds_end: u64) -> bool {
    cds_start != cds_end
}

/// Exon `i` of a transcript whose exons are given in transcript order, as
/// one walk along the exons classifies it.
///
/// The walk knows of each coding boundary whether an exon before the
/// current one held it. The first exon that holds the coding start is
/// marked as holding it, and no later one; the same for the coding end. The
/// coding run is entered at the first exon that holds either boundary and
/// left after the exon by which both have been held: an exon is coding if
/// the run has been entered at or before it and not left before it. In a
/// transcript that is not coding no exon is marked.
pub open spec fn classified(
    starts: Seq<u64>,
    ends: Seq<u64>,
    cds_start: u64,
    cds_end: u64,
    i: int,
) -> Exon {
    let coding = is_coding(cds_start, cds_end);
    let entered = seen(starts, ends, cds_start, i + 1) || seen(starts, ends, cds_end, i + 1);
    let left = seen(starts, ends, cds_start, i) && seen(starts, ends, cds_end, i);
    Exon {
        start: starts[i],
        end: ends[i],
        exon_length: (ends[i] - starts[i]) as u64,
        coding_exon: coding && entered && !left,
        contain_cds: coding && holds(starts[i], ends[i], cds_start) && !seen(
            starts,
            ends,
            cds_start,
            i,
        ),
        contain_cde: coding && holds(starts[i], ends[i], cds_end) && !seen(
            starts,
            ends,
            cds_end,
            i,
        ),
    }
}

/// The classified exons of a transcript whose exons are given in transcript
/// order.
pub open spec fn classify(starts: Seq<u64>, ends: Seq<u64>, cds_start: u64, cds_end: u64) -> Seq<
    Exon,
> {
    Seq::new(starts.len(), |i: int| classified(starts, ends, cds_start, cds_end, i))
}

/// Whether the exons of a transcript can be classified: one end for each
/// start, no exon that ends before it starts, and, in a coding transcript,
/// an exon that holds the coding start.
pub open spec fn classify_ok(starts: Seq<u64>, ends: Seq<u64>, cds_start: u64, cds_end: u64) -> bool {
    &&& starts.len() == ends.len()
    &&& forall|i: int| 0 <= i < starts.len() ==> starts[i] <= ends[i]
    &&& is_coding(cds_start, cds_end) ==> seen(starts, ends, cds_start, starts.len() as int)
}

/// Classifies the exons of a transcript, given in transcript order, by the
/// coding sequence from `cds_start` to `cds_end` (see [`classified`]).
/// Refuses lists of different lengths, an exon that ends before it starts,
/// and a coding transcript of which no exon holds the coding start.
pub fn classify_exons(starts: &Vec<u64>, ends: &Vec<u64>, cds_start: u64, cds_end: u64) -> (r:
    Result<Vec<Exon>, Error>)
    ensures
        match r {
            Ok(exons) => classify_ok(starts@, ends@, cds_start, cds_end) && exons@ == classify(
                starts@,
                ends@,
                cds_start,
                cds_end,
            ),
            Err(e) => e == Error::FormatError && !classify_ok(starts@, ends@, cds_start, cds_end),
        },
{
    let n = starts.len();
    if ends.len() != n {
        return Err(Error::FormatError);
    }
    let coding = cds_start != cds_end;
    let mut exon_vec: Vec<Exon> = Vec::new();
    let mut seen_start = false;
    let mut seen_end = false;
    let mut i: usize = 0;
    proof {
        lemma_seen_next(starts@, ends@, cds_start, 0);
        lemma_seen_next(starts@, ends@, cds_end, 0);
    }
    while i < n
        invariant
            i <= n == starts.len() == ends.len(),
            coding == is_coding(cds_start, cds_end),
            forall|k: int| 0 <= k < i ==> starts[k] <= ends[k],
            seen_start == seen(starts@, ends@, cds_start, i as int),
            seen_end == seen(starts@, ends@, cds_end, i as int),
            exon_vec.len() == i,
            forall|k: int|
                0 <= k < i ==> exon_vec[k] == classified(starts@, ends@, cds_start, cds_end, k),
        decreases n - i,
    {
        let exon_start = starts[i];
        let exon_end = ends[i];
        if exon_start > exon_end {
            return Err(Error::FormatError);
        }
        proof {
            lemma_seen_next(starts@, ends@, cds_start, i as int);
            lemma_seen_next(starts@, ends@, cds_end, i as int);
        }
        let holds_start = exon_start <= cds_start && cds_start <= exon_end;
        let holds_end = exon_start <= cds_end && cds_end <= exon_end;
        let contain_cds = coding && holds_start && !seen_start;
        let contain_cde = coding && holds_end && !seen_end;
        let left = seen_start && seen_end;
        seen_start = seen_start || holds_start;
        seen_end = seen_end || holds_end;
        let coding_exon = coding && (seen_start || seen_end) && !left;
        exon_vec.push(Exon::new(exon_start, exon_end, coding_exon, contain_cds, contain_cde));
        i += 1;
    }
    if coding && !seen_start {
        return Err(Error::FormatError);
    }
    assert(exon_vec@ =~= classify(starts@, ends@, cds_start, cds_end));
    Ok(exon_vec)
}

/// One more exon has been seen to hold `pos` if it does, or if one before it did.
pub proof fn lemma_seen_next(starts: Seq<u64>, ends: Seq<u64>, pos: u64, n: int)
    requires
        0 <= n,
    ensures
        seen(starts, ends, pos, n + 1) == (seen(starts, ends, pos, n) || holds(
            starts[n],
            ends[n],
            pos,
        )),
        !seen(starts, ends, pos, 0),
{
    if seen(starts, ends, pos, n + 1) {
        let j = choose|j: int| 0 <= j < n + 1 && holds(#[trigger] starts[j], ends[j], pos);
        if j < n {
            assert(seen(starts, ends, pos, n));
        }
    }
    if seen(starts, ends, pos, n) {
        let j = choose|j: int| 0 <= j < n && holds(#[trigger] starts[j], ends[j], pos);
        assert(0 <= j < n + 1 && holds(starts[j], ends[j], pos));
    }
    if holds(starts[n], ends[n], pos) {
        assert(0 <= n < n + 1 && holds(starts[n], ends[n], pos));
    }
}

/// The first exon that holds `pos`.
pub open spec fn first_holding(starts: Seq<u64>, ends: Seq<u64>, pos: u64) -> int {
    choose|j: int|
        0 <= j < starts.len() && holds(#[trigger] starts[j], ends[j], pos) && !seen(
            starts,
            ends,
            pos,
            j,
        )
}

/// Where one of the first `n` exons holds `pos`, one of them is the first
/// to hold it.
proof fn lemma_first_exists(starts: Seq<u64>, ends: Seq<u64>, pos: u64, n: int)
    requires
        0 <= n <= starts.len(),
        seen(starts, ends, pos, n),
    ensures
        exists|j: int|
            0 <= j < n && holds(#[trigger] starts[j], ends[j], pos) && !seen(starts, ends, pos, j),
    decreases n,
{
    if n > 0 {
        lemma_seen_next(starts, ends, pos, n - 1);
        if seen(starts, ends, pos, n - 1) {
            lemma_first_exists(starts, ends, pos, n - 1);
        } else {
            assert(holds(starts[n - 1], ends[n - 1], pos));
        }
    }
}

/// Where some exon holds `pos`, [`first_holding`] names one that does, no
/// exon up to it has been seen to hold `pos`, and every later one has.
pub proof fn lemma_first_holding(starts: Seq<u64>, ends: Seq<u64>, pos: u64)
    requires
        seen(starts, ends, pos, starts.len() as int),
    ensures
        0 <= first_holding(starts, ends, pos) < starts.len(),
        holds(
            starts[first_holding(starts, ends, pos)],
            ends[first_holding(starts, ends, pos)],
            pos,
        ),
        forall|i: int|
            0 <= i <= starts.len() ==> (#[trigger] seen(starts, ends, pos, i) <==> first_holding(
                starts,
                ends,
                pos,
            ) < i),
{
    lemma_first_exists(starts, ends, pos, starts.len() as int);
    let s = first_holding(starts, ends, pos);
    assert forall|i: int| 0 <= i <= starts.len() implies (#[trigger] seen(starts, ends, pos, i)
        <==> s < i) by {
        if seen(starts, ends, pos, i) {
            let j = choose|j: int| 0 <= j < i && holds(#[trigger] starts[j], ends[j], pos);
            if i <= s {
                assert(0 <= j < s && holds(starts[j], ends[j], pos));
            }
        }
        if s < i {
            assert(0 <= s < i && holds(starts[s], ends[s], pos));
        }
    }
}

/// In a coding transcript of which some exon holds the coding start and
/// some exon holds the coding end, exactly one exon is marked as holding the
/// start, exactly one as holding the end (it may be the same exon), and the
/// coding exons are exactly those from one of the two up to the other.
pub proof fn coding_run(starts: Seq<u64>, ends: Seq<u64>, cds_start: u64, cds_end: u64)
    requires
        classify_ok(starts, ends, cds_start, cds_end),
        is_coding(cds_start, cds_end),
        seen(starts, ends, cds_end, starts.len() as int),
    ensures
        ({
            let exons = classify(starts, ends, cds_start, cds_end);
            let s = first_holding(starts, ends, cds_start);
            let e = first_holding(starts, ends, cds_end);
            &&& 0 <= s < exons.len()
            &&& 0 <= e < exons.len()
            &&& forall|i: int|
                0 <= i < exons.len() ==> {
                    &&& (#[trigger] exons[i]).contain_cds == (i == s)
                    &&& exons[i].contain_cde == (i == e)
                    &&& exons[i].coding_exon == (s <= i <= e || e <= i <= s)
                }
        }),
{
    lemma_first_holding(starts, ends, cds_start);
    lemma_first_holding(starts, ends, cds_end);
    let exons = classify(starts, ends, cds_start, cds_end);
    let s = first_holding(starts, ends, cds_start);
    let e = first_holding(starts, ends, cds_end);
    assert forall|i: int| 0 <= i < exons.len() implies {
        &&& (#[trigger] exons[i]).contain_cds == (i == s)
        &&& exons[i].contain_cde == (i == e)
        &&& exons[i].coding_exon == (s <= i <= e || e <= i <= s)
    } by {
        lemma_seen_next(starts, ends, cds_start, i);
        lemma_seen_next(starts, ends, cds_end, i);
        assert(seen(starts, ends, cds_start, i) <==> s < i);
        assert(seen(starts, ends, cds_end, i) <==> e < i);
        assert(seen(starts, ends, cds_start, i + 1) <==> s < i + 1);
        assert(seen(starts, ends, cds_end, i + 1) <==> e < i + 1);
    }
}

/// Whether no two of the exons have a coordinate in common, ends counted.
pub open spec fn exons_apart(starts: Seq<u64>, ends: Seq<u64>) -> bool {
    forall|i: int, j: int|
        0 <= i < j < starts.len() ==> (#[trigger] ends[i]) < (#[trigger] starts[j]) || ends[j]
            < starts[i]
}

/// Where no two exons have a coordinate in common, an exon of a coding
/// transcript is marked as holding the coding start exactly if the coding
/// start lies on it, and likewise for the coding end.
pub proof fn marks_are_containment(starts: Seq<u64>, ends: Seq<u64>, cds_start: u64, cds_end: u64)
    requires
        classify_ok(starts, ends, cds_start, cds_end),
        is_coding(cds_start, cds_end),
        exons_apart(starts, ends),
    ensures
        ({
            let exons = classify(starts, ends, cds_start, cds_end);
            forall|i: int|
                0 <= i < exons.len() ==> {
                    &&& (#[trigger] exons[i]).contain_cds == holds(starts[i], ends[i], cds_start)
                    &&& exons[i].contain_cde == holds(starts[i], ends[i], cds_end)
                }
        }),
{
    let exons = classify(starts, ends, cds_start, cds_end);
    assert forall|i: int| 0 <= i < exons.len() implies {
        &&& (#[trigger] exons[i]).contain_cds == holds(starts[i], ends[i], cds_start)
        &&& exons[i].contain_cde == holds(starts[i], ends[i], cds_end)
    } by {
        if holds(starts[i], ends[i], cds_start) && seen(starts, ends, cds_start, i) {
            let j = choose|j: int| 0 <= j < i && holds(#[trigger] starts[j], ends[j], cds_start);
            assert(ends[j] < starts[i] || ends[i] < starts[j]);
        }
        if holds(starts[i], ends[i], cds_end) && seen(starts, ends, cds_end, i) {
            let j = choose|j: int| 0 <= j < i && holds(#[trigger] starts[j], ends[j], cds_end);
            assert(ends[j] < starts[i] || ends[i] < starts[j]);
        }
    }
}

} // verus!
