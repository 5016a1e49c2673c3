//! Transcripts read from refFlat lines, and the genes and the transcriptome
//! that collect them.

use crate::cds::{classify, classify_exons, classify_ok};
use crate::error::Error;
use crate::number::{parse_u64, parse_u64_list, u64_list_of, u64_of};
use crate::strand::{is_minus, minus_strand, orient, oriented};
use crate::text::{field_ranges, fields, range_text, to_chars};
use vstd::hash_map::StringHashMap;
use vstd::prelude::*;

verus! {

/// One exon of a refFlat transcript, with its place relative to the coding
/// sequence.
#[derive(Debug, Clone, Copy, PartialEq, Eq, Structural)]
pub struct Exon {
    /// Genome coordinate at which the exon begins.
    pub start: u64,
    /// Genome coordinate at which the exon ends.
    pub end: u64,
    /// Number of bases in the exon.
    pub exon_length: u64,
    /// Whether the exon lies in the run of exons that carries the coding
    /// sequence.
    pub coding_exon: bool,
    /// Whether the exon is the one that holds the coding start.
    pub contain_cds: bool,
    /// Whether the exon is the one that holds the coding end.
    pub contain_cde: bool,
}

impl Exon {
    /// The exon does not end before it starts, and its length is the
    /// distance from start to end.
    pub open spec fn wf(&self) -> bool {
        self.start <= self.end && self.exon_length == self.end - self.start
    }

    /// The exon from `start` to `end` with the given marks.
    pub(crate) fn new(start: u64, end: u64, coding_exon: bool, contain_cds: bool, contain_cde: bool) -> (e:
        Exon)
        requires
            start <= end,
        ensures
            e == (Exon {
                start,
                end,
                exon_length: (end - start) as u64,
                coding_exon,
                contain_cds,
                contain_cde,
            }),
    {
        let exon_length = end - start;
        Exon { start, end, exon_length, coding_exon, contain_cds, contain_cde }
    }
}

/// The classified exons that two lists of a refFlat line describe, in
/// transcript order, or `None` if they describe none.
///
/// Each list is comma-separated and may end in a comma; the first holds the
/// genomic starts of the exons in ascending order, the second their ends.
/// On the minus strand the exons are taken from last to first. The lists
/// are refused if an item is not a number, if they differ in length, if an
/// exon ends before it starts, or if the transcript is coding and no exon
/// holds its coding start.
pub open spec fn listed_exons(
    exon_starts: Seq<char>,
    exon_ends: Seq<char>,
    cds_start: u64,
    cds_end: u64,
    minus: bool,
) -> Option<Seq<Exon>> {
    if u64_list_of(exon_starts) is None || u64_list_of(exon_ends) is None {
        None
    } else {
        let starts = oriented(u64_list_of(exon_starts)->0, minus);
        let ends = oriented(u64_list_of(exon_ends)->0, minus);
        if classify_ok(starts, ends, cds_start, cds_end) {
            Some(classify(starts, ends, cds_start, cds_end))
        } else {
            None
        }
    }
}

/// Reads the exons of a refFlat line from its two lists and classifies them
/// (see [`listed_exons`]).
pub fn parse_exons(
    exon_starts: String,
    exon_ends: String,
    cds_start: u64,
    cds_end: u64,
    strand: &String,
) -> (r: Result<Vec<Exon>, Error>)
    ensures
        match r {
            Ok(exons) => listed_exons(
                exon_starts@,
                exon_ends@,
                cds_start,
                cds_end,
                minus_strand(strand@),
            ) == Some(exons@),
            Err(e) => e == Error::FormatError && listed_exons(
                exon_starts@,
                exon_ends@,
                cds_start,
                cds_end,
                minus_strand(strand@),
            ) is None,
        },
{
    let start_chars = to_chars(exon_starts.as_str());
    let end_chars = to_chars(exon_ends.as_str());
    assert(start_chars@.subrange(0, start_chars.len() as int) =~= exon_starts@);
    assert(end_chars@.subrange(0, end_chars.len() as int) =~= exon_ends@);
    let exon_start_vec = match parse_u64_list(&start_chars, 0, start_chars.len()) {
        Some(v) => v,
        None => {
            return Err(Error::FormatError);
        },
    };
    let exon_end_vec = match parse_u64_list(&end_chars, 0, end_chars.len()) {
        Some(v) => v,
        None => {
            return Err(Error::FormatError);
        },
    };
    let minus = is_minus(strand.as_str());
    let exon_start_vec = orient(exon_start_vec, minus);
    let exon_end_vec = orient(exon_end_vec, minus);
    classify_exons(&exon_start_vec, &exon_end_vec, cds_start, cds_end)
}

/// The sum of the lengths of the first `n` exons.
pub open spec fn length_sum(exons: Seq<Exon>, n: int) -> int
    decreases n,
{
    if n <= 0 {
        0
    } else {
        length_sum(exons, n - 1) + exons[n - 1].exon_length
    }
}

/// Exon lengths add up, never down.
proof fn lemma_length_sum_grows(exons: Seq<Exon>, i: int, j: int)
    requires
        0 <= i <= j,
    ensures
        0 <= length_sum(exons, i) <= length_sum(exons, j),
    decreases j,
{
    if i < j {
        lemma_length_sum_grows(exons, i, j - 1);
    } else if i > 0 {
        lemma_length_sum_grows(exons, i - 1, j - 1);
    }
}

/// The sum of the lengths of the exons, or `None` if it does not fit in 64
/// bits.
fn total_length(exons: &Vec<Exon>) -> (r: Option<u64>)
    ensures
        match r {
            Some(v) => v == length_sum(exons@, exons.len() as int),
            None => length_sum(exons@, exons.len() as int) > u64::MAX,
        },
{
    let mut total: u64 = 0;
    let mut i: usize = 0;
    while i < exons.len()
        invariant
            i <= exons.len(),
            total == length_sum(exons@, i as int),
        decreases exons.len() - i,
    {
        match total.checked_add(exons[i].exon_length) {
            Some(v) => {
                total = v;
            },
            None => {
                proof {
                    lemma_length_sum_grows(exons@, i as int + 1, exons.len() as int);
                }
                return None;
            },
        }
        i += 1;
    }
    Some(total)
}

/// One transcript of a gene.
#[allow(non_snake_case)]
#[derive(Debug)]
pub struct Transcript {
    /// The identifier of the transcript.
    pub rnaId: String,
    /// Genome coordinate at which the transcript begins.
    pub start: u64,
    /// Genome coordinate at which the transcript ends.
    pub end: u64,
    pub strand: String,
    /// The exons in transcript order: on the minus strand the exon with the
    /// highest genome coordinates comes first.
    pub exons: Vec<Exon>,
    /// The number of bases in all exons together.
    pub transcript_length: u64,
}

/// What a [`Transcript`] holds, as plain values.
pub struct TranscriptView {
    pub id: Seq<char>,
    pub start: u64,
    pub end: u64,
    pub strand: Seq<char>,
    pub exons: Seq<Exon>,
    pub transcript_length: u64,
}

impl View for Transcript {
    type V = TranscriptView;

    open spec fn view(&self) -> TranscriptView {
        TranscriptView {
            id: self.rnaId@,
            start: self.start,
            end: self.end,
            strand: self.strand@,
            exons: self.exons@,
            transcript_length: self.transcript_length,
        }
    }
}

impl Transcript {
    /// The transcript does not end before it starts, each exon is well
    /// formed, and the transcript length is the sum of the exon lengths.
    pub open spec fn wf(&self) -> bool {
        &&& self.start <= self.end
        &&& forall|i: int| 0 <= i < self.exons.len() ==> (#[trigger] self.exons[i]).wf()
        &&& self.transcript_length == length_sum(self.exons@, self.exons.len() as int)
    }
}

/// What a refFlat line holds: the symbol of a gene, its chromosome and
/// strand, and one transcript of it.
pub struct RefFlatView {
    pub gene_name: Seq<char>,
    pub chrom: Seq<char>,
    pub strand: Seq<char>,
    pub transcript: TranscriptView,
}

/// What a refFlat line describes, or `None` if the line does not follow the
/// format.
///
/// A line has at least eleven tab-separated fields: gene symbol, transcript
/// identifier, chromosome, strand, transcript start and end, coding start
/// and end, exon count, exon starts and exon ends. The line is refused if a
/// number cannot be read, if the transcript ends before it starts, if the
/// exon lists are refused (see [`listed_exons`]), if the number of exons is
/// not the exon count, or if the exon lengths add up to more than 64 bits
/// hold.
pub open spec fn refflat_of(line: Seq<char>) -> Option<RefFlatView> {
    let f = fields(line);
    if f.len() < 11 || u64_of(f[4]) is None || u64_of(f[5]) is None || u64_of(f[6]) is None
        || u64_of(f[7]) is None || u64_of(f[8]) is None {
        None
    } else {
        let tx_start = u64_of(f[4])->0;
        let tx_end = u64_of(f[5])->0;
        let cds_start = u64_of(f[6])->0;
        let cds_end = u64_of(f[7])->0;
        let exon_count = u64_of(f[8])->0;
        match listed_exons(f[9], f[10], cds_start, cds_end, minus_strand(f[3])) {
            Some(exons) => {
                if tx_start <= tx_end && exon_count == exons.len() && length_sum(
                    exons,
                    exons.len() as int,
                ) <= u64::MAX {
                    Some(
                        RefFlatView {
                            gene_name: f[0],
                            chrom: f[2],
                            strand: f[3],
                            transcript: TranscriptView {
                                id: f[1],
                                start: tx_start,
                                end: tx_end,
                                strand: f[3],
                                exons,
                                transcript_length: length_sum(exons, exons.len() as int) as u64,
                            },
                        },
                    )
                } else {
                    None
                }
            },
            None => None,
        }
    }
}

/// Reads one refFlat line: the gene symbol, the chromosome, the strand and
/// the transcript.
pub fn parse_transcript(line: &str) -> (r: Result<(String, String, String, Transcript), Error>)
    ensures
        match r {
            Ok((gene_name, chrom, strand, transcript)) => refflat_of(line@) == Some(
                RefFlatView {
                    gene_name: gene_name@,
                    chrom: chrom@,
                    strand: strand@,
                    transcript: transcript@,
                },
            ) && transcript.wf(),
            Err(e) => e == Error::FormatError && refflat_of(line@) is None,
        },
{
    let chars = to_chars(line);
    let f = field_ranges(&chars);
    if f.len() < 11 {
        return Err(Error::FormatError);
    }
    let ghost fs = fields(line@);
    assert(forall|k: int| 0 <= k < 11 ==> chars@.subrange(f[k].0 as int, f[k].1 as int) == fs[k]);
    let tx_start = match parse_u64(&chars, f[4].0, f[4].1) {
        Some(v) => v,
        None => {
            return Err(Error::FormatError);
        },
    };
    let tx_end = match parse_u64(&chars, f[5].0, f[5].1) {
        Some(v) => v,
        None => {
            return Err(Error::FormatError);
        },
    };
    let cds_start = match parse_u64(&chars, f[6].0, f[6].1) {
        Some(v) => v,
        None => {
            return Err(Error::FormatError);
        },
    };
    let cds_end = match parse_u64(&chars, f[7].0, f[7].1) {
        Some(v) => v,
        None => {
            return Err(Error::FormatError);
        },
    };
    let exon_count = match parse_u64(&chars, f[8].0, f[8].1) {
        Some(v) => v,
        None => {
            return Err(Error::FormatError);
        },
    };
    let strand = range_text(line, f[3]);
    let exon_starts = range_text(line, f[9]);
    let exon_ends = range_text(line, f[10]);
    let exon_vec = match parse_exons(exon_starts, exon_ends, cds_start, cds_end, &strand) {
        Ok(v) => v,
        Err(e) => {
            return Err(e);
        },
    };
    if tx_start > tx_end || exon_vec.len() as u64 != exon_count {
        return Err(Error::FormatError);
    }
    let transcript_length = match total_length(&exon_vec) {
        Some(v) => v,
        None => {
            return Err(Error::FormatError);
        },
    };
    let transcript = Transcript {
        rnaId: range_text(line, f[1]),
        start: tx_start,
        end: tx_end,
        strand: strand.clone(),
        exons: exon_vec,
        transcript_length,
    };
    Ok((range_text(line, f[0]), range_text(line, f[2]), strand, transcript))
}

/// Whether one of the transcripts has the identifier `id`.
pub open spec fn has_id(transcripts: Seq<Transcript>, id: Seq<char>) -> bool {
    exists|i: int| 0 <= i < transcripts.len() && (#[trigger] transcripts[i]).rnaId@ == id
}

/// Whether transcript `i` is the first with the identifier `id`.
pub open spec fn is_first_with(transcripts: Seq<Transcript>, id: Seq<char>, i: int) -> bool {
    &&& 0 <= i < transcripts.len()
    &&& transcripts[i].rnaId@ == id
    &&& forall|j: int| 0 <= j < i ==> (#[trigger] transcripts[j]).rnaId@ != id
}

/// The place of the first transcript with the identifier `id`.
pub open spec fn position_of(transcripts: Seq<Transcript>, id: Seq<char>) -> int {
    choose|i: int| is_first_with(transcripts, id, i)
}

/// Whether no two of the transcripts have the same identifier.
pub open spec fn ids_unique(transcripts: Seq<Transcript>) -> bool {
    forall|i: int, j: int|
        0 <= i < j < transcripts.len() ==> (#[trigger] transcripts[i]).rnaId@
            != (#[trigger] transcripts[j]).rnaId@
}

/// The transcripts as a map from their identifiers. Of two transcripts with
/// one identifier the map holds the first.
pub open spec fn by_id(transcripts: Seq<Transcript>) -> Map<Seq<char>, TranscriptView> {
    Map::new(
        |id: Seq<char>| has_id(transcripts, id),
        |id: Seq<char>| transcripts[position_of(transcripts, id)]@,
    )
}

/// Where transcript `n` has the identifier, some transcript is the first
/// to have it.
proof fn lemma_first_below(transcripts: Seq<Transcript>, id: Seq<char>, n: int)
    requires
        0 <= n < transcripts.len(),
        transcripts[n].rnaId@ == id,
    ensures
        exists|i: int| is_first_with(transcripts, id, i),
    decreases n,
{
    if exists|j: int| 0 <= j < n && (#[trigger] transcripts[j]).rnaId@ == id {
        let j = choose|j: int| 0 <= j < n && (#[trigger] transcripts[j]).rnaId@ == id;
        lemma_first_below(transcripts, id, j);
    } else {
        assert(is_first_with(transcripts, id, n));
    }
}

/// [`position_of`] names the first transcript with an identifier, where
/// there is one, and there is no other first.
pub proof fn lemma_position_of(transcripts: Seq<Transcript>, id: Seq<char>)
    requires
        has_id(transcripts, id),
    ensures
        is_first_with(transcripts, id, position_of(transcripts, id)),
        forall|i: int| is_first_with(transcripts, id, i) ==> i == position_of(transcripts, id),
{
    let n = choose|i: int| 0 <= i < transcripts.len() && (#[trigger] transcripts[i]).rnaId@ == id;
    lemma_first_below(transcripts, id, n);
    let p = position_of(transcripts, id);
    assert forall|i: int| is_first_with(transcripts, id, i) implies i == p by {
        if i < p {
            assert(transcripts[i].rnaId@ == id);
        } else if p < i {
            assert(transcripts[p].rnaId@ == id);
        }
    }
}

/// `transcripts` with one more: in the place of the first transcript with
/// the same identifier, or at the end if there is none.
pub open spec fn put(transcripts: Seq<Transcript>, transcript: Transcript) -> Seq<Transcript> {
    if has_id(transcripts, transcript.rnaId@) {
        transcripts.update(position_of(transcripts, transcript.rnaId@), transcript)
    } else {
        transcripts.push(transcript)
    }
}

/// A gene: its chromosome, its strand and its transcripts.
#[derive(Debug)]
pub struct Gene {
    pub chrom: String,
    pub strand: String,
    /// The transcripts of the gene, no two with the same identifier.
    pub transcripts: Vec<Transcript>,
}

/// What a [`Gene`] holds, as plain values: its transcripts are a map from
/// their identifiers.
pub struct GeneView {
    pub chrom: Seq<char>,
    pub strand: Seq<char>,
    pub transcripts: Map<Seq<char>, TranscriptView>,
}

impl View for Gene {
    type V = GeneView;

    open spec fn view(&self) -> GeneView {
        GeneView {
            chrom: self.chrom@,
            strand: self.strand@,
            transcripts: by_id(self.transcripts@),
        }
    }
}

/// The gene that holds one transcript.
pub open spec fn single_gene(
    chrom: Seq<char>,
    strand: Seq<char>,
    transcript: TranscriptView,
) -> GeneView {
    GeneView {
        chrom,
        strand,
        transcripts: Map::<Seq<char>, TranscriptView>::empty().insert(transcript.id, transcript),
    }
}

/// `gene` with one more transcript. A transcript of the gene that has the
/// same identifier is replaced; chromosome and strand stay as they are.
pub open spec fn with_transcript(gene: GeneView, transcript: TranscriptView) -> GeneView {
    GeneView {
        chrom: gene.chrom,
        strand: gene.strand,
        transcripts: gene.transcripts.insert(transcript.id, transcript),
    }
}

impl Gene {
    /// The gene has a transcript, and no two of its transcripts have the
    /// same identifier.
    pub open spec fn wf(&self) -> bool {
        &&& self.transcripts.len() > 0
        &&& ids_unique(self.transcripts@)
    }

    /// A gene with one transcript.
    pub fn new(chrom: String, strand: String, transcript: Transcript) -> (g: Gene)
        ensures
            g.wf(),
            g@ == single_gene(chrom@, strand@, transcript@),
            g.transcripts@ == seq![transcript],
    {
        let mut transcripts: Vec<Transcript> = Vec::new();
        transcripts.push(transcript);
        let g = Gene { chrom, strand, transcripts };
        proof {
            let ts = g.transcripts@;
            assert(ts =~= seq![transcript]);
            assert(is_first_with(ts, transcript.rnaId@, 0));
            assert forall|id: Seq<char>| has_id(ts, id) <==> id == transcript.rnaId@ by {
                if id == transcript.rnaId@ {
                    assert(ts[0].rnaId@ == id);
                }
            }
            lemma_position_of(ts, transcript.rnaId@);
            assert(g@.transcripts =~= single_gene(chrom@, strand@, transcript@).transcripts);
        }
        g
    }

    /// Adds the first transcript of `gene` to this gene. A transcript that
    /// has the same identifier is replaced. The chromosome and the strand of
    /// `gene` are not compared with those of this gene, and its other
    /// transcripts are dropped.
    pub fn add_transcript(&mut self, gene: Gene)
        requires
            gene.transcripts.len() > 0,
        ensures
            final(self)@ == with_transcript(old(self)@, gene.transcripts[0]@),
            final(self).transcripts@ == put(old(self).transcripts@, gene.transcripts[0]),
            old(self).wf() ==> final(self).wf(),
    {
        let mut gene = gene;
        let transcript = gene.transcripts.swap_remove(0);
        let ghost before = self.transcripts@;
        let ghost id = transcript.rnaId@;
        let n = self.transcripts.len();
        let mut i: usize = 0;
        while i < n && self.transcripts[i].rnaId != transcript.rnaId
            invariant
                i <= n == self.transcripts.len(),
                self.transcripts@ == before,
                forall|k: int| 0 <= k < i ==> (#[trigger] before[k]).rnaId@ != id,
                id == transcript.rnaId@,
            decreases n - i,
        {
            i += 1;
        }
        if i < n {
            self.transcripts[i] = transcript;
        } else {
            self.transcripts.push(transcript);
        }
        proof {
            let after = self.transcripts@;
            assert(after[i as int] == transcript);
            assert(is_first_with(after, id, i as int));
            if i < n {
                assert(is_first_with(before, id, i as int));
                lemma_position_of(before, id);
            } else {
                assert(!has_id(before, id));
            }
            assert(after =~= put(before, transcript));
            assert forall|k: int| 0 <= k < after.len() && k != i implies (#[trigger] after[k])
                == before[k] by {}
            assert forall|key: Seq<char>| has_id(after, key) <==> (has_id(before, key) || key
                == id) by {
                if has_id(after, key) {
                    let k = choose|k: int|
                        0 <= k < after.len() && (#[trigger] after[k]).rnaId@ == key;
                    if k != i {
                        assert(before[k].rnaId@ == key);
                    }
                }
                if has_id(before, key) && key != id {
                    let k = choose|k: int|
                        0 <= k < before.len() && (#[trigger] before[k]).rnaId@ == key;
                    assert(after[k].rnaId@ == key);
                }
                if key == id {
                    assert(after[i as int].rnaId@ == key);
                }
            }
            assert forall|key: Seq<char>| has_id(after, key) implies by_id(after)[key]
                == with_transcript(old(self)@, transcript@).transcripts[key] by {
                lemma_position_of(after, key);
                if key != id {
                    lemma_position_of(before, key);
                    let j = position_of(before, key);
                    assert(after[j] == before[j]);
                    assert forall|m: int| 0 <= m < j implies (#[trigger] after[m]).rnaId@
                        != key by {
                        if m != i {
                            assert(after[m] == before[m]);
                        }
                    }
                    assert(is_first_with(after, key, j));
                }
            }
            assert(by_id(after) =~= with_transcript(old(self)@, transcript@).transcripts);
            if old(self).wf() {
                assert forall|a: int, b: int| 0 <= a < b < after.len() implies (
                #[trigger] after[a]).rnaId@ != (#[trigger] after[b]).rnaId@ by {
                    if a != i && b != i {
                        assert(after[a] == before[a]);
                        assert(after[b] == before[b]);
                    } else if a == i && i < n {
                        assert(after[b] == before[b]);
                        assert(before[i as int].rnaId@ == id);
                    } else if b == i && i < n {
                        assert(after[a] == before[a]);
                        assert(before[i as int].rnaId@ == id);
                    } else if b == i {
                        assert(after[a] == before[a]);
                    }
                }
            }
        }
    }

    /// The transcript with the identifier `id`.
    pub fn get(&self, id: &str) -> (r: Result<&Transcript, Error>)
        ensures
            match r {
                Ok(t) => self@.transcripts.contains_key(id@) && t@ == self@.transcripts[id@],
                Err(e) => e == Error::LookupError && !self@.transcripts.contains_key(id@),
            },
    {
        let key = id.to_owned();
        let mut i: usize = 0;
        while i < self.transcripts.len()
            invariant
                i <= self.transcripts.len(),
                key@ == id@,
                forall|k: int| 0 <= k < i ==> (#[trigger] self.transcripts[k]).rnaId@ != id@,
            decreases self.transcripts.len() - i,
        {
            if self.transcripts[i].rnaId == key {
                proof {
                    let ts = self.transcripts@;
                    assert(ts[i as int].rnaId@ == id@);
                    assert(is_first_with(ts, id@, i as int));
                    lemma_position_of(ts, id@);
                }
                return Ok(&self.transcripts[i]);
            }
            i += 1;
        }
        Err(Error::LookupError)
    }
}

/// `genes` after one more refFlat line. Where the map has the gene of the
/// line already, the transcript joins that gene (see [`with_transcript`]),
/// whatever chromosome and strand the line names; otherwise the map gets a
/// new gene with the chromosome and the strand of the line.
pub open spec fn merged(genes: Map<Seq<char>, GeneView>, line: RefFlatView) -> Map<
    Seq<char>,
    GeneView,
> {
    if genes.contains_key(line.gene_name) {
        genes.insert(line.gene_name, with_transcript(genes[line.gene_name], line.transcript))
    } else {
        genes.insert(line.gene_name, single_gene(line.chrom, line.strand, line.transcript))
    }
}

/// `names` with `name` at the end, unless it is among them.
pub open spec fn with_name(names: Seq<Seq<char>>, name: Seq<char>) -> Seq<Seq<char>> {
    if names.contains(name) {
        names
    } else {
        names.push(name)
    }
}

/// The texts of a list of strings.
pub open spec fn texts(strings: Seq<String>) -> Seq<Seq<char>> {
    Seq::new(strings.len(), |i: int| strings[i]@)
}

/// The gene symbols of the first `n` of `lines`, each once, in the order in
/// which the lines first name them. A line that does not follow the format
/// names none.
pub open spec fn loaded_names(lines: Seq<String>, n: int) -> Seq<Seq<char>>
    decreases n,
{
    if n <= 0 {
        Seq::empty()
    } else {
        match refflat_of(lines[n - 1]@) {
            Some(line) => with_name(loaded_names(lines, n - 1), line.gene_name),
            None => loaded_names(lines, n - 1),
        }
    }
}

/// The genes of those of the first `n` of `lines` that follow the format.
pub open spec fn loaded_skipping(lines: Seq<String>, n: int) -> Map<Seq<char>, GeneView>
    decreases n,
{
    if n <= 0 {
        Map::empty()
    } else {
        match refflat_of(lines[n - 1]@) {
            Some(line) => merged(loaded_skipping(lines, n - 1), line),
            None => loaded_skipping(lines, n - 1),
        }
    }
}

/// The places of those of the first `n` of `lines` that do not follow the
/// format, in ascending order.
pub open spec fn refused_lines(lines: Seq<String>, n: int) -> Seq<usize>
    decreases n,
{
    if n <= 0 {
        Seq::empty()
    } else if refflat_of(lines[n - 1]@) is None {
        refused_lines(lines, n - 1).push((n - 1) as usize)
    } else {
        refused_lines(lines, n - 1)
    }
}

/// The genes of the first `n` of `lines`, or `None` if one of these lines
/// does not follow the format.
pub open spec fn loaded(lines: Seq<String>, n: int) -> Option<Map<Seq<char>, GeneView>>
    decreases n,
{
    if n <= 0 {
        Some(Map::empty())
    } else {
        match (loaded(lines, n - 1), refflat_of(lines[n - 1]@)) {
            (Some(genes), Some(line)) => Some(merged(genes, line)),
            _ => None,
        }
    }
}

/// Whether the three parts of a transcriptome belong together: gene `i` has
/// the symbol `symbols[i]`, and `index` maps each symbol to its place and
/// nothing else.
spec fn parts_wf(symbols: Seq<String>, genes: Seq<Gene>, index: Map<Seq<char>, usize>) -> bool {
    &&& symbols.len() == genes.len()
    &&& forall|i: int|
        0 <= i < symbols.len() ==> index.contains_key((#[trigger] symbols[i])@)
            && index[symbols[i]@] == i
    &&& forall|k: Seq<char>| #[trigger]
        index.contains_key(k) ==> index[k] < symbols.len() && symbols[index[k] as int]@ == k
    &&& forall|i: int| 0 <= i < genes.len() ==> (#[trigger] genes[i]).wf()
}

/// The genes by their symbols.
spec fn parts_view(genes: Seq<Gene>, index: Map<Seq<char>, usize>) -> Map<Seq<char>, GeneView> {
    Map::new(|k: Seq<char>| index.contains_key(k), |k: Seq<char>| genes[index[k] as int]@)
}

/// Puts one transcript under a gene symbol: into the gene that has the
/// symbol, or into a new gene.
fn insert_parts(
    symbols: &mut Vec<String>,
    genes: &mut Vec<Gene>,
    index: &mut StringHashMap<usize>,
    gene_name: String,
    gene: Gene,
)
    requires
        parts_wf(old(symbols)@, old(genes)@, old(index)@),
        gene.transcripts.len() == 1,
        gene.wf(),
    ensures
        parts_wf(final(symbols)@, final(genes)@, final(index)@),
        texts(final(symbols)@) == with_name(texts(old(symbols)@), gene_name@),
        parts_view(final(genes)@, final(index)@) == merged(
            parts_view(old(genes)@, old(index)@),
            RefFlatView {
                gene_name: gene_name@,
                chrom: gene.chrom@,
                strand: gene.strand@,
                transcript: gene.transcripts[0]@,
            },
        ),
{
    let ghost before = parts_view(genes@, index@);
    let ghost line = RefFlatView {
        gene_name: gene_name@,
        chrom: gene.chrom@,
        strand: gene.strand@,
        transcript: gene.transcripts[0]@,
    };
    let ghost old_genes = genes@;
    let ghost old_names = texts(symbols@);
    let found: Option<usize> = match index.get(gene_name.as_str()) {
        Some(place) => Some(*place),
        None => None,
    };
    match found {
        Some(i) => {
            genes[i].add_transcript(gene);
            proof {
                assert(old_names[i as int] == gene_name@);
                assert forall|k: int| 0 <= k < genes.len() implies (#[trigger] genes[k]).wf() by {
                    if k != i {
                        assert(genes[k] == old_genes[k]);
                    } else {
                        assert(old_genes[i as int].wf());
                    }
                }
                assert forall|k: Seq<char>| index@.contains_key(k) implies parts_view(
                    genes@,
                    index@,
                )[k] == merged(before, line)[k] by {
                    if k != gene_name@ {
                        assert(index@[k] != i);
                        assert(genes[index@[k] as int] == old_genes[index@[k] as int]);
                    }
                }
                assert(parts_view(genes@, index@) =~= merged(before, line));
            }
        },
        None => {
            let place = genes.len();
            proof {
                lemma_single(gene);
            }
            proof {
                if old_names.contains(gene_name@) {
                    let j = choose|j: int| 0 <= j < old_names.len() && old_names[j] == gene_name@;
                    assert(index@.contains_key(symbols[j]@));
                }
            }
            index.insert(gene_name.clone(), place);
            symbols.push(gene_name);
            genes.push(gene);
            proof {
                assert(texts(symbols@) =~= old_names.push(gene_name@));
                assert forall|k: int| 0 <= k < genes.len() implies (#[trigger] genes[k]).wf() by {
                    if k < place {
                        assert(genes[k] == old_genes[k]);
                    }
                }
                assert forall|k: Seq<char>| index@.contains_key(k) implies parts_view(
                    genes@,
                    index@,
                )[k] == merged(before, line)[k] by {
                    if k != gene_name@ {
                        assert(genes[index@[k] as int] == old_genes[index@[k] as int]);
                    }
                }
                assert(parts_view(genes@, index@) =~= merged(before, line));
            }
        },
    }
}

/// A gene with one transcript is [`single_gene`] of that transcript.
proof fn lemma_single(gene: Gene)
    requires
        gene.transcripts.len() == 1,
    ensures
        gene@ == single_gene(gene.chrom@, gene.strand@, gene.transcripts[0]@),
{
    let ts = gene.transcripts@;
    let id = ts[0].rnaId@;
    assert(is_first_with(ts, id, 0));
    assert forall|key: Seq<char>| has_id(ts, key) <==> key == id by {
        if key == id {
            assert(ts[0].rnaId@ == key);
        }
    }
    lemma_position_of(ts, id);
    assert(gene@.transcripts =~= single_gene(gene.chrom@, gene.strand@, ts[0]@).transcripts);
}

/// The genes of an annotation, each under its symbol.
pub struct Transcriptome {
    symbols: Vec<String>,
    genes: Vec<Gene>,
    index: StringHashMap<usize>,
}

impl View for Transcriptome {
    type V = Map<Seq<char>, GeneView>;

    closed spec fn view(&self) -> Map<Seq<char>, GeneView> {
        parts_view(self.genes@, self.index@)
    }
}

impl Transcriptome {
    #[verifier::type_invariant]
    spec fn inv(self) -> bool {
        parts_wf(self.symbols@, self.genes@, self.index@)
    }

    /// The symbols of the genes, in the order in which they were first
    /// seen.
    pub closed spec fn names(&self) -> Seq<Seq<char>> {
        texts(self.symbols@)
    }

    /// A transcriptome without genes.
    pub fn new() -> (t: Transcriptome)
        ensures
            t@ == Map::<Seq<char>, GeneView>::empty(),
            t.names() == Seq::<Seq<char>>::empty(),
    {
        let t = Transcriptome {
            symbols: Vec::new(),
            genes: Vec::new(),
            index: StringHashMap::new(),
        };
        assert(t@ =~= Map::<Seq<char>, GeneView>::empty());
        assert(t.names() =~= Seq::<Seq<char>>::empty());
        t
    }

    /// Puts a transcript under a gene symbol. The first transcript of a
    /// symbol makes a gene with the given chromosome and strand; each later
    /// one joins that gene, and replaces the transcript of the same
    /// identifier if there is one.
    pub fn insert(&mut self, gene_name: String, chrom: String, strand: String, transcript: Transcript)
        ensures
            final(self)@ == merged(
                old(self)@,
                RefFlatView {
                    gene_name: gene_name@,
                    chrom: chrom@,
                    strand: strand@,
                    transcript: transcript@,
                },
            ),
            final(self).names() == with_name(old(self).names(), gene_name@),
    {
        let mut taken = Transcriptome::new();
        core::mem::swap(self, &mut taken);
        proof {
            use_type_invariant(&taken);
        }
        let Transcriptome { mut symbols, mut genes, mut index } = taken;
        let gene = Gene::new(chrom, strand, transcript);
        insert_parts(&mut symbols, &mut genes, &mut index, gene_name, gene);
        *self = Transcriptome { symbols, genes, index };
    }

    /// Reads one refFlat line and puts its transcript under its gene. A line
    /// that does not follow the format changes nothing.
    pub fn add_line(&mut self, line: &str) -> (r: Result<(), Error>)
        ensures
            match r {
                Ok(_) => {
                    &&& refflat_of(line@) is Some
                    &&& final(self)@ == merged(old(self)@, refflat_of(line@)->0)
                    &&& final(self).names() == with_name(
                        old(self).names(),
                        (refflat_of(line@)->0).gene_name,
                    )
                },
                Err(e) => {
                    &&& e == Error::FormatError
                    &&& refflat_of(line@) is None
                    &&& final(self)@ == old(self)@
                    &&& final(self).names() == old(self).names()
                },
            },
    {
        match parse_transcript(line) {
            Ok((gene_name, chrom, strand, transcript)) => {
                self.insert(gene_name, chrom, strand, transcript);
                Ok(())
            },
            Err(e) => Err(e),
        }
    }

    /// Reads the lines of a refFlat file, one after the other. The first
    /// line that does not follow the format ends the reading with an error.
    pub fn from_lines(lines: &Vec<String>) -> (r: Result<Transcriptome, Error>)
        ensures
            match r {
                Ok(t) => loaded(lines@, lines.len() as int) == Some(t@) && t.names()
                    == loaded_names(lines@, lines.len() as int),
                Err(e) => e == Error::FormatError && loaded(lines@, lines.len() as int) is None,
            },
    {
        let mut txome = Transcriptome::new();
        let mut i: usize = 0;
        while i < lines.len()
            invariant
                i <= lines.len(),
                loaded(lines@, i as int) == Some(txome@),
                txome.names() == loaded_names(lines@, i as int),
            decreases lines.len() - i,
        {
            match txome.add_line(lines[i].as_str()) {
                Ok(_) => {},
                Err(e) => {
                    proof {
                        lemma_loaded_fails(lines@, i as int + 1, lines.len() as int);
                    }
                    return Err(e);
                },
            }
            i += 1;
        }
        Ok(txome)
    }

    /// Reads the lines of a refFlat file, one after the other, and leaves
    /// out each line that does not follow the format. The places of the
    /// lines that were left out, counted from 0, are returned with the
    /// transcriptome.
    pub fn from_lines_skipping(lines: &Vec<String>) -> (r: (Transcriptome, Vec<usize>))
        ensures
            r.0@ == loaded_skipping(lines@, lines.len() as int),
            r.0.names() == loaded_names(lines@, lines.len() as int),
            r.1@ == refused_lines(lines@, lines.len() as int),
    {
        let mut txome = Transcriptome::new();
        let mut refused: Vec<usize> = Vec::new();
        let mut i: usize = 0;
        while i < lines.len()
            invariant
                i <= lines.len(),
                txome@ == loaded_skipping(lines@, i as int),
                txome.names() == loaded_names(lines@, i as int),
                refused@ == refused_lines(lines@, i as int),
            decreases lines.len() - i,
        {
            match txome.add_line(lines[i].as_str()) {
                Ok(_) => {},
                Err(_) => {
                    refused.push(i);
                },
            }
            i += 1;
        }
        (txome, refused)
    }

    /// The gene with the symbol `gene_name`.
    pub fn get(&self, gene_name: &str) -> (r: Result<&Gene, Error>)
        ensures
            match r {
                Ok(gene) => self@.contains_key(gene_name@) && gene@ == self@[gene_name@]
                    && gene.wf(),
                Err(e) => e == Error::LookupError && !self@.contains_key(gene_name@),
            },
    {
        proof {
            use_type_invariant(self);
        }
        match self.index.get(gene_name) {
            Some(place) => Ok(&self.genes[*place]),
            None => Err(Error::LookupError),
        }
    }

    /// The symbols of the genes, each once, in the order in which they were
    /// first seen.
    pub fn symbols(&self) -> (r: &Vec<String>)
        ensures
            texts(r@) == self.names(),
            forall|k: Seq<char>|
                self@.contains_key(k) <==> exists|i: int| 0 <= i < r.len() && (#[trigger] r[i])@ == k,
            forall|i: int, j: int|
                0 <= i < j < r.len() ==> (#[trigger] r[i])@ != (#[trigger] r[j])@,
    {
        proof {
            use_type_invariant(self);
            assert forall|k: Seq<char>| self@.contains_key(k) implies exists|i: int|
                0 <= i < self.symbols.len() && (#[trigger] self.symbols[i])@ == k by {
                assert(self.symbols[self.index@[k] as int]@ == k);
            }
        }
        &self.symbols
    }

    /// The number of genes.
    pub fn len(&self) -> (n: usize)
        ensures
            n == self@.len(),
    {
        assert(self@.dom() =~= self.index@.dom());
        self.index.len()
    }
}

/// Where every line follows the format, leaving out the lines that do not
/// gives the same genes as reading them all, and no line is left out.
pub proof fn skipping_agrees(lines: Seq<String>, n: int)
    requires
        0 <= n <= lines.len(),
        loaded(lines, n) is Some,
    ensures
        loaded(lines, n) == Some(loaded_skipping(lines, n)),
        refused_lines(lines, n) == Seq::<usize>::empty(),
    decreases n,
{
    if n > 0 {
        skipping_agrees(lines, n - 1);
    }
}

/// Once a line has been refused, no later line makes the file good.
proof fn lemma_loaded_fails(lines: Seq<String>, i: int, n: int)
    requires
        0 <= i <= n,
        loaded(lines, i) is None,
    ensures
        loaded(lines, n) is None,
    decreases n - i,
{
    if i < n {
        lemma_loaded_fails(lines, i, n - 1);
    }
}

} // verus!
