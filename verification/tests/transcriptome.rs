use biotools::error::Error;
use biotools::transcriptome::{parse_exons, parse_transcript, Exon, Gene, Transcript, Transcriptome};

fn exon(start: u64, end: u64, coding_exon: bool, contain_cds: bool, contain_cde: bool) -> Exon {
    Exon { start, end, exon_length: end - start, coding_exon, contain_cds, contain_cde }
}

fn flags(exons: &[Exon]) -> Vec<(bool, bool, bool)> {
    exons.iter().map(|e| (e.coding_exon, e.contain_cds, e.contain_cde)).collect()
}

fn listed(starts: &str, ends: &str, cds_start: u64, cds_end: u64, strand: &str) -> Result<Vec<Exon>, Error> {
    parse_exons(String::from(starts), String::from(ends), cds_start, cds_end, &String::from(strand))
}

fn transcript(id: &str, start: u64, end: u64) -> Transcript {
    Transcript {
        rnaId: String::from(id),
        start,
        end,
        strand: String::from("+"),
        exons: vec![exon(start, end, false, false, false)],
        transcript_length: end - start,
    }
}

const CODING: &str =
    "GENE1\tNM_1\tchr1\t+\t100\t1000\t250\t750\t4\t100,300,500,900,\t200,400,800,1000,";
const CODING_MINUS: &str =
    "GENE2\tNM_2\tchr1\t-\t100\t1000\t250\t750\t4\t100,300,500,900,\t200,400,800,1000,";
const NONCODING: &str = "MIR1\tNR_1\tchr2\t-\t10\t90\t90\t90\t2\t10,60,\t30,90,";

#[test]
fn exon_lists_are_read_from_text() {
    let exons = listed("100,300,500,900,", "200,400,800,1000,", 250, 750, "+");
    assert_eq!(exons, Err(Error::FormatError));
    let exons = listed("100,300,500,900,", "200,400,800,1000,", 350, 750, "+").unwrap();
    assert_eq!(
        exons,
        vec![
            exon(100, 200, false, false, false),
            exon(300, 400, true, true, false),
            exon(500, 800, true, false, true),
            exon(900, 1000, false, false, false),
        ]
    );
    assert_eq!(exons[2].exon_length, 300);
}

#[test]
fn exon_lists_on_the_minus_strand_are_turned_round() {
    let exons = listed("100,300,500,900", "200,400,800,1000", 350, 750, "-").unwrap();
    assert_eq!(
        exons,
        vec![
            exon(900, 1000, false, false, false),
            exon(500, 800, true, false, true),
            exon(300, 400, true, true, false),
            exon(100, 200, false, false, false),
        ]
    );
}

#[test]
fn exon_lists_with_a_bad_item_are_refused() {
    assert_eq!(listed("100,x", "200,400", 5, 5, "+").err(), Some(Error::FormatError));
    assert_eq!(listed("100,300", "200,", 5, 5, "+").err(), Some(Error::FormatError));
    assert_eq!(listed("", "", 5, 5, "+").err(), Some(Error::FormatError));
    assert_eq!(listed("100,300,,", "200,400,,", 5, 5, "+").err(), Some(Error::FormatError));
    assert_eq!(listed("100,300", "200,400,500", 5, 5, "+").err(), Some(Error::FormatError));
}

#[test]
fn refflat_line_is_read() {
    let line = CODING.replace("\t250\t750\t", "\t350\t750\t");
    let (gene_name, chrom, strand, t) = parse_transcript(&line).unwrap();
    assert_eq!(gene_name, "GENE1");
    assert_eq!(chrom, "chr1");
    assert_eq!(strand, "+");
    assert_eq!(t.rnaId, "NM_1");
    assert_eq!(t.start, 100);
    assert_eq!(t.end, 1000);
    assert_eq!(t.strand, "+");
    assert_eq!(t.transcript_length, 100 + 100 + 300 + 100);
    assert_eq!(
        t.exons,
        vec![
            exon(100, 200, false, false, false),
            exon(300, 400, true, true, false),
            exon(500, 800, true, false, true),
            exon(900, 1000, false, false, false),
        ]
    );
}

#[test]
fn refflat_line_on_the_minus_strand_is_read() {
    let line = CODING_MINUS.replace("\t250\t750\t", "\t350\t750\t");
    let (gene_name, _, strand, t) = parse_transcript(&line).unwrap();
    assert_eq!(gene_name, "GENE2");
    assert_eq!(strand, "-");
    assert_eq!(t.exons[0], exon(900, 1000, false, false, false));
    assert_eq!(t.exons[3], exon(100, 200, false, false, false));
    assert_eq!(flags(&t.exons), vec![
        (false, false, false),
        (true, false, true),
        (true, true, false),
        (false, false, false),
    ]);
    assert_eq!(t.transcript_length, 600);
}

#[test]
fn refflat_line_that_is_not_coding_is_read() {
    let (gene_name, chrom, strand, t) = parse_transcript(NONCODING).unwrap();
    assert_eq!((gene_name.as_str(), chrom.as_str(), strand.as_str()), ("MIR1", "chr2", "-"));
    assert_eq!(t.exons, vec![exon(60, 90, false, false, false), exon(10, 30, false, false, false)]);
    assert_eq!(t.transcript_length, 50);
}

#[test]
fn refflat_coding_start_between_exons_is_refused() {
    assert_eq!(parse_transcript(CODING).err(), Some(Error::FormatError));
    assert_eq!(parse_transcript(CODING_MINUS).err(), Some(Error::FormatError));
}

#[test]
fn refflat_line_with_too_few_fields_is_refused() {
    assert_eq!(
        parse_transcript("GENE1\tNM_1\tchr1\t+\t100\t1000\t350\t750\t4\t100,300,500,900,").err(),
        Some(Error::FormatError)
    );
    assert_eq!(parse_transcript("").err(), Some(Error::FormatError));
}

#[test]
fn refflat_line_with_bad_number_is_refused() {
    let good = CODING.replace("\t250\t750\t", "\t350\t750\t");
    assert!(parse_transcript(&good).is_ok());
    for (from, to) in [
        ("\t100\t1000\t", "\t100\t1000.0\t"),
        ("\t100\t1000\t", "\t-100\t1000\t"),
        ("\t350\t750\t", "\t350\t\t"),
        ("\t350\t750\t", "\tx\t750\t"),
        ("\t4\t", "\tfour\t"),
        ("100,300,500,900,", "100,300,500,9 00,"),
        ("200,400,800,1000,", "200,400,800,1000,,"),
    ] {
        let line = good.replace(from, to);
        assert!(line != good);
        assert_eq!(parse_transcript(&line).err(), Some(Error::FormatError), "{:?}", line);
    }
}

#[test]
fn refflat_exon_count_must_be_the_number_of_exons() {
    let good = CODING.replace("\t250\t750\t", "\t350\t750\t");
    assert_eq!(parse_transcript(&good.replace("\t4\t", "\t5\t")).err(), Some(Error::FormatError));
    assert_eq!(parse_transcript(&good.replace("\t4\t", "\t3\t")).err(), Some(Error::FormatError));
}

#[test]
fn refflat_intervals_that_end_before_they_start_are_refused() {
    let good = CODING.replace("\t250\t750\t", "\t350\t750\t");
    assert_eq!(
        parse_transcript(&good.replace("\t100\t1000\t", "\t1000\t100\t")).err(),
        Some(Error::FormatError)
    );
    assert_eq!(
        parse_transcript(&good.replace("100,300,500,900,", "100,300,801,900,")).err(),
        Some(Error::FormatError)
    );
}

#[test]
fn refflat_exon_lengths_beyond_64_bits_are_refused() {
    let line = "G\tT\tc\t+\t0\t9\t0\t0\t2\t0,0\t18446744073709551615,1";
    assert_eq!(parse_transcript(line).err(), Some(Error::FormatError));
    let line = "G\tT\tc\t+\t0\t9\t0\t0\t2\t0,1\t18446744073709551615,1";
    assert_eq!(parse_transcript(line).unwrap().3.transcript_length, u64::MAX);
}

#[test]
fn gene_starts_with_one_transcript() {
    let gene = Gene::new(String::from("chr1"), String::from("+"), transcript("t1", 5, 9));
    assert_eq!(gene.chrom, "chr1");
    assert_eq!(gene.strand, "+");
    assert_eq!(gene.transcripts.len(), 1);
    assert_eq!(gene.get("t1").unwrap().start, 5);
    assert_eq!(gene.get("t2").err(), Some(Error::LookupError));
    assert_eq!(gene.get("").err(), Some(Error::LookupError));
}

#[test]
fn gene_takes_more_transcripts() {
    let mut gene = Gene::new(String::from("chr1"), String::from("+"), transcript("t1", 5, 9));
    gene.add_transcript(Gene::new(String::from("chr1"), String::from("+"), transcript("t2", 6, 9)));
    gene.add_transcript(Gene::new(String::from("chr1"), String::from("+"), transcript("t3", 7, 9)));
    assert_eq!(gene.transcripts.len(), 3);
    assert_eq!(gene.get("t1").unwrap().start, 5);
    assert_eq!(gene.get("t2").unwrap().start, 6);
    assert_eq!(gene.get("t3").unwrap().start, 7);
}

#[test]
fn later_transcript_replaces_one_of_the_same_identifier() {
    let mut gene = Gene::new(String::from("chr1"), String::from("+"), transcript("t1", 5, 9));
    gene.add_transcript(Gene::new(String::from("chr1"), String::from("+"), transcript("t2", 6, 9)));
    gene.add_transcript(Gene::new(String::from("chr1"), String::from("+"), transcript("t1", 1, 2)));
    assert_eq!(gene.transcripts.len(), 2);
    assert_eq!(gene.get("t1").unwrap().start, 1);
    assert_eq!(gene.get("t1").unwrap().end, 2);
    assert_eq!(gene.get("t2").unwrap().start, 6);
}

#[test]
fn gene_keeps_its_chromosome_and_strand() {
    let mut gene = Gene::new(String::from("chr1"), String::from("+"), transcript("t1", 5, 9));
    gene.add_transcript(Gene::new(String::from("chr9"), String::from("-"), transcript("t2", 6, 9)));
    assert_eq!(gene.chrom, "chr1");
    assert_eq!(gene.strand, "+");
    assert_eq!(gene.transcripts.len(), 2);
}

#[test]
fn gene_takes_only_the_first_transcript_of_the_other() {
    let mut gene = Gene::new(String::from("chr1"), String::from("+"), transcript("t1", 5, 9));
    let mut other = Gene::new(String::from("chr1"), String::from("+"), transcript("t2", 6, 9));
    other.add_transcript(Gene::new(String::from("chr1"), String::from("+"), transcript("t3", 7, 9)));
    gene.add_transcript(other);
    assert_eq!(gene.transcripts.len(), 2);
    assert!(gene.get("t2").is_ok());
    assert_eq!(gene.get("t3").err(), Some(Error::LookupError));
}

#[test]
fn transcriptome_starts_empty() {
    let txome = Transcriptome::new();
    assert_eq!(txome.len(), 0);
    assert_eq!(txome.get("GENE1").err(), Some(Error::LookupError));
}

#[test]
fn transcriptome_collects_transcripts_by_gene() {
    let lines: Vec<String> = vec![
        String::from("GENE1\tNM_1\tchr1\t+\t100\t1000\t350\t750\t4\t100,300,500,900,\t200,400,800,1000,"),
        String::from(NONCODING),
        String::from("GENE1\tNM_1b\tchr1\t+\t100\t800\t0\t0\t2\t100,500,\t200,800,"),
    ];
    let txome = Transcriptome::from_lines(&lines).unwrap();
    assert_eq!(txome.len(), 2);
    let gene = txome.get("GENE1").unwrap();
    assert_eq!(gene.chrom, "chr1");
    assert_eq!(gene.strand, "+");
    assert_eq!(gene.transcripts.len(), 2);
    assert_eq!(gene.get("NM_1").unwrap().exons.len(), 4);
    assert_eq!(gene.get("NM_1b").unwrap().exons.len(), 2);
    assert_eq!(gene.get("NR_1").err(), Some(Error::LookupError));
    let mir = txome.get("MIR1").unwrap();
    assert_eq!(mir.chrom, "chr2");
    assert_eq!(mir.transcripts.len(), 1);
    assert_eq!(txome.get("GENE2").err(), Some(Error::LookupError));
    assert_eq!(txome.symbols(), &vec![String::from("GENE1"), String::from("MIR1")]);
}

#[test]
fn transcriptome_replaces_a_transcript_of_the_same_identifier() {
    let mut txome = Transcriptome::new();
    assert_eq!(txome.add_line("G\tT\tchr1\t+\t0\t90\t0\t0\t1\t0,\t90,"), Ok(()));
    assert_eq!(txome.add_line("G\tT\tchr1\t+\t5\t50\t0\t0\t1\t5,\t50,"), Ok(()));
    assert_eq!(txome.len(), 1);
    let gene = txome.get("G").unwrap();
    assert_eq!(gene.transcripts.len(), 1);
    assert_eq!(gene.get("T").unwrap().start, 5);
    assert_eq!(gene.get("T").unwrap().transcript_length, 45);
}

#[test]
fn transcriptome_does_not_compare_chromosome_and_strand() {
    let mut txome = Transcriptome::new();
    assert_eq!(txome.add_line("G\tT1\tchr1\t+\t0\t90\t0\t0\t1\t0,\t90,"), Ok(()));
    assert_eq!(txome.add_line("G\tT2\tchr2\t-\t5\t50\t0\t0\t1\t5,\t50,"), Ok(()));
    let gene = txome.get("G").unwrap();
    assert_eq!(gene.chrom, "chr1");
    assert_eq!(gene.strand, "+");
    assert_eq!(gene.transcripts.len(), 2);
    assert_eq!(gene.get("T2").unwrap().strand, "-");
}

#[test]
fn transcriptome_line_that_is_refused_changes_nothing() {
    let mut txome = Transcriptome::new();
    assert_eq!(txome.add_line("G\tT1\tchr1\t+\t0\t90\t0\t0\t1\t0,\t90,"), Ok(()));
    assert_eq!(txome.add_line("G\tT2\tchr1\t+\t0\t90\t0\t0\t2\t0,\t90,"), Err(Error::FormatError));
    assert_eq!(txome.add_line(""), Err(Error::FormatError));
    assert_eq!(txome.len(), 1);
    assert_eq!(txome.get("G").unwrap().transcripts.len(), 1);
}

#[test]
fn transcriptome_stops_at_the_first_bad_line() {
    let lines: Vec<String> = vec![
        String::from("G\tT1\tchr1\t+\t0\t90\t0\t0\t1\t0,\t90,"),
        String::from("G\tT2\tchr1\t+\t0\t90\t0\t0\t1\t0,\t9x,"),
        String::from("H\tT3\tchr1\t+\t0\t90\t0\t0\t1\t0,\t90,"),
    ];
    assert_eq!(Transcriptome::from_lines(&lines).err(), Some(Error::FormatError));
    assert_eq!(Transcriptome::from_lines(&lines[..1].to_vec()).unwrap().len(), 1);
    assert_eq!(Transcriptome::from_lines(&Vec::new()).unwrap().len(), 0);
}

#[test]
fn transcriptome_insert_puts_a_transcript_under_a_symbol() {
    let mut txome = Transcriptome::new();
    txome.insert(String::from("G"), String::from("chr1"), String::from("+"), transcript("a", 1, 2));
    txome.insert(String::from("H"), String::from("chr2"), String::from("-"), transcript("a", 3, 4));
    txome.insert(String::from("G"), String::from("chr3"), String::from("-"), transcript("b", 5, 6));
    assert_eq!(txome.len(), 2);
    assert_eq!(txome.get("G").unwrap().transcripts.len(), 2);
    assert_eq!(txome.get("G").unwrap().chrom, "chr1");
    assert_eq!(txome.get("H").unwrap().get("a").unwrap().start, 3);
    assert_eq!(txome.get("G").unwrap().get("a").unwrap().start, 1);
}

#[test]
fn transcriptome_can_leave_out_bad_lines() {
    let lines: Vec<String> = vec![
        String::from(""),
        String::from("G\tT1\tchr1\t+\t0\t90\t0\t0\t1\t0,\t90,"),
        String::from("G\tT2\tchr1\t+\t0\t90\t0\t0\t1\t0,\t9x,"),
        String::from("H\tT3\tchr1\t+\t0\t90\t0\t0\t1\t0,\t90,"),
        String::from("I\tT4\tchr1\t+\t0\t90\t0\t0\t2\t0,\t90,"),
        String::from("G\tT5\tchr1\t+\t0\t90\t0\t0\t1\t0,\t90,"),
    ];
    let (txome, refused) = Transcriptome::from_lines_skipping(&lines);
    assert_eq!(refused, vec![0, 2, 4]);
    assert_eq!(txome.len(), 2);
    assert_eq!(txome.symbols(), &vec![String::from("G"), String::from("H")]);
    assert_eq!(txome.get("G").unwrap().transcripts.len(), 2);
    assert!(txome.get("G").unwrap().get("T2").is_err());
    assert!(txome.get("I").is_err());
}

#[test]
fn leaving_out_nothing_gives_what_strict_reading_gives() {
    let lines: Vec<String> = vec![
        String::from("G\tT1\tchr1\t+\t0\t90\t0\t0\t1\t0,\t90,"),
        String::from("H\tT3\tchr1\t+\t0\t90\t0\t0\t1\t0,\t90,"),
        String::from("G\tT5\tchr1\t+\t0\t90\t0\t0\t1\t0,\t90,"),
    ];
    let strict = Transcriptome::from_lines(&lines).unwrap();
    let (lenient, refused) = Transcriptome::from_lines_skipping(&lines);
    assert_eq!(refused, Vec::<usize>::new());
    assert_eq!(strict.symbols(), lenient.symbols());
    for name in strict.symbols() {
        let a = strict.get(name).unwrap();
        let b = lenient.get(name).unwrap();
        assert_eq!(a.chrom, b.chrom);
        assert_eq!(a.transcripts.len(), b.transcripts.len());
        for (x, y) in a.transcripts.iter().zip(b.transcripts.iter()) {
            assert_eq!(x.rnaId, y.rnaId);
            assert_eq!(x.exons, y.exons);
        }
    }
}
