use biotools::cds::classify_exons;
use biotools::error::Error;
use biotools::transcriptome::Exon;

fn exon(start: u64, end: u64, coding_exon: bool, contain_cds: bool, contain_cde: bool) -> Exon {
    Exon { start, end, exon_length: end - start, coding_exon, contain_cds, contain_cde }
}

fn flags(exons: &[Exon]) -> Vec<(bool, bool, bool)> {
    exons.iter().map(|e| (e.coding_exon, e.contain_cds, e.contain_cde)).collect()
}

#[test]
fn exons_before_within_and_after_the_coding_sequence() {
    let exons = classify_exons(&vec![100, 300, 500, 700, 900], &vec![200, 400, 600, 800, 1000], 350, 750).unwrap();
    assert_eq!(
        exons,
        vec![
            exon(100, 200, false, false, false),
            exon(300, 400, true, true, false),
            exon(500, 600, true, false, false),
            exon(700, 800, true, false, true),
            exon(900, 1000, false, false, false),
        ]
    );
}

#[test]
fn coding_sequence_within_one_exon() {
    let exons = classify_exons(&vec![100, 300, 500], &vec![200, 400, 600], 310, 390).unwrap();
    assert_eq!(
        flags(&exons),
        vec![(false, false, false), (true, true, true), (false, false, false)]
    );
}

#[test]
fn exons_in_transcript_order_of_the_minus_strand() {
    let exons = classify_exons(&vec![900, 700, 500, 300, 100], &vec![1000, 800, 600, 400, 200], 350, 750).unwrap();
    assert_eq!(
        flags(&exons),
        vec![
            (false, false, false),
            (true, false, true),
            (true, false, false),
            (true, true, false),
            (false, false, false),
        ]
    );
}

#[test]
fn transcript_that_is_not_coding_has_no_marked_exon() {
    let exons = classify_exons(&vec![100, 300], &vec![200, 400], 150, 150).unwrap();
    assert_eq!(exons, vec![exon(100, 200, false, false, false), exon(300, 400, false, false, false)]);
    let exons = classify_exons(&vec![100, 300], &vec![200, 400], 0, 0).unwrap();
    assert_eq!(flags(&exons), vec![(false, false, false), (false, false, false)]);
}

#[test]
fn coding_boundary_is_marked_on_one_exon_only() {
    let exons = classify_exons(&vec![100, 200, 300], &vec![200, 300, 400], 200, 300).unwrap();
    assert_eq!(
        flags(&exons),
        vec![(true, true, false), (true, false, true), (false, false, false)]
    );
    assert_eq!(exons.iter().filter(|x| x.contain_cds).count(), 1);
    assert_eq!(exons.iter().filter(|x| x.contain_cde).count(), 1);
}

#[test]
fn coding_boundaries_count_both_ends_of_an_exon() {
    let exons = classify_exons(&vec![100, 300], &vec![200, 400], 200, 300).unwrap();
    assert_eq!(flags(&exons), vec![(true, true, false), (true, false, true)]);
    let exons = classify_exons(&vec![100, 300], &vec![200, 400], 100, 400).unwrap();
    assert_eq!(flags(&exons), vec![(true, true, false), (true, false, true)]);
}

#[test]
fn coding_start_in_no_exon_is_refused() {
    assert_eq!(
        classify_exons(&vec![100, 300], &vec![200, 400], 250, 350).err(),
        Some(Error::FormatError)
    );
    assert_eq!(classify_exons(&vec![], &vec![], 1, 2).err(), Some(Error::FormatError));
    assert_eq!(classify_exons(&vec![], &vec![], 2, 2), Ok(vec![]));
}

#[test]
fn coding_end_in_no_exon_leaves_the_run_open() {
    let exons = classify_exons(&vec![100, 300, 500], &vec![200, 400, 600], 350, 450).unwrap();
    assert_eq!(
        flags(&exons),
        vec![(false, false, false), (true, true, false), (true, false, false)]
    );
}

#[test]
fn exon_lists_that_do_not_match_are_refused() {
    assert_eq!(classify_exons(&vec![100], &vec![200, 400], 5, 5).err(), Some(Error::FormatError));
    assert_eq!(classify_exons(&vec![300], &vec![200], 5, 5).err(), Some(Error::FormatError));
}

#[test]
fn exactly_the_run_between_the_marked_exons_is_coding() {
    let starts: Vec<u64> = vec![100, 300, 500, 700, 900];
    let ends: Vec<u64> = vec![200, 400, 600, 800, 1000];
    let inside = [150u64, 350, 550, 750, 950];
    for (s, &cds_start) in inside.iter().enumerate() {
        for (e, &cds_end) in inside.iter().enumerate() {
            if cds_start == cds_end {
                continue;
            }
            let exons = classify_exons(&starts, &ends, cds_start, cds_end).unwrap();
            for (i, x) in exons.iter().enumerate() {
                assert_eq!(x.contain_cds, i == s);
                assert_eq!(x.contain_cde, i == e);
                assert_eq!(x.coding_exon, s.min(e) <= i && i <= s.max(e));
            }
        }
    }
}
