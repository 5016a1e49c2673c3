use biotools::error::Error;
use biotools::sequence::{kmer_counter, ReadTotals};
use biotools::source::is_gz_name;

fn counted(seq: &str, k: usize) -> Vec<(String, usize)> {
    kmer_counter(String::from(seq), k).unwrap()
}

fn pairs(list: &[(&str, usize)]) -> Vec<(String, usize)> {
    list.iter().map(|(w, n)| (w.to_string(), *n)).collect()
}

#[test]
fn kmers_are_counted_in_order_of_first_occurrence() {
    assert_eq!(counted("ACGTACGT", 4), pairs(&[("ACGT", 2), ("CGTA", 1), ("GTAC", 1), ("TACG", 1)]));
    assert_eq!(counted("AAAA", 2), pairs(&[("AA", 3)]));
    assert_eq!(counted("ACGT", 1), pairs(&[("A", 1), ("C", 1), ("G", 1), ("T", 1)]));
    assert_eq!(counted("GATTACA", 2), pairs(&[("GA", 1), ("AT", 1), ("TT", 1), ("TA", 1), ("AC", 1), ("CA", 1)]));
    assert_eq!(counted("ABAB", 2), pairs(&[("AB", 2), ("BA", 1)]));
}

#[test]
fn kmer_of_the_whole_sequence() {
    assert_eq!(counted("ACGT", 4), pairs(&[("ACGT", 1)]));
}

#[test]
fn kmer_of_no_characters_occurs_at_every_place() {
    assert_eq!(counted("ACG", 0), pairs(&[("", 4)]));
    assert_eq!(counted("", 0), pairs(&[("", 1)]));
}

#[test]
fn kmer_counts_add_up_to_the_number_of_places() {
    let seq = "ACGTTGCAACGTNNACGT";
    for k in 0..=seq.len() {
        let counts = counted(seq, k);
        let total: usize = counts.iter().map(|(_, n)| *n).sum();
        assert_eq!(total, seq.len() - k + 1);
        for (word, n) in &counts {
            assert_eq!(word.len(), k);
            let want = (0..=seq.len() - k).filter(|&i| &seq[i..i + k] == word).count();
            assert_eq!(*n, want);
        }
        for i in 0..counts.len() {
            for j in i + 1..counts.len() {
                assert!(counts[i].0 != counts[j].0);
                if k > 0 {
                    assert!(seq.find(&counts[i].0).unwrap() < seq.find(&counts[j].0).unwrap());
                }
            }
        }
    }
}

#[test]
fn kmer_longer_than_the_sequence_is_refused() {
    assert_eq!(kmer_counter(String::from("ACG"), 4).err(), Some(Error::RangeError));
    assert_eq!(kmer_counter(String::new(), 1).err(), Some(Error::RangeError));
}

#[test]
fn kmers_of_a_sequence_that_is_not_ascii_are_refused() {
    assert_eq!(kmer_counter(String::from("ACGé"), 2).err(), Some(Error::FormatError));
    assert_eq!(kmer_counter(String::from("é"), 5).err(), Some(Error::FormatError));
}

#[test]
fn read_totals_add_up() {
    let mut totals = ReadTotals::new();
    assert_eq!((totals.read_count, totals.base_count), (0, 0));
    assert_eq!(totals.add_read(100), Ok(()));
    assert_eq!(totals.add_read(0), Ok(()));
    assert_eq!(totals.add_read(51), Ok(()));
    assert_eq!((totals.read_count, totals.base_count), (3, 151));
}

#[test]
fn read_totals_refuse_what_does_not_fit() {
    let mut totals = ReadTotals { read_count: 7, base_count: usize::MAX - 5 };
    assert_eq!(totals.add_read(6), Err(Error::RangeError));
    assert_eq!(totals, ReadTotals { read_count: 7, base_count: usize::MAX - 5 });
    assert_eq!(totals.add_read(5), Ok(()));
    assert_eq!(totals, ReadTotals { read_count: 8, base_count: usize::MAX });
    let mut totals = ReadTotals { read_count: usize::MAX, base_count: 0 };
    assert_eq!(totals.add_read(1), Err(Error::RangeError));
    assert_eq!(totals, ReadTotals { read_count: usize::MAX, base_count: 0 });
}

#[test]
fn gz_names_end_in_dot_gz() {
    assert!(is_gz_name("reads.fq.gz"));
    assert!(is_gz_name(".gz"));
    assert!(is_gz_name("dir/é.gz"));
    assert!(!is_gz_name("reads.fq"));
    assert!(!is_gz_name("gz"));
    assert!(!is_gz_name(""));
    assert!(!is_gz_name("reads.gz.txt"));
    assert!(!is_gz_name("reads.GZ"));
    assert!(!is_gz_name("readsgz"));
}
