//! Statistics of read sequences: k-mer counts of one sequence, and the
//! running totals of reads and bases of a file of reads.

use crate::error::Error;
use vstd::hash_map::StringHashMap;
use vstd::prelude::*;
use vstd::string::{is_ascii, string_is_ascii};

verus! {

/// The `k` characters of `seq` that begin at place `p`.
pub open spec fn kmer_at(seq: Seq<char>, k: int, p: int) -> Seq<char> {
    seq.subrange(p, p + k)
}

/// How often `word` stands in `seq` as the `k` characters that begin at one
/// of the first `n` places.
pub open spec fn occurrences(seq: Seq<char>, k: int, word: Seq<char>, n: int) -> nat
    decreases n,
{
    if n <= 0 {
        0
    } else {
        occurrences(seq, k, word, n - 1) + if kmer_at(seq, k, n - 1) == word {
            1nat
        } else {
            0nat
        }
    }
}

/// Whether `word` stands at place `p` of `seq` and at no place before it.
pub open spec fn is_first_place(seq: Seq<char>, k: int, word: Seq<char>, p: int) -> bool {
    &&& 0 <= p
    &&& kmer_at(seq, k, p) == word
    &&& forall|q: int| 0 <= q < p ==> #[trigger] kmer_at(seq, k, q) != word
}

/// Whether `counts` lists the k-mers of `seq` that begin at one of its
/// first `n` places: each of them once, with the number of times it occurs
/// there, in the order in which they first occur.
pub open spec fn counts_kmers(counts: Seq<(String, usize)>, seq: Seq<char>, k: int, n: int) -> bool {
    &&& forall|i: int|
        0 <= i < counts.len() ==> (#[trigger] counts[i]).1 == occurrences(
            seq,
            k,
            counts[i].0@,
            n,
        ) && counts[i].1 > 0
    &&& forall|word: Seq<char>| #[trigger]
        occurrences(seq, k, word, n) > 0 ==> exists|i: int|
            0 <= i < counts.len() && (#[trigger] counts[i]).0@ == word
    &&& forall|i: int, j: int, p: int, q: int|
        0 <= i < j < counts.len() && #[trigger] is_first_place(seq, k, counts[i].0@, p)
            && #[trigger] is_first_place(seq, k, counts[j].0@, q) ==> p < q
}

/// A word occurs at most once at each place.
proof fn lemma_occurrences_bound(seq: Seq<char>, k: int, word: Seq<char>, n: int)
    requires
        0 <= n,
    ensures
        occurrences(seq, k, word, n) <= n,
    decreases n,
{
    if n > 0 {
        lemma_occurrences_bound(seq, k, word, n - 1);
    }
}

/// A word that occurs among the first `n` places stands at one of them, and
/// a word that stands at one of them occurs.
proof fn lemma_occurs_at(seq: Seq<char>, k: int, word: Seq<char>, n: int)
    requires
        0 <= n,
    ensures
        occurrences(seq, k, word, n) > 0 <==> exists|p: int|
            0 <= p < n && #[trigger] kmer_at(seq, k, p) == word,
    decreases n,
{
    if n > 0 {
        lemma_occurs_at(seq, k, word, n - 1);
        if occurrences(seq, k, word, n - 1) > 0 {
            let p = choose|p: int| 0 <= p < n - 1 && #[trigger] kmer_at(seq, k, p) == word;
            assert(0 <= p < n && kmer_at(seq, k, p) == word);
        }
        if kmer_at(seq, k, n - 1) == word {
            assert(0 <= n - 1 < n && kmer_at(seq, k, n - 1) == word);
        }
        if exists|p: int| 0 <= p < n && #[trigger] kmer_at(seq, k, p) == word {
            let p = choose|p: int| 0 <= p < n && #[trigger] kmer_at(seq, k, p) == word;
            if p < n - 1 {
                assert(0 <= p < n - 1 && kmer_at(seq, k, p) == word);
            }
        }
    }
}

/// Counts the k-mers of a sequence: each k-mer once, with the number of
/// times it occurs, in the order in which the k-mers first occur. A
/// sequence of `n` characters has `n - k + 1` places at which a k-mer
/// begins.
///
/// The sequence must be ASCII, or the count is refused as a format error;
/// `k` must not be greater than the length of the sequence, and the number
/// of places must fit in a `usize`, or it is refused as a range error.
pub fn kmer_counter(seq: String, k: usize) -> (r: Result<Vec<(String, usize)>, Error>)
    ensures
        match r {
            Ok(counts) => string_is_ascii(&seq) && k <= seq@.len() && seq@.len() - k < usize::MAX
                && counts_kmers(counts@, seq@, k as int, seq@.len() - k + 1),
            Err(e) => if !string_is_ascii(&seq) {
                e == Error::FormatError
            } else {
                e == Error::RangeError && (k > seq@.len() || seq@.len() - k >= usize::MAX)
            },
        },
{
    let seq = seq.as_str();
    if !seq.is_ascii() {
        return Err(Error::FormatError);
    }
    let seq_len = seq.unicode_len();
    if seq_len < k || seq_len - k == usize::MAX {
        return Err(Error::RangeError);
    }
    let places = seq_len - k + 1;
    let mut kmer_count: Vec<(String, usize)> = Vec::new();
    let mut index: StringHashMap<usize> = StringHashMap::new();
    let ghost mut firsts: Seq<int> = Seq::empty();
    let mut i: usize = 0;
    while i < places
        invariant
            k <= seq_len == seq@.len(),
            i <= places == seq_len - k + 1,
            is_ascii(seq),
            firsts.len() == kmer_count.len(),
            forall|j: int|
                0 <= j < kmer_count.len() ==> index@.contains_key((#[trigger] kmer_count[j]).0@)
                    && index@[kmer_count[j].0@] == j,
            forall|word: Seq<char>| #[trigger]
                index@.contains_key(word) ==> index@[word] < kmer_count.len()
                    && kmer_count[index@[word] as int].0@ == word,
            forall|word: Seq<char>|
                index@.contains_key(word) <==> #[trigger] occurrences(seq@, k as int, word, i as int)
                    > 0,
            forall|j: int|
                0 <= j < kmer_count.len() ==> (#[trigger] kmer_count[j]).1 == occurrences(
                    seq@,
                    k as int,
                    kmer_count[j].0@,
                    i as int,
                ),
            forall|j: int|
                0 <= j < firsts.len() ==> #[trigger] firsts[j] < i && is_first_place(
                    seq@,
                    k as int,
                    kmer_count[j].0@,
                    firsts[j],
                ),
            forall|a: int, b: int| 0 <= a < b < firsts.len() ==> firsts[a] < firsts[b],
        decreases places - i,
    {
        let kmer = seq.substring_ascii(i, i + k);
        let ghost before = kmer_count@;
        proof {
            lemma_occurrences_bound(seq@, k as int, kmer@, i as int);
            lemma_occurs_at(seq@, k as int, kmer@, i as int);
            assert forall|word: Seq<char>| #[trigger]
                occurrences(seq@, k as int, word, i as int + 1) == occurrences(
                    seq@,
                    k as int,
                    word,
                    i as int,
                ) + if word == kmer@ {
                    1nat
                } else {
                    0nat
                } by {}
        }
        let found: Option<usize> = match index.get(kmer) {
            Some(place) => Some(*place),
            None => None,
        };
        match found {
            Some(j) => {
                let seen = kmer_count[j].1;
                kmer_count[j].1 = seen + 1;
                proof {
                    assert forall|m: int| 0 <= m < kmer_count.len() implies (
                    #[trigger] kmer_count[m]).0@ == before[m].0@ by {}
                }
            },
            None => {
                index.insert(kmer.to_owned(), kmer_count.len());
                kmer_count.push((kmer.to_owned(), 1));
                proof {
                    assert forall|m: int| 0 <= m < before.len() implies (#[trigger] kmer_count[m])
                        == before[m] by {}
                    assert(is_first_place(seq@, k as int, kmer@, i as int)) by {
                        assert forall|q: int| 0 <= q < i implies #[trigger] kmer_at(
                            seq@,
                            k as int,
                            q,
                        ) != kmer@ by {
                            if kmer_at(seq@, k as int, q) == kmer@ {
                                assert(0 <= q < i && kmer_at(seq@, k as int, q) == kmer@);
                            }
                        }
                    }
                    firsts = firsts.push(i as int);
                }
            },
        }
        i += 1;
    }
    proof {
        let n = places as int;
        assert forall|a: int, b: int, p: int, q: int|
            0 <= a < b < kmer_count.len() && #[trigger] is_first_place(
                seq@,
                k as int,
                kmer_count[a].0@,
                p,
            ) && #[trigger] is_first_place(seq@, k as int, kmer_count[b].0@, q) implies p
            < q by {
            assert(is_first_place(seq@, k as int, kmer_count[a].0@, firsts[a]));
            assert(is_first_place(seq@, k as int, kmer_count[b].0@, firsts[b]));
            assert(p == firsts[a]);
            assert(q == firsts[b]);
        }
        assert forall|word: Seq<char>| #[trigger]
            occurrences(seq@, k as int, word, n) > 0 implies exists|m: int|
            0 <= m < kmer_count.len() && (#[trigger] kmer_count[m]).0@ == word by {
            assert(index@.contains_key(word));
            let m = index@[word] as int;
            assert(kmer_count[m].0@ == word);
        }
        assert forall|m: int| 0 <= m < kmer_count.len() implies (#[trigger] kmer_count[m]).1 > 0 by {
            assert(index@.contains_key(kmer_count[m].0@));
        }
    }
    Ok(kmer_count)
}

/// The number of reads and the number of bases seen so far in a file of
/// reads.
#[derive(Debug, Clone, Copy, PartialEq, Eq, Structural)]
pub struct ReadTotals {
    pub read_count: usize,
    pub base_count: usize,
}

impl ReadTotals {
    /// The totals before any read.
    pub fn new() -> (t: ReadTotals)
        ensures
            t.read_count == 0,
            t.base_count == 0,
    {
        ReadTotals { read_count: 0, base_count: 0 }
    }

    /// Counts one more read of `seq_len` bases. Totals that would not fit
    /// in a `usize` are refused as a range error and stay as they are.
    pub fn add_read(&mut self, seq_len: usize) -> (r: Result<(), Error>)
        ensures
            match r {
                Ok(_) => {
                    &&& final(self).read_count == old(self).read_count + 1
                    &&& final(self).base_count == old(self).base_count + seq_len
                },
                Err(e) => {
                    &&& e == Error::RangeError
                    &&& *final(self) == *old(self)
                    &&& (old(self).read_count + 1 > usize::MAX || old(self).base_count + seq_len
                        > usize::MAX)
                },
            },
    {
        if self.read_count == usize::MAX || seq_len > usize::MAX - self.base_count {
            return Err(Error::RangeError);
        }
        self.read_count = self.read_count + 1;
        self.base_count = self.base_count + seq_len;
        Ok(())
    }
}

} // verus!
