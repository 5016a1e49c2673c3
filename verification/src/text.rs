//! The text of a line: trimming, and splitting at a separator into fields.

use vstd::prelude::*;

verus! {

/// Whether `c` has the Unicode property `White_Space`.
pub open spec fn is_whitespace(c: char) -> bool {
    let n = c as u32;
    ||| 0x09 <= n <= 0x0D
    ||| n == 0x20
    ||| n == 0x85
    ||| n == 0xA0
    ||| n == 0x1680
    ||| 0x2000 <= n <= 0x200A
    ||| n == 0x2028
    ||| n == 0x2029
    ||| n == 0x202F
    ||| n == 0x205F
    ||| n == 0x3000
}

/// `s` without its leading white space.
pub open spec fn trim_start(s: Seq<char>) -> Seq<char>
    decreases s.len(),
{
    if s.len() > 0 && is_whitespace(s.first()) {
        trim_start(s.drop_first())
    } else {
        s
    }
}

/// `s` without its trailing white space.
pub open spec fn trim_end(s: Seq<char>) -> Seq<char>
    decreases s.len(),
{
    if s.len() > 0 && is_whitespace(s.last()) {
        trim_end(s.drop_last())
    } else {
        s
    }
}

/// `s` without its leading and trailing white space.
pub open spec fn trim(s: Seq<char>) -> Seq<char> {
    trim_end(trim_start(s))
}

/// The index of the first `sep` in `s`, or the length of `s` if there is none.
pub open spec fn index_of(s: Seq<char>, sep: char) -> int
    decreases s.len(),
{
    if s.len() == 0 || s.first() == sep {
        0
    } else {
        1 + index_of(s.drop_first(), sep)
    }
}

/// The pieces of `s` between the occurrences of `sep`, in order. There is
/// always at least one piece, and a piece may be empty.
pub open spec fn split(s: Seq<char>, sep: char) -> Seq<Seq<char>>
    decreases s.len(),
{
    let i = index_of(s, sep);
    if 0 <= i < s.len() {
        seq![s.take(i)] + split(s.skip(i + 1), sep)
    } else {
        seq![s]
    }
}

/// `pieces` put together again with one `sep` between neighbours.
pub open spec fn join(pieces: Seq<Seq<char>>, sep: char) -> Seq<char>
    decreases pieces.len(),
{
    if pieces.len() == 0 {
        Seq::empty()
    } else if pieces.len() == 1 {
        pieces.first()
    } else {
        pieces.first() + seq![sep] + join(pieces.drop_first(), sep)
    }
}

/// Whether each range lies within `s` and cuts out the piece of the same index.
pub open spec fn cuts(s: Seq<char>, ranges: Seq<(usize, usize)>, pieces: Seq<Seq<char>>) -> bool {
    &&& ranges.len() == pieces.len()
    &&& forall|k: int|
        0 <= k < ranges.len() ==> {
            &&& (#[trigger] ranges[k]).0 <= ranges[k].1 <= s.len()
            &&& s.subrange(ranges[k].0 as int, ranges[k].1 as int) == pieces[k]
        }
}

/// Whether the ranges follow one another from `lo` to `hi` with one
/// character, the separator, between each range and the next.
pub open spec fn chained(ranges: Seq<(usize, usize)>, lo: int, hi: int) -> bool {
    &&& ranges.len() >= 1
    &&& ranges.first().0 == lo
    &&& ranges.last().1 == hi
    &&& forall|k: int| 0 <= k < ranges.len() - 1 ==> (#[trigger] ranges[k]).1 + 1 == ranges[k + 1].0
}

/// The fields of a line: what stands between the tabs of the trimmed line.
pub open spec fn fields(line: Seq<char>) -> Seq<Seq<char>> {
    split(trim(line), '\t')
}

/// [`index_of`] lies within the text or at its end; if within, a separator
/// stands there, and none stands before it.
pub proof fn lemma_index_of_bounds(s: Seq<char>, sep: char)
    ensures
        0 <= index_of(s, sep) <= s.len(),
        index_of(s, sep) < s.len() ==> s[index_of(s, sep)] == sep,
        forall|j: int| 0 <= j < index_of(s, sep) ==> s[j] != sep,
    decreases s.len(),
{
    if s.len() == 0 || s.first() == sep {
    } else {
        let t = s.drop_first();
        lemma_index_of_bounds(t, sep);
        assert forall|j: int| 0 <= j < index_of(s, sep) implies s[j] != sep by {
            if j > 0 {
                assert(s[j] == t[j - 1]);
            }
        }
    }
}

/// Trimmed text neither begins nor ends with white space, and trimming
/// takes away white space only.
pub proof fn trim_is_trimmed(s: Seq<char>)
    ensures
        trim(s).len() > 0 ==> !is_whitespace(trim(s).first()) && !is_whitespace(trim(s).last()),
        exists|lo: int, hi: int|
            0 <= lo <= hi <= s.len() && #[trigger] s.subrange(lo, hi) == trim(s) && (forall|j: int|
                0 <= j < lo || hi <= j < s.len() ==> is_whitespace(s[j])),
{
    lemma_trim_start(s);
    let lo = s.len() - trim_start(s).len();
    let t = trim_start(s);
    lemma_trim_end(t);
    let hi = lo + trim(s).len();
    assert(s.subrange(lo, hi) =~= trim(s));
    assert forall|j: int| 0 <= j < lo || hi <= j < s.len() implies is_whitespace(s[j]) by {
        if hi <= j {
            assert(s[j] == t[j - lo]);
        }
    }
    if trim(s).len() > 0 {
        assert(trim(s).first() == t.first());
    }
}

/// What [`trim_start`] leaves is the end of the text, begins with no white
/// space, and only white space stood before it.
proof fn lemma_trim_start(s: Seq<char>)
    ensures
        trim_start(s).len() <= s.len(),
        trim_start(s) == s.skip(s.len() - trim_start(s).len()),
        trim_start(s).len() > 0 ==> !is_whitespace(trim_start(s).first()),
        forall|j: int| 0 <= j < s.len() - trim_start(s).len() ==> is_whitespace(s[j]),
    decreases s.len(),
{
    if s.len() > 0 && is_whitespace(s.first()) {
        let r = s.drop_first();
        lemma_trim_start(r);
        let k = s.len() - trim_start(s).len();
        assert(r.skip(k - 1) =~= s.skip(k));
        assert forall|j: int| 0 <= j < k implies is_whitespace(s[j]) by {
            if j > 0 {
                assert(s[j] == r[j - 1]);
            }
        }
    } else {
        assert(s.skip(0) =~= s);
    }
}

/// What [`trim_end`] leaves is the beginning of the text, ends with no
/// white space, and only white space stood after it.
proof fn lemma_trim_end(s: Seq<char>)
    ensures
        trim_end(s).len() <= s.len(),
        trim_end(s) == s.take(trim_end(s).len() as int),
        trim_end(s).len() > 0 ==> !is_whitespace(trim_end(s).last()),
        forall|j: int| trim_end(s).len() <= j < s.len() ==> is_whitespace(s[j]),
    decreases s.len(),
{
    if s.len() > 0 && is_whitespace(s.last()) {
        let r = s.drop_last();
        lemma_trim_end(r);
        let k = trim_end(s).len() as int;
        assert(r.take(k) =~= s.take(k));
        assert forall|j: int| k <= j < s.len() implies is_whitespace(s[j]) by {
            if j < s.len() - 1 {
                assert(s[j] == r[j]);
            }
        }
    } else {
        assert(s.take(s.len() as int) =~= s);
    }
}

/// Splitting loses nothing and cuts at every separator: no piece holds a
/// separator, and the pieces joined with separators are the text again.
pub proof fn split_joins_back(s: Seq<char>, sep: char)
    ensures
        split(s, sep).len() >= 1,
        forall|k: int, j: int|
            0 <= k < split(s, sep).len() && 0 <= j < split(s, sep)[k].len() ==> split(
                s,
                sep,
            )[k][j] != sep,
        join(split(s, sep), sep) == s,
    decreases s.len(),
{
    lemma_index_of_bounds(s, sep);
    let i = index_of(s, sep);
    let pieces = split(s, sep);
    if 0 <= i < s.len() {
        let rest = s.skip(i + 1);
        split_joins_back(rest, sep);
        assert(pieces.drop_first() =~= split(rest, sep));
        assert(pieces.first() == s.take(i));
        assert(join(pieces, sep) == s.take(i) + seq![sep] + join(split(rest, sep), sep));
        assert(s.take(i) + seq![sep] + rest =~= s);
        assert forall|k: int, j: int| 0 <= k < pieces.len() && 0 <= j < pieces[k].len() implies pieces[k][j]
            != sep by {
            if k > 0 {
                assert(pieces[k] == split(rest, sep)[k - 1]);
            }
        }
    }
}

/// The first `sep` of `s` is where a `sep` stands with none before it.
pub proof fn lemma_index_of_is(s: Seq<char>, sep: char, i: int)
    requires
        0 <= i <= s.len(),
        i < s.len() ==> s[i] == sep,
        forall|j: int| 0 <= j < i ==> s[j] != sep,
    ensures
        index_of(s, sep) == i,
{
    lemma_index_of_bounds(s, sep);
}

/// The characters of `s`.
pub fn to_chars(s: &str) -> (v: Vec<char>)
    ensures
        v@ == s@,
{
    let mut v: Vec<char> = Vec::new();
    let chars = s.chars();
    for c in it: chars
        invariant
            v@ == it.seq().take(it.index() as int),
    {
        v.push(c);
    }
    v
}

/// Decides [`is_whitespace`].
pub fn char_is_whitespace(c: char) -> (b: bool)
    ensures
        b == is_whitespace(c),
{
    let n: u32 = c as u32;
    (0x09 <= n && n <= 0x0D) || n == 0x20 || n == 0x85 || n == 0xA0 || n == 0x1680 || (0x2000 <= n
        && n <= 0x200A) || n == 0x2028 || n == 0x2029 || n == 0x202F || n == 0x205F || n == 0x3000
}

/// Where the trimmed text begins and ends within `s`.
pub fn trim_bounds(s: &Vec<char>) -> (r: (usize, usize))
    ensures
        r.0 <= r.1 <= s.len(),
        s@.subrange(r.0 as int, r.1 as int) == trim(s@),
        r.0 == s.len() - trim_start(s@).len(),
{
    let n = s.len();
    let mut lo: usize = 0;
    assert(s@.skip(0) =~= s@);
    while lo < n && char_is_whitespace(s[lo])
        invariant
            lo <= n == s.len(),
            trim_start(s@) == trim_start(s@.skip(lo as int)),
        decreases n - lo,
    {
        assert(s@.skip(lo as int).drop_first() =~= s@.skip(lo as int + 1));
        lo += 1;
    }
    assert(trim_start(s@) == s@.skip(lo as int));
    let mut hi: usize = n;
    assert(s@.skip(lo as int) =~= s@.subrange(lo as int, hi as int));
    while hi > lo && char_is_whitespace(s[hi - 1])
        invariant
            lo <= hi <= n == s.len(),
            trim(s@) == trim_end(s@.subrange(lo as int, hi as int)),
        decreases hi,
    {
        assert(s@.subrange(lo as int, hi as int).drop_last() =~= s@.subrange(
            lo as int,
            hi as int - 1,
        ));
        hi -= 1;
    }
    (lo, hi)
}

/// Cuts `s[lo..hi]` at each `sep`.
pub fn split_ranges(s: &Vec<char>, lo: usize, hi: usize, sep: char) -> (r: Vec<(usize, usize)>)
    requires
        lo <= hi <= s.len(),
    ensures
        cuts(s@, r@, split(s@.subrange(lo as int, hi as int), sep)),
        chained(r@, lo as int, hi as int),
{
    let mut out: Vec<(usize, usize)> = Vec::new();
    let mut start: usize = lo;
    let mut i: usize = lo;
    let ghost whole = split(s@.subrange(lo as int, hi as int), sep);
    let ghost mut done: Seq<Seq<char>> = Seq::empty();
    while i < hi
        invariant
            lo <= start <= i <= hi <= s.len(),
            forall|j: int| start <= j < i ==> s[j] != sep,
            whole == done + split(s@.subrange(start as int, hi as int), sep),
            cuts(s@, out@, done),
            out.len() == 0 ==> start == lo,
            out.len() > 0 ==> out@.first().0 == lo && out@.last().1 + 1 == start,
            forall|k: int| 0 <= k < out.len() - 1 ==> (#[trigger] out[k]).1 + 1 == out[k + 1].0,
        decreases hi - i,
    {
        if s[i] == sep {
            proof {
                let rest = s@.subrange(start as int, hi as int);
                lemma_index_of_is(rest, sep, i - start);
                assert(rest.take(i - start) =~= s@.subrange(start as int, i as int));
                assert(rest.skip(i - start + 1) =~= s@.subrange(i as int + 1, hi as int));
                let piece = s@.subrange(start as int, i as int);
                assert(done + (seq![piece] + split(s@.subrange(i as int + 1, hi as int), sep))
                    =~= done.push(piece) + split(s@.subrange(i as int + 1, hi as int), sep));
                done = done.push(piece);
            }
            out.push((start, i));
            start = i + 1;
        }
        i += 1;
    }
    proof {
        let rest = s@.subrange(start as int, hi as int);
        lemma_index_of_is(rest, sep, rest.len() as int);
        assert(done + seq![rest] =~= done.push(rest));
        done = done.push(rest);
    }
    out.push((start, hi));
    out
}

/// Where each field of the line begins and ends.
pub fn field_ranges(line: &Vec<char>) -> (r: Vec<(usize, usize)>)
    ensures
        cuts(line@, r@, fields(line@)),
        chained(
            r@,
            line.len() - trim_start(line@).len(),
            line.len() - trim_start(line@).len() + trim(line@).len(),
        ),
{
    let (lo, hi) = trim_bounds(line);
    split_ranges(line, lo, hi, '\t')
}

/// The text of `line` within a range, as a string of its own.
pub fn range_text(line: &str, range: (usize, usize)) -> (r: String)
    requires
        range.0 <= range.1 <= line@.len(),
    ensures
        r@ == line@.subrange(range.0 as int, range.1 as int),
{
    line.substring_char(range.0, range.1).to_owned()
}

} // verus!
