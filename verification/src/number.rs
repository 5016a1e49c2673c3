//! Decimal numbers as the line formats write them: single numbers,
//! comma-separated lists, and the text of a region.

use crate::text::{cuts, split, split_joins_back, split_ranges};
use vstd::prelude::*;

verus! {

/// Whether `c` is one of the digits `0` to `9`.
pub open spec fn is_digit(c: char) -> bool {
    0x30 <= c as u32 <= 0x39
}

/// The number that the digit `c` writes.
pub open spec fn digit_value(c: char) -> nat {
    (c as u32 - 0x30) as nat
}

/// Whether `s` holds digits only.
pub open spec fn all_digits(s: Seq<char>) -> bool {
    forall|i: int| 0 <= i < s.len() ==> is_digit(#[trigger] s[i])
}

/// The number that the decimal digits `s` write; 0 for no digits.
pub open spec fn decimal_value(s: Seq<char>) -> nat
    decreases s.len(),
{
    if s.len() == 0 {
        0
    } else {
        decimal_value(s.drop_last()) * 10 + digit_value(s.last())
    }
}

/// `s` without one leading plus sign.
pub open spec fn unsigned_digits(s: Seq<char>) -> Seq<char> {
    if s.len() > 0 && s.first() == '+' {
        s.drop_first()
    } else {
        s
    }
}

/// The number that `s` writes: an optional plus sign and one or more decimal
/// digits, with a value that fits in 64 bits. `None` for any other text.
pub open spec fn u64_of(s: Seq<char>) -> Option<u64> {
    let d = unsigned_digits(s);
    if d.len() > 0 && all_digits(d) && decimal_value(d) <= u64::MAX {
        Some(decimal_value(d) as u64)
    } else {
        None
    }
}

/// Whether `s` begins with a minus sign.
pub open spec fn is_negative(s: Seq<char>) -> bool {
    s.len() > 0 && s.first() == '-'
}

/// `s` without one leading plus or minus sign.
pub open spec fn signed_digits(s: Seq<char>) -> Seq<char> {
    if s.len() > 0 && (s.first() == '+' || s.first() == '-') {
        s.drop_first()
    } else {
        s
    }
}

/// The number that `s` writes: an optional sign and one or more decimal
/// digits, with a value that fits in 64 bits with sign. `None` for any other
/// text.
pub open spec fn i64_of(s: Seq<char>) -> Option<i64> {
    let d = signed_digits(s);
    let v = if is_negative(s) {
        -(decimal_value(d) as int)
    } else {
        decimal_value(d) as int
    };
    if d.len() > 0 && all_digits(d) && i64::MIN <= v <= i64::MAX {
        Some(v as i64)
    } else {
        None
    }
}

/// `s` without one trailing comma.
pub open spec fn list_body(s: Seq<char>) -> Seq<char> {
    if s.len() > 0 && s.last() == ',' {
        s.drop_last()
    } else {
        s
    }
}

/// The texts between the commas of a list, a trailing comma aside.
pub open spec fn list_items(s: Seq<char>) -> Seq<Seq<char>> {
    split(list_body(s), ',')
}

/// The numbers of a comma-separated list, which may end in one comma. `None`
/// if any item is not a number in the sense of [`u64_of`]; an empty list has
/// one empty item and is therefore `None`.
pub open spec fn u64_list_of(s: Seq<char>) -> Option<Seq<u64>> {
    let items = list_items(s);
    if forall|k: int| 0 <= k < items.len() ==> u64_of(#[trigger] items[k]) is Some {
        Some(Seq::new(items.len(), |k: int| u64_of(items[k])->0))
    } else {
        None
    }
}

/// A list that can be read has at least one number.
pub proof fn lemma_list_has_items(s: Seq<char>)
    requires
        u64_list_of(s) is Some,
    ensures
        (u64_list_of(s)->0).len() >= 1,
{
    split_joins_back(list_body(s), ',');
}

/// The character that writes the digit `d`.
pub open spec fn digit_char(d: nat) -> char {
    ((0x30 + d) as u8) as char
}

/// `n` written in decimal digits, without a sign or leading zeros.
pub open spec fn decimal_text(n: nat) -> Seq<char>
    decreases n,
{
    if n < 10 {
        seq![digit_char(n)]
    } else {
        decimal_text(n / 10).push(digit_char(n % 10))
    }
}

/// A region as it is commonly written: the chromosome, a colon, the start, a
/// hyphen and the end.
pub open spec fn region_text(chrom: Seq<char>, start: u64, end: u64) -> Seq<char> {
    chrom + seq![':'] + decimal_text(start as nat) + seq!['-'] + decimal_text(end as nat)
}

/// Reading a number that was written by [`decimal_text`] gives the number
/// back.
pub proof fn decimal_text_reads_back(n: nat)
    ensures
        decimal_text(n).len() > 0,
        all_digits(decimal_text(n)),
        decimal_value(decimal_text(n)) == n,
        n <= u64::MAX ==> u64_of(decimal_text(n)) == Some(n as u64),
    decreases n,
{
    let t = decimal_text(n);
    if n < 10 {
        assert(t.drop_last() =~= Seq::<char>::empty());
        assert(decimal_value(t.drop_last()) == 0);
    } else {
        decimal_text_reads_back(n / 10);
        assert(t.drop_last() =~= decimal_text(n / 10));
        assert forall|i: int| 0 <= i < t.len() implies is_digit(#[trigger] t[i]) by {
            if i < t.len() - 1 {
                assert(t[i] == decimal_text(n / 10)[i]);
            }
        }
    }
    assert(is_digit(t.first())) by {
        assert(all_digits(t));
    }
    assert(unsigned_digits(t) == t);
}

/// Reads `s[lo..hi]` as a run of decimal digits: the number they write, or
/// `None` if the run is empty, holds another character, or writes a number
/// over 64 bits.
fn parse_digits(s: &Vec<char>, lo: usize, hi: usize) -> (r: Option<u64>)
    requires
        lo <= hi <= s.len(),
    ensures
        ({
            let d = s@.subrange(lo as int, hi as int);
            r == if d.len() > 0 && all_digits(d) && decimal_value(d) <= u64::MAX {
                Some(decimal_value(d) as u64)
            } else {
                None
            }
        }),
{
    let ghost digits = s@.subrange(lo as int, hi as int);
    if lo == hi {
        return None;
    }
    let mut i: usize = lo;
    let mut acc: Option<u64> = Some(0);
    while i < hi
        invariant
            lo <= i <= hi <= s.len(),
            digits == s@.subrange(lo as int, hi as int),
            all_digits(s@.subrange(lo as int, i as int)),
            match acc {
                Some(v) => v == decimal_value(s@.subrange(lo as int, i as int)),
                None => decimal_value(s@.subrange(lo as int, i as int)) > u64::MAX,
            },
        decreases hi - i,
    {
        let n: u32 = s[i] as u32;
        if n < 0x30 || n > 0x39 {
            assert(!is_digit(digits[i - lo]));
            return None;
        }
        let d: u64 = (n - 0x30) as u64;
        proof {
            let next = s@.subrange(lo as int, i as int + 1);
            assert(next.drop_last() =~= s@.subrange(lo as int, i as int));
            assert(next.last() == s[i as int]);
            assert forall|j: int| 0 <= j < next.len() implies is_digit(#[trigger] next[j]) by {
                if j < i - lo {
                    assert(next[j] == s@.subrange(lo as int, i as int)[j]);
                }
            }
        }
        acc = match acc {
            Some(v) => match v.checked_mul(10) {
                Some(w) => w.checked_add(d),
                None => None,
            },
            None => None,
        };
        i += 1;
    }
    assert(s@.subrange(lo as int, i as int) =~= digits);
    acc
}

/// Reads `s[lo..hi]` as an unsigned number.
pub fn parse_u64(s: &Vec<char>, lo: usize, hi: usize) -> (r: Option<u64>)
    requires
        lo <= hi <= s.len(),
    ensures
        r == u64_of(s@.subrange(lo as int, hi as int)),
{
    let ghost text = s@.subrange(lo as int, hi as int);
    let from = if lo < hi && s[lo] == '+' {
        lo + 1
    } else {
        lo
    };
    assert(s@.subrange(from as int, hi as int) =~= unsigned_digits(text));
    parse_digits(s, from, hi)
}

/// Reads `s[lo..hi]` as a number with an optional sign.
pub fn parse_i64(s: &Vec<char>, lo: usize, hi: usize) -> (r: Option<i64>)
    requires
        lo <= hi <= s.len(),
    ensures
        r == i64_of(s@.subrange(lo as int, hi as int)),
{
    let ghost text = s@.subrange(lo as int, hi as int);
    let negative = lo < hi && s[lo] == '-';
    let from = if lo < hi && (s[lo] == '+' || s[lo] == '-') {
        lo + 1
    } else {
        lo
    };
    assert(s@.subrange(from as int, hi as int) =~= signed_digits(text));
    assert(negative == is_negative(text));
    match parse_digits(s, from, hi) {
        None => None,
        Some(m) => {
            if negative {
                if m <= 0x7fff_ffff_ffff_ffff {
                    Some(-(m as i64))
                } else if m == 0x8000_0000_0000_0000 {
                    Some(i64::MIN)
                } else {
                    None
                }
            } else if m <= 0x7fff_ffff_ffff_ffff {
                Some(m as i64)
            } else {
                None
            }
        },
    }
}

/// Reads `s[lo..hi]` as a comma-separated list of unsigned numbers.
pub fn parse_u64_list(s: &Vec<char>, lo: usize, hi: usize) -> (r: Option<Vec<u64>>)
    requires
        lo <= hi <= s.len(),
    ensures
        match r {
            Some(v) => u64_list_of(s@.subrange(lo as int, hi as int)) == Some(v@) && v.len() >= 1,
            None => u64_list_of(s@.subrange(lo as int, hi as int)) is None,
        },
{
    let ghost text = s@.subrange(lo as int, hi as int);
    let end = if lo < hi && s[hi - 1] == ',' {
        hi - 1
    } else {
        hi
    };
    assert(s@.subrange(lo as int, end as int) =~= list_body(text));
    let ranges = split_ranges(s, lo, end, ',');
    let ghost items = list_items(text);
    let mut out: Vec<u64> = Vec::new();
    let mut k: usize = 0;
    while k < ranges.len()
        invariant
            k <= ranges.len(),
            lo <= hi <= s.len(),
            items == list_items(s@.subrange(lo as int, hi as int)),
            cuts(s@, ranges@, items),
            out.len() == k,
            forall|j: int| 0 <= j < k ==> u64_of(#[trigger] items[j]) == Some(out[j]),
        decreases ranges.len() - k,
    {
        let (a, b) = ranges[k];
        match parse_u64(s, a, b) {
            Some(v) => {
                out.push(v);
            },
            None => {
                assert(u64_of(items[k as int]) is None);
                return None;
            },
        }
        k += 1;
    }
    assert(out@ =~= Seq::new(items.len(), |j: int| u64_of(items[j])->0));
    Some(out)
}

/// The digit `d` as text.
fn digit_str(d: u8) -> (s: &'static str)
    requires
        d < 10,
    ensures
        s@ == seq![digit_char(d as nat)],
{
    proof {
        reveal_strlit("0");
        reveal_strlit("1");
        reveal_strlit("2");
        reveal_strlit("3");
        reveal_strlit("4");
        reveal_strlit("5");
        reveal_strlit("6");
        reveal_strlit("7");
        reveal_strlit("8");
        reveal_strlit("9");
    }
    let s = match d {
        0 => "0",
        1 => "1",
        2 => "2",
        3 => "3",
        4 => "4",
        5 => "5",
        6 => "6",
        7 => "7",
        8 => "8",
        _ => "9",
    };
    assert(s@ =~= seq![digit_char(d as nat)]);
    s
}

/// Appends `n` in decimal digits to `out`.
pub fn push_decimal(out: &mut String, n: u64)
    ensures
        final(out)@ == old(out)@ + decimal_text(n as nat),
    decreases n,
{
    if n >= 10 {
        push_decimal(out, n / 10);
    }
    out.append(digit_str((n % 10) as u8));
    assert(final(out)@ =~= old(out)@ + decimal_text(n as nat));
}

/// Writes a region as text (see [`region_text`]).
pub fn format_region(chrom: &str, start: u64, end: u64) -> (r: String)
    ensures
        r@ == region_text(chrom@, start, end),
{
    proof {
        reveal_strlit(":");
        reveal_strlit("-");
    }
    let mut out = chrom.to_owned();
    out.append(":");
    push_decimal(&mut out, start);
    out.append("-");
    push_decimal(&mut out, end);
    assert(out@ =~= region_text(chrom@, start, end));
    out
}

} // verus!
