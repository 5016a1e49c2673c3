use biotools::number::{format_region, parse_i64, parse_u64, parse_u64_list, push_decimal};

fn chars(s: &str) -> Vec<char> {
    s.chars().collect()
}

fn number(s: &str) -> Option<u64> {
    let v = chars(s);
    parse_u64(&v, 0, v.len())
}

fn signed(s: &str) -> Option<i64> {
    let v = chars(s);
    parse_i64(&v, 0, v.len())
}

fn list(s: &str) -> Option<Vec<u64>> {
    let v = chars(s);
    parse_u64_list(&v, 0, v.len())
}

#[test]
fn numbers_are_read_within_a_range() {
    let v = chars("ab12,34cd");
    assert_eq!(parse_u64(&v, 2, 4), Some(12));
    assert_eq!(parse_u64(&v, 2, 5), None);
    assert_eq!(parse_u64(&v, 3, 3), None);
    assert_eq!(parse_i64(&v, 5, 7), Some(34));
    assert_eq!(parse_u64_list(&v, 2, 7), Some(vec![12, 34]));
    assert_eq!(parse_u64_list(&v, 2, 5), Some(vec![12]));
    assert_eq!(parse_u64_list(&v, 1, 7), None);
}

#[test]
fn unsigned_numbers_are_read() {
    assert_eq!(number("0"), Some(0));
    assert_eq!(number("1000"), Some(1000));
    assert_eq!(number("+17"), Some(17));
    assert_eq!(number("007"), Some(7));
    assert_eq!(number("18446744073709551615"), Some(u64::MAX));
    assert_eq!(number("000000000000000000000000000012"), Some(12));
}

#[test]
fn unsigned_numbers_are_refused() {
    assert_eq!(number(""), None);
    assert_eq!(number("+"), None);
    assert_eq!(number("-1"), None);
    assert_eq!(number("-0"), None);
    assert_eq!(number("12a"), None);
    assert_eq!(number("1 2"), None);
    assert_eq!(number(" 12"), None);
    assert_eq!(number("++1"), None);
    assert_eq!(number("1.5"), None);
    assert_eq!(number("٣"), None);
    assert_eq!(number("18446744073709551616"), None);
    assert_eq!(number("99999999999999999999999"), None);
}

#[test]
fn unsigned_numbers_agree_with_std() {
    for s in ["", "0", "+0", "-0", "42", "+42", "-42", "4 2", "18446744073709551615",
        "18446744073709551616", "0018446744073709551615", "x", "+", "-"]
    {
        assert_eq!(number(s), s.parse::<u64>().ok(), "{:?}", s);
    }
}

#[test]
fn signed_numbers_are_read_and_refused() {
    assert_eq!(signed("0"), Some(0));
    assert_eq!(signed("-0"), Some(0));
    assert_eq!(signed("+5"), Some(5));
    assert_eq!(signed("-5"), Some(-5));
    assert_eq!(signed("9223372036854775807"), Some(i64::MAX));
    assert_eq!(signed("-9223372036854775808"), Some(i64::MIN));
    assert_eq!(signed("9223372036854775808"), None);
    assert_eq!(signed("-9223372036854775809"), None);
    assert_eq!(signed("-"), None);
    assert_eq!(signed("+-1"), None);
    assert_eq!(signed(""), None);
    assert_eq!(signed("1e3"), None);
}

#[test]
fn signed_numbers_agree_with_std() {
    for s in ["", "0", "+0", "-0", "42", "+42", "-42", "--1", "9223372036854775807",
        "9223372036854775808", "-9223372036854775808", "-9223372036854775809",
        "18446744073709551616", "-18446744073709551616", "x", "+", "-"]
    {
        assert_eq!(signed(s), s.parse::<i64>().ok(), "{:?}", s);
    }
}

#[test]
fn lists_are_read() {
    assert_eq!(list("100,100,"), Some(vec![100, 100]));
    assert_eq!(list("100,100"), Some(vec![100, 100]));
    assert_eq!(list("7"), Some(vec![7]));
    assert_eq!(list("7,"), Some(vec![7]));
    assert_eq!(list("0,200,"), Some(vec![0, 200]));
}

#[test]
fn lists_are_refused() {
    assert_eq!(list(""), None);
    assert_eq!(list(","), None);
    assert_eq!(list("1,,2"), None);
    assert_eq!(list("1,2,,"), None);
    assert_eq!(list(",1"), None);
    assert_eq!(list("1,x"), None);
    assert_eq!(list("1, 2"), None);
}

#[test]
fn regions_are_written_in_decimal() {
    assert_eq!(format_region("chr1", 1000, 1300), "chr1:1000-1300");
    assert_eq!(format_region("", 0, 0), ":0-0");
    assert_eq!(format_region("chrX", 9, 10), "chrX:9-10");
    assert_eq!(
        format_region("2", u64::MAX, 1234567890),
        "2:18446744073709551615-1234567890"
    );
}

#[test]
fn a_written_number_reads_back() {
    for n in [0u64, 1, 9, 10, 11, 99, 100, 101, 65535, 4294967296, u64::MAX - 1, u64::MAX] {
        let text = format_region("", n, 0);
        let digits = &text[1..text.len() - 2];
        assert_eq!(digits, n.to_string());
        assert_eq!(number(digits), Some(n));
    }
}

#[test]
fn decimal_digits_are_appended() {
    let mut s = String::from("n=");
    push_decimal(&mut s, 0);
    assert_eq!(s, "n=0");
    push_decimal(&mut s, 907);
    assert_eq!(s, "n=0907");
    push_decimal(&mut s, u64::MAX);
    assert_eq!(s, "n=090718446744073709551615");
}
