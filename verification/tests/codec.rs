//! The stored form of a record: exact texts, round trips, and what the
//! reader refuses.

use shortener::codec::{decode_record, encode_record, parse_text, push_escaped, push_quoted};
use shortener::decimal::{parse_i64, parse_u64, push_decimal, push_digits};
use shortener::model::UrlRecord;
use shortener::text::{chars_of, str_equal};

fn record(id: &str, url: &str, short: &str, owner: Option<&str>, created_at: i64, clicks: u64) -> UrlRecord {
    UrlRecord {
        id: id.to_string(),
        original_url: url.to_string(),
        short_url: short.to_string(),
        ref_id: owner.map(|o| o.to_string()),
        created_at,
        clicks,
    }
}

#[test]
fn encodes_an_owned_record_exactly() {
    let r = record("abc123", "https://example.com", "http://localhost:8080/abc123", Some("user_123"), 1705501234567890, 0);
    assert_eq!(
        encode_record(&r),
        "{\"id\":\"abc123\",\"original_url\":\"https://example.com\",\"short_url\":\"http://localhost:8080/abc123\",\"ref_id\":\"user_123\",\"created_at\":1705501234567890,\"clicks\":0}"
    );
}

#[test]
fn encodes_an_unowned_record_exactly() {
    let r = record("x", "u", "s", None, -5, 42);
    assert_eq!(
        encode_record(&r),
        "{\"id\":\"x\",\"original_url\":\"u\",\"short_url\":\"s\",\"ref_id\":null,\"created_at\":-5,\"clicks\":42}"
    );
}

#[test]
fn round_trip_of_plain_records() {
    let owned = record("abc123", "https://example.com/a?b=c&d=e", "http://localhost:8080/abc123", Some("user_123"), 1705501234567890, 7);
    assert_eq!(decode_record(&encode_record(&owned)), Some(owned));
    let unowned = record("z", "", "", None, 0, 0);
    assert_eq!(decode_record(&encode_record(&unowned)), Some(unowned));
}

#[test]
fn round_trip_of_awkward_text() {
    let r = record(
        "q\"uo\\te",
        "line\nbreak\ttab\u{0}nul\u{1f}unit",
        "ünïcödé/日本語/🦀",
        Some("null"),
        i64::MIN,
        u64::MAX,
    );
    let stored = encode_record(&r);
    assert!(stored.contains("q\\\"uo\\\\te"));
    assert!(stored.contains("line\\u000abreak\\u0009tab\\u0000nul\\u001funit"));
    assert!(stored.contains("\"created_at\":-9223372036854775808,"));
    assert!(stored.contains("\"clicks\":18446744073709551615}"));
    assert_eq!(decode_record(&stored), Some(r));
    let latest = record("a", "b", "c", Some(""), i64::MAX, 1);
    assert_eq!(decode_record(&encode_record(&latest)), Some(latest));
}

#[test]
fn missing_clicks_reads_as_zero() {
    let stored = "{\"id\":\"old\",\"original_url\":\"https://example.com\",\"short_url\":\"http://h/old\",\"ref_id\":\"u\",\"created_at\":12}";
    assert_eq!(decode_record(stored), Some(record("old", "https://example.com", "http://h/old", Some("u"), 12, 0)));
}

#[test]
fn refuses_what_is_no_stored_form() {
    let good = "{\"id\":\"a\",\"original_url\":\"b\",\"short_url\":\"c\",\"ref_id\":null,\"created_at\":1,\"clicks\":2}";
    assert!(decode_record(good).is_some());
    let bad = [
        "",
        "{}",
        "not json",
        "{\"id\":\"a\"}",
        "{\"id\":\"a\",\"original_url\":\"b\",\"short_url\":\"c\",\"ref_id\":null,\"created_at\":1,\"clicks\":2} ",
        " {\"id\":\"a\",\"original_url\":\"b\",\"short_url\":\"c\",\"ref_id\":null,\"created_at\":1,\"clicks\":2}",
        "{\"id\":\"a\",\"original_url\":\"b\",\"short_url\":\"c\",\"ref_id\":null,\"created_at\":1,\"clicks\":2}}",
        "{\"id\":\"a\",\"original_url\":\"b\",\"short_url\":\"c\",\"ref_id\":null,\"created_at\":01,\"clicks\":2}",
        "{\"id\":\"a\",\"original_url\":\"b\",\"short_url\":\"c\",\"ref_id\":null,\"created_at\":-0,\"clicks\":2}",
        "{\"id\":\"a\",\"original_url\":\"b\",\"short_url\":\"c\",\"ref_id\":null,\"created_at\":1,\"clicks\":-2}",
        "{\"id\":\"a\",\"original_url\":\"b\",\"short_url\":\"c\",\"ref_id\":null,\"created_at\":1,\"clicks\":}",
        "{\"id\":\"a\",\"original_url\":\"b\",\"short_url\":\"c\",\"ref_id\":null,\"created_at\":,\"clicks\":2}",
        "{\"id\":\"a\",\"original_url\":\"b\",\"short_url\":\"c\",\"ref_id\":nul,\"created_at\":1,\"clicks\":2}",
        "{\"id\":\"a\",\"original_url\":\"b\",\"short_url\":\"c\",\"ref_id\":u,\"created_at\":1,\"clicks\":2}",
        "{\"id\":\"a\",\"original_url\":\"b\",\"short_url\":\"c\",\"created_at\":1,\"clicks\":2}",
        "{\"original_url\":\"b\",\"id\":\"a\",\"short_url\":\"c\",\"ref_id\":null,\"created_at\":1,\"clicks\":2}",
        "{\"id\":\"a\\n\",\"original_url\":\"b\",\"short_url\":\"c\",\"ref_id\":null,\"created_at\":1,\"clicks\":2}",
        "{\"id\":\"a\nb\",\"original_url\":\"b\",\"short_url\":\"c\",\"ref_id\":null,\"created_at\":1,\"clicks\":2}",
        "{\"id\":\"a\\u0041\",\"original_url\":\"b\",\"short_url\":\"c\",\"ref_id\":null,\"created_at\":1,\"clicks\":2}",
        "{\"id\":\"a\\u001F\",\"original_url\":\"b\",\"short_url\":\"c\",\"ref_id\":null,\"created_at\":1,\"clicks\":2}",
        "{\"id\":\"a\",\"original_url\":\"b\",\"short_url\":\"c\",\"ref_id\":null,\"created_at\":9223372036854775808,\"clicks\":2}",
        "{\"id\":\"a\",\"original_url\":\"b\",\"short_url\":\"c\",\"ref_id\":null,\"created_at\":-9223372036854775809,\"clicks\":2}",
        "{\"id\":\"a\",\"original_url\":\"b\",\"short_url\":\"c\",\"ref_id\":null,\"created_at\":1,\"clicks\":18446744073709551616}",
        "{\"id\":\"a\",\"original_url\":\"b\",\"short_url\":\"c\",\"ref_id\":null,\"created_at\":1,\"clicks\":2",
        "{\"id\":\"a",
    ];
    for text in bad {
        assert_eq!(decode_record(text), None, "accepted: {}", text);
    }
}

#[test]
fn escapes_text_exactly() {
    let mut out = String::from(">");
    push_escaped(&mut out, "a\"b\\c\u{1}d\u{1f}e f");
    assert_eq!(out, ">a\\\"b\\\\c\\u0001d\\u001fe f");
    let mut quoted = String::new();
    push_quoted(&mut quoted, "x\"y");
    assert_eq!(quoted, "\"x\\\"y\"");
}

#[test]
fn reads_text_up_to_the_closing_quote() {
    let s: Vec<char> = "ab\\\"c\\\\d\\u000a\" rest".chars().collect();
    assert_eq!(parse_text(&s, 0), Some(("ab\"c\\d\n".to_string(), 15)));
    assert_eq!(parse_text(&s, 15), None);
    assert_eq!(parse_text(&s, 14), Some((String::new(), 15)));
    let open: Vec<char> = "never closed".chars().collect();
    assert_eq!(parse_text(&open, 0), None);
    assert_eq!(parse_text(&open, 100), None);
}

#[test]
fn writes_decimal_text_exactly() {
    for (n, text) in [
        (0i64, "0"),
        (7, "7"),
        (10, "10"),
        (-1, "-1"),
        (1705501234567890, "1705501234567890"),
        (i64::MAX, "9223372036854775807"),
        (i64::MIN, "-9223372036854775808"),
    ] {
        let mut out = String::from("t=");
        push_decimal(&mut out, n);
        assert_eq!(out, format!("t={}", text));
    }
    let mut out = String::new();
    push_digits(&mut out, u64::MAX);
    assert_eq!(out, "18446744073709551615");
}

#[test]
fn reads_canonical_decimal_text_only() {
    let s: Vec<char> = "x123,".chars().collect();
    assert_eq!(parse_u64(&s, 1), Some((123, 4)));
    assert_eq!(parse_u64(&s, 0), None);
    assert_eq!(parse_u64(&s, 4), None);
    assert_eq!(parse_u64(&s, 5), None);
    let zero: Vec<char> = "0".chars().collect();
    assert_eq!(parse_u64(&zero, 0), Some((0, 1)));
    let padded: Vec<char> = "007".chars().collect();
    assert_eq!(parse_u64(&padded, 0), None);
    let big: Vec<char> = "18446744073709551615".chars().collect();
    assert_eq!(parse_u64(&big, 0), Some((u64::MAX, 20)));
    let too_big: Vec<char> = "18446744073709551616".chars().collect();
    assert_eq!(parse_u64(&too_big, 0), None);
    let negative: Vec<char> = "-9223372036854775808}".chars().collect();
    assert_eq!(parse_i64(&negative, 0), Some((i64::MIN, 20)));
    let minus_zero: Vec<char> = "-0".chars().collect();
    assert_eq!(parse_i64(&minus_zero, 0), None);
    let lone_minus: Vec<char> = "-".chars().collect();
    assert_eq!(parse_i64(&lone_minus, 0), None);
    let positive: Vec<char> = "9223372036854775807".chars().collect();
    assert_eq!(parse_i64(&positive, 0), Some((i64::MAX, 19)));
    let over: Vec<char> = "9223372036854775808".chars().collect();
    assert_eq!(parse_i64(&over, 0), None);
}

#[test]
fn text_helpers() {
    assert!(str_equal("abc", "abc"));
    assert!(!str_equal("abc", "abd"));
    assert!(!str_equal("abc", "ab"));
    assert!(str_equal("", ""));
    assert!(!str_equal("é", "e"));
    assert_eq!(chars_of("aé🦀"), vec!['a', 'é', '🦀']);
    assert_eq!(chars_of(""), Vec::<char>::new());
}
