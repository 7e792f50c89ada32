//! The journal file format: field escaping, record identifiers, whole-journal
//! encode and parse, and the errors a malformed journal gives.

use backfill::FormatError;
use backfill::codec::{escape_field, split_bytes, unescape_field};
use backfill::decimal::{decimal_of, parse_decimal};
use backfill::journal::{
    JournalEntry, ResolvedSet, append_entry, encode_entry, is_sentinel_field, parse_journal,
    sentinel_field,
};

fn bv(s: &str) -> Vec<u8> {
    s.as_bytes().to_vec()
}

#[test]
fn decimal_renders_digits() {
    assert_eq!(decimal_of(0), bv("0"));
    assert_eq!(decimal_of(7), bv("7"));
    assert_eq!(decimal_of(12345), bv("12345"));
    assert_eq!(decimal_of(u64::MAX), bv("18446744073709551615"));
}

#[test]
fn decimal_parses_digits() {
    assert_eq!(parse_decimal(&bv("0")), Ok(0));
    assert_eq!(parse_decimal(&bv("12345")), Ok(12345));
    assert_eq!(parse_decimal(&bv("007")), Ok(7));
    assert_eq!(parse_decimal(&bv("18446744073709551615")), Ok(u64::MAX));
}

#[test]
fn decimal_rejects_bad_identifiers() {
    assert_eq!(parse_decimal(&bv("")), Err(FormatError::RecordId));
    assert_eq!(parse_decimal(&bv("12a")), Err(FormatError::RecordId));
    assert_eq!(parse_decimal(&bv("-5")), Err(FormatError::RecordId));
    // one past u64::MAX overflows
    assert_eq!(
        parse_decimal(&bv("18446744073709551616")),
        Err(FormatError::RecordId)
    );
}

#[test]
fn decimal_round_trips() {
    for n in [0u64, 1, 9, 10, 99, 1000, 65535, u64::MAX] {
        assert_eq!(parse_decimal(&decimal_of(n)), Ok(n));
    }
}

#[test]
fn escaping_removes_delimiters() {
    let escaped = escape_field(&bv("a,b\\c\nd\re"));
    assert_eq!(escaped, bv("a\\cb\\\\c\\nd\\re"));
    assert!(!escaped.contains(&b','));
    assert!(!escaped.contains(&b'\n'));
    assert!(!escaped.contains(&b'\r'));
}

#[test]
fn escaping_round_trips() {
    for text in ["", "plain", "a,b", "quote\"inside", "line\nbreak", "back\\slash", "cr\rhere"] {
        let field = bv(text);
        assert_eq!(unescape_field(&escape_field(&field)), Ok(field));
    }
}

#[test]
fn unescape_rejects_bad_escapes() {
    // a dangling escape at the end of the field
    assert_eq!(unescape_field(&bv("abc\\")), Err(FormatError::Syntax));
    // an unknown escape code
    assert_eq!(unescape_field(&bv("a\\zb")), Err(FormatError::Syntax));
}

#[test]
fn split_keeps_empty_segments() {
    let segs = split_bytes(&bv("a,,b"), b',');
    assert_eq!(segs, vec![bv("a"), bv(""), bv("b")]);
    let segs = split_bytes(&bv(""), b',');
    assert_eq!(segs, vec![bv("")]);
}

#[test]
fn entry_encodes_as_one_line() {
    let e = JournalEntry { record_id: 7, fields: vec![bv("15000")] };
    assert_eq!(encode_entry(&e), bv("7,15000\n"));
    let e = JournalEntry { record_id: 12, fields: vec![bv("'1.0'")] };
    assert_eq!(encode_entry(&e), bv("12,'1.0'\n"));
    // a field with commas is escaped so the line still has two columns
    let e = JournalEntry { record_id: 3, fields: vec![bv("{a,b}")] };
    assert_eq!(encode_entry(&e), bv("3,{a\\cb}\n"));
}

#[test]
fn journal_round_trips() {
    let mut journal: Vec<u8> = Vec::new();
    let entries = vec![
        JournalEntry { record_id: 1, fields: vec![bv("'x'"), bv("{a,b}")] },
        JournalEntry { record_id: 2, fields: vec![bv("NULL"), bv("line\nbreak")] },
    ];
    for e in &entries {
        append_entry(&mut journal, e);
    }
    let parsed = parse_journal(&journal, 2).unwrap();
    assert_eq!(parsed.len(), 2);
    for (p, e) in parsed.iter().zip(entries.iter()) {
        assert_eq!(p.record_id, e.record_id);
        assert_eq!(p.fields, e.fields);
    }
}

#[test]
fn journal_parses_empty_and_torn_tails() {
    // a journal that does not exist yet is empty bytes: no entries
    let parsed = parse_journal(&Vec::new(), 1).unwrap();
    assert_eq!(parsed.len(), 0);
    // a torn final append (no terminating line feed) is ignored
    let parsed = parse_journal(&bv("1,a\n2,b"), 1).unwrap();
    assert_eq!(parsed.len(), 1);
    assert_eq!(parsed[0].record_id, 1);
}

#[test]
fn journal_rejects_malformed_records() {
    // wrong number of columns
    assert_eq!(parse_journal(&bv("1\n"), 1), Err(FormatError::ColumnCount));
    assert_eq!(parse_journal(&bv("1,a,b\n"), 1), Err(FormatError::ColumnCount));
    // unparsable identifier
    assert_eq!(parse_journal(&bv("x,a\n"), 1), Err(FormatError::RecordId));
    // malformed escape
    assert_eq!(parse_journal(&bv("1,a\\z\n"), 1), Err(FormatError::Syntax));
    // the first malformed record wins
    assert_eq!(parse_journal(&bv("1,a\nx,b\n2\n"), 1), Err(FormatError::RecordId));
}

#[test]
fn sentinel_is_its_own_token() {
    assert_eq!(sentinel_field(), bv("NULL"));
    assert!(is_sentinel_field(&bv("NULL")));
    assert!(!is_sentinel_field(&bv("NULLX")));
    assert!(!is_sentinel_field(&bv("null")));
    assert!(!is_sentinel_field(&bv("")));
}

#[test]
fn resolved_set_tracks_journal_ids() {
    let entries = vec![
        JournalEntry { record_id: 1, fields: vec![bv("a")] },
        JournalEntry { record_id: 3, fields: vec![bv("b")] },
        JournalEntry { record_id: 1, fields: vec![bv("c")] },
    ];
    let resolved = ResolvedSet::from_entries(&entries);
    assert!(resolved.contains(1));
    assert!(!resolved.contains(2));
    assert!(resolved.contains(3));
    let mut r = ResolvedSet::new();
    assert!(!r.contains(5));
    r.insert(5);
    r.insert(5);
    assert!(r.contains(5));
}
