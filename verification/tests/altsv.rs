use altsv::decode::{parse, parse_line};
use altsv::encode::{DumpArgument, EncodeError, MappingSource, Scalar};
use altsv::record::Record;

fn text(s: &str) -> Scalar {
    Scalar::Text(s.to_string())
}

fn entries(pairs: &[(&str, &str)]) -> Vec<(Scalar, Scalar)> {
    pairs.iter().map(|(k, v)| (text(k), text(v))).collect()
}

fn present(rec: &Record, key: &str) -> String {
    match rec.get(key) {
        Some(Some(v)) => v.clone(),
        Some(None) => panic!("key {:?} is absent", key),
        None => panic!("key {:?} is missing", key),
    }
}

#[test]
fn empty_value_becomes_absent() {
    let rec = parse_line("a:\tb:x");
    assert_eq!(rec.get("a"), Some(&None));
    assert_eq!(present(&rec, "b"), "x");
    assert_eq!(rec.len(), 2);
}

#[test]
fn only_first_colon_splits() {
    let rec = parse_line("a:b:c");
    assert_eq!(present(&rec, "a"), "b:c");
    assert_eq!(rec.len(), 1);
}

#[test]
fn duplicate_key_last_wins() {
    let rec = parse_line("a:1\ta:2");
    assert_eq!(present(&rec, "a"), "2");
    assert_eq!(rec.len(), 1);
}

#[test]
fn no_trailing_terminator_needed() {
    let rec = parse_line("a:1");
    assert_eq!(present(&rec, "a"), "1");
    assert_eq!(rec.len(), 1);
}

#[test]
fn multi_line_document() {
    let recs = parse("a:1\nb:2\n");
    assert_eq!(recs.len(), 2);
    assert_eq!(present(&recs[0], "a"), "1");
    assert_eq!(recs[0].len(), 1);
    assert_eq!(present(&recs[1], "b"), "2");
    assert_eq!(recs[1].len(), 1);
}

#[test]
fn document_without_trailing_newline() {
    let recs = parse("a:1\nb:2");
    assert_eq!(recs.len(), 2);
    assert_eq!(present(&recs[1], "b"), "2");
}

#[test]
fn empty_document_has_no_records() {
    let recs = parse("");
    assert_eq!(recs.len(), 0);
}

#[test]
fn blank_lines_yield_empty_records() {
    let recs = parse("\na:1\n");
    assert_eq!(recs.len(), 2);
    assert_eq!(recs[0].len(), 0);
    assert_eq!(present(&recs[1], "a"), "1");
}

#[test]
fn carriage_return_ends_a_line() {
    let rec = parse_line("a:1\rb:2");
    assert_eq!(present(&rec, "a"), "1");
    assert_eq!(rec.get("b"), None);
}

#[test]
fn recognized_escapes_decode() {
    let rec = parse_line("a:x\\ny\tb:x\\ty\tc:x\\ry\td:x\\\\y");
    assert_eq!(present(&rec, "a"), "x\ny");
    assert_eq!(present(&rec, "b"), "x\ty");
    assert_eq!(present(&rec, "c"), "x\ry");
    assert_eq!(present(&rec, "d"), "x\\y");
}

#[test]
fn unrecognized_escape_keeps_backslash() {
    let rec = parse_line("a:b\\qc");
    assert_eq!(present(&rec, "a"), "b\\qc");
}

#[test]
fn escaped_colon_keeps_backslash() {
    let rec = parse_line("a\\:b:1");
    assert_eq!(present(&rec, "a\\:b"), "1");
}

#[test]
fn trailing_backslash_is_dropped() {
    let rec = parse_line("a:b\\");
    assert_eq!(present(&rec, "a"), "b");
}

#[test]
fn escaped_tab_in_key() {
    let rec = parse_line("a\\tb:1");
    assert_eq!(present(&rec, "a\tb"), "1");
}

#[test]
fn empty_key_field_is_dropped() {
    let rec = parse_line(":x\tb:1");
    assert_eq!(rec.get(""), None);
    assert_eq!(present(&rec, "b"), "1");
    assert_eq!(rec.len(), 1);
}

#[test]
fn leading_and_consecutive_tabs_are_permitted() {
    let rec = parse_line("\t\ta:1\t\t");
    assert_eq!(present(&rec, "a"), "1");
    assert_eq!(rec.len(), 1);
}

#[test]
fn record_insert_and_lookup() {
    let mut rec = Record::new();
    rec.insert("a", "1");
    rec.insert("b", "");
    assert_eq!(present(&rec, "a"), "1");
    assert_eq!(rec.get("b"), Some(&None));
    rec.insert("a", "2");
    assert_eq!(present(&rec, "a"), "2");
    assert_eq!(rec.len(), 2);
    let mut entries = rec.into_entries();
    entries.sort_by(|x, y| x.0.cmp(&y.0));
    assert_eq!(
        entries,
        vec![("a".to_string(), Some("2".to_string())), ("b".to_string(), None)]
    );
}

#[test]
fn record_with_capacity_starts_empty() {
    let rec = Record::with_capacity(16);
    assert_eq!(rec.len(), 0);
    assert_eq!(rec.get("a"), None);
}

#[test]
fn dump_simple_mapping() {
    let arg = DumpArgument::from_hash(entries(&[("a", "1"), ("b", "2")]));
    assert_eq!(arg.dump().unwrap(), "a:1\tb:2");
}

#[test]
fn dump_empty_mapping() {
    let arg = DumpArgument::from_hash(Vec::new());
    assert_eq!(arg.dump().unwrap(), "");
}

#[test]
fn dump_escapes_special_characters() {
    let arg = DumpArgument::from_hash(entries(&[("k", "a\nb\rc\td:e\\f")]));
    assert_eq!(arg.dump().unwrap(), "k:a\\nb\\rc\\td\\:e\\\\f");
}

#[test]
fn dump_trims_trailing_whitespace() {
    let arg = DumpArgument::from_hash(entries(&[("k", "v ")]));
    assert_eq!(arg.dump().unwrap(), "k:v");
}

#[test]
fn dump_renders_names_and_conversions() {
    let arg = DumpArgument::from_hash(vec![
        (Scalar::Name("a".to_string()), Scalar::Converted("7".to_string())),
        (Scalar::Text("b".to_string()), Scalar::Name("x".to_string())),
    ]);
    assert_eq!(arg.dump().unwrap(), "a:7\tb:x");
}

#[test]
fn dump_reports_first_render_failure() {
    let arg = DumpArgument::from_hash(vec![
        (text("a"), text("1")),
        (Scalar::Unconvertible("no text for key".to_string()), Scalar::Unconvertible("later".to_string())),
    ]);
    match arg.dump() {
        Err(EncodeError::Render(m)) => assert_eq!(m, "no text for key"),
        other => panic!("expected a render failure, got {:?}", other.is_ok()),
    }
}

#[test]
fn dump_value_failure_aborts_too() {
    let arg = DumpArgument::from_hash(vec![(text("a"), Scalar::Unconvertible("bad value".to_string()))]);
    match arg.dump() {
        Err(EncodeError::Render(m)) => assert_eq!(m, "bad value"),
        _ => panic!("expected a render failure"),
    }
}

#[test]
fn coercion_prefers_native_mapping() {
    let source = MappingSource {
        native: Some(entries(&[("n", "1")])),
        primary: Some(entries(&[("p", "2")])),
        secondary: Some(entries(&[("s", "3")])),
    };
    let arg = DumpArgument::from_source(source).unwrap();
    assert_eq!(arg.dump().unwrap(), "n:1");
}

#[test]
fn coercion_falls_back_to_conversions() {
    let source = MappingSource {
        native: None,
        primary: Some(entries(&[("p", "2")])),
        secondary: Some(entries(&[("s", "3")])),
    };
    let arg = DumpArgument::from_source(source).unwrap();
    assert_eq!(arg.dump().unwrap(), "p:2");

    let source = MappingSource {
        native: None,
        primary: None,
        secondary: Some(entries(&[("s", "3")])),
    };
    let arg = DumpArgument::from_source(source).unwrap();
    assert_eq!(arg.dump().unwrap(), "s:3");
}

#[test]
fn coercion_rejects_unmappable_input() {
    let source = MappingSource { native: None, primary: None, secondary: None };
    match DumpArgument::from_source(source) {
        Err(EncodeError::ArgumentNotMappable) => {}
        _ => panic!("expected the input to be rejected"),
    }
}

#[test]
fn round_trip_plain_values() {
    let arg = DumpArgument::from_hash(entries(&[("alpha", "one"), ("beta", "two words")]));
    let line = arg.dump().unwrap();
    let rec = parse_line(&line);
    assert_eq!(present(&rec, "alpha"), "one");
    assert_eq!(present(&rec, "beta"), "two words");
    assert_eq!(rec.len(), 2);
}

#[test]
fn round_trip_absent_value() {
    let arg = DumpArgument::from_hash(entries(&[("a", ""), ("b", "x")]));
    let line = arg.dump().unwrap();
    let rec = parse_line(&line);
    assert_eq!(rec.get("a"), Some(&None));
    assert_eq!(present(&rec, "b"), "x");
}

#[test]
fn escape_symmetry_recovers_each_special_once() {
    for (raw, back) in [
        ("x\ny", "x\ny"),
        ("x\ry", "x\ry"),
        ("x\ty", "x\ty"),
        ("x\\y", "x\\y"),
        // The colon is not a recognized escape target on the way back,
        // so its escape's backslash stays; the colon itself comes back
        // exactly once.
        ("x:y", "x\\:y"),
    ] {
        let arg = DumpArgument::from_hash(entries(&[("k", raw)]));
        let line = arg.dump().unwrap();
        let rec = parse_line(&line);
        let decoded = present(&rec, "k");
        assert_eq!(decoded, back);
        let special = raw.chars().nth(1).unwrap();
        assert_eq!(decoded.chars().filter(|c| *c == special).count(), 1);
    }
}

#[test]
fn round_trip_special_characters_in_keys() {
    let arg = DumpArgument::from_hash(entries(&[("a\tb", "1"), ("c\nd", "2")]));
    let line = arg.dump().unwrap();
    let rec = parse_line(&line);
    assert_eq!(present(&rec, "a\tb"), "1");
    assert_eq!(present(&rec, "c\nd"), "2");
}
