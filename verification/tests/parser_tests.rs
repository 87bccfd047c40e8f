use codesync::{ArgsError, Matcher};
use std::path::PathBuf;

#[test]
fn label_alone() {
    let args = Matcher::new().parse_args(100, "(init)").ok().unwrap();
    assert_eq!(args.label(), "init");
    let m = Matcher::new().parse_line(0, "CODESYNC(init) trailing");
    let file = PathBuf::from("a.rs");
    let comment = m.to_comment(&file).unwrap();
    assert_eq!(comment.label(), "init");
    assert!(comment.count_arg().is_none());
    assert_eq!(comment.count(), 2);
    assert_eq!(comment.label_arg().span(), 9..13);
    assert_eq!(comment.label_arg().matched(), "init");
    assert_eq!(comment.span(), 0..14);
}

#[test]
fn label_and_count() {
    let m = Matcher::new().parse_line(10, "// CODESYNC(init, 2)");
    let file = PathBuf::from("a.rs");
    let comment = m.to_comment(&file).unwrap();
    assert_eq!(comment.label(), "init");
    assert_eq!(comment.count(), 2);
    assert_eq!(comment.label_arg().span(), 22..26);
    let count = comment.count_arg().unwrap();
    assert_eq!(*count.val(), 2);
    assert_eq!(count.matched(), " 2");
    assert_eq!(count.span(), 27..29);
    assert_eq!(comment.span(), 13..30);
    assert_eq!(m.span(), 13..30);
    assert_eq!(comment.file(), &file);
    assert!(m.to_invalid(&file).is_none());
}

#[test]
fn arguments_are_trimmed_and_kept() {
    let m = Matcher::new().parse_line(0, "CODESYNC(  my label \t,  12 )");
    let file = PathBuf::from("a.rs");
    let comment = m.to_comment(&file).unwrap();
    assert_eq!(comment.label(), "my label");
    assert_eq!(comment.label_arg().matched(), "  my label \t");
    assert!(comment.label_arg().has_extra_whitespace());
    assert_eq!(comment.count(), 12);
    assert_eq!(comment.count_arg().unwrap().matched(), "  12 ");
    assert!(comment.count_arg().unwrap().has_extra_whitespace());
    assert_eq!(comment.span(), 0..28);
}

#[test]
fn arguments_without_white_space() {
    let m = Matcher::new().parse_line(0, "CODESYNC(a,3)");
    let file = PathBuf::from("a.rs");
    let comment = m.to_comment(&file).unwrap();
    assert!(!comment.label_arg().has_extra_whitespace());
    assert!(!comment.count_arg().unwrap().has_extra_whitespace());
    assert_eq!(comment.count_or(7), 3);
}

#[test]
fn count_default_is_a_parameter() {
    let m = Matcher::new().parse_line(0, "CODESYNC(a)");
    let file = PathBuf::from("a.rs");
    let comment = m.to_comment(&file).unwrap();
    assert_eq!(comment.count_or(7), 7);
    assert_eq!(comment.count(), 2);
}

#[test]
fn spans_count_bytes_not_characters() {
    // "é" takes two bytes, "→" three.
    let m = Matcher::new().parse_line(5, "é→ CODESYNC(naïve, 4)");
    let file = PathBuf::from("a.rs");
    let comment = m.to_comment(&file).unwrap();
    assert_eq!(comment.label(), "naïve");
    assert_eq!(comment.label_arg().span(), 20..26);
    assert_eq!(comment.count_arg().unwrap().span(), 27..29);
    assert_eq!(comment.span(), 11..30);
}

#[test]
fn white_space_outside_ascii_is_trimmed() {
    let args = Matcher::new().parse_args(0, "(\u{a0}x\u{2003})").ok().unwrap();
    assert_eq!(args.label(), "x");
}

#[test]
fn a_label_of_white_space_is_malformed() {
    let matcher = Matcher::new();
    for text in ["( )", "(\t \u{a0})", "( , 2)", "(  ,x)"] {
        assert!(matches!(matcher.parse_args(0, text), Err(ArgsError::Malformed)));
    }
}

#[test]
fn malformed_argument_lists() {
    let matcher = Matcher::new();
    for text in ["", "init)", " (init)", "()", "(,2)", "(init", "(init,2", "(init, 2", "[init]"] {
        assert!(matches!(matcher.parse_args(0, text), Err(ArgsError::Malformed)));
    }
}

#[test]
fn malformed_match_covers_the_marker() {
    let m = Matcher::new().parse_line(40, "  CODESYNC init");
    let file = PathBuf::from("a.rs");
    assert!(m.to_comment(&file).is_none());
    let invalid = m.to_invalid(&file).unwrap();
    assert!(matches!(invalid.error(), ArgsError::Malformed));
    assert_eq!(invalid.span(), 42..50);
    assert_eq!(invalid.file(), &file);
}

#[test]
fn invalid_count_covers_the_second_argument() {
    let matcher = Matcher::new();
    assert!(matches!(
        matcher.parse_args(100, "(init, two)"),
        Err(ArgsError::InvalidCount { start: 106, end: 110 })
    ));
    assert!(matches!(
        matcher.parse_args(0, "(init,)"),
        Err(ArgsError::InvalidCount { start: 6, end: 6 })
    ));
    assert!(matches!(
        matcher.parse_args(0, "(init, 2, 3)"),
        Err(ArgsError::InvalidCount { start: 6, end: 11 })
    ));
    assert!(matches!(
        matcher.parse_args(0, "(init,-1)"),
        Err(ArgsError::InvalidCount { start: 6, end: 8 })
    ));
    assert!(matches!(
        matcher.parse_args(0, "(init, 1 2)"),
        Err(ArgsError::InvalidCount { start: 6, end: 10 })
    ));
    assert!(matches!(
        matcher.parse_args(0, "(init, +)"),
        Err(ArgsError::InvalidCount { start: 6, end: 8 })
    ));
}

#[test]
fn count_is_a_sixteen_bit_number() {
    let matcher = Matcher::new();
    let file = PathBuf::from("a.rs");
    let m = matcher.parse_line(0, "CODESYNC(a, 65535)");
    assert_eq!(m.to_comment(&file).unwrap().count(), 65535);
    let m = matcher.parse_line(0, "CODESYNC(a, 0)");
    assert_eq!(m.to_comment(&file).unwrap().count(), 0);
    let m = matcher.parse_line(0, "CODESYNC(a, 007)");
    assert_eq!(m.to_comment(&file).unwrap().count(), 7);
    assert!(matches!(
        matcher.parse_args(0, "(a,+3)"),
        Err(ArgsError::InvalidCount { start: 3, end: 5 })
    ));
    assert!(matches!(
        matcher.parse_args(0, "(a, +5)"),
        Err(ArgsError::InvalidCount { start: 3, end: 6 })
    ));
    assert!(matches!(
        matcher.parse_args(0, "(a, 65536)"),
        Err(ArgsError::InvalidCount { start: 3, end: 9 })
    ));
    assert!(matches!(
        matcher.parse_args(0, "(a, 99999999999999999999)"),
        Err(ArgsError::InvalidCount { start: 3, end: 24 })
    ));
}

#[test]
fn count_is_written_in_digits_alone() {
    let matcher = Matcher::new();
    let file = PathBuf::from("a.rs");
    let cases: [(&str, Option<u16>); 16] = [
        ("0", Some(0)),
        ("1", Some(1)),
        (" 12", Some(12)),
        ("00000000000000000001", Some(1)),
        ("65535", Some(65535)),
        ("+0", None),
        ("+65535", None),
        ("65536", None),
        ("-0", None),
        ("", None),
        ("+", None),
        ("++1", None),
        ("1+", None),
        ("1_000", None),
        ("٣", None),
        ("0x10", None),
    ];
    for (text, expected) in cases {
        let line = format!("CODESYNC(label,{})", text);
        let m = matcher.parse_line(0, &line);
        assert_eq!(m.to_comment(&file).map(|c| c.count()), expected);
        assert_eq!(m.to_invalid(&file).is_some(), expected.is_none());
    }
}

#[test]
fn first_marker_of_a_line_is_read() {
    let m = Matcher::new().parse_line(0, "CODESYNC(a) CODESYNC(b, 3)");
    let file = PathBuf::from("a.rs");
    let comment = m.to_comment(&file).unwrap();
    assert_eq!(comment.label(), "a");
    assert_eq!(comment.span(), 0..11);
}

#[test]
fn text_after_the_argument_list_is_ignored() {
    let args = Matcher::new().parse_args(0, "(a, 2)) , whatever (").ok().unwrap();
    assert_eq!(args.label(), "a");
}
