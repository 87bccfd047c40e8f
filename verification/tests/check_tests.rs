use codesync::check::{pluralize, show};
use codesync::{Case, CheckArgs, Checker, FileMatches, FindingKind, Matcher, Matches, Severity};
use std::path::PathBuf;

fn file(path: &str, lines: &[(usize, &str)]) -> FileMatches {
    let matcher = Matcher::new();
    let mut file = FileMatches::new(PathBuf::from(path));
    for (offset, line) in lines {
        file.push(matcher.parse_line(*offset, line));
    }
    file
}

fn matches_of(files: &[(&str, &[(usize, &str)])]) -> Matches {
    let mut matches = Matches::new();
    for (path, lines) in files {
        matches.push(file(path, lines));
    }
    matches
}

fn plain() -> Checker {
    Checker::new(CheckArgs { consistent_casing: None, no_extra_whitespace: false, label_pattern: None })
}

#[test]
fn two_comments_that_state_two_are_consistent() {
    let matches = matches_of(&[("a.rs", &[(0, "CODESYNC(init, 2)")]), ("b.rs", &[(7, "CODESYNC(init, 2)")])]);
    assert!(plain().check(&matches).is_empty());
}

#[test]
fn a_missing_comment_is_reported() {
    let matches = matches_of(&[("a.rs", &[(0, "CODESYNC(init, 2)")])]);
    let findings = plain().check(&matches);
    assert_eq!(findings.len(), 1);
    assert_eq!(findings[0].kind(), FindingKind::CountMismatch);
    assert_eq!(findings[0].severity(), Severity::Error);
    assert_eq!(findings[0].message(), "expected 2 comments with label `init`, found 1");
    assert_eq!(findings[0].locations().len(), 1);
    assert_eq!(findings[0].locations()[0].file(), &PathBuf::from("a.rs"));
    assert_eq!(findings[0].locations()[0].start(), 0);
    assert_eq!(findings[0].locations()[0].end(), 17);
    assert!(findings[0].suggestion().is_none());
}

#[test]
fn a_third_comment_with_another_count_is_a_disagreement() {
    let matches = matches_of(&[
        ("a.rs", &[(0, "CODESYNC(init, 2)")]),
        ("b.rs", &[(7, "CODESYNC(init, 2)"), (40, "CODESYNC(init, 3)")]),
    ]);
    let findings = plain().check(&matches);
    assert_eq!(findings.len(), 1);
    assert_eq!(findings[0].kind(), FindingKind::CountDisagreement);
    assert_eq!(findings[0].message(), "not all comments with label `init` have the same count");
    let at: Vec<(String, usize, usize)> = findings[0]
        .locations()
        .iter()
        .map(|l| (l.file().display().to_string(), l.start(), l.end()))
        .collect();
    assert_eq!(
        at,
        vec![("a.rs".to_string(), 0, 17), ("b.rs".to_string(), 7, 24), ("b.rs".to_string(), 40, 57)]
    );
}

#[test]
fn disagreement_is_reported_whatever_the_size() {
    let matches = matches_of(&[("a.rs", &[(0, "CODESYNC(x, 2)"), (20, "CODESYNC(x, 3)")])]);
    let findings = plain().check(&matches);
    assert_eq!(findings.len(), 1);
    assert_eq!(findings[0].kind(), FindingKind::CountDisagreement);
}

#[test]
fn a_count_that_is_not_stated_is_two() {
    let matches = matches_of(&[("a.rs", &[(0, "CODESYNC(x)"), (20, "CODESYNC(x, 2)")])]);
    assert!(plain().check(&matches).is_empty());
    let findings = plain().check_with_default(&matches, 3);
    assert_eq!(findings.len(), 1);
    assert_eq!(findings[0].kind(), FindingKind::CountDisagreement);
}

#[test]
fn one_expected_comment_is_written_in_the_singular() {
    let matches = matches_of(&[("a.rs", &[(0, "CODESYNC(x, 1)"), (20, "CODESYNC(x, 1)")])]);
    let findings = plain().check(&matches);
    assert_eq!(findings.len(), 1);
    assert_eq!(findings[0].message(), "expected 1 comment with label `x`, found 2");
}

#[test]
fn large_counts_are_written_in_full() {
    let matches = matches_of(&[("a.rs", &[(0, "CODESYNC(x, 65535)")])]);
    let findings = plain().check(&matches);
    assert_eq!(findings[0].message(), "expected 65535 comments with label `x`, found 1");
    let matches = matches_of(&[("a.rs", &[(0, "CODESYNC(x, 0)")])]);
    let findings = plain().check(&matches);
    assert_eq!(findings[0].message(), "expected 0 comments with label `x`, found 1");
}

#[test]
fn each_label_is_counted_on_its_own() {
    let matches = matches_of(&[
        ("a.rs", &[(0, "CODESYNC(b, 3)"), (20, "CODESYNC(a)"), (40, "CODESYNC(c, 1)")]),
        ("b.rs", &[(0, "CODESYNC(a)"), (20, "CODESYNC(d, 1)"), (40, "CODESYNC(d, 1)")]),
    ]);
    let findings = plain().check(&matches);
    let messages: Vec<&str> = findings.iter().map(|f| f.message()).collect();
    assert_eq!(
        messages,
        vec![
            "expected 3 comments with label `b`, found 1",
            "expected 1 comment with label `d`, found 2",
        ]
    );
}

#[test]
fn invalid_matches_come_first_and_alone() {
    let matches = matches_of(&[
        ("a.rs", &[(0, "CODESYNC(init, 2)"), (30, "CODESYNC(init, many)"), (60, "CODESYNC?")]),
    ]);
    let findings = plain().check(&matches);
    assert_eq!(findings.len(), 2);
    assert_eq!(findings[0].kind(), FindingKind::InvalidCount);
    assert_eq!(findings[0].message(), "invalid count");
    assert_eq!(findings[0].locations()[0].start(), 44);
    assert_eq!(findings[0].locations()[0].end(), 49);
    assert_eq!(findings[1].kind(), FindingKind::Malformed);
    assert_eq!(findings[1].message(), "malformed codesync comment");
    assert_eq!(findings[1].locations()[0].start(), 60);
    assert_eq!(findings[1].locations()[0].end(), 68);
}

#[test]
fn a_label_in_another_case_gets_a_suggestion() {
    let matches = matches_of(&[("a.rs", &[(0, "CODESYNC(Foo_Bar)"), (20, "CODESYNC(Foo_Bar)")])]);
    let checker = Checker::new(CheckArgs {
        consistent_casing: Some(Case::Snake),
        no_extra_whitespace: false,
        label_pattern: None,
    });
    let findings = checker.check(&matches);
    assert_eq!(findings.len(), 2);
    assert_eq!(findings[0].kind(), FindingKind::Casing);
    assert_eq!(findings[0].message(), "label doesn't use snake case");
    assert_eq!(findings[0].suggestion(), Some("foo_bar"));
    assert_eq!(findings[0].locations()[0].start(), 0);
    assert_eq!(findings[0].locations()[0].end(), 17);
    assert_eq!(findings[1].locations()[0].start(), 20);
}

#[test]
fn labels_in_the_required_case_pass() {
    let matches = matches_of(&[("a.rs", &[(0, "CODESYNC(foo_bar)"), (20, "CODESYNC(foo_bar)")])]);
    let checker = Checker::new(CheckArgs {
        consistent_casing: Some(Case::Snake),
        no_extra_whitespace: false,
        label_pattern: None,
    });
    assert!(checker.check(&matches).is_empty());
    let checker = Checker::new(CheckArgs {
        consistent_casing: Some(Case::ScreamingSnake),
        no_extra_whitespace: false,
        label_pattern: None,
    });
    let findings = checker.check(&matches);
    assert_eq!(findings.len(), 2);
    assert_eq!(findings[0].message(), "label doesn't use screaming snake case");
    assert_eq!(findings[0].suggestion(), Some("FOO_BAR"));
}

#[test]
fn counts_gate_the_style_checks() {
    let matches = matches_of(&[("a.rs", &[(0, "CODESYNC( Foo_Bar )")])]);
    let checker = Checker::new(CheckArgs {
        consistent_casing: Some(Case::Snake),
        no_extra_whitespace: true,
        label_pattern: Some("^x".to_string()),
    });
    let findings = checker.check(&matches);
    assert_eq!(findings.len(), 1);
    assert_eq!(findings[0].kind(), FindingKind::CountMismatch);
}

#[test]
fn style_checks_are_all_run() {
    let matches = matches_of(&[("a.rs", &[(0, "CODESYNC( FooBar , 1 )"), (30, "CODESYNC(x_y,1)")])]);
    let checker = Checker::new(CheckArgs {
        consistent_casing: Some(Case::Snake),
        no_extra_whitespace: true,
        label_pattern: Some("^x".to_string()),
    });
    let findings = checker.check(&matches);
    let seen: Vec<(FindingKind, usize, usize)> = findings
        .iter()
        .map(|f| (f.kind(), f.locations()[0].start(), f.locations()[0].end()))
        .collect();
    assert_eq!(
        seen,
        vec![
            (FindingKind::Casing, 0, 22),
            (FindingKind::PatternMismatch, 9, 17),
            (FindingKind::ExtraWhitespace, 18, 21),
            (FindingKind::ExtraWhitespace, 9, 17),
        ]
    );
    assert_eq!(findings[0].suggestion(), Some("foo_bar"));
    assert_eq!(findings[1].message(), "label doesn't match regex");
    assert_eq!(findings[2].message(), "argument has extra whitespace");
}

#[test]
fn a_pattern_is_searched_for_in_the_label() {
    let matches = matches_of(&[(
        "a.rs",
        &[(0, "CODESYNC(net-init, 1)"), (30, "CODESYNC(init-net, 1)"), (60, "CODESYNC(disk, 1)")],
    )]);
    let checker = Checker::new(CheckArgs {
        consistent_casing: None,
        no_extra_whitespace: false,
        label_pattern: Some("^net-|k$".to_string()),
    });
    let findings = checker.check(&matches);
    assert_eq!(findings.len(), 1);
    assert_eq!(findings[0].kind(), FindingKind::PatternMismatch);
    assert_eq!(findings[0].locations()[0].start(), 39);
    assert_eq!(findings[0].locations()[0].end(), 47);
}

#[test]
fn a_pattern_that_is_no_regular_expression_matches_nothing() {
    let matches = matches_of(&[("a.rs", &[(0, "CODESYNC(a, 1)")])]);
    let checker = Checker::new(CheckArgs {
        consistent_casing: None,
        no_extra_whitespace: false,
        label_pattern: Some("(".to_string()),
    });
    let findings = checker.check(&matches);
    assert_eq!(findings.len(), 1);
    assert_eq!(findings[0].kind(), FindingKind::PatternMismatch);
}

#[test]
fn nothing_found_in_nothing() {
    let checker = Checker::new(CheckArgs {
        consistent_casing: Some(Case::Kebab),
        no_extra_whitespace: true,
        label_pattern: Some("x".to_string()),
    });
    assert!(checker.check(&Matches::new()).is_empty());
}

#[test]
fn rules_can_be_run_one_by_one() {
    let matches = matches_of(&[("a.rs", &[(0, "CODESYNC(a , 5)"), (30, "CODESYNC(bad")])]);
    let checker = Checker::new(CheckArgs {
        consistent_casing: Some(Case::Pascal),
        no_extra_whitespace: true,
        label_pattern: None,
    });
    assert_eq!(checker.report_invalid_matches(&matches).len(), 1);
    assert_eq!(checker.report_inconsistent_casing(&matches).len(), 1);
    assert_eq!(checker.report_inconsistent_casing(&matches)[0].suggestion(), Some("A"));
    let whitespace = checker.report_no_extra_whitespace(&matches);
    assert_eq!(whitespace.len(), 2);
    assert_eq!(whitespace[0].locations()[0].start(), 12);
    assert_eq!(whitespace[1].locations()[0].start(), 9);
    assert!(checker.report_label_regex_mismatch(&matches).is_empty());
    let comments = matches.comments();
    let finding = checker.report_incorrect_counts("a", &comments, 2).unwrap();
    assert_eq!(finding.message(), "expected 5 comments with label `a`, found 1");
    assert!(checker.report_incorrect_counts("a", &Vec::new(), 2).is_none());
}

#[test]
fn show_lists_the_comments_of_a_label() {
    let matches = matches_of(&[
        ("a.rs", &[(0, "CODESYNC(a, 5)"), (30, "CODESYNC(b)")]),
        ("b.rs", &[(3, "CODESYNC(a)")]),
    ]);
    let finding = show(&matches, "a");
    assert_eq!(finding.kind(), FindingKind::Show);
    assert_eq!(finding.severity(), Severity::Note);
    assert_eq!(finding.message(), "showing comments for label `a`");
    let at: Vec<(String, usize, usize)> = finding
        .locations()
        .iter()
        .map(|l| (l.file().display().to_string(), l.start(), l.end()))
        .collect();
    assert_eq!(at, vec![("a.rs".to_string(), 0, 14), ("b.rs".to_string(), 3, 14)]);
    assert!(show(&matches, "c").locations().is_empty());
}

#[test]
fn case_names_and_conversions() {
    let cases = [
        (Case::Camel, "camel", "fooBarBaz"),
        (Case::Kebab, "kebab", "foo-bar-baz"),
        (Case::Pascal, "pascal", "FooBarBaz"),
        (Case::ScreamingSnake, "screaming snake", "FOO_BAR_BAZ"),
        (Case::Snake, "snake", "foo_bar_baz"),
        (Case::Train, "train", "Foo-Bar-Baz"),
    ];
    for (case, name, converted) in cases {
        assert_eq!(case.name(), name);
        assert_eq!(case.to_case("foo bar_baz"), converted);
        assert!(case.has_case(converted));
        assert!(!case.has_case("foo bar_baz"));
    }
}

#[test]
fn pluralize_adds_an_s_unless_one() {
    assert_eq!(pluralize("comment", 1), "comment");
    assert_eq!(pluralize("comment", 0), "comments");
    assert_eq!(pluralize("comment", 2), "comments");
}
