use codesync::{FileMatches, Matcher, Matches};
use std::path::PathBuf;

fn file(path: &str, lines: &[(usize, &str)]) -> FileMatches {
    let matcher = Matcher::new();
    let mut file = FileMatches::new(PathBuf::from(path));
    for (offset, line) in lines {
        file.push(matcher.parse_line(*offset, line));
    }
    file
}

fn sample() -> Matches {
    let mut matches = Matches::new();
    matches.push(file(
        "a.rs",
        &[(0, "CODESYNC(one, 3)"), (20, "CODESYNC(two)"), (40, "CODESYNC oops"), (60, "CODESYNC(one, 3)")],
    ));
    matches.push(file("empty.rs", &[]));
    matches.push(file("b.rs", &[(5, "CODESYNC(two, x)"), (30, "CODESYNC(three)"), (50, "CODESYNC(one,3)")]));
    matches
}

#[test]
fn comments_are_the_valid_matches_in_order() {
    let matches = sample();
    let comments = matches.comments();
    let seen: Vec<(String, &str, usize)> = comments
        .iter()
        .map(|c| (c.file().display().to_string(), c.label(), c.span().start))
        .collect();
    assert_eq!(
        seen,
        vec![
            ("a.rs".to_string(), "one", 0),
            ("a.rs".to_string(), "two", 20),
            ("a.rs".to_string(), "one", 60),
            ("b.rs".to_string(), "three", 30),
            ("b.rs".to_string(), "one", 50),
        ]
    );
}

#[test]
fn invalid_matches_are_the_others() {
    let matches = sample();
    let invalid = matches.invalid_matches();
    let seen: Vec<(String, usize, usize)> = invalid
        .iter()
        .map(|m| (m.file().display().to_string(), m.span().start, m.span().end))
        .collect();
    assert_eq!(seen, vec![("a.rs".to_string(), 40, 48), ("b.rs".to_string(), 5, 13)]);
}

#[test]
fn groups_follow_first_occurrence() {
    let matches = sample();
    let groups = matches.group_by_label();
    let seen: Vec<(&str, Vec<usize>)> = groups
        .iter()
        .map(|g| (g.label(), g.comments().iter().map(|c| c.span().start).collect()))
        .collect();
    assert_eq!(seen, vec![("one", vec![0, 60, 50]), ("two", vec![20]), ("three", vec![30])]);
}

#[test]
fn files_without_matches_are_not_kept() {
    let mut matches = Matches::new();
    matches.push(file("empty.rs", &[]));
    assert!(matches.comments().is_empty());
    assert!(matches.invalid_matches().is_empty());
    assert!(matches.group_by_label().is_empty());
}

#[test]
fn a_file_keeps_its_path_and_matches() {
    let f = file("dir/a.rs", &[(0, "CODESYNC(a)"), (12, "CODESYNC(b)")]);
    assert_eq!(f.path(), &PathBuf::from("dir/a.rs"));
    assert_eq!(f.len(), 2);
}
