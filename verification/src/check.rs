//! The rules that the annotations of a code base are held to, and the
//! findings that they give.
//!
//! Matches that are not annotations are reported first; if there are any,
//! nothing else is checked. Then the counts of each label are checked; if
//! any label fails, nothing else is checked. Then casing, label pattern
//! and white space are checked, each for every comment.

use crate::args::{Arg, ParseOutcome};
use crate::inflector::case::camel::{camel_case, camel_options, to_camel_case};
use crate::inflector::case::fixed::{
    has_no_split, humps_are_marked, humps_follow_lowercase, is_without_split, law_joined_fixed,
    law_separated_fixed, law_snake_like_fixed, words_are_whole, words_hold,
};
use crate::inflector::case::kebab::{kebab_case, to_kebab_case};
use crate::inflector::case::pascal::{pascal_case, pascal_options, to_pascal_case};
use crate::inflector::case::screaming_snake::{screaming_snake_case, to_screaming_snake_case};
use crate::inflector::case::snake::{snake_case, to_snake_case};
use crate::inflector::case::train::{to_train_case, train_case, train_options};
use crate::matches::{
    comment_views, comments_of, group_views, groups_of, invalid_of, invalid_views,
    with_label_upto, Comment, FileView, GroupView, Matches, Occurrence, DEFAULT_COUNT,
};
use crate::text::{decimal_digits, decimal_string, same_text, trimmed};
use std::collections::HashSet;
use std::path::PathBuf;
use vstd::prelude::*;
use vstd::string::StringExecFns;

verus! {

broadcast use vstd::std_specs::hash::group_hash_axioms;

/// A case style that labels can be held to.
#[derive(Copy, Clone, Debug)]
pub enum Case {
    Camel,
    Kebab,
    Pascal,
    ScreamingSnake,
    Snake,
    Train,
}

impl Case {
    /// `s` written in this style.
    pub open spec fn convert(self, s: Seq<char>) -> Seq<char> {
        match self {
            Case::Camel => camel_case(s),
            Case::Kebab => kebab_case(s),
            Case::Pascal => pascal_case(s),
            Case::ScreamingSnake => screaming_snake_case(s),
            Case::Snake => snake_case(s),
            Case::Train => train_case(s),
        }
    }

    /// The texts whose conversion to this style is in this style: in the
    /// converted text no word boundary is found that the conversion did not
    /// write there.
    ///
    /// For the styles that join words with an underscore or a hyphen in one
    /// case, no capital inside a word of the converted text has a lowercase
    /// neighbour. For train case, no capital inside a word comes after a
    /// lowercase letter. For camel and Pascal case, every ASCII capital after
    /// the beginning follows a lowercase letter, or capitals that follow one: a
    /// word that begins after a number is not found again.
    pub open spec fn settles(self, s: Seq<char>) -> bool {
        match self {
            Case::Camel => humps_follow_lowercase(camel_case(s), 0),
            Case::Pascal => humps_follow_lowercase(pascal_case(s), 1),
            Case::ScreamingSnake => has_no_split(screaming_snake_case(s)),
            Case::Kebab => has_no_split(kebab_case(s)),
            Case::Snake => has_no_split(snake_case(s)),
            Case::Train => words_hold(train_case(s), '-'),
        }
    }

    /// The name of the style in messages.
    pub open spec fn name_text(self) -> Seq<char> {
        match self {
            Case::Camel => "camel"@,
            Case::Kebab => "kebab"@,
            Case::Pascal => "pascal"@,
            Case::ScreamingSnake => "screaming snake"@,
            Case::Snake => "snake"@,
            Case::Train => "train"@,
        }
    }

    /// Whether `s` is written in this style: converting it changes nothing.
    pub fn has_case(self, s: &str) -> (b: bool)
        ensures
            b == (self.convert(s@) == s@),
    {
        let converted = self.to_case(s);
        same_text(converted.as_str(), s)
    }

    /// `s` written in this style.
    pub fn to_case(self, s: &str) -> (r: String)
        ensures
            r@ == self.convert(s@),
    {
        match self {
            Case::Camel => {
                let none: Vec<String> = Vec::new();
                to_camel_case(s, none.as_slice())
            },
            Case::Kebab => to_kebab_case(s),
            Case::Pascal => to_pascal_case(s),
            Case::ScreamingSnake => to_screaming_snake_case(s),
            Case::Snake => to_snake_case(s),
            Case::Train => to_train_case(s),
        }
    }

    /// Whether `s`, once converted to this style, is in this style.
    pub fn is_settled(self, s: &str) -> (b: bool)
        ensures
            b == self.settles(s@),
    {
        let converted = self.to_case(s);
        match self {
            Case::Camel => humps_are_marked(converted.as_str(), 0),
            Case::Pascal => humps_are_marked(converted.as_str(), 1),
            Case::ScreamingSnake => is_without_split(converted.as_str()),
            Case::Kebab => is_without_split(converted.as_str()),
            Case::Snake => is_without_split(converted.as_str()),
            Case::Train => words_are_whole(converted.as_str(), '-'),
        }
    }

    /// The name of the style in messages.
    pub fn name(self) -> (r: &'static str)
        ensures
            r@ == self.name_text(),
    {
        match self {
            Case::Camel => "camel",
            Case::Kebab => "kebab",
            Case::Pascal => "pascal",
            Case::ScreamingSnake => "screaming snake",
            Case::Snake => "snake",
            Case::Train => "train",
        }
    }
}

/// What a conversion to a style gives is in that style, so that
/// `has_case` holds of what `to_case` returns, exactly for the texts that
/// the style settles.
pub proof fn law_converted_has_case(case: Case, s: Seq<char>)
    ensures
        case.settles(s) <==> case.convert(case.convert(s)) == case.convert(s),
{
    match case {
        Case::Camel => law_joined_fixed(s, camel_options()),
        Case::Pascal => law_joined_fixed(s, pascal_options()),
        Case::ScreamingSnake => law_snake_like_fixed(s, '_', false),
        Case::Kebab => law_snake_like_fixed(s, '-', true),
        Case::Snake => law_snake_like_fixed(s, '_', true),
        Case::Train => law_separated_fixed(s, train_options()),
    }
}

/// The empty text is in every style: converting it gives the empty text.
pub proof fn law_empty_text_converted(case: Case)
    ensures
        case.convert(Seq::empty()) == Seq::<char>::empty(),
{
    let empty = Seq::<char>::empty();
    assert(crate::inflector::case::trim_right_len(empty) == 0);
}

/// `word`, with an `s` after it unless `count` is one.
pub open spec fn pluralized(word: Seq<char>, count: nat) -> Seq<char> {
    if count == 1 {
        word
    } else {
        word + "s"@
    }
}

/// `word`, with an `s` after it unless `count` is one.
pub fn pluralize(word: &str, count: usize) -> (r: String)
    ensures
        r@ == pluralized(word@, count as nat),
{
    if count == 1 {
        word.to_owned()
    } else {
        word.to_owned().concat("s")
    }
}

/// Whether the regular expression `pattern` matches somewhere in `text`;
/// `None` where the regex crate does not accept `pattern`.
pub uninterp spec fn pattern_match(pattern: Seq<char>, text: Seq<char>) -> Option<bool>;

/// Compiles `pattern` with `Regex::new` of the regex crate and asks
/// `Regex::is_match` whether it matches somewhere in `text`.
///
/// The contract claims that the answer depends on the two texts alone. It is
/// `None` where `Regex::new` returns an error.
#[verifier::external_body]
fn regex_is_match(pattern: &str, text: &str) -> (r: Option<bool>)
    ensures
        r == pattern_match(pattern@, text@),
{
    match regex::Regex::new(pattern) {
        Ok(re) => Some(re.is_match(text)),
        Err(_) => None,
    }
}

/// Whether a label conforms to a pattern: the pattern is a regular
/// expression and matches somewhere in the label.
pub open spec fn conforms(outcome: Option<bool>) -> bool {
    outcome == Some(true)
}

/// Decides from the outcome of a pattern search whether a label conforms.
pub fn label_conforms(outcome: Option<bool>) -> (b: bool)
    ensures
        b == conforms(outcome),
{
    match outcome {
        Some(found) => found,
        None => false,
    }
}

/// What is checked besides well-formedness and counts.
pub struct CheckArgs {
    /// The case style that every label must have, if any.
    pub consistent_casing: Option<Case>,
    /// Whether arguments may not have white space around them.
    pub no_extra_whitespace: bool,
    /// The regular expression that every label must match, if any.
    pub label_pattern: Option<String>,
}

/// What is checked, for the contracts.
pub ghost struct CheckArgsView {
    pub consistent_casing: Option<Case>,
    pub no_extra_whitespace: bool,
    pub label_pattern: Option<Seq<char>>,
}

impl CheckArgs {
    /// What is checked, for the contracts.
    pub open spec fn view(&self) -> CheckArgsView {
        CheckArgsView {
            consistent_casing: self.consistent_casing,
            no_extra_whitespace: self.no_extra_whitespace,
            label_pattern: match self.label_pattern {
                Some(p) => Some(p@),
                None => None,
            },
        }
    }
}

/// How grave a finding is.
#[derive(Copy, Clone, Debug, PartialEq, Eq, Structural)]
pub enum Severity {
    Error,
    Note,
}

/// The rule that a finding comes from.
#[derive(Copy, Clone, Debug, PartialEq, Eq, Structural)]
pub enum FindingKind {
    /// A marker without a well-formed argument list.
    Malformed,
    /// A second argument that is no number.
    InvalidCount,
    /// A label that has another number of comments than its comments state.
    CountMismatch,
    /// A label whose comments state different counts.
    CountDisagreement,
    /// A label that is not in the required case style.
    Casing,
    /// A label that does not match the required pattern.
    PatternMismatch,
    /// An argument with white space around it.
    ExtraWhitespace,
    /// The comments of a label, shown on request.
    Show,
}

impl FindingKind {
    /// The advice that goes with findings of this kind, if there is any.
    pub open spec fn note_text(self) -> Option<Seq<char>> {
        match self {
            FindingKind::Malformed => Some(
                "comment must contain a label and an optional count, e.g., `CODESYNC(my-label)`, `CODESYNC(my-label, 3)`"@,
            ),
            FindingKind::InvalidCount => Some("second argument must be an integer"@),
            _ => None,
        }
    }

    /// The advice that goes with findings of this kind, if there is any.
    pub fn note(self) -> (r: Option<&'static str>)
        ensures
            match r {
                Some(text) => self.note_text() == Some(text@),
                None => self.note_text() is None,
            },
    {
        match self {
            FindingKind::Malformed => Some(
                "comment must contain a label and an optional count, e.g., `CODESYNC(my-label)`, `CODESYNC(my-label, 3)`",
            ),
            FindingKind::InvalidCount => Some("second argument must be an integer"),
            _ => None,
        }
    }
}

/// A range of bytes in a file.
pub struct Location<'a> {
    pub(crate) file: &'a PathBuf,
    pub(crate) start: usize,
    pub(crate) end: usize,
}

/// What a location is, for the contracts.
pub ghost struct LocationView {
    pub file: PathBuf,
    pub start: nat,
    pub end: nat,
}

impl<'a> Location<'a> {
    /// The location, for the contracts.
    pub open(crate) spec fn view(&self) -> LocationView {
        LocationView { file: *self.file, start: self.start as nat, end: self.end as nat }
    }

    /// The file.
    pub fn file(&self) -> (r: &'a PathBuf)
        ensures
            *r == self@.file,
    {
        self.file
    }

    /// The offset of the first byte.
    pub fn start(&self) -> (r: usize)
        ensures
            r == self@.start,
    {
        self.start
    }

    /// The offset of the byte after the last.
    pub fn end(&self) -> (r: usize)
        ensures
            r == self@.end,
    {
        self.end
    }
}

/// The locations of a vector, for the contracts.
pub open(crate) spec fn location_views<'a>(v: Seq<Location<'a>>) -> Seq<LocationView> {
    Seq::new(v.len(), |i: int| v[i]@)
}

/// Something that a check found, or that was asked to be shown.
pub struct Finding<'a> {
    pub(crate) kind: FindingKind,
    pub(crate) severity: Severity,
    pub(crate) message: String,
    pub(crate) locations: Vec<Location<'a>>,
    pub(crate) suggestion: Option<String>,
}

/// What a finding is, for the contracts.
pub ghost struct FindingView {
    pub kind: FindingKind,
    pub severity: Severity,
    pub message: Seq<char>,
    pub locations: Seq<LocationView>,
    pub suggestion: Option<Seq<char>>,
}

impl<'a> Finding<'a> {
    /// The finding, for the contracts.
    pub open(crate) spec fn view(&self) -> FindingView {
        FindingView {
            kind: self.kind,
            severity: self.severity,
            message: self.message@,
            locations: location_views(self.locations@),
            suggestion: match self.suggestion {
                Some(s) => Some(s@),
                None => None,
            },
        }
    }

    /// The rule that the finding comes from.
    pub fn kind(&self) -> (r: FindingKind)
        ensures
            r == self@.kind,
    {
        self.kind
    }

    /// How grave the finding is.
    pub fn severity(&self) -> (r: Severity)
        ensures
            r == self@.severity,
    {
        self.severity
    }

    /// What the finding says.
    pub fn message(&self) -> (r: &str)
        ensures
            r@ == self@.message,
    {
        self.message.as_str()
    }

    /// Where the finding stands: one location or more.
    pub fn locations(&self) -> (r: &Vec<Location<'a>>)
        ensures
            location_views(r@) == self@.locations,
    {
        &self.locations
    }

    /// The label as it should be written, for a finding about casing.
    pub fn suggestion(&self) -> (r: Option<&str>)
        ensures
            match r {
                Some(s) => self@.suggestion == Some(s@),
                None => self@.suggestion is None,
            },
    {
        match &self.suggestion {
            Some(s) => Some(s.as_str()),
            None => None,
        }
    }
}

/// The findings of a vector, for the contracts.
pub open(crate) spec fn finding_views<'a>(v: Seq<Finding<'a>>) -> Seq<FindingView> {
    Seq::new(v.len(), |i: int| v[i]@)
}

/// The whole annotation of a comment or an invalid match, as a location.
pub open spec fn span_location(o: Occurrence) -> LocationView {
    LocationView { file: o.file, start: o.m.byte_offset, end: o.m.span_end() }
}

/// An argument of a comment, as a location.
pub open spec fn arg_location<V>(o: Occurrence, arg: crate::args::ArgView<V>) -> LocationView {
    LocationView { file: o.file, start: arg.start, end: arg.end }
}

/// An error that stands at one location.
pub open spec fn error_at(kind: FindingKind, message: Seq<char>, at: LocationView) -> FindingView {
    FindingView {
        kind,
        severity: Severity::Error,
        message,
        locations: seq![at],
        suggestion: None,
    }
}

/// The finding for a match that is no annotation: at the second argument
/// where that is no number, at the marker where the argument list is malformed.
pub open spec fn invalid_finding(o: Occurrence) -> FindingView {
    match o.m.outcome {
        ParseOutcome::InvalidCount { start, end } => error_at(
            FindingKind::InvalidCount,
            "invalid count"@,
            LocationView { file: o.file, start, end },
        ),
        _ => error_at(FindingKind::Malformed, "malformed codesync comment"@, span_location(o)),
    }
}

/// What the finding about the casing of a label says.
pub open spec fn casing_message(case: Case) -> Seq<char> {
    "label doesn't use "@ + case.name_text() + " case"@
}

/// The finding for a comment whose label is not in the style `case`,
/// with the label as it should be written.
pub open spec fn casing_finding(o: Occurrence, case: Case) -> FindingView {
    FindingView {
        kind: FindingKind::Casing,
        severity: Severity::Error,
        message: casing_message(case),
        locations: seq![span_location(o)],
        suggestion: Some(case.convert(o.label())),
    }
}

/// The finding for an argument with white space around it.
pub open spec fn whitespace_finding(at: LocationView) -> FindingView {
    error_at(FindingKind::ExtraWhitespace, "argument has extra whitespace"@, at)
}

/// The findings about white space for one comment: one for the count, if
/// its text has white space around it, then one for the label, if its has.
pub open spec fn whitespace_findings(o: Occurrence) -> Seq<FindingView> {
    let args = o.m.args();
    let for_count = match args.count {
        Some(c) => if trimmed(c.raw) != c.raw {
            seq![whitespace_finding(arg_location(o, c))]
        } else {
            seq![]
        },
        None => seq![],
    };
    let for_label = if trimmed(args.label.raw) != args.label.raw {
        seq![whitespace_finding(arg_location(o, args.label))]
    } else {
        seq![]
    };
    for_count + for_label
}

/// A rule that is applied to one comment, or one match, after the other.
pub ghost enum Rule {
    /// Every match that is no annotation is reported.
    Invalid,
    /// Every label must be in a case style.
    Casing(Case),
    /// Every label must match a regular expression.
    Pattern(Seq<char>),
    /// No argument may have white space around it.
    Whitespace,
}

impl Rule {
    /// The findings of the rule for one comment or match.
    pub open spec fn findings(self, o: Occurrence) -> Seq<FindingView> {
        match self {
            Rule::Invalid => seq![invalid_finding(o)],
            Rule::Casing(case) => if case.convert(o.label()) == o.label() {
                seq![]
            } else {
                seq![casing_finding(o, case)]
            },
            Rule::Pattern(pattern) => if conforms(pattern_match(pattern, o.label())) {
                seq![]
            } else {
                seq![
                    error_at(
                        FindingKind::PatternMismatch,
                        "label doesn't match regex"@,
                        arg_location(o, o.m.args().label),
                    ),
                ]
            },
            Rule::Whitespace => whitespace_findings(o),
        }
    }

    /// The findings of the rule for the first `n` of `items`, in their order.
    pub open spec fn findings_upto(self, items: Seq<Occurrence>, n: nat) -> Seq<FindingView>
        decreases n,
    {
        if n == 0 {
            Seq::empty()
        } else {
            self.findings_upto(items, (n - 1) as nat) + self.findings(items[n - 1])
        }
    }

    /// The findings of the rule for all of `items`, in their order.
    pub open spec fn all_findings(self, items: Seq<Occurrence>) -> Seq<FindingView> {
        self.findings_upto(items, items.len())
    }
}

/// The counts that the comments state, `default` where one states none.
pub open spec fn counts_of(comments: Seq<Occurrence>, default: u16) -> Seq<u16> {
    Seq::new(comments.len(), |i: int| comments[i].count_or(default))
}

/// All counts are the same.
pub open spec fn counts_agree(counts: Seq<u16>) -> bool {
    forall|i: int| 0 <= i < counts.len() ==> #[trigger] counts[i] == counts[0]
}

/// The counts are all the same exactly when the set of the different
/// counts among them has one element.
proof fn lemma_distinct_counts(counts: Seq<u16>, distinct: Set<u16>)
    requires
        counts.len() > 0,
        distinct.finite(),
        forall|c: u16|
            distinct.contains(c) <==> exists|j: int| 0 <= j < counts.len() && #[trigger] counts[j] == c,
    ensures
        counts_agree(counts) <==> distinct.len() == 1,
{
    let first = counts[0];
    assert(distinct.contains(first));
    let others = distinct.remove(first);
    if counts_agree(counts) {
        assert forall|c: u16| !others.contains(c) by {
            if distinct.contains(c) {
                let j = choose|j: int| 0 <= j < counts.len() && #[trigger] counts[j] == c;
                assert(counts[j] == counts[0]);
            }
        }
        assert(others =~= Set::<u16>::empty());
    } else {
        let i = choose|i: int| 0 <= i < counts.len() && #[trigger] counts[i] != counts[0];
        assert(counts[i] == counts[i]);
        assert(distinct.contains(counts[i]));
        assert(others.contains(counts[i]));
    }
}

/// What the counts of the comments of one label amount to.
pub ghost enum CountVerdict {
    /// There are as many comments as they all state, or there are none.
    Consistent,
    /// The comments all state `expected`, and there are `found` of them.
    Mismatch { expected: nat, found: nat },
    /// The comments state different counts.
    Disagreement,
}

/// The verdict on the counts of the comments of one label.
///
/// Comments that state different counts disagree, however many there are.
/// Comments that all state the same count must be that many.
pub open spec fn count_verdict(counts: Seq<u16>) -> CountVerdict {
    if counts.len() == 0 {
        CountVerdict::Consistent
    } else if !counts_agree(counts) {
        CountVerdict::Disagreement
    } else if counts.len() != counts[0] {
        CountVerdict::Mismatch { expected: counts[0] as nat, found: counts.len() }
    } else {
        CountVerdict::Consistent
    }
}

/// What the finding about a label with a wrong number of comments says.
pub open spec fn mismatch_message(label: Seq<char>, expected: nat, found: nat) -> Seq<char> {
    "expected "@ + decimal_digits(expected) + " "@ + pluralized("comment"@, expected)
        + " with label `"@ + label + "`, found "@ + decimal_digits(found)
}

/// What the finding about a label with different counts says.
pub open spec fn disagreement_message(label: Seq<char>) -> Seq<char> {
    "not all comments with label `"@ + label + "` have the same count"@
}

/// The annotations of the comments, as locations.
pub open spec fn span_locations(comments: Seq<Occurrence>) -> Seq<LocationView> {
    Seq::new(comments.len(), |i: int| span_location(comments[i]))
}

/// The finding about the counts of one label, if there is one. It stands at
/// every comment of the label.
pub open spec fn count_finding(group: GroupView, default: u16) -> Option<FindingView> {
    match count_verdict(counts_of(group.comments, default)) {
        CountVerdict::Consistent => None,
        CountVerdict::Mismatch { expected, found } => Some(
            FindingView {
                kind: FindingKind::CountMismatch,
                severity: Severity::Error,
                message: mismatch_message(group.label, expected, found),
                locations: span_locations(group.comments),
                suggestion: None,
            },
        ),
        CountVerdict::Disagreement => Some(
            FindingView {
                kind: FindingKind::CountDisagreement,
                severity: Severity::Error,
                message: disagreement_message(group.label),
                locations: span_locations(group.comments),
                suggestion: None,
            },
        ),
    }
}

/// The comments of `group` all state the count `n`, `default` standing for
/// a count that is not stated.
pub open spec fn all_state(group: GroupView, default: u16, n: u16) -> bool {
    forall|i: int|
        0 <= i < group.comments.len() ==> (#[trigger] group.comments[i]).count_or(default) == n
}

/// A label whose comments all state the same count, and that has as many
/// comments as they state, gives no finding.
pub proof fn law_counts_consistent(group: GroupView, default: u16, n: u16)
    requires
        all_state(group, default, n),
        group.comments.len() == n,
    ensures
        count_finding(group, default) is None,
{
    let counts = counts_of(group.comments, default);
    assert forall|i: int| 0 <= i < counts.len() implies #[trigger] counts[i] == counts[0] by {
        assert(group.comments[i].count_or(default) == n);
        assert(group.comments[0].count_or(default) == n);
    }
    if counts.len() > 0 {
        assert(group.comments[0].count_or(default) == n);
    }
}

/// Where such a label has the count of one comment changed to another
/// value, whatever else changes in that comment, it gives a finding.
pub proof fn law_changed_count_found(
    group: GroupView,
    changed: GroupView,
    default: u16,
    n: u16,
    at: int,
)
    requires
        all_state(group, default, n),
        group.comments.len() == n,
        0 <= at < group.comments.len(),
        changed.comments.len() == group.comments.len(),
        forall|i: int|
            0 <= i < group.comments.len() && i != at ==> (#[trigger] changed.comments[i]).count_or(
                default,
            ) == n,
        changed.comments[at].count_or(default) != n,
    ensures
        count_finding(changed, default) is Some,
{
    let counts = counts_of(changed.comments, default);
    assert(counts[at] == changed.comments[at].count_or(default));
    if counts_agree(counts) {
        assert(counts[at] == counts[0]);
        if counts.len() > 1 {
            let other = if at == 0 {
                1int
            } else {
                0int
            };
            assert(counts[other] == counts[0]);
            assert(changed.comments[other].count_or(default) == n);
        }
    }
}

/// The findings about the counts of the first `n` label groups.
pub open spec fn count_findings_upto(groups: Seq<GroupView>, n: nat, default: u16) -> Seq<
    FindingView,
>
    decreases n,
{
    if n == 0 {
        Seq::empty()
    } else {
        let before = count_findings_upto(groups, (n - 1) as nat, default);
        match count_finding(groups[n - 1], default) {
            Some(f) => before.push(f),
            None => before,
        }
    }
}

/// The findings about the counts of all labels of `files`.
pub open spec fn count_findings(files: Seq<FileView>, default: u16) -> Seq<FindingView> {
    let groups = groups_of(comments_of(files));
    count_findings_upto(groups, groups.len(), default)
}

/// The findings about casing: none where no style is required.
pub open spec fn casing_findings(files: Seq<FileView>, args: CheckArgsView) -> Seq<FindingView> {
    match args.consistent_casing {
        Some(case) => Rule::Casing(case).all_findings(comments_of(files)),
        None => Seq::empty(),
    }
}

/// The findings about the label pattern: none where no pattern is required.
pub open spec fn pattern_findings(files: Seq<FileView>, args: CheckArgsView) -> Seq<FindingView> {
    match args.label_pattern {
        Some(pattern) => Rule::Pattern(pattern).all_findings(comments_of(files)),
        None => Seq::empty(),
    }
}

/// The findings about white space: none where it is not checked.
pub open spec fn extra_whitespace_findings(files: Seq<FileView>, args: CheckArgsView) -> Seq<
    FindingView,
> {
    if args.no_extra_whitespace {
        Rule::Whitespace.all_findings(comments_of(files))
    } else {
        Seq::empty()
    }
}

/// The findings of a whole check.
///
/// Matches that are no annotations come first and alone. Where there are
/// none, the findings about counts come, alone too. Where there are none of
/// these either, the findings about casing, pattern and white space come, in
/// this order.
pub open spec fn check_findings(files: Seq<FileView>, args: CheckArgsView, default: u16) -> Seq<
    FindingView,
> {
    let invalid = Rule::Invalid.all_findings(invalid_of(files));
    let counts = count_findings(files, default);
    if invalid.len() > 0 {
        invalid
    } else if counts.len() > 0 {
        counts
    } else {
        casing_findings(files, args) + pattern_findings(files, args) + extra_whitespace_findings(
            files,
            args,
        )
    }
}

/// What the note that shows the comments of a label says.
pub open spec fn show_message(label: Seq<char>) -> Seq<char> {
    "showing comments for label `"@ + label + "`"@
}

/// The note that shows the comments of `files` with the label `label`: it
/// stands at each of them, in the order in which they were found.
pub open spec fn show_finding(files: Seq<FileView>, label: Seq<char>) -> FindingView {
    let comments = comments_of(files);
    FindingView {
        kind: FindingKind::Show,
        severity: Severity::Note,
        message: show_message(label),
        locations: span_locations(with_label_upto(comments, comments.len(), label)),
        suggestion: None,
    }
}

/// Shows the comments with the label `label`.
pub fn show<'a>(matches: &'a Matches, label: &str) -> (r: Finding<'a>)
    ensures
        r@ == show_finding(matches@, label@),
{
    let comments = matches.comments();
    let ghost items = comment_views(comments@);
    let mut locations: Vec<Location<'a>> = Vec::new();
    let mut i: usize = 0;
    while i < comments.len()
        invariant
            i <= comments.len(),
            items == comment_views(comments@),
            location_views(locations@) =~= span_locations(
                with_label_upto(items, i as nat, label@),
            ),
        decreases comments.len() - i,
    {
        let comment = &comments[i];
        assert(items[i as int] == comment@);
        if same_text(comment.label(), label) {
            let ghost before = location_views(locations@);
            let location = location_of_comment(comment);
            locations.push(location);
            assert(location_views(locations@) =~= before.push(location@));
        }
        i = i + 1;
    }
    let mut message = "showing comments for label `".to_owned();
    message.append(label);
    message.append("`");
    Finding { kind: FindingKind::Show, severity: Severity::Note, message, locations, suggestion: None }
}

/// The location of an argument in `file`.
fn location_of_arg<'a, T>(file: &'a PathBuf, arg: &Arg<T>) -> (r: Location<'a>)
    ensures
        r@ == (LocationView { file: *file, start: arg.start(), end: arg.end() }),
{
    let span = arg.span();
    Location { file, start: span.start, end: span.end }
}

/// The location of the whole annotation of a comment.
fn location_of_comment<'a>(comment: &Comment<'a>) -> (r: Location<'a>)
    ensures
        r@ == span_location(comment@),
{
    let span = comment.span();
    Location { file: comment.file(), start: span.start, end: span.end }
}

/// An error at one location.
fn error_finding<'a>(kind: FindingKind, message: &str, at: Location<'a>) -> (r: Finding<'a>)
    ensures
        r@ == error_at(kind, message@, at@),
{
    let mut locations: Vec<Location<'a>> = Vec::new();
    locations.push(at);
    let finding = Finding {
        kind,
        severity: Severity::Error,
        message: message.to_owned(),
        locations,
        suggestion: None,
    };
    assert(finding@.locations =~= seq![at@]);
    finding
}

/// Applies the rules to the matches of a code base.
pub struct Checker {
    pub(crate) args: CheckArgs,
}

impl Checker {
    /// What is checked, for the contracts.
    pub open(crate) spec fn view(&self) -> CheckArgsView {
        self.args@
    }

    /// A checker for the given rules.
    pub fn new(args: CheckArgs) -> (r: Self)
        ensures
            r@ == args@,
    {
        Self { args }
    }

    /// Checks the matches of a code base, with two as the count of a
    /// comment that states none.
    pub fn check<'a>(&self, matches: &'a Matches) -> (r: Vec<Finding<'a>>)
        ensures
            finding_views(r@) == check_findings(matches@, self@, DEFAULT_COUNT),
    {
        self.check_with_default(matches, DEFAULT_COUNT)
    }

    /// Checks the matches of a code base, with `default_count` as the count
    /// of a comment that states none.
    pub fn check_with_default<'a>(&self, matches: &'a Matches, default_count: u16) -> (r: Vec<
        Finding<'a>,
    >)
        ensures
            finding_views(r@) == check_findings(matches@, self@, default_count),
    {
        let invalid = self.report_invalid_matches(matches);
        if invalid.len() > 0 {
            return invalid;
        }
        let groups = matches.group_by_label();
        let mut counts: Vec<Finding<'a>> = Vec::new();
        let mut i: usize = 0;
        while i < groups.len()
            invariant
                i <= groups.len(),
                group_views(groups@) == groups_of(comments_of(matches@)),
                finding_views(counts@) =~= count_findings_upto(
                    group_views(groups@),
                    i as nat,
                    default_count,
                ),
            decreases groups.len() - i,
        {
            let ghost before = finding_views(counts@);
            let group = &groups[i];
            assert(group_views(groups@)[i as int] == group@);
            if let Some(finding) = self.report_incorrect_counts(
                group.label(),
                group.comments(),
                default_count,
            ) {
                counts.push(finding);
                assert(finding_views(counts@) =~= before.push(finding@));
            }
            i = i + 1;
        }
        if counts.len() > 0 {
            return counts;
        }
        let mut findings = self.report_inconsistent_casing(matches);
        let mut pattern = self.report_label_regex_mismatch(matches);
        let mut whitespace = self.report_no_extra_whitespace(matches);
        let ghost first = finding_views(findings@);
        let ghost second = finding_views(pattern@);
        let ghost third = finding_views(whitespace@);
        findings.append(&mut pattern);
        findings.append(&mut whitespace);
        assert(finding_views(findings@) =~= first + second + third);
        findings
    }

    /// One finding for every match that is no annotation.
    pub fn report_invalid_matches<'a>(&self, matches: &'a Matches) -> (r: Vec<Finding<'a>>)
        ensures
            finding_views(r@) == Rule::Invalid.all_findings(invalid_of(matches@)),
    {
        let invalid = matches.invalid_matches();
        let ghost items = invalid_views(invalid@);
        let mut out: Vec<Finding<'a>> = Vec::new();
        let mut i: usize = 0;
        while i < invalid.len()
            invariant
                i <= invalid.len(),
                items == invalid_views(invalid@),
                items == invalid_of(matches@),
                finding_views(out@) =~= Rule::Invalid.findings_upto(items, i as nat),
            decreases invalid.len() - i,
        {
            let ghost before = finding_views(out@);
            let m = &invalid[i];
            assert(items[i as int] == m@);
            let finding = match m.error() {
                crate::args::ArgsError::Malformed => {
                    let span = m.span();
                    error_finding(
                        FindingKind::Malformed,
                        "malformed codesync comment",
                        Location { file: m.file(), start: span.start, end: span.end },
                    )
                },
                crate::args::ArgsError::InvalidCount { start, end } => error_finding(
                    FindingKind::InvalidCount,
                    "invalid count",
                    Location { file: m.file(), start, end },
                ),
            };
            out.push(finding);
            assert(finding_views(out@) =~= before.push(finding@));
            i = i + 1;
        }
        out
    }

    /// The finding about the counts of the comments of one label, if there is one.
    pub fn report_incorrect_counts<'a>(
        &self,
        label: &str,
        comments: &Vec<Comment<'a>>,
        default_count: u16,
    ) -> (r: Option<Finding<'a>>)
        ensures
            match r {
                Some(f) => Some(f@),
                None => None,
            } == count_finding(
                GroupView { label: label@, comments: comment_views(comments@) },
                default_count,
            ),
    {
        let ghost items = comment_views(comments@);
        let ghost counts = counts_of(items, default_count);
        let found = comments.len();
        let mut distinct: HashSet<u16> = HashSet::new();
        let mut locations: Vec<Location<'a>> = Vec::new();
        let mut i: usize = 0;
        while i < found
            invariant
                i <= found,
                found == comments.len(),
                items == comment_views(comments@),
                counts == counts_of(items, default_count),
                distinct@.finite(),
                forall|c: u16|
                    distinct@.contains(c) <==> exists|j: int| 0 <= j < i && #[trigger] counts[j] == c,
                location_views(locations@) =~= span_locations(items).subrange(0, i as int),
            decreases found - i,
        {
            let comment = &comments[i];
            assert(items[i as int] == comment@);
            let ghost seen = distinct@;
            distinct.insert(comment.count_or(default_count));
            proof {
                assert forall|c: u16| distinct@.contains(c) <==> exists|j: int|
                    0 <= j < i + 1 && #[trigger] counts[j] == c by {
                    if distinct@.contains(c) {
                        if seen.contains(c) {
                            let j = choose|j: int| 0 <= j < i && #[trigger] counts[j] == c;
                            assert(counts[j] == c);
                        } else {
                            assert(counts[i as int] == c);
                        }
                    }
                    if exists|j: int| 0 <= j < i + 1 && #[trigger] counts[j] == c {
                        let j = choose|j: int| 0 <= j < i + 1 && #[trigger] counts[j] == c;
                        if j < i {
                            assert(seen.contains(c));
                        }
                    }
                }
            }
            let ghost before = location_views(locations@);
            let location = location_of_comment(comment);
            locations.push(location);
            assert(location_views(locations@) =~= before.push(location@));
            i = i + 1;
        }
        assert(span_locations(items).subrange(0, found as int) =~= span_locations(items));
        let different = distinct.len();
        if found == 0 {
            return None;
        }
        let expected = comments[0].count_or(default_count);
        proof {
            assert(items[0] == comments[0]@);
            assert(counts[0] == expected);
            assert(distinct@.contains(expected));
            lemma_distinct_counts(counts, distinct@);
        }
        let agree = different == 1;
        if !agree {
            let mut message = "not all comments with label `".to_owned();
            message.append(label);
            message.append("` have the same count");
            Some(
                Finding {
                    kind: FindingKind::CountDisagreement,
                    severity: Severity::Error,
                    message,
                    locations,
                    suggestion: None,
                },
            )
        } else if found != expected as usize {
            let mut message = "expected ".to_owned();
            message.append(decimal_string(expected as usize).as_str());
            message.append(" ");
            message.append(pluralize("comment", expected as usize).as_str());
            message.append(" with label `");
            message.append(label);
            message.append("`, found ");
            message.append(decimal_string(found).as_str());
            Some(
                Finding {
                    kind: FindingKind::CountMismatch,
                    severity: Severity::Error,
                    message,
                    locations,
                    suggestion: None,
                },
            )
        } else {
            None
        }
    }

    /// One finding for every comment whose label is not in the required
    /// case style, if one is required.
    pub fn report_inconsistent_casing<'a>(&self, matches: &'a Matches) -> (r: Vec<Finding<'a>>)
        ensures
            finding_views(r@) == casing_findings(matches@, self@),
    {
        let mut out: Vec<Finding<'a>> = Vec::new();
        if let Some(case) = self.args.consistent_casing {
            let comments = matches.comments();
            let ghost items = comment_views(comments@);
            let ghost rule = Rule::Casing(case);
            let mut i: usize = 0;
            while i < comments.len()
                invariant
                    i <= comments.len(),
                    items == comment_views(comments@),
                    rule == Rule::Casing(case),
                    finding_views(out@) =~= rule.findings_upto(items, i as nat),
                decreases comments.len() - i,
            {
                let ghost before = finding_views(out@);
                let comment = &comments[i];
                assert(items[i as int] == comment@);
                if !case.has_case(comment.label()) {
                    let mut message = "label doesn't use ".to_owned();
                    message.append(case.name());
                    message.append(" case");
                    let mut locations: Vec<Location<'a>> = Vec::new();
                    locations.push(location_of_comment(comment));
                    let finding = Finding {
                        kind: FindingKind::Casing,
                        severity: Severity::Error,
                        message,
                        locations,
                        suggestion: Some(case.to_case(comment.label())),
                    };
                    assert(finding@.locations =~= seq![span_location(comment@)]);
                    out.push(finding);
                    assert(finding_views(out@) =~= before.push(finding@));
                }
                i = i + 1;
            }
        }
        out
    }

    /// One finding for every comment whose label does not match the
    /// required pattern, if one is required.
    pub fn report_label_regex_mismatch<'a>(&self, matches: &'a Matches) -> (r: Vec<Finding<'a>>)
        ensures
            finding_views(r@) == pattern_findings(matches@, self@),
    {
        let mut out: Vec<Finding<'a>> = Vec::new();
        if let Some(pattern) = &self.args.label_pattern {
            let comments = matches.comments();
            let ghost items = comment_views(comments@);
            let ghost rule = Rule::Pattern(pattern@);
            let mut i: usize = 0;
            while i < comments.len()
                invariant
                    i <= comments.len(),
                    items == comment_views(comments@),
                    rule == Rule::Pattern(pattern@),
                    finding_views(out@) =~= rule.findings_upto(items, i as nat),
                decreases comments.len() - i,
            {
                let ghost before = finding_views(out@);
                let comment = &comments[i];
                assert(items[i as int] == comment@);
                let outcome = regex_is_match(pattern.as_str(), comment.label());
                if !label_conforms(outcome) {
                    let finding = error_finding(
                        FindingKind::PatternMismatch,
                        "label doesn't match regex",
                        location_of_arg(comment.file(), comment.label_arg()),
                    );
                    out.push(finding);
                    assert(finding_views(out@) =~= before.push(finding@));
                }
                i = i + 1;
            }
        }
        out
    }

    /// One finding for every argument with white space around it, if white
    /// space is checked: for each comment, the count before the label.
    pub fn report_no_extra_whitespace<'a>(&self, matches: &'a Matches) -> (r: Vec<Finding<'a>>)
        ensures
            finding_views(r@) == extra_whitespace_findings(matches@, self@),
    {
        let mut out: Vec<Finding<'a>> = Vec::new();
        if self.args.no_extra_whitespace {
            let comments = matches.comments();
            let ghost items = comment_views(comments@);
            let mut i: usize = 0;
            while i < comments.len()
                invariant
                    i <= comments.len(),
                    items == comment_views(comments@),
                    finding_views(out@) =~= Rule::Whitespace.findings_upto(items, i as nat),
                decreases comments.len() - i,
            {
                let ghost before = finding_views(out@);
                let comment = &comments[i];
                assert(items[i as int] == comment@);
                if let Some(count_arg) = comment.count_arg() {
                    if count_arg.has_extra_whitespace() {
                        let finding = error_finding(
                            FindingKind::ExtraWhitespace,
                            "argument has extra whitespace",
                            location_of_arg(comment.file(), count_arg),
                        );
                        out.push(finding);
                        assert(finding_views(out@) =~= before.push(finding@));
                    }
                }
                let ghost middle = finding_views(out@);
                let label_arg = comment.label_arg();
                if label_arg.has_extra_whitespace() {
                    let finding = error_finding(
                        FindingKind::ExtraWhitespace,
                        "argument has extra whitespace",
                        location_of_arg(comment.file(), label_arg),
                    );
                    out.push(finding);
                    assert(finding_views(out@) =~= middle.push(finding@));
                }
                assert(finding_views(out@) =~= before + whitespace_findings(comment@));
                i = i + 1;
            }
        }
        out
    }
}

} // verus!
