//! The annotations found in a code base: one `Match` for each occurrence of
//! the marker, kept file by file in the order in which they were found.

use crate::args::{outcome_of, Args, ArgsError, ArgsView, CountArg, LabelArg, ParseOutcome};
use std::ops::Range;
use std::path::PathBuf;
use vstd::prelude::*;

verus! {

/// A path of the file system. The library carries paths and never looks into them.
#[verifier::external_type_specification]
#[verifier::external_body]
pub struct ExPathBuf(PathBuf);

/// The count that an annotation without a count stands for.
pub const DEFAULT_COUNT: u16 = 2;

/// The length of the marker in bytes.
pub const MARKER_LEN: usize = 8;

/// An occurrence of the marker, with what followed it.
pub struct Match {
    pub(crate) args: Result<Args, ArgsError>,
    /// The offset in bytes from the beginning of the file to the marker.
    pub(crate) byte_offset: usize,
}

/// What a match is, for the contracts.
pub ghost struct MatchView {
    pub byte_offset: nat,
    pub outcome: ParseOutcome,
}

impl MatchView {
    /// The match has well-formed arguments.
    pub open spec fn is_valid(self) -> bool {
        self.outcome is Valid
    }

    /// The arguments of a valid match.
    pub open spec fn args(self) -> ArgsView
        recommends
            self.is_valid(),
    {
        self.outcome->Valid_0
    }

    /// The offset of the byte after the annotation: after the marker, and
    /// after the argument list where there is one.
    pub open spec fn span_end(self) -> nat {
        match self.outcome {
            ParseOutcome::Valid(args) => self.byte_offset + MARKER_LEN as nat + args.len,
            _ => self.byte_offset + MARKER_LEN as nat,
        }
    }
}

impl Match {
    /// The end of the annotation is an offset that the machine can hold.
    #[verifier::type_invariant]
    pub open(crate) spec fn inv(&self) -> bool {
        self@.span_end() <= usize::MAX
    }

    /// The match, for the contracts.
    pub open(crate) spec fn view(&self) -> MatchView {
        MatchView { byte_offset: self.byte_offset as nat, outcome: outcome_of(self.args) }
    }

    /// The match as a comment of `file`, if its arguments are well-formed.
    pub fn to_comment<'a>(&'a self, file: &'a PathBuf) -> (r: Option<Comment<'a>>)
        ensures
            r is Some <==> self@.is_valid(),
            r is Some ==> r->0@ == (Occurrence { file: *file, m: self@ }),
    {
        if let Ok(opts) = &self.args {
            Some(Comment { args: opts, file, m: self })
        } else {
            None
        }
    }

    /// The match as an invalid match of `file`, if its arguments are not well-formed.
    pub fn to_invalid<'a>(&'a self, file: &'a PathBuf) -> (r: Option<InvalidMatch<'a>>)
        ensures
            r is Some <==> !self@.is_valid(),
            r is Some ==> r->0@ == (Occurrence { file: *file, m: self@ }),
    {
        if let Err(error) = self.args {
            Some(InvalidMatch { error, m: self, file })
        } else {
            None
        }
    }

    /// The bytes of the file that the annotation covers.
    pub fn span(&self) -> (r: Range<usize>)
        ensures
            r.start == self@.byte_offset,
            r.end == self@.span_end(),
    {
        proof {
            use_type_invariant(self);
        }
        let start = self.byte_offset;
        let mut end = start + MARKER_LEN;
        if let Ok(args) = &self.args {
            end = end + args.len;
        }
        start..end
    }
}

/// A match together with the file it was found in.
pub ghost struct Occurrence {
    pub file: PathBuf,
    pub m: MatchView,
}

impl Occurrence {
    /// The label of a comment.
    pub open spec fn label(self) -> Seq<char>
        recommends
            self.m.is_valid(),
    {
        self.m.args().label.val
    }

    /// The count that a comment states, or `default` where it states none.
    pub open spec fn count_or(self, default: u16) -> u16
        recommends
            self.m.is_valid(),
    {
        match self.m.args().count {
            Some(c) => c.val,
            None => default,
        }
    }
}

/// A valid annotation of a file.
#[derive(Copy, Clone)]
pub struct Comment<'a> {
    pub(crate) args: &'a Args,
    pub(crate) file: &'a PathBuf,
    pub(crate) m: &'a Match,
}

impl<'a> Comment<'a> {
    /// The arguments are those of the match.
    #[verifier::type_invariant]
    pub open(crate) spec fn inv(&self) -> bool {
        self.m@.outcome == ParseOutcome::Valid(self.args@)
    }

    /// The comment, for the contracts.
    pub open(crate) spec fn view(&self) -> Occurrence {
        Occurrence { file: *self.file, m: self.m@ }
    }

    /// The bytes of the file that the annotation covers.
    pub fn span(&self) -> (r: Range<usize>)
        ensures
            r.start == self@.m.byte_offset,
            r.end == self@.m.span_end(),
    {
        self.m.span()
    }

    /// The file of the annotation.
    pub fn file(&self) -> (r: &'a PathBuf)
        ensures
            *r == self@.file,
    {
        self.file
    }

    /// The label, trimmed.
    pub fn label(&self) -> (r: &'a str)
        ensures
            self@.m.is_valid(),
            r@ == self@.label(),
    {
        proof {
            use_type_invariant(self);
        }
        self.args.label()
    }

    /// The count that the annotation states, or `default` where it states none.
    pub fn count_or(&self, default: u16) -> (r: u16)
        ensures
            r == self@.count_or(default),
    {
        proof {
            use_type_invariant(self);
        }
        match &self.args.count {
            Some(c) => c.val,
            None => default,
        }
    }

    /// The count that the annotation states, or two where it states none.
    pub fn count(&self) -> (r: u16)
        ensures
            r == self@.count_or(DEFAULT_COUNT),
    {
        self.count_or(DEFAULT_COUNT)
    }

    /// The count argument, if there is one.
    pub fn count_arg(&self) -> (r: Option<&'a CountArg>)
        ensures
            self@.m.is_valid(),
            match r {
                Some(c) => self@.m.args().count == Some(c@),
                None => self@.m.args().count is None,
            },
    {
        proof {
            use_type_invariant(self);
        }
        self.args.count.as_ref()
    }

    /// The label argument.
    pub fn label_arg(&self) -> (r: &'a LabelArg)
        ensures
            self@.m.is_valid(),
            r@ == self@.m.args().label,
    {
        proof {
            use_type_invariant(self);
        }
        &self.args.label
    }
}

/// A match whose arguments are not well-formed.
pub struct InvalidMatch<'a> {
    pub(crate) error: ArgsError,
    pub(crate) file: &'a PathBuf,
    pub(crate) m: &'a Match,
}

impl<'a> InvalidMatch<'a> {
    /// The error is that of the match.
    #[verifier::type_invariant]
    pub open(crate) spec fn inv(&self) -> bool {
        self.m@.outcome == outcome_of(Err(self.error))
    }

    /// The invalid match, for the contracts.
    pub open(crate) spec fn view(&self) -> Occurrence {
        Occurrence { file: *self.file, m: self.m@ }
    }

    /// Why the match is no annotation.
    pub fn error(&self) -> (r: ArgsError)
        ensures
            self@.m.outcome == outcome_of(Err(r)),
            !self@.m.is_valid(),
    {
        proof {
            use_type_invariant(self);
        }
        self.error
    }

    /// The bytes of the file that the marker covers.
    pub fn span(&self) -> (r: Range<usize>)
        ensures
            r.start == self@.m.byte_offset,
            r.end == self@.m.span_end(),
    {
        self.m.span()
    }

    /// The file of the match.
    pub fn file(&self) -> (r: &'a PathBuf)
        ensures
            *r == self@.file,
    {
        self.file
    }
}

/// The matches of one file, in the order in which they were found.
pub struct FileMatches {
    pub(crate) path: PathBuf,
    pub(crate) matches: Vec<Match>,
}

/// What the matches of a file are, for the contracts.
pub ghost struct FileView {
    pub path: PathBuf,
    pub matches: Seq<MatchView>,
}

impl FileMatches {
    /// The matches of the file, for the contracts.
    pub open(crate) spec fn view(&self) -> FileView {
        FileView { path: self.path, matches: Seq::new(self.matches@.len(), |i: int| self.matches@[i]@) }
    }

    /// A file without matches.
    pub fn new(path: PathBuf) -> (r: Self)
        ensures
            r@.path == path,
            r@.matches.len() == 0,
    {
        Self { path, matches: Vec::new() }
    }

    /// Adds a match after those that the file holds.
    pub fn push(&mut self, m: Match)
        ensures
            final(self)@.path == old(self)@.path,
            final(self)@.matches == old(self)@.matches.push(m@),
    {
        self.matches.push(m);
        assert(self@.matches =~= old(self)@.matches.push(m@));
    }

    /// The path of the file.
    pub fn path(&self) -> (r: &PathBuf)
        ensures
            *r == self@.path,
    {
        &self.path
    }

    /// The number of matches in the file.
    pub fn len(&self) -> (r: usize)
        ensures
            r == self@.matches.len(),
    {
        self.matches.len()
    }
}

/// The matches of `f` among its first `n` that are valid, if `valid` is
/// set, or that are not, if it is not, in the order of the file.
pub open spec fn file_occurrences(f: FileView, n: nat, valid: bool) -> Seq<Occurrence>
    decreases n,
{
    if n == 0 || n > f.matches.len() {
        Seq::empty()
    } else {
        let before = file_occurrences(f, (n - 1) as nat, valid);
        if f.matches[n - 1].is_valid() == valid {
            before.push(Occurrence { file: f.path, m: f.matches[n - 1] })
        } else {
            before
        }
    }
}

/// The valid, or the invalid, matches of the first `n` files, file by file.
pub open spec fn occurrences_upto(files: Seq<FileView>, n: nat, valid: bool) -> Seq<Occurrence>
    decreases n,
{
    if n == 0 || n > files.len() {
        Seq::empty()
    } else {
        occurrences_upto(files, (n - 1) as nat, valid) + file_occurrences(
            files[n - 1],
            files[n - 1].matches.len(),
            valid,
        )
    }
}

/// The valid annotations of all files, in the order in which they were found.
pub open spec fn comments_of(files: Seq<FileView>) -> Seq<Occurrence> {
    occurrences_upto(files, files.len(), true)
}

/// The matches of all files that are not valid annotations, in the order in
/// which they were found.
pub open spec fn invalid_of(files: Seq<FileView>) -> Seq<Occurrence> {
    occurrences_upto(files, files.len(), false)
}

/// Every occurrence that `file_occurrences` selects has the asked validity.
pub proof fn lemma_file_occurrences_valid(f: FileView, n: nat, valid: bool)
    ensures
        forall|i: int|
            0 <= i < file_occurrences(f, n, valid).len() ==> (#[trigger] file_occurrences(
                f,
                n,
                valid,
            )[i]).m.is_valid() == valid,
    decreases n,
{
    if n == 0 || n > f.matches.len() {
    } else {
        lemma_file_occurrences_valid(f, (n - 1) as nat, valid);
    }
}

/// Every occurrence that `occurrences_upto` selects has the asked validity.
pub proof fn lemma_occurrences_valid(files: Seq<FileView>, n: nat, valid: bool)
    ensures
        forall|i: int|
            0 <= i < occurrences_upto(files, n, valid).len() ==> (#[trigger] occurrences_upto(
                files,
                n,
                valid,
            )[i]).m.is_valid() == valid,
    decreases n,
{
    if n == 0 || n > files.len() {
    } else {
        lemma_occurrences_valid(files, (n - 1) as nat, valid);
        lemma_file_occurrences_valid(files[n - 1], files[n - 1].matches.len(), valid);
    }
}

/// The comments of a vector, for the contracts.
pub open(crate) spec fn comment_views<'a>(v: Seq<Comment<'a>>) -> Seq<Occurrence> {
    Seq::new(v.len(), |i: int| v[i]@)
}

/// The invalid matches of a vector, for the contracts.
pub open(crate) spec fn invalid_views<'a>(v: Seq<InvalidMatch<'a>>) -> Seq<Occurrence> {
    Seq::new(v.len(), |i: int| v[i]@)
}

/// The comments that share one label, in the order in which they were found.
pub struct LabelGroup<'a> {
    pub(crate) label: &'a str,
    pub(crate) comments: Vec<Comment<'a>>,
}

/// What a label group is, for the contracts.
pub ghost struct GroupView {
    pub label: Seq<char>,
    pub comments: Seq<Occurrence>,
}

impl<'a> LabelGroup<'a> {
    /// The group, for the contracts.
    pub open(crate) spec fn view(&self) -> GroupView {
        GroupView { label: self.label@, comments: comment_views(self.comments@) }
    }

    /// The label that the comments of the group share.
    pub fn label(&self) -> (r: &'a str)
        ensures
            r@ == self@.label,
    {
        self.label
    }

    /// The comments of the group.
    pub fn comments(&self) -> (r: &Vec<Comment<'a>>)
        ensures
            comment_views(r@) == self@.comments,
    {
        &self.comments
    }
}

/// The labels of the first `n` comments, each once, in the order in which
/// they first occur.
pub open spec fn labels_upto(comments: Seq<Occurrence>, n: nat) -> Seq<Seq<char>>
    decreases n,
{
    if n == 0 || n > comments.len() {
        Seq::empty()
    } else {
        let before = labels_upto(comments, (n - 1) as nat);
        if before.contains(comments[n - 1].label()) {
            before
        } else {
            before.push(comments[n - 1].label())
        }
    }
}

/// Those of the first `n` comments that have the label `label`, in order.
pub open spec fn with_label_upto(comments: Seq<Occurrence>, n: nat, label: Seq<char>) -> Seq<
    Occurrence,
>
    decreases n,
{
    if n == 0 || n > comments.len() {
        Seq::empty()
    } else {
        let before = with_label_upto(comments, (n - 1) as nat, label);
        if comments[n - 1].label() == label {
            before.push(comments[n - 1])
        } else {
            before
        }
    }
}

/// The label groups of `comments`: one group for each label, in the order
/// in which the labels first occur, each with all the comments of its label.
pub open spec fn groups_of(comments: Seq<Occurrence>) -> Seq<GroupView> {
    let labels = labels_upto(comments, comments.len());
    Seq::new(
        labels.len(),
        |k: int|
            GroupView {
                label: labels[k],
                comments: with_label_upto(comments, comments.len(), labels[k]),
            },
    )
}

/// No label occurs twice among the labels of the first `n` comments.
pub proof fn lemma_labels_distinct(comments: Seq<Occurrence>, n: nat)
    ensures
        forall|i: int, j: int|
            0 <= i < j < labels_upto(comments, n).len() ==> labels_upto(comments, n)[i]
                != labels_upto(comments, n)[j],
    decreases n,
{
    if n == 0 || n > comments.len() {
    } else {
        lemma_labels_distinct(comments, (n - 1) as nat);
        let before = labels_upto(comments, (n - 1) as nat);
        let label = comments[n - 1].label();
        if !before.contains(label) {
            let now = before.push(label);
            assert forall|i: int, j: int| 0 <= i < j < now.len() implies now[i] != now[j] by {
                if j == before.len() {
                    assert(before[i] == now[i]);
                    assert(before.contains(before[i]));
                }
            }
        }
    }
}

/// A label that is not among the labels of the first `n` comments is the
/// label of none of them.
pub proof fn lemma_unseen_label(comments: Seq<Occurrence>, n: nat, label: Seq<char>)
    requires
        !labels_upto(comments, n).contains(label),
    ensures
        with_label_upto(comments, n, label).len() == 0,
    decreases n,
{
    if n == 0 || n > comments.len() {
    } else {
        let before = labels_upto(comments, (n - 1) as nat);
        if before.contains(comments[n - 1].label()) {
        } else {
            assert(before.push(comments[n - 1].label()).last() == comments[n - 1].label());
            assert forall|i: int| 0 <= i < before.len() implies before[i] != label by {
                assert(before.push(comments[n - 1].label())[i] == before[i]);
            }
        }
        assert(comments[n - 1].label() != label);
        lemma_unseen_label(comments, (n - 1) as nat, label);
    }
}

/// The groups of a vector, for the contracts.
pub open(crate) spec fn group_views<'a>(v: Seq<LabelGroup<'a>>) -> Seq<GroupView> {
    Seq::new(v.len(), |i: int| v[i]@)
}

/// All the matches of a code base, file by file.
pub struct Matches {
    pub(crate) files: Vec<FileMatches>,
}

impl Matches {
    /// The files with their matches, for the contracts.
    pub open(crate) spec fn view(&self) -> Seq<FileView> {
        Seq::new(self.files@.len(), |i: int| self.files@[i]@)
    }

    /// No files.
    pub fn new() -> (r: Self)
        ensures
            r@.len() == 0,
    {
        Self { files: Vec::new() }
    }

    /// Adds a file after those that are held, unless it has no matches.
    pub fn push(&mut self, file: FileMatches)
        ensures
            final(self)@ == if file@.matches.len() > 0 {
                old(self)@.push(file@)
            } else {
                old(self)@
            },
    {
        if file.matches.len() > 0 {
            self.files.push(file);
            assert(self@ =~= old(self)@.push(file@));
        } else {
            assert(self@ =~= old(self)@);
        }
    }

    /// All valid comments, in the order in which they were found.
    pub fn comments(&self) -> (r: Vec<Comment<'_>>)
        ensures
            comment_views(r@) == comments_of(self@),
            forall|i: int| 0 <= i < r.len() ==> (#[trigger] r[i])@.m.is_valid(),
    {
        let mut out: Vec<Comment<'_>> = Vec::new();
        let mut i: usize = 0;
        while i < self.files.len()
            invariant
                i <= self.files.len(),
                comment_views(out@) =~= occurrences_upto(self@, i as nat, true),
            decreases self.files.len() - i,
        {
            let file = &self.files[i];
            let mut j: usize = 0;
            while j < file.matches.len()
                invariant
                    i < self.files.len(),
                    *file == self.files@[i as int],
                    j <= file.matches.len(),
                    comment_views(out@) =~= occurrences_upto(self@, i as nat, true)
                        + file_occurrences(file@, j as nat, true),
                decreases file.matches.len() - j,
            {
                let ghost before = comment_views(out@);
                if let Some(comment) = file.matches[j].to_comment(&file.path) {
                    out.push(comment);
                    assert(comment_views(out@) =~= before.push(comment@));
                }
                j = j + 1;
            }
            i = i + 1;
        }
        proof {
            lemma_occurrences_valid(self@, self@.len(), true);
            assert forall|i: int| 0 <= i < out.len() implies (#[trigger] out[i])@.m.is_valid() by {
                assert(comment_views(out@)[i] == out[i]@);
            }
        }
        out
    }

    /// All matches that are not valid comments, in the order in which they were found.
    pub fn invalid_matches(&self) -> (r: Vec<InvalidMatch<'_>>)
        ensures
            invalid_views(r@) == invalid_of(self@),
            forall|i: int| 0 <= i < r.len() ==> !(#[trigger] r[i])@.m.is_valid(),
    {
        let mut out: Vec<InvalidMatch<'_>> = Vec::new();
        let mut i: usize = 0;
        while i < self.files.len()
            invariant
                i <= self.files.len(),
                invalid_views(out@) =~= occurrences_upto(self@, i as nat, false),
            decreases self.files.len() - i,
        {
            let file = &self.files[i];
            let mut j: usize = 0;
            while j < file.matches.len()
                invariant
                    i < self.files.len(),
                    *file == self.files@[i as int],
                    j <= file.matches.len(),
                    invalid_views(out@) =~= occurrences_upto(self@, i as nat, false)
                        + file_occurrences(file@, j as nat, false),
                decreases file.matches.len() - j,
            {
                let ghost before = invalid_views(out@);
                if let Some(invalid) = file.matches[j].to_invalid(&file.path) {
                    out.push(invalid);
                    assert(invalid_views(out@) =~= before.push(invalid@));
                }
                j = j + 1;
            }
            i = i + 1;
        }
        proof {
            lemma_occurrences_valid(self@, self@.len(), false);
            assert forall|i: int| 0 <= i < out.len() implies !(#[trigger] out[i])@.m.is_valid() by {
                assert(invalid_views(out@)[i] == out[i]@);
            }
        }
        out
    }

    /// The valid comments grouped by label. Matches that are not valid
    /// comments are left out.
    pub fn group_by_label(&self) -> (r: Vec<LabelGroup<'_>>)
        ensures
            group_views(r@) == groups_of(comments_of(self@)),
    {
        let comments = self.comments();
        group_comments(&comments)
    }
}

/// Groups comments by label: one group for each label, in the order in which
/// the labels first occur.
pub fn group_comments<'a>(comments: &Vec<Comment<'a>>) -> (r: Vec<LabelGroup<'a>>)
    ensures
        group_views(r@) == groups_of(comment_views(comments@)),
{
    let ghost all = comment_views(comments@);
    let mut groups: Vec<LabelGroup<'a>> = Vec::new();
    let mut i: usize = 0;
    while i < comments.len()
        invariant
            i <= comments.len(),
            all == comment_views(comments@),
            groups.len() == labels_upto(all, i as nat).len(),
            forall|k: int|
                0 <= k < groups.len() ==> (#[trigger] groups[k])@ == (GroupView {
                    label: labels_upto(all, i as nat)[k],
                    comments: with_label_upto(all, i as nat, labels_upto(all, i as nat)[k]),
                }),
        decreases comments.len() - i,
    {
        let comment = comments[i];
        let label = comment.label();
        let ghost before = labels_upto(all, i as nat);
        let ghost old_groups = groups@;
        assert(all[i as int] == comment@);
        let mut k: usize = 0;
        while k < groups.len() && !groups[k].label.eq(label)
            invariant
                k <= groups.len(),
                groups@ == old_groups,
                groups.len() == before.len(),
                forall|j: int| 0 <= j < groups.len() ==> (#[trigger] groups[j])@.label == before[j],
                forall|j: int| 0 <= j < k ==> before[j] != label@,
            decreases groups.len() - k,
        {
            k = k + 1;
        }
        if k < groups.len() {
            proof {
                lemma_labels_distinct(all, i as nat);
                assert(before[k as int] == label@);
                assert(before.contains(label@));
            }
            groups[k].comments.push(comment);
            proof {
                assert(labels_upto(all, (i + 1) as nat) == before);
                assert forall|j: int| 0 <= j < groups.len() implies (#[trigger] groups[j])@ == (GroupView {
                    label: before[j],
                    comments: with_label_upto(all, (i + 1) as nat, before[j]),
                }) by {
                    if j == k {
                        assert(groups[j]@.comments =~= old_groups[j]@.comments.push(comment@));
                    } else {
                        assert(groups[j] == old_groups[j]);
                    }
                }
            }
        } else {
            proof {
                assert(!before.contains(label@));
                lemma_unseen_label(all, i as nat, label@);
            }
            let mut members: Vec<Comment<'a>> = Vec::new();
            members.push(comment);
            let group = LabelGroup { label, comments: members };
            groups.push(group);
            proof {
                assert(labels_upto(all, (i + 1) as nat) == before.push(label@));
                assert(group@.comments =~= Seq::<Occurrence>::empty().push(comment@));
                assert forall|j: int| 0 <= j < groups.len() implies (#[trigger] groups[j])@ == (GroupView {
                    label: before.push(label@)[j],
                    comments: with_label_upto(all, (i + 1) as nat, before.push(label@)[j]),
                }) by {
                    if j < old_groups.len() {
                        assert(groups[j] == old_groups[j]);
                        assert(before[j] != label@);
                    } else {
                        assert(groups[j] == group);
                        assert(with_label_upto(all, i as nat, label@) =~= Seq::<Occurrence>::empty());
                    }
                }
            }
        }
        i = i + 1;
    }
    assert(group_views(groups@) =~= groups_of(all));
    groups
}

} // verus!
