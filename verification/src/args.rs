//! The arguments of an annotation: a label and an optional count between
//! parentheses, each kept with the text it was read from and the bytes of
//! the file that it covers.

use crate::text::{
    chars_of, decimal_digits, lemma_scan_forward, lemma_trimmed_differs, lemma_utf8_len_increasing,
    lemma_utf8_len_prefix, parse_u16_spec, scan_forward, trim_bounds, trimmed, utf8_len,
    CharClass,
};
use std::ops::Range;
use vstd::prelude::*;

verus! {

/// One argument: its value, the text it was read from, and the bytes of the
/// file that this text covers.
pub struct Arg<T> {
    /// The value, trimmed and read.
    pub(crate) val: T,
    /// The text between the delimiters, as it stands in the file.
    pub(crate) match_: String,
    /// The bytes of the file that the text covers.
    pub(crate) span: Range<usize>,
}

/// The label of an annotation.
pub type LabelArg = Arg<String>;

/// The count of an annotation.
pub type CountArg = Arg<u16>;

/// What an argument is, for the contracts.
pub ghost struct ArgView<V> {
    pub val: V,
    pub raw: Seq<char>,
    pub start: nat,
    pub end: nat,
}

impl<T> Arg<T> {
    /// The value of the argument.
    pub open(crate) spec fn value(&self) -> T {
        self.val
    }

    /// The text of the argument as it stands in the file.
    pub open(crate) spec fn raw(&self) -> Seq<char> {
        self.match_@
    }

    /// The offset in the file of the first byte of the argument.
    pub open(crate) spec fn start(&self) -> nat {
        self.span.start as nat
    }

    /// The offset in the file of the byte after the argument.
    pub open(crate) spec fn end(&self) -> nat {
        self.span.end as nat
    }

    /// The bytes of the file that the argument covers.
    pub fn span(&self) -> (r: Range<usize>)
        ensures
            r.start == self.start(),
            r.end == self.end(),
    {
        self.span.start..self.span.end
    }

    /// The value of the argument.
    pub fn val(&self) -> (r: &T)
        ensures
            *r == self.value(),
    {
        &self.val
    }

    /// The text of the argument as it stands in the file.
    pub fn matched(&self) -> (r: &str)
        ensures
            r@ == self.raw(),
    {
        self.match_.as_str()
    }

    /// Whether the text of the argument begins or ends with white space.
    pub fn has_extra_whitespace(&self) -> (b: bool)
        ensures
            b == (trimmed(self.raw()) != self.raw()),
    {
        let v = chars_of(self.match_.as_str());
        let (a, z) = trim_bounds(v.as_slice());
        proof {
            lemma_trimmed_differs(v@);
        }
        a != 0 || z != v.len()
    }
}

impl Arg<String> {
    /// The label argument, for the contracts.
    pub open(crate) spec fn view(&self) -> ArgView<Seq<char>> {
        ArgView { val: self.val@, raw: self.match_@, start: self.start(), end: self.end() }
    }
}

impl Arg<u16> {
    /// The count argument, for the contracts.
    pub open(crate) spec fn view(&self) -> ArgView<u16> {
        ArgView { val: self.val, raw: self.match_@, start: self.start(), end: self.end() }
    }
}

/// The arguments of a well-formed annotation.
pub struct Args {
    pub(crate) label: LabelArg,
    pub(crate) count: Option<CountArg>,
    /// The length in bytes of the argument list, parentheses included.
    pub(crate) len: usize,
}

/// What the arguments are, for the contracts.
pub ghost struct ArgsView {
    pub label: ArgView<Seq<char>>,
    pub count: Option<ArgView<u16>>,
    pub len: nat,
}

impl Args {
    /// The arguments, for the contracts.
    pub open(crate) spec fn view(&self) -> ArgsView {
        ArgsView {
            label: self.label@,
            count: match self.count {
                Some(c) => Some(c@),
                None => None,
            },
            len: self.len as nat,
        }
    }

    /// The label, trimmed.
    pub fn label(&self) -> (r: &str)
        ensures
            r@ == self@.label.val,
    {
        self.label.val.as_str()
    }
}

/// Why the text after a marker is not an argument list.
#[derive(Debug, Copy, Clone)]
pub enum ArgsError {
    /// There is no argument list of the required shape.
    Malformed,
    /// The second argument is no 16-bit unsigned number; `start..end` are
    /// the bytes of the file that it covers.
    InvalidCount { start: usize, end: usize },
}

/// What reading the text after a marker gives.
pub ghost enum ParseOutcome {
    /// The text does not begin with an argument list.
    Malformed,
    /// The second argument, at bytes `start..end` of the file, is no number.
    InvalidCount { start: nat, end: nat },
    /// The arguments.
    Valid(ArgsView),
}

/// The outcome that a result of `parse_args` stands for.
pub open(crate) spec fn outcome_of(r: Result<Args, ArgsError>) -> ParseOutcome {
    match r {
        Ok(args) => ParseOutcome::Valid(args@),
        Err(ArgsError::Malformed) => ParseOutcome::Malformed,
        Err(ArgsError::InvalidCount { start, end }) => ParseOutcome::InvalidCount {
            start: start as nat,
            end: end as nat,
        },
    }
}

/// The argument that stands at characters `from..to` of `text`, where
/// `text` begins at byte `offset` of the file.
pub open spec fn arg_span(offset: nat, text: Seq<char>, from: int, to: int) -> (nat, nat) {
    (offset + utf8_len(text.subrange(0, from)), offset + utf8_len(text.subrange(0, to)))
}

/// The label that stands at characters `from..to` of `text`.
pub open spec fn label_at(offset: nat, text: Seq<char>, from: int, to: int) -> ArgView<Seq<char>> {
    ArgView {
        val: trimmed(text.subrange(from, to)),
        raw: text.subrange(from, to),
        start: arg_span(offset, text, from, to).0,
        end: arg_span(offset, text, from, to).1,
    }
}

/// Where the label of `text` ends: at the first comma or closing
/// parenthesis after the opening parenthesis, or at the end of `text`.
pub open spec fn label_end(text: Seq<char>) -> int {
    scan_forward(text, 1, CharClass::Label)
}

/// Where the count of `text` ends: at the first closing parenthesis after
/// the comma that follows the label, or at the end of `text`.
pub open spec fn count_end(text: Seq<char>) -> int {
    scan_forward(text, label_end(text) + 1, CharClass::Count)
}

/// What the text after a marker holds, where that text begins at byte
/// `offset` of the file.
///
/// An argument list is an opening parenthesis, a label of characters other
/// than `,` and `)` that are not all white space, then either a closing
/// parenthesis, or a comma, a count of any characters other than `)`, and a
/// closing parenthesis. The label's value is its text without the white space
/// around it, and is never empty; the count's value is the number that its
/// trimmed text writes in ASCII digits, without a sign.
pub open spec fn parse_outcome(offset: nat, text: Seq<char>) -> ParseOutcome {
    let le = label_end(text);
    let ce = count_end(text);
    if text.len() == 0 || text[0] != '(' || le >= text.len() || trimmed(text.subrange(1, le)).len()
        == 0 {
        ParseOutcome::Malformed
    } else if text[le] == ')' {
        ParseOutcome::Valid(
            ArgsView {
                label: label_at(offset, text, 1, le),
                count: None,
                len: utf8_len(text.subrange(0, le + 1)),
            },
        )
    } else if ce >= text.len() {
        ParseOutcome::Malformed
    } else {
        let raw = text.subrange(le + 1, ce);
        let span = arg_span(offset, text, le + 1, ce);
        match parse_u16_spec(trimmed(raw)) {
            Some(n) => ParseOutcome::Valid(
                ArgsView {
                    label: label_at(offset, text, 1, le),
                    count: Some(ArgView { val: n, raw: raw, start: span.0, end: span.1 }),
                    len: utf8_len(text.subrange(0, ce + 1)),
                },
            ),
            None => ParseOutcome::InvalidCount { start: span.0, end: span.1 },
        }
    }
}

/// The argument list of a valid outcome lies within the text it was read
/// from, and the arguments lie within the argument list, in order.
pub proof fn lemma_parse_outcome_bounds(offset: nat, text: Seq<char>)
    ensures
        match parse_outcome(offset, text) {
            ParseOutcome::Valid(args) => {
                &&& args.len <= utf8_len(text)
                &&& offset < args.label.start < args.label.end < offset + args.len
                &&& match args.count {
                    Some(c) => args.label.end < c.start <= c.end < offset + args.len,
                    None => true,
                }
            },
            ParseOutcome::InvalidCount { start, end } => offset < start <= end < offset + utf8_len(
                text,
            ),
            ParseOutcome::Malformed => true,
        },
{
    let le = label_end(text);
    let ce = count_end(text);
    if text.len() == 0 || text[0] != '(' || le >= text.len() || trimmed(text.subrange(1, le)).len()
        == 0 {
    } else {
        lemma_scan_forward(text, 1, CharClass::Label);
        crate::text::lemma_trim_bounds(text.subrange(1, le));
        lemma_utf8_len_prefix(text, 0);
        lemma_utf8_len_prefix(text, 1);
        lemma_utf8_len_prefix(text, le);
        lemma_utf8_len_prefix(text, le + 1);
        lemma_utf8_len_increasing(text, 1, le);
        if text[le] != ')' {
            lemma_scan_forward(text, le + 1, CharClass::Count);
            if ce < text.len() {
                lemma_utf8_len_prefix(text, ce);
                lemma_utf8_len_prefix(text, ce + 1);
                lemma_utf8_len_increasing(text, le + 1, ce);
            }
        }
    }
}

/// A text that the label of an argument list can be: not only white
/// space, and without a comma or a closing parenthesis.
pub open spec fn is_label_text(label: Seq<char>) -> bool {
    &&& trimmed(label).len() > 0
    &&& forall|i: int| 0 <= i < label.len() ==> CharClass::Label.holds(#[trigger] label[i])
}

/// A text that the count of an argument list can be read from: without a
/// closing parenthesis.
pub open spec fn is_count_text(count: Seq<char>) -> bool {
    forall|i: int| 0 <= i < count.len() ==> CharClass::Count.holds(#[trigger] count[i])
}

/// The label text `label` between parentheses.
pub open spec fn label_only(label: Seq<char>) -> Seq<char> {
    seq!['('] + label + seq![')']
}

/// The label text `label` and the count text `count` between parentheses,
/// with a comma between them.
pub open spec fn label_and_count(label: Seq<char>, count: Seq<char>) -> Seq<char> {
    seq!['('] + label + seq![','] + count + seq![')']
}

/// A parenthesis or a comma takes one byte.
proof fn lemma_delimiter_bytes(c: char)
    requires
        c == '(' || c == ')' || c == ',',
    ensures
        utf8_len(seq![c]) == 1,
{
    crate::text::lemma_utf8_len_push(Seq::empty(), c);
    assert(Seq::<char>::empty().push(c) =~= seq![c]);
    crate::text::lemma_char_utf8_len_bounds(c);
    assert(vstd::utf8::encode_utf8(Seq::<char>::empty()) =~= Seq::<u8>::empty());
}

/// Where the label and the count of `label_and_count(label, count) + rest`
/// end, and how many bytes stand before each of them.
proof fn lemma_argument_list_shape(label: Seq<char>, count: Seq<char>, rest: Seq<char>)
    requires
        is_label_text(label),
        is_count_text(count),
    ensures
        ({
            let text = label_and_count(label, count) + rest;
            let l = label.len() as int;
            let c = count.len() as int;
            &&& label_end(text) == 1 + l
            &&& count_end(text) == 2 + l + c
            &&& text.subrange(1, 1 + l) == label
            &&& text.subrange(2 + l, 2 + l + c) == count
            &&& utf8_len(text.subrange(0, 1)) == 1
            &&& utf8_len(text.subrange(0, 1 + l)) == 1 + utf8_len(label)
            &&& utf8_len(text.subrange(0, 2 + l)) == 2 + utf8_len(label)
            &&& utf8_len(text.subrange(0, 2 + l + c)) == 2 + utf8_len(label) + utf8_len(count)
            &&& utf8_len(text.subrange(0, 3 + l + c)) == 3 + utf8_len(label) + utf8_len(count)
        }),
{
    let text = label_and_count(label, count) + rest;
    let l = label.len() as int;
    let c = count.len() as int;
    assert(text[0] == '(');
    assert(text[1 + l] == ',');
    assert(text[2 + l + c] == ')');
    assert forall|k: int| 1 <= k < 1 + l implies CharClass::Label.holds(#[trigger] text[k]) by {
        assert(text[k] == label[k - 1]);
    }
    crate::text::lemma_scan_forward_unique(text, 1, CharClass::Label, 1 + l);
    assert forall|k: int| 2 + l <= k < 2 + l + c implies CharClass::Count.holds(
        #[trigger] text[k],
    ) by {
        assert(text[k] == count[k - 2 - l]);
    }
    crate::text::lemma_scan_forward_unique(text, 2 + l, CharClass::Count, 2 + l + c);
    assert(text.subrange(1, 1 + l) =~= label);
    assert(text.subrange(2 + l, 2 + l + c) =~= count);
    lemma_delimiter_bytes('(');
    lemma_delimiter_bytes(',');
    lemma_delimiter_bytes(')');
    assert(text.subrange(0, 1) =~= seq!['(']);
    assert(text.subrange(0, 1 + l) =~= seq!['('] + label);
    crate::text::lemma_utf8_len_concat(seq!['('], label);
    assert(text.subrange(0, 2 + l) =~= seq!['('] + label + seq![',']);
    crate::text::lemma_utf8_len_concat(seq!['('] + label, seq![',']);
    assert(text.subrange(0, 2 + l + c) =~= seq!['('] + label + seq![','] + count);
    crate::text::lemma_utf8_len_concat(seq!['('] + label + seq![','], count);
    assert(text.subrange(0, 3 + l + c) =~= seq!['('] + label + seq![','] + count + seq![')']);
    crate::text::lemma_utf8_len_concat(seq!['('] + label + seq![','] + count, seq![')']);
}

/// Where the label of `label_only(label) + rest` ends, and how many bytes
/// stand before and after it.
proof fn lemma_label_only_shape(label: Seq<char>, rest: Seq<char>)
    requires
        is_label_text(label),
    ensures
        ({
            let text = label_only(label) + rest;
            let l = label.len() as int;
            &&& label_end(text) == 1 + l
            &&& text[1 + l] == ')'
            &&& text.subrange(1, 1 + l) == label
            &&& utf8_len(text.subrange(0, 1)) == 1
            &&& utf8_len(text.subrange(0, 1 + l)) == 1 + utf8_len(label)
            &&& utf8_len(text.subrange(0, 2 + l)) == 2 + utf8_len(label)
        }),
{
    let text = label_only(label) + rest;
    let l = label.len() as int;
    assert(text[0] == '(');
    assert(text[1 + l] == ')');
    assert forall|k: int| 1 <= k < 1 + l implies CharClass::Label.holds(#[trigger] text[k]) by {
        assert(text[k] == label[k - 1]);
    }
    crate::text::lemma_scan_forward_unique(text, 1, CharClass::Label, 1 + l);
    assert(text.subrange(1, 1 + l) =~= label);
    lemma_delimiter_bytes('(');
    lemma_delimiter_bytes(')');
    assert(text.subrange(0, 1) =~= seq!['(']);
    assert(text.subrange(0, 1 + l) =~= seq!['('] + label);
    crate::text::lemma_utf8_len_concat(seq!['('], label);
    assert(text.subrange(0, 2 + l) =~= seq!['('] + label + seq![')']);
    crate::text::lemma_utf8_len_concat(seq!['('] + label, seq![')']);
}

/// The label of an argument list, as it is read from the text `label` that
/// begins one byte after `offset`.
pub open spec fn label_read(offset: nat, label: Seq<char>) -> ArgView<Seq<char>> {
    ArgView {
        val: trimmed(label),
        raw: label,
        start: offset + 1,
        end: offset + 1 + utf8_len(label),
    }
}

/// A label between parentheses is read as that label and no count,
/// whatever follows the closing parenthesis: the value of the label is its
/// text without the white space around it, its span covers its text, and the
/// argument list is as long as the label and the two parentheses.
pub proof fn law_label_round_trip(offset: nat, label: Seq<char>, rest: Seq<char>)
    requires
        is_label_text(label),
    ensures
        parse_outcome(offset, label_only(label) + rest) == ParseOutcome::Valid(
            ArgsView { label: label_read(offset, label), count: None, len: utf8_len(label) + 2 },
        ),
{
    lemma_label_only_shape(label, rest);
}

/// A label and a count between parentheses are read as that label and that
/// count, whatever follows the closing parenthesis, provided that the text of
/// the count, trimmed, writes a 16-bit number: the value of the count is that
/// number, and its span covers its text.
pub proof fn law_count_round_trip(
    offset: nat,
    label: Seq<char>,
    count: Seq<char>,
    value: u16,
    rest: Seq<char>,
)
    requires
        is_label_text(label),
        is_count_text(count),
        parse_u16_spec(trimmed(count)) == Some(value),
    ensures
        parse_outcome(offset, label_and_count(label, count) + rest) == ParseOutcome::Valid(
            ArgsView {
                label: label_read(offset, label),
                count: Some(
                    ArgView {
                        val: value,
                        raw: count,
                        start: offset + 2 + utf8_len(label),
                        end: offset + 2 + utf8_len(label) + utf8_len(count),
                    },
                ),
                len: utf8_len(label) + utf8_len(count) + 3,
            },
        ),
{
    lemma_argument_list_shape(label, count, rest);
}

/// A label and a count written as a comma, a space and the digits of a
/// 16-bit number are read as that label and that number.
pub proof fn law_written_count_round_trip(offset: nat, label: Seq<char>, value: u16, rest: Seq<char>)
    requires
        is_label_text(label),
    ensures
        match parse_outcome(
            offset,
            label_and_count(label, seq![' '] + decimal_digits(value as nat)) + rest,
        ) {
            ParseOutcome::Valid(args) => {
                &&& args.label == label_read(offset, label)
                &&& args.count is Some
                &&& args.count->0.val == value
                &&& args.count->0.raw == seq![' '] + decimal_digits(value as nat)
            },
            _ => false,
        },
{
    let digits = decimal_digits(value as nat);
    let count = seq![' '] + digits;
    crate::text::lemma_decimal_digits(value as nat);
    crate::text::lemma_parse_decimal_digits(value);
    assert forall|i: int| 0 <= i < count.len() implies CharClass::Count.holds(
        #[trigger] count[i],
    ) by {
        if i > 0 {
            assert(count[i] == digits[i - 1]);
            assert(crate::text::is_digit(digits[i - 1]));
        }
    }
    assert(crate::text::is_digit(digits[0]));
    assert(crate::text::is_digit(digits.last()));
    crate::text::lemma_trimmed_padded(seq![' '], digits, Seq::empty());
    assert(seq![' '] + digits + Seq::<char>::empty() =~= count);
    law_count_round_trip(offset, label, count, value, rest);
}

/// A text that does not begin with an opening parenthesis, or that holds no
/// closing parenthesis, is malformed.
pub proof fn law_malformed(offset: nat, text: Seq<char>)
    requires
        text.len() == 0 || text[0] != '(' || !text.contains(')'),
    ensures
        parse_outcome(offset, text) == ParseOutcome::Malformed,
{
    if text.len() > 0 && text[0] == '(' {
        lemma_scan_forward(text, 1, CharClass::Label);
        let le = label_end(text);
        if le < text.len() {
            assert(text[le] != ')') by {
                if text[le] == ')' {
                    assert(text.contains(text[le]));
                }
            }
            lemma_scan_forward(text, le + 1, CharClass::Count);
            let ce = count_end(text);
            if ce < text.len() {
                assert(text[ce] == ')');
                assert(text.contains(text[ce]));
            }
        }
    }
}

/// A label of nothing but white space is malformed, whatever follows it.
pub proof fn law_blank_label_malformed(offset: nat, label: Seq<char>, rest: Seq<char>)
    requires
        forall|i: int| 0 <= i < label.len() ==> CharClass::Label.holds(#[trigger] label[i]),
        trimmed(label).len() == 0,
        rest.len() > 0 ==> rest[0] == ',' || rest[0] == ')',
    ensures
        parse_outcome(offset, seq!['('] + label + rest) == ParseOutcome::Malformed,
{
    let text = seq!['('] + label + rest;
    let l = label.len() as int;
    assert forall|k: int| 1 <= k < 1 + l implies CharClass::Label.holds(#[trigger] text[k]) by {
        assert(text[k] == label[k - 1]);
    }
    if rest.len() > 0 {
        assert(text[1 + l] == rest[0]);
    }
    crate::text::lemma_scan_forward_unique(text, 1, CharClass::Label, 1 + l);
    assert(text.subrange(1, 1 + l) =~= label);
}

/// A second argument that, trimmed, holds something else than digits is
/// reported as an invalid count, whatever follows the closing parenthesis,
/// and the span of the error covers exactly the text between the comma and
/// the closing parenthesis.
pub proof fn law_invalid_count(offset: nat, label: Seq<char>, count: Seq<char>, rest: Seq<char>)
    requires
        is_label_text(label),
        is_count_text(count),
        !crate::text::all_digits(trimmed(count)),
    ensures
        parse_outcome(offset, label_and_count(label, count) + rest) == (ParseOutcome::InvalidCount {
            start: offset + 2 + utf8_len(label),
            end: offset + 2 + utf8_len(label) + utf8_len(count),
        }),
{
    lemma_argument_list_shape(label, count, rest);
}

/// A second argument that, trimmed, is empty or writes a number above
/// 65535 is reported as an invalid count too.
pub proof fn law_count_out_of_range(offset: nat, label: Seq<char>, count: Seq<char>, rest: Seq<char>)
    requires
        is_label_text(label),
        is_count_text(count),
        trimmed(count).len() == 0 || (crate::text::all_digits(trimmed(count))
            && crate::text::decimal_value(trimmed(count)) > u16::MAX),
    ensures
        parse_outcome(offset, label_and_count(label, count) + rest) == (ParseOutcome::InvalidCount {
            start: offset + 2 + utf8_len(label),
            end: offset + 2 + utf8_len(label) + utf8_len(count),
        }),
{
    lemma_argument_list_shape(label, count, rest);
    let t = trimmed(count);
    if t.len() > 0 {
        assert(crate::text::is_digit(t[0]));
    }
}

} // verus!
