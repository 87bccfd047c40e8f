//! Reads the annotation of a line: finds the marker, then the argument
//! list that follows it.

use crate::args::{
    lemma_parse_outcome_bounds, outcome_of, parse_outcome, Arg, Args, ArgsError,
};
use crate::find_codesync_pattern;
use crate::kmp::{first_occurrence, occurs, occurs_at};
use crate::matches::{Match, MARKER_LEN};
use crate::text::{
    char_utf8_len, chars_of, lemma_bytes_of_char, lemma_char_bytes, lemma_char_utf8_len_bounds,
    lemma_scan_forward, lemma_utf8_len_concat, lemma_utf8_len_increasing,
    lemma_utf8_len_prefix, parse_u16, skip_forward, string_of, trim_bounds, trimmed, utf8_len,
    CharClass,
};
use crate::PATTERN;
use vstd::pervasive::unreached;
use vstd::prelude::*;
use vstd::slice::slice_subrange;
use vstd::string::{StrSliceExecFns, StringSliceAdditionalSpecFns};
use vstd::utf8::{encode_scalar, encode_utf8};

verus! {

/// The marker stands in `line` at character `at`.
pub open spec fn marker_at(line: Seq<char>, at: int) -> bool {
    &&& 0 <= at
    &&& at + MARKER_LEN <= line.len()
    &&& forall|k: int| 0 <= k < MARKER_LEN ==> (#[trigger] line[at + k]) as u32 == PATTERN@[k] as u32
}

/// The marker stands somewhere in `line`.
pub open spec fn has_marker(line: Seq<char>) -> bool {
    exists|at: int| marker_at(line, at)
}

/// `at` is the first character of `line` at which the marker stands.
pub open spec fn first_marker_at(line: Seq<char>, at: int) -> bool {
    &&& marker_at(line, at)
    &&& forall|j: int| 0 <= j < at ==> !marker_at(line, j)
}

/// The first character of `line` at which the marker stands, where it
/// stands anywhere.
pub open spec fn marker_index(line: Seq<char>) -> int {
    choose|at: int| first_marker_at(line, at)
}

/// The bytes of the marker are ASCII.
proof fn lemma_marker_ascii()
    ensures
        PATTERN@.len() == MARKER_LEN,
        forall|k: int| 0 <= k < MARKER_LEN ==> #[trigger] PATTERN@[k] < 0x80,
{
    assert(PATTERN@[0] == 67 && PATTERN@[1] == 79 && PATTERN@[2] == 68 && PATTERN@[3] == 69);
    assert(PATTERN@[4] == 83 && PATTERN@[5] == 89 && PATTERN@[6] == 78 && PATTERN@[7] == 67);
}

/// A character whose code is below 128 is the one byte of its code.
proof fn lemma_ascii_code(c: char, b: u8)
    requires
        b < 0x80,
        c as u32 == b as u32,
    ensures
        encode_scalar(c as u32) == seq![b],
        char_utf8_len(c) == 1,
{
    lemma_char_bytes(c);
}

/// A character whose first byte is below 128 has that byte as its code.
proof fn lemma_first_byte_code(c: char)
    requires
        encode_scalar(c as u32)[0] < 0x80,
    ensures
        c as u32 == encode_scalar(c as u32)[0] as u32,
        char_utf8_len(c) == 1,
{
    lemma_char_bytes(c);
    lemma_char_utf8_len_bounds(c);
}

/// The first `k` characters of the marker take `k` bytes.
proof fn lemma_marker_bytes(line: Seq<char>, at: int, k: int)
    requires
        marker_at(line, at),
        0 <= k <= MARKER_LEN,
    ensures
        utf8_len(line.subrange(0, at + k)) == utf8_len(line.subrange(0, at)) + k,
    decreases k,
{
    if k > 0 {
        lemma_marker_bytes(line, at, k - 1);
        lemma_utf8_len_prefix(line, at + k - 1);
        assert(line[at + (k - 1)] as u32 == PATTERN@[k - 1] as u32);
        lemma_marker_ascii();
        assert(PATTERN@[k - 1] < 0x80);
        lemma_ascii_code(line[at + k - 1], PATTERN@[k - 1]);
    }
}

/// Where the marker stands at a character of a line, its bytes stand in
/// the UTF-8 encoding of the line at the byte at which that character begins.
pub proof fn lemma_marker_to_bytes(line: Seq<char>, at: int)
    requires
        marker_at(line, at),
    ensures
        occurs_at(encode_utf8(line), PATTERN@, utf8_len(line.subrange(0, at)) as int),
{
    let bytes = encode_utf8(line);
    let start = utf8_len(line.subrange(0, at)) as int;
    lemma_marker_ascii();
    lemma_marker_bytes(line, at, MARKER_LEN as int);
    lemma_utf8_len_prefix(line, at + MARKER_LEN);
    assert forall|k: int| 0 <= k < PATTERN@.len() implies #[trigger] bytes[start + k] == PATTERN@[k] by {
        lemma_marker_bytes(line, at, k);
        assert(line[at + k] as u32 == PATTERN@[k] as u32);
        assert(PATTERN@[k] < 0x80);
        lemma_ascii_code(line[at + k], PATTERN@[k]);
        lemma_bytes_of_char(line, at + k);
        assert(bytes.subrange(start + k, start + k + 1)[0] == bytes[start + k]);
    }
}

/// The character of the first `n` of a line that begins at byte `at` of
/// the line's encoding, where the byte there is below 128: there is one,
/// and its code is that byte.
proof fn lemma_char_at_byte(line: Seq<char>, n: nat, at: int) -> (i: int)
    requires
        n <= line.len(),
        0 <= at < utf8_len(line.subrange(0, n as int)),
        at < encode_utf8(line).len(),
        encode_utf8(line)[at] < 0x80,
    ensures
        0 <= i < n,
        utf8_len(line.subrange(0, i)) == at,
        line[i] as u32 == encode_utf8(line)[at] as u32,
    decreases n,
{
    if n == 0 {
        assert(line.subrange(0, 0) =~= Seq::<char>::empty());
        0
    } else {
        let last = (n - 1) as int;
        let start = utf8_len(line.subrange(0, last)) as int;
        lemma_utf8_len_prefix(line, last);
        if at < start {
            lemma_char_at_byte(line, (n - 1) as nat, at)
        } else {
            let c = line[last];
            let bytes = encode_utf8(line);
            lemma_bytes_of_char(line, last);
            lemma_char_bytes(c);
            let own = bytes.subrange(start, start + char_utf8_len(c));
            assert(own[at - start] == bytes[at]);
            if at == start {
                lemma_first_byte_code(c);
            }
            last
        }
    }
}

/// Where the bytes of the marker stand in the encoding of a line at the
/// byte at which character `from` begins, the `k` characters from `from` on
/// are the first `k` of the marker.
proof fn lemma_bytes_to_marker(line: Seq<char>, from: int, k: int)
    requires
        0 <= from <= line.len(),
        occurs_at(encode_utf8(line), PATTERN@, utf8_len(line.subrange(0, from)) as int),
        0 <= k <= MARKER_LEN,
    ensures
        from + k <= line.len(),
        utf8_len(line.subrange(0, from + k)) == utf8_len(line.subrange(0, from)) + k,
        forall|j: int| 0 <= j < k ==> (#[trigger] line[from + j]) as u32 == PATTERN@[j] as u32,
    decreases k,
{
    if k > 0 {
        lemma_bytes_to_marker(line, from, k - 1);
        lemma_marker_ascii();
        let bytes = encode_utf8(line);
        let start = utf8_len(line.subrange(0, from)) as int;
        let i = from + k - 1;
        assert(line.subrange(0, line.len() as int) =~= line);
        assert(bytes[start + (k - 1)] == PATTERN@[k - 1]);
        assert(PATTERN@[k - 1] < 0x80);
        if i == line.len() {
            assert(false);
        }
        lemma_bytes_of_char(line, i);
        lemma_utf8_len_prefix(line, i);
        let c = line[i];
        let own = bytes.subrange(start + k - 1, start + k - 1 + char_utf8_len(c));
        lemma_char_utf8_len_bounds(c);
        assert(own[0] == bytes[start + k - 1]);
        lemma_first_byte_code(c);
        assert forall|j: int| 0 <= j < k implies (#[trigger] line[from + j]) as u32 == PATTERN@[j] as u32 by {
            if j == k - 1 {
                assert(line[from + j] == c);
            }
        }
    }
}

/// The marker stands at a character of a line exactly where its bytes
/// stand in the UTF-8 encoding of the line, and the first of the one is the
/// first of the other.
pub proof fn lemma_marker_in_bytes(line: Seq<char>)
    ensures
        has_marker(line) <==> occurs(encode_utf8(line), PATTERN@),
        has_marker(line) ==> first_marker_at(line, marker_index(line)) && first_occurrence(
            encode_utf8(line),
            PATTERN@,
            utf8_len(line.subrange(0, marker_index(line))) as int,
        ),
{
    let bytes = encode_utf8(line);
    if has_marker(line) {
        let at = choose|at: int| marker_at(line, at);
        lemma_marker_to_bytes(line, at);
    }
    if occurs(bytes, PATTERN@) {
        let some = choose|b: int| occurs_at(bytes, PATTERN@, b);
        let first = lemma_first_occurrence(bytes, some);
        let ci = lemma_first_marker(line, first);
        lemma_first_marker_unique(line, ci, marker_index(line));
    }
}

/// Among the bytes at or before an occurrence there is a first occurrence.
proof fn lemma_first_occurrence(bytes: Seq<u8>, at: int) -> (first: int)
    requires
        occurs_at(bytes, PATTERN@, at),
    ensures
        first_occurrence(bytes, PATTERN@, first),
        first <= at,
    decreases at,
{
    if exists|j: int| 0 <= j < at && occurs_at(bytes, PATTERN@, j) {
        let j = choose|j: int| 0 <= j < at && occurs_at(bytes, PATTERN@, j);
        lemma_first_occurrence(bytes, j)
    } else {
        at
    }
}

/// The character at which the marker first stands in a line, given the
/// byte at which it first stands in the line's encoding.
proof fn lemma_first_marker(line: Seq<char>, at: int) -> (ci: int)
    requires
        first_occurrence(encode_utf8(line), PATTERN@, at),
    ensures
        first_marker_at(line, ci),
        utf8_len(line.subrange(0, ci)) == at,
{
    let bytes = encode_utf8(line);
    lemma_marker_ascii();
    assert(line.subrange(0, line.len() as int) =~= line);
    assert(bytes[at + 0] == PATTERN@[0]);
    assert(PATTERN@[0] < 0x80);
    let ci = lemma_char_at_byte(line, line.len(), at);
    lemma_bytes_to_marker(line, ci, MARKER_LEN as int);
    assert(marker_at(line, ci));
    assert forall|j: int| 0 <= j < ci implies !marker_at(line, j) by {
        if marker_at(line, j) {
            lemma_marker_to_bytes(line, j);
            lemma_utf8_len_increasing(line, j, ci);
        }
    }
    ci
}

/// Only one character can be the first at which the marker stands.
proof fn lemma_first_marker_unique(line: Seq<char>, a: int, b: int)
    requires
        first_marker_at(line, a),
        first_marker_at(line, b),
    ensures
        a == b,
{
}

/// The number of bytes that the first `to` characters of `v` take in UTF-8.
pub fn prefix_bytes(v: &[char], to: usize) -> (n: usize)
    requires
        to <= v.len(),
        utf8_len(v@) <= usize::MAX,
    ensures
        n == utf8_len(v@.subrange(0, to as int)),
{
    let mut n: usize = 0;
    let mut i: usize = 0;
    assert(v@.subrange(0, 0) =~= Seq::<char>::empty());
    while i < to
        invariant
            i <= to <= v.len(),
            utf8_len(v@) <= usize::MAX,
            n == utf8_len(v@.subrange(0, i as int)),
        decreases to - i,
    {
        proof {
            lemma_utf8_len_prefix(v@, i as int);
            lemma_utf8_len_prefix(v@, i + 1);
        }
        n = n + v[i].len_utf8();
        i = i + 1;
    }
    n
}

/// The text at characters `from..to` of `s`, without the white space around it.
fn trimmed_text(s: &[char], from: usize, to: usize) -> (r: String)
    requires
        from <= to <= s.len(),
    ensures
        r@ == trimmed(s@.subrange(from as int, to as int)),
{
    let part = slice_subrange(s, from, to);
    let (a, z) = trim_bounds(part);
    string_of(part, a, z)
}

/// Reads annotations out of lines.
pub struct Matcher {}

impl Matcher {
    /// A reader of annotations.
    pub fn new() -> Matcher {
        Matcher {}
    }

    /// Reads the first annotation of `line`, a line that holds the marker
    /// and begins at byte `byte_offset` of its file.
    ///
    /// The match stands at the first occurrence of the marker, and its
    /// arguments are what `parse_args` reads from the text after the marker.
    pub fn parse_line(&self, byte_offset: usize, line: &str) -> (m: Match)
        requires
            occurs(line.spec_bytes(), PATTERN@),
            byte_offset + utf8_len(line@) <= usize::MAX,
        ensures
            first_marker_at(line@, marker_index(line@)),
            first_occurrence(
                line.spec_bytes(),
                PATTERN@,
                utf8_len(line@.subrange(0, marker_index(line@))) as int,
            ),
            m@.byte_offset == byte_offset + utf8_len(line@.subrange(0, marker_index(line@))),
            m@.outcome == parse_outcome(
                byte_offset as nat + utf8_len(line@.subrange(0, marker_index(line@) + MARKER_LEN)),
                line@.subrange(marker_index(line@) + MARKER_LEN, line@.len() as int),
            ),
    {
        let v = chars_of(line);
        let s = v.as_slice();
        let n = s.len();
        let ghost ci = marker_index(line@);
        proof {
            lemma_marker_in_bytes(line@);
            assert(line@.subrange(0, n as int) =~= line@);
        }
        let at = match find_codesync_pattern(line.as_bytes()) {
            Some(at) => at,
            None => unreached(),
        };
        let mut start: usize = 0;
        let mut before: usize = 0;
        while before < at
            invariant
                s@ == line@,
                n == s.len(),
                utf8_len(line@) <= usize::MAX,
                0 <= start <= ci < n,
                before == utf8_len(line@.subrange(0, start as int)),
                at == utf8_len(line@.subrange(0, ci)),
            decreases n - start,
        {
            proof {
                lemma_utf8_len_prefix(line@, start as int);
                lemma_utf8_len_prefix(line@, start + 1);
                if start < ci {
                    lemma_utf8_len_increasing(line@, start + 1, ci);
                }
            }
            before = before + s[start].len_utf8();
            start = start + 1;
        }
        let ghost rest = line@.subrange(ci + MARKER_LEN, n as int);
        proof {
            lemma_utf8_len_increasing(line@, start as int, ci);
            lemma_marker_bytes(line@, ci, MARKER_LEN as int);
            lemma_utf8_len_prefix(line@, ci + MARKER_LEN);
            lemma_utf8_len_concat(line@.subrange(0, ci + MARKER_LEN), rest);
            assert(line@.subrange(0, ci + MARKER_LEN) + rest =~= line@);
        }
        let after = before + MARKER_LEN;
        let text = string_of(s, start + MARKER_LEN, n);
        let args = self.parse_args(byte_offset + after, text.as_str());
        proof {
            lemma_parse_outcome_bounds((byte_offset + after) as nat, rest);
        }
        Match { args, byte_offset: byte_offset + before }
    }

    /// Reads the argument list at the beginning of `haystack`, the text
    /// that follows a marker and begins at byte `byte_offset` of its file.
    pub fn parse_args(&self, byte_offset: usize, haystack: &str) -> (r: Result<Args, ArgsError>)
        requires
            byte_offset + utf8_len(haystack@) <= usize::MAX,
        ensures
            outcome_of(r) == parse_outcome(byte_offset as nat, haystack@),
    {
        let v = chars_of(haystack);
        let s = v.as_slice();
        let n = s.len();
        if n == 0 || s[0] != '(' {
            return Err(ArgsError::Malformed);
        }
        let le = skip_forward(s, 1, CharClass::Label);
        if le >= n {
            return Err(ArgsError::Malformed);
        }
        let val = trimmed_text(s, 1, le);
        if val.as_str().unicode_len() == 0 {
            return Err(ArgsError::Malformed);
        }
        proof {
            lemma_utf8_len_prefix(s@, 1);
            lemma_utf8_len_prefix(s@, le as int);
            lemma_utf8_len_prefix(s@, le + 1);
            lemma_scan_forward(s@, 1, CharClass::Label);
        }
        let label = Arg {
            val,
            match_: string_of(s, 1, le),
            span: (byte_offset + prefix_bytes(s, 1))..(byte_offset + prefix_bytes(s, le)),
        };
        if s[le] == ')' {
            let len = prefix_bytes(s, le + 1);
            return Ok(Args { label, count: None, len });
        }
        let ce = skip_forward(s, le + 1, CharClass::Count);
        if ce >= n {
            return Err(ArgsError::Malformed);
        }
        proof {
            lemma_utf8_len_prefix(s@, ce as int);
            lemma_utf8_len_prefix(s@, ce + 1);
        }
        let start = byte_offset + prefix_bytes(s, le + 1);
        let end = byte_offset + prefix_bytes(s, ce);
        let part = slice_subrange(s, le + 1, ce);
        let (a, z) = trim_bounds(part);
        proof {
            assert(part@.subrange(a as int, z as int) == trimmed(part@));
        }
        match parse_u16(part, a, z) {
            Some(val) => {
                let count = Arg { val, match_: string_of(s, le + 1, ce), span: start..end };
                let len = prefix_bytes(s, ce + 1);
                Ok(Args { label, count: Some(count), len })
            },
            None => Err(ArgsError::InvalidCount { start, end }),
        }
    }
}

} // verus!
