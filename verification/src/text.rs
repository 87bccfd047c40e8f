//! Characters and strings as the rest of the library sees them: character
//! classes, ASCII case mapping, UTF-8 lengths, trimming and decimal numbers.

use vstd::prelude::*;
use vstd::utf8::{encode_scalar, encode_utf8};

verus! {

/// `c` is one of the 128 ASCII characters.
pub open spec fn is_ascii_char(c: char) -> bool {
    c <= '\x7f'
}

/// `c` is an ASCII letter `a` to `z`.
pub open spec fn ascii_lowercase(c: char) -> bool {
    'a' <= c <= 'z'
}

/// `c` is an ASCII letter `A` to `Z`.
pub open spec fn ascii_uppercase(c: char) -> bool {
    'A' <= c <= 'Z'
}

/// `c` is an ASCII digit.
pub open spec fn is_digit(c: char) -> bool {
    '0' <= c <= '9'
}

/// `c` is an ASCII letter or digit.
pub open spec fn ascii_alphanumeric(c: char) -> bool {
    ascii_lowercase(c) || ascii_uppercase(c) || is_digit(c)
}

/// `c` is a space or one of the ASCII control characters tab, line feed,
/// vertical tab, form feed and carriage return.
pub open spec fn ascii_whitespace(c: char) -> bool {
    c == ' ' || '\x09' <= c <= '\x0d'
}

/// What `char::is_alphanumeric` answers for `c`.
pub uninterp spec fn unicode_alphanumeric(c: char) -> bool;

/// What `char::is_lowercase` answers for `c`.
pub uninterp spec fn unicode_lowercase(c: char) -> bool;

/// What `char::is_uppercase` answers for `c`.
pub uninterp spec fn unicode_uppercase(c: char) -> bool;

/// What `char::is_whitespace` answers for `c`.
pub uninterp spec fn unicode_whitespace(c: char) -> bool;

/// `c` is a letter or a number: by the ASCII classes for an ASCII
/// character, by the Unicode tables of the standard library for any other.
pub open spec fn alphanumeric(c: char) -> bool {
    if is_ascii_char(c) {
        ascii_alphanumeric(c)
    } else {
        unicode_alphanumeric(c)
    }
}

/// `c` is a lowercase letter, ASCII or not.
pub open spec fn lowercase(c: char) -> bool {
    if is_ascii_char(c) {
        ascii_lowercase(c)
    } else {
        unicode_lowercase(c)
    }
}

/// `c` is an uppercase letter, ASCII or not.
pub open spec fn uppercase(c: char) -> bool {
    if is_ascii_char(c) {
        ascii_uppercase(c)
    } else {
        unicode_uppercase(c)
    }
}

/// `c` is white space, ASCII or not.
pub open spec fn whitespace(c: char) -> bool {
    if is_ascii_char(c) {
        ascii_whitespace(c)
    } else {
        unicode_whitespace(c)
    }
}

/// `char::is_alphanumeric` of the standard library. Its answer depends on
/// the character alone; for an ASCII character it is true exactly of the
/// letters and digits.
pub assume_specification[ char::is_alphanumeric ](c: char) -> (b: bool)
    ensures
        b == unicode_alphanumeric(c),
        is_ascii_char(c) ==> b == ascii_alphanumeric(c),
;

/// `char::is_lowercase` of the standard library. Its answer depends on the
/// character alone; for an ASCII character it is true exactly of `a` to `z`.
pub assume_specification[ char::is_lowercase ](c: char) -> (b: bool)
    ensures
        b == unicode_lowercase(c),
        is_ascii_char(c) ==> b == ascii_lowercase(c),
;

/// `char::is_uppercase` of the standard library. Its answer depends on the
/// character alone; for an ASCII character it is true exactly of `A` to `Z`.
pub assume_specification[ char::is_uppercase ](c: char) -> (b: bool)
    ensures
        b == unicode_uppercase(c),
        is_ascii_char(c) ==> b == ascii_uppercase(c),
;

/// `char::is_whitespace` of the standard library. Its answer depends on the
/// character alone; for an ASCII character it is true exactly of the space
/// and of U+0009 to U+000D.
pub assume_specification[ char::is_whitespace ](c: char) -> (b: bool)
    ensures
        b == unicode_whitespace(c),
        is_ascii_char(c) ==> b == ascii_whitespace(c),
;

/// The ASCII letters `A` to `Z` mapped to `a` to `z`; any other character unchanged.
pub open spec fn to_ascii_lower(c: char) -> char {
    if ascii_uppercase(c) {
        ((c as u32) + 32) as char
    } else {
        c
    }
}

/// The ASCII letters `a` to `z` mapped to `A` to `Z`; any other character unchanged.
pub open spec fn to_ascii_upper(c: char) -> char {
    if ascii_lowercase(c) {
        ((c as u32) - 32) as char
    } else {
        c
    }
}

/// `char::to_ascii_lowercase` of the standard library: `A` to `Z` become
/// `a` to `z`, every other character is returned as it is.
pub assume_specification[ char::to_ascii_lowercase ](c: &char) -> (r: char)
    ensures
        r == to_ascii_lower(*c),
;

/// `char::to_ascii_uppercase` of the standard library: `a` to `z` become
/// `A` to `Z`, every other character is returned as it is.
pub assume_specification[ char::to_ascii_uppercase ](c: &char) -> (r: char)
    ensures
        r == to_ascii_upper(*c),
;

/// `char::len_utf8` of the standard library: the number of bytes of the
/// character's UTF-8 encoding.
pub assume_specification[ char::len_utf8 ](c: char) -> (n: usize)
    ensures
        n == encode_scalar(c as u32).len(),
;

/// `String::push` of the standard library appends one character.
pub assume_specification[ String::push ](s: &mut String, c: char)
    ensures
        final(s)@ == old(s)@.push(c),
;

/// Equality of two string slices, as `==` of the standard library decides
/// it: they hold the same characters.
pub assume_specification[ <str as PartialEq>::eq ](a: &str, b: &str) -> (r: bool)
    ensures
        r == (a@ == b@),
;

/// The number of bytes of `s` in UTF-8.
pub open spec fn utf8_len(s: Seq<char>) -> nat {
    encode_utf8(s).len()
}

/// The number of bytes of one character in UTF-8: between one and four.
pub open spec fn char_utf8_len(c: char) -> nat {
    encode_scalar(c as u32).len()
}

/// A character takes between one and four bytes, and an ASCII character one.
pub proof fn lemma_char_utf8_len_bounds(c: char)
    ensures
        1 <= char_utf8_len(c) <= 4,
        is_ascii_char(c) ==> char_utf8_len(c) == 1,
{
}

/// The encoding of a sequence followed by one more character is the
/// encoding of the sequence followed by that of the character.
pub proof fn lemma_utf8_len_push(s: Seq<char>, c: char)
    ensures
        utf8_len(s.push(c)) == utf8_len(s) + char_utf8_len(c),
    decreases s.len(),
{
    if s.len() == 0 {
        assert(s.push(c).drop_first() =~= s);
        assert(encode_utf8(s) =~= seq![]);
    } else {
        assert(s.push(c).drop_first() =~= s.drop_first().push(c));
        lemma_utf8_len_push(s.drop_first(), c);
    }
}

/// The length of a concatenation is the sum of the lengths.
pub proof fn lemma_utf8_len_concat(a: Seq<char>, b: Seq<char>)
    ensures
        utf8_len(a + b) == utf8_len(a) + utf8_len(b),
    decreases b.len(),
{
    if b.len() == 0 {
        assert(a + b =~= a);
    } else {
        lemma_utf8_len_concat(a, b.drop_last());
        assert(a + b =~= (a + b.drop_last()).push(b.last()));
        lemma_utf8_len_push(a + b.drop_last(), b.last());
        assert(b =~= b.drop_last().push(b.last()));
        lemma_utf8_len_push(b.drop_last(), b.last());
    }
}

/// The encoding of a concatenation is the concatenation of the encodings.
pub proof fn lemma_encode_concat(a: Seq<char>, b: Seq<char>)
    ensures
        encode_utf8(a + b) == encode_utf8(a) + encode_utf8(b),
    decreases a.len(),
{
    if a.len() == 0 {
        assert(a + b =~= b);
        assert(encode_utf8(a) + encode_utf8(b) =~= encode_utf8(b));
    } else {
        assert((a + b).drop_first() =~= a.drop_first() + b);
        lemma_encode_concat(a.drop_first(), b);
        assert(encode_utf8(a + b) =~= encode_utf8(a) + encode_utf8(b));
    }
}

/// The encoding of a text of one character is the encoding of the character.
pub proof fn lemma_encode_one(c: char)
    ensures
        encode_utf8(seq![c]) == encode_scalar(c as u32),
{
    let one = seq![c];
    assert(one.drop_first() =~= Seq::<char>::empty());
    assert(encode_utf8(one.drop_first()) =~= Seq::<u8>::empty());
    assert(encode_utf8(one) =~= encode_scalar(one[0] as u32) + encode_utf8(one.drop_first()));
    assert(encode_utf8(one) =~= encode_scalar(c as u32));
}

/// The bytes of one character: an ASCII character is the one byte of its
/// code, and every byte of any other character is 128 or more.
pub proof fn lemma_char_bytes(c: char)
    ensures
        is_ascii_char(c) ==> encode_scalar(c as u32) == seq![c as u8],
        !is_ascii_char(c) ==> forall|j: int|
            0 <= j < encode_scalar(c as u32).len() ==> #[trigger] encode_scalar(c as u32)[j]
                >= 0x80,
{
    let one = seq![c];
    lemma_encode_one(c);
    if is_ascii_char(c) {
        vstd::utf8::is_ascii_chars_encode_utf8(one);
        assert(encode_utf8(one)[0] == one[0] as u8);
        assert(encode_scalar(c as u32) =~= seq![c as u8]);
    } else {
        vstd::utf8::encode_utf8_first_scalar(one);
    }
}

/// The bytes of character `i` of `s` stand in the encoding of `s` after
/// the bytes of the characters before it.
pub proof fn lemma_bytes_of_char(s: Seq<char>, i: int)
    requires
        0 <= i < s.len(),
    ensures
        utf8_len(s.subrange(0, i)) + char_utf8_len(s[i]) <= utf8_len(s),
        encode_utf8(s).subrange(
            utf8_len(s.subrange(0, i)) as int,
            (utf8_len(s.subrange(0, i)) + char_utf8_len(s[i])) as int,
        ) == encode_scalar(s[i] as u32),
{
    let before = s.subrange(0, i);
    let after = s.subrange(i + 1, s.len() as int);
    let one = seq![s[i]];
    assert(s =~= before + one + after);
    lemma_encode_concat(before + one, after);
    lemma_encode_concat(before, one);
    lemma_encode_one(s[i]);
    assert(encode_utf8(s).subrange(
        utf8_len(before) as int,
        (utf8_len(before) + char_utf8_len(s[i])) as int,
    ) =~= encode_scalar(s[i] as u32));
}

/// A prefix is no longer than the whole, and one character longer adds that character's bytes.
pub proof fn lemma_utf8_len_prefix(s: Seq<char>, i: int)
    requires
        0 <= i <= s.len(),
    ensures
        utf8_len(s.subrange(0, i)) <= utf8_len(s),
        i < s.len() ==> utf8_len(s.subrange(0, i + 1)) == utf8_len(s.subrange(0, i)) + char_utf8_len(
            s[i],
        ),
        i <= utf8_len(s.subrange(0, i)),
    decreases i,
{
    lemma_utf8_len_concat(s.subrange(0, i), s.subrange(i, s.len() as int));
    assert(s.subrange(0, i) + s.subrange(i, s.len() as int) =~= s);
    if i < s.len() {
        assert(s.subrange(0, i + 1) =~= s.subrange(0, i).push(s[i]));
        lemma_utf8_len_push(s.subrange(0, i), s[i]);
    }
    if i > 0 {
        lemma_utf8_len_prefix(s, i - 1);
        lemma_char_utf8_len_bounds(s[i - 1]);
    } else {
        assert(s.subrange(0, 0) =~= Seq::<char>::empty());
    }
}

/// A longer prefix takes at least as many bytes more as it has characters more.
pub proof fn lemma_utf8_len_increasing(s: Seq<char>, i: int, j: int)
    requires
        0 <= i <= j <= s.len(),
    ensures
        utf8_len(s.subrange(0, i)) + (j - i) <= utf8_len(s.subrange(0, j)),
    decreases j - i,
{
    if i < j {
        lemma_utf8_len_increasing(s, i, j - 1);
        lemma_utf8_len_prefix(s, j - 1);
        lemma_char_utf8_len_bounds(s[j - 1]);
    }
}

/// The characters of `s`, one by one.
pub fn chars_of(s: &str) -> (v: Vec<char>)
    ensures
        v@ == s@,
{
    let mut v: Vec<char> = Vec::new();
    for c in it: s.chars()
        invariant
            it.seq() == s@,
            v@ == s@.subrange(0, it.index() as int),
    {
        v.push(c);
        assert(s@.subrange(0, it.index() + 1) =~= s@.subrange(0, it.index() as int).push(c));
    }
    assert(s@.subrange(0, s@.len() as int) =~= s@);
    v
}

/// The string made of the characters `v[from..to]`.
pub fn string_of(v: &[char], from: usize, to: usize) -> (s: String)
    requires
        from <= to <= v.len(),
    ensures
        s@ == v@.subrange(from as int, to as int),
{
    let mut s = String::new();
    let mut i: usize = from;
    while i < to
        invariant
            from <= i <= to <= v.len(),
            s@ == v@.subrange(from as int, i as int),
        decreases to - i,
    {
        s.push(v[i]);
        assert(v@.subrange(from as int, i + 1) =~= v@.subrange(from as int, i as int).push(v@[i as int]));
        i = i + 1;
    }
    s
}

/// A class of characters that a scan runs over.
#[derive(Clone, Copy, Debug)]
pub enum CharClass {
    /// White space.
    Whitespace,
    /// Anything that is neither a letter nor a number.
    Separator,
    /// Anything but a comma and a closing parenthesis.
    Label,
    /// Anything but a closing parenthesis.
    Count,
}

impl CharClass {
    /// `c` belongs to the class.
    pub open spec fn holds(self, c: char) -> bool {
        match self {
            CharClass::Whitespace => whitespace(c),
            CharClass::Separator => !alphanumeric(c),
            CharClass::Label => c != ',' && c != ')',
            CharClass::Count => c != ')',
        }
    }

    /// Tests whether `c` belongs to the class.
    pub fn test(&self, c: char) -> (b: bool)
        ensures
            b == self.holds(c),
    {
        match self {
            CharClass::Whitespace => c.is_whitespace(),
            CharClass::Separator => !c.is_alphanumeric(),
            CharClass::Label => c != ',' && c != ')',
            CharClass::Count => c != ')',
        }
    }
}

/// Where a scan that starts at `from` and runs forward over the characters
/// of `class` stops: at the first character at or after `from` that is not in
/// the class, or at the end of `s`.
pub open spec fn scan_forward(s: Seq<char>, from: int, class: CharClass) -> int
    decreases s.len() - from,
{
    if 0 <= from < s.len() && class.holds(s[from]) {
        scan_forward(s, from + 1, class)
    } else {
        from
    }
}

/// Where a scan that starts at `to` and runs backward over the characters of
/// `class` stops, never going below `low`: just after the last character
/// before `to` that is not in the class.
pub open spec fn scan_backward(s: Seq<char>, to: int, low: int, class: CharClass) -> int
    decreases to,
{
    if 0 <= low < to <= s.len() && class.holds(s[to - 1]) {
        scan_backward(s, to - 1, low, class)
    } else {
        to
    }
}

/// What `scan_forward` returns: everything between `from` and the result is
/// in the class, and the character at the result, if there is one, is not.
pub proof fn lemma_scan_forward(s: Seq<char>, from: int, class: CharClass)
    requires
        0 <= from <= s.len(),
    ensures
        from <= scan_forward(s, from, class) <= s.len(),
        forall|k: int| from <= k < scan_forward(s, from, class) ==> class.holds(#[trigger] s[k]),
        scan_forward(s, from, class) < s.len() ==> !class.holds(s[scan_forward(s, from, class)]),
    decreases s.len() - from,
{
    if from < s.len() && class.holds(s[from]) {
        lemma_scan_forward(s, from + 1, class);
    }
}

/// A position that has the two properties of `lemma_scan_forward` is the
/// result of the scan.
pub proof fn lemma_scan_forward_unique(s: Seq<char>, from: int, class: CharClass, at: int)
    requires
        0 <= from <= at <= s.len(),
        forall|k: int| from <= k < at ==> class.holds(#[trigger] s[k]),
        at < s.len() ==> !class.holds(s[at]),
    ensures
        scan_forward(s, from, class) == at,
    decreases at - from,
{
    if from < at {
        assert(class.holds(s[from]));
        lemma_scan_forward_unique(s, from + 1, class, at);
    }
}

/// What `scan_backward` returns: everything between the result and `to` is
/// in the class, and the character before the result, if the scan did not
/// stop at `low`, is not.
pub proof fn lemma_scan_backward(s: Seq<char>, to: int, low: int, class: CharClass)
    requires
        0 <= low <= to <= s.len(),
    ensures
        low <= scan_backward(s, to, low, class) <= to,
        forall|k: int| scan_backward(s, to, low, class) <= k < to ==> class.holds(#[trigger] s[k]),
        low < scan_backward(s, to, low, class) ==> !class.holds(
            s[scan_backward(s, to, low, class) - 1],
        ),
    decreases to,
{
    if low < to && class.holds(s[to - 1]) {
        lemma_scan_backward(s, to - 1, low, class);
    }
}

/// A position that has the properties of `lemma_scan_backward` is the
/// result of the scan.
pub proof fn lemma_scan_backward_unique(s: Seq<char>, to: int, low: int, class: CharClass, at: int)
    requires
        0 <= low <= at <= to <= s.len(),
        forall|k: int| at <= k < to ==> class.holds(#[trigger] s[k]),
        low < at ==> !class.holds(s[at - 1]),
    ensures
        scan_backward(s, to, low, class) == at,
    decreases to - at,
{
    if at < to {
        assert(class.holds(s[to - 1]));
        lemma_scan_backward_unique(s, to - 1, low, class, at);
    }
}

/// Runs forward from `from` over the characters of `class`.
pub fn skip_forward(v: &[char], from: usize, class: CharClass) -> (r: usize)
    requires
        from <= v.len(),
    ensures
        r == scan_forward(v@, from as int, class),
        from <= r <= v.len(),
{
    let mut i: usize = from;
    while i < v.len() && class.test(v[i])
        invariant
            from <= i <= v.len(),
            scan_forward(v@, from as int, class) == scan_forward(v@, i as int, class),
        decreases v.len() - i,
    {
        i = i + 1;
    }
    i
}

/// Runs backward from `to` over the characters of `class`, down to `low` at most.
pub fn skip_backward(v: &[char], to: usize, low: usize, class: CharClass) -> (r: usize)
    requires
        low <= to <= v.len(),
    ensures
        r == scan_backward(v@, to as int, low as int, class),
        low <= r <= to,
{
    let mut i: usize = to;
    while i > low && class.test(v[i - 1])
        invariant
            low <= i <= to <= v.len(),
            scan_backward(v@, to as int, low as int, class) == scan_backward(
                v@,
                i as int,
                low as int,
                class,
            ),
        decreases i,
    {
        i = i - 1;
    }
    i
}

/// Where the text of `s` begins once leading white space is dropped.
pub open spec fn trim_start_index(s: Seq<char>) -> int {
    scan_forward(s, 0, CharClass::Whitespace)
}

/// Where the text of `s` ends once trailing white space is dropped.
pub open spec fn trim_end_index(s: Seq<char>) -> int {
    scan_backward(s, s.len() as int, trim_start_index(s), CharClass::Whitespace)
}

/// `s` without its leading and trailing white space.
pub open spec fn trimmed(s: Seq<char>) -> Seq<char> {
    s.subrange(trim_start_index(s), trim_end_index(s))
}

/// The bounds of the trimmed text are in order and within `s`.
pub proof fn lemma_trim_bounds(s: Seq<char>)
    ensures
        0 <= trim_start_index(s) <= trim_end_index(s) <= s.len(),
{
    lemma_scan_forward(s, 0, CharClass::Whitespace);
    lemma_scan_backward(s, s.len() as int, trim_start_index(s), CharClass::Whitespace);
}

/// Trimming changes `s` exactly when `s` begins or ends with white space.
pub proof fn lemma_trimmed_differs(s: Seq<char>)
    ensures
        (trimmed(s) != s) <==> (s.len() > 0 && (whitespace(s[0]) || whitespace(s.last()))),
        (trimmed(s) != s) <==> (trim_start_index(s) != 0 || trim_end_index(s) != s.len()),
{
    lemma_trim_bounds(s);
    lemma_scan_forward(s, 0, CharClass::Whitespace);
    lemma_scan_backward(s, s.len() as int, trim_start_index(s), CharClass::Whitespace);
    let a = trim_start_index(s);
    let b = trim_end_index(s);
    if a == 0 && b == s.len() {
        assert(trimmed(s) =~= s);
    } else {
        assert(trimmed(s).len() < s.len());
        if a > 0 {
            assert(CharClass::Whitespace.holds(s[0]));
        } else {
            assert(CharClass::Whitespace.holds(s[s.len() - 1]));
        }
    }
}

/// The bounds of `v` without its leading and trailing white space.
pub fn trim_bounds(v: &[char]) -> (r: (usize, usize))
    ensures
        r.0 == trim_start_index(v@),
        r.1 == trim_end_index(v@),
        r.0 <= r.1 <= v.len(),
{
    let a = skip_forward(v, 0, CharClass::Whitespace);
    let b = skip_backward(v, v.len(), a, CharClass::Whitespace);
    (a, b)
}

/// The value of the ASCII digit `c`.
pub open spec fn digit_value(c: char) -> nat
    recommends
        is_digit(c),
{
    (c as u32 - '0' as u32) as nat
}

/// The digit that writes `d`.
pub open spec fn digit_char(d: nat) -> char
    recommends
        d < 10,
{
    (d + '0' as u32) as char
}

/// Every character of `s` is an ASCII digit.
pub open spec fn all_digits(s: Seq<char>) -> bool {
    forall|i: int| 0 <= i < s.len() ==> is_digit(#[trigger] s[i])
}

/// The number that the digits of `s` write in base ten.
pub open spec fn decimal_value(s: Seq<char>) -> nat
    decreases s.len(),
{
    if s.len() == 0 {
        0
    } else {
        10 * decimal_value(s.drop_last()) + digit_value(s.last())
    }
}

/// The 16-bit unsigned number that `s` writes, if it writes one: one or
/// more ASCII digits whose value is at most 65535. Anything else, the empty
/// string and a number with a sign included, writes no number.
pub open spec fn parse_u16_spec(s: Seq<char>) -> Option<u16> {
    if s.len() > 0 && all_digits(s) && decimal_value(s) <= u16::MAX {
        Some(decimal_value(s) as u16)
    } else {
        None
    }
}

/// A number is at least the number that any prefix of its digits writes.
pub proof fn lemma_decimal_value_prefix(s: Seq<char>, i: int)
    requires
        0 <= i <= s.len(),
    ensures
        decimal_value(s.subrange(0, i)) <= decimal_value(s),
    decreases s.len() - i,
{
    if i == s.len() {
        assert(s.subrange(0, i) =~= s);
    } else {
        lemma_decimal_value_prefix(s.drop_last(), i);
        assert(s.drop_last().subrange(0, i) =~= s.subrange(0, i));
    }
}

/// Reads `v[from..to]` as a 16-bit unsigned number in base ten.
pub fn parse_u16(v: &[char], from: usize, to: usize) -> (r: Option<u16>)
    requires
        from <= to <= v.len(),
    ensures
        r == parse_u16_spec(v@.subrange(from as int, to as int)),
{
    let start: usize = from;
    let ghost digits = v@.subrange(from as int, to as int);
    if start == to {
        return None;
    }
    let mut acc: u32 = 0;
    let mut i: usize = start;
    while i < to
        invariant
            from <= start <= i <= to <= v.len(),
            start == from,
            digits == v@.subrange(from as int, to as int),
            all_digits(digits.subrange(0, i - start)),
            acc == decimal_value(digits.subrange(0, i - start)),
            acc <= u16::MAX,
        decreases to - i,
    {
        let c = v[i];
        if !(c >= '0' && c <= '9') {
            proof {
                assert(digits[i - start] == c);
                assert(!all_digits(digits));
            }
            return None;
        }
        let d: u32 = (c as u32) - ('0' as u32);
        let next: u32 = acc * 10 + d;
        proof {
            let p = digits.subrange(0, i - start + 1);
            assert(p.drop_last() =~= digits.subrange(0, i - start));
            assert(p.last() == c);
            assert(decimal_value(p) == next);
            assert forall|k: int| 0 <= k < p.len() implies is_digit(#[trigger] p[k]) by {
                if k < p.len() - 1 {
                    assert(digits.subrange(0, i - start)[k] == p[k]);
                }
            }
        }
        if next > 65535 {
            proof {
                lemma_decimal_value_prefix(digits, i - start + 1);
            }
            return None;
        }
        acc = next;
        i = i + 1;
    }
    assert(digits.subrange(0, to - start) =~= digits);
    Some(acc as u16)
}

/// The digits that write `n` in base ten, without leading zeros; `0` for zero.
pub open spec fn decimal_digits(n: nat) -> Seq<char>
    decreases n,
{
    if n < 10 {
        seq![digit_char(n)]
    } else {
        decimal_digits(n / 10).push(digit_char(n % 10))
    }
}

/// The digit that writes a number below ten is a digit with that value.
pub proof fn lemma_digit_char(d: nat)
    requires
        d < 10,
    ensures
        is_digit(digit_char(d)),
        digit_value(digit_char(d)) == d,
        !whitespace(digit_char(d)),
{
}

/// The digits that write `n` are digits, they are not empty, and the
/// number that they write is `n`.
pub proof fn lemma_decimal_digits(n: nat)
    ensures
        decimal_digits(n).len() > 0,
        all_digits(decimal_digits(n)),
        decimal_value(decimal_digits(n)) == n,
    decreases n,
{
    if n < 10 {
        lemma_digit_char(n);
        let s = seq![digit_char(n)];
        assert(s.drop_last() =~= Seq::<char>::empty());
        assert(decimal_value(s.drop_last()) == 0);
        assert(s.last() == digit_char(n));
    } else {
        lemma_decimal_digits(n / 10);
        lemma_digit_char(n % 10);
        let before = decimal_digits(n / 10);
        let s = before.push(digit_char(n % 10));
        assert(s.drop_last() =~= before);
        assert(s.last() == digit_char(n % 10));
        assert forall|i: int| 0 <= i < s.len() implies is_digit(#[trigger] s[i]) by {
            if i < before.len() {
                assert(s[i] == before[i]);
            }
        }
    }
}

/// The digits of a 16-bit number are read back as that number.
pub proof fn lemma_parse_decimal_digits(n: u16)
    ensures
        parse_u16_spec(decimal_digits(n as nat)) == Some(n),
{
    lemma_decimal_digits(n as nat);
    let s = decimal_digits(n as nat);
    assert(is_digit(s[0]));
}

/// White space before and after a text that neither begins nor ends with
/// white space is what trimming drops.
pub proof fn lemma_trimmed_padded(before: Seq<char>, s: Seq<char>, after: Seq<char>)
    requires
        s.len() > 0,
        !whitespace(s[0]),
        !whitespace(s.last()),
        forall|i: int| 0 <= i < before.len() ==> whitespace(#[trigger] before[i]),
        forall|i: int| 0 <= i < after.len() ==> whitespace(#[trigger] after[i]),
    ensures
        trimmed(before + s + after) == s,
{
    let t = before + s + after;
    let a = before.len() as int;
    let z = a + s.len();
    assert forall|k: int| 0 <= k < a implies CharClass::Whitespace.holds(#[trigger] t[k]) by {
        assert(t[k] == before[k]);
    }
    assert(t[a] == s[0]);
    lemma_scan_forward_unique(t, 0, CharClass::Whitespace, a);
    assert forall|k: int| z <= k < t.len() implies CharClass::Whitespace.holds(#[trigger] t[k]) by {
        assert(t[k] == after[k - z]);
    }
    assert(t[z - 1] == s.last());
    lemma_scan_backward_unique(t, t.len() as int, a, CharClass::Whitespace, z);
    assert(t.subrange(a, z) =~= s);
}

/// Writes `n` in base ten.
pub fn decimal_string(n: usize) -> (s: String)
    ensures
        s@ == decimal_digits(n as nat),
{
    let mut rev: Vec<char> = Vec::new();
    let mut rest: usize = n;
    while rest >= 10
        invariant
            decimal_digits(n as nat) == decimal_digits(rest as nat) + rev@.reverse(),
        decreases rest,
    {
        let d: u8 = (rest % 10) as u8;
        let c: char = (d + 48u8) as char;
        proof {
            assert(c == digit_char((rest % 10) as nat));
            assert(decimal_digits(rest as nat) == decimal_digits((rest / 10) as nat).push(c));
            assert(rev@.push(c).reverse() =~= seq![c] + rev@.reverse());
            assert(decimal_digits((rest / 10) as nat).push(c) + rev@.reverse() =~= decimal_digits(
                (rest / 10) as nat,
            ) + (seq![c] + rev@.reverse()));
        }
        rev.push(c);
        rest = rest / 10;
    }
    let c: char = ((rest as u8) + 48u8) as char;
    proof {
        assert(c == digit_char(rest as nat));
        assert(rev@.push(c).reverse() =~= seq![c] + rev@.reverse());
    }
    rev.push(c);
    let mut s = String::new();
    let mut i: usize = rev.len();
    while i > 0
        invariant
            i <= rev.len(),
            s@ == rev@.reverse().subrange(0, rev.len() - i),
        decreases i,
    {
        i = i - 1;
        s.push(rev[i]);
        assert(rev@.reverse().subrange(0, rev.len() - i) =~= rev@.reverse().subrange(
            0,
            rev.len() - i - 1,
        ).push(rev@[i as int]));
    }
    assert(rev@.reverse().subrange(0, rev.len() as int) =~= rev@.reverse());
    s
}

/// Whether two strings hold the same characters.
pub fn same_text(a: &str, b: &str) -> (r: bool)
    ensures
        r == (a@ == b@),
{
    a.eq(b)
}

} // verus!
