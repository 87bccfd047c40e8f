//! When converting a text twice gives what converting it once gives.
//!
//! A conversion leaves its own result as it is exactly when no word
//! boundary is found in the result that the conversion did not write there.
//! For each family of styles this is a condition on the converted text, with
//! a function that tests it.

use crate::inflector::case::{
    begins_word, camel_like, camel_start, camel_upto, cased, follows_separator,
    neighbour_is_lowercase, next_or_previous_lowercase, snake_like, snake_piece, snake_upto,
    trim_right_len, CamelOptions,
};
use crate::text::{
    alphanumeric, ascii_lowercase, ascii_uppercase, chars_of, lemma_scan_backward_unique,
    lowercase, to_ascii_lower, to_ascii_upper, uppercase, CharClass,
};
use vstd::prelude::*;

verus! {

/// What the case maps make of a letter or number: a letter or number that
/// they leave as it is.
proof fn lemma_case_maps(c: char)
    requires
        alphanumeric(c),
    ensures
        alphanumeric(to_ascii_upper(c)),
        alphanumeric(to_ascii_lower(c)),
        to_ascii_upper(to_ascii_upper(c)) == to_ascii_upper(c),
        to_ascii_lower(to_ascii_lower(c)) == to_ascii_lower(c),
        !ascii_uppercase(to_ascii_lower(c)),
        !ascii_lowercase(to_ascii_upper(c)),
{
}

/// What the case maps leave as it is: the upper case map changes ASCII
/// lowercase letters only, the lower case map ASCII capitals only, and no
/// capital is an ASCII lowercase letter.
proof fn lemma_case_fixed(c: char)
    ensures
        !ascii_uppercase(c) <==> to_ascii_lower(c) == c,
        !ascii_lowercase(c) <==> to_ascii_upper(c) == c,
        uppercase(c) ==> !ascii_lowercase(c),
        ascii_uppercase(c) ==> uppercase(c),
        !lowercase(' '),
{
}

/// A text of letters and numbers has nothing to trim at its end.
proof fn lemma_nothing_to_trim(y: Seq<char>)
    requires
        y.len() > 0 ==> alphanumeric(y.last()),
    ensures
        trim_right_len(y) == y.len(),
{
    lemma_scan_backward_unique(y, y.len() as int, 0, CharClass::Separator, y.len() as int);
}

/// Whether the snake-like conversion puts a separator before character
/// `j` of `y`: it is a capital inside a word with a lowercase neighbour.
pub open spec fn splits_at(y: Seq<char>, j: int) -> bool {
    &&& alphanumeric(y[j])
    &&& !follows_separator(y, j)
    &&& uppercase(y[j])
    &&& next_or_previous_lowercase(y, j)
}

/// No capital inside a word of `y` has a lowercase neighbour.
pub open spec fn has_no_split(y: Seq<char>) -> bool {
    forall|j: int| 0 <= j < y.len() ==> !#[trigger] splits_at(y, j)
}

/// Tests whether no capital inside a word of `text` has a lowercase neighbour.
pub fn is_without_split(text: &str) -> (b: bool)
    ensures
        b == has_no_split(text@),
{
    let v = chars_of(text);
    let s = v.as_slice();
    let mut j: usize = 0;
    while j < s.len()
        invariant
            j <= s.len(),
            s@ == text@,
            forall|k: int| 0 <= k < j ==> !#[trigger] splits_at(text@, k),
        decreases s.len() - j,
    {
        let c = s[j];
        let inside = j > 0 && s[j - 1].is_alphanumeric();
        if c.is_alphanumeric() && inside && c.is_uppercase() && neighbour_is_lowercase(s, j) {
            assert(splits_at(text@, j as int));
            return false;
        }
        j = j + 1;
    }
    true
}

/// The shape of what the snake-like conversion writes: letters and numbers
/// in the wanted case, and separators that each follow a letter or number.
pub open spec fn snake_shaped(y: Seq<char>, sep: char, lower: bool) -> bool {
    &&& forall|j: int|
        0 <= j < y.len() ==> #[trigger] y[j] == sep || (alphanumeric(y[j]) && cased(y[j], lower)
            == y[j])
    &&& forall|j: int| 0 <= j < y.len() && #[trigger] y[j] == sep ==> j > 0 && y[j - 1] != sep
}

/// A letter or number written in the wanted case is a letter or number
/// that stays as it is when written so again.
proof fn lemma_cased_settled(c: char, lower: bool)
    requires
        alphanumeric(c),
    ensures
        alphanumeric(cased(c, lower)),
        cased(cased(c, lower), lower) == cased(c, lower),
{
}

/// What the snake-like conversion has written after `n` characters is
/// snake-shaped, and ends with a letter or number exactly when the last
/// character read was one.
proof fn lemma_snake_upto_shaped(x: Seq<char>, n: nat, sep: char, lower: bool)
    requires
        n <= x.len(),
        !alphanumeric(sep),
    ensures
        snake_shaped(snake_upto(x, n, sep, lower), sep, lower),
        (snake_upto(x, n, sep, lower).len() > 0 && snake_upto(x, n, sep, lower).last() != sep)
            == !follows_separator(x, n as int),
    decreases n,
{
    if n > 0 {
        let i = (n - 1) as int;
        let before = snake_upto(x, (n - 1) as nat, sep, lower);
        let piece = snake_piece(x, i, sep, lower);
        let now = before + piece;
        lemma_snake_upto_shaped(x, (n - 1) as nat, sep, lower);
        let c = x[i];
        if alphanumeric(c) {
            lemma_cased_settled(c, lower);
            let written = cased(c, lower);
            assert(now.last() == written);
        } else if follows_separator(x, i) {
            assert(now =~= before);
        }
        assert forall|j: int| 0 <= j < now.len() implies #[trigger] now[j] == sep || (alphanumeric(
            now[j],
        ) && cased(now[j], lower) == now[j]) by {
            if j < before.len() {
                assert(now[j] == before[j]);
            }
        }
        assert forall|j: int| 0 <= j < now.len() && #[trigger] now[j] == sep implies j > 0 && now[j
            - 1] != sep by {
            if j < before.len() {
                assert(now[j] == before[j]);
                assert(now[j - 1] == before[j - 1]);
            } else if j == before.len() {
                assert(now[j - 1] == before.last());
            }
        }
    }
}

/// The snake-like conversion writes one character or two for each
/// character of a snake-shaped text: the character itself, after a separator
/// where it splits.
proof fn lemma_snake_piece_of_shaped(y: Seq<char>, i: int, sep: char, lower: bool)
    requires
        0 <= i < y.len(),
        snake_shaped(y, sep, lower),
        !alphanumeric(sep),
    ensures
        snake_piece(y, i, sep, lower) == if splits_at(y, i) {
            seq![sep, y[i]]
        } else {
            seq![y[i]]
        },
{
    let c = y[i];
    assert(c == sep || (alphanumeric(c) && cased(c, lower) == c));
    if c == sep {
        assert(i > 0 && y[i - 1] != sep);
        assert(y[i - 1] == sep || alphanumeric(y[i - 1]));
    }
}

/// The snake-like conversion writes the first `n` characters of a
/// snake-shaped text as they are if none of them splits, and writes more
/// than `n` characters if one does.
proof fn lemma_snake_upto_fixed(y: Seq<char>, n: nat, sep: char, lower: bool)
    requires
        n <= y.len(),
        snake_shaped(y, sep, lower),
        !alphanumeric(sep),
    ensures
        snake_upto(y, n, sep, lower).len() >= n,
        (forall|j: int| 0 <= j < n ==> !#[trigger] splits_at(y, j)) ==> snake_upto(y, n, sep, lower)
            == y.subrange(0, n as int),
        (exists|j: int| 0 <= j < n && #[trigger] splits_at(y, j)) ==> snake_upto(
            y,
            n,
            sep,
            lower,
        ).len() > n,
    decreases n,
{
    if n == 0 {
        assert(y.subrange(0, 0) =~= Seq::<char>::empty());
    } else {
        let i = (n - 1) as int;
        lemma_snake_upto_fixed(y, (n - 1) as nat, sep, lower);
        lemma_snake_piece_of_shaped(y, i, sep, lower);
        if forall|j: int| 0 <= j < n ==> !#[trigger] splits_at(y, j) {
            assert(!splits_at(y, i));
            assert(y.subrange(0, n as int) =~= y.subrange(0, i) + seq![y[i]]);
        }
        if exists|j: int| 0 <= j < n && #[trigger] splits_at(y, j) {
            let j = choose|j: int| 0 <= j < n && #[trigger] splits_at(y, j);
            if j < i {
                assert(splits_at(y, j));
            }
        }
    }
}

/// What the snake-like conversion writes holds no ASCII letter of the
/// other case: no ASCII capital in lower case, no ASCII lowercase letter in
/// upper case, the separator apart.
pub proof fn law_snake_like_case(x: Seq<char>, sep: char, lower: bool)
    requires
        !alphanumeric(sep),
    ensures
        forall|j: int|
            0 <= j < snake_like(x, sep, lower).len() ==> (#[trigger] snake_like(x, sep, lower)[j])
                == sep || if lower {
                !ascii_uppercase(snake_like(x, sep, lower)[j])
            } else {
                !ascii_lowercase(snake_like(x, sep, lower)[j])
            },
{
    crate::text::lemma_scan_backward(x, x.len() as int, 0, CharClass::Separator);
    let y = snake_like(x, sep, lower);
    lemma_snake_upto_shaped(x, trim_right_len(x) as nat, sep, lower);
    assert forall|j: int| 0 <= j < y.len() implies (#[trigger] y[j]) == sep || if lower {
        !ascii_uppercase(y[j])
    } else {
        !ascii_lowercase(y[j])
    } by {
        assert(y[j] == sep || (alphanumeric(y[j]) && cased(y[j], lower) == y[j]));
        lemma_case_fixed(y[j]);
    }
}

/// The snake-like conversion leaves what it has written as it is exactly
/// when no capital inside a word of what it has written has a lowercase
/// neighbour.
pub proof fn law_snake_like_fixed(x: Seq<char>, sep: char, lower: bool)
    requires
        !alphanumeric(sep),
    ensures
        has_no_split(snake_like(x, sep, lower)) <==> snake_like(
            snake_like(x, sep, lower),
            sep,
            lower,
        ) == snake_like(x, sep, lower),
{
    crate::text::lemma_scan_backward(x, x.len() as int, 0, CharClass::Separator);
    let n = trim_right_len(x) as nat;
    let y = snake_like(x, sep, lower);
    lemma_snake_upto_shaped(x, n, sep, lower);
    if y.len() > 0 {
        assert(y.last() == sep || alphanumeric(y.last()));
        if n == 0 {
            assert(y =~= Seq::<char>::empty());
        } else {
            assert(alphanumeric(x[n - 1]));
        }
    }
    lemma_nothing_to_trim(y);
    lemma_snake_upto_fixed(y, y.len(), sep, lower);
    assert(y.subrange(0, y.len() as int) =~= y);
    if !has_no_split(y) {
        let j = choose|j: int| 0 <= j < y.len() && splits_at(y, j);
        assert(splits_at(y, j));
    }
}

/// The options of the styles that join words without a separator.
pub open spec fn joins_words(options: CamelOptions) -> bool {
    !options.has_separator && !options.inverted && options.last_char == ' '
}

/// Where the memory of a style without separator begins: at the first
/// character for camel case, after it for Pascal case, whose first character
/// begins a word whatever it is.
pub open spec fn humps_from(options: CamelOptions) -> int {
    if options.new_word {
        1
    } else {
        0
    }
}

/// The character that a conversion without separator remembers when it
/// comes to character `k` of `y`: the nearest character before `k`, not before
/// `from`, that did not begin a word as a capital after a lowercase letter;
/// a space where there is none.
pub open spec fn last_written(y: Seq<char>, k: int, from: int) -> char
    decreases k,
{
    if 0 <= from < k <= y.len() {
        let before = last_written(y, k - 1, from);
        if uppercase(y[k - 1]) && lowercase(before) {
            before
        } else {
            y[k - 1]
        }
    } else {
        ' '
    }
}

/// Every ASCII capital of `y` at or after `from` can be told to begin a
/// word: the character remembered there is a lowercase letter.
pub open spec fn humps_follow_lowercase(y: Seq<char>, from: int) -> bool {
    forall|k: int|
        from <= k < y.len() && ascii_uppercase(#[trigger] y[k]) ==> lowercase(
            last_written(y, k, from),
        )
}

/// Tests whether every ASCII capital of `text` at or after character
/// `from` follows a lowercase letter, or capitals that follow one.
pub fn humps_are_marked(text: &str, from: usize) -> (b: bool)
    ensures
        b == humps_follow_lowercase(text@, from as int),
{
    let v = chars_of(text);
    let s = v.as_slice();
    let mut last: char = ' ';
    let mut k: usize = from;
    if from > s.len() {
        return true;
    }
    while k < s.len()
        invariant
            from <= k <= s.len(),
            s@ == text@,
            last == last_written(text@, k as int, from as int),
            forall|j: int|
                from <= j < k && ascii_uppercase(#[trigger] text@[j]) ==> lowercase(
                    last_written(text@, j, from as int),
                ),
        decreases s.len() - k,
    {
        let c = s[k];
        if c >= 'A' && c <= 'Z' && !last.is_lowercase() {
            return false;
        }
        if !(c.is_uppercase() && last.is_lowercase()) {
            last = c;
        }
        k = k + 1;
    }
    true
}

/// The shape of what a conversion without separator writes: letters and
/// numbers, the first of them as the style begins.
pub open spec fn joined_shape(y: Seq<char>, options: CamelOptions) -> bool {
    &&& forall|k: int| 0 <= k < y.len() ==> alphanumeric(#[trigger] y[k])
    &&& y.len() > 0 ==> if options.new_word {
        to_ascii_upper(y[0]) == y[0]
    } else {
        !ascii_uppercase(y[0])
    }
}

/// What a conversion without separator has written after `n` characters
/// has the joined shape; as long as it has written nothing it stands where
/// it began.
proof fn lemma_joined_shape(x: Seq<char>, n: nat, options: CamelOptions)
    requires
        n <= x.len(),
        joins_words(options),
    ensures
        joined_shape(camel_upto(x, n, options).out, options),
        camel_upto(x, n, options).out.len() == 0 ==> camel_upto(x, n, options) == camel_start(
            options,
        ),
        camel_upto(x, n, options).found_real_char == (camel_upto(x, n, options).out.len() > 0),
    decreases n,
{
    if n > 0 {
        lemma_joined_shape(x, (n - 1) as nat, options);
        let before = camel_upto(x, (n - 1) as nat, options);
        let now = camel_upto(x, n, options);
        let c = x[n - 1];
        lemma_case_fixed(c);
        if alphanumeric(c) {
            lemma_case_maps(c);
            let written = now.out.last();
            assert(now.out =~= before.out.push(written));
            assert forall|k: int| 0 <= k < now.out.len() implies alphanumeric(
                #[trigger] now.out[k],
            ) by {
                if k < before.out.len() {
                    assert(now.out[k] == before.out[k]);
                }
            }
            if before.out.len() > 0 {
                assert(now.out[0] == before.out[0]);
            }
        }
    }
}

/// How a conversion without separator reads a text of the joined shape
/// whose capitals follow lowercase letters: it writes the first `k`
/// characters as they are and remembers what `last_written` says.
proof fn lemma_joined_fixed(y: Seq<char>, k: nat, options: CamelOptions)
    requires
        k <= y.len(),
        joins_words(options),
        joined_shape(y, options),
        humps_follow_lowercase(y, humps_from(options)),
    ensures
        camel_upto(y, k, options).out == y.subrange(0, k as int),
        camel_upto(y, k, options).new_word == (k == 0 && options.new_word),
        camel_upto(y, k, options).last_char == last_written(y, k as int, humps_from(options)),
    decreases k,
{
    lemma_case_fixed(' ');
    if k == 0 {
        assert(y.subrange(0, 0) =~= Seq::<char>::empty());
    } else {
        lemma_joined_fixed(y, (k - 1) as nat, options);
        let i = (k - 1) as int;
        let before = camel_upto(y, (k - 1) as nat, options);
        let now = camel_upto(y, k, options);
        let d = y[i];
        lemma_case_fixed(d);
        assert(alphanumeric(d));
        assert(y.subrange(0, k as int) =~= y.subrange(0, i).push(d));
        if before.new_word {
            assert(now.out =~= before.out.push(to_ascii_upper(d)));
        } else if begins_word(false, before.last_char, d) {
            assert(now.out =~= before.out.push(to_ascii_upper(d)));
        } else {
            if ascii_uppercase(d) {
                assert(lowercase(last_written(y, i, humps_from(options))));
            }
            assert(now.out =~= before.out.push(to_ascii_lower(d)));
        }
    }
}

/// What a conversion without separator writes for character `j` of a text
/// of letters and numbers: its upper case where it begins a word, its lower
/// case where it does not.
pub open spec fn joined_written(y: Seq<char>, j: int, options: CamelOptions) -> char {
    if (j == 0 && options.new_word) || begins_word(
        false,
        last_written(y, j, humps_from(options)),
        y[j],
    ) {
        to_ascii_upper(y[j])
    } else {
        to_ascii_lower(y[j])
    }
}

/// How a conversion without separator reads any text of letters and
/// numbers: it writes one character for each, and remembers what
/// `last_written` says.
proof fn lemma_joined_read(y: Seq<char>, k: nat, options: CamelOptions)
    requires
        k <= y.len(),
        joins_words(options),
        forall|j: int| 0 <= j < y.len() ==> alphanumeric(#[trigger] y[j]),
    ensures
        camel_upto(y, k, options).out.len() == k,
        camel_upto(y, k, options).new_word == (k == 0 && options.new_word),
        camel_upto(y, k, options).last_char == last_written(y, k as int, humps_from(options)),
        forall|j: int|
            0 <= j < k ==> #[trigger] camel_upto(y, k, options).out[j] == joined_written(
                y,
                j,
                options,
            ),
    decreases k,
{
    lemma_case_fixed(' ');
    if k > 0 {
        lemma_joined_read(y, (k - 1) as nat, options);
        let i = (k - 1) as int;
        let before = camel_upto(y, (k - 1) as nat, options);
        let now = camel_upto(y, k, options);
        let d = y[i];
        assert(alphanumeric(d));
        assert(now.out =~= before.out.push(joined_written(y, i, options)));
        assert forall|j: int| 0 <= j < k implies #[trigger] now.out[j] == joined_written(
            y,
            j,
            options,
        ) by {
            if j < i {
                assert(now.out[j] == before.out[j]);
            }
        }
    }
}

/// A conversion without separator leaves what it has written as it is
/// exactly when every ASCII capital that it has written can be told to begin
/// a word.
pub proof fn law_joined_fixed(x: Seq<char>, options: CamelOptions)
    requires
        joins_words(options),
    ensures
        humps_follow_lowercase(camel_like(x, options), humps_from(options)) <==> camel_like(
            camel_like(x, options),
            options,
        ) == camel_like(x, options),
{
    crate::text::lemma_scan_backward(x, x.len() as int, 0, CharClass::Separator);
    let y = camel_like(x, options);
    let from = humps_from(options);
    lemma_joined_shape(x, trim_right_len(x) as nat, options);
    if y.len() > 0 {
        assert(alphanumeric(y[y.len() - 1]));
    }
    lemma_nothing_to_trim(y);
    if humps_follow_lowercase(y, from) {
        lemma_joined_fixed(y, y.len(), options);
        assert(y.subrange(0, y.len() as int) =~= y);
    } else {
        let k = choose|k: int|
            from <= k < y.len() && ascii_uppercase(#[trigger] y[k]) && !lowercase(
                last_written(y, k, from),
            );
        lemma_joined_read(y, y.len(), options);
        lemma_case_fixed(y[k]);
        let read = camel_upto(y, y.len(), options).out;
        assert(read[k] == joined_written(y, k, options));
        assert(read[k] != y[k]);
    }
}

/// The options of the styles that separate words and begin each with a capital.
pub open spec fn separates_words(options: CamelOptions) -> bool {
    &&& options.has_separator
    &&& options.new_word
    &&& options.first_word
    &&& !options.inverted
    &&& options.last_char == ' '
    &&& !alphanumeric(options.injectable_char)
}

/// Character `k` of `y` is a letter or number inside a word: it neither is
/// the first character nor follows a separator.
pub open spec fn is_inside_word(y: Seq<char>, k: int, sep: char) -> bool {
    0 < k < y.len() && alphanumeric(y[k]) && y[k - 1] != sep
}

/// The character that a conversion with separator remembers when it comes
/// to character `k` of `y`: the nearest character before `k` that stands
/// inside a word and did not begin a word of its own as a capital after a
/// lowercase letter; a space where there is none.
pub open spec fn last_inside(y: Seq<char>, k: int, sep: char) -> char
    decreases k,
{
    if 0 < k <= y.len() {
        let before = last_inside(y, k - 1, sep);
        if is_inside_word(y, k - 1, sep) && !(lowercase(before) && uppercase(y[k - 1])) {
            y[k - 1]
        } else {
            before
        }
    } else {
        ' '
    }
}

/// No capital inside a word of `y` comes while a lowercase letter is
/// remembered: no word of `y` is split when `y` is read again.
pub open spec fn words_hold(y: Seq<char>, sep: char) -> bool {
    forall|k: int|
        #[trigger] is_inside_word(y, k, sep) ==> !(lowercase(last_inside(y, k, sep)) && uppercase(
            y[k],
        ))
}

/// Tests whether no capital inside a word of `text` comes while a
/// lowercase letter is remembered.
pub fn words_are_whole(text: &str, sep: char) -> (b: bool)
    ensures
        b == words_hold(text@, sep),
{
    let v = chars_of(text);
    let s = v.as_slice();
    let mut last: char = ' ';
    let mut k: usize = 0;
    while k < s.len()
        invariant
            k <= s.len(),
            s@ == text@,
            last == last_inside(text@, k as int, sep),
            forall|j: int|
                j < k && #[trigger] is_inside_word(text@, j, sep) ==> !(lowercase(
                    last_inside(text@, j, sep),
                ) && uppercase(text@[j])),
        decreases s.len() - k,
    {
        let c = s[k];
        if k > 0 && c.is_alphanumeric() && s[k - 1] != sep {
            if last.is_lowercase() && c.is_uppercase() {
                assert(is_inside_word(text@, k as int, sep));
                return false;
            }
            last = c;
        }
        k = k + 1;
    }
    true
}

/// The shape of what a conversion with separator writes: words of letters
/// and numbers with one separator between them, each word beginning with a
/// character that is its own upper case and going on with characters that
/// are their own lower case.
pub open spec fn separated_shape(y: Seq<char>, sep: char) -> bool {
    &&& forall|k: int| 0 <= k < y.len() ==> #[trigger] y[k] == sep || alphanumeric(y[k])
    &&& y.len() > 0 ==> alphanumeric(y[0]) && alphanumeric(y.last())
    &&& forall|k: int|
        0 <= k < y.len() && #[trigger] y[k] == sep ==> k + 1 < y.len() && alphanumeric(y[k + 1])
    &&& forall|k: int|
        0 <= k < y.len() && alphanumeric(#[trigger] y[k]) && (k == 0 || y[k - 1] == sep)
            ==> to_ascii_upper(y[k]) == y[k]
    &&& forall|k: int|
        0 < k < y.len() && alphanumeric(#[trigger] y[k]) && y[k - 1] != sep ==> to_ascii_lower(y[k])
            == y[k]
}

/// What a conversion with separator has written after `n` characters has
/// the separated shape; as long as it has written nothing it stands where it
/// began, and after that the first word is behind it.
proof fn lemma_separated_shape(x: Seq<char>, n: nat, options: CamelOptions)
    requires
        n <= x.len(),
        separates_words(options),
    ensures
        separated_shape(camel_upto(x, n, options).out, options.injectable_char),
        camel_upto(x, n, options).out.len() == 0 ==> camel_upto(x, n, options) == camel_start(
            options,
        ),
        camel_upto(x, n, options).out.len() > 0 ==> !camel_upto(x, n, options).first_word
            && camel_upto(x, n, options).found_real_char,
    decreases n,
{
    if n > 0 {
        lemma_separated_shape(x, (n - 1) as nat, options);
        let sep = options.injectable_char;
        let before = camel_upto(x, (n - 1) as nat, options);
        let now = camel_upto(x, n, options);
        let c = x[n - 1];
        lemma_case_fixed(c);
        if alphanumeric(c) {
            lemma_case_maps(c);
            let y = now.out;
            let old = before.out;
            let m = old.len() as int;
            assert forall|k: int| 0 <= k < m implies y[k] == old[k] by {}
            if begins_word(before.new_word, before.last_char, c) {
                if before.first_word {
                    assert(y =~= old.push(to_ascii_upper(c)));
                    assert(m == 0);
                } else {
                    assert(y =~= old.push(sep).push(to_ascii_upper(c)));
                    assert(y[m] == sep);
                    assert(y[m + 1] == to_ascii_upper(c));
                    assert(m > 0);
                    assert(y[m - 1] == old.last());
                }
            } else {
                assert(y =~= old.push(to_ascii_lower(c)));
                assert(m > 0);
                assert(y[m - 1] == old.last());
            }
            assert forall|k: int| 0 <= k < y.len() implies #[trigger] y[k] == sep || alphanumeric(
                y[k],
            ) by {
                if k < m {
                    assert(y[k] == old[k]);
                }
            }
            assert forall|k: int| 0 <= k < y.len() && #[trigger] y[k] == sep implies k + 1 < y.len()
                && alphanumeric(y[k + 1]) by {
                if k < m {
                    assert(y[k] == old[k]);
                    assert(k + 1 < m);
                    assert(y[k + 1] == old[k + 1]);
                }
            }
            assert forall|k: int|
                0 <= k < y.len() && alphanumeric(#[trigger] y[k]) && (k == 0 || y[k - 1] == sep)
                    implies to_ascii_upper(y[k]) == y[k] by {
                if k < m {
                    assert(y[k] == old[k]);
                    if k > 0 {
                        assert(y[k - 1] == old[k - 1]);
                    }
                }
            }
            assert forall|k: int|
                0 < k < y.len() && alphanumeric(#[trigger] y[k]) && y[k - 1] != sep
                    implies to_ascii_lower(y[k]) == y[k] by {
                if k < m {
                    assert(y[k] == old[k]);
                    assert(y[k - 1] == old[k - 1]);
                }
            }
            if m > 0 {
                assert(y[0] == old[0]);
            }
        }
    }
}

/// How a conversion with separator reads a text of the separated shape
/// whose words hold: a separator is held back until the word after it
/// begins, everything else is written as it is, and what is remembered is what
/// `last_inside` says.
proof fn lemma_separated_fixed(y: Seq<char>, k: nat, options: CamelOptions)
    requires
        k <= y.len(),
        separates_words(options),
        separated_shape(y, options.injectable_char),
        words_hold(y, options.injectable_char),
    ensures
        k == 0 ==> camel_upto(y, k, options) == camel_start(options),
        camel_upto(y, k, options).last_char == last_inside(y, k as int, options.injectable_char),
        k > 0 ==> camel_upto(y, k, options).found_real_char && !camel_upto(
            y,
            k,
            options,
        ).first_word,
        k > 0 && y[k - 1] == options.injectable_char ==> camel_upto(y, k, options).new_word
            && camel_upto(y, k, options).out == y.subrange(0, k - 1),
        k > 0 && y[k - 1] != options.injectable_char ==> !camel_upto(y, k, options).new_word
            && camel_upto(y, k, options).out == y.subrange(0, k as int),
    decreases k,
{
    lemma_case_fixed(' ');
    if k > 0 {
        lemma_separated_fixed(y, (k - 1) as nat, options);
        let sep = options.injectable_char;
        let i = (k - 1) as int;
        let before = camel_upto(y, (k - 1) as nat, options);
        let now = camel_upto(y, k, options);
        let d = y[i];
        lemma_case_fixed(d);
        assert(d == sep || alphanumeric(d));
        if d == sep {
            assert(i + 1 < y.len() && alphanumeric(y[i + 1]));
            assert(i > 0);
            if y[i - 1] == sep {
                assert(alphanumeric(y[(i - 1) + 1]));
            }
            assert(y.subrange(0, k - 1) =~= y.subrange(0, i));
        } else if i == 0 {
            assert(to_ascii_upper(d) == d);
            assert(now.out =~= Seq::<char>::empty().push(d));
            assert(y.subrange(0, 1) =~= Seq::<char>::empty().push(d));
        } else if y[i - 1] == sep {
            assert(to_ascii_upper(d) == d);
            assert(now.out =~= y.subrange(0, i - 1).push(sep).push(d));
            assert(y.subrange(0, k as int) =~= y.subrange(0, i - 1).push(sep).push(d));
        } else {
            assert(is_inside_word(y, i, sep));
            assert(to_ascii_lower(d) == d);
            assert(now.out =~= y.subrange(0, i).push(d));
            assert(y.subrange(0, k as int) =~= y.subrange(0, i).push(d));
        }
    }
}

/// Whether a conversion with separator begins a word of its own at
/// character `j` of `y`, inside a word: a capital comes while a lowercase
/// letter is remembered.
pub open spec fn breaks_word(y: Seq<char>, j: int, sep: char) -> bool {
    is_inside_word(y, j, sep) && lowercase(last_inside(y, j, sep)) && uppercase(y[j])
}

/// How a conversion with separator reads any text of the separated shape:
/// it remembers what `last_inside` says, and writes at least one character
/// for each, a separator being held back until the next word begins; it
/// writes more where it breaks a word.
proof fn lemma_separated_read(y: Seq<char>, k: nat, options: CamelOptions)
    requires
        k <= y.len(),
        separates_words(options),
        separated_shape(y, options.injectable_char),
    ensures
        camel_upto(y, k, options).last_char == last_inside(y, k as int, options.injectable_char),
        camel_upto(y, k, options).new_word == (k == 0 || y[k - 1] == options.injectable_char),
        k == 0 ==> camel_upto(y, k, options) == camel_start(options),
        k > 0 ==> camel_upto(y, k, options).found_real_char && !camel_upto(
            y,
            k,
            options,
        ).first_word,
        camel_upto(y, k, options).out.len() + (if k > 0 && y[k - 1] == options.injectable_char {
            1int
        } else {
            0int
        }) >= k,
        (exists|j: int| 0 <= j < k && #[trigger] breaks_word(y, j, options.injectable_char))
            ==> camel_upto(y, k, options).out.len() + (if k > 0 && y[k - 1]
            == options.injectable_char {
            1int
        } else {
            0int
        }) > k,
    decreases k,
{
    lemma_case_fixed(' ');
    if k > 0 {
        lemma_separated_read(y, (k - 1) as nat, options);
        let sep = options.injectable_char;
        let i = (k - 1) as int;
        let before = camel_upto(y, (k - 1) as nat, options);
        let now = camel_upto(y, k, options);
        let d = y[i];
        assert(d == sep || alphanumeric(d));
        if d == sep {
            assert(i + 1 < y.len() && alphanumeric(y[i + 1]));
            assert(i > 0);
            if y[i - 1] == sep {
                assert(alphanumeric(y[(i - 1) + 1]));
            }
        }
        if exists|j: int| 0 <= j < k && #[trigger] breaks_word(y, j, sep) {
            let j = choose|j: int| 0 <= j < k && #[trigger] breaks_word(y, j, sep);
            if j < i {
                assert(breaks_word(y, j, sep));
            }
        }
    }
}

/// A conversion with separator leaves what it has written as it is
/// exactly when no word of what it has written is split when read again.
pub proof fn law_separated_fixed(x: Seq<char>, options: CamelOptions)
    requires
        separates_words(options),
    ensures
        words_hold(camel_like(x, options), options.injectable_char) <==> camel_like(
            camel_like(x, options),
            options,
        ) == camel_like(x, options),
{
    crate::text::lemma_scan_backward(x, x.len() as int, 0, CharClass::Separator);
    let y = camel_like(x, options);
    let sep = options.injectable_char;
    lemma_separated_shape(x, trim_right_len(x) as nat, options);
    lemma_nothing_to_trim(y);
    if words_hold(y, sep) {
        lemma_separated_fixed(y, y.len(), options);
        if y.len() > 0 {
            assert(alphanumeric(y[y.len() - 1]));
            assert(y.subrange(0, y.len() as int) =~= y);
        }
    } else {
        let k = choose|k: int|
            #[trigger] is_inside_word(y, k, sep) && lowercase(last_inside(y, k, sep)) && uppercase(
                y[k],
            );
        assert(breaks_word(y, k, sep));
        lemma_separated_read(y, y.len(), options);
        assert(alphanumeric(y[y.len() - 1]));
    }
}

} // verus!
