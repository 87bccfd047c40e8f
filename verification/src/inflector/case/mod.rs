//! The two conversions that every case style is built on: one that joins
//! the words of a text with a separator, and one that marks the beginning of
//! each word with a capital.

use crate::text::{
    alphanumeric, chars_of, lemma_scan_backward, lowercase, scan_backward, skip_backward,
    to_ascii_lower, to_ascii_upper, uppercase, CharClass,
};
use vstd::prelude::*;
use vstd::string::{StrSliceExecFns, StringExecFns};

pub mod camel;
pub mod fixed;
pub mod kebab;
pub mod pascal;
pub mod screaming_snake;
pub mod snake;
pub mod train;

pub use camel::is_camel_case;
pub use camel::to_camel_case;
pub use kebab::is_kebab_case;
pub use kebab::to_kebab_case;
pub use pascal::is_pascal_case;
pub use pascal::to_pascal_case;
pub use screaming_snake::is_screaming_snake_case;
pub use screaming_snake::to_screaming_snake_case;
pub use snake::is_snake_case;
pub use snake::to_snake_case;
pub use train::is_train_case;
pub use train::to_train_case;

verus! {

/// How `to_case_camel_like` begins and what it puts between words.
pub struct CamelOptions {
    /// Whether the first character begins a word, and so is written as one.
    pub new_word: bool,
    /// The character that counts as the one before the first.
    pub last_char: char,
    /// Whether the first word that is begun is still to come.
    pub first_word: bool,
    /// The character put before every word but the first, if `has_separator`.
    pub injectable_char: char,
    /// Whether words are separated by `injectable_char`.
    pub has_separator: bool,
    /// Whether only the first word begins with a capital.
    pub inverted: bool,
}

/// The length of `s` without the characters at its end that are neither
/// letters nor numbers.
pub open spec fn trim_right_len(s: Seq<char>) -> int {
    scan_backward(s, s.len() as int, 0, CharClass::Separator)
}

/// `s` without the characters at its end that are neither letters nor numbers.
pub open spec fn trim_right_spec(s: Seq<char>) -> Seq<char> {
    s.subrange(0, trim_right_len(s))
}

/// The character of `s` at `index`, or `A` where there is none.
pub open spec fn char_or_a(s: Seq<char>, index: int) -> char {
    if 0 <= index < s.len() {
        s[index]
    } else {
        'A'
    }
}

/// Whether the character of `s` after `index` or the one before it is a
/// lowercase letter. A character that does not exist is none.
pub open spec fn next_or_previous_lowercase(s: Seq<char>, index: int) -> bool {
    lowercase(char_or_a(s, index + 1)) || lowercase(char_or_a(s, index - 1))
}

/// The separator that `replace_with` stands for: its first character, or
/// an underscore where it is empty.
pub open spec fn separator_of(replace_with: Seq<char>) -> char {
    if replace_with.len() > 0 {
        replace_with[0]
    } else {
        '_'
    }
}

/// `c` in lower case if `lower`, else in upper case; only ASCII letters change.
pub open spec fn cased(c: char, lower: bool) -> char {
    if lower {
        to_ascii_lower(c)
    } else {
        to_ascii_upper(c)
    }
}

/// Whether character `i` of `s` begins a word for the snake-like styles: it
/// is the first character, or it follows one that is neither letter nor number.
pub open spec fn follows_separator(s: Seq<char>, i: int) -> bool {
    i == 0 || !alphanumeric(s[i - 1])
}

/// What the snake-like conversion writes for character `i` of `s`.
///
/// A run of characters that are neither letters nor numbers gives one
/// separator, and none at the beginning. A letter or number is written in the
/// wanted case; an uppercase letter inside a word that has a lowercase
/// neighbour gets a separator before it. The neighbours are the characters
/// of `s` directly before and after the letter.
pub open spec fn snake_piece(s: Seq<char>, i: int, sep: char, lower: bool) -> Seq<char> {
    let c = s[i];
    if !alphanumeric(c) {
        if follows_separator(s, i) {
            seq![]
        } else {
            seq![sep]
        }
    } else if !follows_separator(s, i) && uppercase(c) && next_or_previous_lowercase(s, i) {
        seq![sep, cased(c, lower)]
    } else {
        seq![cased(c, lower)]
    }
}

/// What the snake-like conversion writes for the first `n` characters of `s`.
pub open spec fn snake_upto(s: Seq<char>, n: nat, sep: char, lower: bool) -> Seq<char>
    decreases n,
{
    if n == 0 {
        Seq::empty()
    } else {
        snake_upto(s, (n - 1) as nat, sep, lower) + snake_piece(s, n - 1, sep, lower)
    }
}

/// The snake-like conversion of `s`: what is written for its characters up
/// to the last letter or number.
pub open spec fn snake_like(s: Seq<char>, sep: char, lower: bool) -> Seq<char> {
    snake_upto(s, trim_right_len(s) as nat, sep, lower)
}

/// Whether `c` is neither a letter nor a number.
pub fn is_not_alphanumeric(character: char) -> (b: bool)
    ensures
        b == !alphanumeric(character),
{
    !character.is_alphanumeric()
}

/// Whether `c` separates words: it is neither a letter nor a number.
pub fn char_is_separator(character: &char) -> (b: bool)
    ensures
        b == !alphanumeric(*character),
{
    is_not_alphanumeric(*character)
}

/// `convertable_string` without the characters at its end that are neither
/// letters nor numbers.
pub fn trim_right(convertable_string: &str) -> (r: &str)
    ensures
        r@ == trim_right_spec(convertable_string@),
{
    let v = chars_of(convertable_string);
    let end = skip_backward(v.as_slice(), v.len(), 0, CharClass::Separator);
    convertable_string.substring_char(0, end)
}

/// Whether the character of `v` after `index` or the one before it is a
/// lowercase letter.
pub fn neighbour_is_lowercase(v: &[char], index: usize) -> (b: bool)
    ensures
        b == next_or_previous_lowercase(v@, index as int),
{
    let next: char = if index < usize::MAX && index + 1 < v.len() {
        v[index + 1]
    } else {
        'A'
    };
    let previous: char = if 0 < index && index - 1 < v.len() {
        v[index - 1]
    } else {
        'A'
    };
    next.is_lowercase() || previous.is_lowercase()
}

/// Whether the character of `convertable_string` after the character
/// `char_with_index` or the one before it is a lowercase letter.
pub fn next_or_previous_char_is_lowercase(convertable_string: &str, char_with_index: usize) -> (b:
    bool)
    ensures
        b == next_or_previous_lowercase(convertable_string@, char_with_index as int),
{
    let v = chars_of(convertable_string);
    neighbour_is_lowercase(v.as_slice(), char_with_index)
}

/// Whether the snake-like conversion puts a separator before a character:
/// it is an uppercase letter inside a word with a lowercase neighbour.
pub fn requires_separator(
    char_with_index: (usize, char),
    first_character: bool,
    convertable_string: &str,
) -> (b: bool)
    ensures
        b == (!first_character && uppercase(char_with_index.1) && next_or_previous_lowercase(
            convertable_string@,
            char_with_index.0 as int,
        )),
{
    !first_character && char_with_index.1.is_uppercase() && next_or_previous_char_is_lowercase(
        convertable_string,
        char_with_index.0,
    )
}

/// The first character of `replace_with`, or an underscore.
fn first_char_or_underscore(replace_with: &str) -> (c: char)
    ensures
        c == separator_of(replace_with@),
{
    if replace_with.unicode_len() > 0 {
        replace_with.get_char(0)
    } else {
        '_'
    }
}

/// Appends `current_char` in the wanted case.
pub fn snake_like_no_separator(mut accumlator: String, current_char: &char, case: &str) -> (r:
    String)
    ensures
        r@ == accumlator@.push(cased(*current_char, case@ == "lower"@)),
{
    if case.eq("lower") {
        accumlator.push(current_char.to_ascii_lowercase());
        accumlator
    } else {
        accumlator.push(current_char.to_ascii_uppercase());
        accumlator
    }
}

/// Appends the separator, then `current_char` in the wanted case.
pub fn snake_like_with_separator(
    mut accumlator: String,
    replace_with: &str,
    current_char: &char,
    case: &str,
) -> (r: String)
    ensures
        r@ == accumlator@.push(separator_of(replace_with@)).push(
            cased(*current_char, case@ == "lower"@),
        ),
{
    if case.eq("lower") {
        accumlator.push(first_char_or_underscore(replace_with));
        accumlator.push(current_char.to_ascii_lowercase());
        accumlator
    } else {
        accumlator.push(first_char_or_underscore(replace_with));
        accumlator.push(current_char.to_ascii_uppercase());
        accumlator
    }
}

/// Joins the words of `convertable_string` with the first character of
/// `replace_with`, in lower case if `case` is `lower` and in upper case if it
/// is anything else.
pub fn to_case_snake_like(convertable_string: &str, replace_with: &str, case: &str) -> (r: String)
    ensures
        r@ == snake_like(
            convertable_string@,
            separator_of(replace_with@),
            case@ == "lower"@,
        ),
{
    let ghost s = convertable_string@;
    let ghost sep = separator_of(replace_with@);
    let ghost lower = case@ == "lower"@;
    let mut first_character: bool = true;
    let mut result: String = String::new();
    let chars = chars_of(trim_right(convertable_string));
    let mut i: usize = 0;
    proof {
        lemma_scan_backward(s, s.len() as int, 0, CharClass::Separator);
    }
    while i < chars.len()
        invariant
            s == convertable_string@,
            sep == separator_of(replace_with@),
            lower == (case@ == "lower"@),
            chars@ == s.subrange(0, trim_right_len(s)),
            0 <= trim_right_len(s) <= s.len(),
            i <= chars.len(),
            first_character == follows_separator(s, i as int),
            result@ == snake_upto(s, i as nat, sep, lower),
        decreases chars.len() - i,
    {
        let character = chars[i];
        proof {
            assert(chars@[i as int] == s[i as int]);
        }
        if char_is_separator(&character) {
            if !first_character {
                first_character = true;
                result.push(first_char_or_underscore(replace_with));
            }
        } else if requires_separator((i, character), first_character, convertable_string) {
            first_character = false;
            result = snake_like_with_separator(result, replace_with, &character, case);
        } else {
            first_character = false;
            result = snake_like_no_separator(result, &character, case);
        }
        proof {
            let piece = snake_piece(s, i as int, sep, lower);
            let before = snake_upto(s, i as nat, sep, lower);
            assert(result@ =~= before + piece);
        }
        i = i + 1;
    }
    result
}

/// Where the camel-like conversion stands after some characters.
pub ghost struct CamelState {
    /// The next letter or number begins a word.
    pub new_word: bool,
    /// No word has been begun yet.
    pub first_word: bool,
    /// The last character that was written inside a word.
    pub last_char: char,
    /// A letter or number has been seen.
    pub found_real_char: bool,
    /// What has been written.
    pub out: Seq<char>,
}

/// Where the camel-like conversion begins.
pub open spec fn camel_start(options: CamelOptions) -> CamelState {
    CamelState {
        new_word: options.new_word,
        first_word: options.first_word,
        last_char: options.last_char,
        found_real_char: false,
        out: Seq::empty(),
    }
}

/// Whether `c` begins a word: a word is due, or `c` is an uppercase letter
/// and the last character written inside a word was a lowercase one.
pub open spec fn begins_word(new_word: bool, last_char: char, c: char) -> bool {
    new_word || ((lowercase(last_char) && uppercase(c)) && last_char != ' ')
}

/// What is written for `c` where it begins a word: the separator, if the
/// style has one and this is not the first word, then `c` as a capital, or in
/// lower case where the style is inverted and this is not the first word.
pub open spec fn word_start(first_word: bool, c: char, options: CamelOptions) -> Seq<char> {
    let letter = if !options.inverted || first_word {
        to_ascii_upper(c)
    } else {
        to_ascii_lower(c)
    };
    if options.has_separator && !first_word {
        seq![options.injectable_char, letter]
    } else {
        seq![letter]
    }
}

/// One step of the camel-like conversion, for the character `c`.
///
/// A character that is neither letter nor number writes nothing; after a
/// letter or number it makes the next one begin a word. A letter or number
/// that begins a word is written by `word_start`; any other is written in
/// lower case and remembered as the last character inside a word.
pub open spec fn camel_step(state: CamelState, c: char, options: CamelOptions) -> CamelState {
    if !alphanumeric(c) {
        if state.found_real_char {
            CamelState { new_word: true, ..state }
        } else {
            state
        }
    } else if begins_word(state.new_word, state.last_char, c) {
        CamelState {
            new_word: false,
            first_word: false,
            found_real_char: true,
            out: state.out + word_start(state.first_word, c, options),
            ..state
        }
    } else {
        CamelState {
            found_real_char: true,
            last_char: c,
            out: state.out.push(to_ascii_lower(c)),
            ..state
        }
    }
}

/// Where the camel-like conversion stands after the first `n` characters of `s`.
pub open spec fn camel_upto(s: Seq<char>, n: nat, options: CamelOptions) -> CamelState
    decreases n,
{
    if n == 0 {
        camel_start(options)
    } else {
        camel_step(camel_upto(s, (n - 1) as nat, options), s[n - 1], options)
    }
}

/// The camel-like conversion of `s`, before any acronym is capitalized:
/// what is written for its characters up to the last letter or number.
pub open spec fn camel_like(s: Seq<char>, options: CamelOptions) -> Seq<char> {
    camel_upto(s, trim_right_len(s) as nat, options).out
}

/// What `str::to_uppercase` makes of `s`.
pub uninterp spec fn uppercased(s: Seq<char>) -> Seq<char>;

/// `str::to_uppercase` of the standard library. The result depends on the
/// characters of the string alone.
pub assume_specification[ str::to_uppercase ](s: &str) -> (r: String)
    ensures
        r@ == uppercased(s@),
;

/// `text` in upper case, as Unicode maps it.
pub fn to_uppercase_text(text: &str) -> (r: String)
    ensures
        r@ == uppercased(text@),
{
    text.to_uppercase()
}

/// What `regex::escape` makes of `text`.
pub uninterp spec fn escaped(text: Seq<char>) -> Seq<char>;

/// `regex::escape` of the regex crate: `text` with its characters that mean
/// something in a regular expression escaped, so that it stands for itself.
///
/// The contract claims that the result depends on the text alone.
#[verifier::external_body]
fn escape_text(text: &str) -> (r: String)
    ensures
        r@ == escaped(text@),
{
    regex::escape(text)
}

/// The regular expression that finds `literal` in whatever case it is written.
pub open spec fn any_case_pattern(literal: Seq<char>) -> Seq<char> {
    "(?i)("@ + literal + ")(?-i)"@
}

/// Writes the regular expression that finds `literal` in whatever case it
/// is written.
pub fn write_any_case_pattern(literal: &str) -> (r: String)
    ensures
        r@ == any_case_pattern(literal@),
{
    let mut pattern = "(?i)(".to_owned();
    pattern.append(literal);
    pattern.append(")(?-i)");
    pattern
}

/// `text` with every match of the regular expression `pattern` replaced by
/// that match in upper case; `None` where the regex crate does not accept
/// `pattern`.
pub uninterp spec fn matches_uppercased(pattern: Seq<char>, text: Seq<char>) -> Option<Seq<char>>;

/// Compiles `pattern` with `Regex::new` of the regex crate and replaces
/// every match in `text` by its upper case with `Regex::replace_all`.
///
/// The contract claims that the result depends on the two texts alone. It is
/// `None` where `Regex::new` returns an error.
#[verifier::external_body]
fn uppercase_matches(pattern: &str, text: &str) -> (r: Option<String>)
    ensures
        match r {
            Some(replaced) => matches_uppercased(pattern@, text@) == Some(replaced@),
            None => matches_uppercased(pattern@, text@) is None,
        },
{
    match regex::Regex::new(pattern) {
        Ok(re) => Some(
            re.replace_all(text, |caps: &regex::Captures| to_uppercase_text(&caps[0])).into_owned(),
        ),
        Err(_) => None,
    }
}

/// `text` with every occurrence of `acronym`, taken literally and in
/// whatever case it is written, replaced by that occurrence in upper case;
/// `None` where the regex crate does not accept the search.
pub open spec fn acronym_uppercased(text: Seq<char>, acronym: Seq<char>) -> Option<Seq<char>> {
    matches_uppercased(any_case_pattern(escaped(acronym)), text)
}

/// Searches `text` for `acronym`, taken literally and in whatever case it
/// is written, and replaces every occurrence by its upper case.
pub fn uppercase_acronym(text: &str, acronym: &str) -> (r: Option<String>)
    ensures
        match r {
            Some(replaced) => acronym_uppercased(text@, acronym@) == Some(replaced@),
            None => acronym_uppercased(text@, acronym@) is None,
        },
{
    let literal = escape_text(acronym);
    let pattern = write_any_case_pattern(literal.as_str());
    uppercase_matches(pattern.as_str(), text)
}

/// `text` after the search for one acronym: the replaced text, or `text`
/// itself where the search was not possible.
pub open spec fn replaced_or_same(text: Seq<char>, replaced: Option<Seq<char>>) -> Seq<char> {
    match replaced {
        Some(r) => r,
        None => text,
    }
}

/// `text` with the first `n` of `acronyms` capitalized in it, one after the other.
pub open spec fn capitalized_upto(text: Seq<char>, acronyms: Seq<String>, n: nat) -> Seq<char>
    decreases n,
{
    if n == 0 {
        text
    } else {
        let before = capitalized_upto(text, acronyms, (n - 1) as nat);
        replaced_or_same(before, acronym_uppercased(before, acronyms[n - 1]@))
    }
}

/// `text` with all of `acronyms` capitalized in it, in their order.
pub open spec fn capitalized(text: Seq<char>, acronyms: Seq<String>) -> Seq<char> {
    capitalized_upto(text, acronyms, acronyms.len())
}

/// Takes the outcome of the search for one acronym: the replaced text, or
/// `text` where there is none.
pub fn keep_or_replace(text: String, replaced: Option<String>) -> (r: String)
    ensures
        r@ == replaced_or_same(
            text@,
            match replaced {
                Some(s) => Some(s@),
                None => None,
            },
        ),
{
    match replaced {
        Some(s) => s,
        None => text,
    }
}

/// Capitalizes every occurrence of each acronym in `str`, in whatever case
/// it is written and wherever it stands, one acronym after the other.
pub fn capitalize_acronym_substrings(str: &str, acronyms: &[String]) -> (r: String)
    ensures
        r@ == capitalized(str@, acronyms@),
{
    let mut new_string: String = str.to_owned();
    let mut i: usize = 0;
    while i < acronyms.len()
        invariant
            i <= acronyms.len(),
            new_string@ == capitalized_upto(str@, acronyms@, i as nat),
        decreases acronyms.len() - i,
    {
        let replaced = uppercase_acronym(new_string.as_str(), acronyms[i].as_str());
        new_string = keep_or_replace(new_string, replaced);
        i = i + 1;
    }
    new_string
}

/// Whether a word gets the separator before it.
pub fn not_first_word_and_has_separator(first_word: bool, has_separator: bool) -> (b: bool)
    ensures
        b == (has_separator && !first_word),
{
    has_separator && !first_word
}

/// Whether a word begins with a capital.
pub fn first_word_or_not_inverted(first_word: bool, inverted: bool) -> (b: bool)
    ensures
        b == (!inverted || first_word),
{
    !inverted || first_word
}

/// Whether `character` begins a word.
pub fn last_char_lower_current_is_upper_or_new_word(
    new_word: bool,
    last_char: char,
    character: char,
) -> (b: bool)
    ensures
        b == begins_word(new_word, last_char, character),
{
    new_word || ((last_char.is_lowercase() && character.is_uppercase()) && (last_char != ' '))
}

/// Appends what is written for `character` where it begins a word.
pub fn append_on_new_word(
    mut result: String,
    first_word: bool,
    character: char,
    camel_options: &CamelOptions,
) -> (r: String)
    ensures
        r@ == result@ + word_start(first_word, character, *camel_options),
{
    let ghost before = result@;
    if not_first_word_and_has_separator(first_word, camel_options.has_separator) {
        result.push(camel_options.injectable_char);
    }
    if first_word_or_not_inverted(first_word, camel_options.inverted) {
        result.push(character.to_ascii_uppercase());
    } else {
        result.push(character.to_ascii_lowercase());
    }
    assert(result@ =~= before + word_start(first_word, character, *camel_options));
    result
}

/// Writes `convertable_string` with a capital at the beginning of each
/// word, as `camel_options` say, then capitalizes the acronyms.
pub fn to_case_camel_like(
    convertable_string: &str,
    camel_options: CamelOptions,
    acronyms: &[String],
) -> (r: String)
    ensures
        r@ == capitalized(camel_like(convertable_string@, camel_options), acronyms@),
{
    let ghost s = convertable_string@;
    let mut new_word: bool = camel_options.new_word;
    let mut first_word: bool = camel_options.first_word;
    let mut last_char: char = camel_options.last_char;
    let mut found_real_char: bool = false;
    let mut result: String = String::new();
    let chars = chars_of(trim_right(convertable_string));
    let mut i: usize = 0;
    proof {
        lemma_scan_backward(s, s.len() as int, 0, CharClass::Separator);
    }
    while i < chars.len()
        invariant
            s == convertable_string@,
            chars@ == s.subrange(0, trim_right_len(s)),
            0 <= trim_right_len(s) <= s.len(),
            i <= chars.len(),
            camel_upto(s, i as nat, camel_options) == (CamelState {
                new_word,
                first_word,
                last_char,
                found_real_char,
                out: result@,
            }),
        decreases chars.len() - i,
    {
        let character = chars[i];
        proof {
            assert(chars@[i as int] == s[i as int]);
        }
        if char_is_separator(&character) && found_real_char {
            new_word = true;
        } else if !found_real_char && is_not_alphanumeric(character) {
        } else if last_char_lower_current_is_upper_or_new_word(new_word, last_char, character) {
            found_real_char = true;
            new_word = false;
            result = append_on_new_word(result, first_word, character, &camel_options);
            first_word = false;
        } else {
            found_real_char = true;
            last_char = character;
            result.push(character.to_ascii_lowercase());
        }
        i = i + 1;
    }
    capitalize_acronym_substrings(result.as_str(), acronyms)
}

} // verus!
