//! `camelCase`: words joined without a separator, each but the first
//! beginning with a capital.

use crate::inflector::case::{camel_like, capitalized, to_case_camel_like, CamelOptions};
use crate::text::same_text;
use vstd::prelude::*;

verus! {

/// How the camel-like conversion is set up for camel case.
pub open spec fn camel_options() -> CamelOptions {
    CamelOptions {
        new_word: false,
        last_char: ' ',
        first_word: false,
        injectable_char: ' ',
        has_separator: false,
        inverted: false,
    }
}

/// `s` in camel case, before any acronym is capitalized.
pub open spec fn camel_case(s: Seq<char>) -> Seq<char> {
    camel_like(s, camel_options())
}

/// Converts a string to `camelCase`, then capitalizes the acronyms in it.
pub fn to_camel_case(non_camelized_string: &str, acronyms: &[String]) -> (r: String)
    ensures
        r@ == capitalized(camel_case(non_camelized_string@), acronyms@),
{
    let options = CamelOptions {
        new_word: false,
        last_char: ' ',
        first_word: false,
        injectable_char: ' ',
        has_separator: false,
        inverted: false,
    };
    to_case_camel_like(non_camelized_string, options, acronyms)
}

/// Whether a string is in `camelCase`: converting it, with no acronyms,
/// changes nothing.
pub fn is_camel_case(test_string: &str) -> (b: bool)
    ensures
        b == (camel_case(test_string@) == test_string@),
{
    let none: Vec<String> = Vec::new();
    let converted = to_camel_case(test_string, none.as_slice());
    same_text(converted.as_str(), test_string)
}

} // verus!
