//! `PascalCase`: words joined without a separator, each beginning with a capital.

use crate::inflector::case::{camel_like, to_case_camel_like, CamelOptions};
use crate::text::same_text;
use vstd::prelude::*;

verus! {

/// How the camel-like conversion is set up for Pascal case.
pub open spec fn pascal_options() -> CamelOptions {
    CamelOptions {
        new_word: true,
        last_char: ' ',
        first_word: false,
        injectable_char: ' ',
        has_separator: false,
        inverted: false,
    }
}

/// `s` in Pascal case.
pub open spec fn pascal_case(s: Seq<char>) -> Seq<char> {
    camel_like(s, pascal_options())
}

/// Converts a string to `PascalCase`.
pub fn to_pascal_case(non_pascal_case_string: &str) -> (r: String)
    ensures
        r@ == pascal_case(non_pascal_case_string@),
{
    let options = CamelOptions {
        new_word: true,
        last_char: ' ',
        first_word: false,
        injectable_char: ' ',
        has_separator: false,
        inverted: false,
    };
    let none: Vec<String> = Vec::new();
    to_case_camel_like(non_pascal_case_string, options, none.as_slice())
}

/// Whether a string is in `PascalCase`: converting it changes nothing.
pub fn is_pascal_case(test_string: &str) -> (b: bool)
    ensures
        b == (pascal_case(test_string@) == test_string@),
{
    let converted = to_pascal_case(test_string);
    same_text(converted.as_str(), test_string)
}

} // verus!
