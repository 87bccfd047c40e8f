//! `Train-Case`: words joined by hyphens, each beginning with a capital.

use crate::inflector::case::{camel_like, to_case_camel_like, CamelOptions};
use crate::text::same_text;
use vstd::prelude::*;

verus! {

/// How the camel-like conversion is set up for train case.
pub open spec fn train_options() -> CamelOptions {
    CamelOptions {
        new_word: true,
        last_char: ' ',
        first_word: true,
        injectable_char: '-',
        has_separator: true,
        inverted: false,
    }
}

/// `s` in train case.
pub open spec fn train_case(s: Seq<char>) -> Seq<char> {
    camel_like(s, train_options())
}

/// Converts a string to `Train-Case`.
pub fn to_train_case(non_train_case_string: &str) -> (r: String)
    ensures
        r@ == train_case(non_train_case_string@),
{
    let options = CamelOptions {
        new_word: true,
        last_char: ' ',
        first_word: true,
        injectable_char: '-',
        has_separator: true,
        inverted: false,
    };
    let none: Vec<String> = Vec::new();
    to_case_camel_like(non_train_case_string, options, none.as_slice())
}

/// Whether a string is in `Train-Case`: converting it changes nothing.
pub fn is_train_case(test_string: &str) -> (b: bool)
    ensures
        b == (train_case(test_string@) == test_string@),
{
    let converted = to_train_case(test_string);
    same_text(converted.as_str(), test_string)
}

} // verus!
