//! `kebab-case`: lowercase words joined by hyphens.

use crate::inflector::case::{snake_like, to_case_snake_like};
use crate::text::same_text;
use vstd::prelude::*;

verus! {

/// `s` in kebab case.
pub open spec fn kebab_case(s: Seq<char>) -> Seq<char> {
    snake_like(s, '-', true)
}

/// Converts a string to `kebab-case`.
pub fn to_kebab_case(non_kebab_case_string: &str) -> (r: String)
    ensures
        r@ == kebab_case(non_kebab_case_string@),
{
    proof {
        reveal_strlit("-");
    }
    to_case_snake_like(non_kebab_case_string, "-", "lower")
}

/// Whether a string is in `kebab-case`: converting it changes nothing.
pub fn is_kebab_case(test_string: &str) -> (b: bool)
    ensures
        b == (kebab_case(test_string@) == test_string@),
{
    let converted = to_kebab_case(test_string);
    same_text(test_string, converted.as_str())
}

} // verus!
