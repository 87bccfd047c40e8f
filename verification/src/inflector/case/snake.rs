//! `snake_case`: lowercase words joined by underscores.

use crate::inflector::case::{snake_like, to_case_snake_like};
use crate::text::same_text;
use vstd::prelude::*;

verus! {

/// `s` in snake case.
pub open spec fn snake_case(s: Seq<char>) -> Seq<char> {
    snake_like(s, '_', true)
}

/// Converts a string to `snake_case`.
pub fn to_snake_case(non_snake_case_string: &str) -> (r: String)
    ensures
        r@ == snake_case(non_snake_case_string@),
{
    proof {
        reveal_strlit("_");
    }
    to_case_snake_like(non_snake_case_string, "_", "lower")
}

/// Whether a string is in `snake_case`: converting it changes nothing.
pub fn is_snake_case(test_string: &str) -> (b: bool)
    ensures
        b == (snake_case(test_string@) == test_string@),
{
    let converted = to_snake_case(test_string);
    same_text(test_string, converted.as_str())
}

} // verus!
