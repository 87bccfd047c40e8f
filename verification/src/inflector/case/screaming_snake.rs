//! `SCREAMING_SNAKE_CASE`: uppercase words joined by underscores.

use crate::inflector::case::{snake_like, to_case_snake_like};
use crate::text::same_text;
use vstd::prelude::*;

verus! {

/// `s` in screaming snake case.
pub open spec fn screaming_snake_case(s: Seq<char>) -> Seq<char> {
    snake_like(s, '_', false)
}

/// Converts a string to `SCREAMING_SNAKE_CASE`.
pub fn to_screaming_snake_case(non_snake_case_string: &str) -> (r: String)
    ensures
        r@ == screaming_snake_case(non_snake_case_string@),
{
    proof {
        reveal_strlit("_");
        reveal_strlit("upper");
        reveal_strlit("lower");
        assert("upper"@[0] != "lower"@[0]);
    }
    to_case_snake_like(non_snake_case_string, "_", "upper")
}

/// Whether a string is in `SCREAMING_SNAKE_CASE`: converting it changes nothing.
pub fn is_screaming_snake_case(test_string: &str) -> (b: bool)
    ensures
        b == (screaming_snake_case(test_string@) == test_string@),
{
    let converted = to_screaming_snake_case(test_string);
    same_text(test_string, converted.as_str())
}

} // verus!
