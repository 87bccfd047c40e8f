//! Finds `CODESYNC` annotations in source text, reads their arguments and
//! checks that the annotations of a code base agree with each other.

use vstd::prelude::*;

pub mod args;
pub mod check;
pub mod inflector;
pub mod kmp;
pub mod matcher;
pub mod matches;
pub mod text;

pub use args::{Arg, Args, ArgsError, CountArg, LabelArg};
pub use check::{Case, CheckArgs, Checker, Finding, FindingKind, Location, Severity};
pub use matcher::Matcher;
pub use matches::{Comment, FileMatches, InvalidMatch, LabelGroup, Match, Matches};

verus! {

/// The marker that begins every annotation: the bytes of `CODESYNC`.
pub const PATTERN: [u8; 8] = [67, 79, 68, 69, 83, 89, 78, 67];

/// The partial-match table of the marker.
pub const PATTERN_KMP_TABLE: [usize; 8] = [0, 0, 0, 0, 0, 0, 0, 1];

/// The table that the searches use is the partial-match table of the marker.
pub proof fn lemma_pattern_table()
    ensures
        kmp::is_failure_table(PATTERN@, PATTERN_KMP_TABLE@),
{
    let p = PATTERN@;
    let t = PATTERN_KMP_TABLE@;
    assert forall|i: int| 0 <= i < p.len() implies kmp::is_longest_border(
        p,
        i + 1,
        #[trigger] t[i] as int,
    ) by {
        let len = i + 1;
        assert forall|k: int| kmp::is_border(p, len, k) implies k <= t[i] by {
            if k > t[i] {
                assert(p[0] == p[len - k + 0]);
                if i == 7 {
                    assert(p[1] == p[len - k + 1]);
                }
            }
        }
        assert(kmp::is_border(p, len, t[i] as int)) by {
            if i == 7 {
                assert(p[0] == p[7]);
            }
        }
    }
}

/// Finds the first occurrence of the marker in `haystack`.
pub fn find_codesync_pattern(haystack: &[u8]) -> (r: Option<usize>)
    ensures
        match r {
            Some(at) => kmp::first_occurrence(haystack@, PATTERN@, at as int),
            None => !kmp::occurs(haystack@, PATTERN@),
        },
{
    proof {
        lemma_pattern_table();
    }
    let pattern = PATTERN;
    let table = PATTERN_KMP_TABLE;
    kmp::search(haystack, pattern.as_slice(), table.as_slice())
}

} // verus!
