//! Exact substring search with a precomputed partial-match table.
//!
//! The table is built once from the needle and reused for every search, so a
//! search never compares a haystack byte twice against a needle byte that
//! is already known to match.

use vstd::prelude::*;

verus! {

/// `needle` occurs in `haystack` starting at offset `at`.
pub open spec fn occurs_at(haystack: Seq<u8>, needle: Seq<u8>, at: int) -> bool {
    &&& 0 <= at
    &&& at + needle.len() <= haystack.len()
    &&& forall|k: int| 0 <= k < needle.len() ==> #[trigger] haystack[at + k] == needle[k]
}

/// `needle` occurs somewhere in `haystack`.
pub open spec fn occurs(haystack: Seq<u8>, needle: Seq<u8>) -> bool {
    exists|at: int| occurs_at(haystack, needle, at)
}

/// `at` is the smallest offset at which `needle` occurs in `haystack`.
pub open spec fn first_occurrence(haystack: Seq<u8>, needle: Seq<u8>, at: int) -> bool {
    &&& occurs_at(haystack, needle, at)
    &&& forall|j: int| 0 <= j < at ==> !occurs_at(haystack, needle, j)
}

/// The first `k` bytes of `p` are also the last `k` bytes of its prefix of
/// length `len`, and `k < len`: `k` is the length of a proper border of that prefix.
pub open spec fn is_border(p: Seq<u8>, len: int, k: int) -> bool {
    &&& 0 <= k < len <= p.len()
    &&& forall|x: int| 0 <= x < k ==> #[trigger] p[x] == p[len - k + x]
}

/// `k` is the length of the longest proper border of the prefix of `p` of length `len`.
pub open spec fn is_longest_border(p: Seq<u8>, len: int, k: int) -> bool {
    &&& is_border(p, len, k)
    &&& forall|k2: int| is_border(p, len, k2) ==> k2 <= k
}

/// `t` is a partial-match table of `p`: entry `i` is the length of the longest
/// proper prefix of `p` that is also a suffix of the first `i + 1` bytes of `p`.
/// Entries past the end of `p` are not constrained.
pub open spec fn is_failure_table(p: Seq<u8>, t: Seq<usize>) -> bool {
    &&& p.len() <= t.len()
    &&& forall|i: int| 0 <= i < p.len() ==> is_longest_border(p, i + 1, #[trigger] t[i] as int)
}

/// A border of a border of a prefix is a border of that prefix.
proof fn lemma_border_of_border(p: Seq<u8>, len: int, j: int, k: int)
    requires
        is_border(p, len, j),
        is_border(p, j, k),
    ensures
        is_border(p, len, k),
{
    assert forall|x: int| 0 <= x < k implies #[trigger] p[x] == p[len - k + x] by {
        assert(p[x] == p[j - k + x]);
        assert(p[j - k + x] == p[len - j + (j - k + x)]);
    }
}

/// Of two borders of the same prefix, the shorter is a border of the longer.
proof fn lemma_border_within_border(p: Seq<u8>, len: int, j: int, k: int)
    requires
        is_border(p, len, j),
        is_border(p, len, k),
        k < j,
    ensures
        is_border(p, j, k),
{
    assert forall|x: int| 0 <= x < k implies #[trigger] p[x] == p[j - k + x] by {
        assert(p[x] == p[len - k + x]);
        assert(p[j - k + x] == p[len - j + (j - k + x)]);
    }
}

/// A border of a prefix extended by one byte, shortened by one byte, is a
/// border of the prefix, and its next byte is the byte that was added.
proof fn lemma_border_shrink(p: Seq<u8>, len: int, k: int)
    requires
        is_border(p, len + 1, k),
        k >= 1,
    ensures
        is_border(p, len, k - 1),
        p[k - 1] == p[len],
{
    assert forall|x: int| 0 <= x < k - 1 implies #[trigger] p[x] == p[len - (k - 1) + x] by {
        assert(p[x] == p[len + 1 - k + x]);
    }
    assert(p[k - 1] == p[len + 1 - k + (k - 1)]);
}

/// Builds the partial-match table of `p` in an array of `N` entries.
///
/// Entry `i` for `i < p.len()` is the length of the longest proper border of
/// the first `i + 1` bytes of `p`; the entries after that are zero.
pub fn table<const N: usize>(p: &[u8]) -> (t: [usize; N])
    requires
        p.len() <= N,
    ensures
        is_failure_table(p@, t@),
        forall|i: int| p.len() <= i < N ==> t[i] == 0,
{
    let m: usize = p.len();
    let mut t = [0usize; N];
    if m == 0 {
        return t;
    }
    let mut i: usize = 1;
    let mut j: usize = 0;
    assert(is_longest_border(p@, 1, 0));
    while i < m
        invariant
            m == p.len(),
            m <= N,
            1 <= i <= m,
            j < i,
            is_border(p@, i as int, j as int),
            forall|k: int| j < k && i < m && is_border(p@, i as int, k) ==> p[k] != p[i as int],
            forall|x: int| 0 <= x < i ==> is_longest_border(p@, x + 1, #[trigger] t[x] as int),
            forall|x: int| i <= x < N ==> t[x] == 0,
        decreases 2 * (m - i) + j,
    {
        if p[i] == p[j] {
            proof {
                assert forall|x: int| 0 <= x < j + 1 implies #[trigger] p@[x] == p@[i + 1 - (j + 1) + x] by {
                    if x < j {
                        assert(p@[x] == p@[i - j + x]);
                    }
                }
                let len = i as int + 1;
                assert(is_border(p@, len, j + 1));
                assert forall|k2: int| is_border(p@, len, k2) implies k2 <= j + 1 by {
                    if k2 >= 1 {
                        lemma_border_shrink(p@, i as int, k2);
                    }
                }
            }
            t[i] = j + 1;
            i = i + 1;
            j = j + 1;
        } else if j == 0 {
            proof {
                let len = i as int + 1;
                assert(is_border(p@, len, 0));
                assert forall|k2: int| is_border(p@, len, k2) implies k2 <= 0 by {
                    if k2 >= 1 {
                        lemma_border_shrink(p@, i as int, k2);
                    }
                }
            }
            t[i] = 0;
            i = i + 1;
        } else {
            let b: usize = t[j - 1];
            proof {
                assert(is_longest_border(p@, j as int, b as int));
                lemma_border_of_border(p@, i as int, j as int, b as int);
                assert forall|k: int| b < k && i < m && is_border(p@, i as int, k) implies p[k] != p[i as int] by {
                    if k < j {
                        lemma_border_within_border(p@, i as int, j as int, k);
                    }
                }
            }
            j = b;
        }
    }
    t
}

/// Finds the first occurrence of `needle` in `haystack`, given the
/// partial-match table of `needle`.
///
/// Returns the offset of the first occurrence, or `None` when the needle is
/// empty or does not occur.
pub fn search(haystack: &[u8], needle: &[u8], table: &[usize]) -> (r: Option<usize>)
    requires
        is_failure_table(needle@, table@),
    ensures
        match r {
            Some(at) => needle.len() > 0 && first_occurrence(haystack@, needle@, at as int),
            None => needle.len() == 0 || !occurs(haystack@, needle@),
        },
{
    let n: usize = needle.len();
    if n == 0 {
        return None;
    }
    let mut t_i: usize = 0;
    let mut p_i: usize = 0;
    while t_i < haystack.len()
        invariant
            n == needle.len(),
            n > 0,
            is_failure_table(needle@, table@),
            p_i < n,
            p_i <= t_i <= haystack.len(),
            forall|k: int| 0 <= k < p_i ==> #[trigger] haystack[t_i - p_i + k] == needle[k],
            forall|j: int| 0 <= j < t_i - p_i ==> !occurs_at(haystack@, needle@, j),
        decreases 2 * (haystack.len() - t_i) + p_i,
    {
        if haystack[t_i] == needle[p_i] {
            t_i = t_i + 1;
            p_i = p_i + 1;
            if p_i >= n {
                proof {
                    assert forall|k: int| 0 <= k < n implies #[trigger] haystack@[t_i - n + k] == needle@[k] by {
                        if k < n - 1 {
                            assert(haystack[(t_i - 1) - (p_i - 1) + k] == needle[k]);
                        }
                    }
                }
                return Some(t_i - n);
            }
            proof {
                assert forall|k: int| 0 <= k < p_i implies #[trigger] haystack[t_i - p_i + k] == needle[k] by {
                    if k < p_i - 1 {
                        assert(haystack[(t_i - 1) - (p_i - 1) + k] == needle[k]);
                    }
                }
            }
        } else if p_i == 0 {
            proof {
                assert(!occurs_at(haystack@, needle@, t_i as int)) by {
                    if occurs_at(haystack@, needle@, t_i as int) {
                        assert(haystack@[t_i + 0] == needle@[0]);
                    }
                }
            }
            t_i = t_i + 1;
        } else {
            let b: usize = table[p_i - 1];
            proof {
                assert(is_longest_border(needle@, p_i as int, b as int));
                assert forall|k: int| 0 <= k < b implies #[trigger] haystack[t_i - b + k] == needle[k] by {
                    assert(needle@[k] == needle@[p_i - b + k]);
                    assert(haystack[t_i - p_i + (p_i - b + k)] == needle[p_i - b + k]);
                }
                assert forall|j: int| 0 <= j < t_i - b implies !occurs_at(haystack@, needle@, j) by {
                    if j >= t_i - p_i && occurs_at(haystack@, needle@, j) {
                        let k = t_i - j;
                        if k == p_i {
                            assert(haystack@[j + p_i] == needle@[p_i as int]);
                        } else {
                            assert forall|x: int| 0 <= x < k implies #[trigger] needle@[x] == needle@[p_i - k + x] by {
                                assert(haystack@[j + x] == needle@[x]);
                                assert(haystack[t_i - p_i + (p_i - k + x)] == needle[p_i - k + x]);
                            }
                            assert(is_border(needle@, p_i as int, k));
                        }
                    }
                }
            }
            p_i = b;
        }
    }
    proof {
        assert forall|j: int| !occurs_at(haystack@, needle@, j) by {
            if occurs_at(haystack@, needle@, j) {
                assert(j >= t_i - p_i);
                assert(j + n <= haystack.len());
            }
        }
    }
    None
}

} // verus!
