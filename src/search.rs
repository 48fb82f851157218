//! The failure-function builder and the scanner.

use vstd::prelude::*;
use vstd::laws_eq::obeys_concrete_eq;

use crate::border::{
    is_border, is_longest_border, is_lps_table, lemma_border_extend, lemma_border_of_border,
    lemma_border_shrink, lemma_border_trans, lemma_match_border, lemma_match_extend,
    lemma_match_shrink, lemma_match_via_border, matches_before, occurs_at,
};

verus! {

/// Builds the failure function of `needle`: at each index `k`, the length of
/// the longest proper prefix of `needle[0..=k]` that is also its suffix.
/// The element type's `==` must be plain equality of values.
pub fn compute_lps_table<T: PartialEq>(needle: &[T]) -> (table: Vec<usize>)
    requires
        obeys_concrete_eq::<T>(),
    ensures
        is_lps_table(needle@, table@),
        table@.len() == needle@.len(),
        needle@.len() > 0 ==> table@[0] == 0,
        forall|k: int| 0 <= k < table@.len() ==> #[trigger] table@[k] <= k,
{
    let m = needle.len();
    if m == 0 {
        return Vec::new();
    }
    let mut lps: Vec<usize> = vec![0; m];
    let mut length: usize = 0;
    let mut i: usize = 1;
    assert(is_border(needle@, 1, 0));
    while i < m
        invariant
            obeys_concrete_eq::<T>(),
            1 <= i <= m,
            m == needle@.len(),
            lps@.len() == m,
            length < i,
            is_border(needle@, i as int, length as int),
            forall|k: int| 0 <= k < i ==> is_longest_border(needle@, k, #[trigger] lps@[k] as int),
            forall|l: int|
                length < l && #[trigger] is_border(needle@, i as int, l) ==> needle@[l] != needle@[i as int],
        decreases 2 * (m - i) + length,
    {
        proof {
            reveal(obeys_concrete_eq);
        }
        if needle[i] == needle[length] {
            proof {
                assert forall|l: int| (length + 1) < l && #[trigger] is_border(needle@, i + 1, l) implies false by {
                    lemma_border_shrink(needle@, i as int, l);
                }
                lemma_border_extend(needle@, i as int, length as int);
            }
            length = length + 1;
            lps.set(i, length);
            i = i + 1;
            proof {
                assert forall|l: int| length < l && #[trigger] is_border(needle@, i as int, l)
                    implies needle@[l] != needle@[i as int] by {
                    assert(is_border(needle@, (i - 1) + 1, l));
                }
            }
        } else if length != 0 {
            let shorter = lps[length - 1];
            proof {
                assert(is_longest_border(needle@, length - 1, shorter as int));
                lemma_border_trans(needle@, i as int, length as int, shorter as int);
                assert forall|l: int| shorter < l && #[trigger] is_border(needle@, i as int, l)
                    implies needle@[l] != needle@[i as int] by {
                    if l < length {
                        lemma_border_of_border(needle@, i as int, length as int, l);
                        assert(is_border(needle@, (length - 1) + 1, l));
                    }
                }
            }
            length = shorter;
        } else {
            proof {
                assert forall|l: int| 0 < l && #[trigger] is_border(needle@, i + 1, l) implies false by {
                    lemma_border_shrink(needle@, i as int, l);
                }
                assert(is_border(needle@, i + 1, 0));
            }
            lps.set(i, 0);
            i = i + 1;
            proof {
                assert forall|l: int| 0 < l && #[trigger] is_border(needle@, i as int, l)
                    implies needle@[l] != needle@[i as int] by {
                    assert(is_border(needle@, (i - 1) + 1, l));
                }
            }
        }
    }
    proof {
        assert forall|k: int| 0 <= k < lps@.len() implies #[trigger] lps@[k] <= k by {
            assert(is_longest_border(needle@, k, lps@[k] as int));
        }
    }
    lps
}

/// Finds every start position of `needle` in `haystack`, overlapping
/// occurrences included, in ascending order. An empty needle occurs nowhere.
/// The element type's `==` must be plain equality of values.
pub fn kmp_search<T: PartialEq>(haystack: &[T], needle: &[T]) -> (found: Vec<usize>)
    requires
        obeys_concrete_eq::<T>(),
    ensures
        forall|k: int| 0 <= k < found@.len() ==> occurs_at(haystack@, needle@, #[trigger] found@[k] as int),
        forall|p: int| needle@.len() > 0 && #[trigger] occurs_at(haystack@, needle@, p) ==> found@.contains(p as usize),
        forall|a: int, b: int| 0 <= a < b < found@.len() ==> found@[a] < found@[b],
        needle@.len() == 0 ==> found@.len() == 0,
        needle@.len() > haystack@.len() ==> found@.len() == 0,
{
    let n = haystack.len();
    let m = needle.len();
    if m == 0 || n < m {
        return Vec::new();
    }
    let lps = compute_lps_table(needle);
    let mut found: Vec<usize> = Vec::new();
    let mut i: usize = 0;
    let mut j: usize = 0;
    while i < n
        invariant
            obeys_concrete_eq::<T>(),
            n == haystack@.len(),
            m == needle@.len(),
            0 < m <= n,
            is_lps_table(needle@, lps@),
            i <= n,
            j < m,
            matches_before(haystack@, needle@, i as int, j as int),
            forall|l: int| j < l < m && #[trigger] matches_before(haystack@, needle@, i as int, l)
                ==> i < n && haystack@[i as int] != needle@[l],
            forall|k: int| 0 <= k < found@.len() ==> occurs_at(haystack@, needle@, #[trigger] found@[k] as int)
                && found@[k] + m <= i,
            forall|p: int| p + m <= i && #[trigger] occurs_at(haystack@, needle@, p) ==> found@.contains(p as usize),
            forall|a: int, b: int| 0 <= a < b < found@.len() ==> found@[a] < found@[b],
        decreases 2 * (n - i) + j,
    {
        proof {
            reveal(obeys_concrete_eq);
        }
        if haystack[i] == needle[j] {
            proof {
                lemma_match_extend(haystack@, needle@, i as int, j as int);
                assert forall|l: int| j + 1 < l <= m && #[trigger] matches_before(haystack@, needle@, i + 1, l)
                    implies false by {
                    lemma_match_shrink(haystack@, needle@, i as int, l);
                }
                assert forall|p: int| p + m <= i + 1 && #[trigger] occurs_at(haystack@, needle@, p)
                    implies found@.contains(p as usize) || (p + m == i + 1 && j + 1 == m) by {
                    if p + m == i + 1 {
                        assert(matches_before(haystack@, needle@, i + 1, m as int));
                    }
                }
            }
            i = i + 1;
            j = j + 1;
        }
        if j == m {
            let ghost before = found@;
            found.push(i - j);
            proof {
                assert(matches_before(haystack@, needle@, i as int, m as int));
                assert(occurs_at(haystack@, needle@, i - m));
                assert forall|p: int| p + m <= i && #[trigger] occurs_at(haystack@, needle@, p)
                    implies found@.contains(p as usize) by {
                    if p + m == i {
                        assert(found@[before.len() as int] == p);
                    } else {
                        let k = choose|k: int| 0 <= k < before.len() && before[k] == p as usize;
                        assert(found@[k] == p);
                    }
                }
            }
            let shorter = lps[j - 1];
            proof {
                assert(is_longest_border(needle@, m - 1, shorter as int));
                lemma_match_via_border(haystack@, needle@, i as int, m as int, shorter as int);
                assert forall|l: int| shorter < l < m && #[trigger] matches_before(haystack@, needle@, i as int, l)
                    implies false by {
                    lemma_match_border(haystack@, needle@, i as int, m as int, l);
                    assert(is_border(needle@, (m - 1) + 1, l));
                }
            }
            j = shorter;
        } else if i < n && haystack[i] != needle[j] {
            if j != 0 {
                let shorter = lps[j - 1];
                proof {
                    assert(is_longest_border(needle@, j - 1, shorter as int));
                    lemma_match_via_border(haystack@, needle@, i as int, j as int, shorter as int);
                    assert forall|l: int| shorter < l < m && #[trigger] matches_before(haystack@, needle@, i as int, l)
                        implies i < n && haystack@[i as int] != needle@[l] by {
                        if l < j {
                            lemma_match_border(haystack@, needle@, i as int, j as int, l);
                            assert(is_border(needle@, (j - 1) + 1, l));
                        }
                    }
                }
                j = shorter;
            } else {
                proof {
                    assert forall|l: int| 0 < l < m && #[trigger] matches_before(haystack@, needle@, i + 1, l)
                        implies false by {
                        lemma_match_shrink(haystack@, needle@, i as int, l);
                    }
                    assert forall|p: int| p + m <= i + 1 && #[trigger] occurs_at(haystack@, needle@, p)
                        implies found@.contains(p as usize) by {
                        if p + m == i + 1 {
                            assert(matches_before(haystack@, needle@, i + 1, m as int));
                            lemma_match_shrink(haystack@, needle@, i as int, m as int);
                        }
                    }
                }
                i = i + 1;
            }
        }
    }
    found
}

} // verus!
