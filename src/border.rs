//! Borders of a prefix (a proper prefix that is also a suffix) and the facts
//! about them that the failure function rests on.

use vstd::prelude::*;

verus! {

/// `l` is the length of a border of `s[0..end]`: a proper prefix of it that
/// is also a suffix of it.
pub open spec fn is_border<T>(s: Seq<T>, end: int, l: int) -> bool {
    &&& 0 <= l < end <= s.len()
    &&& forall|t: int| 0 <= t < l ==> #[trigger] s[t] == s[end - l + t]
}

/// `v` is the length of the longest border of `s[0..=k]`.
pub open spec fn is_longest_border<T>(s: Seq<T>, k: int, v: int) -> bool {
    &&& is_border(s, k + 1, v)
    &&& forall|l: int| v < l && #[trigger] is_border(s, k + 1, l) ==> false
}

/// `table` is the failure function of `needle`: at each index `k`, the
/// length of the longest border of `needle[0..=k]`.
pub open spec fn is_lps_table<T>(needle: Seq<T>, table: Seq<usize>) -> bool {
    &&& table.len() == needle.len()
    &&& forall|k: int| 0 <= k < table.len() ==> is_longest_border(needle, k, #[trigger] table[k] as int)
}

/// `needle` occurs in `haystack` at position `p`, by direct comparison of
/// each element.
pub open spec fn occurs_at<T>(haystack: Seq<T>, needle: Seq<T>, p: int) -> bool {
    &&& 0 <= p
    &&& p + needle.len() <= haystack.len()
    &&& forall|t: int| 0 <= t < needle.len() ==> haystack[p + t] == #[trigger] needle[t]
}

/// `haystack[end - l..end]` equals `needle[0..l]`.
pub open spec fn matches_before<T>(haystack: Seq<T>, needle: Seq<T>, end: int, l: int) -> bool {
    &&& 0 <= l <= end <= haystack.len()
    &&& l <= needle.len()
    &&& forall|t: int| 0 <= t < l ==> haystack[end - l + t] == #[trigger] needle[t]
}

/// A border of a border is a border.
pub proof fn lemma_border_trans<T>(s: Seq<T>, a: int, b: int, c: int)
    requires
        is_border(s, a, b),
        is_border(s, b, c),
    ensures
        is_border(s, a, c),
{
    assert forall|t: int| 0 <= t < c implies #[trigger] s[t] == s[a - c + t] by {
        assert(s[t] == s[b - c + t]);
        assert(s[b - c + t] == s[a - b + (b - c + t)]);
    }
}

/// Of two borders of one prefix, the shorter is a border of the longer.
pub proof fn lemma_border_of_border<T>(s: Seq<T>, a: int, b: int, c: int)
    requires
        is_border(s, a, b),
        is_border(s, a, c),
        c < b,
    ensures
        is_border(s, b, c),
{
    assert forall|t: int| 0 <= t < c implies #[trigger] s[t] == s[b - c + t] by {
        assert(s[t] == s[a - c + t]);
        assert(s[b - c + t] == s[a - b + (b - c + t)]);
    }
}

/// A non-empty border of `s[0..end + 1]` is a border of `s[0..end]` that the
/// element `s[end]` extends.
pub proof fn lemma_border_shrink<T>(s: Seq<T>, end: int, l: int)
    requires
        is_border(s, end + 1, l),
        l > 0,
    ensures
        is_border(s, end, l - 1),
        s[l - 1] == s[end],
{
    assert(s[l - 1] == s[end + 1 - l + (l - 1)]);
}

/// A border of `s[0..end]` that `s[end]` extends gives a border of
/// `s[0..end + 1]`.
pub proof fn lemma_border_extend<T>(s: Seq<T>, end: int, l: int)
    requires
        is_border(s, end, l),
        end < s.len(),
        s[l] == s[end],
    ensures
        is_border(s, end + 1, l + 1),
{
    assert forall|t: int| 0 <= t < l + 1 implies #[trigger] s[t] == s[end + 1 - (l + 1) + t] by {
        if t < l {
            assert(s[t] == s[end - l + t]);
        }
    }
}

/// A partial match extended by one equal element.
pub proof fn lemma_match_extend<T>(h: Seq<T>, n: Seq<T>, end: int, l: int)
    requires
        matches_before(h, n, end, l),
        end < h.len(),
        l < n.len(),
        h[end] == n[l],
    ensures
        matches_before(h, n, end + 1, l + 1),
{
    assert forall|t: int| 0 <= t < l + 1 implies h[end + 1 - (l + 1) + t] == #[trigger] n[t] by {
        if t < l {
            assert(h[end - l + t] == n[t]);
        }
    }
}

/// A non-empty partial match ending at `end + 1` is one ending at `end`,
/// followed by an equal element.
pub proof fn lemma_match_shrink<T>(h: Seq<T>, n: Seq<T>, end: int, l: int)
    requires
        matches_before(h, n, end + 1, l),
        l > 0,
    ensures
        matches_before(h, n, end, l - 1),
        h[end] == n[l - 1],
{
    assert(h[end + 1 - l + (l - 1)] == n[l - 1]);
}

/// Two partial matches ending at one place: the shorter is a border of the
/// longer's part of the needle.
pub proof fn lemma_match_border<T>(h: Seq<T>, n: Seq<T>, end: int, a: int, b: int)
    requires
        matches_before(h, n, end, a),
        matches_before(h, n, end, b),
        b < a,
    ensures
        is_border(n, a, b),
{
    assert forall|t: int| 0 <= t < b implies #[trigger] n[t] == n[a - b + t] by {
        assert(h[end - b + t] == n[t]);
        assert(h[end - a + (a - b + t)] == n[a - b + t]);
    }
}

/// A border of a partial match is a partial match too.
pub proof fn lemma_match_via_border<T>(h: Seq<T>, n: Seq<T>, end: int, a: int, b: int)
    requires
        matches_before(h, n, end, a),
        is_border(n, a, b),
    ensures
        matches_before(h, n, end, b),
{
    assert forall|t: int| 0 <= t < b implies h[end - b + t] == #[trigger] n[t] by {
        assert(n[t] == n[a - b + t]);
        assert(h[end - a + (a - b + t)] == n[a - b + t]);
    }
}

} // verus!
