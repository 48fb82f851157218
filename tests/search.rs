use kmp::{compute_lps_table, kmp_search};

fn chars(s: &str) -> Vec<char> {
    s.chars().collect()
}

fn brute_force<T: PartialEq>(haystack: &[T], needle: &[T]) -> Vec<usize> {
    let mut out = Vec::new();
    if needle.is_empty() || needle.len() > haystack.len() {
        return out;
    }
    for p in 0..=haystack.len() - needle.len() {
        if haystack[p..p + needle.len()] == *needle {
            out.push(p);
        }
    }
    out
}

/// Every string over `alphabet` of length at most `max_len`.
fn all_strings(alphabet: &[u8], max_len: usize) -> Vec<Vec<u8>> {
    let mut all: Vec<Vec<u8>> = vec![Vec::new()];
    let mut layer: Vec<Vec<u8>> = vec![Vec::new()];
    for _ in 0..max_len {
        let mut next = Vec::new();
        for s in &layer {
            for &c in alphabet {
                let mut t = s.clone();
                t.push(c);
                next.push(t);
            }
        }
        all.extend(next.iter().cloned());
        layer = next;
    }
    all
}

#[test]
fn text_single_match() {
    assert_eq!(kmp_search(&chars("ABABCABABABCD"), &chars("ABABCD")), vec![7]);
}

#[test]
fn overlapping_matches() {
    assert_eq!(kmp_search(&chars("abababa"), &chars("aba")), vec![0, 2, 4]);
}

#[test]
fn numeric_sequence() {
    let sequence: Vec<u8> = vec![1, 2, 3, 1, 2, 4, 5, 1, 2, 3, 1, 2, 3, 5];
    let sub_sequence: Vec<u8> = vec![1, 2, 3, 5];
    // The only occurrence is sequence[10..14] == [1, 2, 3, 5]; index 9 holds 3.
    assert_eq!(sequence[9], 3);
    assert_eq!(kmp_search(&sequence, &sub_sequence), vec![10]);
}

#[test]
fn no_match() {
    assert_eq!(kmp_search(&chars("abcdefg"), &chars("xyz")), Vec::<usize>::new());
}

#[test]
fn empty_needle_matches_nowhere() {
    assert_eq!(kmp_search(&chars("abc"), &chars("")), Vec::<usize>::new());
    assert_eq!(kmp_search(&chars(""), &chars("")), Vec::<usize>::new());
}

#[test]
fn oversized_needle() {
    assert_eq!(kmp_search(&chars("ab"), &chars("abc")), Vec::<usize>::new());
    assert_eq!(kmp_search(&chars(""), &chars("a")), Vec::<usize>::new());
}

#[test]
fn needle_equal_to_haystack() {
    assert_eq!(kmp_search(&chars("abcab"), &chars("abcab")), vec![0]);
}

#[test]
fn repeated_element_matches_everywhere() {
    let haystack: Vec<u32> = vec![7; 10];
    let needle: Vec<u32> = vec![7; 3];
    assert_eq!(kmp_search(&haystack, &needle), vec![0, 1, 2, 3, 4, 5, 6, 7]);
}

#[test]
fn match_at_the_very_end() {
    assert_eq!(kmp_search(&chars("aaab"), &chars("aab")), vec![1]);
    assert_eq!(kmp_search(&chars("xyzab"), &chars("b")), vec![4]);
}

#[test]
fn agrees_with_brute_force_on_small_alphabet() {
    let strings = all_strings(b"ab", 7);
    let needles = all_strings(b"ab", 4);
    for h in &strings {
        for n in &needles {
            assert_eq!(kmp_search(h, n), brute_force(h, n), "haystack {:?} needle {:?}", h, n);
        }
    }
}

#[test]
fn results_strictly_increase() {
    for h in &all_strings(b"abc", 6) {
        for n in &all_strings(b"abc", 2) {
            let found = kmp_search(h, n);
            for w in found.windows(2) {
                assert!(w[0] < w[1]);
            }
        }
    }
}

#[test]
fn lps_table_values() {
    assert_eq!(compute_lps_table(&chars("ABABCD")), vec![0, 0, 1, 2, 0, 0]);
    assert_eq!(compute_lps_table(&chars("aabaaab")), vec![0, 1, 0, 1, 2, 2, 3]);
    assert_eq!(compute_lps_table(&chars("aaaa")), vec![0, 1, 2, 3]);
    assert_eq!(compute_lps_table(&chars("abcd")), vec![0, 0, 0, 0]);
}

#[test]
fn lps_table_of_empty_needle_is_empty() {
    assert_eq!(compute_lps_table::<char>(&[]), Vec::<usize>::new());
}

#[test]
fn lps_table_bounds() {
    for n in &all_strings(b"ab", 8) {
        let table = compute_lps_table(n);
        assert_eq!(table.len(), n.len());
        if !n.is_empty() {
            assert_eq!(table[0], 0);
        }
        for (k, &v) in table.iter().enumerate() {
            assert!(v <= k);
            assert_eq!(n[..v], n[k + 1 - v..k + 1]);
        }
    }
}
