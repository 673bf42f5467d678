use bwt_fm_index::bwt::{build_bwt, bwt, inverse_bwt};
use bwt_fm_index::fm::FMIndex;
use bwt_fm_index::suffix::build_suffix_array;

/// All offsets of `pat` in the sentinel-terminated copy of `text`.
fn brute_force(text: &[u8], pat: &[u8]) -> Vec<usize> {
    let mut s = text.to_vec();
    if s.last() != Some(&b'$') {
        s.push(b'$');
    }
    let mut hits = Vec::new();
    if pat.is_empty() {
        for i in 0..s.len() {
            hits.push(i);
        }
        return hits;
    }
    for i in 0..s.len() {
        if i + pat.len() <= s.len() && &s[i..i + pat.len()] == pat {
            hits.push(i);
        }
    }
    hits
}

fn search_sorted(fm: &FMIndex, pat: &[u8]) -> Option<Vec<usize>> {
    fm.search(pat).map(|mut v| {
        v.sort();
        v
    })
}

#[test]
fn round_trip_banana() {
    let b = bwt(b"banana");
    assert_eq!(inverse_bwt(&b), Some(b"banana$".to_vec()));
}

#[test]
fn round_trip_repeated_characters() {
    let b = bwt(b"aaaa");
    assert_eq!(inverse_bwt(&b), Some(b"aaaa$".to_vec()));
}

#[test]
fn round_trip_sentinel_already_present() {
    let b = bwt(b"abc$");
    assert_eq!(inverse_bwt(&b), Some(b"abc$".to_vec()));
}

#[test]
fn round_trip_empty_text() {
    let b = bwt(b"");
    assert_eq!(b, b"$".to_vec());
    assert_eq!(inverse_bwt(&b), Some(b"$".to_vec()));
}

#[test]
fn round_trip_sentinel_inside_text() {
    let b = bwt(b"$a");
    assert_eq!(b, b"a$$".to_vec());
    assert_eq!(inverse_bwt(&b), Some(b"$a$".to_vec()));
}

#[test]
fn round_trip_mississippi() {
    let b = bwt(b"mississippi");
    assert_eq!(inverse_bwt(&b), Some(b"mississippi$".to_vec()));
}

#[test]
fn cross_construction_agreement() {
    for text in [&b"banana"[..], b"mississippi", b"aaaa", b"", b"abracadabra"] {
        let sa = build_suffix_array(text);
        assert_eq!(build_bwt(text, &sa), bwt(text));
    }
}

#[test]
fn suffix_array_is_permutation() {
    for text in [&b"banana"[..], b"mississippi", b""] {
        let mut sa = build_suffix_array(text);
        sa.sort();
        let expected: Vec<usize> = (0..sa.len()).collect();
        assert_eq!(sa, expected);
    }
}

#[test]
fn banana_suffix_array_value() {
    // suffixes of "banana$" sorted: $, a$, ana$, anana$, banana$, na$, nana$
    assert_eq!(build_suffix_array(b"banana"), vec![6, 5, 3, 1, 0, 4, 2]);
}

#[test]
fn banana_bwt_value() {
    assert_eq!(bwt(b"banana"), b"annb$aa".to_vec());
}

#[test]
fn banana_search_single_symbol() {
    let fm = FMIndex::new(b"banana");
    assert_eq!(search_sorted(&fm, b"a"), Some(vec![1, 3, 5]));
}

#[test]
fn banana_search_ana() {
    let fm = FMIndex::new(b"banana");
    assert_eq!(search_sorted(&fm, b"ana"), Some(vec![1, 3]));
}

#[test]
fn banana_search_unseen_symbol() {
    let fm = FMIndex::new(b"banana");
    assert_eq!(fm.search(b"z"), None);
}

#[test]
fn banana_search_absent_pattern() {
    // every symbol occurs, but the pattern does not
    let fm = FMIndex::new(b"banana");
    assert_eq!(fm.search(b"aab"), None);
}

#[test]
fn search_matches_brute_force() {
    for text in [&b"mississippi"[..], b"abracadabra", b"banana", b"aaaa"] {
        let fm = FMIndex::new(text);
        for pat in [
            &b"a"[..],
            b"ab",
            b"ss",
            b"issi",
            b"i",
            b"q",
            b"aa",
            b"abracadabra",
            b"mississippi",
            b"ppi",
            b"$",
        ] {
            let mut expected = brute_force(text, pat);
            expected.sort();
            let got = search_sorted(&fm, pat);
            if expected.is_empty() {
                assert_eq!(got, None, "text {:?} pat {:?}", text, pat);
            } else {
                assert_eq!(got, Some(expected), "text {:?} pat {:?}", text, pat);
            }
        }
    }
}

#[test]
fn empty_text_boundary() {
    assert_eq!(build_suffix_array(b""), vec![0]);
    let fm = FMIndex::new(b"");
    assert_eq!(fm.search(b"x"), None);
    assert_eq!(fm.search(b"ab"), None);
}

#[test]
fn empty_pattern_matches_whole_range() {
    let fm = FMIndex::new(b"banana");
    assert_eq!(search_sorted(&fm, b""), Some(vec![0, 1, 2, 3, 4, 5, 6]));
}

#[test]
fn inverse_bwt_rejects_malformed_input() {
    // no row of the reconstruction ends with the sentinel
    assert_eq!(inverse_bwt(b"ab"), None);
    assert_eq!(inverse_bwt(b""), None);
}

#[test]
fn occ_exact_values() {
    // BWT of "banana$" is "annb$aa"
    let fm = FMIndex::new(b"banana");
    assert_eq!(fm.occ(b'a', -1), 0);
    assert_eq!(fm.occ(b'a', 0), 1);
    assert_eq!(fm.occ(b'n', 2), 2);
    assert_eq!(fm.occ(b'b', 3), 1);
    assert_eq!(fm.occ(b'$', 3), 0);
    assert_eq!(fm.occ(b'$', 4), 1);
    assert_eq!(fm.occ(b'a', 6), 3);
    assert_eq!(fm.occ(b'z', 6), 0);
}

#[test]
fn occ_is_monotonic() {
    let fm = FMIndex::new(b"mississippi");
    for c in [b'm', b'i', b's', b'p', b'$', b'q'] {
        let mut prev = fm.occ(c, -1);
        for pos in 0..12 {
            let cur = fm.occ(c, pos);
            assert!(prev <= cur);
            prev = cur;
        }
    }
}

#[test]
fn sentinel_not_duplicated() {
    assert_eq!(build_suffix_array(b"abc$").len(), 4);
    assert_eq!(bwt(b"abc$").len(), 4);
}
