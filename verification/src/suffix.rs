//! The suffix array: the permutation of text positions that sorts the
//! suffixes of the sentinel-terminated text lexicographically.

use vstd::prelude::*;
use vstd::set_lib::set_int_range;
use crate::order::{lex_le, lemma_lex_le_common_prefix, lemma_lex_le_reflexive, lemma_lex_le_total, lemma_lex_le_transitive};
use crate::text::{suffix, with_sentinel, sentinel_terminated};

verus! {

/// `sa` is the suffix array of `s`: a duplicate-free sequence of `s.len()`
/// positions of `s`, ordered so that the suffixes starting there ascend
/// lexicographically. The suffixes of a text are pairwise distinct, so at
/// most one sequence satisfies this.
pub open spec fn is_suffix_array(s: Seq<u8>, sa: Seq<usize>) -> bool {
    &&& sa.len() == s.len()
    &&& forall|k: int| 0 <= k < sa.len() ==> (#[trigger] sa[k] as int) < s.len()
    &&& forall|a: int, b: int| 0 <= a < b < sa.len() ==> sa[a] != sa[b]
    &&& forall|a: int, b: int|
        0 <= a < b < sa.len() ==> lex_le(suffix(s, #[trigger] sa[a] as int), suffix(s, #[trigger] sa[b] as int))
}

/// Compares the suffixes of `s` that start at `i` and at `j`.
fn suffix_le(s: &Vec<u8>, i: usize, j: usize) -> (r: bool)
    requires
        i < s@.len(),
        j < s@.len(),
    ensures
        r == lex_le(suffix(s@, i as int), suffix(s@, j as int)),
{
    let n = s.len();
    let mut k: usize = 0;
    while i + k < n && j + k < n && s[i + k] == s[j + k]
        invariant
            i < n,
            j < n,
            n == s@.len(),
            k <= n - i,
            k <= n - j,
            forall|t: int| 0 <= t < k ==> #[trigger] s@[i + t] == s@[j + t],
        decreases n - k,
    {
        k = k + 1;
    }
    let ghost a = suffix(s@, i as int);
    let ghost b = suffix(s@, j as int);
    proof {
        assert forall|t: int| 0 <= t < k implies a[t] == b[t] by {
            assert(s@[i + t] == s@[j + t]);
        }
        lemma_lex_le_common_prefix(a, b, k as int);
        assert(a.skip(k as int) =~= suffix(s@, i + k));
        assert(b.skip(k as int) =~= suffix(s@, j + k));
    }
    if i + k == n {
        true
    } else if j + k == n {
        false
    } else {
        proof {
            assert(suffix(s@, i + k)[0] == s@[i + k]);
            assert(suffix(s@, j + k)[0] == s@[j + k]);
        }
        s[i + k] < s[j + k]
    }
}

/// Builds the suffix array of `text` (with the sentinel appended when it is
/// missing) by sorting all suffix start positions.
pub fn build_suffix_array(text: &[u8]) -> (sa: Vec<usize>)
    ensures
        is_suffix_array(with_sentinel(text@), sa@),
{
    let s = sentinel_terminated(text);
    let n = s.len();
    let mut sa: Vec<usize> = Vec::new();
    let mut i: usize = 0;
    while i < n
        invariant
            i <= n,
            sa@.len() == i,
            forall|t: int| 0 <= t < i ==> sa@[t] == t,
        decreases n - i,
    {
        sa.push(i);
        i = i + 1;
    }
    let mut i: usize = 0;
    while i < n
        invariant
            n == s@.len(),
            sa@.len() == n,
            i <= n,
            forall|t: int| 0 <= t < n ==> (#[trigger] sa@[t] as int) < n,
            forall|a: int, b: int| 0 <= a < b < n ==> sa@[a] != sa@[b],
            forall|a: int, b: int|
                0 <= a < b < i ==> lex_le(
                    suffix(s@, #[trigger] sa@[a] as int),
                    suffix(s@, #[trigger] sa@[b] as int),
                ),
            forall|a: int, b: int|
                0 <= a < i <= b < n ==> lex_le(
                    suffix(s@, #[trigger] sa@[a] as int),
                    suffix(s@, #[trigger] sa@[b] as int),
                ),
        decreases n - i,
    {
        let mut m: usize = i;
        let mut j: usize = i + 1;
        proof {
            lemma_lex_le_reflexive(suffix(s@, sa@[i as int] as int));
        }
        while j < n
            invariant
                n == s@.len(),
                sa@.len() == n,
                i < n,
                i <= m < j,
                j <= n,
                forall|t: int| 0 <= t < n ==> (#[trigger] sa@[t] as int) < n,
                forall|t: int|
                    i <= t < j ==> lex_le(
                        suffix(s@, sa@[m as int] as int),
                        suffix(s@, #[trigger] sa@[t] as int),
                    ),
            decreases n - j,
        {
            let ghost sm = suffix(s@, sa@[m as int] as int);
            let ghost sj = suffix(s@, sa@[j as int] as int);
            if suffix_le(&s, sa[j], sa[m]) {
                proof {
                    assert forall|t: int| i <= t < j implies lex_le(
                        sj,
                        suffix(s@, #[trigger] sa@[t] as int),
                    ) by {
                        lemma_lex_le_transitive(sj, sm, suffix(s@, sa@[t] as int));
                    }
                    lemma_lex_le_reflexive(sj);
                }
                m = j;
            } else {
                proof {
                    lemma_lex_le_total(sj, sm);
                }
            }
            j = j + 1;
        }
        let ghost old_sa = sa@;
        let vi = sa[i];
        let vm = sa[m];
        sa[i] = vm;
        sa[m] = vi;
        proof {
            assert(sa@ =~= old_sa.update(i as int, vm).update(m as int, vi));
            assert(forall|t: int| 0 <= t < n && t != i && t != m ==> sa@[t] == old_sa[t]);
            assert(sa@[i as int] == vm);
            assert(sa@[m as int] == if m == i {
                vm
            } else {
                vi
            });
            // the positions at indices i..n are the same set before and after
            // the swap, so minimality of the suffix at vm carries over
            assert forall|b: int| i < b < n implies lex_le(
                suffix(s@, vm as int),
                suffix(s@, #[trigger] sa@[b] as int),
            ) by {
                if b == m {
                    assert(sa@[b] == vi);
                } else {
                    assert(sa@[b] == old_sa[b]);
                }
            }
        }
        i = i + 1;
    }
    sa
}

/// Law: the suffix array is a permutation of the positions `0 .. n`. It has
/// length `n`, is duplicate-free, stays below `n`, and — shown here — every
/// position below `n` occurs in it; sorted numerically it is therefore
/// exactly `0, 1, ..., n-1`.
pub proof fn lemma_suffix_array_permutation(s: Seq<u8>, sa: Seq<usize>)
    requires
        is_suffix_array(s, sa),
    ensures
        sa.map_values(|x: usize| x as int).to_set() == set_int_range(0, s.len() as int),
        sa.map_values(|x: usize| x as int).no_duplicates(),
{
    let n = s.len() as int;
    let si = sa.map_values(|x: usize| x as int);
    assert(si.len() == n);
    assert(si.no_duplicates()) by {
        assert forall|a: int, b: int| 0 <= a < si.len() && 0 <= b < si.len() && a != b implies si[a]
            != si[b] by {
            if a < b {
                assert(sa[a] != sa[b]);
            } else {
                assert(sa[b] != sa[a]);
            }
        }
    }
    si.unique_seq_to_set();
    let range = set_int_range(0, n);
    vstd::set_lib::lemma_int_range(0, n);
    assert(si.to_set().subset_of(range)) by {
        assert forall|v: int| si.to_set().contains(v) implies range.contains(v) by {
            assert(si.contains(v));
            let k = choose|k: int| 0 <= k < si.len() && si[k] == v;
            assert((sa[k] as int) < n);
        }
    }
    assert forall|v: int| range.contains(v) implies si.to_set().contains(v) by {
        if !si.to_set().contains(v) {
            assert(si.to_set().subset_of(range.remove(v)));
            assert(range.remove(v).len() == n - 1);
            vstd::set_lib::lemma_len_subset(si.to_set(), range.remove(v));
            assert(false);
        }
    }
    assert(si.to_set() =~= range);
}

} // verus!
