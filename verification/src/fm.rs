//! The FM-index: the BWT string with a cumulative symbol-count table
//! (C-table), a per-position occurrence table (Occ-table) and the suffix
//! array, answering substring queries by backward search.

use vstd::prelude::*;
use crate::bwt::build_bwt;
use crate::order::lex_le;
use crate::suffix::{build_suffix_array, is_suffix_array};
use crate::text::{pred_char, with_sentinel, SENTINEL};

verus! {

/// Occurrences of `c` among the first `upto` characters of `s`.
pub open spec fn count(s: Seq<u8>, c: u8, upto: int) -> int
    recommends
        upto <= s.len(),
    decreases upto,
{
    if upto <= 0 {
        0
    } else {
        count(s, c, upto - 1) + if upto - 1 < s.len() && s[upto - 1] == c {
            1int
        } else {
            0int
        }
    }
}

/// Characters of `s` whose symbol value is strictly below `b`.
pub open spec fn count_below(s: Seq<u8>, b: int) -> int
    decreases s.len(),
{
    if s.len() == 0 {
        0
    } else {
        count_below(s.drop_last(), b) + if (s.last() as int) < b {
            1int
        } else {
            0int
        }
    }
}

pub proof fn lemma_count_bounds(s: Seq<u8>, c: u8, upto: int)
    requires
        0 <= upto,
    ensures
        0 <= count(s, c, upto) <= upto,
    decreases upto,
{
    if upto > 0 {
        lemma_count_bounds(s, c, upto - 1);
    }
}

/// Law: Occ-table monotonicity. For a fixed symbol the occurrence count of a
/// prefix never decreases as the prefix grows: for positions `p <= q`,
/// `Occ(c, p) <= Occ(c, q)`.
pub proof fn lemma_occ_monotonic(s: Seq<u8>, c: u8, p: int, q: int)
    requires
        p <= q,
    ensures
        count(s, c, p) <= count(s, c, q),
    decreases q - p,
{
    if p < q {
        lemma_occ_monotonic(s, c, p, q - 1);
    }
}

pub proof fn lemma_count_drop_last(s: Seq<u8>, c: u8, k: int)
    requires
        k < s.len(),
    ensures
        count(s.drop_last(), c, k) == count(s, c, k),
    decreases k,
{
    if k > 0 {
        lemma_count_drop_last(s, c, k - 1);
    }
}

pub proof fn lemma_count_below_bounds(s: Seq<u8>, b: int)
    ensures
        0 <= count_below(s, b) <= s.len(),
    decreases s.len(),
{
    if s.len() > 0 {
        lemma_count_below_bounds(s.drop_last(), b);
    }
}

pub proof fn lemma_count_below_zero(s: Seq<u8>)
    ensures
        count_below(s, 0) == 0,
    decreases s.len(),
{
    if s.len() > 0 {
        lemma_count_below_zero(s.drop_last());
    }
}

/// Raising the symbol bound by one adds exactly the occurrences of that
/// symbol: `count_below(s, b + 1) == count_below(s, b) + count(s, b, |s|)`.
pub proof fn lemma_count_below_step(s: Seq<u8>, b: u8)
    ensures
        count_below(s, b + 1) == count_below(s, b as int) + count(s, b, s.len() as int),
    decreases s.len(),
{
    if s.len() > 0 {
        lemma_count_below_step(s.drop_last(), b);
        lemma_count_drop_last(s, b, s.len() - 1);
    }
}

/// Characters below `c` and occurrences of `c` together never exceed the
/// length of the string.
pub proof fn lemma_below_plus_count(s: Seq<u8>, c: u8)
    ensures
        count_below(s, c as int) + count(s, c, s.len() as int) <= s.len(),
    decreases s.len(),
{
    if s.len() > 0 {
        lemma_below_plus_count(s.drop_last(), c);
        lemma_count_drop_last(s, c, s.len() - 1);
    }
}

/// The backward-search interval over the suffix-array range after the last
/// `steps` characters of `pat` have been processed, or `None` once the
/// search has failed. Each step narrows `[l, r]` through the C- and
/// Occ-values of the next pattern character, scanning the pattern from its
/// end; a character that does not occur in the BWT string fails at once, as
/// does an interval that becomes empty.
pub open spec fn bsearch(bwt: Seq<u8>, pat: Seq<u8>, steps: int) -> Option<(int, int)>
    recommends
        steps <= pat.len(),
    decreases steps,
{
    if steps <= 0 {
        Some((0, bwt.len() - 1))
    } else {
        match bsearch(bwt, pat, steps - 1) {
            None => None,
            Some((l, r)) => {
                let c = pat[pat.len() - steps];
                if count(bwt, c, bwt.len() as int) == 0 {
                    None
                } else {
                    let l2 = count_below(bwt, c as int) + count(bwt, c, l);
                    let r2 = count_below(bwt, c as int) + count(bwt, c, r + 1) - 1;
                    if l2 > r2 {
                        None
                    } else {
                        Some((l2, r2))
                    }
                }
            },
        }
    }
}

/// Once the backward search has failed it stays failed at every later step.
pub proof fn lemma_bsearch_none_absorbs(bwt: Seq<u8>, pat: Seq<u8>, s1: int, s2: int)
    requires
        0 <= s1 <= s2,
        bsearch(bwt, pat, s1) is None,
    ensures
        bsearch(bwt, pat, s2) is None,
    decreases s2 - s1,
{
    if s1 < s2 {
        lemma_bsearch_none_absorbs(bwt, pat, s1, s2 - 1);
    }
}

/// A surviving backward-search interval stays inside the suffix-array range.
pub proof fn lemma_bsearch_bounds(bwt: Seq<u8>, pat: Seq<u8>, steps: int)
    requires
        bwt.len() >= 1,
        0 <= steps,
    ensures
        match bsearch(bwt, pat, steps) {
            Some(lr) => 0 <= lr.0 && lr.0 <= lr.1 && lr.1 < bwt.len(),
            None => true,
        },
    decreases steps,
{
    if steps > 0 {
        lemma_bsearch_bounds(bwt, pat, steps - 1);
        match bsearch(bwt, pat, steps - 1) {
            None => {},
            Some((l, r)) => {
                let c = pat[pat.len() - steps];
                lemma_count_bounds(bwt, c, l);
                lemma_count_below_bounds(bwt, c as int);
                lemma_occ_monotonic(bwt, c, r + 1, bwt.len() as int);
                lemma_count_bounds(bwt, c, r + 1);
                lemma_below_plus_count(bwt, c);
            },
        }
    }
}

/// The index over one text: BWT string, C-table (for every symbol value, the
/// number of text characters strictly below it), Occ-table (for every
/// position and symbol, the occurrences of the symbol up to and including
/// the position), and the suffix array.
pub struct FMIndex {
    bwt: Vec<u8>,
    c_table: Vec<usize>,
    occ_table: Vec<Vec<usize>>,
    sa: Vec<usize>,
}

impl FMIndex {
    /// The BWT string the index holds.
    pub closed spec fn bwt(self) -> Seq<u8> {
        self.bwt@
    }

    /// The suffix array the index holds.
    pub closed spec fn sa(self) -> Seq<usize> {
        self.sa@
    }

    /// The tables agree with the BWT string: the C-table entry of a symbol
    /// counts the characters below it, and every Occ-table row snapshots the
    /// per-symbol occurrence counts of the prefix ending at its position.
    pub closed spec fn wf(self) -> bool {
        &&& self.bwt@.len() >= 1
        &&& self.sa@.len() == self.bwt@.len()
        &&& self.c_table@.len() == 256
        &&& forall|c: int|
            0 <= c < 256 ==> (#[trigger] self.c_table@[c]) as int == count_below(self.bwt@, c)
        &&& self.occ_table@.len() == self.bwt@.len()
        &&& forall|p: int|
            0 <= p < self.occ_table@.len() ==> (#[trigger] self.occ_table@[p])@.len() == 256
        &&& forall|p: int, c: int|
            0 <= p < self.occ_table@.len() && 0 <= c < 256 ==> (#[trigger] self.occ_table@[p]@[c])
                as int == count(self.bwt@, c as u8, p + 1)
    }

    /// Builds the index over `text` (the sentinel is appended when missing):
    /// suffix array, BWT by the predecessor rule, then the C- and Occ-tables
    /// from one left-to-right scan of the BWT string.
    pub fn new(text: &[u8]) -> (fm: FMIndex)
        ensures
            fm.wf(),
            is_suffix_array(with_sentinel(text@), fm.sa()),
            fm.bwt().len() == with_sentinel(text@).len(),
            forall|k: int|
                0 <= k < fm.sa().len() ==> fm.bwt()[k] == pred_char(
                    with_sentinel(text@),
                    #[trigger] fm.sa()[k] as int,
                ),
    {
        let sa = build_suffix_array(text);
        let bwt = build_bwt(text, &sa);
        let n = bwt.len();
        let mut counts: Vec<usize> = Vec::new();
        let mut c: usize = 0;
        while c < 256
            invariant
                c <= 256,
                counts@.len() == c,
                forall|t: int| 0 <= t < c ==> (#[trigger] counts@[t]) == 0,
            decreases 256 - c,
        {
            counts.push(0);
            c = c + 1;
        }
        let mut occ_table: Vec<Vec<usize>> = Vec::new();
        let mut i: usize = 0;
        while i < n
            invariant
                n == bwt@.len(),
                i <= n,
                counts@.len() == 256,
                forall|t: int|
                    0 <= t < 256 ==> (#[trigger] counts@[t]) as int == count(bwt@, t as u8, i as int),
                occ_table@.len() == i,
                forall|p: int|
                    0 <= p < i ==> (#[trigger] occ_table@[p])@.len() == 256,
                forall|p: int, t: int|
                    0 <= p < i && 0 <= t < 256 ==> (#[trigger] occ_table@[p]@[t]) as int == count(
                        bwt@,
                        t as u8,
                        p + 1,
                    ),
            decreases n - i,
        {
            let ch = bwt[i];
            proof {
                lemma_count_bounds(bwt@, ch, i as int);
            }
            let cur = counts[ch as usize];
            counts[ch as usize] = cur + 1;
            proof {
                assert forall|t: int| 0 <= t < 256 implies (#[trigger] counts@[t]) as int == count(
                    bwt@,
                    t as u8,
                    i + 1,
                ) by {
                    if t == ch as int {
                        assert(bwt@[i as int] == t as u8);
                    } else {
                        assert(bwt@[i as int] != t as u8);
                    }
                }
            }
            let mut row: Vec<usize> = Vec::new();
            let mut c2: usize = 0;
            while c2 < 256
                invariant
                    counts@.len() == 256,
                    c2 <= 256,
                    row@.len() == c2,
                    forall|t: int| 0 <= t < c2 ==> (#[trigger] row@[t]) == counts@[t],
                decreases 256 - c2,
            {
                let v = counts[c2];
                row.push(v);
                c2 = c2 + 1;
            }
            occ_table.push(row);
            i = i + 1;
        }
        let mut c_table: Vec<usize> = Vec::new();
        let mut total: usize = 0;
        let mut b: usize = 0;
        proof {
            lemma_count_below_zero(bwt@);
        }
        while b < 256
            invariant
                n == bwt@.len(),
                counts@.len() == 256,
                forall|t: int|
                    0 <= t < 256 ==> (#[trigger] counts@[t]) as int == count(bwt@, t as u8, n as int),
                b <= 256,
                c_table@.len() == b,
                total as int == count_below(bwt@, b as int),
                forall|t: int|
                    0 <= t < b ==> (#[trigger] c_table@[t]) as int == count_below(bwt@, t),
            decreases 256 - b,
        {
            c_table.push(total);
            proof {
                lemma_count_below_step(bwt@, b as u8);
                lemma_count_below_bounds(bwt@, b + 1);
                lemma_count_bounds(bwt@, b as u8, n as int);
            }
            let add = counts[b];
            total = total + add;
            b = b + 1;
        }
        FMIndex { bwt, c_table, occ_table, sa }
    }

    /// Occurrences of `c` in the BWT string up to and including position
    /// `pos`; 0 for any negative position.
    pub fn occ(&self, c: u8, pos: isize) -> (r: usize)
        requires
            self.wf(),
            pos < self.bwt().len(),
        ensures
            r as int == count(
                self.bwt(),
                c,
                if pos < 0 {
                    0int
                } else {
                    pos + 1
                },
            ),
    {
        if pos < 0 {
            return 0;
        }
        self.occ_table[pos as usize][c as usize]
    }

    /// Occurrences of `c` among the first `k` characters of the BWT string.
    fn occ_prefix(&self, c: u8, k: usize) -> (r: usize)
        requires
            self.wf(),
            k <= self.bwt().len(),
        ensures
            r as int == count(self.bwt(), c, k as int),
    {
        if k == 0 {
            return 0;
        }
        self.occ_table[k - 1][c as usize]
    }

    /// Backward search for `pattern`: the suffix-array slice of the interval
    /// that survives scanning the pattern in reverse, as positions in the
    /// text, or `None` when the search fails. An empty pattern keeps the
    /// whole range and so returns every suffix-array entry.
    pub fn search(&self, pattern: &[u8]) -> (res: Option<Vec<usize>>)
        requires
            self.wf(),
        ensures
            match res {
                Some(v) => match bsearch(self.bwt(), pattern@, pattern@.len() as int) {
                    Some(lr) => v@ == self.sa().subrange(lr.0, lr.1 + 1),
                    None => false,
                },
                None => bsearch(self.bwt(), pattern@, pattern@.len() as int) is None,
            },
    {
        let n = self.bwt.len();
        let m = pattern.len();
        let mut l: usize = 0;
        let mut r: usize = n - 1;
        let mut step: usize = 0;
        while step < m
            invariant
                self.wf(),
                n == self.bwt().len(),
                m == pattern@.len(),
                step <= m,
                l <= r < n,
                bsearch(self.bwt(), pattern@, step as int) == Some((l as int, r as int)),
            decreases m - step,
        {
            let c = pattern[m - 1 - step];
            proof {
                assert(pattern@[m - 1 - step] == pattern@[pattern@.len() - (step + 1)]);
            }
            let total = self.occ_prefix(c, n);
            if total == 0 {
                proof {
                    assert(bsearch(self.bwt(), pattern@, step + 1) is None);
                    lemma_bsearch_none_absorbs(self.bwt(), pattern@, step + 1, m as int);
                }
                return None;
            }
            let cs = self.c_table[c as usize];
            let locc = self.occ_prefix(c, l);
            let rocc = self.occ_prefix(c, r + 1);
            proof {
                lemma_count_bounds(self.bwt(), c, l as int);
                lemma_count_bounds(self.bwt(), c, r + 1);
                lemma_count_below_bounds(self.bwt(), c as int);
                lemma_occ_monotonic(self.bwt(), c, l as int, n as int);
                lemma_occ_monotonic(self.bwt(), c, r + 1, n as int);
                lemma_below_plus_count(self.bwt(), c);
            }
            let l2 = cs + locc;
            let sum = cs + rocc;
            proof {
                lemma_bsearch_bounds(self.bwt(), pattern@, step + 1);
            }
            if l2 >= sum {
                proof {
                    assert(bsearch(self.bwt(), pattern@, step + 1) is None);
                    lemma_bsearch_none_absorbs(self.bwt(), pattern@, step + 1, m as int);
                }
                return None;
            }
            l = l2;
            r = sum - 1;
            step = step + 1;
        }
        let mut v: Vec<usize> = Vec::new();
        let mut k: usize = l;
        proof {
            assert(v@ =~= self.sa().subrange(l as int, l as int));
        }
        while k <= r
            invariant
                self.wf(),
                n == self.bwt().len(),
                l <= k <= r + 1,
                r < n,
                v@ == self.sa().subrange(l as int, k as int),
            decreases r + 1 - k,
        {
            let x = self.sa[k];
            v.push(x);
            proof {
                assert(v@ =~= self.sa().subrange(l as int, k + 1));
            }
            k = k + 1;
        }
        Some(v)
    }
}



proof fn lemma_count_below_remove(b: Seq<u8>, i: int, v: int)
    requires
        0 <= i < b.len(),
    ensures
        count_below(b.remove(i), v) == count_below(b, v) - (if (b[i] as int) < v {
            1int
        } else {
            0int
        }),
    decreases b.len(),
{
    if i == b.len() - 1 {
        assert(b.remove(i) =~= b.drop_last());
    } else {
        assert(b.remove(i).drop_last() =~= b.drop_last().remove(i));
        assert(b.remove(i).last() == b.last());
        lemma_count_below_remove(b.drop_last(), i, v);
    }
}

proof fn lemma_count_remove(b: Seq<u8>, i: int, c: u8)
    requires
        0 <= i < b.len(),
    ensures
        count(b.remove(i), c, b.len() - 1) == count(b, c, b.len() as int) - (if b[i] == c {
            1int
        } else {
            0int
        }),
    decreases b.len(),
{
    if i == b.len() - 1 {
        assert(b.remove(i) =~= b.drop_last());
        lemma_count_drop_last(b, c, b.len() - 1);
    } else {
        assert(b.remove(i).drop_last() =~= b.drop_last().remove(i));
        lemma_count_remove(b.drop_last(), i, c);
        lemma_count_drop_last(b, c, b.len() - 1);
        lemma_count_drop_last(b.remove(i), c, b.len() - 2);
        assert(b.remove(i)[b.len() - 2] == b.last());
    }
}

/// Sequences with the same multiset agree on every below-count.
proof fn lemma_count_below_multiset(a: Seq<u8>, b: Seq<u8>, v: int)
    requires
        a.to_multiset() == b.to_multiset(),
    ensures
        count_below(a, v) == count_below(b, v),
    decreases a.len(),
{
    broadcast use vstd::multiset::group_multiset_axioms;

    vstd::seq_lib::to_multiset_len(a);
    vstd::seq_lib::to_multiset_len(b);
    if a.len() > 0 {
        let x = a.last();
        assert(a.drop_last().push(x) =~= a);
        vstd::seq_lib::to_multiset_build(a.drop_last(), x);
        vstd::seq_lib::to_multiset_contains(b, x);
        assert(a.to_multiset().count(x) > 0);
        assert(b.contains(x));
        let bi = choose|bi: int| 0 <= bi < b.len() && b[bi] == x;
        vstd::seq_lib::to_multiset_remove(b, bi);
        assert(a.drop_last().to_multiset() =~= b.remove(bi).to_multiset());
        lemma_count_below_multiset(a.drop_last(), b.remove(bi), v);
        lemma_count_below_remove(b, bi, v);
    }
}

/// Sequences with the same multiset agree on every symbol's total count.
proof fn lemma_count_multiset(a: Seq<u8>, b: Seq<u8>, c: u8)
    requires
        a.to_multiset() == b.to_multiset(),
    ensures
        count(a, c, a.len() as int) == count(b, c, b.len() as int),
    decreases a.len(),
{
    broadcast use vstd::multiset::group_multiset_axioms;

    vstd::seq_lib::to_multiset_len(a);
    vstd::seq_lib::to_multiset_len(b);
    if a.len() > 0 {
        let x = a.last();
        assert(a.drop_last().push(x) =~= a);
        vstd::seq_lib::to_multiset_build(a.drop_last(), x);
        vstd::seq_lib::to_multiset_contains(b, x);
        assert(a.to_multiset().count(x) > 0);
        assert(b.contains(x));
        let bi = choose|bi: int| 0 <= bi < b.len() && b[bi] == x;
        vstd::seq_lib::to_multiset_remove(b, bi);
        assert(a.drop_last().to_multiset() =~= b.remove(bi).to_multiset());
        lemma_count_multiset(a.drop_last(), b.remove(bi), c);
        lemma_count_remove(b, bi, c);
        lemma_count_drop_last(a, c, a.len() - 1);
    }
}

/// In a sequence sorted by symbol value, the entries below a bound `v` are
/// exactly the first `count_below` entries.
proof fn lemma_sorted_below_prefix(f: Seq<u8>, v: int)
    requires
        forall|a: int, b: int| 0 <= a < b < f.len() ==> f[a] <= f[b],
    ensures
        forall|t: int| 0 <= t < f.len() ==> (((#[trigger] f[t] as int) < v) <==> t < count_below(f, v)),
    decreases f.len(),
{
    lemma_count_below_bounds(f, v);
    if f.len() > 0 {
        let g = f.drop_last();
        lemma_count_below_bounds(g, v);
        lemma_sorted_below_prefix(g, v);
        let x = f.last();
        assert forall|t: int| 0 <= t < f.len() implies (((#[trigger] f[t] as int) < v) <==> t
            < count_below(f, v)) by {
            if (x as int) < v {
                assert(f[t] <= x || t == f.len() - 1);
                assert((f[t] as int) < v);
                assert(count_below(g, v) == g.len()) by {
                    if count_below(g, v) < g.len() {
                        let u = count_below(g, v);
                        assert(!((g[u] as int) < v));
                        assert(g[u] <= x);
                    }
                }
            } else {
                if t < f.len() - 1 {
                    assert(f[t] == g[t]);
                } else {
                    assert(count_below(f, v) == count_below(g, v) <= g.len());
                }
            }
        }
    }
}

/// A symbol that occurs before `upto` is counted at least once.
proof fn lemma_count_occurrence(s: Seq<u8>, c: u8, p: int, upto: int)
    requires
        0 <= p < upto <= s.len(),
        s[p] == c,
    ensures
        count(s, c, upto) >= 1,
    decreases upto,
{
    lemma_count_bounds(s, c, upto - 1);
    if p < upto - 1 {
        lemma_count_occurrence(s, c, p, upto - 1);
    }
}

/// The BWT string and the first-character column of the suffix array are
/// both rearrangements of the text's characters, and the rows whose suffix
/// starts with `c` are exactly the block of rows that the C-table describes:
/// those at offsets `count_below(s, c) .. count_below(s, c) + count-of-c`.
pub proof fn lemma_char_block(s: Seq<u8>, sa: Seq<usize>, bwt: Seq<u8>, c: u8)
    requires
        is_suffix_array(s, sa),
        s.len() >= 1,
        bwt.len() == sa.len(),
        forall|k: int| 0 <= k < sa.len() ==> bwt[k] == crate::text::pred_char(s, #[trigger] sa[k] as int),
    ensures
        count_below(bwt, c as int) == count_below(s, c as int),
        count(bwt, c, bwt.len() as int) == count(s, c, s.len() as int),
        forall|t: int|
            0 <= t < sa.len() ==> ((s[#[trigger] sa[t] as int] == c) <==> count_below(s, c as int)
                <= t < count_below(s, c as int) + count(s, c, s.len() as int)),
{
    let n = s.len() as int;
    let idx = sa.map_values(|x: usize| x as int);
    let rng = Seq::new(s.len(), |i: int| i);
    let fs = |i: int| s[i];
    // positions of the suffix array and of the predecessor column are both
    // permutations of the text's positions
    crate::suffix::lemma_suffix_array_permutation(s, sa);
    assert(rng.no_duplicates());
    assert(rng.to_set() == vstd::set_lib::set_int_range(0, n)) by {
        assert forall|v: int| vstd::set_lib::set_int_range(0, n).contains(v) implies rng.to_set().contains(
            v,
        ) by {
            assert(rng[v] == v);
            assert(rng.contains(v));
        }
        assert(rng.to_set() =~= vstd::set_lib::set_int_range(0, n));
    }
    let pidx = Seq::new(s.len(), |k: int| if sa[k] as int == 0 { n - 1 } else { sa[k] as int - 1 });
    assert(pidx.no_duplicates()) by {
        assert forall|a: int, b: int|
            0 <= a < pidx.len() && 0 <= b < pidx.len() && a != b implies pidx[a] != pidx[b] by {
            if a < b {
                assert(sa[a] != sa[b]);
            } else {
                assert(sa[b] != sa[a]);
            }
        }
    }
    assert(pidx.to_set() == vstd::set_lib::set_int_range(0, n)) by {
        assert forall|v: int| vstd::set_lib::set_int_range(0, n).contains(v) implies pidx.to_set().contains(
            v,
        ) by {
            let w = if v == n - 1 { 0int } else { v + 1 };
            assert(vstd::set_lib::set_int_range(0, n).contains(w));
            assert(idx.to_set().contains(w));
            assert(idx.contains(w));
            let k = choose|k: int| 0 <= k < idx.len() && idx[k] == w;
            assert(pidx[k] == v);
            assert(pidx.contains(pidx[k]));
        }
        assert forall|v: int| pidx.to_set().contains(v) implies vstd::set_lib::set_int_range(
            0,
            n,
        ).contains(v) by {
            assert(pidx.contains(v));
            let k = choose|k: int| 0 <= k < pidx.len() && pidx[k] == v;
            assert((sa[k] as int) < n);
        }
        assert(pidx.to_set() =~= vstd::set_lib::set_int_range(0, n));
    }
    // hence the first-character column and the BWT string are both
    // rearrangements of the text's characters
    let firsts = idx.map_values(fs);
    crate::bwt::lemma_nodup_same_set_multiset(idx, rng);
    crate::bwt::lemma_map_multiset(idx, rng, fs);
    crate::bwt::lemma_nodup_same_set_multiset(pidx, rng);
    crate::bwt::lemma_map_multiset(pidx, rng, fs);
    assert(rng.map_values(fs) =~= s);
    assert(pidx.map_values(fs) =~= bwt) by {
        assert forall|k: int| 0 <= k < bwt.len() implies pidx.map_values(fs)[k] == bwt[k] by {
            assert(bwt[k] == crate::text::pred_char(s, sa[k] as int));
        }
    }
    let kk = count_below(s, c as int);
    let mm = count(s, c, n);
    lemma_count_below_multiset(bwt, s, c as int);
    lemma_count_multiset(bwt, s, c);
    lemma_count_below_multiset(firsts, s, c as int);
    lemma_count_multiset(firsts, s, c);
    assert(count_below(bwt, c as int) == kk && count(bwt, c, n) == mm);
    assert(count_below(firsts, c as int) == kk && count(firsts, c, n) == mm);
    // the first-character column is sorted, so the occurrences of `c` are
    // exactly the block of `mm` entries that starts at `kk`
    assert forall|a: int, b: int| 0 <= a < b < firsts.len() implies firsts[a] <= firsts[b] by {
        assert(lex_le(
            crate::text::suffix(s, sa[a] as int),
            crate::text::suffix(s, sa[b] as int),
        ));
        assert(crate::text::suffix(s, sa[a] as int)[0] == s[sa[a] as int]);
        assert(crate::text::suffix(s, sa[b] as int)[0] == s[sa[b] as int]);
        crate::order::lemma_lex_le_first(
            crate::text::suffix(s, sa[a] as int),
            crate::text::suffix(s, sa[b] as int),
        );
    }
    lemma_sorted_below_prefix(firsts, c as int);
    lemma_sorted_below_prefix(firsts, c + 1);
    lemma_count_below_step(firsts, c);
    assert(forall|t: int|
        0 <= t < n ==> ((#[trigger] firsts[t] == c) <==> kk <= t < kk + mm)) by {
        assert(forall|t: int|
            0 <= t < n ==> (((#[trigger] firsts[t] as int) < c as int) <==> t < kk));
        assert(forall|t: int|
            0 <= t < n ==> (((#[trigger] firsts[t] as int) < c + 1) <==> t < kk + mm));
    }
    assert forall|t: int|
        0 <= t < sa.len() implies ((s[#[trigger] sa[t] as int] == c) <==> kk <= t < kk + mm) by {
        assert(firsts[t] == s[sa[t] as int]);
    }
}

/// Law (search correctness for one-character patterns): backward search for
/// the single character `c` — any symbol, the sentinel included — finds
/// exactly the positions of `c` in the sentinel-terminated text. `sa` is the
/// text's suffix array and `bwt` the BWT string derived from it by the
/// predecessor rule.
pub proof fn lemma_search_single_char(s: Seq<u8>, sa: Seq<usize>, bwt: Seq<u8>, c: u8)
    requires
        is_suffix_array(s, sa),
        s.len() >= 1,
        bwt.len() == sa.len(),
        forall|k: int| 0 <= k < sa.len() ==> bwt[k] == crate::text::pred_char(s, #[trigger] sa[k] as int),
    ensures
        match bsearch(bwt, seq![c], 1) {
            Some(lr) => (forall|t: int|
                lr.0 <= t <= lr.1 ==> s[#[trigger] sa[t] as int] == c) && (forall|p: int|
                0 <= p < s.len() && s[p] == c ==> exists|t: int|
                    lr.0 <= t <= lr.1 && (#[trigger] sa[t] as int) == p),
            None => forall|p: int| 0 <= p < s.len() ==> s[p] != c,
        },
{
    let n = s.len() as int;
    let kk = count_below(s, c as int);
    let mm = count(s, c, n);
    lemma_char_block(s, sa, bwt, c);
    let pat = seq![c];
    assert(bsearch(bwt, pat, 0) == Some((0int, n - 1)));
    assert(pat[pat.len() - 1] == c);
    lemma_count_bounds(bwt, c, n);
    lemma_count_below_bounds(bwt, c as int);
    lemma_below_plus_count(bwt, c);
    if mm == 0 {
        assert(bsearch(bwt, pat, 1) is None);
        assert forall|p: int| 0 <= p < s.len() implies s[p] != c by {
            if s[p] == c {
                lemma_count_occurrence(s, c, p, n);
            }
        }
    } else {
        assert(count(bwt, c, 0) == 0);
        assert(bsearch(bwt, pat, 1) == Some((kk, kk + mm - 1)));
        assert forall|p: int| 0 <= p < s.len() && s[p] == c implies exists|t: int|
            kk <= t <= kk + mm - 1 && (#[trigger] sa[t] as int) == p by {
            crate::suffix::lemma_suffix_array_permutation(s, sa);
            let idx = sa.map_values(|x: usize| x as int);
            assert(idx.to_set().contains(p));
            assert(idx.contains(p));
            let t = choose|t: int| 0 <= t < idx.len() && idx[t] == p;
            assert(s[sa[t] as int] == c);
            assert(kk <= t <= kk + mm - 1);
            assert((sa[t] as int) == p);
        }
    }
}


/// The pattern occurs in `s` at offset `p`.
pub open spec fn occurs_at(s: Seq<u8>, pat: Seq<u8>, p: int) -> bool {
    0 <= p && p + pat.len() <= s.len() && s.subrange(p, p + pat.len()) == pat
}

/// `x` starts with `p`.
pub open spec fn has_prefix(x: Seq<u8>, p: Seq<u8>) -> bool {
    x.len() >= p.len() && x.take(p.len() as int) == p
}

/// `bwt` is the BWT string of `s` read off the suffix array `sa` by the
/// predecessor-character rule.
pub open spec fn is_bwt_of(s: Seq<u8>, sa: Seq<usize>, bwt: Seq<u8>) -> bool {
    &&& bwt.len() == sa.len()
    &&& forall|k: int|
        0 <= k < sa.len() ==> bwt[k] == crate::text::pred_char(s, #[trigger] sa[k] as int)
}

proof fn lemma_prefix_is_occurrence(s: Seq<u8>, pat: Seq<u8>, p: int)
    requires
        0 <= p <= s.len(),
    ensures
        has_prefix(crate::text::suffix(s, p), pat) == occurs_at(s, pat, p),
{
    if p + pat.len() <= s.len() {
        assert(crate::text::suffix(s, p).take(pat.len() as int) =~= s.subrange(p, p + pat.len()));
    }
}

/// Rows of the suffix array are ordered as their suffixes: a strictly
/// smaller suffix sits at a strictly smaller row.
proof fn lemma_row_order(s: Seq<u8>, sa: Seq<usize>, t1: int, t2: int)
    requires
        is_suffix_array(s, sa),
        0 <= t1 < sa.len(),
        0 <= t2 < sa.len(),
        lex_le(
            crate::text::suffix(s, sa[t1] as int),
            crate::text::suffix(s, sa[t2] as int),
        ),
        sa[t1] != sa[t2],
    ensures
        t1 < t2,
{
    if t1 >= t2 {
        assert(t2 < t1);
        crate::order::lemma_lex_le_antisymmetric(
            crate::text::suffix(s, sa[t1] as int),
            crate::text::suffix(s, sa[t2] as int),
        );
        assert(crate::text::suffix(s, sa[t1] as int).len() == s.len() - sa[t1] as int);
        assert(crate::text::suffix(s, sa[t2] as int).len() == s.len() - sa[t2] as int);
    }
}

/// The row of the suffix array that holds position `p`.
pub open spec fn row_of(sa: Seq<usize>, p: int) -> int {
    choose|t: int| 0 <= t < sa.len() && (sa[t] as int) == p
}

proof fn lemma_row_of(s: Seq<u8>, sa: Seq<usize>, p: int)
    requires
        is_suffix_array(s, sa),
        0 <= p < s.len(),
    ensures
        0 <= row_of(sa, p) < sa.len(),
        (sa[row_of(sa, p)] as int) == p,
{
    crate::suffix::lemma_suffix_array_permutation(s, sa);
    let idx = sa.map_values(|x: usize| x as int);
    assert(idx.to_set().contains(p));
    assert(idx.contains(p));
    let w = choose|w: int| 0 <= w < idx.len() && idx[w] == p;
    assert(0 <= w < sa.len() && (sa[w] as int) == p);
}

/// The last occurrence of `c` strictly before position `t`.
proof fn lemma_prev_occ(bwt: Seq<u8>, c: u8, t: int) -> (t2: int)
    requires
        0 <= t <= bwt.len(),
        count(bwt, c, t) >= 1,
    ensures
        0 <= t2 < t,
        bwt[t2] == c,
        count(bwt, c, t2) + 1 == count(bwt, c, t),
    decreases t,
{
    lemma_count_bounds(bwt, c, t);
    if bwt[t - 1] == c {
        t - 1
    } else {
        lemma_prev_occ(bwt, c, t - 1)
    }
}

/// The first occurrence of `c` at or after position `k`.
proof fn lemma_next_occ(bwt: Seq<u8>, c: u8, k: int) -> (u: int)
    requires
        0 <= k <= bwt.len(),
        count(bwt, c, k) < count(bwt, c, bwt.len() as int),
    ensures
        k <= u < bwt.len(),
        bwt[u] == c,
        count(bwt, c, u) == count(bwt, c, k),
    decreases bwt.len() - k,
{
    lemma_occ_monotonic(bwt, c, k, bwt.len() as int);
    assert(k < bwt.len());
    if bwt[k] == c {
        k
    } else {
        assert(count(bwt, c, k + 1) == count(bwt, c, k));
        lemma_next_occ(bwt, c, k + 1)
    }
}

/// The occurrence of `c` with exactly `j` occurrences before it.
proof fn lemma_rank_occ(bwt: Seq<u8>, c: u8, j: int) -> (u: int)
    requires
        0 <= j < count(bwt, c, bwt.len() as int),
    ensures
        0 <= u < bwt.len(),
        bwt[u] == c,
        count(bwt, c, u) == j,
    decreases j,
{
    if j == 0 {
        lemma_next_occ(bwt, c, 0)
    } else {
        let u0 = lemma_rank_occ(bwt, c, j - 1);
        assert(count(bwt, c, u0 + 1) == j);
        lemma_next_occ(bwt, c, u0 + 1)
    }
}

/// Rows holding the same BWT character keep their order under the LF step:
/// the predecessors of their suffixes appear in the suffix array in the same
/// order.
proof fn lemma_lf_order(s: Seq<u8>, sa: Seq<usize>, bwt: Seq<u8>, c: u8, t1: int, t2: int)
    requires
        is_suffix_array(s, sa),
        s.len() >= 1,
        s.last() == SENTINEL,
        c != SENTINEL,
        is_bwt_of(s, sa, bwt),
        0 <= t1 < sa.len(),
        0 <= t2 < sa.len(),
        t1 < t2,
        bwt[t1] == c,
        bwt[t2] == c,
    ensures
        row_of(sa, sa[t1] as int - 1) < row_of(sa, sa[t2] as int - 1),
        1 <= sa[t1] as int,
        1 <= sa[t2] as int,
{
    assert(sa[t1] as int != 0 && sa[t2] as int != 0) by {
        assert(crate::text::pred_char(s, 0) == SENTINEL);
    }
    let p1 = sa[t1] as int - 1;
    let p2 = sa[t2] as int - 1;
    assert(s[p1] == c && s[p2] == c);
    lemma_row_of(s, sa, p1);
    lemma_row_of(s, sa, p2);
    let r1 = row_of(sa, p1);
    let r2 = row_of(sa, p2);
    assert(crate::text::suffix(s, p1) =~= seq![c] + crate::text::suffix(s, sa[t1] as int));
    assert(crate::text::suffix(s, p2) =~= seq![c] + crate::text::suffix(s, sa[t2] as int));
    assert(lex_le(
        crate::text::suffix(s, sa[t1] as int),
        crate::text::suffix(s, sa[t2] as int),
    ));
    crate::order::lemma_lex_le_common_prefix(
        crate::text::suffix(s, p1),
        crate::text::suffix(s, p2),
        1,
    );
    assert(crate::text::suffix(s, p1).skip(1) =~= crate::text::suffix(s, sa[t1] as int));
    assert(crate::text::suffix(s, p2).skip(1) =~= crate::text::suffix(s, sa[t2] as int));
    assert(sa[t1] != sa[t2]);
    assert(sa[r1] != sa[r2]);
    lemma_row_order(s, sa, r1, r2);
}

proof fn lemma_lf_lower(s: Seq<u8>, sa: Seq<usize>, bwt: Seq<u8>, c: u8, t: int)
    requires
        is_suffix_array(s, sa),
        s.len() >= 1,
        s.last() == SENTINEL,
        c != SENTINEL,
        is_bwt_of(s, sa, bwt),
        0 <= t < sa.len(),
        bwt[t] == c,
    ensures
        row_of(sa, sa[t] as int - 1) >= count_below(s, c as int) + count(bwt, c, t),
        1 <= sa[t] as int,
    decreases t,
{
    lemma_char_block(s, sa, bwt, c);
    assert(sa[t] as int != 0) by {
        assert(crate::text::pred_char(s, 0) == SENTINEL);
    }
    let p = sa[t] as int - 1;
    assert(s[p] == c);
    lemma_row_of(s, sa, p);
    let r = row_of(sa, p);
    assert(s[sa[r] as int] == c);
    assert(r >= count_below(s, c as int));
    lemma_count_bounds(bwt, c, t);
    if count(bwt, c, t) >= 1 {
        let t2 = lemma_prev_occ(bwt, c, t);
        lemma_lf_lower(s, sa, bwt, c, t2);
        lemma_lf_order(s, sa, bwt, c, t2, t);
    }
}

proof fn lemma_lf_upper(s: Seq<u8>, sa: Seq<usize>, bwt: Seq<u8>, c: u8, t: int)
    requires
        is_suffix_array(s, sa),
        s.len() >= 1,
        s.last() == SENTINEL,
        c != SENTINEL,
        is_bwt_of(s, sa, bwt),
        0 <= t < sa.len(),
        bwt[t] == c,
    ensures
        row_of(sa, sa[t] as int - 1) <= count_below(s, c as int) + count(bwt, c, t),
    decreases bwt.len() - t,
{
    lemma_char_block(s, sa, bwt, c);
    assert(sa[t] as int != 0) by {
        assert(crate::text::pred_char(s, 0) == SENTINEL);
    }
    let p = sa[t] as int - 1;
    assert(s[p] == c);
    lemma_row_of(s, sa, p);
    let r = row_of(sa, p);
    assert(s[sa[r] as int] == c);
    let kk = count_below(s, c as int);
    let mm = count(s, c, s.len() as int);
    assert(r < kk + mm);
    assert(count(bwt, c, t + 1) == count(bwt, c, t) + 1);
    lemma_occ_monotonic(bwt, c, t + 1, bwt.len() as int);
    if count(bwt, c, t + 1) == count(bwt, c, bwt.len() as int) {
        assert(count(bwt, c, t) == mm - 1);
    } else {
        let u = lemma_next_occ(bwt, c, t + 1);
        lemma_lf_upper(s, sa, bwt, c, u);
        lemma_lf_order(s, sa, bwt, c, t, u);
    }
}

/// The LF mapping: when row `t` of the BWT holds `c`, the suffix-array row
/// `C[c] + Occ(c, t)` holds exactly the position before `sa[t]`.
proof fn lemma_lf(s: Seq<u8>, sa: Seq<usize>, bwt: Seq<u8>, c: u8, t: int)
    requires
        is_suffix_array(s, sa),
        s.len() >= 1,
        s.last() == SENTINEL,
        c != SENTINEL,
        is_bwt_of(s, sa, bwt),
        0 <= t < sa.len(),
        bwt[t] == c,
    ensures
        ({
            let r = count_below(s, c as int) + count(bwt, c, t);
            &&& 0 <= r < sa.len()
            &&& (sa[r] as int) == sa[t] as int - 1
            &&& 1 <= sa[t] as int
        }),
{
    lemma_lf_lower(s, sa, bwt, c, t);
    lemma_lf_upper(s, sa, bwt, c, t);
    lemma_row_of(s, sa, sa[t] as int - 1);
}


proof fn lemma_prefix_prepend(c: u8, x: Seq<u8>, q: Seq<u8>)
    ensures
        has_prefix(seq![c] + x, seq![c] + q) == has_prefix(x, q),
{
    let cx = seq![c] + x;
    let cq = seq![c] + q;
    if x.len() >= q.len() {
        if has_prefix(x, q) {
            assert(cx.take(cq.len() as int) =~= cq) by {
                assert forall|i: int| 0 <= i < cq.len() implies cx.take(cq.len() as int)[i]
                    == cq[i] by {
                    if i > 0 {
                        assert(cx[i] == x[i - 1]);
                        assert(x[i - 1] == x.take(q.len() as int)[i - 1]);
                    }
                }
            }
        }
        if cx.take(cq.len() as int) == cq {
            assert(x.take(q.len() as int) =~= q) by {
                assert forall|i: int| 0 <= i < q.len() implies x.take(q.len() as int)[i]
                    == q[i] by {
                    assert(cx.take(cq.len() as int)[i + 1] == cx[i + 1]);
                    assert(cx[i + 1] == x[i]);
                    assert(cq[i + 1] == q[i]);
                }
            }
        }
    }
}

/// One backward-search step: when `[l, r]` is exactly the block of rows
/// whose suffix starts with `q`, the narrowed interval is exactly the block
/// of rows whose suffix starts with `c` followed by `q`.
proof fn lemma_interval_step(
    s: Seq<u8>,
    sa: Seq<usize>,
    bwt: Seq<u8>,
    c: u8,
    q: Seq<u8>,
    l: int,
    r: int,
)
    requires
        is_suffix_array(s, sa),
        s.len() >= 1,
        s.last() == SENTINEL,
        c != SENTINEL,
        is_bwt_of(s, sa, bwt),
        0 <= l <= r < sa.len(),
        forall|t: int|
            0 <= t < sa.len() ==> ((l <= t <= r) <==> has_prefix(
                crate::text::suffix(s, #[trigger] sa[t] as int),
                q,
            )),
    ensures
        ({
            let l2 = count_below(s, c as int) + count(bwt, c, l);
            let r2 = count_below(s, c as int) + count(bwt, c, r + 1) - 1;
            forall|t: int|
                0 <= t < sa.len() ==> ((l2 <= t <= r2) <==> has_prefix(
                    crate::text::suffix(s, #[trigger] sa[t] as int),
                    seq![c] + q,
                ))
        }),
{
    let n = s.len() as int;
    let kk = count_below(s, c as int);
    let mm = count(s, c, n);
    lemma_char_block(s, sa, bwt, c);
    let l2 = kk + count(bwt, c, l);
    let r2 = kk + count(bwt, c, r + 1) - 1;
    assert forall|t: int| 0 <= t < sa.len() implies ((l2 <= t <= r2) <==> has_prefix(
        crate::text::suffix(s, #[trigger] sa[t] as int),
        seq![c] + q,
    )) by {
        if l2 <= t <= r2 {
            let j = t - kk;
            lemma_occ_monotonic(bwt, c, r + 1, n);
            lemma_count_bounds(bwt, c, l);
            assert(0 <= j < count(bwt, c, bwt.len() as int));
            let u = lemma_rank_occ(bwt, c, j);
            if u < l {
                lemma_occ_monotonic(bwt, c, u + 1, l);
                assert(count(bwt, c, u + 1) == j + 1);
                assert(false);
            }
            if u > r {
                lemma_occ_monotonic(bwt, c, r + 1, u);
                assert(false);
            }
            assert(has_prefix(crate::text::suffix(s, sa[u] as int), q));
            lemma_lf(s, sa, bwt, c, u);
            assert((sa[t] as int) == sa[u] as int - 1);
            assert(s[sa[t] as int] == c) by {
                assert(bwt[u] == crate::text::pred_char(s, sa[u] as int));
            }
            assert(crate::text::suffix(s, sa[t] as int) =~= seq![c] + crate::text::suffix(
                s,
                sa[u] as int,
            ));
            lemma_prefix_prepend(c, crate::text::suffix(s, sa[u] as int), q);
        }
        if has_prefix(crate::text::suffix(s, sa[t] as int), seq![c] + q) {
            assert(crate::text::suffix(s, sa[t] as int)[0] == c) by {
                assert((seq![c] + q)[0] == c);
                assert(crate::text::suffix(s, sa[t] as int).take((seq![c] + q).len() as int)[0]
                    == crate::text::suffix(s, sa[t] as int)[0]);
            }
            assert(s[sa[t] as int] == c);
            assert(kk <= t < kk + mm);
            let j = t - kk;
            let u = lemma_rank_occ(bwt, c, j);
            lemma_lf(s, sa, bwt, c, u);
            assert((sa[t] as int) == sa[u] as int - 1);
            assert(crate::text::suffix(s, sa[t] as int) =~= seq![c] + crate::text::suffix(
                s,
                sa[u] as int,
            ));
            lemma_prefix_prepend(c, crate::text::suffix(s, sa[u] as int), q);
            assert(has_prefix(crate::text::suffix(s, sa[u] as int), q));
            assert(l <= u <= r);
            lemma_occ_monotonic(bwt, c, l, u);
            assert(count(bwt, c, u + 1) == j + 1);
            lemma_occ_monotonic(bwt, c, u + 1, r + 1);
        }
    }
}


/// After `k` steps the backward-search interval is exactly the block of
/// rows whose suffix starts with the last `k` characters of the pattern;
/// once the search has failed, no suffix starts with them.
proof fn lemma_bsearch_occurrences(s: Seq<u8>, sa: Seq<usize>, bwt: Seq<u8>, pat: Seq<u8>, k: int)
    requires
        is_suffix_array(s, sa),
        s.len() >= 1,
        s.last() == SENTINEL,
        is_bwt_of(s, sa, bwt),
        forall|i: int| 0 <= i < pat.len() ==> pat[i] != SENTINEL,
        0 <= k <= pat.len(),
    ensures
        match bsearch(bwt, pat, k) {
            Some(lr) => 0 <= lr.0 && lr.0 <= lr.1 && lr.1 < sa.len() && (forall|t: int|
                0 <= t < sa.len() ==> ((lr.0 <= t <= lr.1) <==> has_prefix(
                    crate::text::suffix(s, #[trigger] sa[t] as int),
                    pat.skip(pat.len() - k),
                ))),
            None => forall|t: int|
                0 <= t < sa.len() ==> !has_prefix(
                    crate::text::suffix(s, #[trigger] sa[t] as int),
                    pat.skip(pat.len() - k),
                ),
        },
    decreases k,
{
    let n = s.len() as int;
    if k == 0 {
        assert(pat.skip(pat.len() as int) =~= Seq::<u8>::empty());
        assert(bsearch(bwt, pat, 0) == Some((0int, n - 1)));
        assert forall|t: int| 0 <= t < sa.len() implies ((0 <= t <= n - 1) <==> has_prefix(
            crate::text::suffix(s, #[trigger] sa[t] as int),
            Seq::<u8>::empty(),
        )) by {
            assert(crate::text::suffix(s, sa[t] as int).take(0) =~= Seq::<u8>::empty());
        }
    } else {
        lemma_bsearch_occurrences(s, sa, bwt, pat, k - 1);
        let q = pat.skip(pat.len() - (k - 1));
        let cq = pat.skip(pat.len() - k);
        let c = pat[pat.len() - k];
        assert(c != SENTINEL);
        assert(cq =~= seq![c] + q);
        lemma_char_block(s, sa, bwt, c);
        let kk = count_below(s, c as int);
        let mm = count(s, c, n);
        match bsearch(bwt, pat, k - 1) {
            None => {
                // a row with the longer prefix would give a row with `q`
                assert forall|t: int| 0 <= t < sa.len() implies !has_prefix(
                    crate::text::suffix(s, #[trigger] sa[t] as int),
                    cq,
                ) by {
                    if has_prefix(crate::text::suffix(s, sa[t] as int), cq) {
                        let p = sa[t] as int;
                        assert(crate::text::suffix(s, p).len() >= 1 + q.len());
                        assert(p + 1 + q.len() <= n);
                        lemma_row_of(s, sa, p + 1);
                        let t2 = row_of(sa, p + 1);
                        assert(crate::text::suffix(s, p) =~= seq![s[p]] + crate::text::suffix(
                            s,
                            p + 1,
                        ));
                        assert(s[p] == c) by {
                            assert(cq[0] == c);
                            assert(crate::text::suffix(s, p).take(cq.len() as int)[0]
                                == crate::text::suffix(s, p)[0]);
                        }
                        lemma_prefix_prepend(c, crate::text::suffix(s, p + 1), q);
                        assert(has_prefix(crate::text::suffix(s, sa[t2] as int), q));
                        assert(false);
                    }
                }
            },
            Some((l, r)) => {
                if count(bwt, c, bwt.len() as int) == 0 {
                    assert(bsearch(bwt, pat, k) is None);
                    assert forall|t: int| 0 <= t < sa.len() implies !has_prefix(
                        crate::text::suffix(s, #[trigger] sa[t] as int),
                        cq,
                    ) by {
                        if has_prefix(crate::text::suffix(s, sa[t] as int), cq) {
                            assert(s[sa[t] as int] == c) by {
                                assert(cq[0] == c);
                                assert(crate::text::suffix(s, sa[t] as int).take(
                                    cq.len() as int,
                                )[0] == crate::text::suffix(s, sa[t] as int)[0]);
                            }
                            assert(kk <= t < kk + mm);
                        }
                    }
                } else {
                    lemma_interval_step(s, sa, bwt, c, q, l, r);
                    let l2 = kk + count(bwt, c, l);
                    let r2 = kk + count(bwt, c, r + 1) - 1;
                    lemma_count_bounds(bwt, c, l);
                    lemma_count_below_bounds(s, c as int);
                    lemma_occ_monotonic(bwt, c, r + 1, n);
                    lemma_below_plus_count(s, c);
                    if l2 > r2 {
                        assert(bsearch(bwt, pat, k) is None);
                    } else {
                        assert(bsearch(bwt, pat, k) == Some((l2, r2)));
                        assert(r2 < n);
                    }
                }
            },
        }
    }
}

/// Law: search correctness. For every text and every pattern free of the
/// sentinel symbol, backward search returns exactly the offsets at which the
/// pattern occurs in the sentinel-terminated text: each row of a surviving
/// interval is an occurrence, every occurrence appears in the interval, and
/// a failed search means there is no occurrence.
pub proof fn lemma_search_finds_occurrences(s: Seq<u8>, sa: Seq<usize>, bwt: Seq<u8>, pat: Seq<u8>)
    requires
        is_suffix_array(s, sa),
        s.len() >= 1,
        s.last() == SENTINEL,
        is_bwt_of(s, sa, bwt),
        forall|i: int| 0 <= i < pat.len() ==> pat[i] != SENTINEL,
    ensures
        match bsearch(bwt, pat, pat.len() as int) {
            Some(lr) => (forall|t: int|
                lr.0 <= t <= lr.1 ==> occurs_at(s, pat, #[trigger] sa[t] as int)) && (forall|p: int|
                0 <= p < s.len() && occurs_at(s, pat, p) ==> exists|t: int|
                    lr.0 <= t <= lr.1 && (#[trigger] sa[t] as int) == p),
            None => forall|p: int| 0 <= p < s.len() ==> !occurs_at(s, pat, p),
        },
{
    lemma_bsearch_occurrences(s, sa, bwt, pat, pat.len() as int);
    assert(pat.skip(0) =~= pat);
    match bsearch(bwt, pat, pat.len() as int) {
        Some(lr) => {
            assert forall|t: int| lr.0 <= t <= lr.1 implies occurs_at(
                s,
                pat,
                #[trigger] sa[t] as int,
            ) by {
                lemma_prefix_is_occurrence(s, pat, sa[t] as int);
            }
            assert forall|p: int| 0 <= p < s.len() && occurs_at(s, pat, p) implies exists|t: int|
                lr.0 <= t <= lr.1 && (#[trigger] sa[t] as int) == p by {
                lemma_row_of(s, sa, p);
                let t = row_of(sa, p);
                lemma_prefix_is_occurrence(s, pat, p);
                assert(lr.0 <= t <= lr.1 && (sa[t] as int) == p);
            }
        },
        None => {
            assert forall|p: int| 0 <= p < s.len() implies !occurs_at(s, pat, p) by {
                if occurs_at(s, pat, p) {
                    lemma_row_of(s, sa, p);
                    let t = row_of(sa, p);
                    lemma_prefix_is_occurrence(s, pat, p);
                    assert(has_prefix(crate::text::suffix(s, sa[t] as int), pat));
                    assert(false);
                }
            }
        },
    }
}

} // verus!
