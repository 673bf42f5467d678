//! The Burrows–Wheeler transform: the rotation-table construction, the
//! suffix-array construction, and the inverse transform that recovers the
//! text from its BWT string alone.

use vstd::prelude::*;
use vstd::relations::sorted_by;
use vstd::seq_lib::lemma_sorted_unique;
use crate::order::{
    lex_le, lex_leq, lex_le_bytes, lemma_lex_le_reflexive, lemma_lex_le_total,
    lemma_lex_le_total_ordering, lemma_lex_le_transitive,
};
use crate::order::lemma_lex_le_common_prefix;
use crate::suffix::is_suffix_array;
use crate::text::{
    lemma_rotation_last, pred_char, rotation, sentinel_terminated, suffix, with_sentinel, SENTINEL,
};

verus! {

/// The contents of a vector of rows, as a sequence of byte sequences.
pub open spec fn rows_view(rows: Seq<Vec<u8>>) -> Seq<Seq<u8>> {
    rows.map_values(|v: Vec<u8>| v@)
}

/// All cyclic rotations of `s`, listed by start position.
pub open spec fn rotations_of(s: Seq<u8>) -> Seq<Seq<u8>> {
    Seq::new(s.len(), |i: int| rotation(s, i))
}

/// The BWT of the sentinel-terminated text `s`: the last column of its
/// lexicographically sorted rotation table.
pub open spec fn bwt_spec(s: Seq<u8>) -> Seq<u8> {
    rotations_of(s).sort_by(lex_leq()).map_values(|r: Seq<u8>| r.last())
}

/// Sorts rows lexicographically by repeatedly moving a least remaining row
/// to the output.
fn sort_rows(rows: Vec<Vec<u8>>) -> (out: Vec<Vec<u8>>)
    ensures
        rows_view(out@).to_multiset() == rows_view(rows@).to_multiset(),
        sorted_by(rows_view(out@), lex_leq()),
{
    let ghost orig = rows_view(rows@);
    let mut rem = rows;
    let mut out: Vec<Vec<u8>> = Vec::new();
    proof {
        assert(rows_view(out@) =~= Seq::<Seq<u8>>::empty());
        vstd::seq_lib::to_multiset_len(rows_view(out@));
        vstd::multiset::lemma_multiset_empty_len(rows_view(out@).to_multiset());
        assert(rows_view(out@).to_multiset().add(rows_view(rem@).to_multiset())
            =~= rows_view(rem@).to_multiset()) by {
            assert forall|y: Seq<u8>|
                rows_view(out@).to_multiset().add(rows_view(rem@).to_multiset()).count(y)
                    == rows_view(rem@).to_multiset().count(y) by {
                vstd::multiset::axiom_multiset_add(
                    rows_view(out@).to_multiset(),
                    rows_view(rem@).to_multiset(),
                    y,
                );
                vstd::multiset::axiom_multiset_empty::<Seq<u8>>(y);
            }
        }
    }
    while rem.len() > 0
        invariant
            rows_view(out@).to_multiset().add(rows_view(rem@).to_multiset())
                == orig.to_multiset(),
            sorted_by(rows_view(out@), lex_leq()),
            forall|a: int, b: int|
                0 <= a < out@.len() && 0 <= b < rem@.len() ==> lex_le(
                    (#[trigger] out@[a])@,
                    (#[trigger] rem@[b])@,
                ),
        decreases rem@.len(),
    {
        let mut m: usize = 0;
        let mut j: usize = 1;
        proof {
            lemma_lex_le_reflexive(rem@[0]@);
        }
        while j < rem.len()
            invariant
                rem@.len() > 0,
                m < j,
                j <= rem@.len(),
                forall|t: int| 0 <= t < j ==> lex_le(rem@[m as int]@, (#[trigger] rem@[t])@),
            decreases rem@.len() - j,
        {
            if lex_le_bytes(&rem[j], &rem[m]) {
                proof {
                    assert forall|t: int| 0 <= t < j implies lex_le(
                        rem@[j as int]@,
                        (#[trigger] rem@[t])@,
                    ) by {
                        lemma_lex_le_transitive(rem@[j as int]@, rem@[m as int]@, rem@[t]@);
                    }
                    lemma_lex_le_reflexive(rem@[j as int]@);
                }
                m = j;
            } else {
                proof {
                    lemma_lex_le_total(rem@[j as int]@, rem@[m as int]@);
                }
            }
            j = j + 1;
        }
        let ghost old_rem = rem@;
        let ghost old_out = out@;
        let e = rem.remove(m);
        out.push(e);
        proof {
            let x = e@;
            let ro = rows_view(old_out);
            let rr = rows_view(old_rem);
            assert(rows_view(out@) =~= ro.push(x));
            assert(rows_view(rem@) =~= rr.remove(m as int));
            assert(rr[m as int] == x);
            vstd::seq_lib::to_multiset_build(ro, x);
            vstd::seq_lib::to_multiset_remove(rr, m as int);
            vstd::seq_lib::to_multiset_contains(rr, x);
            assert(rr.contains(rr[m as int]));
            assert(rr.to_multiset().count(x) > 0);
            assert(rows_view(out@).to_multiset().add(rows_view(rem@).to_multiset())
                =~= ro.to_multiset().add(rr.to_multiset()));
            // the extracted row follows everything already in the output and
            // precedes everything still remaining
            assert forall|a: int, b: int|
                0 <= a < out@.len() && 0 <= b < rem@.len() implies lex_le(
                (#[trigger] out@[a])@,
                (#[trigger] rem@[b])@,
            ) by {
                let rb = if b < m { rr[b] } else { rr[b + 1] };
                assert(rem@[b]@ == rb);
                if a < old_out.len() {
                    assert(lex_le(out@[a]@, rb));
                } else {
                    assert(out@[a] == e);
                    assert(lex_le(x, rb));
                }
            }
            assert(sorted_by(rows_view(out@), lex_leq())) by {
                assert forall|a: int, b: int| 0 <= a < b < rows_view(out@).len() implies lex_leq()(
                    rows_view(out@)[a],
                    rows_view(out@)[b],
                ) by {
                    if b < old_out.len() {
                        assert(lex_leq()(ro[a], ro[b]));
                    } else {
                        assert(rows_view(out@)[b] == x);
                        assert(lex_le(old_out[a]@, old_rem[m as int]@));
                    }
                }
            }
        }
    }
    proof {
        vstd::seq_lib::to_multiset_len(rows_view(rem@));
        vstd::multiset::lemma_multiset_empty_len(rows_view(rem@).to_multiset());
        assert(rows_view(rem@) =~= Seq::<Seq<u8>>::empty());
        assert(rows_view(out@).to_multiset() =~= orig.to_multiset()) by {
            assert forall|y: Seq<u8>|
                rows_view(out@).to_multiset().count(y) == orig.to_multiset().count(y) by {
                vstd::multiset::axiom_multiset_add(
                    rows_view(out@).to_multiset(),
                    rows_view(rem@).to_multiset(),
                    y,
                );
                vstd::multiset::axiom_multiset_empty::<Seq<u8>>(y);
            }
        }
    }
    out
}

/// The rotation-table construction of the BWT: terminate the text with the
/// sentinel when it is missing, sort all cyclic rotations, and read off the
/// last column.
pub fn bwt(text: &[u8]) -> (r: Vec<u8>)
    ensures
        r@ == bwt_spec(with_sentinel(text@)),
{
    let s = sentinel_terminated(text);
    let n = s.len();
    let mut rots: Vec<Vec<u8>> = Vec::new();
    let mut i: usize = 0;
    while i < n
        invariant
            n == s@.len(),
            i <= n,
            rots@.len() == i,
            forall|t: int| 0 <= t < i ==> (#[trigger] rots@[t])@ == rotation(s@, t),
        decreases n - i,
    {
        let mut rot: Vec<u8> = Vec::new();
        let mut j: usize = 0;
        while j < n
            invariant
                n == s@.len(),
                i < n,
                j <= n,
                rot@.len() == j,
                forall|t: int| 0 <= t < j ==> rot@[t] == rotation(s@, i as int)[t],
            decreases n - j,
        {
            let idx = if j < n - i {
                i + j
            } else {
                j - (n - i)
            };
            rot.push(s[idx]);
            j = j + 1;
        }
        proof {
            assert(rot@ =~= rotation(s@, i as int));
        }
        rots.push(rot);
        i = i + 1;
    }
    let ghost rots_spec = rotations_of(s@);
    proof {
        assert(rows_view(rots@) =~= rots_spec);
    }
    let sorted = sort_rows(rots);
    let ghost sb = rots_spec.sort_by(lex_leq());
    proof {
        lemma_lex_le_total_ordering();
        rots_spec.lemma_sort_by_ensures(lex_leq());
        lemma_sorted_unique(rows_view(sorted@), sb, lex_leq());
        assert(rows_view(sorted@) == sb);
        vstd::seq_lib::to_multiset_len(rots_spec);
        vstd::seq_lib::to_multiset_len(rows_view(sorted@));
        assert(sorted@.len() == n);
    }
    let mut r: Vec<u8> = Vec::new();
    let mut i: usize = 0;
    while i < n
        invariant
            n == s@.len(),
            n == sorted@.len(),
            rows_view(sorted@) == sb,
            sb == rotations_of(s@).sort_by(lex_leq()),
            i <= n,
            r@.len() == i,
            forall|t: int| 0 <= t < i ==> r@[t] == (#[trigger] sb[t]).last(),
        decreases n - i,
    {
        proof {
            lemma_lex_le_total_ordering();
            rotations_of(s@).lemma_sort_by_ensures(lex_leq());
            assert(sb.contains(sb[i as int]));
            assert(rotations_of(s@).contains(sb[i as int]));
            let k = choose|k: int|
                0 <= k < rotations_of(s@).len() && rotations_of(s@)[k] == sb[i as int];
            assert(sb[i as int] == rotation(s@, k));
            assert(rotation(s@, k).len() == n);
            assert(sorted@[i as int]@ == sb[i as int]);
        }
        let row = &sorted[i];
        let c = row[row.len() - 1];
        r.push(c);
        i = i + 1;
    }
    proof {
        assert(r@ =~= bwt_spec(s@));
    }
    r
}

/// Derives the BWT string from the text and a sequence of in-range start
/// positions by the predecessor-character rule: entry `k` holds the
/// character before position `sa[k]`, wrapping around to the last character.
pub fn build_bwt(text: &[u8], sa: &Vec<usize>) -> (r: Vec<u8>)
    requires
        forall|k: int|
            0 <= k < sa@.len() ==> (#[trigger] sa@[k] as int) < with_sentinel(text@).len(),
    ensures
        r@.len() == sa@.len(),
        forall|k: int|
            0 <= k < sa@.len() ==> r@[k] == pred_char(with_sentinel(text@), #[trigger] sa@[k] as int),
{
    let s = sentinel_terminated(text);
    let n = s.len();
    let mut r: Vec<u8> = Vec::new();
    let mut k: usize = 0;
    while k < sa.len()
        invariant
            s@ == with_sentinel(text@),
            n == s@.len(),
            n >= 1,
            forall|t: int|
                0 <= t < sa@.len() ==> (#[trigger] sa@[t] as int) < n,
            k <= sa@.len(),
            r@.len() == k,
            forall|t: int| 0 <= t < k ==> r@[t] == pred_char(s@, #[trigger] sa@[t] as int),
        decreases sa@.len() - k,
    {
        let i = sa[k];
        let c = if i == 0 {
            s[n - 1]
        } else {
            s[i - 1]
        };
        r.push(c);
        k = k + 1;
    }
    r
}

/// A reconstructed row is complete when it ends with the sentinel.
pub open spec fn ends_with_sentinel(r: Seq<u8>) -> bool {
    r.len() > 0 && r.last() == SENTINEL
}

/// One reconstruction round: prepend the BWT characters to the rows, then
/// sort the rows.
pub open spec fn ibwt_step(b: Seq<u8>, t: Seq<Seq<u8>>) -> Seq<Seq<u8>> {
    Seq::new(b.len(), |i: int| seq![b[i]] + t[i]).sort_by(lex_leq())
}

/// The reconstruction table after `k` rounds, starting from empty rows.
pub open spec fn ibwt_table(b: Seq<u8>, k: nat) -> Seq<Seq<u8>>
    decreases k,
{
    if k == 0 {
        Seq::new(b.len(), |i: int| Seq::<u8>::empty())
    } else {
        ibwt_step(b, ibwt_table(b, (k - 1) as nat))
    }
}

/// The first row of the table that ends with the sentinel, if any.
pub open spec fn first_sentinel_row(t: Seq<Seq<u8>>) -> Option<Seq<u8>>
    decreases t.len(),
{
    if t.len() == 0 {
        None
    } else if ends_with_sentinel(t.first()) {
        Some(t.first())
    } else {
        first_sentinel_row(t.drop_first())
    }
}

/// Recovers the sentinel-terminated text from a BWT string alone: after
/// `n` prepend-and-sort rounds each row holds one rotation of the text, and
/// the row that ends with the sentinel is the text itself. Returns `None`
/// when no row does — the input is not the BWT of any text.
pub fn inverse_bwt(b: &[u8]) -> (r: Option<Vec<u8>>)
    ensures
        match r {
            Some(row) => first_sentinel_row(ibwt_table(b@, b@.len())) == Some(row@),
            None => first_sentinel_row(ibwt_table(b@, b@.len())) is None,
        },
{
    let n = b.len();
    let mut table: Vec<Vec<u8>> = Vec::new();
    let mut i: usize = 0;
    while i < n
        invariant
            i <= n,
            table@.len() == i,
            forall|t: int| 0 <= t < i ==> (#[trigger] table@[t])@ == Seq::<u8>::empty(),
        decreases n - i,
    {
        table.push(Vec::new());
        i = i + 1;
    }
    proof {
        assert(rows_view(table@) =~= ibwt_table(b@, 0));
    }
    let mut it: usize = 0;
    while it < n
        invariant
            n == b@.len(),
            it <= n,
            table@.len() == n,
            rows_view(table@) == ibwt_table(b@, it as nat),
        decreases n - it,
    {
        let mut newt: Vec<Vec<u8>> = Vec::new();
        let mut i: usize = 0;
        while i < n
            invariant
                n == b@.len(),
                table@.len() == n,
                i <= n,
                newt@.len() == i,
                forall|t: int|
                    0 <= t < i ==> (#[trigger] newt@[t])@ == seq![b@[t]] + table@[t]@,
            decreases n - i,
        {
            let mut nr: Vec<u8> = Vec::new();
            nr.push(b[i]);
            proof {
                assert(nr@ =~= seq![b@[i as int]] + table@[i as int]@.take(0));
            }
            let mut j: usize = 0;
            while j < table[i].len()
                invariant
                    n == b@.len(),
                    table@.len() == n,
                    i < n,
                    j <= table@[i as int]@.len(),
                    nr@ == seq![b@[i as int]] + table@[i as int]@.take(j as int),
                decreases table@[i as int]@.len() - j,
            {
                let c = table[i][j];
                nr.push(c);
                proof {
                    assert(nr@ =~= seq![b@[i as int]] + table@[i as int]@.take(j + 1));
                }
                j = j + 1;
            }
            proof {
                assert(table@[i as int]@.take(table@[i as int]@.len() as int) =~= table@[i as int]@);
            }
            newt.push(nr);
            i = i + 1;
        }
        let ghost pre = Seq::new(b@.len(), |t: int| seq![b@[t]] + ibwt_table(b@, it as nat)[t]);
        proof {
            assert(rows_view(newt@) =~= pre);
        }
        let sorted = sort_rows(newt);
        proof {
            lemma_lex_le_total_ordering();
            pre.lemma_sort_by_ensures(lex_leq());
            lemma_sorted_unique(rows_view(sorted@), pre.sort_by(lex_leq()), lex_leq());
            assert(rows_view(sorted@) == ibwt_step(b@, ibwt_table(b@, it as nat)));
            assert(ibwt_table(b@, (it + 1) as nat) == ibwt_step(b@, ibwt_table(b@, it as nat)));
            vstd::seq_lib::to_multiset_len(pre);
            vstd::seq_lib::to_multiset_len(rows_view(sorted@));
            assert(sorted@.len() == n);
        }
        table = sorted;
        it = it + 1;
    }
    let ghost tview = ibwt_table(b@, b@.len());
    proof {
        assert(tview.skip(0) =~= tview);
    }
    let mut i: usize = 0;
    while i < n
        invariant
            n == b@.len(),
            tview == ibwt_table(b@, b@.len()),
            table@.len() == n,
            rows_view(table@) == tview,
            i <= n,
            first_sentinel_row(tview) == first_sentinel_row(tview.skip(i as int)),
            forall|j: int| 0 <= j < i ==> !ends_with_sentinel(tview[j]),
        decreases n - i,
    {
        let row_len = table[i].len();
        let found = if row_len == 0 {
            false
        } else {
            table[i][row_len - 1] == SENTINEL
        };
        proof {
            assert(tview.skip(i as int).first() == tview[i as int]);
            assert(found == ends_with_sentinel(tview[i as int]));
        }
        if found {
            let row = table.remove(i);
            proof {
                assert(row@ == tview[i as int]);
                assert(first_sentinel_row(tview.skip(i as int)) == Some(tview[i as int]));
            }
            return Some(row);
        }
        proof {
            assert(tview.skip(i as int).drop_first() =~= tview.skip(i + 1));
        }
        i = i + 1;
    }
    proof {
        assert(tview.skip(n as int) =~= Seq::<Seq<u8>>::empty());
        assert(first_sentinel_row(tview) is None);
    }
    None
}


/// Returns the first position at which the characters of `s` read from `i`
/// and from `j` differ. With the unique, minimal sentinel at the end of `s`,
/// two distinct start positions always disagree before either runs past the
/// end.
proof fn lemma_first_diff(s: Seq<u8>, i: int, j: int) -> (d: int)
    requires
        s.len() >= 1,
        s.last() == SENTINEL,
        forall|t: int| 0 <= t < s.len() - 1 ==> s[t] > SENTINEL,
        0 <= i < s.len(),
        0 <= j < s.len(),
        i != j,
    ensures
        0 <= d,
        i + d < s.len(),
        j + d < s.len(),
        forall|t: int| 0 <= t < d ==> #[trigger] s[i + t] == s[j + t],
        s[i + d] != s[j + d],
    decreases (s.len() - i) + (s.len() - j),
{
    let n = s.len() as int;
    if s[i] != s[j] {
        0
    } else {
        assert(i != n - 1 && j != n - 1) by {
            if i == n - 1 {
                assert(s[i] == SENTINEL);
                assert(s[j] > SENTINEL);
            }
            if j == n - 1 {
                assert(s[j] == SENTINEL);
                assert(s[i] > SENTINEL);
            }
        }
        let d0 = lemma_first_diff(s, i + 1, j + 1);
        assert forall|t: int| 0 <= t < d0 + 1 implies #[trigger] s[i + t] == s[j + t] by {
            if t > 0 {
                assert(s[(i + 1) + (t - 1)] == s[(j + 1) + (t - 1)]);
            }
        }
        d0 + 1
    }
}

/// With the unique, minimal sentinel terminating `s`, two suffixes compare
/// exactly as the rotations starting at the same positions: the first
/// difference comes before either sequence runs out.
proof fn lemma_suffix_rotation_order(s: Seq<u8>, i: int, j: int)
    requires
        s.len() >= 1,
        s.last() == SENTINEL,
        forall|t: int| 0 <= t < s.len() - 1 ==> s[t] > SENTINEL,
        0 <= i < s.len(),
        0 <= j < s.len(),
        i != j,
    ensures
        lex_le(suffix(s, i), suffix(s, j)) == lex_le(rotation(s, i), rotation(s, j)),
{
    let n = s.len() as int;
    let d = lemma_first_diff(s, i, j);
    let si = suffix(s, i);
    let sj = suffix(s, j);
    let ri = rotation(s, i);
    let rj = rotation(s, j);
    assert(si.len() == n - i && sj.len() == n - j);
    assert(ri.len() == n && rj.len() == n);
    assert forall|t: int| 0 <= t < d implies si[t] == sj[t] by {
        assert(s[i + t] == s[j + t]);
    }
    assert forall|t: int| 0 <= t < d implies ri[t] == rj[t] by {
        assert(ri[t] == s[i + t] && rj[t] == s[j + t]);
    }
    lemma_lex_le_common_prefix(si, sj, d);
    lemma_lex_le_common_prefix(ri, rj, d);
    assert(si.skip(d)[0] == s[i + d] && sj.skip(d)[0] == s[j + d]);
    assert(ri.skip(d)[0] == s[i + d] && rj.skip(d)[0] == s[j + d]);
    assert(lex_le(si.skip(d), sj.skip(d)) == (s[i + d] < s[j + d]));
    assert(lex_le(ri.skip(d), rj.skip(d)) == (s[i + d] < s[j + d]));
}

/// Two sequences with the same multiset keep the same multiset after a map.
pub proof fn lemma_map_multiset<A>(a: Seq<int>, b: Seq<int>, f: spec_fn(int) -> A)
    requires
        a.to_multiset() == b.to_multiset(),
    ensures
        a.map_values(f).to_multiset() == b.map_values(f).to_multiset(),
    decreases a.len(),
{
    broadcast use vstd::multiset::group_multiset_axioms;

    vstd::seq_lib::to_multiset_len(a);
    vstd::seq_lib::to_multiset_len(b);
    if a.len() == 0 {
        assert(b.len() == 0);
        assert(a.map_values(f) =~= b.map_values(f));
    } else {
        let x = a.last();
        assert(a.drop_last().push(x) =~= a);
        vstd::seq_lib::to_multiset_build(a.drop_last(), x);
        vstd::seq_lib::to_multiset_contains(a, x);
        assert(a.contains(a[a.len() - 1]));
        vstd::seq_lib::to_multiset_contains(b, x);
        assert(b.contains(x));
        let bi = choose|bi: int| 0 <= bi < b.len() && b[bi] == x;
        vstd::seq_lib::to_multiset_remove(b, bi);
        assert(a.drop_last().to_multiset() =~= b.remove(bi).to_multiset());
        lemma_map_multiset(a.drop_last(), b.remove(bi), f);
        let ma = a.map_values(f);
        let mb = b.map_values(f);
        assert(ma =~= a.drop_last().map_values(f).push(f(x)));
        vstd::seq_lib::to_multiset_build(a.drop_last().map_values(f), f(x));
        assert(mb.remove(bi) =~= b.remove(bi).map_values(f));
        vstd::seq_lib::to_multiset_remove(mb, bi);
        assert(mb[bi] == f(x));
        vstd::seq_lib::to_multiset_contains(mb, f(x));
        assert(mb.contains(mb[bi]));
        assert(ma.to_multiset() =~= mb.to_multiset());
    }
}

/// Two duplicate-free sequences over the same set of values have the same
/// multiset.
pub proof fn lemma_nodup_same_set_multiset(a: Seq<int>, b: Seq<int>)
    requires
        a.no_duplicates(),
        b.no_duplicates(),
        a.to_set() == b.to_set(),
    ensures
        a.to_multiset() == b.to_multiset(),
{
    a.lemma_multiset_has_no_duplicates();
    b.lemma_multiset_has_no_duplicates();
    assert(a.to_multiset() =~= b.to_multiset()) by {
        assert forall|y: int| a.to_multiset().count(y) == b.to_multiset().count(y) by {
            vstd::seq_lib::to_multiset_contains(a, y);
            vstd::seq_lib::to_multiset_contains(b, y);
            assert(a.contains(y) == a.to_set().contains(y));
            assert(b.contains(y) == b.to_set().contains(y));
        }
    }
}

/// Law: cross-construction equivalence. For a text whose characters all
/// exceed the sentinel, the BWT read off the suffix array by the
/// predecessor-character rule equals the BWT read off the sorted rotation
/// table: sorting rotations orders them exactly as the suffixes, because the
/// unique minimal sentinel decides every comparison before it can wrap.
pub proof fn lemma_bwt_constructions_agree(text: Seq<u8>, sa: Seq<usize>)
    requires
        forall|i: int| 0 <= i < text.len() ==> text[i] > SENTINEL,
        is_suffix_array(with_sentinel(text), sa),
    ensures
        Seq::new(sa.len(), |k: int| pred_char(with_sentinel(text), sa[k] as int)) == bwt_spec(
            with_sentinel(text),
        ),
{
    let s = with_sentinel(text);
    let n = s.len() as int;
    assert(s == text.push(SENTINEL)) by {
        if text.len() > 0 {
            assert(text.last() > SENTINEL);
        }
    }
    assert(s.last() == SENTINEL);
    assert(forall|t: int| 0 <= t < n - 1 ==> s[t] > SENTINEL);
    let f = |i: int| rotation(s, i);
    let idx = sa.map_values(|x: usize| x as int);
    let rng = Seq::new(s.len(), |i: int| i);
    let rot_sorted = idx.map_values(f);
    // the permuted rotation table is sorted, because the suffixes are
    lemma_lex_le_total_ordering();
    assert(sorted_by(rot_sorted, lex_leq())) by {
        assert forall|a: int, b: int| 0 <= a < b < rot_sorted.len() implies lex_leq()(
            rot_sorted[a],
            rot_sorted[b],
        ) by {
            assert(lex_le(suffix(s, sa[a] as int), suffix(s, sa[b] as int)));
            assert(sa[a] != sa[b]);
            lemma_suffix_rotation_order(s, sa[a] as int, sa[b] as int);
            assert(rot_sorted[a] == rotation(s, sa[a] as int));
            assert(rot_sorted[b] == rotation(s, sa[b] as int));
        }
    }
    // it also holds the same rotations, because the positions are a permutation
    crate::suffix::lemma_suffix_array_permutation(s, sa);
    assert(rng.no_duplicates());
    assert(rng.to_set() == vstd::set_lib::set_int_range(0, n)) by {
        assert forall|v: int| vstd::set_lib::set_int_range(0, n).contains(v) implies rng.to_set().contains(
            v,
        ) by {
            assert(rng[v] == v);
            assert(rng.contains(v));
        }
        assert(rng.to_set() =~= vstd::set_lib::set_int_range(0, n));
    }
    lemma_nodup_same_set_multiset(idx, rng);
    lemma_map_multiset(idx, rng, f);
    assert(rng.map_values(f) =~= rotations_of(s));
    // a sorted arrangement of the rotations is the sorted rotation table
    rotations_of(s).lemma_sort_by_ensures(lex_leq());
    lemma_sorted_unique(rot_sorted, rotations_of(s).sort_by(lex_leq()), lex_leq());
    // its last column is the predecessor column of the suffix array
    assert(Seq::new(sa.len(), |k: int| pred_char(s, sa[k] as int)) =~= bwt_spec(s)) by {
        assert forall|k: int| 0 <= k < sa.len() implies pred_char(s, sa[k] as int) == bwt_spec(
            s,
        )[k] by {
            lemma_rotation_last(s, sa[k] as int);
            assert(rot_sorted[k] == rotation(s, sa[k] as int));
        }
    }
}


/// A row returned by `first_sentinel_row` is one of the table's rows and
/// does end with the sentinel; `None` means no row does.
pub proof fn lemma_first_sentinel_row_ends(t: Seq<Seq<u8>>)
    ensures
        match first_sentinel_row(t) {
            Some(r) => ends_with_sentinel(r) && t.contains(r),
            None => forall|i: int| 0 <= i < t.len() ==> !ends_with_sentinel(#[trigger] t[i]),
        },
    decreases t.len(),
{
    if t.len() > 0 && !ends_with_sentinel(t.first()) {
        lemma_first_sentinel_row_ends(t.drop_first());
        match first_sentinel_row(t.drop_first()) {
            Some(r) => {
                let j = choose|j: int| 0 <= j < t.drop_first().len() && t.drop_first()[j] == r;
                assert(t[j + 1] == r);
            },
            None => {
                assert forall|i: int| 0 <= i < t.len() implies !ends_with_sentinel(
                    #[trigger] t[i],
                ) by {
                    if i > 0 {
                        assert(t[i] == t.drop_first()[i - 1]);
                    }
                }
            },
        }
    }
}


/// Truncating two sequences to the same length keeps their order.
proof fn lemma_lex_le_take(x: Seq<u8>, y: Seq<u8>, k: int)
    requires
        lex_le(x, y),
        0 <= k <= x.len(),
        k <= y.len(),
    ensures
        lex_le(x.take(k), y.take(k)),
    decreases k,
{
    if k > 0 && x.len() > 0 && y.len() > 0 && x[0] == y[0] {
        lemma_lex_le_take(x.drop_first(), y.drop_first(), k - 1);
        assert(x.take(k).drop_first() =~= x.drop_first().take(k - 1));
        assert(y.take(k).drop_first() =~= y.drop_first().take(k - 1));
    }
}

/// `first_sentinel_row` returns the row at the first index whose row ends
/// with the sentinel.
proof fn lemma_first_sentinel_row_found(t: Seq<Seq<u8>>, j: int)
    requires
        0 <= j < t.len(),
        ends_with_sentinel(t[j]),
        forall|j2: int| 0 <= j2 < j ==> !ends_with_sentinel(#[trigger] t[j2]),
    ensures
        first_sentinel_row(t) == Some(t[j]),
    decreases j,
{
    if j == 0 {
    } else {
        assert forall|j2: int| 0 <= j2 < j - 1 implies !ends_with_sentinel(
            #[trigger] t.drop_first()[j2],
        ) by {
            assert(t.drop_first()[j2] == t[j2 + 1]);
        }
        assert(t.drop_first()[j - 1] == t[j]);
        lemma_first_sentinel_row_found(t.drop_first(), j - 1);
    }
}

/// After `k` reconstruction rounds on the BWT string of `s`, the table holds
/// the `k`-character prefixes of the sorted rotations of `s`.
proof fn lemma_ibwt_table_rows(s: Seq<u8>, sa: Seq<usize>, b: Seq<u8>, k: int)
    requires
        s.len() >= 1,
        s.last() == SENTINEL,
        forall|t: int| 0 <= t < s.len() - 1 ==> s[t] > SENTINEL,
        is_suffix_array(s, sa),
        b.len() == sa.len(),
        forall|j: int| 0 <= j < sa.len() ==> b[j] == pred_char(s, #[trigger] sa[j] as int),
        0 <= k <= s.len(),
    ensures
        ibwt_table(b, k as nat) == Seq::new(s.len(), |j: int| rotation(s, sa[j] as int).take(k)),
    decreases k,
{
    let n = s.len() as int;
    let cur = Seq::new(s.len(), |j: int| rotation(s, sa[j] as int).take(k));
    if k == 0 {
        assert(ibwt_table(b, 0) =~= cur) by {
            assert forall|j: int| 0 <= j < n implies cur[j] == Seq::<u8>::empty() by {
                assert(rotation(s, sa[j] as int).take(0) =~= Seq::<u8>::empty());
            }
        }
    } else {
        lemma_ibwt_table_rows(s, sa, b, k - 1);
        let prev = Seq::new(s.len(), |j: int| rotation(s, sa[j] as int).take(k - 1));
        let pre = Seq::new(b.len(), |i: int| seq![b[i]] + ibwt_table(b, (k - 1) as nat)[i]);
        // each prepended row is the k-prefix of the rotation one step earlier
        let fk = |i: int| rotation(s, i).take(k);
        let idx = sa.map_values(|x: usize| x as int);
        let pidx = Seq::new(s.len(), |j: int| if sa[j] as int == 0 { n - 1 } else { sa[j] as int - 1 });
        assert forall|j: int| 0 <= j < n implies pre[j] == fk(pidx[j]) by {
            let p = pidx[j];
            assert(0 <= p < n);
            assert(rotation(s, p).len() == n);
            assert(rotation(s, sa[j] as int).len() == n);
            assert(pre[j] =~= rotation(s, p).take(k)) by {
                assert(rotation(s, p)[0] == s[p]);
                assert(s[p] == b[j]);
                assert forall|m: int| 1 <= m < k implies rotation(s, p).take(k)[m] == rotation(
                    s,
                    sa[j] as int,
                ).take(k - 1)[m - 1] by {
                    let i0 = sa[j] as int;
                    if i0 == 0 {
                        assert(rotation(s, p)[m] == s[m - 1]);
                        assert(rotation(s, i0)[m - 1] == s[m - 1]);
                    } else {
                        if m < n - p {
                            assert(rotation(s, p)[m] == s[p + m]);
                            assert(rotation(s, i0)[m - 1] == s[i0 + m - 1]);
                        } else {
                            assert(rotation(s, p)[m] == s[m - (n - p)]);
                            assert(rotation(s, i0)[m - 1] == s[(m - 1) - (n - i0)]);
                        }
                    }
                }
            }
        }
        assert(pre =~= pidx.map_values(fk));
        // the new rows are a rearrangement of the k-prefixes of all rotations
        crate::suffix::lemma_suffix_array_permutation(s, sa);
        let rng = Seq::new(s.len(), |i: int| i);
        assert(rng.no_duplicates());
        assert(rng.to_set() == vstd::set_lib::set_int_range(0, n)) by {
            assert forall|v: int| vstd::set_lib::set_int_range(0, n).contains(v) implies rng.to_set().contains(
                v,
            ) by {
                assert(rng[v] == v);
                assert(rng.contains(v));
            }
            assert(rng.to_set() =~= vstd::set_lib::set_int_range(0, n));
        }
        assert(pidx.no_duplicates()) by {
            assert forall|a: int, b2: int|
                0 <= a < pidx.len() && 0 <= b2 < pidx.len() && a != b2 implies pidx[a]
                != pidx[b2] by {
                if a < b2 {
                    assert(sa[a] != sa[b2]);
                } else {
                    assert(sa[b2] != sa[a]);
                }
            }
        }
        assert(pidx.to_set() == vstd::set_lib::set_int_range(0, n)) by {
            assert forall|v: int| vstd::set_lib::set_int_range(0, n).contains(v) implies pidx.to_set().contains(
                v,
            ) by {
                let w = if v == n - 1 { 0int } else { v + 1 };
                assert(vstd::set_lib::set_int_range(0, n).contains(w));
                assert(idx.to_set().contains(w));
                assert(idx.contains(w));
                let j = choose|j: int| 0 <= j < idx.len() && idx[j] == w;
                assert(pidx[j] == v);
                assert(pidx.contains(pidx[j]));
            }
            assert forall|v: int| pidx.to_set().contains(v) implies vstd::set_lib::set_int_range(
                0,
                n,
            ).contains(v) by {
                assert(pidx.contains(v));
                let j = choose|j: int| 0 <= j < pidx.len() && pidx[j] == v;
                assert((sa[j] as int) < n);
            }
            assert(pidx.to_set() =~= vstd::set_lib::set_int_range(0, n));
        }
        assert(idx.no_duplicates() && idx.to_set() == vstd::set_lib::set_int_range(0, n));
        lemma_nodup_same_set_multiset(pidx, rng);
        lemma_nodup_same_set_multiset(idx, rng);
        lemma_map_multiset(pidx, rng, fk);
        lemma_map_multiset(idx, rng, fk);
        assert(cur =~= idx.map_values(fk));
        assert(pre.to_multiset() == cur.to_multiset());
        // the k-prefixes in suffix-array order are sorted, so sorting the
        // rearrangement reproduces them
        assert(sorted_by(cur, lex_leq())) by {
            assert forall|a: int, b2: int| 0 <= a < b2 < cur.len() implies lex_leq()(
                cur[a],
                cur[b2],
            ) by {
                assert(sa[a] != sa[b2]);
                assert(lex_le(suffix(s, sa[a] as int), suffix(s, sa[b2] as int)));
                lemma_suffix_rotation_order(s, sa[a] as int, sa[b2] as int);
                lemma_lex_le_take(
                    rotation(s, sa[a] as int),
                    rotation(s, sa[b2] as int),
                    k,
                );
            }
        }
        lemma_lex_le_total_ordering();
        pre.lemma_sort_by_ensures(lex_leq());
        lemma_sorted_unique(pre.sort_by(lex_leq()), cur, lex_leq());
        assert(ibwt_table(b, k as nat) == ibwt_step(b, ibwt_table(b, (k - 1) as nat)));
        assert(ibwt_table(b, k as nat) == pre.sort_by(lex_leq()));
    }
}

/// Law: round trip. For a text whose characters all exceed the sentinel, the
/// reconstruction table built from the text's BWT string ends with exactly
/// the sorted rotations of the sentinel-terminated text, and the one row
/// that ends with the sentinel is that text itself: inverting the transform
/// recovers the sentinel-terminated text.
pub proof fn lemma_inverse_bwt_round_trip(text: Seq<u8>, sa: Seq<usize>)
    requires
        forall|i: int| 0 <= i < text.len() ==> text[i] > SENTINEL,
        is_suffix_array(with_sentinel(text), sa),
    ensures
        bwt_spec(with_sentinel(text)).len() == with_sentinel(text).len(),
        first_sentinel_row(
            ibwt_table(bwt_spec(with_sentinel(text)), with_sentinel(text).len()),
        ) == Some(with_sentinel(text)),
{
    let s = with_sentinel(text);
    let n = s.len() as int;
    assert(s == text.push(SENTINEL)) by {
        if text.len() > 0 {
            assert(text.last() > SENTINEL);
        }
    }
    assert(s.last() == SENTINEL);
    assert(forall|t: int| 0 <= t < n - 1 ==> s[t] > SENTINEL);
    let b = bwt_spec(s);
    lemma_bwt_constructions_agree(text, sa);
    assert(b == Seq::new(sa.len(), |j: int| pred_char(s, sa[j] as int)));
    assert(b.len() == sa.len());
    assert(forall|j: int| 0 <= j < sa.len() ==> b[j] == pred_char(s, #[trigger] sa[j] as int));
    lemma_ibwt_table_rows(s, sa, b, n);
    let table = ibwt_table(b, s.len());
    assert forall|j: int| 0 <= j < n implies table[j] == rotation(s, sa[j] as int) by {
        assert(rotation(s, sa[j] as int).len() == n);
        assert(rotation(s, sa[j] as int).take(n) =~= rotation(s, sa[j] as int));
    }
    // only the rotation that starts at the text's first character ends with
    // the sentinel
    assert forall|j: int| 0 <= j < n implies (ends_with_sentinel(#[trigger] table[j]) <==> sa[j]
        as int == 0) by {
        lemma_rotation_last(s, sa[j] as int);
        if sa[j] as int == 0 {
            assert(pred_char(s, 0) == SENTINEL);
        } else {
            assert(pred_char(s, sa[j] as int) == s[sa[j] as int - 1]);
        }
    }
    crate::suffix::lemma_suffix_array_permutation(s, sa);
    let idx = sa.map_values(|x: usize| x as int);
    assert(vstd::set_lib::set_int_range(0, n).contains(0));
    assert(idx.to_set().contains(0));
    assert(idx.contains(0));
    let j0 = choose|j: int| 0 <= j < idx.len() && idx[j] == 0;
    assert(sa[j0] as int == 0);
    assert(ends_with_sentinel(table[j0]));
    assert forall|j2: int| 0 <= j2 < j0 implies !ends_with_sentinel(#[trigger] table[j2]) by {
        if j2 < j0 {
            assert(sa[j2] != sa[j0]);
        }
    }
    lemma_first_sentinel_row_found(table, j0);
    assert(table[j0] == rotation(s, 0));
    assert(rotation(s, 0) =~= s);
}

} // verus!
