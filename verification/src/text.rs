//! The sentinel-terminated text and its suffixes and rotations.

use vstd::prelude::*;

verus! {

/// The sentinel symbol that terminates every indexed text.
pub const SENTINEL: u8 = 36;

/// The text as the library indexes it: the input itself when it already ends
/// with the sentinel, otherwise the input with the sentinel appended.
pub open spec fn with_sentinel(t: Seq<u8>) -> Seq<u8> {
    if t.len() > 0 && t.last() == SENTINEL {
        t
    } else {
        t.push(SENTINEL)
    }
}

/// The suffix of `s` that starts at position `i`.
pub open spec fn suffix(s: Seq<u8>, i: int) -> Seq<u8>
    recommends
        0 <= i <= s.len(),
{
    s.skip(i)
}

/// The cyclic rotation of `s` that starts at position `i`.
pub open spec fn rotation(s: Seq<u8>, i: int) -> Seq<u8>
    recommends
        0 <= i <= s.len(),
{
    s.skip(i) + s.take(i)
}

/// The character that precedes position `i` of `s`, wrapping around to the
/// last character when `i` is 0. It is also the last character of the
/// rotation that starts at `i`.
pub open spec fn pred_char(s: Seq<u8>, i: int) -> u8
    recommends
        0 <= i < s.len(),
{
    if i == 0 {
        s.last()
    } else {
        s[i - 1]
    }
}

pub proof fn lemma_rotation_last(s: Seq<u8>, i: int)
    requires
        0 <= i < s.len(),
    ensures
        rotation(s, i).len() == s.len(),
        rotation(s, i).last() == pred_char(s, i),
{
}

/// Builds the sentinel-terminated copy of `text` that every construction in
/// the library works on.
pub fn sentinel_terminated(text: &[u8]) -> (s: Vec<u8>)
    ensures
        s@ == with_sentinel(text@),
        s@.len() >= 1,
{
    let mut s: Vec<u8> = Vec::new();
    let mut i: usize = 0;
    while i < text.len()
        invariant
            0 <= i <= text@.len(),
            s@ == text@.take(i as int),
        decreases text@.len() - i,
    {
        let c = text[i];
        s.push(c);
        proof {
            assert(s@ =~= text@.take(i + 1));
        }
        i = i + 1;
    }
    proof {
        assert(s@ =~= text@);
    }
    if s.len() == 0 || s[s.len() - 1] != SENTINEL {
        s.push(SENTINEL);
    }
    s
}

} // verus!
