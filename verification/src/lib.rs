//! Human-oriented numeric identifier codecs.
//!
//! Machine integers are rendered as short printable strings in one of three
//! symbol alphabets, each chosen for a different failure mode of human
//! handling: spoken readback ([english16]), visual transcription ([latin25]),
//! and compact URL-friendly text ([base62]). Every encoder has an inverse
//! decoder, and a convenience function derives an identifier from an
//! arbitrary string by hashing it.
//!
//! Shared by all three codecs are a left-padding helper and a
//! "greater-than with length dominance" comparator that bounds-checks
//! candidate decodings against the encoding of the largest representable
//! integer.

use vstd::prelude::*;

pub mod base62;
pub mod engine;
pub mod english16;
pub mod hashing;
pub mod latin25;

verus! {

/// Strict lexicographic "greater than" on character sequences: at the first
/// position where the two differ, the larger codepoint wins; a sequence that
/// is a proper prefix of the other is smaller.
pub open spec fn lex_greater(a: Seq<char>, b: Seq<char>) -> bool
    decreases a.len(),
{
    if a.len() == 0 {
        false
    } else if b.len() == 0 {
        true
    } else if a[0] != b[0] {
        a[0] > b[0]
    } else {
        lex_greater(a.drop_first(), b.drop_first())
    }
}

/// Length-dominant comparison: a longer sequence is always greater; equal
/// lengths fall back to strict lexicographic comparison by codepoint.
pub open spec fn spec_greater(a: Seq<char>, b: Seq<char>) -> bool {
    if a.len() > b.len() {
        true
    } else if a.len() < b.len() {
        false
    } else {
        lex_greater(a, b)
    }
}

/// Decide whether `s1` is length-dominant-greater than `s2`: true when `s1`
/// has more characters, false when it has fewer, and on equal lengths true
/// exactly when `s1` is strictly greater codepoint-by-codepoint.
pub fn greater_than(s1: &str, s2: &str) -> (r: bool)
    ensures
        r == spec_greater(s1@, s2@),
{
    let l1 = s1.unicode_len();
    let l2 = s2.unicode_len();

    if l1 > l2 {
        return true;
    }
    if l1 < l2 {
        return false;
    }

    proof {
        assert(s1@.subrange(0, l1 as int) =~= s1@);
        assert(s2@.subrange(0, l1 as int) =~= s2@);
    }
    let mut i: usize = 0;
    while i < l1
        invariant
            l1 == s1@.len(),
            l1 == s2@.len(),
            0 <= i <= l1,
            s1@.subrange(0, i as int) =~= s2@.subrange(0, i as int),
            lex_greater(s1@, s2@) == lex_greater(
                s1@.subrange(i as int, l1 as int),
                s2@.subrange(i as int, l1 as int),
            ),
        decreases l1 - i,
    {
        let c1 = s1.get_char(i);
        let c2 = s2.get_char(i);
        if c1 != c2 {
            return c1 > c2;
        }
        proof {
            let t1 = s1@.subrange(i as int, l1 as int);
            let t2 = s2@.subrange(i as int, l1 as int);
            assert(t1.drop_first() =~= s1@.subrange(i + 1, l1 as int));
            assert(t2.drop_first() =~= s2@.subrange(i + 1, l1 as int));
        }
        i += 1;
    }
    proof {
        assert(s1@.subrange(i as int, l1 as int).len() == 0);
    }
    false
}

/// The sequence of `n` copies of the ASCII digit `'0'`.
pub open spec fn zeros(n: nat) -> Seq<char> {
    Seq::new(n, |i: int| '0')
}

/// Left-padding to a target width: a string already at least `width`
/// characters long is returned unchanged; a shorter one is prefixed with
/// copies of the literal ASCII digit `'0'` until it is exactly `width`
/// characters long.
pub open spec fn spec_pad(width: nat, s: Seq<char>) -> Seq<char> {
    if s.len() >= width {
        s
    } else {
        zeros((width - s.len()) as nat) + s
    }
}

/// Left-pad `s` with `'0'` to `width` characters; a string of `width` or
/// more characters comes back unchanged.
///
/// Every alphabet in this crate reserves position 0 for `'0'`, so padded
/// output remains decodable in every codec.
pub fn pad_with_zeros(width: usize, s: &str) -> (r: String)
    ensures
        r@ == spec_pad(width as nat, s@),
{
    let n = s.unicode_len();
    if n >= width {
        s.to_owned()
    } else {
        let mut padded = String::new();
        let mut i: usize = 0;
        while i < width - n
            invariant
                n == s@.len(),
                n < width,
                0 <= i <= width - n,
                padded@ =~= zeros(i as nat),
            decreases width - n - i,
        {
            padded.append("0");
            proof {
                reveal_strlit("0");
                assert(padded@ =~= zeros((i + 1) as nat));
            }
            i += 1;
        }
        padded.append(s);
        proof {
            assert(padded@ =~= spec_pad(width as nat, s@));
        }
        padded
    }
}

/// Padding leaves a string of at least the requested width unchanged, and
/// otherwise yields exactly the requested width, with the given string as
/// its suffix.
pub proof fn lemma_pad_properties(width: nat, s: Seq<char>)
    ensures
        s.len() >= width ==> spec_pad(width, s) == s,
        s.len() < width ==> spec_pad(width, s).len() == width,
        spec_pad(width, s).subrange(
            spec_pad(width, s).len() - s.len(),
            spec_pad(width, s).len() as int,
        ) =~= s,
{
}

} // verus!
