//! Locators humans can exchange when speaking aloud, for 32-bit unsigned
//! integers.
//!
//! This is a base-16 symbol set whose sixteen digits have uniquely
//! distinguishable English pronunciations. The decimal digits that were
//! kept sit at their base-10 positions; the letters fill the remaining
//! slots in alphabetical order. The alphabet is *not* in ASCII order
//! (`'C'` for digit 3 precedes `'4'` for digit 4), but its largest
//! codepoint `'Y'` is also its largest digit, so the all-`'Y'` sentinel
//! still bounds every accepted string.

use vstd::prelude::*;

use crate::engine;

verus! {

/// The glyph for English16 digit `d`: the alphabet runs
/// `0 1 2 C 4 F H 7 8 9 K L M R X Y`.
pub open spec fn english16_glyph(d: int) -> char {
    if d == 0 { '0' } else if d == 1 { '1' } else if d == 2 { '2' } else if d == 3 { 'C' }
    else if d == 4 { '4' } else if d == 5 { 'F' } else if d == 6 { 'H' } else if d == 7 { '7' }
    else if d == 8 { '8' } else if d == 9 { '9' } else if d == 10 { 'K' } else if d == 11 { 'L' }
    else if d == 12 { 'M' } else if d == 13 { 'R' } else if d == 14 { 'X' } else { 'Y' }
}

/// The English16 alphabet as an ordered glyph sequence.
pub open spec fn english16_alphabet() -> Seq<char> {
    Seq::new(16, |d: int| english16_glyph(d))
}

/// The canonical English16 encoding of `u32::MAX`, the largest value
/// `from_english16` accepts.
pub open spec fn english16_sentinel() -> Seq<char> {
    seq!['Y', 'Y', 'Y', 'Y', 'Y', 'Y', 'Y', 'Y']
}

/// The English16 alphabet is well formed, and no glyph exceeds `'Y'`, the
/// glyph of the largest digit.
pub proof fn lemma_english16_alphabet()
    ensures
        engine::wf_alphabet(english16_alphabet()),
        forall|i: int| 0 <= i < 16 ==> #[trigger] english16_alphabet()[i] <= 'Y',
{
    assert forall|i: int, j: int|
        0 <= i < j < english16_alphabet().len() implies english16_alphabet()[i]
        != english16_alphabet()[j] by {
        assert(english16_alphabet()[i] == english16_glyph(i));
        assert(english16_alphabet()[j] == english16_glyph(j));
    }
    assert forall|i: int| 0 <= i < 16 implies #[trigger] english16_alphabet()[i] <= 'Y' by {
        assert(english16_alphabet()[i] == english16_glyph(i));
    }
}

/// The sentinel is the canonical encoding of `u32::MAX`, and base 16
/// raised to its length covers exactly the 32-bit range.
pub proof fn lemma_english16_sentinel()
    ensures
        engine::encode(english16_alphabet(), u32::MAX as nat) == english16_sentinel(),
        vstd::arithmetic::power::pow(16, english16_sentinel().len() as nat) == u32::MAX as nat
            + 1,
{
    let a = english16_alphabet();
    assert(a.len() == 16);
    assert(a[15] == 'Y');
    assert(engine::encode_rec(a, 0) =~= Seq::<char>::empty());
    assert(0xfnat / 16 == 0 && 0xfnat % 16 == 15);
    assert(engine::encode_rec(a, 0xf) =~= seq!['Y']);
    assert(0xffnat / 16 == 0xf && 0xffnat % 16 == 15);
    assert(engine::encode_rec(a, 0xff) =~= seq!['Y', 'Y']);
    assert(0xfffnat / 16 == 0xff && 0xfffnat % 16 == 15);
    assert(engine::encode_rec(a, 0xfff) =~= seq!['Y', 'Y', 'Y']);
    assert(0xffffnat / 16 == 0xfff && 0xffffnat % 16 == 15);
    assert(engine::encode_rec(a, 0xffff) =~= seq!['Y', 'Y', 'Y', 'Y']);
    assert(0xfffffnat / 16 == 0xffff && 0xfffffnat % 16 == 15);
    assert(engine::encode_rec(a, 0xfffff) =~= seq!['Y', 'Y', 'Y', 'Y', 'Y']);
    assert(0xffffffnat / 16 == 0xfffff && 0xffffffnat % 16 == 15);
    assert(engine::encode_rec(a, 0xffffff) =~= seq!['Y', 'Y', 'Y', 'Y', 'Y', 'Y']);
    assert(0xfffffffnat / 16 == 0xffffff && 0xfffffffnat % 16 == 15);
    assert(engine::encode_rec(a, 0xfffffff) =~= seq!['Y', 'Y', 'Y', 'Y', 'Y', 'Y', 'Y']);
    assert(0xffffffffnat / 16 == 0xfffffff && 0xffffffffnat % 16 == 15);
    assert(engine::encode_rec(a, 0xffffffff) =~= seq!['Y', 'Y', 'Y', 'Y', 'Y', 'Y', 'Y', 'Y']);
    assert(engine::encode(a, u32::MAX as nat) =~= english16_sentinel());
    reveal(vstd::arithmetic::power::pow);
    assert(vstd::arithmetic::power::pow(16, 0) == 1);
    assert(vstd::arithmetic::power::pow(16, 1) == 16 * vstd::arithmetic::power::pow(16, 0));
    assert(vstd::arithmetic::power::pow(16, 2) == 16 * vstd::arithmetic::power::pow(16, 1));
    assert(vstd::arithmetic::power::pow(16, 3) == 16 * vstd::arithmetic::power::pow(16, 2));
    assert(vstd::arithmetic::power::pow(16, 4) == 16 * vstd::arithmetic::power::pow(16, 3));
    assert(vstd::arithmetic::power::pow(16, 5) == 16 * vstd::arithmetic::power::pow(16, 4));
    assert(vstd::arithmetic::power::pow(16, 6) == 16 * vstd::arithmetic::power::pow(16, 5));
    assert(vstd::arithmetic::power::pow(16, 7) == 16 * vstd::arithmetic::power::pow(16, 6));
    assert(vstd::arithmetic::power::pow(16, 8) == 16 * vstd::arithmetic::power::pow(16, 7));
}

/// The guard of `from_english16` is sound: no accepted string denotes
/// more than `u32::MAX`. Length alone decides here, since sixteen to the
/// eighth power covers the whole 32-bit range.
pub proof fn lemma_english16_guard()
    ensures
        engine::guard_sound(english16_alphabet(), english16_sentinel(), u32::MAX as nat),
{
    lemma_english16_alphabet();
    lemma_english16_sentinel();
    engine::lemma_guard_sound_full_width(english16_alphabet(), u32::MAX as nat);
}

/// The English16 alphabet as a string slice, for the engine.
fn alphabet() -> (r: &'static str)
    ensures
        r@ == english16_alphabet(),
        r.is_ascii(),
{
    let r = "012C4FH789KLMRXY";
    proof {
        reveal_strlit("012C4FH789KLMRXY");
        assert(r@ =~= english16_alphabet());
        assert forall|i: int| 0 <= i < r@.len() implies '\0' <= #[trigger] r@[i] <= '\u{7f}' by {
            assert(r@[i] == english16_glyph(i));
        }
    }
    r
}

/// What `to_english16` returns: the canonical English16 encoding of `n`.
pub open spec fn spec_to_english16(n: nat) -> Seq<char> {
    engine::encode(english16_alphabet(), n)
}

/// What `from_english16` returns: the denoted integer, or failure when
/// the input is length-dominant-greater than the sentinel or contains a
/// character outside the alphabet.
pub open spec fn spec_from_english16(s: Seq<char>) -> Option<nat> {
    engine::decode(english16_alphabet(), english16_sentinel(), s)
}

/// Encode `n` in the English16 alphabet. Zero encodes as `"0"`; every
/// other value gets its shortest representation, without leading zeros.
///
/// This can replace the usual `0-9A-F` hexadecimal digits: the encoding
/// has the same shape, digit for digit.
pub fn to_english16(n: u32) -> (r: String)
    ensures
        r@ == spec_to_english16(n as nat),
{
    proof {
        lemma_english16_alphabet();
    }
    engine::encode_engine(alphabet(), n as u64)
}

/// Decode an English16 string to a 32-bit integer. Fails exactly when the
/// input is length-dominant-greater than `"YYYYYYYY"` (the encoding of
/// `u32::MAX`) or contains a character outside the alphabet; the empty
/// string decodes to zero.
pub fn from_english16(s: &str) -> (r: Option<u32>)
    ensures
        match r {
            Some(v) => spec_from_english16(s@) == Some(v as nat),
            None => spec_from_english16(s@) is None,
        },
{
    proof {
        lemma_english16_alphabet();
        lemma_english16_guard();
    }
    let sent = "YYYYYYYY";
    proof {
        reveal_strlit("YYYYYYYY");
        assert(sent@ =~= english16_sentinel());
    }
    match engine::decode_engine(alphabet(), sent, 0xffff_ffff, s) {
        Some(v) => Some(v as u32),
        None => None,
    }
}

/// Round trip: decoding the encoding of any 32-bit integer recovers it.
pub proof fn lemma_english16_round_trip(n: u32)
    ensures
        spec_from_english16(spec_to_english16(n as nat)) == Some(n as nat),
{
    lemma_english16_alphabet();
    lemma_english16_sentinel();
    let a = english16_alphabet();
    let s = spec_to_english16(n as nat);
    let sent = english16_sentinel();
    engine::lemma_encode_props(a, n as nat);
    engine::lemma_encode_props(a, u32::MAX as nat);
    engine::lemma_encode_len_le(a, n as nat, u32::MAX as nat);
    if s.len() == sent.len() {
        assert forall|i: int| 0 <= i < s.len() implies s[i] <= #[trigger] sent[i] by {
            assert(a.contains(s[i]));
            let d = choose|d: int| 0 <= d < a.len() && a[d] == s[i];
            assert(a[d] <= 'Y');
            assert(sent[i] == 'Y');
        }
        engine::lemma_pointwise_le_not_lex_greater(s, sent);
    }
    assert(!crate::spec_greater(s, sent));
}

/// Alphabet closure: every character of an encoding is an alphabet glyph.
pub proof fn lemma_english16_closure(n: u32)
    ensures
        engine::all_glyphs(english16_alphabet(), spec_to_english16(n as nat)),
{
    lemma_english16_alphabet();
    engine::lemma_encode_props(english16_alphabet(), n as nat);
}

/// No leading zero: the encoding of a positive integer never starts with
/// the digit-0 glyph.
pub proof fn lemma_english16_no_leading_zero(n: u32)
    requires
        n > 0,
    ensures
        spec_to_english16(n as nat)[0] != '0',
{
    lemma_english16_alphabet();
    engine::lemma_encode_props(english16_alphabet(), n as nat);
}

/// Foreign glyphs are rejected: a string with any character outside the
/// alphabet fails to decode.
pub proof fn lemma_english16_rejects_foreign(s: Seq<char>)
    requires
        exists|i: int| 0 <= i < s.len() && !english16_alphabet().contains(s[i]),
    ensures
        spec_from_english16(s) is None,
{
    let i = choose|i: int| 0 <= i < s.len() && !english16_alphabet().contains(s[i]);
    assert(!engine::all_glyphs(english16_alphabet(), s));
}

/// Overflow is rejected: a string length-dominant-greater than the
/// sentinel fails to decode.
pub proof fn lemma_english16_rejects_overflow(s: Seq<char>)
    requires
        crate::spec_greater(s, english16_sentinel()),
    ensures
        spec_from_english16(s) is None,
{
}

} // verus!
