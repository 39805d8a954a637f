//! Base-62 codec over `[0-9A-Za-z]` for 64-bit unsigned integers.

use vstd::prelude::*;

use crate::engine;
use crate::hashing;

verus! {

/// The glyph for base-62 digit `d`: the decimal digits, the upper-case
/// letters and the lower-case letters, in ASCII order.
pub open spec fn base62_glyph(d: int) -> char {
    if d == 0 { '0' } else if d == 1 { '1' } else if d == 2 { '2' } else if d == 3 { '3' }
    else if d == 4 { '4' } else if d == 5 { '5' } else if d == 6 { '6' } else if d == 7 { '7' }
    else if d == 8 { '8' } else if d == 9 { '9' } else if d == 10 { 'A' } else if d == 11 { 'B' }
    else if d == 12 { 'C' } else if d == 13 { 'D' } else if d == 14 { 'E' } else if d == 15 { 'F' }
    else if d == 16 { 'G' } else if d == 17 { 'H' } else if d == 18 { 'I' } else if d == 19 { 'J' }
    else if d == 20 { 'K' } else if d == 21 { 'L' } else if d == 22 { 'M' } else if d == 23 { 'N' }
    else if d == 24 { 'O' } else if d == 25 { 'P' } else if d == 26 { 'Q' } else if d == 27 { 'R' }
    else if d == 28 { 'S' } else if d == 29 { 'T' } else if d == 30 { 'U' } else if d == 31 { 'V' }
    else if d == 32 { 'W' } else if d == 33 { 'X' } else if d == 34 { 'Y' } else if d == 35 { 'Z' }
    else if d == 36 { 'a' } else if d == 37 { 'b' } else if d == 38 { 'c' } else if d == 39 { 'd' }
    else if d == 40 { 'e' } else if d == 41 { 'f' } else if d == 42 { 'g' } else if d == 43 { 'h' }
    else if d == 44 { 'i' } else if d == 45 { 'j' } else if d == 46 { 'k' } else if d == 47 { 'l' }
    else if d == 48 { 'm' } else if d == 49 { 'n' } else if d == 50 { 'o' } else if d == 51 { 'p' }
    else if d == 52 { 'q' } else if d == 53 { 'r' } else if d == 54 { 's' } else if d == 55 { 't' }
    else if d == 56 { 'u' } else if d == 57 { 'v' } else if d == 58 { 'w' } else if d == 59 { 'x' }
    else if d == 60 { 'y' } else { 'z' }
}

/// The base-62 alphabet as an ordered glyph sequence.
pub open spec fn base62_alphabet() -> Seq<char> {
    Seq::new(62, |d: int| base62_glyph(d))
}

/// The canonical base-62 encoding of `u64::MAX`, the largest value
/// `from_base62` accepts.
pub open spec fn base62_sentinel() -> Seq<char> {
    seq!['L', 'y', 'g', 'H', 'a', '1', '6', 'A', 'H', 'Y', 'F']
}

/// The base-62 alphabet is well formed and codepoint-sorted.
pub proof fn lemma_base62_alphabet()
    ensures
        engine::wf_alphabet(base62_alphabet()),
        engine::sorted_alphabet(base62_alphabet()),
{
    assert forall|k: int| 0 <= k < base62_alphabet().len() - 1 implies #[trigger] base62_alphabet()[k]
        < base62_alphabet()[k + 1] by {
        assert(base62_alphabet()[k] == base62_glyph(k));
        assert(base62_alphabet()[k + 1] == base62_glyph(k + 1));
    }
    assert forall|i: int, j: int|
        0 <= i < j < base62_alphabet().len() implies base62_alphabet()[i]
        < base62_alphabet()[j] by {
        engine::lemma_adjacent_sorted_chain(base62_alphabet(), i, j);
    }
}

/// The sentinel is the canonical encoding of `u64::MAX`.
pub proof fn lemma_base62_sentinel()
    ensures
        engine::encode(base62_alphabet(), u64::MAX as nat) == base62_sentinel(),
{
    let a = base62_alphabet();
    assert(a.len() == 62);
    assert(engine::encode_rec(a, 0) =~= Seq::<char>::empty());
    assert(21nat / 62 == 0 && 21nat % 62 == 21);
    assert(a[21] == 'L');
    assert(engine::encode_rec(a, 21) =~= seq!['L']);
    assert(1362nat / 62 == 21 && 1362nat % 62 == 60);
    assert(a[60] == 'y');
    assert(engine::encode_rec(a, 1362) =~= seq!['L', 'y']);
    assert(84486nat / 62 == 1362 && 84486nat % 62 == 42);
    assert(a[42] == 'g');
    assert(engine::encode_rec(a, 84486) =~= seq!['L', 'y', 'g']);
    assert(5238149nat / 62 == 84486 && 5238149nat % 62 == 17);
    assert(a[17] == 'H');
    assert(engine::encode_rec(a, 5238149) =~= seq!['L', 'y', 'g', 'H']);
    assert(324765274nat / 62 == 5238149 && 324765274nat % 62 == 36);
    assert(a[36] == 'a');
    assert(engine::encode_rec(a, 324765274) =~= seq!['L', 'y', 'g', 'H', 'a']);
    assert(20135446989nat / 62 == 324765274 && 20135446989nat % 62 == 1);
    assert(a[1] == '1');
    assert(engine::encode_rec(a, 20135446989) =~= seq!['L', 'y', 'g', 'H', 'a', '1']);
    assert(1248397713324nat / 62 == 20135446989 && 1248397713324nat % 62 == 6);
    assert(a[6] == '6');
    assert(engine::encode_rec(a, 1248397713324) =~= seq!['L', 'y', 'g', 'H', 'a', '1', '6']);
    assert(77400658226098nat / 62 == 1248397713324 && 77400658226098nat % 62 == 10);
    assert(a[10] == 'A');
    assert(engine::encode_rec(a, 77400658226098) =~= seq!['L', 'y', 'g', 'H', 'a', '1', '6', 'A']);
    assert(4798840810018093nat / 62 == 77400658226098 && 4798840810018093nat % 62 == 17);
    assert(engine::encode_rec(a, 4798840810018093) =~= seq!['L', 'y', 'g', 'H', 'a', '1', '6', 'A', 'H']);
    assert(297528130221121800nat / 62 == 4798840810018093 && 297528130221121800nat % 62 == 34);
    assert(a[34] == 'Y');
    assert(engine::encode_rec(a, 297528130221121800) =~= seq!['L', 'y', 'g', 'H', 'a', '1', '6', 'A', 'H', 'Y']);
    assert(18446744073709551615nat / 62 == 297528130221121800 && 18446744073709551615nat % 62 == 15);
    assert(a[15] == 'F');
    assert(engine::encode_rec(a, 18446744073709551615) =~= seq!['L', 'y', 'g', 'H', 'a', '1', '6', 'A', 'H', 'Y', 'F']);
    assert(engine::encode(a, u64::MAX as nat) =~= base62_sentinel());
}

/// The guard of `from_base62` is sound: no accepted string denotes more
/// than `u64::MAX`.
pub proof fn lemma_base62_guard()
    ensures
        engine::guard_sound(base62_alphabet(), base62_sentinel(), u64::MAX as nat),
{
    lemma_base62_alphabet();
    lemma_base62_sentinel();
    engine::lemma_guard_sound_sorted(base62_alphabet(), u64::MAX as nat);
}

/// The base-62 alphabet as a string slice, for the engine.
fn alphabet() -> (r: &'static str)
    ensures
        r@ == base62_alphabet(),
        r.is_ascii(),
{
    let r = "0123456789ABCDEFGHIJKLMNOPQRSTUVWXYZabcdefghijklmnopqrstuvwxyz";
    proof {
        reveal_strlit("0123456789ABCDEFGHIJKLMNOPQRSTUVWXYZabcdefghijklmnopqrstuvwxyz");
        assert(r@ =~= base62_alphabet());
        assert forall|i: int| 0 <= i < r@.len() implies '\0' <= #[trigger] r@[i] <= '\u{7f}' by {
            assert(r@[i] == base62_glyph(i));
        }
    }
    r
}

/// What `to_base62` returns: the canonical base-62 encoding of `n`.
pub open spec fn spec_to_base62(n: nat) -> Seq<char> {
    engine::encode(base62_alphabet(), n)
}

/// What `from_base62` returns: the denoted integer, or failure when the
/// input is length-dominant-greater than the sentinel or contains a
/// character outside the alphabet.
pub open spec fn spec_from_base62(s: Seq<char>) -> Option<nat> {
    engine::decode(base62_alphabet(), base62_sentinel(), s)
}

/// Encode `n` in base 62. Zero encodes as `"0"`; every other value gets
/// its shortest representation, without leading zeros.
pub fn to_base62(n: u64) -> (r: String)
    ensures
        r@ == spec_to_base62(n as nat),
{
    proof {
        lemma_base62_alphabet();
    }
    engine::encode_engine(alphabet(), n)
}

/// Decode a base-62 string to a 64-bit integer. Fails exactly when the
/// input is length-dominant-greater than `"LygHa16AHYF"` (the encoding of
/// `u64::MAX`) or contains a character outside `[0-9A-Za-z]`; the empty
/// string decodes to zero.
pub fn from_base62(s: &str) -> (r: Option<u64>)
    ensures
        match r {
            Some(v) => spec_from_base62(s@) == Some(v as nat),
            None => spec_from_base62(s@) is None,
        },
{
    proof {
        lemma_base62_alphabet();
        lemma_base62_guard();
    }
    let sent = "LygHa16AHYF";
    proof {
        reveal_strlit("LygHa16AHYF");
        assert(sent@ =~= base62_sentinel());
    }
    engine::decode_engine(alphabet(), sent, u64::MAX, s)
}

/// Derive a base-62 identifier from a string: SHA-256 its UTF-8 bytes,
/// read the first eight digest bytes as a little-endian 64-bit integer,
/// and encode that integer. The result depends only on the input string.
pub fn hash_string_to_base62(s: &str) -> (r: String)
    ensures
        r@ == spec_to_base62(hashing::le64_of(hashing::sha256_of(s@))),
{
    let digest = hashing::sha256_digest(s);
    let n = hashing::u64_from_le_first8(&digest);
    to_base62(n)
}

/// Round trip: decoding the encoding of any 64-bit integer recovers it.
pub proof fn lemma_base62_round_trip(n: u64)
    ensures
        spec_from_base62(spec_to_base62(n as nat)) == Some(n as nat),
{
    lemma_base62_alphabet();
    lemma_base62_sentinel();
    engine::lemma_round_trip_sorted(base62_alphabet(), u64::MAX as nat, n as nat);
}

/// Alphabet closure: every character of an encoding is an alphabet glyph.
pub proof fn lemma_base62_closure(n: u64)
    ensures
        engine::all_glyphs(base62_alphabet(), spec_to_base62(n as nat)),
{
    lemma_base62_alphabet();
    engine::lemma_encode_props(base62_alphabet(), n as nat);
}

/// No leading zero: the encoding of a positive integer never starts with
/// the digit-0 glyph.
pub proof fn lemma_base62_no_leading_zero(n: u64)
    requires
        n > 0,
    ensures
        spec_to_base62(n as nat)[0] != '0',
{
    lemma_base62_alphabet();
    engine::lemma_encode_props(base62_alphabet(), n as nat);
}

/// Foreign glyphs are rejected: a string with any character outside the
/// alphabet fails to decode.
pub proof fn lemma_base62_rejects_foreign(s: Seq<char>)
    requires
        exists|i: int| 0 <= i < s.len() && !base62_alphabet().contains(s[i]),
    ensures
        spec_from_base62(s) is None,
{
    let i = choose|i: int| 0 <= i < s.len() && !base62_alphabet().contains(s[i]);
    assert(!engine::all_glyphs(base62_alphabet(), s));
}

/// Overflow is rejected: a string length-dominant-greater than the
/// sentinel fails to decode.
pub proof fn lemma_base62_rejects_overflow(s: Seq<char>)
    requires
        crate::spec_greater(s, base62_sentinel()),
    ensures
        spec_from_base62(s) is None,
{
}

} // verus!
