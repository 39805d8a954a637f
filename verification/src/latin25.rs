//! A symbol set with twenty-five visually distinct characters, for 64-bit
//! unsigned integers.
//!
//! The glyphs were chosen to maximise contrast in shape: of each visually
//! confusable pair (`'2'`/`'Z'`, `'O'`/`'Q'`/`'0'`, `'5'`/`'S'`, and so on)
//! only one is present. These are not protected against similar
//! pronunciations; identifiers to be read aloud belong in
//! [english16](crate::english16) instead.

use vstd::prelude::*;

use crate::engine;
use crate::hashing;

verus! {

/// The glyph for Latin25 digit `d`: the alphabet runs
/// `0 1 3 4 7 8 9 A C E G H J K L M N P S T V W X Y Z`, in ASCII order.
pub open spec fn latin25_glyph(d: int) -> char {
    if d == 0 { '0' } else if d == 1 { '1' } else if d == 2 { '3' } else if d == 3 { '4' }
    else if d == 4 { '7' } else if d == 5 { '8' } else if d == 6 { '9' } else if d == 7 { 'A' }
    else if d == 8 { 'C' } else if d == 9 { 'E' } else if d == 10 { 'G' } else if d == 11 { 'H' }
    else if d == 12 { 'J' } else if d == 13 { 'K' } else if d == 14 { 'L' } else if d == 15 { 'M' }
    else if d == 16 { 'N' } else if d == 17 { 'P' } else if d == 18 { 'S' } else if d == 19 { 'T' }
    else if d == 20 { 'V' } else if d == 21 { 'W' } else if d == 22 { 'X' } else if d == 23 { 'Y' }
    else { 'Z' }
}

/// The Latin25 alphabet as an ordered glyph sequence.
pub open spec fn latin25_alphabet() -> Seq<char> {
    Seq::new(25, |d: int| latin25_glyph(d))
}

/// The canonical Latin25 encoding of `u64::MAX`, the largest value
/// `from_latin25` accepts.
pub open spec fn latin25_sentinel() -> Seq<char> {
    seq!['J', 'E', 'J', '4', '4', '9', 'Z', '0', 'X', 'W', 'H', 'A', 'L', 'M']
}

/// The Latin25 alphabet is well formed and codepoint-sorted.
pub proof fn lemma_latin25_alphabet()
    ensures
        engine::wf_alphabet(latin25_alphabet()),
        engine::sorted_alphabet(latin25_alphabet()),
{
    assert forall|k: int|
        0 <= k < latin25_alphabet().len() - 1 implies #[trigger] latin25_alphabet()[k]
        < latin25_alphabet()[k + 1] by {
        assert(latin25_alphabet()[k] == latin25_glyph(k));
        assert(latin25_alphabet()[k + 1] == latin25_glyph(k + 1));
    }
    assert forall|i: int, j: int|
        0 <= i < j < latin25_alphabet().len() implies latin25_alphabet()[i]
        < latin25_alphabet()[j] by {
        engine::lemma_adjacent_sorted_chain(latin25_alphabet(), i, j);
    }
}

/// The sentinel is the canonical encoding of `u64::MAX`.
pub proof fn lemma_latin25_sentinel()
    ensures
        engine::encode(latin25_alphabet(), u64::MAX as nat) == latin25_sentinel(),
{
    let a = latin25_alphabet();
    assert(a.len() == 25);
    assert(engine::encode_rec(a, 0) =~= Seq::<char>::empty());
    assert(12nat / 25 == 0 && 12nat % 25 == 12);
    assert(a[12] == 'J');
    assert(engine::encode_rec(a, 12) =~= seq!['J']);
    assert(309nat / 25 == 12 && 309nat % 25 == 9);
    assert(a[9] == 'E');
    assert(engine::encode_rec(a, 309) =~= seq!['J', 'E']);
    assert(7737nat / 25 == 309 && 7737nat % 25 == 12);
    assert(engine::encode_rec(a, 7737) =~= seq!['J', 'E', 'J']);
    assert(193428nat / 25 == 7737 && 193428nat % 25 == 3);
    assert(a[3] == '4');
    assert(engine::encode_rec(a, 193428) =~= seq!['J', 'E', 'J', '4']);
    assert(4835703nat / 25 == 193428 && 4835703nat % 25 == 3);
    assert(engine::encode_rec(a, 4835703) =~= seq!['J', 'E', 'J', '4', '4']);
    assert(120892581nat / 25 == 4835703 && 120892581nat % 25 == 6);
    assert(a[6] == '9');
    assert(engine::encode_rec(a, 120892581) =~= seq!['J', 'E', 'J', '4', '4', '9']);
    assert(3022314549nat / 25 == 120892581 && 3022314549nat % 25 == 24);
    assert(a[24] == 'Z');
    assert(engine::encode_rec(a, 3022314549) =~= seq!['J', 'E', 'J', '4', '4', '9', 'Z']);
    assert(75557863725nat / 25 == 3022314549 && 75557863725nat % 25 == 0);
    assert(a[0] == '0');
    assert(engine::encode_rec(a, 75557863725) =~= seq!['J', 'E', 'J', '4', '4', '9', 'Z', '0']);
    assert(1888946593147nat / 25 == 75557863725 && 1888946593147nat % 25 == 22);
    assert(a[22] == 'X');
    assert(engine::encode_rec(a, 1888946593147) =~= seq![
        'J', 'E', 'J', '4', '4', '9', 'Z', '0', 'X',
    ]);
    assert(47223664828696nat / 25 == 1888946593147 && 47223664828696nat % 25 == 21);
    assert(a[21] == 'W');
    assert(engine::encode_rec(a, 47223664828696) =~= seq![
        'J', 'E', 'J', '4', '4', '9', 'Z', '0', 'X', 'W',
    ]);
    assert(1180591620717411nat / 25 == 47223664828696 && 1180591620717411nat % 25 == 11);
    assert(a[11] == 'H');
    assert(engine::encode_rec(a, 1180591620717411) =~= seq![
        'J', 'E', 'J', '4', '4', '9', 'Z', '0', 'X', 'W', 'H',
    ]);
    assert(29514790517935282nat / 25 == 1180591620717411 && 29514790517935282nat % 25 == 7);
    assert(a[7] == 'A');
    assert(engine::encode_rec(a, 29514790517935282) =~= seq![
        'J', 'E', 'J', '4', '4', '9', 'Z', '0', 'X', 'W', 'H', 'A',
    ]);
    assert(737869762948382064nat / 25 == 29514790517935282 && 737869762948382064nat % 25 == 14);
    assert(a[14] == 'L');
    assert(engine::encode_rec(a, 737869762948382064) =~= seq![
        'J', 'E', 'J', '4', '4', '9', 'Z', '0', 'X', 'W', 'H', 'A', 'L',
    ]);
    assert(18446744073709551615nat / 25 == 737869762948382064 && 18446744073709551615nat % 25
        == 15);
    assert(a[15] == 'M');
    assert(engine::encode_rec(a, 18446744073709551615) =~= seq![
        'J', 'E', 'J', '4', '4', '9', 'Z', '0', 'X', 'W', 'H', 'A', 'L', 'M',
    ]);
    assert(engine::encode(a, u64::MAX as nat) =~= latin25_sentinel());
}

/// The guard of `from_latin25` is sound: no accepted string denotes more
/// than `u64::MAX`.
pub proof fn lemma_latin25_guard()
    ensures
        engine::guard_sound(latin25_alphabet(), latin25_sentinel(), u64::MAX as nat),
{
    lemma_latin25_alphabet();
    lemma_latin25_sentinel();
    engine::lemma_guard_sound_sorted(latin25_alphabet(), u64::MAX as nat);
}

/// The Latin25 alphabet as a string slice, for the engine.
fn alphabet() -> (r: &'static str)
    ensures
        r@ == latin25_alphabet(),
        r.is_ascii(),
{
    let r = "0134789ACEGHJKLMNPSTVWXYZ";
    proof {
        reveal_strlit("0134789ACEGHJKLMNPSTVWXYZ");
        assert(r@ =~= latin25_alphabet());
        assert forall|i: int| 0 <= i < r@.len() implies '\0' <= #[trigger] r@[i] <= '\u{7f}' by {
            assert(r@[i] == latin25_glyph(i));
        }
    }
    r
}

/// What `to_latin25` returns: the canonical Latin25 encoding of `n`.
pub open spec fn spec_to_latin25(n: nat) -> Seq<char> {
    engine::encode(latin25_alphabet(), n)
}

/// What `from_latin25` returns: the denoted integer, or failure when the
/// input is length-dominant-greater than the sentinel or contains a
/// character outside the alphabet.
pub open spec fn spec_from_latin25(s: Seq<char>) -> Option<nat> {
    engine::decode(latin25_alphabet(), latin25_sentinel(), s)
}

/// Encode `n` in the Latin25 alphabet. Zero encodes as `"0"`; every other
/// value gets its shortest representation, without leading zeros.
///
/// This is useful for primary keys and object identifiers that have to be
/// scanned for in log output.
pub fn to_latin25(n: u64) -> (r: String)
    ensures
        r@ == spec_to_latin25(n as nat),
{
    proof {
        lemma_latin25_alphabet();
    }
    engine::encode_engine(alphabet(), n)
}

/// Decode a Latin25 string to a 64-bit integer. Fails exactly when the
/// input is length-dominant-greater than `"JEJ449Z0XWHALM"` (the encoding
/// of `u64::MAX`) or contains a character outside the alphabet; the empty
/// string decodes to zero.
pub fn from_latin25(s: &str) -> (r: Option<u64>)
    ensures
        match r {
            Some(v) => spec_from_latin25(s@) == Some(v as nat),
            None => spec_from_latin25(s@) is None,
        },
{
    proof {
        lemma_latin25_alphabet();
        lemma_latin25_guard();
    }
    let sent = "JEJ449Z0XWHALM";
    proof {
        reveal_strlit("JEJ449Z0XWHALM");
        assert(sent@ =~= latin25_sentinel());
    }
    engine::decode_engine(alphabet(), sent, u64::MAX, s)
}

/// Derive a Latin25 identifier from a string: SHA-256 its UTF-8 bytes,
/// read the first eight digest bytes as a little-endian 64-bit integer,
/// and encode that integer. The result depends only on the input string.
pub fn hash_string_to_latin25(s: &str) -> (r: String)
    ensures
        r@ == spec_to_latin25(hashing::le64_of(hashing::sha256_of(s@))),
{
    let digest = hashing::sha256_digest(s);
    let n = hashing::u64_from_le_first8(&digest);
    to_latin25(n)
}

/// Round trip: decoding the encoding of any 64-bit integer recovers it.
pub proof fn lemma_latin25_round_trip(n: u64)
    ensures
        spec_from_latin25(spec_to_latin25(n as nat)) == Some(n as nat),
{
    lemma_latin25_alphabet();
    lemma_latin25_sentinel();
    engine::lemma_round_trip_sorted(latin25_alphabet(), u64::MAX as nat, n as nat);
}

/// Alphabet closure: every character of an encoding is an alphabet glyph.
pub proof fn lemma_latin25_closure(n: u64)
    ensures
        engine::all_glyphs(latin25_alphabet(), spec_to_latin25(n as nat)),
{
    lemma_latin25_alphabet();
    engine::lemma_encode_props(latin25_alphabet(), n as nat);
}

/// No leading zero: the encoding of a positive integer never starts with
/// the digit-0 glyph.
pub proof fn lemma_latin25_no_leading_zero(n: u64)
    requires
        n > 0,
    ensures
        spec_to_latin25(n as nat)[0] != '0',
{
    lemma_latin25_alphabet();
    engine::lemma_encode_props(latin25_alphabet(), n as nat);
}

/// Foreign glyphs are rejected: a string with any character outside the
/// alphabet fails to decode.
pub proof fn lemma_latin25_rejects_foreign(s: Seq<char>)
    requires
        exists|i: int| 0 <= i < s.len() && !latin25_alphabet().contains(s[i]),
    ensures
        spec_from_latin25(s) is None,
{
    let i = choose|i: int| 0 <= i < s.len() && !latin25_alphabet().contains(s[i]);
    assert(!engine::all_glyphs(latin25_alphabet(), s));
}

/// Overflow is rejected: a string length-dominant-greater than the
/// sentinel fails to decode.
pub proof fn lemma_latin25_rejects_overflow(s: Seq<char>)
    requires
        crate::spec_greater(s, latin25_sentinel()),
    ensures
        spec_from_latin25(s) is None,
{
}

} // verus!
