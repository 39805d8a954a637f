//! Generic positional-notation engine.
//!
//! An alphabet is an ordered sequence of distinct glyphs; the index of a
//! glyph is its digit value. One encoder and one decoder serve every codec
//! in the crate, parameterised by the alphabet, the sentinel (the canonical
//! encoding of the largest representable integer, used to bounds-check
//! candidate decodings), and that largest integer itself.

use vstd::arithmetic::div_mod::{
    lemma_div_is_strictly_smaller, lemma_fundamental_div_mod, lemma_remainder_lower,
    lemma_remainder_upper,
};
use vstd::arithmetic::mul::{
    lemma_mul_inequality, lemma_mul_is_associative, lemma_mul_is_commutative,
    lemma_mul_is_distributive_add,
};
use vstd::arithmetic::power::{lemma_pow_increases, lemma_pow_positive, pow};
use vstd::prelude::*;

verus! {

/// A well-formed alphabet: at least two glyphs, all distinct.
pub open spec fn wf_alphabet(alpha: Seq<char>) -> bool {
    2 <= alpha.len() && (forall|i: int, j: int|
        0 <= i < j < alpha.len() ==> alpha[i] != alpha[j])
}

/// An alphabet whose glyphs appear in strictly ascending codepoint order,
/// so that lexicographic order on equal-length encodings agrees with
/// numeric order.
pub open spec fn sorted_alphabet(alpha: Seq<char>) -> bool {
    forall|i: int, j: int| 0 <= i < j < alpha.len() ==> alpha[i] < alpha[j]
}

/// Every character of `s` is a glyph of the alphabet.
pub open spec fn all_glyphs(alpha: Seq<char>, s: Seq<char>) -> bool {
    forall|i: int| 0 <= i < s.len() ==> alpha.contains(#[trigger] s[i])
}

/// The digit value of a glyph: its position in the alphabet. Meaningful
/// only when the glyph is in the alphabet.
pub open spec fn digit_of(alpha: Seq<char>, c: char) -> nat {
    alpha.index_of(c) as nat
}

/// The positional digits of `n`, most significant first, mapped to glyphs;
/// empty for zero.
pub open spec fn encode_rec(alpha: Seq<char>, n: nat) -> Seq<char>
    decreases n,
    via encode_rec_decreases
{
    if n == 0 || alpha.len() < 2 {
        Seq::empty()
    } else {
        encode_rec(alpha, n / alpha.len()) + seq![alpha[(n % alpha.len()) as int]]
    }
}

#[via_fn]
proof fn encode_rec_decreases(alpha: Seq<char>, n: nat) {
    if n != 0 && alpha.len() >= 2 {
        lemma_div_is_strictly_smaller(n as int, alpha.len() as int);
    }
}

/// The canonical encoding of `n`: the single glyph for digit zero when
/// `n == 0`, and the positional representation without leading zero glyphs
/// otherwise.
pub open spec fn encode(alpha: Seq<char>, n: nat) -> Seq<char> {
    if n == 0 {
        seq![alpha[0]]
    } else {
        encode_rec(alpha, n)
    }
}

/// The integer a glyph sequence denotes: a left fold of
/// `acc * base + digit`. Meaningful only when every character is a glyph.
pub open spec fn value_of(alpha: Seq<char>, s: Seq<char>) -> nat
    decreases s.len(),
{
    if s.len() == 0 {
        0
    } else {
        value_of(alpha, s.drop_last()) * alpha.len() + digit_of(alpha, s.last())
    }
}

/// What decoding yields: failure when the input is length-dominant-greater
/// than the sentinel or contains a character outside the alphabet, and the
/// denoted integer otherwise. The empty string decodes to zero.
pub open spec fn decode(alpha: Seq<char>, sentinel: Seq<char>, s: Seq<char>) -> Option<nat> {
    if crate::spec_greater(s, sentinel) || !all_glyphs(alpha, s) {
        None
    } else {
        Some(value_of(alpha, s))
    }
}

/// The sentinel guard is sound: every all-glyph string it lets through
/// denotes a value of at most `max`.
pub open spec fn guard_sound(alpha: Seq<char>, sentinel: Seq<char>, max: nat) -> bool {
    forall|t: Seq<char>|
        all_glyphs(alpha, t) && !crate::spec_greater(t, sentinel) ==> #[trigger] value_of(
            alpha,
            t,
        ) <= max
}

/// A glyph's digit is a valid index, and indexes back to the glyph.
pub proof fn lemma_digit_of(alpha: Seq<char>, c: char)
    requires
        alpha.contains(c),
    ensures
        digit_of(alpha, c) < alpha.len(),
        alpha[digit_of(alpha, c) as int] == c,
{
    assert(0 <= alpha.index_of(c) < alpha.len() && alpha[alpha.index_of(c)] == c);
}

/// In a distinct alphabet, the digit of the glyph at position `d` is `d`.
pub proof fn lemma_glyph_digit(alpha: Seq<char>, d: nat)
    requires
        wf_alphabet(alpha),
        d < alpha.len(),
    ensures
        alpha.contains(alpha[d as int]),
        digit_of(alpha, alpha[d as int]) == d,
{
    assert(alpha.contains(alpha[d as int]));
    lemma_digit_of(alpha, alpha[d as int]);
    let e = digit_of(alpha, alpha[d as int]);
    if e < d {
        assert(alpha[e as int] != alpha[d as int]);
    } else if d < e {
        assert(alpha[d as int] != alpha[e as int]);
    }
}

/// Appending one glyph multiplies the value by the base and adds the digit.
pub proof fn lemma_value_snoc(alpha: Seq<char>, s: Seq<char>, c: char)
    ensures
        value_of(alpha, s + seq![c]) == value_of(alpha, s) * alpha.len() + digit_of(alpha, c),
{
    let t = s + seq![c];
    assert(t.drop_last() =~= s);
    assert(t.last() == c);
}

/// The positional representation uses alphabet glyphs only, is non-empty
/// for a positive number, and never starts with the glyph for digit zero.
pub proof fn lemma_encode_rec_glyphs(alpha: Seq<char>, n: nat)
    requires
        wf_alphabet(alpha),
    ensures
        all_glyphs(alpha, encode_rec(alpha, n)),
        n >= 1 ==> encode_rec(alpha, n).len() >= 1,
        n >= 1 ==> 1 <= digit_of(alpha, encode_rec(alpha, n)[0]) < alpha.len(),
    decreases n,
{
    let b = alpha.len();
    if n != 0 {
        let s = encode_rec(alpha, n);
        let head = encode_rec(alpha, n / b);
        lemma_div_is_strictly_smaller(n as int, b as int);
        lemma_encode_rec_glyphs(alpha, n / b);
        let d = n % b;
        lemma_remainder_lower(n as int, b as int);
        lemma_remainder_upper(n as int, b as int);
        lemma_glyph_digit(alpha, d);
        assert forall|i: int| 0 <= i < s.len() implies alpha.contains(s[i]) by {
            if i < head.len() {
                assert(s[i] == head[i]);
            } else {
                assert(s[i] == alpha[d as int]);
            }
        }
        if n < b {
            lemma_fundamental_div_mod(n as int, b as int);
            assert(n / b == 0) by {
                vstd::arithmetic::div_mod::lemma_basic_div(n as int, b as int);
            }
            assert(s[0] == alpha[d as int]);
            assert(d == n);
        } else {
            assert(n / b >= 1) by {
                vstd::arithmetic::div_mod::lemma_div_non_zero(n as int, b as int);
            }
            assert(s[0] == head[0]);
        }
    }
}

/// The positional representation denotes the number it was built from.
pub proof fn lemma_encode_rec_value(alpha: Seq<char>, n: nat)
    requires
        wf_alphabet(alpha),
    ensures
        value_of(alpha, encode_rec(alpha, n)) == n,
    decreases n,
{
    let b = alpha.len();
    if n != 0 {
        lemma_div_is_strictly_smaller(n as int, b as int);
        lemma_encode_rec_value(alpha, n / b);
        let d = n % b;
        lemma_remainder_lower(n as int, b as int);
        lemma_remainder_upper(n as int, b as int);
        lemma_glyph_digit(alpha, d);
        lemma_value_snoc(alpha, encode_rec(alpha, n / b), alpha[d as int]);
        lemma_fundamental_div_mod(n as int, b as int);
    }
}

/// A positive number with an `L`-glyph representation lies between
/// `base^(L-1)` and `base^L`.
pub proof fn lemma_encode_rec_len_bounds(alpha: Seq<char>, n: nat)
    requires
        wf_alphabet(alpha),
        n >= 1,
    ensures
        pow(alpha.len() as int, (encode_rec(alpha, n).len() - 1) as nat) <= n < pow(
            alpha.len() as int,
            encode_rec(alpha, n).len() as nat,
        ),
    decreases n,
{
    let b = alpha.len() as int;
    let s = encode_rec(alpha, n);
    lemma_encode_rec_glyphs(alpha, n);
    if n < alpha.len() {
        assert(n / alpha.len() == 0) by {
            vstd::arithmetic::div_mod::lemma_basic_div(n as int, b);
        }
        assert(encode_rec(alpha, 0).len() == 0);
        assert(s.len() == 1);
        assert(pow(b, 0) == 1) by {
            vstd::arithmetic::power::lemma_pow0(b);
        }
        assert(pow(b, 1) == b) by {
            vstd::arithmetic::power::lemma_pow1(b);
        }
    } else {
        let q = n / alpha.len();
        assert(q >= 1) by {
            vstd::arithmetic::div_mod::lemma_div_non_zero(n as int, b);
        }
        lemma_div_is_strictly_smaller(n as int, b);
        lemma_encode_rec_len_bounds(alpha, q);
        let head = encode_rec(alpha, q);
        assert(s.len() == head.len() + 1);
        let lh = head.len() as nat;
        // lower bound: base^lh = base^(lh-1) * base <= q * base <= n
        assert(pow(b, lh) == pow(b, (lh - 1) as nat) * b) by {
            lemma_pow_unfold_last(b, lh);
        }
        lemma_fundamental_div_mod(n as int, b);
        lemma_remainder_lower(n as int, b);
        lemma_remainder_upper(n as int, b);
        assert(pow(b, (lh - 1) as nat) * b <= q * b) by {
            lemma_mul_inequality(pow(b, (lh - 1) as nat), q as int, b);
        }
        assert(q * b <= n);
        // upper bound: q < base^lh, so n = q*base + r <= (base^lh - 1)*base + base - 1
        assert(q * b <= (pow(b, lh) - 1) * b) by {
            lemma_mul_inequality(q as int, pow(b, lh) - 1, b);
        }
        assert((pow(b, lh) - 1) * b == pow(b, lh) * b - b) by {
            lemma_mul_is_commutative(pow(b, lh) - 1, b);
            lemma_mul_is_distributive_add(b, pow(b, lh), -1);
            lemma_mul_is_commutative(b, pow(b, lh));
        }
        assert(pow(b, lh) * b == pow(b, (lh + 1) as nat)) by {
            lemma_pow_unfold_last(b, (lh + 1) as nat);
        }
        assert(n < pow(b, (lh + 1) as nat));
    }
}

/// `base^e == base^(e-1) * base` for positive `e`.
proof fn lemma_pow_unfold_last(b: int, e: nat)
    requires
        e >= 1,
    ensures
        pow(b, e) == pow(b, (e - 1) as nat) * b,
{
    vstd::arithmetic::power::lemma_pow_adds(b, (e - 1) as nat, 1);
    vstd::arithmetic::power::lemma_pow1(b);
}

/// Any string of `L` alphabet glyphs denotes a value below `base^L`.
pub proof fn lemma_value_lt_pow(alpha: Seq<char>, s: Seq<char>)
    requires
        wf_alphabet(alpha),
        all_glyphs(alpha, s),
    ensures
        value_of(alpha, s) < pow(alpha.len() as int, s.len() as nat),
    decreases s.len(),
{
    let b = alpha.len() as int;
    if s.len() == 0 {
        vstd::arithmetic::power::lemma_pow0(b);
    } else {
        let sdl = s.drop_last();
        assert(all_glyphs(alpha, sdl)) by {
            assert(forall|i: int| 0 <= i < sdl.len() ==> sdl[i] == s[i]);
        }
        lemma_value_lt_pow(alpha, sdl);
        assert(alpha.contains(s.last()));
        lemma_digit_of(alpha, s.last());
        let v = value_of(alpha, sdl) as int;
        let p = pow(b, sdl.len() as nat);
        assert(v * b <= (p - 1) * b) by {
            lemma_mul_inequality(v, p - 1, b);
        }
        assert((p - 1) * b == p * b - b) by {
            lemma_mul_is_commutative(p - 1, b);
            lemma_mul_is_distributive_add(b, p, -1);
            lemma_mul_is_commutative(b, p);
        }
        assert(p * b == pow(b, s.len() as nat)) by {
            lemma_pow_unfold_last(b, s.len() as nat);
        }
    }
}

/// The value of a non-empty glyph string, split at its first character:
/// the first digit weighted by `base^(L-1)`, plus the value of the rest.
pub proof fn lemma_value_head(alpha: Seq<char>, s: Seq<char>)
    requires
        wf_alphabet(alpha),
        s.len() >= 1,
        all_glyphs(alpha, s),
    ensures
        value_of(alpha, s) == digit_of(alpha, s[0]) * pow(alpha.len() as int, (s.len() - 1) as nat)
            + value_of(alpha, s.drop_first()),
    decreases s.len(),
{
    let b = alpha.len() as int;
    let sdf = s.drop_first();
    if s.len() == 1 {
        assert(s.drop_last() =~= Seq::<char>::empty());
        assert(sdf =~= Seq::<char>::empty());
        assert(s.last() == s[0]);
        assert(pow(b, 0) == 1) by {
            vstd::arithmetic::power::lemma_pow0(b);
        }
    } else {
        let sdl = s.drop_last();
        assert(all_glyphs(alpha, sdl)) by {
            assert(forall|i: int| 0 <= i < sdl.len() ==> sdl[i] == s[i]);
        }
        lemma_value_head(alpha, sdl);
        let d0 = digit_of(alpha, s[0]) as int;
        let p = pow(b, (s.len() - 2) as nat);
        let v = value_of(alpha, sdl.drop_first()) as int;
        assert(sdl[0] == s[0]);
        assert(sdl.drop_first() =~= sdf.drop_last());
        assert(sdf.last() == s.last());
        assert(sdf.len() >= 1);
        // value(s) = (d0*p + v)*b + digit(last) = d0*(p*b) + (v*b + digit(last))
        assert((d0 * p + v) * b == d0 * p * b + v * b) by {
            lemma_mul_is_commutative(d0 * p + v, b);
            lemma_mul_is_distributive_add(b, d0 * p, v);
            lemma_mul_is_commutative(b, d0 * p);
            lemma_mul_is_commutative(b, v);
        }
        assert(d0 * p * b == d0 * (p * b)) by {
            lemma_mul_is_associative(d0, p, b);
        }
        assert(p * b == pow(b, (s.len() - 1) as nat)) by {
            lemma_pow_unfold_last(b, (s.len() - 1) as nat);
        }
    }
}

/// In a codepoint-sorted alphabet, the codepoint order of two glyphs is
/// their digit order.
pub proof fn lemma_digit_order(alpha: Seq<char>, c1: char, c2: char)
    requires
        wf_alphabet(alpha),
        sorted_alphabet(alpha),
        alpha.contains(c1),
        alpha.contains(c2),
        c1 > c2,
    ensures
        digit_of(alpha, c1) > digit_of(alpha, c2),
{
    lemma_digit_of(alpha, c1);
    lemma_digit_of(alpha, c2);
    let d1 = digit_of(alpha, c1) as int;
    let d2 = digit_of(alpha, c2) as int;
    if d1 < d2 {
        assert(alpha[d1] < alpha[d2]);
    } else if d1 == d2 {
        assert(c1 == c2);
    }
}

/// In an alphabet whose adjacent glyphs ascend, any earlier glyph is
/// smaller than any later one.
pub proof fn lemma_adjacent_sorted_chain(alpha: Seq<char>, i: int, j: int)
    requires
        forall|k: int| 0 <= k < alpha.len() - 1 ==> #[trigger] alpha[k] < alpha[k + 1],
        0 <= i < j < alpha.len(),
    ensures
        alpha[i] < alpha[j],
    decreases j - i,
{
    if i + 1 < j {
        lemma_adjacent_sorted_chain(alpha, i, j - 1);
    }
}

/// Two equal-length sequences are equal, or one is strictly
/// lexicographically greater than the other.
pub proof fn lemma_lex_trichotomy(a: Seq<char>, b: Seq<char>)
    requires
        a.len() == b.len(),
    ensures
        a =~= b || crate::lex_greater(a, b) || crate::lex_greater(b, a),
    decreases a.len(),
{
    if a.len() != 0 && a[0] == b[0] {
        lemma_lex_trichotomy(a.drop_first(), b.drop_first());
        if a.drop_first() =~= b.drop_first() {
            assert forall|i: int| 0 <= i < a.len() implies a[i] == b[i] by {
                if i > 0 {
                    assert(a[i] == a.drop_first()[i - 1]);
                    assert(b[i] == b.drop_first()[i - 1]);
                }
            }
            assert(a =~= b);
        }
    }
}

/// In a codepoint-sorted alphabet, the lexicographically greater of two
/// equal-length glyph strings denotes the strictly greater value.
pub proof fn lemma_lex_value(alpha: Seq<char>, s: Seq<char>, t: Seq<char>)
    requires
        wf_alphabet(alpha),
        sorted_alphabet(alpha),
        s.len() == t.len(),
        all_glyphs(alpha, s),
        all_glyphs(alpha, t),
        crate::lex_greater(s, t),
    ensures
        value_of(alpha, s) > value_of(alpha, t),
    decreases s.len(),
{
    let b = alpha.len() as int;
    lemma_value_head(alpha, s);
    lemma_value_head(alpha, t);
    let p = pow(b, (s.len() - 1) as nat);
    assert(p >= 1) by {
        lemma_pow_positive(b, (s.len() - 1) as nat);
    }
    let sdf = s.drop_first();
    let tdf = t.drop_first();
    assert(all_glyphs(alpha, sdf)) by {
        assert(forall|i: int| 0 <= i < sdf.len() ==> sdf[i] == s[i + 1]);
    }
    assert(all_glyphs(alpha, tdf)) by {
        assert(forall|i: int| 0 <= i < tdf.len() ==> tdf[i] == t[i + 1]);
    }
    if s[0] == t[0] {
        lemma_lex_value(alpha, sdf, tdf);
    } else {
        assert(s[0] > t[0]);
        lemma_digit_order(alpha, s[0], t[0]);
        let ds = digit_of(alpha, s[0]) as int;
        let dt = digit_of(alpha, t[0]) as int;
        lemma_value_lt_pow(alpha, tdf);
        // value(t) = dt*p + value(tdf) < dt*p + p = (dt+1)*p <= ds*p <= value(s)
        assert((dt + 1) * p == dt * p + p) by {
            lemma_mul_is_commutative(dt + 1, p);
            lemma_mul_is_distributive_add(p, dt, 1);
            lemma_mul_is_commutative(p, dt);
        }
        assert((dt + 1) * p <= ds * p) by {
            lemma_mul_inequality(dt + 1, ds, p);
        }
    }
}

/// A string that is pointwise no greater than another of the same length
/// is not lexicographically greater.
pub proof fn lemma_pointwise_le_not_lex_greater(a: Seq<char>, b: Seq<char>)
    requires
        a.len() == b.len(),
        forall|i: int| 0 <= i < a.len() ==> a[i] <= #[trigger] b[i],
    ensures
        !crate::lex_greater(a, b),
    decreases a.len(),
{
    if a.len() != 0 && a[0] == b[0] {
        let adf = a.drop_first();
        let bdf = b.drop_first();
        assert(forall|i: int| 0 <= i < adf.len() ==> adf[i] == a[i + 1]);
        assert(forall|i: int| 0 <= i < bdf.len() ==> bdf[i] == b[i + 1]);
        lemma_pointwise_le_not_lex_greater(adf, bdf);
    }
}

/// The canonical encoding uses alphabet glyphs only, is never empty,
/// denotes the number it was built from, and starts with a non-zero digit
/// for a positive number.
pub proof fn lemma_encode_props(alpha: Seq<char>, n: nat)
    requires
        wf_alphabet(alpha),
    ensures
        all_glyphs(alpha, encode(alpha, n)),
        encode(alpha, n).len() >= 1,
        value_of(alpha, encode(alpha, n)) == n,
        n >= 1 ==> 1 <= digit_of(alpha, encode(alpha, n)[0]),
        n >= 1 ==> encode(alpha, n)[0] != alpha[0],
{
    if n == 0 {
        let s = encode(alpha, 0);
        lemma_glyph_digit(alpha, 0);
        assert(s.drop_last() =~= Seq::<char>::empty());
        assert(s.last() == alpha[0]);
        assert(value_of(alpha, s.drop_last()) == 0);
        assert(value_of(alpha, s) == value_of(alpha, s.drop_last()) * alpha.len() + digit_of(
            alpha,
            s.last(),
        ));
    } else {
        lemma_encode_rec_glyphs(alpha, n);
        lemma_encode_rec_value(alpha, n);
        let s = encode(alpha, n);
        lemma_digit_of(alpha, s[0]);
        lemma_glyph_digit(alpha, 0);
        if s[0] == alpha[0] {
            assert(digit_of(alpha, s[0]) == 0);
        }
    }
}

/// Encoding is monotone in length: a number no greater than `max` never
/// needs more glyphs than `max` does.
pub proof fn lemma_encode_len_le(alpha: Seq<char>, n: nat, max: nat)
    requires
        wf_alphabet(alpha),
        n <= max,
    ensures
        encode(alpha, n).len() <= encode(alpha, max).len(),
{
    let b = alpha.len() as int;
    lemma_encode_props(alpha, n);
    lemma_encode_props(alpha, max);
    if n >= 1 {
        let ln = encode(alpha, n).len();
        let lm = encode(alpha, max).len();
        lemma_encode_rec_len_bounds(alpha, n);
        lemma_encode_rec_len_bounds(alpha, max);
        if ln > lm {
            lemma_pow_increases(alpha.len() as nat, lm as nat, (ln - 1) as nat);
            assert(pow(b, lm as nat) <= pow(b, (ln - 1) as nat));
            assert(max < pow(b, lm as nat));
            assert(pow(b, (ln - 1) as nat) <= n);
        }
    }
}

/// For a codepoint-sorted alphabet, the encoding of the largest
/// representable integer is a sound sentinel: every all-glyph string that
/// is not length-dominant-greater than it denotes a value of at most that
/// integer.
pub proof fn lemma_guard_sound_sorted(alpha: Seq<char>, max: nat)
    requires
        wf_alphabet(alpha),
        sorted_alphabet(alpha),
    ensures
        guard_sound(alpha, encode(alpha, max), max),
{
    let b = alpha.len() as int;
    let sent = encode(alpha, max);
    lemma_encode_props(alpha, max);
    assert forall|t: Seq<char>|
        all_glyphs(alpha, t) && !crate::spec_greater(t, sent) implies #[trigger] value_of(
        alpha,
        t,
    ) <= max by {
        if t.len() < sent.len() {
            lemma_value_lt_pow(alpha, t);
            lemma_pow_increases(alpha.len() as nat, t.len() as nat, (sent.len() - 1) as nat);
            if max == 0 {
                assert(sent.len() == 1);
                assert(t.len() == 0);
            } else {
                lemma_encode_rec_len_bounds(alpha, max);
                assert(pow(b, (sent.len() - 1) as nat) <= max);
            }
        } else {
            assert(t.len() == sent.len());
            lemma_lex_trichotomy(t, sent);
            if t =~= sent {
            } else {
                assert(crate::lex_greater(sent, t));
                lemma_lex_value(alpha, sent, t);
            }
        }
    }
}

/// When the base raised to the sentinel's length is exactly one more than
/// the largest representable integer, the length check alone makes the
/// sentinel guard sound, whatever the alphabet's codepoint order.
pub proof fn lemma_guard_sound_full_width(alpha: Seq<char>, max: nat)
    requires
        wf_alphabet(alpha),
        pow(alpha.len() as int, encode(alpha, max).len() as nat) == max + 1,
    ensures
        guard_sound(alpha, encode(alpha, max), max),
{
    let b = alpha.len() as int;
    let sent = encode(alpha, max);
    assert forall|t: Seq<char>|
        all_glyphs(alpha, t) && !crate::spec_greater(t, sent) implies #[trigger] value_of(
        alpha,
        t,
    ) <= max by {
        lemma_value_lt_pow(alpha, t);
        lemma_pow_increases(alpha.len() as nat, t.len() as nat, sent.len() as nat);
    }
}

/// Round trip for a codepoint-sorted alphabet: decoding the canonical
/// encoding of any `n` up to `max`, against the canonical encoding of
/// `max` as the sentinel, recovers `n`.
pub proof fn lemma_round_trip_sorted(alpha: Seq<char>, max: nat, n: nat)
    requires
        wf_alphabet(alpha),
        sorted_alphabet(alpha),
        n <= max,
    ensures
        decode(alpha, encode(alpha, max), encode(alpha, n)) == Some(n),
{
    let s = encode(alpha, n);
    let sent = encode(alpha, max);
    lemma_encode_props(alpha, n);
    lemma_encode_props(alpha, max);
    lemma_encode_len_le(alpha, n, max);
    if s.len() == sent.len() && crate::lex_greater(s, sent) {
        lemma_lex_value(alpha, s, sent);
    }
    assert(!crate::spec_greater(s, sent));
}

/// The glyphs of a stack of digits, pushed least significant first, read
/// back most significant first.
pub open spec fn glyphs_rev(alpha: Seq<char>, ds: Seq<usize>) -> Seq<char> {
    Seq::new(ds.len(), |i: int| alpha[ds[ds.len() - 1 - i] as int])
}

/// Find the digit of `c` by scanning the alphabet.
fn lookup(alpha: &str, c: char) -> (r: Option<usize>)
    ensures
        match r {
            Some(d) => d < alpha@.len() && alpha@[d as int] == c,
            None => !alpha@.contains(c),
        },
{
    let n = alpha.unicode_len();
    let mut j: usize = 0;
    while j < n
        invariant
            j <= n,
            n == alpha@.len(),
            forall|k: int| 0 <= k < j ==> alpha@[k] != c,
        decreases n - j,
    {
        if alpha.get_char(j) == c {
            return Some(j);
        }
        j += 1;
    }
    None
}

/// Encode `n` in the positional notation of the given alphabet.
pub fn encode_engine(alpha: &str, n: u64) -> (r: String)
    requires
        wf_alphabet(alpha@),
        alpha.is_ascii(),
    ensures
        r@ == encode(alpha@, n as nat),
{
    let base_len = alpha.unicode_len();
    if n == 0 {
        let r = alpha.substring_ascii(0, 1).to_owned();
        proof {
            assert(r@ =~= seq![alpha@[0]]);
        }
        return r;
    }
    let base = base_len as u64;
    let mut digits: Vec<usize> = Vec::new();
    let mut num = n;
    while num > 0
        invariant
            wf_alphabet(alpha@),
            base == alpha@.len(),
            alpha@.len() <= usize::MAX,
            forall|k: int| 0 <= k < digits@.len() ==> digits@[k] < alpha@.len(),
            encode_rec(alpha@, n as nat) =~= encode_rec(alpha@, num as nat) + glyphs_rev(
                alpha@,
                digits@,
            ),
        decreases num,
    {
        let ghost pre_digits = digits@;
        let ghost pre_num = num as nat;
        let d = (num % base) as usize;
        digits.push(d);
        num = num / base;
        proof {
            lemma_div_is_strictly_smaller(pre_num as int, base as int);
            assert(encode_rec(alpha@, pre_num) == encode_rec(alpha@, pre_num / alpha@.len())
                + seq![alpha@[(pre_num % alpha@.len()) as int]]);
            assert(pre_num / alpha@.len() == num as nat);
            assert(pre_num % alpha@.len() == d as nat);
            assert(glyphs_rev(alpha@, digits@) =~= seq![alpha@[d as int]] + glyphs_rev(
                alpha@,
                pre_digits,
            ));
            assert(encode_rec(alpha@, pre_num) =~= encode_rec(alpha@, num as nat) + seq![
                alpha@[d as int],
            ]);
            assert(encode_rec(alpha@, num as nat) + glyphs_rev(alpha@, digits@)
                =~= encode_rec(alpha@, pre_num) + glyphs_rev(alpha@, pre_digits));
        }
    }
    let mut r = String::new();
    let mut i = digits.len();
    proof {
        assert(encode_rec(alpha@, 0).len() == 0);
        assert(encode_rec(alpha@, n as nat) =~= glyphs_rev(alpha@, digits@));
    }
    while i > 0
        invariant
            i <= digits@.len(),
            wf_alphabet(alpha@),
            alpha.is_ascii(),
            alpha@.len() <= usize::MAX,
            forall|k: int| 0 <= k < digits@.len() ==> digits@[k] < alpha@.len(),
            r@ =~= glyphs_rev(alpha@, digits@).subrange(0, digits@.len() - i),
        decreases i,
    {
        i = i - 1;
        let d = digits[i];
        let ghost pre = r@;
        r.append(alpha.substring_ascii(d, d + 1));
        proof {
            let g = glyphs_rev(alpha@, digits@);
            assert(alpha@.subrange(d as int, d + 1) =~= seq![alpha@[d as int]]);
            assert(g[g.len() - 1 - i] == alpha@[digits@[i as int] as int]);
            assert(r@ =~= g.subrange(0, digits@.len() - i));
        }
    }
    proof {
        assert(glyphs_rev(alpha@, digits@).subrange(0, digits@.len() as int) =~= glyphs_rev(
            alpha@,
            digits@,
        ));
    }
    r
}

/// Decode a string in the positional notation of the given alphabet,
/// bounds-checked against the sentinel: failure exactly when the input is
/// length-dominant-greater than the sentinel or contains a character
/// outside the alphabet.
pub fn decode_engine(alpha: &str, sentinel: &str, max: u64, s: &str) -> (r: Option<u64>)
    requires
        wf_alphabet(alpha@),
        guard_sound(alpha@, sentinel@, max as nat),
    ensures
        match r {
            Some(v) => decode(alpha@, sentinel@, s@) == Some(v as nat) && v <= max,
            None => decode(alpha@, sentinel@, s@) is None,
        },
{
    if crate::greater_than(s, sentinel) {
        return None;
    }
    let base = alpha.unicode_len() as u64;
    let n = s.unicode_len();
    let mut acc: u64 = 0;
    let mut i: usize = 0;
    proof {
        assert(s@.take(0) =~= Seq::<char>::empty());
    }
    while i < n
        invariant
            i <= n,
            n == s@.len(),
            wf_alphabet(alpha@),
            base == alpha@.len(),
            guard_sound(alpha@, sentinel@, max as nat),
            !crate::spec_greater(s@, sentinel@),
            all_glyphs(alpha@, s@.take(i as int)),
            acc as nat == value_of(alpha@, s@.take(i as int)),
            acc <= max,
        decreases n - i,
    {
        let c = s.get_char(i);
        match lookup(alpha, c) {
            None => {
                proof {
                    assert(s@[i as int] == c);
                    assert(!all_glyphs(alpha@, s@));
                }
                return None;
            },
            Some(d) => {
                proof {
                    let t = s@.take(i + 1);
                    assert(t.drop_last() =~= s@.take(i as int));
                    assert(t.last() == s@[i as int]);
                    lemma_glyph_digit(alpha@, d as nat);
                    assert(digit_of(alpha@, c) == d);
                    assert(all_glyphs(alpha@, t)) by {
                        assert(forall|k: int|
                            0 <= k < i ==> t[k] == #[trigger] s@.take(i as int)[k]);
                        assert(t[i as int] == c);
                    }
                    assert(value_of(alpha@, t) == (acc as nat) * (base as nat) + d as nat);
                    assert(!crate::spec_greater(t, sentinel@)) by {
                        if t.len() == sentinel@.len() {
                            assert(t =~= s@);
                        }
                    }
                    assert(value_of(alpha@, t) <= max as nat);
                }
                acc = acc * base + (d as u64);
            },
        }
        i += 1;
    }
    proof {
        assert(s@.take(n as int) =~= s@);
    }
    Some(acc)
}

} // verus!
