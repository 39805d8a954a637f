//! SHA-256 adapter: derive a 64-bit integer from an arbitrary string by
//! hashing it and reading the first eight digest bytes little-endian.

use sha2::Digest;
use vstd::prelude::*;

verus! {

/// The SHA-256 digest of the UTF-8 bytes of a string. The digest is a
/// function of the input characters alone.
pub uninterp spec fn sha256_of(s: Seq<char>) -> Seq<u8>;

/// Relies on sha2::Sha256 through the Digest trait: `digest` hashes the
/// given bytes, its result depends on them alone, and Sha256's output size
/// is 32 bytes.
#[verifier::external_body]
pub(crate) fn sha256_digest(s: &str) -> (r: Vec<u8>)
    ensures
        r@ == sha256_of(s@),
        r@.len() == 32,
{
    let digest = sha2::Sha256::digest(s.as_bytes());
    digest.to_vec()
}

/// The little-endian value of a byte sequence: the first byte is the least
/// significant.
pub open spec fn le_value(b: Seq<u8>) -> nat
    decreases b.len(),
{
    if b.len() == 0 {
        0
    } else {
        b[0] as nat + 256 * le_value(b.drop_first())
    }
}

/// The 64-bit integer denoted by the first eight bytes of a digest,
/// little-endian.
pub open spec fn le64_of(b: Seq<u8>) -> nat {
    le_value(b.take(8))
}

/// A byte sequence of length `L` denotes a value below `256^L`.
proof fn lemma_le_value_bound(b: Seq<u8>)
    ensures
        le_value(b) < vstd::arithmetic::power::pow(256, b.len() as nat),
    decreases b.len(),
{
    reveal(vstd::arithmetic::power::pow);
    if b.len() > 0 {
        lemma_le_value_bound(b.drop_first());
        vstd::arithmetic::power::lemma_pow_adds(256, 1, (b.len() - 1) as nat);
        vstd::arithmetic::power::lemma_pow1(256);
    }
}

/// Read the first eight bytes of `d` as a little-endian unsigned 64-bit
/// integer.
pub(crate) fn u64_from_le_first8(d: &Vec<u8>) -> (n: u64)
    requires
        d@.len() >= 8,
    ensures
        n as nat == le64_of(d@),
{
    let mut n: u64 = 0;
    let mut i: usize = 8;
    proof {
        assert(d@.subrange(8, 8) =~= Seq::<u8>::empty());
        lemma_pow_256_small();
    }
    while i > 0
        invariant
            i <= 8,
            d@.len() >= 8,
            n as nat == le_value(d@.subrange(i as int, 8)),
        decreases i,
    {
        proof {
            let tail = d@.subrange(i as int, 8);
            let ext = d@.subrange(i - 1, 8);
            assert(ext.drop_first() =~= tail);
            lemma_le_value_bound(tail);
            lemma_pow_256_small();
            assert(le_value(tail) < vstd::arithmetic::power::pow(256, (8 - i) as nat));
            vstd::arithmetic::power::lemma_pow_increases(256, (8 - i) as nat, 7);
        }
        i = i - 1;
        let byte = d[i];
        n = n * 256 + (byte as u64);
    }
    proof {
        assert(d@.subrange(0, 8) =~= d@.take(8));
    }
    n
}

/// The powers of 256 up to the eighth, written out for concrete bounds.
proof fn lemma_pow_256_small()
    ensures
        vstd::arithmetic::power::pow(256, 0) == 1,
        vstd::arithmetic::power::pow(256, 1) == 0x100,
        vstd::arithmetic::power::pow(256, 2) == 0x1_0000,
        vstd::arithmetic::power::pow(256, 3) == 0x100_0000,
        vstd::arithmetic::power::pow(256, 4) == 0x1_0000_0000,
        vstd::arithmetic::power::pow(256, 5) == 0x100_0000_0000,
        vstd::arithmetic::power::pow(256, 6) == 0x1_0000_0000_0000,
        vstd::arithmetic::power::pow(256, 7) == 0x100_0000_0000_0000,
        vstd::arithmetic::power::pow(256, 8) == 0x1_0000_0000_0000_0000,
{
    reveal(vstd::arithmetic::power::pow);
    assert(vstd::arithmetic::power::pow(256, 0) == 1);
    assert(vstd::arithmetic::power::pow(256, 1) == 256 * vstd::arithmetic::power::pow(256, 0));
    assert(vstd::arithmetic::power::pow(256, 2) == 256 * vstd::arithmetic::power::pow(256, 1));
    assert(vstd::arithmetic::power::pow(256, 3) == 256 * vstd::arithmetic::power::pow(256, 2));
    assert(vstd::arithmetic::power::pow(256, 4) == 256 * vstd::arithmetic::power::pow(256, 3));
    assert(vstd::arithmetic::power::pow(256, 5) == 256 * vstd::arithmetic::power::pow(256, 4));
    assert(vstd::arithmetic::power::pow(256, 6) == 256 * vstd::arithmetic::power::pow(256, 5));
    assert(vstd::arithmetic::power::pow(256, 7) == 256 * vstd::arithmetic::power::pow(256, 6));
    assert(vstd::arithmetic::power::pow(256, 8) == 256 * vstd::arithmetic::power::pow(256, 7));
}

} // verus!
