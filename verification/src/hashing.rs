//! Content hashing for the store.
//!
//! The storage key of a blob must be reproducible across processes and
//! machines, so the digest is fixed and fully specified here: 64-bit FNV-1a,
//! folded over the scalar value of each character of the content.

use vstd::prelude::*;

verus! {

/// The 64-bit FNV-1a offset basis.
pub const FNV_OFFSET: u64 = 0xcbf2_9ce4_8422_2325;

/// The 64-bit FNV-1a prime.
pub const FNV_PRIME: u64 = 0x0000_0100_0000_01b3;

/// One FNV-1a round: xor one character's scalar value into the state, then
/// multiply by the FNV prime modulo 2^64.
pub open spec fn fnv1a_step(h: u64, v: u32) -> u64 {
    vstd::wrapping::u64_specs::wrapping_mul(h ^ (v as u64), FNV_PRIME)
}

/// The 64-bit FNV-1a digest of a sequence of characters.
pub open spec fn fnv1a_hash(s: Seq<char>) -> u64
    decreases s.len(),
{
    if s.len() == 0 {
        FNV_OFFSET
    } else {
        fnv1a_step(fnv1a_hash(s.drop_last()), s.last() as u32)
    }
}

/// The digest is a mathematical function of the content alone, so two equal
/// contents hash identically, in every call and in every process.
pub proof fn lemma_hash_deterministic(a: Seq<char>, b: Seq<char>)
    requires
        a == b,
    ensures
        fnv1a_hash(a) == fnv1a_hash(b),
{
}

/// Computes the 64-bit FNV-1a digest of `s`.
pub fn hash_text(s: &str) -> (h: u64)
    ensures
        h == fnv1a_hash(s@),
{
    let n = s.unicode_len();
    let mut h: u64 = FNV_OFFSET;
    let mut i: usize = 0;
    while i < n
        invariant
            n == s@.len(),
            i <= n,
            h == fnv1a_hash(s@.take(i as int)),
        decreases n - i,
    {
        let c = s.get_char(i);
        h = (h ^ (c as u32 as u64)).wrapping_mul(FNV_PRIME);
        proof {
            assert(s@.take(i + 1).drop_last() =~= s@.take(i as int));
            assert(s@.take(i + 1).last() == s@[i as int]);
        }
        i = i + 1;
    }
    proof {
        assert(s@.take(n as int) =~= s@);
    }
    h
}

} // verus!
