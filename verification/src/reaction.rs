//! Reaction identity: the integer key of a reaction and its FNV-style hash.
//!
//! A reaction's amounts and rate are real numbers; what identifies a reaction
//! is their quantized form: each amount scaled by 1000 and the rate by 10000,
//! then truncated to an integer. `ReactionKey` holds exactly that.
use vstd::prelude::*;

verus! {

/// FNV-1a 64-bit offset basis.
pub const FNV_OFFSET: u64 = 0xcbf29ce484222325;

/// FNV-1a 64-bit prime.
pub const FNV_PRIME: u64 = 0x100000001b3;

/// Separator mixed in between the substrate and the product list.
pub const SEPARATOR: u64 = 0xFF;

/// The identifying, quantized content of a chemical reaction.
pub struct ReactionKey {
    /// Substrates: (chemical index, amount × 1000 truncated).
    pub substrates: Vec<(usize, u64)>,
    /// Products: (chemical index, amount × 1000 truncated).
    pub products: Vec<(usize, u64)>,
    /// Reaction rate × 10000 truncated.
    pub rate_q: u64,
}

/// One FNV-1a step: xor the word in, then multiply by the prime modulo 2^64.
pub open spec fn fnv_mix(h: u64, x: u64) -> u64 {
    (h ^ x).wrapping_mul(FNV_PRIME)
}

/// Mixes the (index, amount) pairs of `s` into `h`, index first, in order.
pub open spec fn fnv_pairs(h: u64, s: Seq<(usize, u64)>) -> u64
    decreases s.len(),
{
    if s.len() == 0 {
        h
    } else {
        fnv_mix(fnv_mix(fnv_pairs(h, s.drop_last()), s.last().0 as u64), s.last().1)
    }
}

/// The hash of a reaction: its substrates, the separator, its products and its
/// rate mixed into the offset basis in that order.
pub open spec fn key_hash(subs: Seq<(usize, u64)>, prods: Seq<(usize, u64)>, rate_q: u64) -> u64 {
    fnv_mix(fnv_pairs(fnv_mix(fnv_pairs(FNV_OFFSET, subs), SEPARATOR), prods), rate_q)
}

/// The hash of a reaction key.
pub open spec fn spec_reaction_hash(r: ReactionKey) -> u64 {
    key_hash(r.substrates@, r.products@, r.rate_q)
}

fn mix_pairs(h0: u64, s: &Vec<(usize, u64)>) -> (h: u64)
    ensures
        h == fnv_pairs(h0, s@),
{
    let mut h = h0;
    let mut i: usize = 0;
    while i < s.len()
        invariant
            0 <= i <= s@.len(),
            h == fnv_pairs(h0, s@.subrange(0, i as int)),
        decreases s@.len() - i,
    {
        let (idx, amount) = s[i];
        proof {
            assert(s@.subrange(0, i + 1).drop_last() =~= s@.subrange(0, i as int));
        }
        h = h ^ (idx as u64);
        h = h.wrapping_mul(FNV_PRIME);
        h = h ^ amount;
        h = h.wrapping_mul(FNV_PRIME);
        i = i + 1;
    }
    assert(s@.subrange(0, s@.len() as int) =~= s@);
    h
}

/// Hashes a reaction to a `u64` for identity comparison: FNV-1a over the
/// substrate (index, amount) pairs, a separator, the product pairs and the rate.
pub fn reaction_hash(r: &ReactionKey) -> (h: u64)
    ensures
        h == spec_reaction_hash(*r),
{
    let mut h = mix_pairs(FNV_OFFSET, &r.substrates);
    h = h ^ SEPARATOR;
    h = h.wrapping_mul(FNV_PRIME);
    h = mix_pairs(h, &r.products);
    h = h ^ r.rate_q;
    h = h.wrapping_mul(FNV_PRIME);
    h
}

} // verus!
