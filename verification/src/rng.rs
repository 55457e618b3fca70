//! The simulation's random number generator: a 64-bit xorshift.
use vstd::prelude::*;

verus! {

/// One xorshift step: shifts of 13 left, 7 right and 17 left, each xored in.
pub open spec fn xorshift(s: u64) -> u64 {
    let a = s ^ (s << 13u64);
    let b = a ^ (a >> 7u64);
    b ^ (b << 17u64)
}

/// `n` xorshift steps from `s`.
pub open spec fn xorshift_n(s: u64, n: nat) -> u64
    decreases n,
{
    if n == 0 {
        s
    } else {
        xorshift(xorshift_n(s, (n - 1) as nat))
    }
}

/// Seed used when none is given.
pub const DEFAULT_SEED: u64 = 12345678901234567;

/// RNG resource using a simple xorshift; its state is never zero.
pub struct SimRng {
    state: u64,
}

impl SimRng {
    /// The generator's state is never zero, the one fixed point of xorshift.
    #[verifier::type_invariant]
    spec fn nonzero(self) -> bool {
        self.state != 0
    }

    /// The generator's current state.
    pub closed spec fn state(self) -> u64 {
        self.state
    }
}

/// A nonzero state stays nonzero under xorshift.
pub proof fn lemma_xorshift_nonzero(s: u64)
    requires
        s != 0,
    ensures
        xorshift(s) != 0,
{
    let a = s ^ (s << 13u64);
    assert(a != 0) by (bit_vector)
        requires
            s != 0,
            a == s ^ (s << 13u64),
    ;
    let b = a ^ (a >> 7u64);
    assert(b != 0) by (bit_vector)
        requires
            a != 0,
            b == a ^ (a >> 7u64),
    ;
    let c = b ^ (b << 17u64);
    assert(c != 0) by (bit_vector)
        requires
            b != 0,
            c == b ^ (b << 17u64),
    ;
}

/// No number of steps from a nonzero state reaches zero.
pub proof fn lemma_xorshift_n_nonzero(s: u64, n: nat)
    requires
        s != 0,
    ensures
        xorshift_n(s, n) != 0,
    decreases n,
{
    if n > 0 {
        lemma_xorshift_n_nonzero(s, (n - 1) as nat);
        lemma_xorshift_nonzero(xorshift_n(s, (n - 1) as nat));
    }
}

impl Default for SimRng {
    fn default() -> (r: Self)
        ensures
            r.state() == DEFAULT_SEED,
    {
        SimRng { state: DEFAULT_SEED }
    }
}

impl SimRng {
    /// A generator seeded with `seed`; seed 0, which xorshift would never
    /// leave, is replaced by 1.
    pub fn new(seed: u64) -> (r: Self)
        ensures
            r.state() == if seed == 0 {
                1
            } else {
                seed
            },
    {
        SimRng { state: if seed == 0 { 1 } else { seed } }
    }

    /// Advances the state one xorshift step and returns its low 32 bits.
    pub fn next_u32(&mut self) -> (r: u32)
        ensures
            final(self).state() == xorshift(old(self).state()),
            r == (xorshift(old(self).state()) as u32),
    {
        proof {
            use_type_invariant(&*self);
            lemma_xorshift_nonzero(self.state);
        }
        let mut s = self.state;
        s = s ^ (s << 13);
        s = s ^ (s >> 7);
        s = s ^ (s << 17);
        self.state = s;
        s as u32
    }
}

} // verus!
