//! The seeded pseudo-random generator used by the random initialisers.
//!
//! Xorshift64 (Marsaglia, 2003): deterministic for a given seed, never in
//! the all-zero state.
use vstd::prelude::*;

verus! {

/// The state that replaces a zero seed.
pub const DEFAULT_SEED: u64 = 0x853c_49e6_748f_ea9b;

/// One Xorshift64 step: shifts by 13 left, 7 right, 17 left, each
/// xor-ed into the state.
pub open spec fn xorshift64(x: u64) -> u64 {
    let a = x ^ (x << 13u64);
    let b = a ^ (a >> 7u64);
    b ^ (b << 17u64)
}

/// The state a generator starts in for `seed`.
pub open spec fn seed_state(seed: u64) -> u64 {
    if seed == 0 {
        DEFAULT_SEED
    } else {
        seed
    }
}

/// The bit pattern of a float in `[1.0, 2.0)` whose 23 mantissa bits are
/// the top 23 bits of `x`.
pub open spec fn unit_bits(x: u64) -> u32 {
    (0x3F80_0000u32 | ((x >> 41u64) as u32)) as u32
}

/// A step of Xorshift64 never reaches zero from a non-zero state.
pub proof fn lemma_xorshift64_nonzero(x: u64)
    requires
        x != 0,
    ensures
        xorshift64(x) != 0,
{
    assert(x != 0 ==> ((x ^ (x << 13u64)) ^ ((x ^ (x << 13u64)) >> 7u64)) ^ (((x ^ (x
        << 13u64)) ^ ((x ^ (x << 13u64)) >> 7u64)) << 17u64) != 0) by (bit_vector);
}

/// The state after `k` draws from a generator created with `seed`.
pub open spec fn stream_state(seed: u64, k: nat) -> u64
    decreases k,
{
    if k == 0 {
        seed_state(seed)
    } else {
        xorshift64(stream_state(seed, (k - 1) as nat))
    }
}

/// Whatever the seed, the generator never reaches the degenerate all-zero
/// state, however many values are drawn.
pub proof fn lemma_stream_never_zero(seed: u64, k: nat)
    ensures
        stream_state(seed, k) != 0,
    decreases k,
{
    if k > 0 {
        lemma_stream_never_zero(seed, (k - 1) as nat);
        lemma_xorshift64_nonzero(stream_state(seed, (k - 1) as nat));
    }
}

/// A non-zero seed is itself the starting state; only the zero seed is
/// replaced, by `DEFAULT_SEED`.
pub proof fn lemma_seed_state_kept(seed: u64)
    ensures
        seed != 0 ==> seed_state(seed) == seed,
        seed == 0 ==> seed_state(seed) == DEFAULT_SEED,
{
}

/// Distinct non-zero seeds start in distinct states, and so draw
/// distinct first values.
pub proof fn lemma_seeds_distinct(a: u64, b: u64)
    requires
        a != 0,
        b != 0,
        a != b,
    ensures
        seed_state(a) != seed_state(b),
        stream_state(a, 1) != stream_state(b, 1),
{
    assert(stream_state(a, 0) == a);
    assert(stream_state(b, 0) == b);
    assert(stream_state(a, 1) == xorshift64(a));
    assert(stream_state(b, 1) == xorshift64(b));
    lemma_xorshift64_injective(a, b);
}

/// A step of Xorshift64 is one-to-one: each of its three shift-xor
/// stages can be undone.
pub proof fn lemma_xorshift64_injective(x: u64, y: u64)
    requires
        x != y,
    ensures
        xorshift64(x) != xorshift64(y),
{
    assert(x != y ==> (x ^ (x << 13u64)) != (y ^ (y << 13u64))) by (bit_vector);
    let xa = x ^ (x << 13u64);
    let ya = y ^ (y << 13u64);
    assert(xa != ya ==> (xa ^ (xa >> 7u64)) != (ya ^ (ya >> 7u64))) by (bit_vector);
    let xb = xa ^ (xa >> 7u64);
    let yb = ya ^ (ya >> 7u64);
    assert(xb != yb ==> (xb ^ (xb << 17u64)) != (yb ^ (yb << 17u64))) by (bit_vector);
}

/// The bits built from any state lie in `[0x3F80_0000, 0x4000_0000)`:
/// sign clear, exponent of 1.0, any mantissa — a float in `[1.0, 2.0)`.
pub proof fn lemma_unit_bits_range(x: u64)
    ensures
        0x3F80_0000u32 <= unit_bits(x) < 0x4000_0000u32,
        unit_bits(x) & 0xFF80_0000u32 == 0x3F80_0000u32,
{
    assert(0x3F80_0000u32 <= (0x3F80_0000u32 | ((x >> 41u64) as u32)) < 0x4000_0000u32)
        by (bit_vector);
    assert((0x3F80_0000u32 | ((x >> 41u64) as u32)) & 0xFF80_0000u32 == 0x3F80_0000u32)
        by (bit_vector);
}

/// A fast, deterministic Xorshift64 generator.
///
/// Not cryptographically secure — for weight initialisation only.
pub struct Rng {
    state: u64,
}

impl View for Rng {
    type V = u64;

    closed spec fn view(&self) -> u64 {
        self.state
    }
}

impl Rng {
    #[verifier::type_invariant]
    spec fn state_nonzero(self) -> bool {
        self.state != 0
    }

    /// Creates a generator for `seed`; a zero seed is replaced by
    /// `DEFAULT_SEED` so that the state is never zero.
    pub fn new(seed: u64) -> (r: Self)
        ensures
            r@ == seed_state(seed),
            seed != 0 ==> r@ == seed,
            seed == 0 ==> r@ == DEFAULT_SEED,
            r@ != 0,
    {
        Rng { state: if seed == 0 { DEFAULT_SEED } else { seed } }
    }

    /// Advances the state by one Xorshift64 step and returns the new state.
    pub fn next_u64(&mut self) -> (r: u64)
        ensures
            final(self)@ == xorshift64(old(self)@),
            r == final(self)@,
            r != 0,
    {
        proof {
            use_type_invariant(&*self);
            lemma_xorshift64_nonzero(self.state);
        }
        let x = self.state;
        let a = x ^ (x << 13u64);
        let b = a ^ (a >> 7u64);
        let c = b ^ (b << 17u64);
        self.state = c;
        c
    }

    /// Advances the state and returns the bit pattern of a float in
    /// `[1.0, 2.0)` built from its top 23 bits; subtracting 1.0 from that
    /// float gives a uniform value in `[0.0, 1.0)`.
    pub fn next_unit_bits(&mut self) -> (r: u32)
        ensures
            final(self)@ == xorshift64(old(self)@),
            r == unit_bits(final(self)@),
            0x3F80_0000u32 <= r < 0x4000_0000u32,
    {
        let x = self.next_u64();
        proof {
            lemma_unit_bits_range(x);
        }
        0x3F80_0000u32 | ((x >> 41u64) as u32)
    }
}

} // verus!
