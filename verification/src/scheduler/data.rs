//! Sources of the random values that a test may draw during an execution.
//!
//! Both sources are seeded generators: the `n`-th value drawn after seeding with `seed` is
//! `draw(seed, n)`, a function of the seed and the position alone. That is what makes an
//! execution reproducible from its seed.

use vstd::arithmetic::div_mod::{lemma_add_mod_noop, lemma_mod_sub_multiples_vanish, lemma_small_mod, lemma_mul_mod_noop_left, lemma_mod_multiples_vanish};
use vstd::prelude::*;

verus! {

/// The increment by which the generator state advances on every draw.
pub const GAMMA: u64 = 0x9E37_79B9_7F4A_7C15;

/// First multiplier of the output mixing function.
pub const MIX_MUL_1: u64 = 0xBF58_476D_1CE4_E5B9;

/// Second multiplier of the output mixing function.
pub const MIX_MUL_2: u64 = 0x94D0_49BB_1331_11EB;

/// The output mixing function applied to a generator state.
pub open spec fn mix(z: u64) -> u64 {
    let a = vstd::wrapping::u64_specs::wrapping_mul(z ^ (z >> 30u64), MIX_MUL_1);
    let b = vstd::wrapping::u64_specs::wrapping_mul(a ^ (a >> 27u64), MIX_MUL_2);
    b ^ (b >> 31u64)
}

/// The generator state after `n` draws from `seed`.
pub open spec fn state_after(seed: u64, n: nat) -> u64
    decreases n,
{
    if n == 0 {
        seed
    } else {
        vstd::wrapping::u64_specs::wrapping_add(state_after(seed, (n - 1) as nat), GAMMA)
    }
}

/// The value of the `n`-th draw (counting from 0) after seeding with `seed`.
pub open spec fn draw(seed: u64, n: nat) -> u64 {
    mix(state_after(seed, n + 1))
}

/// The generator state has a closed form: after `n` draws from `seed` it is
/// `seed + n * GAMMA`, reduced modulo 2^64.
pub proof fn lemma_state_closed_form(seed: u64, n: nat)
    ensures
        state_after(seed, n) as int == (seed + n * GAMMA) % 0x1_0000_0000_0000_0000,
    decreases n,
{
    let m: int = 0x1_0000_0000_0000_0000;
    if n == 0 {
        lemma_small_mod(seed as nat, m as nat);
    } else {
        let k = (n - 1) as nat;
        lemma_state_closed_form(seed, k);
        let s = state_after(seed, k) as int;
        let g = GAMMA as int;
        if s + g >= m {
            lemma_mod_sub_multiples_vanish(s + g, m);
            lemma_small_mod((s + g - m) as nat, m as nat);
        } else {
            lemma_small_mod((s + g) as nat, m as nat);
        }
        assert(state_after(seed, n) as int == (s + g) % m);
        lemma_small_mod(g as nat, m as nat);
        lemma_add_mod_noop(seed + k * g, g, m);
        assert(seed + k * g + g == seed + n * g) by (nonlinear_arith)
            requires
                n == k + 1,
        ;
    }
}

/// Two different seeds never lead to the same generator state after the same number of
/// draws.
pub proof fn lemma_state_after_injective(a: u64, b: u64, n: nat)
    ensures
        state_after(a, n) == state_after(b, n) ==> a == b,
    decreases n,
{
    if n > 0 {
        lemma_state_after_injective(a, b, (n - 1) as nat);
    }
}

proof fn lemma_xorshift30_injective(x: u64, y: u64)
    ensures
        x ^ (x >> 30u64) == y ^ (y >> 30u64) ==> x == y,
{
    assert(x ^ (x >> 30u64) == y ^ (y >> 30u64) ==> x == y) by (bit_vector);
}

proof fn lemma_xorshift27_injective(x: u64, y: u64)
    ensures
        x ^ (x >> 27u64) == y ^ (y >> 27u64) ==> x == y,
{
    assert(x ^ (x >> 27u64) == y ^ (y >> 27u64) ==> x == y) by (bit_vector);
}

proof fn lemma_xorshift31_injective(x: u64, y: u64)
    ensures
        x ^ (x >> 31u64) == y ^ (y >> 31u64) ==> x == y,
{
    assert(x ^ (x >> 31u64) == y ^ (y >> 31u64) ==> x == y) by (bit_vector);
}

/// Multiplying modulo 2^64 by `c` is undone by multiplying by `inv` when `c * inv` is
/// one more than a multiple of 2^64.
proof fn lemma_mul_undo(x: u64, c: u64, inv: u64, k: int)
    requires
        c * inv == 1 + k * 0x1_0000_0000_0000_0000,
    ensures
        (vstd::wrapping::u64_specs::wrapping_mul(x, c) as int * inv) % 0x1_0000_0000_0000_0000
            == x as int,
{
    let m: int = 0x1_0000_0000_0000_0000;
    lemma_mul_mod_noop_left(x * c, inv as int, m);
    assert(x * c * inv == x + m * (x * k)) by (nonlinear_arith)
        requires
            c * inv == 1 + k * m,
    ;
    lemma_mod_multiples_vanish(x * k, x as int, m);
    lemma_small_mod(x as nat, m as nat);
}

/// The output mixing function is one-to-one: different states give different values.
pub proof fn lemma_mix_injective(x: u64, y: u64)
    ensures
        mix(x) == mix(y) ==> x == y,
{
    let a1 = vstd::wrapping::u64_specs::wrapping_mul(x ^ (x >> 30u64), MIX_MUL_1);
    let a2 = vstd::wrapping::u64_specs::wrapping_mul(y ^ (y >> 30u64), MIX_MUL_1);
    let b1 = vstd::wrapping::u64_specs::wrapping_mul(a1 ^ (a1 >> 27u64), MIX_MUL_2);
    let b2 = vstd::wrapping::u64_specs::wrapping_mul(a2 ^ (a2 >> 27u64), MIX_MUL_2);
    lemma_xorshift31_injective(b1, b2);
    lemma_mul_undo(a1 ^ (a1 >> 27u64), MIX_MUL_2, 0x3196_42B2_D24D_8EC3, 2077064247507883091);
    lemma_mul_undo(a2 ^ (a2 >> 27u64), MIX_MUL_2, 0x3196_42B2_D24D_8EC3, 2077064247507883091);
    lemma_xorshift27_injective(a1, a2);
    lemma_mul_undo(x ^ (x >> 30u64), MIX_MUL_1, 0x96DE_1B17_3F11_9089, 8125545580553827436);
    lemma_mul_undo(y ^ (y >> 30u64), MIX_MUL_1, 0x96DE_1B17_3F11_9089, 8125545580553827436);
    lemma_xorshift30_injective(x, y);
}

/// The values drawn depend on the seed: sources seeded differently differ at every
/// position of their sequences.
pub proof fn lemma_draws_depend_on_seed(a: u64, b: u64, n: nat)
    ensures
        a != b ==> draw(a, n) != draw(b, n),
{
    lemma_mix_injective(state_after(a, n + 1), state_after(b, n + 1));
    lemma_state_after_injective(a, b, n + 1);
}

/// A fresh source yields its seed as the state it starts from.
pub proof fn lemma_state_starts_at_seed(seed: u64)
    ensures
        state_after(seed, 0) == seed,
{
}

fn mix_exec(z: u64) -> (r: u64)
    ensures
        r == mix(z),
{
    let a = (z ^ (z >> 30u64)).wrapping_mul(MIX_MUL_1);
    let b = (a ^ (a >> 27u64)).wrapping_mul(MIX_MUL_2);
    b ^ (b >> 31u64)
}

/// A data source that replays the same values in every execution: it is reset to its seed at
/// the start of each one.
pub struct FixedDataSource {
    seed: u64,
    state: u64,
    draws: Ghost<nat>,
}

impl FixedDataSource {
    /// The seed that every execution starts from.
    pub closed spec fn seed(&self) -> u64 {
        self.seed
    }

    /// How many values were drawn since the last (re)initialization.
    pub closed spec fn draws(&self) -> nat {
        self.draws@
    }

    /// The generator state agrees with the number of draws.
    pub closed spec fn wf(&self) -> bool {
        self.state == state_after(self.seed, self.draws@)
    }

    /// A source seeded with `seed`, with nothing drawn yet.
    pub fn initialize(seed: u64) -> (s: Self)
        ensures
            s.wf(),
            s.seed() == seed,
            s.draws() == 0,
    {
        FixedDataSource { seed, state: seed, draws: Ghost(0) }
    }

    /// Start over from the seed, which is returned.
    pub fn reinitialize(&mut self) -> (seed: u64)
        ensures
            final(self).wf(),
            final(self).seed() == old(self).seed(),
            final(self).draws() == 0,
            seed == old(self).seed(),
    {
        self.state = self.seed;
        self.draws = Ghost(0);
        self.seed
    }

    /// The next value of the sequence.
    pub fn next_u64(&mut self) -> (v: u64)
        requires
            old(self).wf(),
        ensures
            final(self).wf(),
            final(self).seed() == old(self).seed(),
            final(self).draws() == old(self).draws() + 1,
            v == draw(old(self).seed(), old(self).draws()),
            v == mix(
                ((old(self).seed() + (old(self).draws() + 1) * GAMMA) % 0x1_0000_0000_0000_0000) as u64,
            ),
    {
        self.state = self.state.wrapping_add(GAMMA);
        self.draws = Ghost(self.draws@ + 1);
        proof {
            lemma_state_closed_form(self.seed, self.draws@);
        }
        mix_exec(self.state)
    }
}

/// A data source seeded once; its values go on from one execution to the next.
pub struct RandomDataSource {
    seed: u64,
    state: u64,
    draws: Ghost<nat>,
}

impl RandomDataSource {
    /// The seed the source was initialized with.
    pub closed spec fn seed(&self) -> u64 {
        self.seed
    }

    /// How many values were drawn since initialization.
    pub closed spec fn draws(&self) -> nat {
        self.draws@
    }

    /// The generator state agrees with the number of draws.
    pub closed spec fn wf(&self) -> bool {
        self.state == state_after(self.seed, self.draws@)
    }

    /// A source seeded with `seed`, with nothing drawn yet.
    pub fn initialize(seed: u64) -> (s: Self)
        ensures
            s.wf(),
            s.seed() == seed,
            s.draws() == 0,
    {
        RandomDataSource { seed, state: seed, draws: Ghost(0) }
    }

    /// The next value of the sequence.
    pub fn next_u64(&mut self) -> (v: u64)
        requires
            old(self).wf(),
        ensures
            final(self).wf(),
            final(self).seed() == old(self).seed(),
            final(self).draws() == old(self).draws() + 1,
            v == draw(old(self).seed(), old(self).draws()),
            v == mix(
                ((old(self).seed() + (old(self).draws() + 1) * GAMMA) % 0x1_0000_0000_0000_0000) as u64,
            ),
    {
        self.state = self.state.wrapping_add(GAMMA);
        self.draws = Ghost(self.draws@ + 1);
        proof {
            lemma_state_closed_form(self.seed, self.draws@);
        }
        mix_exec(self.state)
    }
}

} // verus!
