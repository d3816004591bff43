use vstd::prelude::*;

verus! {

/// Multiplier of the linear congruential generator (Knuth's MMIX constant).
pub const LCG_MULTIPLIER: u64 = 6364136223846793005u64;

/// Offset added to the seed when a generator is created.
pub const SEED_OFFSET: u64 = 0x5DEECE66Du64;

/// Number of low bits of a draw that become the mantissa of a float in `[1, 2)`.
pub const MANTISSA_MASK: u64 = 0x000F_FFFF_FFFF_FFFFu64;

/// Bit pattern of the exponent of `1.0` in an IEEE-754 double.
pub const ONE_EXPONENT_BITS: u64 = 0x3FF0_0000_0000_0000u64;

/// One step of the generator: `s * LCG_MULTIPLIER + 1` modulo `2^64`.
pub open spec fn lcg_step(s: u64) -> u64 {
    ((s as nat * LCG_MULTIPLIER as nat + 1) % 0x1_0000_0000_0000_0000nat) as u64
}

/// The state reached from `s` after `n` steps.
pub open spec fn lcg_iter(s: u64, n: nat) -> u64
    decreases n,
{
    if n == 0 {
        s
    } else {
        lcg_step(lcg_iter(s, (n - 1) as nat))
    }
}

/// The state a generator created with `seed` starts in.
pub open spec fn seeded_state(seed: u64) -> u64 {
    ((seed as nat + SEED_OFFSET as nat) % 0x1_0000_0000_0000_0000nat) as u64
}

/// The bit pattern of a double in `[1, 2)` whose mantissa is the low 52 bits of `draw`.
pub open spec fn unit_float_bits(draw: u64) -> u64 {
    ONE_EXPONENT_BITS | (draw & MANTISSA_MASK)
}

proof fn lemma_mod_add_one(a: nat, m: nat)
    requires
        m > 0,
    ensures
        (a % m + 1) % m == (a + 1) % m,
{
    vstd::arithmetic::div_mod::lemma_add_mod_noop_right(1, a as int, m as int);
}

/// Every bit pattern `gen_f64_bits` returns has a clear sign bit and the
/// exponent of `1.0`, and its 52 mantissa bits are the low 52 bits of the
/// draw, untouched: as a double it lies in `[1, 2)`, so subtracting `1.0`
/// gives a value in `[0, 1)`, and every mantissa, hence every such value,
/// can come out.
pub proof fn lemma_unit_float_bits(draw: u64)
    ensures
        unit_float_bits(draw) >> 52u64 == 0x3FFu64,
        unit_float_bits(draw) & 0x000F_FFFF_FFFF_FFFFu64 == draw & 0x000F_FFFF_FFFF_FFFFu64,
{
    assert((0x3FF0_0000_0000_0000u64 | (draw & 0x000F_FFFF_FFFF_FFFFu64)) >> 52u64 == 0x3FFu64)
        by (bit_vector);
    assert((0x3FF0_0000_0000_0000u64 | (draw & 0x000F_FFFF_FFFF_FFFFu64)) & 0x000F_FFFF_FFFF_FFFFu64
        == draw & 0x000F_FFFF_FFFF_FFFFu64) by (bit_vector);
}

/// The generator is the MMIX linear congruential generator: each step
/// multiplies by 6364136223846793005 and adds 1, modulo `2^64`; a seed
/// starts it at `seed + 0x5DEECE66D`, modulo `2^64`.
pub proof fn lemma_generator_constants(s: u64, seed: u64)
    ensures
        lcg_step(s) == ((s as nat * 6364136223846793005nat + 1) % 0x1_0000_0000_0000_0000nat) as u64,
        seeded_state(seed) == ((seed as nat + 0x5DEECE66Dnat) % 0x1_0000_0000_0000_0000nat) as u64,
        lcg_iter(s, 1) == lcg_step(s),
{
    assert(LCG_MULTIPLIER as nat == 6364136223846793005nat);
    assert(SEED_OFFSET as nat == 0x5DEECE66Dnat);
    assert(lcg_iter(s, 0) == s);
}

/// A 64-bit linear congruential generator: cheap, deterministic and good
/// enough to keep caches and memory busy with unpredictable values.
#[derive(Clone, Copy)]
pub struct SimpleRng {
    state: u64,
}

impl View for SimpleRng {
    type V = u64;

    /// The generator's current state.
    closed spec fn view(&self) -> u64 {
        self.state
    }
}

impl SimpleRng {
    /// Creates a generator whose state is `seed + SEED_OFFSET` (wrapping).
    pub fn new(seed: u64) -> (rng: SimpleRng)
        ensures
            rng@ == seeded_state(seed),
    {
        SimpleRng { state: seed.wrapping_add(SEED_OFFSET) }
    }

    /// Advances the state by one step and returns the new state.
    pub fn next(&mut self) -> (r: u64)
        ensures
            r == lcg_step(old(self)@),
            final(self)@ == r,
    {
        let s = self.state.wrapping_mul(LCG_MULTIPLIER).wrapping_add(1);
        proof {
            let a = old(self).state as nat * LCG_MULTIPLIER as nat;
            lemma_mod_add_one(a, 0x1_0000_0000_0000_0000nat);
        }
        self.state = s;
        s
    }

    /// Draws the next 64-bit value.
    pub fn gen_u64(&mut self) -> (r: u64)
        ensures
            r == lcg_step(old(self)@),
            final(self)@ == r,
    {
        self.next()
    }

    /// Draws the bit pattern of a double uniformly spread over `[1, 2)`:
    /// exponent of `1.0`, mantissa from the low 52 bits of the next draw.
    /// Subtracting `1.0` from that double gives a value in `[0, 1)`.
    pub fn gen_f64_bits(&mut self) -> (bits: u64)
        ensures
            final(self)@ == lcg_step(old(self)@),
            bits == unit_float_bits(final(self)@),
    {
        let draw = self.next();
        ONE_EXPONENT_BITS | (draw & MANTISSA_MASK)
    }
}

/// The generator of CPU worker `worker_id`: seeded with the worker's number
/// mixed with `SEED_OFFSET`.
pub fn cpu_worker_rng(worker_id: usize) -> (rng: SimpleRng)
    ensures
        rng@ == seeded_state((worker_id as u64) ^ SEED_OFFSET),
{
    SimpleRng::new((worker_id as u64) ^ SEED_OFFSET)
}

/// Overwrites every word of `data` with successive draws of the generator.
pub fn fill_words(data: &mut Vec<u64>, rng: &mut SimpleRng)
    ensures
        final(data).len() == old(data).len(),
        final(rng)@ == lcg_iter(old(rng)@, old(data).len() as nat),
        forall|i: int| 0 <= i < final(data).len() ==> #[trigger] final(data)@[i] == lcg_iter(old(rng)@, (i + 1) as nat),
{
    let n = data.len();
    let ghost s0 = rng@;
    let mut i: usize = 0;
    while i < n
        invariant
            n == data.len(),
            i <= n,
            rng@ == lcg_iter(s0, i as nat),
            forall|j: int| 0 <= j < i ==> #[trigger] data@[j] == lcg_iter(s0, (j + 1) as nat),
        decreases n - i,
    {
        let x = rng.gen_u64();
        data.set(i, x);
        i = i + 1;
    }
}

} // verus!
