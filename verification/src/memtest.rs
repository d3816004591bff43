use std::sync::atomic::{AtomicBool, Ordering};
use vstd::prelude::*;
use crate::rng::{lcg_iter, SimpleRng};

verus! {

/// Size of one block of the memory test: 1 MiB.
pub const CHUNK_SIZE: usize = 0x10_0000;

/// Seed of the memory worker's generator, before the size is mixed in.
pub const MEMORY_SEED: u64 = 0xABCD1234u64;

/// How many iterations pass between two progress reports.
pub const REPORT_EVERY: u64 = 10;

/// The pattern of block `idx`: 0xAA, 0x55, 0xFF and 0x00 in turn.
pub open spec fn chunk_pattern(idx: nat) -> u8 {
    if idx % 4 == 0 {
        0xAA
    } else if idx % 4 == 1 {
        0x55
    } else if idx % 4 == 2 {
        0xFF
    } else {
        0x00
    }
}

/// The byte a pattern fill writes at offset `i`: the checkerboard patterns
/// 0xAA and 0x55 alternate with their complement, the others are uniform.
pub open spec fn pattern_byte(pattern: u8, i: nat) -> u8 {
    if (pattern == 0xAA || pattern == 0x55) && i % 2 == 1 {
        !pattern
    } else {
        pattern
    }
}

/// The random byte a fill writes at offset `i` of a block started from
/// generator state `s`: the low byte of the `i + 1`-th draw.
pub open spec fn random_byte(s: u64, i: nat) -> u8 {
    lcg_iter(s, i + 1) as u8
}

/// Sum of `s[i] * (i + 1)` over the block.
pub open spec fn weighted_sum(s: Seq<u8>) -> nat
    decreases s.len(),
{
    if s.len() == 0 {
        0
    } else {
        weighted_sum(s.drop_last()) + s.last() as nat * s.len()
    }
}

/// The checksum of a block: its weighted sum modulo `2^64`.
pub open spec fn checksum(s: Seq<u8>) -> u64 {
    (weighted_sum(s) % 0x1_0000_0000_0000_0000nat) as u64
}

/// The pattern of block `idx`.
pub fn pattern_for_chunk(idx: usize) -> (p: u8)
    ensures
        p == chunk_pattern(idx as nat),
{
    let r = idx % 4;
    if r == 0 {
        0xAA
    } else if r == 1 {
        0x55
    } else if r == 2 {
        0xFF
    } else {
        0x00
    }
}

/// Writes the pattern over the whole block.
pub fn fill_pattern(block: &mut Vec<u8>, pattern: u8)
    ensures
        final(block).len() == old(block).len(),
        forall|i: int| 0 <= i < final(block).len() ==> #[trigger] final(block)@[i] == pattern_byte(pattern, i as nat),
{
    let n = block.len();
    let checkerboard = pattern == 0xAA || pattern == 0x55;
    let mut i: usize = 0;
    while i < n
        invariant
            n == block.len(),
            i <= n,
            checkerboard == (pattern == 0xAA || pattern == 0x55),
            forall|j: int| 0 <= j < i ==> #[trigger] block@[j] == pattern_byte(pattern, j as nat),
        decreases n - i,
    {
        let b = if checkerboard {
            if i % 2 == 0 {
                pattern
            } else {
                !pattern
            }
        } else {
            pattern
        };
        block.set(i, b);
        i = i + 1;
    }
}

/// Overwrites the block with successive draws of the generator, one byte per draw.
pub fn fill_random(block: &mut Vec<u8>, rng: &mut SimpleRng)
    ensures
        final(block).len() == old(block).len(),
        final(rng)@ == lcg_iter(old(rng)@, old(block).len() as nat),
        forall|i: int| 0 <= i < final(block).len() ==> #[trigger] final(block)@[i] == random_byte(old(rng)@, i as nat),
{
    let n = block.len();
    let ghost s0 = rng@;
    let mut i: usize = 0;
    while i < n
        invariant
            n == block.len(),
            i <= n,
            rng@ == lcg_iter(s0, i as nat),
            forall|j: int| 0 <= j < i ==> #[trigger] block@[j] == random_byte(s0, j as nat),
        decreases n - i,
    {
        let x = rng.gen_u64();
        assert(x == lcg_iter(s0, (i + 1) as nat));
        block.set(i, x as u8);
        i = i + 1;
    }
}

proof fn lemma_wrapping_sum_step(acc: u64, w: nat, byte: u8, k: u64)
    requires
        acc == w % 0x1_0000_0000_0000_0000nat,
    ensures
        vstd::wrapping::u64_specs::wrapping_add(
            acc,
            vstd::wrapping::u64_specs::wrapping_mul(byte as u64, k),
        ) == ((w + byte as nat * k as nat) % 0x1_0000_0000_0000_0000nat) as u64,
{
    let m = 0x1_0000_0000_0000_0000nat;
    let p = vstd::wrapping::u64_specs::wrapping_mul(byte as u64, k);
    assert(p == (byte as nat * k as nat) % m);
    vstd::arithmetic::div_mod::lemma_add_mod_noop(w as int, (byte as nat * k as nat) as int, m as int);
    vstd::arithmetic::div_mod::lemma_mod_bound((w + byte as nat * k as nat) as int, m as int);
    if acc + p > u64::MAX {
        vstd::arithmetic::div_mod::lemma_fundamental_div_mod((acc + p) as int, m as int);
        assert((acc + p) % (m as int) == acc + p - m) by {
            vstd::arithmetic::div_mod::lemma_mod_sub_multiples_vanish((acc + p) as int, m as int);
            vstd::arithmetic::div_mod::lemma_small_mod((acc + p - m) as nat, m);
        }
    } else {
        vstd::arithmetic::div_mod::lemma_small_mod((acc + p) as nat, m);
    }
}

/// The checksum of the block, read byte by byte.
pub fn block_checksum(block: &Vec<u8>) -> (c: u64)
    ensures
        c == checksum(block@),
{
    let n = block.len();
    let mut check: u64 = 0;
    let mut i: usize = 0;
    while i < n
        invariant
            n == block.len(),
            i <= n,
            check == checksum(block@.take(i as int)),
        decreases n - i,
    {
        let byte = block[i];
        let k = (i as u64) + 1;
        proof {
            lemma_wrapping_sum_step(check, weighted_sum(block@.take(i as int)), byte, k);
            assert(block@.take(i + 1).drop_last() =~= block@.take(i as int));
        }
        check = check.wrapping_add((byte as u64).wrapping_mul(k));
        i = i + 1;
    }
    assert(block@.take(n as int) =~= block@);
    check
}

/// The bytes of a block that `fill_random` fills from generator state `s`.
pub open spec fn random_image(s: u64, n: nat) -> Seq<u8> {
    Seq::new(n, |i: int| random_byte(s, i as nat))
}

/// The bytes of block `idx` after its pattern fill.
pub open spec fn pattern_image(idx: nat, n: nat) -> Seq<u8> {
    Seq::new(n, |i: int| pattern_byte(chunk_pattern(idx), i as nat))
}

/// How many bytes of the block differ from the random fill that generator
/// state `s` produces.
pub open spec fn mismatches(block: Seq<u8>, s: u64) -> nat
    decreases block.len(),
{
    if block.len() == 0 {
        0
    } else {
        mismatches(block.drop_last(), s) + if block.last() != random_byte(s, (block.len() - 1) as nat) {
            1nat
        } else {
            0nat
        }
    }
}

proof fn lemma_mismatches_bound(block: Seq<u8>, s: u64)
    ensures
        mismatches(block, s) <= block.len(),
    decreases block.len(),
{
    if block.len() > 0 {
        lemma_mismatches_bound(block.drop_last(), s);
    }
}

/// A block read back just as the random fill wrote it has no mismatch.
pub proof fn lemma_fresh_block_matches(s: u64, n: nat)
    ensures
        mismatches(random_image(s, n), s) == 0,
    decreases n,
{
    if n > 0 {
        assert(random_image(s, n).drop_last() =~= random_image(s, (n - 1) as nat));
        lemma_fresh_block_matches(s, (n - 1) as nat);
    }
}

/// Verifies the block against the values written into it: draws from
/// `expected` (a copy of the generator as it stood before the block was
/// filled) the byte each offset should hold, and counts the offsets whose
/// byte differs.
pub fn count_mismatches(block: &Vec<u8>, expected: &mut SimpleRng) -> (errors: u64)
    ensures
        errors == mismatches(block@, old(expected)@),
        final(expected)@ == lcg_iter(old(expected)@, block.len() as nat),
{
    let n = block.len();
    let ghost s0 = expected@;
    let mut errors: u64 = 0;
    let mut i: usize = 0;
    while i < n
        invariant
            n == block.len(),
            i <= n,
            expected@ == lcg_iter(s0, i as nat),
            errors == mismatches(block@.take(i as int), s0),
        decreases n - i,
    {
        let byte = block[i];
        let want = expected.gen_u64() as u8;
        proof {
            assert(block@.take(i + 1).drop_last() =~= block@.take(i as int));
            lemma_mismatches_bound(block@.take(i as int), s0);
        }
        if byte != want {
            errors = errors + 1;
        }
        i = i + 1;
    }
    assert(block@.take(n as int) =~= block@);
    errors
}

/// Every byte of `s` complemented.
pub open spec fn complement(s: Seq<u8>) -> Seq<u8> {
    Seq::new(s.len(), |i: int| !s[i])
}

/// Complementing a block twice gives it back: the bit-flip pass toggles
/// every bit and nothing else.
pub proof fn lemma_complement_twice(s: Seq<u8>)
    ensures
        complement(complement(s)) == s,
{
    assert forall|i: int| 0 <= i < s.len() implies complement(complement(s))[i] == s[i] by {
        let b = s[i];
        assert(!(!b) == b) by (bit_vector);
    }
    assert(complement(complement(s)) =~= s);
}

/// In the checkerboard patterns neighbouring bytes are complements of each
/// other, and the two checkerboards are complements of each other, so every
/// bit is written both ways.
pub proof fn lemma_checkerboards(i: nat)
    ensures
        pattern_byte(0xAA, i + 1) == !pattern_byte(0xAA, i),
        pattern_byte(0x55, i + 1) == !pattern_byte(0x55, i),
        pattern_byte(0x55, i) == !pattern_byte(0xAA, i),
{
    let a: u8 = 0xAA;
    let b: u8 = 0x55;
    assert(!a == b && !b == a) by (bit_vector)
        requires
            a == 0xAA,
            b == 0x55,
    ;
}

/// Replaces every byte of the block by its complement.
pub fn invert_block(block: &mut Vec<u8>)
    ensures
        final(block)@ == complement(old(block)@),
{
    let n = block.len();
    let mut i: usize = 0;
    while i < n
        invariant
            n == block.len(),
            i <= n,
            forall|j: int| 0 <= j < i ==> #[trigger] block@[j] == !old(block)@[j],
            forall|j: int| i <= j < n ==> #[trigger] block@[j] == old(block)@[j],
        decreases n - i,
    {
        let b = block[i];
        block.set(i, !b);
        i = i + 1;
    }
    assert(block@ =~= complement(old(block)@));
}

/// Sets every byte of the block to zero.
pub fn zero_block(block: &mut Vec<u8>)
    ensures
        final(block).len() == old(block).len(),
        forall|i: int| 0 <= i < final(block).len() ==> #[trigger] final(block)@[i] == 0,
{
    let n = block.len();
    let mut i: usize = 0;
    while i < n
        invariant
            n == block.len(),
            i <= n,
            forall|j: int| 0 <= j < i ==> #[trigger] block@[j] == 0,
        decreases n - i,
    {
        block.set(i, 0);
        i = i + 1;
    }
}

/// Reads the flag that tells the workers to keep going. Another thread may
/// clear it at any moment, so nothing is known of what this read returns.
fn still_running(running: &AtomicBool) -> bool {
    running.load(Ordering::Relaxed)
}

/// The state of the memory worker between iterations.
pub struct MemoryStress {
    chunk_count: usize,
    rng: SimpleRng,
    total_errors: u64,
    iteration: u64,
}

/// The generator state after filling `k` blocks from state `s`.
pub open spec fn after_blocks(s: u64, k: nat) -> u64 {
    lcg_iter(s, k * CHUNK_SIZE as nat)
}

/// What a memory stress iteration leaves behind: same block count, the
/// generator advanced over some number `k` of whole blocks, at most all of
/// them (`k` is the number of blocks filled before the running flag read
/// false; the flag is read by `run_iteration` and the decision is taken by
/// `MemoryStress::fill_next_block`), no new mismatch, one more iteration.
pub open spec fn iteration_outcome(before: (usize, u64, u64, u64), after: (usize, u64, u64, u64)) -> bool {
    &&& after.0 == before.0
    &&& exists|k: nat| k <= before.0 && after.1 == #[trigger] after_blocks(before.1, k)
    &&& after.2 == before.2
    &&& after.3 == vstd::wrapping::u64_specs::wrapping_add(before.3, 1)
}

/// Allocates block `idx` and writes its pattern over it.
pub fn new_pattern_block(idx: usize) -> (block: Vec<u8>)
    ensures
        block@ == pattern_image(idx as nat, CHUNK_SIZE as nat),
{
    let mut block = vec![0u8; CHUNK_SIZE];
    fill_pattern(&mut block, pattern_for_chunk(idx));
    assert(block@ =~= pattern_image(idx as nat, CHUNK_SIZE as nat));
    block
}

/// Checksums block `idx` and counts its bytes that differ from the next
/// draws of `expected`, when the run goes on and `idx` is a block: returns
/// (checksum, mismatches). Otherwise returns `None` and draws nothing.
pub fn check_block(blocks: &Vec<Vec<u8>>, idx: usize, expected: &mut SimpleRng, keep_going: bool) -> (r: Option<(u64, u64)>)
    ensures
        (keep_going && idx < blocks.len()) ==> r == Some(
            (
                checksum(blocks.deep_view()[idx as int]),
                mismatches(blocks.deep_view()[idx as int], old(expected)@) as u64,
            ),
        ) && final(expected)@ == lcg_iter(
            old(expected)@,
            blocks.deep_view()[idx as int].len(),
        ),
        !(keep_going && idx < blocks.len()) ==> r is None && final(expected)@ == old(expected)@,
{
    if !keep_going || idx >= blocks.len() {
        return None;
    }
    let block = &blocks[idx];
    assert(block.deep_view() =~= block@);
    let check = block_checksum(block);
    let errors = count_mismatches(block, expected);
    Some((check, errors))
}

/// Complements every byte of block `idx`, when the run goes on and `idx` is
/// a block; otherwise changes nothing. Returns whether it did.
pub fn invert_block_at(blocks: &mut Vec<Vec<u8>>, idx: usize, keep_going: bool) -> (done: bool)
    ensures
        done == (keep_going && idx < old(blocks).len()),
        final(blocks).len() == old(blocks).len(),
        done ==> final(blocks).deep_view() == old(blocks).deep_view().update(
            idx as int,
            complement(old(blocks).deep_view()[idx as int]),
        ),
        !done ==> final(blocks).deep_view() == old(blocks).deep_view(),
{
    if !keep_going || idx >= blocks.len() {
        return false;
    }
    let ghost before = blocks@;
    let ghost before_dv = blocks.deep_view();
    assert(before[idx as int].deep_view() =~= before[idx as int]@);
    invert_block(&mut blocks[idx]);
    assert(blocks[idx as int].deep_view() =~= blocks[idx as int]@);
    assert forall|j: int| 0 <= j < blocks.len() && j != idx implies blocks[j] == before[j] by {}
    assert(blocks.deep_view() =~= before_dv.update(idx as int, complement(before_dv[idx as int])));
    true
}

/// Zeroes every byte of block `idx`, when the run goes on and `idx` is a
/// block; otherwise changes nothing. Returns whether it did.
pub fn zero_block_at(blocks: &mut Vec<Vec<u8>>, idx: usize, keep_going: bool) -> (done: bool)
    ensures
        done == (keep_going && idx < old(blocks).len()),
        final(blocks).len() == old(blocks).len(),
        done ==> final(blocks).deep_view() == old(blocks).deep_view().update(
            idx as int,
            Seq::new(old(blocks).deep_view()[idx as int].len(), |i: int| 0u8),
        ),
        !done ==> final(blocks).deep_view() == old(blocks).deep_view(),
{
    if !keep_going || idx >= blocks.len() {
        return false;
    }
    let ghost before = blocks@;
    let ghost before_dv = blocks.deep_view();
    zero_block(&mut blocks[idx]);
    assert(blocks[idx as int].deep_view() =~= Seq::new(before_dv[idx as int].len(), |i: int| 0u8));
    assert forall|j: int| 0 <= j < blocks.len() && j != idx implies blocks[j] == before[j] by {}
    assert(blocks.deep_view() =~= before_dv.update(
        idx as int,
        Seq::new(before_dv[idx as int].len(), |i: int| 0u8),
    ));
    true
}

impl MemoryStress {
    /// How many blocks of `CHUNK_SIZE` bytes one iteration allocates.
    pub closed spec fn chunks(&self) -> usize {
        self.chunk_count
    }

    /// The state of the generator that fills the blocks.
    pub closed spec fn rng_state(&self) -> u64 {
        self.rng@
    }

    /// Mismatches found so far.
    pub closed spec fn errors(&self) -> u64 {
        self.total_errors
    }

    /// Iterations started so far, modulo `2^64`.
    pub closed spec fn iterations(&self) -> u64 {
        self.iteration
    }

    /// (chunks, generator state, errors, iterations).
    pub open spec fn summary(&self) -> (usize, u64, u64, u64) {
        (self.chunks(), self.rng_state(), self.errors(), self.iterations())
    }

    /// A worker that cycles through `mb` megabytes, with its generator seeded
    /// from `mb`. `None` when `mb` MiB do not fit in a `usize`.
    pub fn new(mb: usize) -> (r: Option<MemoryStress>)
        ensures
            r is None <==> mb as nat * CHUNK_SIZE as nat > usize::MAX,
            r matches Some(m) ==> m.chunks() == mb && m.rng_state() == crate::rng::seeded_state(
                MEMORY_SEED ^ (mb as u64),
            ) && m.errors() == 0 && m.iterations() == 0,
    {
        match mb.checked_mul(CHUNK_SIZE) {
            None => None,
            Some(size) => {
                let chunk_count = size / CHUNK_SIZE;
                assert(chunk_count == mb) by (nonlinear_arith)
                    requires
                        size == mb * CHUNK_SIZE,
                        chunk_count == size / CHUNK_SIZE,
                        CHUNK_SIZE > 0,
                ;
                Some(
                    MemoryStress {
                        chunk_count,
                        rng: SimpleRng::new(MEMORY_SEED ^ (mb as u64)),
                        total_errors: 0,
                        iteration: 0,
                    },
                )
            },
        }
    }

    /// Mismatches found so far.
    pub fn total_errors(&self) -> (e: u64)
        ensures
            e == self.errors(),
    {
        self.total_errors
    }

    /// Iterations started so far.
    pub fn iteration(&self) -> (i: u64)
        ensures
            i == self.iterations(),
    {
        self.iteration
    }

    /// Allocates the next block with its pattern (`new_pattern_block`) and
    /// then overwrites it with the next `CHUNK_SIZE` draws of the generator,
    /// when the run goes on and fewer than `chunks()` blocks are allocated;
    /// otherwise changes nothing. Returns whether it filled a block.
    pub fn fill_next_block(&mut self, blocks: &mut Vec<Vec<u8>>, keep_going: bool) -> (filled: bool)
        ensures
            filled == (keep_going && old(blocks).len() < old(self).chunks()),
            final(blocks).len() == old(blocks).len() + if filled {
                1int
            } else {
                0int
            },
            filled ==> final(blocks).deep_view() == old(blocks).deep_view().push(
                random_image(old(self).rng_state(), CHUNK_SIZE as nat),
            ) && final(self).rng_state() == after_blocks(old(self).rng_state(), 1),
            !filled ==> final(blocks).deep_view() == old(blocks).deep_view()
                && final(self).rng_state() == old(self).rng_state(),
            final(self).chunks() == old(self).chunks(),
            final(self).errors() == old(self).errors(),
            final(self).iterations() == old(self).iterations(),
    {
        if !keep_going || blocks.len() >= self.chunk_count {
            return false;
        }
        let mut block = new_pattern_block(blocks.len());
        fill_random(&mut block, &mut self.rng);
        assert(block@ =~= random_image(old(self).rng@, CHUNK_SIZE as nat));
        let ghost before = blocks@;
        let ghost before_dv = blocks.deep_view();
        blocks.push(block);
        assert(blocks@ == before.push(block));
        assert(block.deep_view() =~= block@);
        assert(blocks.deep_view() =~= before_dv.push(block@));
        true
    }

    /// One pass of the memory test: fill block after block (pattern, then
    /// random bytes); then checksum every block and verify it against the
    /// bytes written, counting the mismatches into the error total; then
    /// complement every byte; then zero every byte; then free the blocks.
    /// Before each block of each phase the running flag is read, and the
    /// step functions end the phase when it reads false. Returns whether
    /// this iteration is one to report on (every `REPORT_EVERY`-th).
    pub fn run_iteration(&mut self, running: &AtomicBool) -> (report: bool)
        ensures
            iteration_outcome(old(self).summary(), final(self).summary()),
            report == (final(self).iterations() % REPORT_EVERY == 0),
    {
        self.iteration = self.iteration.wrapping_add(1);
        let ghost s0 = self.rng@;
        let ghost it = self.iteration;
        let mut expected = self.rng;
        let mut blocks: Vec<Vec<u8>> = Vec::with_capacity(self.chunk_count);
        loop
            invariant
                blocks.len() <= self.chunk_count,
                self.chunk_count == old(self).chunk_count,
                self.total_errors == old(self).total_errors,
                self.iteration == it,
                self.rng@ == after_blocks(s0, blocks.len() as nat),
                forall|j: int| 0 <= j < blocks.len() ==> #[trigger] blocks.deep_view()[j] == random_image(
                    after_blocks(s0, j as nat),
                    CHUNK_SIZE as nat,
                ),
            decreases self.chunk_count - blocks.len(),
        {
            let go = still_running(running);
            let ghost k = blocks.len() as nat;
            let ghost before = blocks.deep_view();
            if !self.fill_next_block(&mut blocks, go) {
                break;
            }
            proof {
                lemma_lcg_iter_add(s0, k * CHUNK_SIZE as nat, CHUNK_SIZE as nat);
                assert(k * CHUNK_SIZE as nat + CHUNK_SIZE as nat == (k + 1) * CHUNK_SIZE as nat)
                    by (nonlinear_arith);
                assert forall|j: int| 0 <= j < blocks.len() implies #[trigger] blocks.deep_view()[j]
                    == random_image(after_blocks(s0, j as nat), CHUNK_SIZE as nat) by {
                    if j < k {
                        assert(blocks.deep_view()[j] == before[j]);
                    }
                }
            }
        }
        let ghost filled = blocks.len() as nat;

        let mut b: usize = 0;
        loop
            invariant
                b <= blocks.len(),
                blocks.len() == filled,
                filled <= self.chunk_count,
                self.chunk_count == old(self).chunk_count,
                self.rng@ == after_blocks(s0, filled),
                self.iteration == it,
                self.total_errors == old(self).total_errors,
                expected@ == after_blocks(s0, b as nat),
                forall|j: int| 0 <= j < blocks.len() ==> #[trigger] blocks.deep_view()[j] == random_image(
                    after_blocks(s0, j as nat),
                    CHUNK_SIZE as nat,
                ),
            decreases blocks.len() - b,
        {
            let go = still_running(running);
            match check_block(&blocks, b, &mut expected, go) {
                None => {
                    break;
                },
                Some(result) => {
                    let errors = result.1;
                    proof {
                        lemma_fresh_block_matches(after_blocks(s0, b as nat), CHUNK_SIZE as nat);
                        lemma_lcg_iter_add(s0, b as nat * CHUNK_SIZE as nat, CHUNK_SIZE as nat);
                        assert(b as nat * CHUNK_SIZE as nat + CHUNK_SIZE as nat == (b as nat + 1)
                            * CHUNK_SIZE as nat) by (nonlinear_arith);
                    }
                    self.total_errors = self.total_errors + errors;
                    b = b + 1;
                },
            }
        }

        let mut b: usize = 0;
        loop
            invariant
                b <= blocks.len(),
                blocks.len() == filled,
                filled <= self.chunk_count,
                self.chunk_count == old(self).chunk_count,
                self.rng@ == after_blocks(s0, filled),
                self.iteration == it,
                self.total_errors == old(self).total_errors,
            decreases blocks.len() - b,
        {
            let go = still_running(running);
            if !invert_block_at(&mut blocks, b, go) {
                break;
            }
            b = b + 1;
        }

        let mut b: usize = 0;
        loop
            invariant
                b <= blocks.len(),
                blocks.len() == filled,
                filled <= self.chunk_count,
                self.chunk_count == old(self).chunk_count,
                self.rng@ == after_blocks(s0, filled),
                self.iteration == it,
                self.total_errors == old(self).total_errors,
            decreases blocks.len() - b,
        {
            let go = still_running(running);
            if !zero_block_at(&mut blocks, b, go) {
                break;
            }
            b = b + 1;
        }
        blocks.clear();
        assert(self.summary().1 == after_blocks(old(self).summary().1, filled));
        self.iteration % REPORT_EVERY == 0
    }
}

proof fn lemma_lcg_iter_add(s: u64, a: nat, b: nat)
    ensures
        lcg_iter(lcg_iter(s, a), b) == lcg_iter(s, a + b),
    decreases b,
{
    if b > 0 {
        lemma_lcg_iter_add(s, a, (b - 1) as nat);
    }
}

/// What a pattern fill writes: the checkerboards 0xAA and 0x55 alternate
/// with their complement starting with the pattern itself; every other
/// pattern is written unchanged at every offset.
pub proof fn lemma_pattern_bytes(p: u8, i: nat)
    ensures
        (p == 0xAA || p == 0x55) ==> pattern_byte(p, i) == (if i % 2 == 0 {
            p
        } else {
            !p
        }),
        (p != 0xAA && p != 0x55) ==> pattern_byte(p, i) == p,
{
}

/// The bytes of the pattern blocks, by block index modulo 4: 0xAA/0x55
/// alternating, 0x55/0xAA alternating, all 0xFF, all 0x00.
pub proof fn lemma_block_patterns(idx: nat, n: nat, i: int)
    requires
        0 <= i < n,
    ensures
        idx % 4 == 0 ==> pattern_image(idx, n)[i] == (if i % 2 == 0 {
            0xAAu8
        } else {
            0x55u8
        }),
        idx % 4 == 1 ==> pattern_image(idx, n)[i] == (if i % 2 == 0 {
            0x55u8
        } else {
            0xAAu8
        }),
        idx % 4 == 2 ==> pattern_image(idx, n)[i] == 0xFFu8,
        idx % 4 == 3 ==> pattern_image(idx, n)[i] == 0x00u8,
{
    let a: u8 = 0xAA;
    let b: u8 = 0x55;
    assert(!a == b && !b == a) by (bit_vector)
        requires
            a == 0xAA,
            b == 0x55,
    ;
}

/// The random byte at offset `i` is the low 8 bits of the `i + 1`-th draw.
pub proof fn lemma_random_byte_low_bits(s: u64, i: nat)
    ensures
        random_byte(s, i) as nat == lcg_iter(s, i + 1) as nat % 256,
{
    let x = lcg_iter(s, i + 1);
    assert(x as u8 == x % 256) by (bit_vector);
}

/// Appending a byte `b` to a block adds `b` times its 1-based offset to the
/// checksum, modulo `2^64`.
pub proof fn lemma_checksum_push(s: Seq<u8>, b: u8)
    ensures
        checksum(s.push(b)) as nat == (checksum(s) as nat + b as nat * (s.len() + 1))
            % 0x1_0000_0000_0000_0000nat,
        checksum(Seq::<u8>::empty()) == 0,
{
    let m = 0x1_0000_0000_0000_0000nat;
    assert(s.push(b).drop_last() =~= s);
    let w = weighted_sum(s);
    vstd::arithmetic::div_mod::lemma_add_mod_noop(w as int, (b as nat * (s.len() + 1)) as int, m as int);
    vstd::arithmetic::div_mod::lemma_mod_bound((b as nat * (s.len() + 1)) as int, m as int);
    vstd::arithmetic::div_mod::lemma_mod_bound(w as int, m as int);
    vstd::arithmetic::div_mod::lemma_mod_twice((b as nat * (s.len() + 1)) as int, m as int);
    vstd::arithmetic::div_mod::lemma_add_mod_noop(
        (w % m) as int,
        (b as nat * (s.len() + 1)) as int,
        m as int,
    );
}

} // verus!
