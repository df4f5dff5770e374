//! SplitMix64, a small deterministic generator.
use vstd::arithmetic::div_mod::{
    lemma_mod_multiples_vanish, lemma_mul_mod_noop_left, lemma_mul_mod_noop_right, lemma_small_mod,
};
use vstd::prelude::*;

verus! {

pub const GAMMA: u64 = 0x9E37_79B9_7F4A_7C15;

/// The output that SplitMix64 gives for an (already advanced) internal state.
pub open spec fn mixed(s: u64) -> u64 {
    let a = (s ^ (s >> 30)).wrapping_mul(0xBF58_476D_1CE4_E5B9);
    let b = (a ^ (a >> 27)).wrapping_mul(0x94D0_49BB_1331_11EB);
    b ^ (b >> 31)
}

/// The internal state after `n` outputs.
pub open spec fn advanced(seed: u64, n: nat) -> u64
    decreases n,
{
    if n == 0 {
        seed
    } else {
        advanced(seed, (n - 1) as nat).wrapping_add(GAMMA)
    }
}

/// The `n`-th output for a seed, counted from zero.
pub open spec fn output(seed: u64, n: nat) -> u64 {
    mixed(advanced(seed, n + 1))
}

#[derive(Clone, Copy)]
pub struct Rng(pub u64);

impl Rng {
    pub fn next_u64(&mut self) -> (r: u64)
        ensures
            final(self).0 == old(self).0.wrapping_add(GAMMA),
            r == mixed(final(self).0),
    {
        self.0 = self.0.wrapping_add(GAMMA);
        let mut z = self.0;
        z = (z ^ (z >> 30)).wrapping_mul(0xBF58_476D_1CE4_E5B9);
        z = (z ^ (z >> 27)).wrapping_mul(0x94D0_49BB_1331_11EB);
        z ^ (z >> 31)
    }

    /// A number below `n`.
    pub fn below(&mut self, n: u32) -> (r: u32)
        requires
            n > 0,
        ensures
            final(self).0 == old(self).0.wrapping_add(GAMMA),
            r == mixed(final(self).0) % (n as u64),
            r < n,
    {
        (self.next_u64() % n as u64) as u32
    }
}

// ---------------------------------------------------------------- outputs differ

/// The number of values of a word.
pub open spec fn word_range() -> int {
    0x1_0000_0000_0000_0000
}

/// Multiplying by `c` is undone by multiplying by its inverse.
proof fn lemma_multiplication_undone(x: int, c: int, inverse: int)
    requires
        0 <= x < word_range(),
        c * inverse % word_range() == 1,
    ensures
        (x * c % word_range()) * inverse % word_range() == x,
{
    let m = word_range();
    lemma_mul_mod_noop_left(x * c, inverse, m);
    assert(x * c * inverse == x * (c * inverse)) by (nonlinear_arith);
    lemma_mul_mod_noop_right(x, c * inverse, m);
    lemma_small_mod(x as nat, m as nat);
}

/// Different internal states give different outputs.
pub proof fn law_mixing_is_injective(a: u64, b: u64)
    requires
        mixed(a) == mixed(b),
    ensures
        a == b,
{
    let a0 = a ^ (a >> 30);
    let b0 = b ^ (b >> 30);
    let a1 = a0.wrapping_mul(0xBF58_476D_1CE4_E5B9);
    let b1 = b0.wrapping_mul(0xBF58_476D_1CE4_E5B9);
    let a2 = a1 ^ (a1 >> 27);
    let b2 = b1 ^ (b1 >> 27);
    let a3 = a2.wrapping_mul(0x94D0_49BB_1331_11EB);
    let b3 = b2.wrapping_mul(0x94D0_49BB_1331_11EB);
    assert(a3 ^ (a3 >> 31) == b3 ^ (b3 >> 31) ==> a3 == b3) by (bit_vector);
    lemma_multiplication_undone(a2 as int, 0x94D0_49BB_1331_11EB, 0x3196_42B2_D24D_8EC3);
    lemma_multiplication_undone(b2 as int, 0x94D0_49BB_1331_11EB, 0x3196_42B2_D24D_8EC3);
    assert(a1 ^ (a1 >> 27) == b1 ^ (b1 >> 27) ==> a1 == b1) by (bit_vector);
    lemma_multiplication_undone(a0 as int, 0xBF58_476D_1CE4_E5B9, 0x96DE_1B17_3F11_9089);
    lemma_multiplication_undone(b0 as int, 0xBF58_476D_1CE4_E5B9, 0x96DE_1B17_3F11_9089);
    assert(a ^ (a >> 30) == b ^ (b >> 30) ==> a == b) by (bit_vector);
}

pub proof fn lemma_advanced(seed: u64, n: nat)
    ensures
        advanced(seed, n) == (seed + n * GAMMA) % word_range(),
    decreases n,
{
    let m = word_range();
    if n == 0 {
        lemma_small_mod(seed as nat, m as nat);
    } else {
        let k = (n - 1) as nat;
        lemma_advanced(seed, k);
        let x = seed + k * GAMMA;
        assert(n * GAMMA == k * GAMMA + GAMMA) by (nonlinear_arith)
            requires
                n == k + 1,
        ;
        let s = advanced(seed, k) + GAMMA;
        assert(x == m * (x / m) + x % m);
        lemma_mod_multiples_vanish(x / m, s, m);
        if s < m {
            lemma_small_mod(s as nat, m as nat);
        } else {
            lemma_mod_multiples_vanish(1, s - m, m);
            lemma_small_mod((s - m) as nat, m as nat);
        }
    }
}

/// No output comes twice before the generator has run through all of its states.
pub proof fn law_outputs_differ(seed: u64, i: nat, j: nat)
    requires
        i != j,
        i + 1 < word_range(),
        j + 1 < word_range(),
    ensures
        output(seed, i) != output(seed, j),
{
    if output(seed, i) == output(seed, j) {
        let x = i as int + 1;
        let y = j as int + 1;
        law_mixing_is_injective(advanced(seed, i + 1), advanced(seed, j + 1));
        lemma_advanced(seed, i + 1);
        lemma_advanced(seed, j + 1);
        lemma_unshifted(seed as int, x * GAMMA, y * GAMMA);
        lemma_multiplication_undone(x, GAMMA as int, 0xF1DE_83E1_9937_733D);
        lemma_multiplication_undone(y, GAMMA as int, 0xF1DE_83E1_9937_733D);
    }
}

proof fn lemma_unshifted(s: int, a: int, b: int)
    requires
        (s + a) % word_range() == (s + b) % word_range(),
    ensures
        a % word_range() == b % word_range(),
{
    let m = word_range();
    let k = (s + a) / m - (s + b) / m;
    assert(s + a == m * ((s + a) / m) + (s + a) % m);
    assert(s + b == m * ((s + b) / m) + (s + b) % m);
    assert(m * k == m * ((s + a) / m) - m * ((s + b) / m)) by (nonlinear_arith)
        requires
            k == (s + a) / m - (s + b) / m,
    ;
    lemma_mod_multiples_vanish(k, b, m);
}

} // verus!
