//! Seeded pseudo-random words for uniform noise (a 64-bit linear congruential generator).

use vstd::prelude::*;

verus! {

/// Multiplier of the generator.
pub const LCG_MUL: u64 = 6364136223846793005;

/// Increment of the generator.
pub const LCG_INC: u64 = 1442695040888963407;

/// One generator step: `state * LCG_MUL + LCG_INC` modulo 2^64.
pub open spec fn lcg_next(state: u64) -> u64 {
    ((state as int * LCG_MUL as int + LCG_INC as int) % 0x1_0000_0000_0000_0000) as u64
}

/// The generator state after `k` steps from `seed`.
pub open spec fn lcg_state(seed: u64, k: nat) -> u64
    decreases k,
{
    if k == 0 {
        seed
    } else {
        lcg_next(lcg_state(seed, (k - 1) as nat))
    }
}

/// The noise word drawn from a state: its top 31 bits.
pub open spec fn word_of(state: u64) -> u32 {
    (state as int / 0x2_0000_0000) as u32
}

/// The generator is the 64-bit linear congruential generator with multiplier
/// 6364136223846793005 and increment 1442695040888963407, each step depends only on the
/// previous state, and each noise word is the state's top 31 bits (below 2^31).
pub proof fn generator_law(seed: u64, k: nat)
    ensures
        lcg_state(seed, 0) == seed,
        lcg_state(seed, k + 1) as int == (lcg_state(seed, k) as int * 6364136223846793005
            + 1442695040888963407) % 0x1_0000_0000_0000_0000,
        word_of(lcg_state(seed, k)) as int == lcg_state(seed, k) as int / 0x2_0000_0000,
        word_of(lcg_state(seed, k)) < 0x8000_0000,
{
    let st = lcg_state(seed, k);
    assert(st as int / 0x2_0000_0000 < 0x8000_0000) by (nonlinear_arith)
        requires
            0 <= st < 0x1_0000_0000_0000_0000,
    ;
    assert(0 <= st as int / 0x2_0000_0000) by (nonlinear_arith)
        requires
            0 <= st,
    ;
    let n = (st as int * 6364136223846793005 + 1442695040888963407) % 0x1_0000_0000_0000_0000;
    assert(0 <= n < 0x1_0000_0000_0000_0000) by (nonlinear_arith)
        requires
            n == (st as int * 6364136223846793005 + 1442695040888963407) % 0x1_0000_0000_0000_0000,
    ;
}

/// One step of the generator.
pub fn lcg_step(state: u64) -> (next: u64)
    ensures
        next == lcg_next(state),
        next as int == (state as int * 6364136223846793005 + 1442695040888963407) % 0x1_0000_0000_0000_0000,
{
    let m = state.wrapping_mul(LCG_MUL);
    let next = m.wrapping_add(LCG_INC);
    proof {
        let modulus: int = 0x1_0000_0000_0000_0000;
        let p: int = state as int * LCG_MUL as int;
        assert(m as int == p % modulus);
        vstd::arithmetic::div_mod::lemma_add_mod_noop(p, LCG_INC as int, modulus);
        vstd::arithmetic::div_mod::lemma_small_mod(LCG_INC as nat, modulus as nat);
        vstd::arithmetic::div_mod::lemma_mod_bound(p, modulus);
        if m as int + LCG_INC as int > u64::MAX as int {
            vstd::arithmetic::div_mod::lemma_fundamental_div_mod_converse(
                m as int + LCG_INC as int,
                modulus,
                1,
                m as int + LCG_INC as int - modulus,
            );
        } else {
            vstd::arithmetic::div_mod::lemma_small_mod(
                (m as int + LCG_INC as int) as nat,
                modulus as nat,
            );
        }
    }
    next
}

/// The first `count` noise words from `seed`: word `k` is the top 31 bits of the
/// state after `k + 1` steps. Each word is below 2^31.
pub fn noise_words(seed: u64, count: usize) -> (words: Vec<u32>)
    ensures
        words@.len() == count,
        forall|k: int| 0 <= k < count ==> #[trigger] words@[k] == word_of(lcg_state(seed, (k + 1) as nat)),
        forall|k: int| 0 <= k < count ==> #[trigger] words@[k] < 0x8000_0000,
{
    let mut words: Vec<u32> = Vec::new();
    let mut state = seed;
    let mut i: usize = 0;
    while i < count
        invariant
            i <= count,
            words@.len() == i,
            state == lcg_state(seed, i as nat),
            forall|k: int| 0 <= k < i ==> #[trigger] words@[k] == word_of(lcg_state(seed, (k + 1) as nat)),
            forall|k: int| 0 <= k < i ==> #[trigger] words@[k] < 0x8000_0000,
        decreases count - i,
    {
        state = lcg_step(state);
        let w = state >> 33;
        assert(w == state as int / 0x2_0000_0000 && w < 0x8000_0000) by (bit_vector)
            requires
                w == state >> 33,
        ;
        words.push(w as u32);
        i = i + 1;
    }
    words
}

} // verus!
