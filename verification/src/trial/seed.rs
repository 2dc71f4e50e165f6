//! Seeds of the trials.

use vstd::arithmetic::div_mod;
use vstd::prelude::*;

verus! {

/// Multiplier that spreads the seeds of successive trials.
pub const SPREAD: u64 = 0x9E37_79B9_7F4A_7C15;

/// One more than the greatest seed.
pub open spec fn modulus() -> int {
    0x1_0000_0000_0000_0000
}

/// The number that `bytes` spell in base 257, most significant first.
pub open spec fn base_257(bytes: Seq<u8>) -> nat
    decreases bytes.len(),
{
    if bytes.len() == 0 {
        0
    } else {
        base_257(bytes.drop_last()) * 257 + bytes.last() as nat
    }
}

/// Folds the bytes of a random seed into one number.
pub fn fold_seed(bytes: &[u8]) -> (seed: u64)
    ensures
        seed == base_257(bytes@) as int % modulus(),
{
    let mut acc: u64 = 0;
    for i in 0..bytes.len()
        invariant
            acc == base_257(bytes@.take(i as int)) as int % modulus(),
    {
        let b = bytes[i] as u64;
        proof {
            let v = base_257(bytes@.take(i as int)) as int;
            assert(bytes@.take(i + 1).drop_last() =~= bytes@.take(i as int));
            div_mod::lemma_mul_mod_noop_left(v, 257, modulus());
            div_mod::lemma_add_mod_noop(v * 257, b as int, modulus());
            div_mod::lemma_small_mod(b as nat, modulus() as nat);
        }
        acc = acc.wrapping_mul(257).wrapping_add(b);
    }
    assert(bytes@.take(bytes@.len() as int) =~= bytes@);
    acc
}

/// The seed of a trial.
pub fn trial_seed(base: u64, trial: u64) -> (seed: u64)
    ensures
        seed == (base + trial) * SPREAD % modulus(),
{
    proof {
        div_mod::lemma_mul_mod_noop_left(base + trial, SPREAD as int, modulus());
    }
    base.wrapping_add(trial).wrapping_mul(SPREAD)
}

/// What `SPREAD` is undone by.
spec fn unspread() -> int {
    0xF1DE_83E1_9937_733D
}

/// Multiplying by `SPREAD` loses nothing.
proof fn lemma_unspread(x: int)
    ensures
        (x * SPREAD % modulus()) * unspread() % modulus() == x % modulus(),
{
    let q: int = 10771413168148108919;
    div_mod::lemma_mul_mod_noop_left(x * SPREAD, unspread(), modulus());
    assert(x * SPREAD * unspread() == modulus() * (x * q) + x) by {
        assert(SPREAD * unspread() == modulus() * q + 1);
        assert(x * SPREAD * unspread() == x * (SPREAD * unspread())) by (nonlinear_arith);
        assert(x * (modulus() * q + 1) == modulus() * (x * q) + x) by (nonlinear_arith);
    }
    div_mod::lemma_mod_multiples_vanish(x * q, x, modulus());
}

/// Trials with one base have different seeds.
pub proof fn law_trials_have_different_seeds(base: u64, a: u64, b: u64)
    requires
        a != b,
    ensures
        (base + a) * SPREAD % modulus() != (base + b) * SPREAD % modulus(),
{
    if (base + a) * SPREAD % modulus() == (base + b) * SPREAD % modulus() {
        lemma_unspread(base + a);
        lemma_unspread(base + b);
        div_mod::lemma_mod_equivalence(base + a, base + b, modulus());
        if a > b {
            div_mod::lemma_small_mod((a - b) as nat, modulus() as nat);
        } else {
            div_mod::lemma_mod_equivalence(base + b, base + a, modulus());
            div_mod::lemma_small_mod((b - a) as nat, modulus() as nat);
        }
    }
}

/// Seeds are numbers of sixty-four bits.
pub proof fn law_seeds_have_sixty_four_bits()
    ensures
        modulus() == u64::MAX + 1,
{
}

/// A further byte multiplies what the bytes before it spell by 257 and is added
/// to it.
pub proof fn law_bytes_are_folded_in_turn(bytes: Seq<u8>, byte: u8)
    ensures
        base_257(Seq::<u8>::empty()) == 0,
        base_257(bytes.push(byte)) == 257 * base_257(bytes) + byte,
{
    assert(bytes.push(byte).drop_last() =~= bytes);
}

/// The seed of the next trial is further by one fixed step.
pub proof fn law_seeds_of_trials_are_evenly_spread(base: u64, trial: u64)
    requires
        trial < u64::MAX,
    ensures
        (base + trial + 1) * SPREAD % modulus() == ((base + trial) * SPREAD % modulus()
            + 0x9E37_79B9_7F4A_7C15) % 0x1_0000_0000_0000_0000,
{
    let x = (base + trial) * SPREAD;
    assert((base + trial + 1) * SPREAD == x + SPREAD) by (nonlinear_arith)
        requires
            x == (base + trial) * SPREAD,
    ;
    div_mod::lemma_add_mod_noop(x, SPREAD as int, modulus());
    div_mod::lemma_mod_twice(x, modulus());
    div_mod::lemma_add_mod_noop(x % modulus(), SPREAD as int, modulus());
}

} // verus!
