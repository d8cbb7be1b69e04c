//! The pseudo-random sequence the Zobrist keys of both boards are drawn from.
use vstd::prelude::*;

verus! {

/// Seed of the key sequence.
pub const KEY_SEED: u64 = 0x12345678_DEADBEEF;

/// One step of the xorshift64 generator.
pub open spec fn xorshift_step(x: u64) -> u64 {
    let a = x ^ (x << 13u64);
    let b = a ^ (a >> 7u64);
    b ^ (b << 17u64)
}

/// The generator state after `n` steps from `KEY_SEED`; for `n >= 1` this is
/// the `n`-th key drawn.
pub open spec fn key_seq(n: nat) -> u64
    decreases n,
{
    if n == 0 {
        KEY_SEED
    } else {
        xorshift_step(key_seq((n - 1) as nat))
    }
}

/// A step of the generator from a nonzero state gives a nonzero state.
pub proof fn lemma_step_nonzero(x: u64)
    requires
        x != 0,
    ensures
        xorshift_step(x) != 0,
{
    let a = x ^ (x << 13u64);
    let b = a ^ (a >> 7u64);
    assert(a != 0) by (bit_vector)
        requires
            x != 0,
            a == x ^ (x << 13u64),
    ;
    assert(b != 0) by (bit_vector)
        requires
            a != 0,
            b == a ^ (a >> 7u64),
    ;
    assert(b ^ (b << 17u64) != 0) by (bit_vector)
        requires
            b != 0,
    ;
}

/// Every state of the key sequence, and so every key drawn from it, is
/// nonzero.
pub proof fn lemma_keys_nonzero(n: nat)
    ensures
        key_seq(n) != 0,
    decreases n,
{
    if n > 0 {
        lemma_keys_nonzero((n - 1) as nat);
        lemma_step_nonzero(key_seq((n - 1) as nat));
    }
}

/// Advance the generator and return the new state.
pub fn xorshift64(state: &mut u64) -> (r: u64)
    ensures
        r == xorshift_step(*old(state)),
        *final(state) == r,
{
    let mut x = *state;
    x ^= x << 13u64;
    x ^= x >> 7u64;
    x ^= x << 17u64;
    *state = x;
    x
}

/// XOR with zero changes nothing.
pub proof fn lemma_xor_zero(a: u64)
    ensures
        a ^ 0u64 == a,
{
    assert(a ^ 0u64 == a) by (bit_vector);
}

/// XOR is associative and commutative, and every value is its own inverse.
pub proof fn lemma_xor_laws(a: u64, b: u64, c: u64)
    ensures
        (a ^ b) ^ c == a ^ (b ^ c),
        a ^ b == b ^ a,
        (a ^ b) ^ b == a,
        a ^ a == 0u64,
{
    assert((a ^ b) ^ c == a ^ (b ^ c)) by (bit_vector);
    assert(a ^ b == b ^ a) by (bit_vector);
    assert((a ^ b) ^ b == a) by (bit_vector);
    assert(a ^ a == 0u64) by (bit_vector);
}

/// Moving a key across an XOR chain.
pub proof fn lemma_xor_swap(a: u64, b: u64, c: u64)
    ensures
        (a ^ b) ^ c == (a ^ c) ^ b,
        a ^ c == (a ^ b) ^ (b ^ c),
        ((a ^ b) ^ c) == a ^ (b ^ c),
{
    assert((a ^ b) ^ c == (a ^ c) ^ b) by (bit_vector);
    assert(a ^ c == (a ^ b) ^ (b ^ c)) by (bit_vector);
    assert((a ^ b) ^ c == a ^ (b ^ c)) by (bit_vector);
}

} // verus!
