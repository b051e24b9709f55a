//! Accumulation of 64-byte stripes, the inner loop for long inputs.
use vstd::prelude::*;

use crate::primes::{
    PRIME32_1, PRIME32_2, PRIME32_3, PRIME64_1, PRIME64_2, PRIME64_3, PRIME64_4, PRIME64_5,
};
use crate::words::le_u64;

pub mod avx512;

verus! {

/// The accumulators before any stripe has been absorbed.
pub const INITIAL_ACCUMULATORS: [u64; 8] = [
    PRIME32_3,
    PRIME64_1,
    PRIME64_2,
    PRIME64_3,
    PRIME64_4,
    PRIME32_2,
    PRIME64_5,
    PRIME32_1,
];

/// The other lane of the pair that lane `i` belongs to.
pub open spec fn partner(i: int) -> int {
    if i % 2 == 0 {
        i + 1
    } else {
        i - 1
    }
}

/// The low half of a word times its high half.
pub open spec fn halves_product(value: u64) -> u64 {
    ((value % 0x1_0000_0000) * (value / 0x1_0000_0000)) as u64
}

/// Lane `i` after absorbing `stripe` under `secret`: the partner's stripe
/// word is added, and so is the product of the two halves of the lane's own
/// stripe word masked with the secret.
pub open spec fn accumulated_lane(
    acc: Seq<u64>,
    stripe: Seq<u8>,
    secret: Seq<u8>,
    i: int,
) -> u64 {
    acc[i].wrapping_add(le_u64(stripe, 8 * partner(i))).wrapping_add(
        halves_product(le_u64(stripe, 8 * i) ^ le_u64(secret, 8 * i)),
    )
}

/// The accumulators after absorbing one stripe.
pub open spec fn accumulated(acc: Seq<u64>, stripe: Seq<u8>, secret: Seq<u8>) -> Seq<u64> {
    Seq::new(8, |i: int| accumulated_lane(acc, stripe, secret, i))
}

/// One lane after the scramble that ends a block.
pub open spec fn scrambled_lane(lane: u64, key: u64) -> u64 {
    (lane ^ (lane >> 47) ^ key).wrapping_mul(PRIME32_1)
}

/// The accumulators after the scramble that ends a block.
pub open spec fn scrambled(acc: Seq<u64>, secret_end: Seq<u8>) -> Seq<u64> {
    Seq::new(8, |i: int| scrambled_lane(acc[i], le_u64(secret_end, 8 * i)))
}

/// The two operations on the accumulators that may be vectorized.
///
/// Every implementation computes the same functions, so which one a hasher
/// runs on never shows in its results.
pub trait Vector: Copy {
    /// Ends a block by mixing the last stripe of the secret into the
    /// accumulators.
    fn round_scramble(&self, acc: &mut [u64; 8], secret_end: &[u8; 64])
        ensures
            final(acc)@ == scrambled(old(acc)@, secret_end@),
    ;

    /// Absorbs one stripe under one stripe of the secret.
    fn accumulate(&self, acc: &mut [u64; 8], stripe: &[u8; 64], secret: &[u8; 64])
        ensures
            final(acc)@ == accumulated(old(acc)@, stripe@, secret@),
    ;
}

/// The accumulators that a hash starts from.
pub proof fn lemma_initial_accumulators()
    ensures
        INITIAL_ACCUMULATORS@.len() == 8,
        INITIAL_ACCUMULATORS@[0] == 0xC2B2_AE3D,
        INITIAL_ACCUMULATORS@[1] == 0x9E37_79B1_85EB_CA87,
        INITIAL_ACCUMULATORS@[2] == 0xC2B2_AE3D_27D4_EB4F,
        INITIAL_ACCUMULATORS@[3] == 0x1656_67B1_9E37_79F9,
        INITIAL_ACCUMULATORS@[4] == 0x85EB_CA77_C2B2_AE63,
        INITIAL_ACCUMULATORS@[5] == 0x85EB_CA77,
        INITIAL_ACCUMULATORS@[6] == 0x27D4_EB2F_1656_67C5,
        INITIAL_ACCUMULATORS@[7] == 0x9E37_79B1,
{
}

/// What absorbing a stripe does to the two lanes of a pair, modulo 2^64.
///
/// Each lane gains the stripe word of the other lane, and the product of the
/// lower and the upper half of its own stripe word masked with the secret.
pub proof fn lemma_accumulated_pair(acc: Seq<u64>, stripe: Seq<u8>, secret: Seq<u8>, pair: int)
    requires
        0 <= pair < 4,
    ensures
        ({
            let even = le_u64(stripe, 16 * pair);
            let odd = le_u64(stripe, 16 * pair + 8);
            let even_value = even ^ le_u64(secret, 16 * pair);
            let odd_value = odd ^ le_u64(secret, 16 * pair + 8);
            let next = accumulated(acc, stripe, secret);
            &&& next.len() == 8
            &&& next[2 * pair] == (acc[2 * pair] + odd + (even_value & 0xffff_ffff) * (even_value
                >> 32)) % 0x1_0000_0000_0000_0000
            &&& next[2 * pair + 1] == (acc[2 * pair + 1] + even + (odd_value & 0xffff_ffff) * (
            odd_value >> 32)) % 0x1_0000_0000_0000_0000
        }),
{
    let even_value = le_u64(stripe, 16 * pair) ^ le_u64(secret, 16 * pair);
    let odd_value = le_u64(stripe, 16 * pair + 8) ^ le_u64(secret, 16 * pair + 8);
    lemma_halves_product(even_value);
    lemma_halves_product(odd_value);
    assert(8 * (2 * pair) == 16 * pair && 8 * (2 * pair + 1) == 16 * pair + 8);
}

/// The product of the two halves of a word fits a word.
proof fn lemma_halves_product(value: u64)
    ensures
        halves_product(value) == (value & 0xffff_ffff) * (value >> 32),
{
    assert(value & 0xffff_ffff == value % 0x1_0000_0000) by (bit_vector);
    assert(value >> 32 == value / 0x1_0000_0000) by (bit_vector);
    let low = value % 0x1_0000_0000;
    let high = value / 0x1_0000_0000;
    assert(0 <= low * high <= 0xffff_fffe_0000_0001) by (nonlinear_arith)
        requires
            low <= 0xffff_ffff,
            high <= 0xffff_ffff,
    ;
}

/// What the scramble does to each lane: the lane, its own upper 17 bits and
/// the word of the secret are combined by exclusive or, and the result is
/// multiplied by a prime, modulo 2^64.
pub proof fn lemma_scrambled_lanes(acc: Seq<u64>, secret_end: Seq<u8>)
    ensures
        scrambled(acc, secret_end).len() == 8,
        forall|i: int|
            0 <= i < 8 ==> #[trigger] scrambled(acc, secret_end)[i] == ((acc[i] ^ (acc[i] >> 47)
                ^ le_u64(secret_end, 8 * i)) * 0x9E37_79B1) % 0x1_0000_0000_0000_0000,
{
}

/// Multiplying by the prime of the scramble modulo 2^64 loses nothing.
proof fn lemma_prime_product_injective(x: int, y: int)
    requires
        0 <= x < 0x1_0000_0000_0000_0000,
        0 <= y < 0x1_0000_0000_0000_0000,
        (x * 0x9E37_79B1) % 0x1_0000_0000_0000_0000 == (y * 0x9E37_79B1)
            % 0x1_0000_0000_0000_0000,
    ensures
        x == y,
{
    lemma_prime_product_undone(x);
    lemma_prime_product_undone(y);
}

/// The inverse of the prime modulo 2^64 undoes the multiplication.
proof fn lemma_prime_product_undone(x: int)
    requires
        0 <= x < 0x1_0000_0000_0000_0000,
    ensures
        ((x * 0x9E37_79B1) % 0x1_0000_0000_0000_0000 * 0xcfa4_a56b_0e8b_2f51)
            % 0x1_0000_0000_0000_0000 == x,
{
    let wrap: int = 0x1_0000_0000_0000_0000;
    let inverse: int = 0xcfa4_a56b_0e8b_2f51;
    let product = x * 0x9E37_79B1;
    vstd::arithmetic::div_mod::lemma_mul_mod_noop_left(product, inverse, wrap);
    assert(product * inverse == wrap * (x * 2153028908) + x) by (nonlinear_arith)
        requires
            product == x * 0x9E37_79B1,
            inverse == 0xcfa4_a56b_0e8b_2f51,
            wrap == 0x1_0000_0000_0000_0000,
    ;
    vstd::arithmetic::div_mod::lemma_mod_multiples_vanish(x * 2153028908, x, wrap);
    vstd::arithmetic::div_mod::lemma_small_mod(x as nat, wrap as nat);
}

/// The scramble of a lane loses nothing: under one key two lanes that come
/// out alike were alike, and for one lane so were two keys.
pub proof fn lemma_scramble_is_injective(lane: u64, other_lane: u64, key: u64, other_key: u64)
    ensures
        scrambled_lane(lane, key) == scrambled_lane(other_lane, key) ==> lane == other_lane,
        scrambled_lane(lane, key) == scrambled_lane(lane, other_key) ==> key == other_key,
{
    let a = lane ^ (lane >> 47) ^ key;
    let b = other_lane ^ (other_lane >> 47) ^ key;
    let c = lane ^ (lane >> 47) ^ other_key;
    if scrambled_lane(lane, key) == scrambled_lane(other_lane, key) {
        lemma_prime_product_injective(a as int, b as int);
        assert(lane == other_lane) by (bit_vector)
            requires
                lane ^ (lane >> 47) ^ key == other_lane ^ (other_lane >> 47) ^ key,
        ;
    }
    if scrambled_lane(lane, key) == scrambled_lane(lane, other_key) {
        lemma_prime_product_injective(a as int, c as int);
        assert(key == other_key) by (bit_vector)
            requires
                lane ^ (lane >> 47) ^ key == lane ^ (lane >> 47) ^ other_key,
        ;
    }
}

} // verus!
