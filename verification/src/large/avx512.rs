//! Eight lanes at a time.
//!
//! Each step acts on the eight 64-bit lanes of one 512-bit value, in the
//! order in which the AVX-512F instructions of the same shape would be
//! issued. The steps themselves are portable.
use vstd::prelude::*;

use super::{
    accumulated, accumulated_lane, halves_product, partner, scrambled, scrambled_lane, Vector,
};
use crate::primes::PRIME32_1;
use crate::words::{le_u64, read_u64};

verus! {

/// Eight 64-bit lanes.
pub type Lanes = [u64; 8];

/// The eight little-endian words of a stripe.
fn load(stripe: &[u8; 64]) -> (lanes: Lanes)
    ensures
        forall|i: int| 0 <= i < 8 ==> #[trigger] lanes[i] == le_u64(stripe@, 8 * i),
{
    [
        read_u64(stripe, 0),
        read_u64(stripe, 8),
        read_u64(stripe, 16),
        read_u64(stripe, 24),
        read_u64(stripe, 32),
        read_u64(stripe, 40),
        read_u64(stripe, 48),
        read_u64(stripe, 56),
    ]
}

/// The same word in every lane.
fn splat(word: u64) -> (lanes: Lanes)
    ensures
        forall|i: int| 0 <= i < 8 ==> #[trigger] lanes[i] == word,
{
    [word; 8]
}

/// Lane-wise exclusive or.
fn xor(a: Lanes, b: Lanes) -> (lanes: Lanes)
    ensures
        forall|i: int| 0 <= i < 8 ==> #[trigger] lanes[i] == a[i] ^ b[i],
{
    [
        a[0] ^ b[0],
        a[1] ^ b[1],
        a[2] ^ b[2],
        a[3] ^ b[3],
        a[4] ^ b[4],
        a[5] ^ b[5],
        a[6] ^ b[6],
        a[7] ^ b[7],
    ]
}

/// Lane-wise logical shift right.
fn shift_right(a: Lanes, bits: u32) -> (lanes: Lanes)
    requires
        bits < 64,
    ensures
        forall|i: int| 0 <= i < 8 ==> #[trigger] lanes[i] == a[i] >> bits,
{
    [
        a[0] >> bits,
        a[1] >> bits,
        a[2] >> bits,
        a[3] >> bits,
        a[4] >> bits,
        a[5] >> bits,
        a[6] >> bits,
        a[7] >> bits,
    ]
}

/// Lane-wise shift left.
fn shift_left(a: Lanes, bits: u32) -> (lanes: Lanes)
    requires
        bits < 64,
    ensures
        forall|i: int| 0 <= i < 8 ==> #[trigger] lanes[i] == a[i] << bits,
{
    [
        a[0] << bits,
        a[1] << bits,
        a[2] << bits,
        a[3] << bits,
        a[4] << bits,
        a[5] << bits,
        a[6] << bits,
        a[7] << bits,
    ]
}

/// Lane-wise addition that wraps around.
fn wrapping_sum(a: Lanes, b: Lanes) -> (lanes: Lanes)
    ensures
        forall|i: int| 0 <= i < 8 ==> #[trigger] lanes[i] == a[i].wrapping_add(b[i]),
{
    [
        a[0].wrapping_add(b[0]),
        a[1].wrapping_add(b[1]),
        a[2].wrapping_add(b[2]),
        a[3].wrapping_add(b[3]),
        a[4].wrapping_add(b[4]),
        a[5].wrapping_add(b[5]),
        a[6].wrapping_add(b[6]),
        a[7].wrapping_add(b[7]),
    ]
}

/// The product of two low halves.
fn low_halves_product(a: u64, b: u64) -> (product: u64)
    ensures
        product == (a % 0x1_0000_0000) * (b % 0x1_0000_0000),
{
    let low_a: u64 = a % 0x1_0000_0000;
    let low_b: u64 = b % 0x1_0000_0000;
    assert(low_a * low_b <= 0xffff_fffe_0000_0001) by (nonlinear_arith)
        requires
            low_a <= 0xffff_ffff,
            low_b <= 0xffff_ffff,
    ;
    low_a * low_b
}

/// Lane-wise product of the low halves of the lanes.
fn multiply_low_halves(a: Lanes, b: Lanes) -> (lanes: Lanes)
    ensures
        forall|i: int|
            0 <= i < 8 ==> #[trigger] lanes[i] == (a[i] % 0x1_0000_0000) * (b[i] % 0x1_0000_0000),
{
    [
        low_halves_product(a[0], b[0]),
        low_halves_product(a[1], b[1]),
        low_halves_product(a[2], b[2]),
        low_halves_product(a[3], b[3]),
        low_halves_product(a[4], b[4]),
        low_halves_product(a[5], b[5]),
        low_halves_product(a[6], b[6]),
        low_halves_product(a[7], b[7]),
    ]
}

/// Exchanges the two lanes of each pair.
fn swap_pairs(a: Lanes) -> (lanes: Lanes)
    ensures
        forall|i: int| 0 <= i < 8 ==> #[trigger] lanes[i] == a[partner(i)],
{
    [a[1], a[0], a[3], a[2], a[5], a[4], a[7], a[6]]
}

/// A product modulo 2^64 is the sum of the products of the two halves of
/// one factor, the upper one moved up by 32 bits.
proof fn lemma_product_from_halves(value: u64, factor: u64, low: u64, high: u64)
    requires
        factor < 0x1_0000_0000,
        low == (value % 0x1_0000_0000) * factor,
        high == ((value >> 32) % 0x1_0000_0000) * factor,
    ensures
        low.wrapping_add(high << 32) == value.wrapping_mul(factor),
{
    let lower = value % 0x1_0000_0000;
    let upper = value / 0x1_0000_0000;
    assert(value >> 32 == value / 0x1_0000_0000) by (bit_vector);
    assert(high << 32 == (high % 0x1_0000_0000) * 0x1_0000_0000) by (bit_vector);
    let wrap: int = 0x1_0000_0000_0000_0000;
    assert(value * factor == low + high * 0x1_0000_0000) by (nonlinear_arith)
        requires
            value == upper * 0x1_0000_0000 + lower,
            low == lower * factor,
            high == upper * factor,
    ;
    let exact: int = value * factor;
    let kept: int = low + (high % 0x1_0000_0000) * 0x1_0000_0000;
    assert(exact == kept + (high / 0x1_0000_0000) * wrap);
    assert(exact % wrap == kept % wrap);
}

/// The eight-lane implementation.
#[derive(Copy, Clone)]
pub struct Impl(());

impl Impl {
    /// The only value of the type.
    pub closed spec fn only() -> Impl {
        Impl(())
    }

    /// The only value of the type. It needs no feature of the CPU, so there
    /// is nothing to check.
    pub fn new_unchecked() -> (vector: Self)
        ensures
            vector == Impl::only(),
    {
        Impl(())
    }
}

impl Vector for Impl {
    fn round_scramble(&self, acc: &mut [u64; 8], secret_end: &[u8; 64]) {
        round_scramble_avx512(acc, secret_end)
    }

    fn accumulate(&self, acc: &mut [u64; 8], stripe: &[u8; 64], secret: &[u8; 64]) {
        accumulate_avx512(acc, stripe, secret)
    }
}

fn round_scramble_avx512(acc: &mut [u64; 8], secret_end: &[u8; 64])
    ensures
        final(acc)@ == scrambled(old(acc)@, secret_end@),
{
    let prime: Lanes = splat(PRIME32_1);
    let acc_0: Lanes = *acc;
    let secret_0: Lanes = load(secret_end);

    // shifted[i] = acc[i] >> 47
    let shifted: Lanes = shift_right(acc_0, 47);

    // value[i] = acc[i] ^ shifted[i] ^ secret[i]
    let value: Lanes = xor(xor(acc_0, shifted), secret_0);

    // acc[i] = value[i] * PRIME32_1, built from its two halves
    let value_hi: Lanes = shift_right(value, 32);
    let product_lo: Lanes = multiply_low_halves(value, prime);
    let product_hi: Lanes = multiply_low_halves(value_hi, prime);
    *acc = wrapping_sum(product_lo, shift_left(product_hi, 32));

    proof {
        assert forall|i: int| 0 <= i < 8 implies #[trigger] acc[i] == scrambled_lane(
            acc_0[i],
            le_u64(secret_end@, 8 * i),
        ) by {
            lemma_product_from_halves(value[i], PRIME32_1, product_lo[i], product_hi[i]);
        }
        assert(acc@ =~= scrambled(acc_0@, secret_end@));
    }
}

fn accumulate_avx512(acc: &mut [u64; 8], stripe: &[u8; 64], secret: &[u8; 64])
    ensures
        final(acc)@ == accumulated(old(acc)@, stripe@, secret@),
{
    let acc_0: Lanes = *acc;
    let stripe_0: Lanes = load(stripe);
    let secret_0: Lanes = load(secret);

    // value[i] = stripe[i] ^ secret[i]
    let value: Lanes = xor(stripe_0, secret_0);

    // acc[i] += stripe[i ^ 1]
    let stripe_swap: Lanes = swap_pairs(stripe_0);
    let acc_1: Lanes = wrapping_sum(acc_0, stripe_swap);

    // product[i] = lower_32_bit(value[i]) * lower_32_bit(value[i] >> 32)
    let value_shift: Lanes = shift_right(value, 32);
    let product: Lanes = multiply_low_halves(value, value_shift);

    // acc[i] += product[i]
    *acc = wrapping_sum(acc_1, product);

    proof {
        assert forall|i: int| 0 <= i < 8 implies #[trigger] acc[i] == accumulated_lane(
            acc_0@,
            stripe@,
            secret@,
            i,
        ) by {
            let v = value[i];
            assert(v >> 32 == v / 0x1_0000_0000) by (bit_vector);
            assert(product[i] == halves_product(v));
            assert(stripe_swap[i] == le_u64(stripe@, 8 * partner(i)));
        }
        assert(acc@ =~= accumulated(acc_0@, stripe@, secret@));
    }
}

} // verus!
