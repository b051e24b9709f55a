//! The secret that stripes are mixed with.
use vstd::prelude::*;

use crate::words::{
    encode_u64, le_bytes, le_u64, lemma_le_read_back, lemma_le_round_trip, read_u64,
};

verus! {

/// The minimum length of a secret.
pub const SECRET_MINIMUM_LENGTH: usize = 136;

/// The length of the default secret.
pub const DEFAULT_SECRET_LENGTH: usize = 192;

/// The seed that is used where none is given.
pub const DEFAULT_SEED: u64 = 0;

/// An array that holds exactly one default secret.
pub type DefaultSecret = [u8; DEFAULT_SECRET_LENGTH];

/// The default secret.
pub const DEFAULT_SECRET_RAW: DefaultSecret = [
    0xb8, 0xfe, 0x6c, 0x39, 0x23, 0xa4, 0x4b, 0xbe, 0x7c, 0x01, 0x81, 0x2c, 0xf7, 0x21, 0xad, 0x1c,
    0xde, 0xd4, 0x6d, 0xe9, 0x83, 0x90, 0x97, 0xdb, 0x72, 0x40, 0xa4, 0xa4, 0xb7, 0xb3, 0x67, 0x1f,
    0xcb, 0x79, 0xe6, 0x4e, 0xcc, 0xc0, 0xe5, 0x78, 0x82, 0x5a, 0xd0, 0x7d, 0xcc, 0xff, 0x72, 0x21,
    0xb8, 0x08, 0x46, 0x74, 0xf7, 0x43, 0x24, 0x8e, 0xe0, 0x35, 0x90, 0xe6, 0x81, 0x3a, 0x26, 0x4c,
    0x3c, 0x28, 0x52, 0xbb, 0x91, 0xc3, 0x00, 0xcb, 0x88, 0xd0, 0x65, 0x8b, 0x1b, 0x53, 0x2e, 0xa3,
    0x71, 0x64, 0x48, 0x97, 0xa2, 0x0d, 0xf9, 0x4e, 0x38, 0x19, 0xef, 0x46, 0xa9, 0xde, 0xac, 0xd8,
    0xa8, 0xfa, 0x76, 0x3f, 0xe3, 0x9c, 0x34, 0x3f, 0xf9, 0xdc, 0xbb, 0xc7, 0xc7, 0x0b, 0x4f, 0x1d,
    0x8a, 0x51, 0xe0, 0x4b, 0xcd, 0xb4, 0x59, 0x31, 0xc8, 0x9f, 0x7e, 0xc9, 0xd9, 0x78, 0x73, 0x64,
    0xea, 0xc5, 0xac, 0x83, 0x34, 0xd3, 0xeb, 0xc3, 0xc5, 0x81, 0xa0, 0xff, 0xfa, 0x13, 0x63, 0xeb,
    0x17, 0x0d, 0xdd, 0x51, 0xb7, 0xf0, 0xda, 0x49, 0xd3, 0x16, 0x55, 0x26, 0x29, 0xd4, 0x68, 0x9e,
    0x2b, 0x16, 0xbe, 0x58, 0x7d, 0x47, 0xa1, 0xfc, 0x8f, 0xf8, 0xb8, 0xd1, 0x7a, 0xd0, 0x31, 0xce,
    0x45, 0xcb, 0x3a, 0x8f, 0x95, 0x16, 0x04, 0x28, 0xaf, 0xd7, 0xfb, 0xca, 0xbb, 0x4b, 0x40, 0x7e,
];

/// The number of stripes that are absorbed before the secret is used from
/// its start again: each stripe moves eight bytes further into it.
pub open spec fn stripes_per_block(secret: Seq<u8>) -> int {
    (secret.len() - 64) / 8
}

/// The part of the secret for the stripe with the given position in its
/// block.
pub open spec fn secret_stripe(secret: Seq<u8>, position: int) -> Seq<u8> {
    secret.subrange(8 * position, 8 * position + 64)
}

/// The part of the secret for the scramble at the end of a block.
pub open spec fn secret_last_stripe(secret: Seq<u8>) -> Seq<u8> {
    secret.subrange(secret.len() - 64, secret.len() as int)
}

/// The provided secret was not at least [`SECRET_MINIMUM_LENGTH`] bytes.
pub struct Error(());

impl Error {
    /// The only value of the type.
    pub closed spec fn only() -> Error {
        Error(())
    }

    /// Describes the error.
    pub fn to_string(&self) -> (text: String)
        ensures
            text@ == "The secret must be at least 136 bytes"@,
    {
        "The secret must be at least 136 bytes".to_string()
    }
}

/// Copies out the stripe that starts at byte `at`.
pub(crate) fn copy_stripe(bytes: &[u8], at: usize) -> (stripe: [u8; 64])
    requires
        at + 64 <= bytes.len(),
    ensures
        stripe@ == bytes@.subrange(at as int, at + 64),
{
    let mut stripe: [u8; 64] = [0; 64];
    let mut i: usize = 0;
    while i < 64
        invariant
            i <= 64,
            at + 64 <= bytes.len(),
            forall|j: int| 0 <= j < i ==> #[trigger] stripe[j] == bytes[at + j],
        decreases 64 - i,
    {
        stripe[i] = bytes[at + i];
        i += 1;
    }
    assert(stripe@ =~= bytes@.subrange(at as int, at + 64));
    stripe
}

/// Secret bytes that are known to be long enough.
#[derive(Copy, Clone)]
pub struct Secret<'a> {
    bytes: &'a [u8],
}

impl<'a> View for Secret<'a> {
    type V = Seq<u8>;

    closed spec fn view(&self) -> Seq<u8> {
        self.bytes@
    }
}

impl<'a> Secret<'a> {
    #[verifier::type_invariant]
    spec fn long_enough(self) -> bool {
        self.bytes@.len() >= SECRET_MINIMUM_LENGTH
    }

    /// Checks the length of the secret.
    pub fn new(bytes: &'a [u8]) -> (secret: Result<Secret<'a>, Error>)
        ensures
            secret is Ok <==> bytes@.len() >= SECRET_MINIMUM_LENGTH,
            secret matches Ok(s) ==> s@ == bytes@,
            secret matches Err(e) ==> e == Error::only(),
    {
        if bytes.len() >= SECRET_MINIMUM_LENGTH {
            Ok(Secret::new_unchecked(bytes))
        } else {
            Err(Error(()))
        }
    }

    /// Takes bytes whose length has been checked before.
    pub fn new_unchecked(bytes: &'a [u8]) -> (secret: Secret<'a>)
        requires
            bytes@.len() >= SECRET_MINIMUM_LENGTH,
        ensures
            secret@ == bytes@,
    {
        Secret { bytes }
    }

    /// The default secret.
    pub fn default_secret() -> (secret: Secret<'static>)
        ensures
            secret@ == DEFAULT_SECRET_RAW@,
    {
        Secret::new_unchecked(&DEFAULT_SECRET_RAW)
    }

    /// The secret bytes, of which there are enough.
    pub fn as_bytes(&self) -> (bytes: &'a [u8])
        ensures
            bytes@ == self@,
            bytes@.len() >= SECRET_MINIMUM_LENGTH,
    {
        proof {
            use_type_invariant(self);
        }
        self.bytes
    }

    /// The number of stripes in a block.
    pub fn n_stripes(&self) -> (n: usize)
        ensures
            n == stripes_per_block(self@),
            self@.len() >= SECRET_MINIMUM_LENGTH,
    {
        (self.as_bytes().len() - 64) / 8
    }

    /// The part of the secret for the stripe with the given position in its
    /// block.
    pub fn stripe(&self, position: usize) -> (stripe: [u8; 64])
        requires
            position < stripes_per_block(self@),
        ensures
            stripe@ == secret_stripe(self@, position as int),
    {
        let bytes = self.as_bytes();
        assert(8 * position + 64 <= bytes.len());
        copy_stripe(bytes, 8 * position)
    }

    /// The part of the secret for the scramble at the end of a block.
    pub fn last_stripe(&self) -> (stripe: [u8; 64])
        ensures
            stripe@ == secret_last_stripe(self@),
    {
        let bytes = self.as_bytes();
        copy_stripe(bytes, bytes.len() - 64)
    }
}

/// What the seed makes of the word with the given index in the secret:
/// it is added to the even words and subtracted from the odd ones.
pub open spec fn seeded_word(word: u64, index: int, seed: u64) -> u64 {
    if index % 2 == 0 {
        word.wrapping_add(seed)
    } else {
        word.wrapping_sub(seed)
    }
}

/// The secret that a seed derives from a base secret, word by word.
pub open spec fn derived_secret(seed: u64, base: Seq<u8>) -> Seq<u8> {
    Seq::new(
        base.len(),
        |i: int| le_bytes(seeded_word(le_u64(base, i - i % 8), i / 8, seed))[i % 8],
    )
}

/// The default seed derives the base secret itself.
pub proof fn lemma_default_seed_derives_base(base: Seq<u8>)
    requires
        base.len() % 8 == 0,
    ensures
        derived_secret(DEFAULT_SEED, base) == base,
{
    assert forall|i: int| 0 <= i < base.len() implies #[trigger] derived_secret(
        DEFAULT_SEED,
        base,
    )[i] == base[i] by {
        let at = i - i % 8;
        lemma_le_round_trip(base, at);
        assert(base.subrange(at, at + 8)[i % 8] == base[i]);
    }
    assert(derived_secret(DEFAULT_SEED, base) =~= base);
}

/// Each word of a derived secret is the word of the base secret with the
/// seed mixed in.
pub proof fn lemma_derived_words(seed: u64, base: Seq<u8>, index: int)
    requires
        0 <= index,
        8 * index + 8 <= base.len(),
    ensures
        le_u64(derived_secret(seed, base), 8 * index) == seeded_word(
            le_u64(base, 8 * index),
            index,
            seed,
        ),
{
    let word = seeded_word(le_u64(base, 8 * index), index, seed);
    let derived = derived_secret(seed, base);
    lemma_le_read_back(word);
    assert forall|k: int| 0 <= k < 8 implies #[trigger] derived[8 * index + k] == le_bytes(
        word,
    )[k] by {
        let i = 8 * index + k;
        assert(i % 8 == k && i / 8 == index);
    }
    assert(derived[8 * index + 0] == le_bytes(word)[0]);
}

/// Replaces the eight bytes at `at`.
fn put_word(secret: &mut DefaultSecret, at: usize, word: u64)
    requires
        at + 8 <= DEFAULT_SECRET_LENGTH,
    ensures
        forall|j: int| at <= j < at + 8 ==> #[trigger] final(secret)[j] == le_bytes(word)[j - at],
        forall|j: int|
            0 <= j < DEFAULT_SECRET_LENGTH && !(at <= j < at + 8) ==> #[trigger] final(secret)[j]
                == old(secret)[j],
{
    let encoded: [u8; 8] = encode_u64(word);
    let mut k: usize = 0;
    while k < 8
        invariant
            k <= 8,
            at + 8 <= DEFAULT_SECRET_LENGTH,
            encoded@ == le_bytes(word),
            forall|j: int| at <= j < at + k ==> #[trigger] secret[j] == encoded[j - at],
            forall|j: int|
                0 <= j < DEFAULT_SECRET_LENGTH && !(at <= j < at + k) ==> #[trigger] secret[j]
                    == old(secret)[j],
        decreases 8 - k,
    {
        secret[at + k] = encoded[k];
        k += 1;
    }
}

/// Mixes the seed into the secret.
pub fn derive_secret(seed: u64, secret: &mut DefaultSecret)
    ensures
        final(secret)@ == derived_secret(seed, old(secret)@),
{
    let ghost base = secret@;
    let mut pair: usize = 0;
    while pair < 12
        invariant
            pair <= 12,
            base == old(secret)@,
            base.len() == DEFAULT_SECRET_LENGTH,
            forall|j: int|
                0 <= j < 16 * pair ==> #[trigger] secret[j] == derived_secret(seed, base)[j],
            forall|j: int|
                16 * pair <= j < DEFAULT_SECRET_LENGTH ==> #[trigger] secret[j] == base[j],
        decreases 12 - pair,
    {
        let at: usize = 16 * pair;
        let ghost before = secret@;
        let a: u64 = read_u64(secret, at);
        let b: u64 = read_u64(secret, at + 8);
        put_word(secret, at, a.wrapping_add(seed));
        put_word(secret, at + 8, b.wrapping_sub(seed));
        proof {
            assert(a == le_u64(base, at as int));
            assert(b == le_u64(base, at + 8));
            assert forall|j: int| at <= j < at + 16 implies #[trigger] secret[j] == derived_secret(
                seed,
                base,
            )[j] by {
                if j < at + 8 {
                    assert(j - j % 8 == at && j % 8 == j - at && (j / 8) % 2 == 0);
                } else {
                    assert(j - j % 8 == at + 8 && j % 8 == j - at - 8 && (j / 8) % 2 == 1);
                }
            }
        }
        pair += 1;
    }
    assert(secret@ =~= derived_secret(seed, base));
}

/// The lengths of secrets, the default seed, and the words of the default
/// secret.
pub proof fn lemma_defaults()
    ensures
        SECRET_MINIMUM_LENGTH == 136,
        DEFAULT_SECRET_LENGTH == 192,
        DEFAULT_SEED == 0,
        DEFAULT_SECRET_RAW@.len() == 192,
        le_u64(DEFAULT_SECRET_RAW@, 0) == 0xbe4b_a423_396c_feb8,
        le_u64(DEFAULT_SECRET_RAW@, 8) == 0x1cad_21f7_2c81_017c,
        le_u64(DEFAULT_SECRET_RAW@, 16) == 0xdb97_9083_e96d_d4de,
        le_u64(DEFAULT_SECRET_RAW@, 24) == 0x1f67_b3b7_a4a4_4072,
        le_u64(DEFAULT_SECRET_RAW@, 32) == 0x78e5_c0cc_4ee6_79cb,
        le_u64(DEFAULT_SECRET_RAW@, 40) == 0x2172_ffcc_7dd0_5a82,
        le_u64(DEFAULT_SECRET_RAW@, 48) == 0x8e24_43f7_7446_08b8,
        le_u64(DEFAULT_SECRET_RAW@, 56) == 0x4c26_3a81_e690_35e0,
        le_u64(DEFAULT_SECRET_RAW@, 64) == 0xcb00_c391_bb52_283c,
        le_u64(DEFAULT_SECRET_RAW@, 72) == 0xa32e_531b_8b65_d088,
        le_u64(DEFAULT_SECRET_RAW@, 80) == 0x4ef9_0da2_9748_6471,
        le_u64(DEFAULT_SECRET_RAW@, 88) == 0xd8ac_dea9_46ef_1938,
        le_u64(DEFAULT_SECRET_RAW@, 96) == 0x3f34_9ce3_3f76_faa8,
        le_u64(DEFAULT_SECRET_RAW@, 104) == 0x1d4f_0bc7_c7bb_dcf9,
        le_u64(DEFAULT_SECRET_RAW@, 112) == 0x3159_b4cd_4be0_518a,
        le_u64(DEFAULT_SECRET_RAW@, 120) == 0x6473_78d9_c97e_9fc8,
        le_u64(DEFAULT_SECRET_RAW@, 128) == 0xc3eb_d334_83ac_c5ea,
        le_u64(DEFAULT_SECRET_RAW@, 136) == 0xeb63_13fa_ffa0_81c5,
        le_u64(DEFAULT_SECRET_RAW@, 144) == 0x49da_f0b7_51dd_0d17,
        le_u64(DEFAULT_SECRET_RAW@, 152) == 0x9e68_d429_2655_16d3,
        le_u64(DEFAULT_SECRET_RAW@, 160) == 0xfca1_477d_58be_162b,
        le_u64(DEFAULT_SECRET_RAW@, 168) == 0xce31_d07a_d1b8_f88f,
        le_u64(DEFAULT_SECRET_RAW@, 176) == 0x2804_1695_8f3a_cb45,
        le_u64(DEFAULT_SECRET_RAW@, 184) == 0x7e40_4bbb_cafb_d7af,
{
}

/// A block has as many stripes as can start at steps of eight bytes, with one
/// stripe of the secret left behind them for the scramble.
pub proof fn lemma_stripes_per_block(secret: Seq<u8>)
    requires
        secret.len() >= 64,
    ensures
        8 * stripes_per_block(secret) + 64 <= secret.len() < 8 * stripes_per_block(secret) + 72,
        secret.len() >= 136 ==> stripes_per_block(secret) >= 9,
{
}

/// The stripe at a position of the block meets the 64 bytes of the secret
/// that start eight bytes further on for each position.
pub proof fn lemma_secret_stripe_bytes(secret: Seq<u8>, position: int)
    requires
        0 <= position,
        8 * position + 64 <= secret.len(),
    ensures
        secret_stripe(secret, position).len() == 64,
        forall|j: int|
            0 <= j < 64 ==> #[trigger] secret_stripe(secret, position)[j] == secret[8 * position
                + j],
{
}

/// The scramble meets the last 64 bytes of the secret.
pub proof fn lemma_secret_last_stripe_bytes(secret: Seq<u8>)
    requires
        secret.len() >= 64,
    ensures
        secret_last_stripe(secret).len() == 64,
        forall|j: int|
            0 <= j < 64 ==> #[trigger] secret_last_stripe(secret)[j] == secret[secret.len() - 64
                + j],
{
}

/// What the seed makes of a word, modulo 2^64.
proof fn lemma_seeded_word(word: u64, index: int, seed: u64)
    ensures
        index % 2 == 0 ==> seeded_word(word, index, seed) == (word + seed)
            % 0x1_0000_0000_0000_0000,
        index % 2 != 0 ==> seeded_word(word, index, seed) == (word - seed)
            % 0x1_0000_0000_0000_0000,
{
}

/// The negative of a seed takes back what the seed made of a word.
proof fn lemma_seeded_word_undone(word: u64, index: int, seed: u64, negative: u64)
    requires
        (seed + negative) % 0x1_0000_0000_0000_0000 == 0,
    ensures
        seeded_word(seeded_word(word, index, seed), index, negative) == word,
{
}

/// A derived secret is as long as its base, and of each pair of words the
/// first has the seed added and the second has it subtracted, modulo 2^64.
pub proof fn lemma_derived_pair(seed: u64, base: Seq<u8>, pair: int)
    requires
        0 <= pair,
        16 * pair + 16 <= base.len(),
    ensures
        derived_secret(seed, base).len() == base.len(),
        le_u64(derived_secret(seed, base), 16 * pair) == (le_u64(base, 16 * pair) + seed)
            % 0x1_0000_0000_0000_0000,
        le_u64(derived_secret(seed, base), 16 * pair + 8) == (le_u64(base, 16 * pair + 8) - seed)
            % 0x1_0000_0000_0000_0000,
{
    lemma_derived_even_word(seed, base, pair, 2 * pair, 16 * pair);
    lemma_derived_odd_word(seed, base, pair, 2 * pair + 1, 16 * pair + 8);
}

/// The first word of a pair of a derived secret, modulo 2^64.
proof fn lemma_derived_even_word(seed: u64, base: Seq<u8>, pair: int, index: int, at: int)
    requires
        0 <= pair,
        index == 2 * pair,
        at == 16 * pair,
        at + 8 <= base.len(),
    ensures
        le_u64(derived_secret(seed, base), at) == (le_u64(base, at) + seed)
            % 0x1_0000_0000_0000_0000,
{
    assert(at == 8 * index && index % 2 == 0);
    lemma_derived_word_at(seed, base, index, at);
}

/// The second word of a pair of a derived secret, modulo 2^64.
proof fn lemma_derived_odd_word(seed: u64, base: Seq<u8>, pair: int, index: int, at: int)
    requires
        0 <= pair,
        index == 2 * pair + 1,
        at == 16 * pair + 8,
        at + 8 <= base.len(),
    ensures
        le_u64(derived_secret(seed, base), at) == (le_u64(base, at) - seed)
            % 0x1_0000_0000_0000_0000,
{
    assert(at == 8 * index && index % 2 == 1);
    lemma_derived_word_at(seed, base, index, at);
}

/// A word of a derived secret, modulo 2^64.
proof fn lemma_derived_word_at(seed: u64, base: Seq<u8>, index: int, at: int)
    requires
        0 <= index,
        at == 8 * index,
        at + 8 <= base.len(),
    ensures
        index % 2 == 0 ==> le_u64(derived_secret(seed, base), at) == (le_u64(base, at) + seed)
            % 0x1_0000_0000_0000_0000,
        index % 2 == 1 ==> le_u64(derived_secret(seed, base), at) == (le_u64(base, at) - seed)
            % 0x1_0000_0000_0000_0000,
{
    lemma_derived_words(seed, base, index);
    lemma_seeded_word(le_u64(base, at), index, seed);
}

/// Deriving with a seed and then with its negative gives back the base.
pub proof fn lemma_derivation_is_undone(seed: u64, negative: u64, base: Seq<u8>)
    requires
        base.len() % 8 == 0,
        (seed + negative) % 0x1_0000_0000_0000_0000 == 0,
    ensures
        derived_secret(negative, derived_secret(seed, base)) == base,
{
    let derived = derived_secret(seed, base);
    let again = derived_secret(negative, derived);
    assert forall|i: int| 0 <= i < base.len() implies #[trigger] again[i] == base[i] by {
        lemma_derivation_undone_at(seed, negative, base, i / 8);
        let at = 8 * (i / 8);
        assert(base.subrange(at, at + 8)[i - at] == base[i]);
        assert(again.subrange(at, at + 8)[i - at] == again[i]);
    }
    assert(again =~= base);
}

/// One word of a secret that was derived with a seed and then with its
/// negative.
proof fn lemma_derivation_undone_at(seed: u64, negative: u64, base: Seq<u8>, index: int)
    requires
        0 <= index,
        8 * index + 8 <= base.len(),
        (seed + negative) % 0x1_0000_0000_0000_0000 == 0,
    ensures
        derived_secret(negative, derived_secret(seed, base)).subrange(8 * index, 8 * index + 8)
            == base.subrange(8 * index, 8 * index + 8),
{
    let derived = derived_secret(seed, base);
    lemma_derived_words(seed, base, index);
    lemma_derived_words(negative, derived, index);
    lemma_seeded_word_undone(le_u64(base, 8 * index), index, seed, negative);
    lemma_le_round_trip(base, 8 * index);
    lemma_le_round_trip(derived_secret(negative, derived), 8 * index);
}

/// Two seeds that derive the same secret from a base of at least one word are
/// the same seed.
pub proof fn lemma_derivation_is_injective(seed: u64, other_seed: u64, base: Seq<u8>)
    requires
        base.len() >= 8,
        derived_secret(seed, base) == derived_secret(other_seed, base),
    ensures
        seed == other_seed,
{
    lemma_derived_words(seed, base, 0);
    lemma_derived_words(other_seed, base, 0);
}

} // verus!
