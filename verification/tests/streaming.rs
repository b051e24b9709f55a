//! What the hasher hands to its finalizer, and how it is constructed.
use xxhash3::large::avx512::Impl;
use xxhash3::large::{Vector, INITIAL_ACCUMULATORS};
use xxhash3::primes::PRIME32_1;
use xxhash3::secret::{derive_secret, Secret, DEFAULT_SECRET_RAW};
use xxhash3::streaming::{
    finish_impl, AllocRawHasher, Finalize, FixedBuffer, FixedMutBuffer, RawHasherCore,
    SecretBuffer, StripeAccumulator, CUTOFF,
};
use xxhash3::words::{encode_u64, read_u64};

/// Everything that a finalizer is handed.
#[derive(Debug, PartialEq)]
enum Handed {
    Small {
        secret: Vec<u8>,
        seed: u64,
        input: Vec<u8>,
    },
    Large {
        acc: [u64; 8],
        last_block: Vec<u8>,
        last_stripe: Vec<u8>,
        secret: Vec<u8>,
        len: usize,
    },
}

struct Record;

impl Finalize for Record {
    type Output = Handed;

    fn small(&self, secret: &Secret<'_>, seed: u64, input: &[u8]) -> Handed {
        Handed::Small {
            secret: secret.as_bytes().to_vec(),
            seed,
            input: input.to_vec(),
        }
    }

    fn large<V: Vector>(
        &self,
        _vector: V,
        acc: [u64; 8],
        last_block: &[u8],
        last_stripe: &[u8; 64],
        secret: &Secret<'_>,
        len: usize,
    ) -> Handed {
        Handed::Large {
            acc,
            last_block: last_block.to_vec(),
            last_stripe: last_stripe.to_vec(),
            secret: secret.as_bytes().to_vec(),
            len,
        }
    }
}

/// One lane after another.
#[derive(Copy, Clone)]
struct Scalar;

fn word(bytes: &[u8], index: usize) -> u64 {
    let mut raw = [0u8; 8];
    raw.copy_from_slice(&bytes[8 * index..8 * index + 8]);
    u64::from_le_bytes(raw)
}

impl Vector for Scalar {
    fn round_scramble(&self, acc: &mut [u64; 8], secret_end: &[u8; 64]) {
        for i in 0..8 {
            let lane = acc[i] ^ (acc[i] >> 47) ^ word(secret_end, i);
            acc[i] = lane.wrapping_mul(PRIME32_1);
        }
    }

    fn accumulate(&self, acc: &mut [u64; 8], stripe: &[u8; 64], secret: &[u8; 64]) {
        for i in 0..8 {
            let value = word(stripe, i) ^ word(secret, i);
            acc[i ^ 1] = acc[i ^ 1].wrapping_add(word(stripe, i));
            acc[i] = acc[i].wrapping_add((value & 0xffff_ffff) * (value >> 32));
        }
    }
}

fn array64(bytes: &[u8]) -> [u8; 64] {
    let mut array = [0u8; 64];
    array.copy_from_slice(bytes);
    array
}

/// What is to be handed over for `input`, block by block.
fn expected(seed: u64, secret: &[u8], input: &[u8]) -> Handed {
    if input.len() <= 240 {
        return Handed::Small {
            secret: DEFAULT_SECRET_RAW.to_vec(),
            seed,
            input: input.to_vec(),
        };
    }
    let per_block = (secret.len() - 64) / 8;
    let leading = (input.len() - 1) / 64;
    let mut acc = INITIAL_ACCUMULATORS;
    for n in 0..leading {
        let at = 8 * (n % per_block);
        let stripe = array64(&input[64 * n..64 * n + 64]);
        Scalar.accumulate(&mut acc, &stripe, &array64(&secret[at..at + 64]));
        if (n + 1) % per_block == 0 {
            Scalar.round_scramble(&mut acc, &array64(&secret[secret.len() - 64..]));
        }
    }
    Handed::Large {
        acc,
        last_block: input[64 * leading..].to_vec(),
        last_stripe: input[input.len() - 64..].to_vec(),
        secret: secret.to_vec(),
        len: input.len(),
    }
}

fn noise(len: usize) -> Vec<u8> {
    let mut state: u64 = 0x1234_5678_9abc_def1;
    (0..len)
        .map(|_| {
            state ^= state << 13;
            state ^= state >> 7;
            state ^= state << 17;
            (state >> 24) as u8
        })
        .collect()
}

#[test]
fn secret_buffer_default_is_valid() {
    assert!(SecretBuffer::default().is_valid());
}

#[test]
fn secret_buffer_allocate_default_is_valid() {
    assert!(SecretBuffer::allocate_default().is_valid());
}

#[test]
fn secret_buffer_allocate_with_seed_is_valid() {
    assert!(SecretBuffer::allocate_with_seed(0xdead_beef).is_valid());
}

#[test]
fn one_write_of_any_length() {
    let data = noise(3000);
    for len in 0..data.len() {
        let mut hasher = RawHasherCore::new(SecretBuffer::default());
        hasher.write(&data[..len]);
        assert_eq!(
            hasher.finish(Record),
            expected(0, &DEFAULT_SECRET_RAW, &data[..len])
        );
    }
}

#[test]
fn cuts_do_not_show() {
    let data = noise(1400);
    for first in (0..700).step_by(3) {
        for second in [0, 1, 63, 64, 65, 448, 449, 511, 512, 513, 576, 600] {
            let mut hasher = RawHasherCore::new(SecretBuffer::default());
            hasher.write(&data[..first]);
            hasher.write(&data[first..first + second]);
            let whole = &data[..first + second];
            assert_eq!(hasher.finish(Record), expected(0, &DEFAULT_SECRET_RAW, whole));
        }
    }
}

#[test]
fn hashing_goes_on_after_finish() {
    let data = noise(2100);
    for size in [1, 3, 64, 65, 240, 241, 500, 513, 700] {
        let mut hasher = AllocRawHasher::allocate_default();
        let mut done = 0;
        for piece in data.chunks(size) {
            hasher.write(piece);
            hasher.write(&[]);
            done += piece.len();
            let whole = expected(0, &DEFAULT_SECRET_RAW, &data[..done]);
            assert_eq!(hasher.finish(Record), whole);
            assert_eq!(hasher.finish(Record), whole);
        }
    }
}

#[test]
fn a_custom_secret_changes_the_block_length() {
    let data = noise(2000);
    for len in [136, 137, 143, 144, 200, 400] {
        let secret = noise(len);
        let hasher = AllocRawHasher::allocate_with_seed_and_secret(9, secret.clone());
        let mut hasher = match hasher {
            Ok(hasher) => hasher,
            Err(_) => panic!("the secret is long enough"),
        };
        hasher.write(&data);
        assert_eq!(hasher.finish(Record), expected(9, &secret, &data));
        assert_eq!(hasher.into_secret().to_vec(), secret);
    }
}

#[test]
fn short_inputs_use_the_default_secret_and_the_seed() {
    let data = noise(CUTOFF);
    let mut hasher = AllocRawHasher::allocate_with_seed(77);
    hasher.write(&data);
    assert_eq!(
        hasher.finish(Record),
        Handed::Small {
            secret: DEFAULT_SECRET_RAW.to_vec(),
            seed: 77,
            input: data,
        }
    );
}

#[test]
fn a_clone_goes_its_own_way() {
    let data = noise(1200);
    let mut hasher = RawHasherCore::new(SecretBuffer::default());
    hasher.write(&data[..600]);
    let mut copy = hasher.clone();
    copy.write(&data[600..]);
    assert_eq!(hasher.finish(Record), expected(0, &DEFAULT_SECRET_RAW, &data[..600]));
    assert_eq!(copy.finish(Record), expected(0, &DEFAULT_SECRET_RAW, &data));
}

#[test]
fn a_short_secret_is_given_back() {
    let error = match SecretBuffer::new(1, [7u8; 135]) {
        Ok(_) => panic!("the secret is too short"),
        Err(error) => error,
    };
    assert_eq!(error.to_string(), "The secret must be at least 136 bytes");
    assert_eq!(error.into_secret(), [7u8; 135]);
    assert!(SecretBuffer::new(1, [7u8; 136]).is_ok());

    let error = match AllocRawHasher::allocate_with_seed_and_secret(1, vec![3u8; 20]) {
        Ok(_) => panic!("the secret is too short"),
        Err(error) => error,
    };
    assert_eq!(error.into_secret().to_vec(), vec![3u8; 20]);

    assert!(matches!(
        Secret::new(&[0u8; 135]),
        Err(e) if e.to_string() == "The secret must be at least 136 bytes"
    ));
}

#[test]
fn a_seeded_secret_needs_the_default_length() {
    for len in [0, 136, 191, 193] {
        let secret = noise(len).into_boxed_slice();
        let error = match SecretBuffer::with_seed(5, secret.clone()) {
            Ok(_) => panic!("the secret has another length"),
            Err(error) => error,
        };
        assert_eq!(error.to_string(), "The secret must be exactly 192 bytes");
        assert_eq!(error.into_secret(), secret);
    }
}

#[test]
fn the_seed_is_mixed_into_every_word() {
    let seed = 0x0123_4567_89ab_cdef;
    let mut target = [0u8; 192];
    let secret = match SecretBuffer::with_seed(seed, &mut target) {
        Ok(buffer) => buffer.into_secret().to_vec(),
        Err(_) => panic!("the secret has the default length"),
    };
    for i in 0..24 {
        let base = word(&DEFAULT_SECRET_RAW, i);
        let mixed = if i % 2 == 0 {
            base.wrapping_add(seed)
        } else {
            base.wrapping_sub(seed)
        };
        assert_eq!(word(&secret, i), mixed);
    }
    // 0xbe4b_a423_396c_feb8 + seed
    assert_eq!(word(&secret, 0), 0xbf6e_e98a_c318_cca7);
    assert_eq!(
        SecretBuffer::allocate_with_seed(seed).into_secret().to_vec(),
        secret
    );
}

#[test]
fn the_default_seed_changes_nothing() {
    let mut secret = DEFAULT_SECRET_RAW;
    derive_secret(0, &mut secret);
    assert_eq!(secret, DEFAULT_SECRET_RAW);
    assert_eq!(
        SecretBuffer::allocate_default().into_secret().to_vec(),
        DEFAULT_SECRET_RAW.to_vec()
    );
    assert_eq!(SecretBuffer::default().into_secret(), &DEFAULT_SECRET_RAW);
}

#[test]
fn lanes_agree_with_the_formulas() {
    let data = noise(64 * 200);
    for chunk in data.chunks(192) {
        if chunk.len() < 192 {
            continue;
        }
        let mut acc = [0u64; 8];
        for i in 0..8 {
            acc[i] = word(&chunk[128..], i);
        }
        let (stripe, secret) = (array64(&chunk[..64]), array64(&chunk[64..128]));

        let (mut wide, mut narrow) = (acc, acc);
        Impl::new_unchecked().accumulate(&mut wide, &stripe, &secret);
        Scalar.accumulate(&mut narrow, &stripe, &secret);
        assert_eq!(wide, narrow);

        Impl::new_unchecked().round_scramble(&mut wide, &secret);
        Scalar.round_scramble(&mut narrow, &secret);
        assert_eq!(wide, narrow);
    }
}

#[test]
fn lanes_on_extreme_words() {
    let mut acc = [u64::MAX; 8];
    Impl::new_unchecked().accumulate(&mut acc, &[0xff; 64], &[0; 64]);
    // MAX + MAX + (2^32 - 1)^2, modulo 2^64
    assert_eq!(acc, [0xffff_fffd_ffff_ffff; 8]);

    let mut acc = [u64::MAX; 8];
    Impl::new_unchecked().round_scramble(&mut acc, &[0; 64]);
    // (MAX ^ 0x1ffff) * PRIME32_1, modulo 2^64
    assert_eq!(acc, [0xfffe_c391_0c9e_0000; 8]);
}

#[test]
fn runs_of_stripes_can_be_cut_anywhere() {
    let mut stripes = Vec::new();
    for chunk in noise(64 * 50).chunks(64) {
        stripes.push(array64(chunk));
    }
    let secret = Secret::default_secret();
    let mut whole = StripeAccumulator::new();
    whole.process_stripes(Scalar, &stripes, 16, &secret);
    for cut in 0..=stripes.len() {
        let mut pieces = StripeAccumulator::new();
        pieces.process_stripes(Impl::new_unchecked(), &stripes[..cut], 16, &secret);
        pieces.process_stripes(Impl::new_unchecked(), &stripes[cut..], 16, &secret);
        assert_eq!(pieces.accumulator(), whole.accumulator());
    }
    let mut none = StripeAccumulator::new();
    none.process_stripes(Scalar, &[], 16, &secret);
    assert_eq!(none.accumulator(), INITIAL_ACCUMULATORS);
}

#[test]
fn secrets_are_cut_into_stripes() {
    let bytes = noise(150);
    let secret = match Secret::new(&bytes) {
        Ok(secret) => secret,
        Err(_) => panic!("the secret is long enough"),
    };
    assert_eq!(secret.n_stripes(), 10);
    assert_eq!(secret.stripe(3).to_vec(), bytes[24..88].to_vec());
    assert_eq!(secret.last_stripe().to_vec(), bytes[86..].to_vec());
    assert_eq!(secret.as_bytes(), &bytes[..]);
    assert_eq!(Secret::default_secret().n_stripes(), 16);
    assert_eq!(Secret::new_unchecked(&bytes).n_stripes(), 10);
}

#[test]
fn buffers_show_what_was_written_to_them() {
    let mut array = [1u8, 2, 3];
    array.as_mut_bytes()[1] = 9;
    assert_eq!(FixedBuffer::as_bytes(&array), &[1, 9, 3]);
    assert_eq!(FixedBuffer::as_bytes(&&array), &[1, 9, 3]);
    {
        let mut borrowed = &mut array;
        FixedMutBuffer::as_mut_bytes(&mut borrowed)[0] = 8;
        assert_eq!(FixedBuffer::as_bytes(&borrowed), &[8, 9, 3]);
    }
    let mut boxed = vec![4u8, 5].into_boxed_slice();
    FixedMutBuffer::as_mut_bytes(&mut boxed)[0] = 7;
    assert_eq!(FixedBuffer::as_bytes(&boxed), &[7, 5]);
}

#[test]
fn words_are_little_endian() {
    assert_eq!(read_u64(&[9, 1, 2, 3, 4, 5, 6, 7, 8], 1), 0x0807_0605_0403_0201);
    assert_eq!(encode_u64(0x0807_0605_0403_0201), [1, 2, 3, 4, 5, 6, 7, 8]);
    assert_eq!(read_u64(&encode_u64(u64::MAX - 5), 0), u64::MAX - 5);
}

#[test]
fn the_last_stripe_is_rebuilt_from_a_short_rest() {
    let data = noise(1100);
    for full in [512, 576, 1024] {
        for tail in 0..70 {
            let mut hasher = RawHasherCore::new(SecretBuffer::default());
            hasher.write(&data[..full]);
            hasher.write(&[]);
            for byte in &data[full..full + tail] {
                hasher.write(&[*byte]);
            }
            let whole = &data[..full + tail];
            assert_eq!(hasher.finish(Record), expected(0, &DEFAULT_SECRET_RAW, whole));
        }
    }
}

#[test]
fn the_vector_does_not_show() {
    let data = noise(1500);
    for len in [0, 240, 241, 512, 513, 1500] {
        let mut hasher = RawHasherCore::new(SecretBuffer::default());
        hasher.write(&data[..len]);
        assert_eq!(finish_impl(Scalar, &hasher, Record), hasher.finish(Record));
    }
}

#[test]
fn a_run_may_end_before_its_block_does() {
    let stripes = [[5u8; 64], [6u8; 64], [7u8; 64]];
    let secret = Secret::default_secret();
    let (mut short, mut long) = (StripeAccumulator::new(), StripeAccumulator::new());
    short.process_stripes(Scalar, &stripes, 16, &secret);
    long.process_stripes(Scalar, &stripes, 100, &secret);
    assert_eq!(short.accumulator(), long.accumulator());
}
