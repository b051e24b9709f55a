//! Hashes of long inputs, finalized to 64 bits.
use xxhash3::buffer::SecretBuffer;
use xxhash3::large::Vector;
use xxhash3::primes::PRIME64_1;
use xxhash3::secret::Secret;
use xxhash3::streaming::{AllocRawHasher, Finalize, RawHasherCore};

fn word(bytes: &[u8], at: usize) -> u64 {
    let mut raw = [0u8; 8];
    raw.copy_from_slice(&bytes[at..at + 8]);
    u64::from_le_bytes(raw)
}

fn fold(a: u64, b: u64) -> u64 {
    let product = (a as u128) * (b as u128);
    (product as u64) ^ ((product >> 64) as u64)
}

/// The 64-bit finalizer for long inputs.
struct Long64;

impl Finalize for Long64 {
    type Output = u64;

    fn small(&self, _secret: &Secret<'_>, _seed: u64, _input: &[u8]) -> u64 {
        panic!("only long inputs are hashed here");
    }

    fn large<V: Vector>(
        &self,
        vector: V,
        acc: [u64; 8],
        _last_block: &[u8],
        last_stripe: &[u8; 64],
        secret: &Secret<'_>,
        len: usize,
    ) -> u64 {
        let bytes = secret.as_bytes();
        let mut acc = acc;
        let mut key = [0u8; 64];
        key.copy_from_slice(&bytes[bytes.len() - 71..bytes.len() - 7]);
        vector.accumulate(&mut acc, last_stripe, &key);

        let mut hash = (len as u64).wrapping_mul(PRIME64_1);
        for pair in 0..4 {
            hash = hash.wrapping_add(fold(
                acc[2 * pair] ^ word(bytes, 11 + 16 * pair),
                acc[2 * pair + 1] ^ word(bytes, 19 + 16 * pair),
            ));
        }
        hash ^= hash >> 37;
        hash = hash.wrapping_mul(0x1656_6791_9E37_79F9);
        hash ^ (hash >> 32)
    }
}

/// Counts up from zero, starting over at a prime.
fn counting(len: usize) -> Vec<u8> {
    (0..len).map(|i| (i % 251) as u8).collect()
}

fn hash(input: &[u8]) -> u64 {
    let mut hasher = RawHasherCore::new(SecretBuffer::default());
    hasher.write(input);
    hasher.finish(Long64)
}

#[test]
fn long_inputs_under_the_default_secret() {
    assert_eq!(hash(&counting(241)), 0x02e8_cd95_421c_6d02);
    assert_eq!(hash(&counting(242)), 0xddcb_33c4_9405_1832);
    assert_eq!(hash(&counting(243)), 0x8835_f952_9193_e3dc);
    assert_eq!(hash(&counting(244)), 0xbc17_c91e_c3cf_8d7f);
    assert_eq!(hash(&counting(1024)), 0xe5d7_8baf_a45b_2aa5);
    assert_eq!(hash(&counting(10240)), 0xbcd6_3266_df6e_2244);
}

#[test]
fn long_input_in_small_pieces() {
    for size in [1, 7, 63, 64, 65, 511, 512, 513, 2000] {
        let mut hasher = RawHasherCore::new(SecretBuffer::default());
        for piece in counting(10240).chunks(size) {
            hasher.write(piece);
        }
        assert_eq!(hasher.finish(Long64), 0xbcd6_3266_df6e_2244);
    }
}

#[test]
fn default_seed_gives_the_default_secret() {
    let mut hasher = AllocRawHasher::allocate_with_seed(0);
    hasher.write(&counting(1024));
    assert_eq!(hasher.finish(Long64), 0xe5d7_8baf_a45b_2aa5);
}
