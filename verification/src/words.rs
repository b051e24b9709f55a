//! Little-endian words inside byte sequences.
use vstd::prelude::*;

verus! {

/// The 64-bit word whose little-endian encoding starts at byte `at`.
pub open spec fn le_u64(bytes: Seq<u8>, at: int) -> u64
    recommends
        0 <= at,
        at + 8 <= bytes.len(),
{
    (bytes[at] + 0x100 * bytes[at + 1] + 0x1_0000 * bytes[at + 2] + 0x100_0000 * bytes[at + 3]
        + 0x1_0000_0000 * bytes[at + 4] + 0x100_0000_0000 * bytes[at + 5] + 0x1_0000_0000_0000
        * bytes[at + 6] + 0x100_0000_0000_0000 * bytes[at + 7]) as u64
}

/// The little-endian encoding of `word`.
pub open spec fn le_bytes(word: u64) -> Seq<u8> {
    seq![
        (word % 0x100) as u8,
        (word / 0x100 % 0x100) as u8,
        (word / 0x1_0000 % 0x100) as u8,
        (word / 0x100_0000 % 0x100) as u8,
        (word / 0x1_0000_0000 % 0x100) as u8,
        (word / 0x100_0000_0000 % 0x100) as u8,
        (word / 0x1_0000_0000_0000 % 0x100) as u8,
        (word / 0x100_0000_0000_0000 % 0x100) as u8,
    ]
}

/// Splits off the lowest byte of a number.
proof fn lemma_lowest_byte(rest: int, byte: u8)
    ensures
        (byte + 0x100 * rest) % 0x100 == byte,
        (byte + 0x100 * rest) / 0x100 == rest,
{
}

/// Dividing by a power of 256 one byte at a time.
proof fn lemma_divide_bytewise(word: int)
    requires
        0 <= word,
    ensures
        word / 0x1_0000 == word / 0x100 / 0x100,
        word / 0x100_0000 == word / 0x1_0000 / 0x100,
        word / 0x1_0000_0000 == word / 0x100_0000 / 0x100,
        word / 0x100_0000_0000 == word / 0x1_0000_0000 / 0x100,
        word / 0x1_0000_0000_0000 == word / 0x100_0000_0000 / 0x100,
        word / 0x100_0000_0000_0000 == word / 0x1_0000_0000_0000 / 0x100,
{
}

/// Encoding the word read at `at` gives back the eight bytes it was read
/// from.
pub proof fn lemma_le_round_trip(bytes: Seq<u8>, at: int)
    requires
        0 <= at,
        at + 8 <= bytes.len(),
    ensures
        le_bytes(le_u64(bytes, at)) == bytes.subrange(at, at + 8),
{
    let q7: int = bytes[at + 7] as int;
    let q6: int = bytes[at + 6] + 0x100 * q7;
    let q5: int = bytes[at + 5] + 0x100 * q6;
    let q4: int = bytes[at + 4] + 0x100 * q5;
    let q3: int = bytes[at + 3] + 0x100 * q4;
    let q2: int = bytes[at + 2] + 0x100 * q3;
    let q1: int = bytes[at + 1] + 0x100 * q2;
    let word: int = bytes[at] + 0x100 * q1;
    lemma_lowest_byte(q1, bytes[at]);
    lemma_lowest_byte(q2, bytes[at + 1]);
    lemma_lowest_byte(q3, bytes[at + 2]);
    lemma_lowest_byte(q4, bytes[at + 3]);
    lemma_lowest_byte(q5, bytes[at + 4]);
    lemma_lowest_byte(q6, bytes[at + 5]);
    lemma_lowest_byte(q7, bytes[at + 6]);
    lemma_divide_bytewise(word);
    assert(le_u64(bytes, at) == word);
    assert(le_bytes(le_u64(bytes, at)) =~= bytes.subrange(at, at + 8));
}

/// The bytes from `at` on are the digits of the word in base 256, the lowest
/// first.
pub proof fn lemma_word_has_its_bytes_as_digits(bytes: Seq<u8>, at: int)
    requires
        0 <= at,
        at + 8 <= bytes.len(),
    ensures
        le_u64(bytes, at) % 0x100 == bytes[at],
        le_u64(bytes, at) / 0x100 % 0x100 == bytes[at + 1],
        le_u64(bytes, at) / 0x1_0000 % 0x100 == bytes[at + 2],
        le_u64(bytes, at) / 0x100_0000 % 0x100 == bytes[at + 3],
        le_u64(bytes, at) / 0x1_0000_0000 % 0x100 == bytes[at + 4],
        le_u64(bytes, at) / 0x100_0000_0000 % 0x100 == bytes[at + 5],
        le_u64(bytes, at) / 0x1_0000_0000_0000 % 0x100 == bytes[at + 6],
        le_u64(bytes, at) / 0x100_0000_0000_0000 == bytes[at + 7],
{
    let own = bytes.subrange(at, at + 8);
    lemma_le_round_trip(bytes, at);
    assert(forall|k: int| 0 <= k < 8 ==> #[trigger] own[k] == bytes[at + k]);
    assert(own[0] == bytes[at] && own[1] == bytes[at + 1] && own[2] == bytes[at + 2] && own[3]
        == bytes[at + 3] && own[4] == bytes[at + 4] && own[5] == bytes[at + 5] && own[6]
        == bytes[at + 6] && own[7] == bytes[at + 7]);
}

/// An encoding is eight bytes, and the word is their sum, each weighted by
/// the power of 256 of its place.
pub proof fn lemma_word_is_the_sum_of_its_encoding(word: u64)
    ensures
        le_bytes(word).len() == 8,
        word == le_bytes(word)[0] + 0x100 * le_bytes(word)[1] + 0x1_0000 * le_bytes(word)[2]
            + 0x100_0000 * le_bytes(word)[3] + 0x1_0000_0000 * le_bytes(word)[4] + 0x100_0000_0000
            * le_bytes(word)[5] + 0x1_0000_0000_0000 * le_bytes(word)[6] + 0x100_0000_0000_0000
            * le_bytes(word)[7],
{
    let w = word as int;
    lemma_divide_bytewise(w);
    let b = le_bytes(word);
    let q1 = w / 0x100;
    let q2 = w / 0x1_0000;
    let q3 = w / 0x100_0000;
    let q4 = w / 0x1_0000_0000;
    let q5 = w / 0x100_0000_0000;
    let q6 = w / 0x1_0000_0000_0000;
    let q7 = w / 0x100_0000_0000_0000;
    assert(w == b[0] + 0x100 * q1);
    assert(q1 == b[1] + 0x100 * q2);
    assert(q2 == b[2] + 0x100 * q3);
    assert(q3 == b[3] + 0x100 * q4);
    assert(q4 == b[4] + 0x100 * q5);
    assert(q5 == b[5] + 0x100 * q6);
    assert(q6 == b[6] + 0x100 * q7);
    assert(q7 == b[7]);
}

/// The word that an encoding was made from is the one read back from it.
pub proof fn lemma_le_read_back(word: u64)
    ensures
        le_u64(le_bytes(word), 0) == word,
{
    lemma_word_is_the_sum_of_its_encoding(word);
}

/// Reads the little-endian word that starts at byte `at`.
pub fn read_u64(bytes: &[u8], at: usize) -> (word: u64)
    requires
        at + 8 <= bytes@.len(),
    ensures
        word == le_u64(bytes@, at as int),
{
    bytes[at] as u64 + 0x100 * (bytes[at + 1] as u64) + 0x1_0000 * (bytes[at + 2] as u64)
        + 0x100_0000 * (bytes[at + 3] as u64) + 0x1_0000_0000 * (bytes[at + 4] as u64)
        + 0x100_0000_0000 * (bytes[at + 5] as u64) + 0x1_0000_0000_0000 * (bytes[at + 6] as u64)
        + 0x100_0000_0000_0000 * (bytes[at + 7] as u64)
}

/// Encodes `word` in little-endian order.
pub fn encode_u64(word: u64) -> (bytes: [u8; 8])
    ensures
        bytes@ == le_bytes(word),
{
    let bytes: [u8; 8] = [
        (word % 0x100) as u8,
        (word / 0x100 % 0x100) as u8,
        (word / 0x1_0000 % 0x100) as u8,
        (word / 0x100_0000 % 0x100) as u8,
        (word / 0x1_0000_0000 % 0x100) as u8,
        (word / 0x100_0000_0000 % 0x100) as u8,
        (word / 0x1_0000_0000_0000 % 0x100) as u8,
        (word / 0x100_0000_0000_0000 % 0x100) as u8,
    ];
    assert(bytes@ =~= le_bytes(word));
    bytes
}

} // verus!
