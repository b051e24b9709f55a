//! What holds of the hash as a whole.
use vstd::prelude::*;

use crate::large::Vector;
use crate::secret::{stripes_per_block, DEFAULT_SECRET_RAW};
use crate::streaming::{absorbed, is_hash, Finalize, CUTOFF};
use crate::stripes::{absorb_stripes, initial_state, stripes_of};

verus! {

/// What was written after some pieces were written one by one.
pub open spec fn after_writes(written: Seq<u8>, pieces: Seq<Seq<u8>>) -> Seq<u8>
    decreases pieces.len(),
{
    if pieces.len() == 0 {
        written
    } else {
        after_writes(written, pieces.drop_last()) + pieces.last()
    }
}

/// Writing pieces one by one is writing their concatenation.
pub proof fn lemma_pieces_concatenate(written: Seq<u8>, pieces: Seq<Seq<u8>>)
    ensures
        after_writes(written, pieces) == written + pieces.flatten(),
    decreases pieces.len(),
{
    if pieces.len() == 0 {
        assert(written + pieces.flatten() =~= written);
    } else {
        let rest = pieces.drop_last();
        lemma_pieces_concatenate(written, rest);
        pieces.lemma_flatten_and_flatten_alt_are_equivalent();
        rest.lemma_flatten_and_flatten_alt_are_equivalent();
        assert(after_writes(written, pieces) =~= written + pieces.flatten());
    }
}

/// Where the input is cut into pieces does not show in the hash.
pub proof fn lemma_cuts_do_not_show<F: Finalize, V: Vector>(
    finalize: F,
    vector: V,
    seed: u64,
    secret: Seq<u8>,
    pieces: Seq<Seq<u8>>,
    other_pieces: Seq<Seq<u8>>,
    output: F::Output,
)
    requires
        pieces.flatten() == other_pieces.flatten(),
    ensures
        is_hash(
            finalize,
            vector,
            seed,
            secret,
            after_writes(Seq::empty(), pieces),
            output,
        ) == is_hash(
            finalize,
            vector,
            seed,
            secret,
            after_writes(Seq::empty(), other_pieces),
            output,
        ),
{
    lemma_pieces_concatenate(Seq::empty(), pieces);
    lemma_pieces_concatenate(Seq::empty(), other_pieces);
}

/// However a short input was cut, the finalizer is handed all of it in the
/// order in which it was written, with the seed and the default secret.
pub proof fn lemma_short_input_is_handed_whole<F: Finalize, V: Vector>(
    finalize: F,
    vector: V,
    seed: u64,
    secret: Seq<u8>,
    pieces: Seq<Seq<u8>>,
    output: F::Output,
)
    requires
        pieces.flatten().len() <= CUTOFF,
    ensures
        is_hash(
            finalize,
            vector,
            seed,
            secret,
            after_writes(Seq::empty(), pieces),
            output,
        ) == finalize.small_hash(DEFAULT_SECRET_RAW@, seed, pieces.flatten(), output),
{
    lemma_pieces_concatenate(Seq::empty(), pieces);
    assert(Seq::<u8>::empty() + pieces.flatten() =~= pieces.flatten());
}

/// However a long input was cut, the finalizer is handed the accumulators
/// after all the complete stripes that leave at least one byte behind, the
/// bytes behind those, the last stripe's worth of bytes, the hasher's own
/// secret, the length of the input and the vector.
pub proof fn lemma_long_input_is_handed_in_parts<F: Finalize, V: Vector>(
    finalize: F,
    vector: V,
    seed: u64,
    secret: Seq<u8>,
    pieces: Seq<Seq<u8>>,
    output: F::Output,
)
    requires
        pieces.flatten().len() > CUTOFF,
    ensures
        ({
            let input = pieces.flatten();
            let len = input.len() as int;
            let k = (len - 1) / 64;
            let acc = absorb_stripes(
                initial_state(),
                stripes_of(input).take(k),
                stripes_per_block(secret),
                secret,
            ).accumulator;
            let last_block = input.subrange(64 * k, len);
            let last_stripe = input.subrange(len - 64, len);
            &&& 1 <= last_block.len() <= 64
            &&& is_hash(
                finalize,
                vector,
                seed,
                secret,
                after_writes(Seq::empty(), pieces),
                output,
            ) == {
                &&& finalize.large_hash(acc, last_block, last_stripe, secret, len, output)
                &&& finalize.large_hash_with(
                    vector,
                    acc,
                    last_block,
                    last_stripe,
                    secret,
                    len,
                    output,
                )
            }
        }),
{
    reveal(absorbed);
    let input = pieces.flatten();
    let k = (input.len() - 1) / 64;
    lemma_pieces_concatenate(Seq::empty(), pieces);
    assert(Seq::<u8>::empty() + input =~= input);
    let leading = stripes_of(input.subrange(0, 64 * k));
    assert forall|i: int| 0 <= i < k implies #[trigger] leading[i] == stripes_of(input)[i] by {
        assert(input.subrange(0, 64 * k).subrange(64 * i, 64 * i + 64) =~= input.subrange(
            64 * i,
            64 * i + 64,
        ));
    }
    assert(leading =~= stripes_of(input).take(k));
}

/// A finalizer whose results depend on nothing but what it is handed gives
/// an input only one hash. For a short input it is enough that its results
/// on short inputs do, and likewise for a long one.
pub proof fn lemma_hash_is_unique<F: Finalize, V: Vector>(
    finalize: F,
    vector: V,
    seed: u64,
    secret: Seq<u8>,
    input: Seq<u8>,
    output: F::Output,
    other_output: F::Output,
)
    requires
        input.len() <= CUTOFF ==> forall|s: Seq<u8>, x: u64, i: Seq<u8>, a: F::Output, b: F::Output|
            #[trigger] finalize.small_hash(s, x, i, a) && #[trigger] finalize.small_hash(s, x, i, b)
                ==> a == b,
        input.len() > CUTOFF ==> forall|
            acc: Seq<u64>,
            block: Seq<u8>,
            stripe: Seq<u8>,
            s: Seq<u8>,
            len: int,
            a: F::Output,
            b: F::Output,
        |
            #[trigger] finalize.large_hash(acc, block, stripe, s, len, a)
                && #[trigger] finalize.large_hash(acc, block, stripe, s, len, b) ==> a == b,
        is_hash(finalize, vector, seed, secret, input, output),
        is_hash(finalize, vector, seed, secret, input, other_output),
    ensures
        output == other_output,
{
}

/// The hash of a short input does not depend on the secret of the hasher.
pub proof fn lemma_short_hash_ignores_secret<F: Finalize, V: Vector>(
    finalize: F,
    vector: V,
    seed: u64,
    secret: Seq<u8>,
    other_secret: Seq<u8>,
    input: Seq<u8>,
    output: F::Output,
)
    requires
        input.len() <= CUTOFF,
    ensures
        is_hash(finalize, vector, seed, secret, input, output) == is_hash(
            finalize,
            vector,
            seed,
            other_secret,
            input,
            output,
        ),
{
}

/// The hash of a long input depends on the seed through the secret only.
pub proof fn lemma_long_hash_ignores_seed<F: Finalize, V: Vector>(
    finalize: F,
    vector: V,
    seed: u64,
    other_seed: u64,
    secret: Seq<u8>,
    input: Seq<u8>,
    output: F::Output,
)
    requires
        input.len() > CUTOFF,
    ensures
        is_hash(finalize, vector, seed, secret, input, output) == is_hash(
            finalize,
            vector,
            other_seed,
            secret,
            input,
            output,
        ),
{
}

} // verus!
