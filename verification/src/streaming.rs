//! Hashing a stream of bytes that arrives in pieces.
use vstd::prelude::*;

pub use crate::buffer::{
    AllocSecretBuffer, FixedBuffer, FixedMutBuffer, SecretBuffer, SecretTooShortError,
    SecretWithSeedError,
};
use crate::buffer::{cleared, Buffer, BUFFERED_BYTES};
use crate::large::avx512::Impl;
use crate::large::{accumulated, scrambled, Vector, INITIAL_ACCUMULATORS};
use crate::secret::{
    copy_stripe, derived_secret, stripes_per_block, Secret, DEFAULT_SECRET_RAW, DEFAULT_SEED,
    SECRET_MINIMUM_LENGTH,
};
use crate::stripes::{
    absorb_stripes, as_stripes, initial_state, leading_stripes, lemma_absorb_concat,
    lemma_absorb_next, lemma_block_position, lemma_stripes_of_concat, stripes_of,
    stripes_with_tail, StripeState, STRIPE_BYTES,
};
pub use crate::stripes::StripeAccumulator;

verus! {

/// The length of the longest input that is hashed without accumulators.
pub const CUTOFF: usize = 240;

/// The state of the accumulators after all the complete stripes of `input`.
#[verifier::opaque]
pub open spec fn absorbed(secret: Seq<u8>, input: Seq<u8>) -> StripeState {
    absorb_stripes(initial_state(), stripes_of(input), stripes_per_block(secret), secret)
}

/// How the two kinds of input are turned into a hash.
pub trait Finalize {
    /// The hash.
    type Output;

    /// What holds of the hash of a short input. An implementation that
    /// leaves this out promises nothing.
    open spec fn small_hash(
        &self,
        secret: Seq<u8>,
        seed: u64,
        input: Seq<u8>,
        output: Self::Output,
    ) -> bool {
        true
    }

    /// What holds of the hash of a long input. An implementation that
    /// leaves this out promises nothing.
    open spec fn large_hash(
        &self,
        acc: Seq<u64>,
        last_block: Seq<u8>,
        last_stripe: Seq<u8>,
        secret: Seq<u8>,
        len: int,
        output: Self::Output,
    ) -> bool {
        true
    }

    /// What else holds of the hash of a long input that was made with
    /// `vector`. As the choice of the vector never shows in the results,
    /// there is nothing that an implementation has to say here.
    open spec fn large_hash_with<V: Vector>(
        &self,
        vector: V,
        acc: Seq<u64>,
        last_block: Seq<u8>,
        last_stripe: Seq<u8>,
        secret: Seq<u8>,
        len: int,
        output: Self::Output,
    ) -> bool {
        true
    }

    /// Hashes an input of at most [`CUTOFF`] bytes.
    fn small(&self, secret: &Secret<'_>, seed: u64, input: &[u8]) -> (output: Self::Output)
        requires
            input@.len() <= CUTOFF,
        ensures
            self.small_hash(secret@, seed, input@, output),
    ;

    /// Hashes a longer input, from the accumulators after its leading
    /// stripes, the bytes behind those stripes, the last stripe's worth of
    /// bytes and the length of the input.
    fn large<V: Vector>(
        &self,
        vector: V,
        acc: [u64; 8],
        last_block: &[u8],
        last_stripe: &[u8; 64],
        secret: &Secret<'_>,
        len: usize,
    ) -> (output: Self::Output)
        requires
            0 < last_block@.len() <= STRIPE_BYTES,
            CUTOFF < len,
        ensures
            self.large_hash(acc@, last_block@, last_stripe@, secret@, len as int, output),
            self.large_hash_with(
                vector,
                acc@,
                last_block@,
                last_stripe@,
                secret@,
                len as int,
                output,
            ),
    ;
}

/// `output` is a hash of `input`: what the finalizer makes of it when it is
/// handed `vector` to work with.
///
/// A short input is hashed under the default secret, whichever secret the
/// hasher was given.
pub open spec fn is_hash<F: Finalize, V: Vector>(
    finalize: F,
    vector: V,
    seed: u64,
    secret: Seq<u8>,
    input: Seq<u8>,
    output: F::Output,
) -> bool {
    let len = input.len() as int;
    if len <= CUTOFF {
        finalize.small_hash(DEFAULT_SECRET_RAW@, seed, input, output)
    } else {
        let leading = 64 * leading_stripes(len);
        let acc = absorbed(secret, input.subrange(0, leading)).accumulator;
        let last_block = input.subrange(leading, len);
        let last_stripe = input.subrange(len - 64, len);
        &&& finalize.large_hash(acc, last_block, last_stripe, secret, len, output)
        &&& finalize.large_hash_with(vector, acc, last_block, last_stripe, secret, len, output)
    }
}

/// Absorbing a whole number of stripes and then more bytes is absorbing
/// their concatenation.
pub proof fn lemma_absorbed_concat(secret: Seq<u8>, first: Seq<u8>, second: Seq<u8>)
    requires
        first.len() % 64 == 0,
    ensures
        absorbed(secret, first + second) == absorb_stripes(
            absorbed(secret, first),
            stripes_of(second),
            stripes_per_block(secret),
            secret,
        ),
{
    reveal(absorbed);
    lemma_stripes_of_concat(first, second);
    lemma_absorb_concat(
        initial_state(),
        stripes_of(first),
        stripes_of(second),
        stripes_per_block(secret),
        secret,
    );
}

/// The position in the block is the number of stripes absorbed so far,
/// modulo the number of stripes per block.
pub proof fn lemma_absorbed_position(secret: Seq<u8>, input: Seq<u8>)
    requires
        secret.len() >= SECRET_MINIMUM_LENGTH,
    ensures
        absorbed(secret, input).current_stripe == (input.len() / 64) as int % stripes_per_block(
            secret,
        ),
        0 <= absorbed(secret, input).current_stripe < stripes_per_block(secret),
{
    reveal(absorbed);
    lemma_block_position(initial_state(), stripes_of(input), stripes_per_block(secret), secret);
}

/// The contents of a buffer after `source` was copied to it at byte `at`.
pub open spec fn overwritten(buffer: Seq<u8>, at: int, source: Seq<u8>) -> Seq<u8> {
    buffer.take(at) + source + buffer.skip(at + source.len())
}

/// How many bytes are missing from `usage` bytes to a whole number of
/// stripes.
pub open spec fn top_up_length(usage: int) -> int {
    (64 - usage % 64) % 64
}

/// The buffer after the leading stripes of `rest` were absorbed: where less
/// than a stripe is left of `rest`, the stripe before that is kept at the end
/// of the buffer.
pub open spec fn last_stripe_kept(buffer: Seq<u8>, rest: Seq<u8>) -> Seq<u8> {
    let leading = 64 * leading_stripes(rest.len() as int);
    if leading > 0 && rest.len() - leading < STRIPE_BYTES {
        overwritten(
            buffer,
            BUFFERED_BYTES - STRIPE_BYTES,
            rest.subrange(leading - STRIPE_BYTES, leading),
        )
    } else {
        buffer
    }
}

/// The buffer after an input that does not fit behind its first `usage`
/// bytes: those are topped up to a whole number of stripes, and what is not
/// absorbed goes to the start.
pub open spec fn spilled(buffer: Seq<u8>, usage: int, input: Seq<u8>) -> Seq<u8> {
    let head = input.take(top_up_length(usage));
    let rest = input.skip(top_up_length(usage));
    overwritten(
        last_stripe_kept(overwritten(buffer, usage, head), rest),
        0,
        rest.skip(64 * leading_stripes(rest.len() as int)),
    )
}

/// Copies `source` into the buffer, starting at byte `at`.
fn copy_into(buffer: &mut Buffer, at: usize, source: &[u8])
    requires
        at + source.len() <= BUFFERED_BYTES,
    ensures
        final(buffer)@ == overwritten(old(buffer)@, at as int, source@),
{
    let mut i: usize = 0;
    while i < source.len()
        invariant
            i <= source.len(),
            at + source.len() <= BUFFERED_BYTES,
            forall|j: int| 0 <= j < at ==> #[trigger] buffer[j] == old(buffer)[j],
            forall|j: int| at <= j < at + i ==> #[trigger] buffer[j] == source[j - at],
            forall|j: int| at + i <= j < BUFFERED_BYTES ==> #[trigger] buffer[j] == old(buffer)[j],
        decreases source.len() - i,
    {
        buffer[at + i] = source[i];
        i += 1;
    }
    assert(buffer@ =~= overwritten(old(buffer)@, at as int, source@));
}

/// The first multiple of the length of a stripe that is not below `at`.
fn next_stripe_boundary(at: usize) -> (boundary: usize)
    requires
        at <= BUFFERED_BYTES,
    ensures
        boundary == at + top_up_length(at as int),
        boundary % 64 == 0,
        boundary <= BUFFERED_BYTES,
{
    (at + (STRIPE_BYTES - 1)) / STRIPE_BYTES * STRIPE_BYTES
}

/// A hasher that takes its input in pieces of any size.
pub struct RawHasherCore<S> {
    secret_buffer: SecretBuffer<S>,
    buffer_usage: usize,
    stripe_accumulator: StripeAccumulator,
    total_bytes: usize,
    written: Ghost<Seq<u8>>,
}

impl<S> RawHasherCore<S> {
    /// Everything that was written so far.
    pub closed spec fn written(&self) -> Seq<u8> {
        self.written@
    }

    /// The seed.
    pub closed spec fn seed(&self) -> u64 {
        self.secret_buffer.seed()
    }

    /// The value that holds the secret.
    pub closed spec fn secret_value(&self) -> S {
        self.secret_buffer.secret_value()
    }

    /// What the temporary buffer holds.
    pub closed spec fn buffer(&self) -> Seq<u8> {
        self.secret_buffer.buffer()
    }

    /// How many bytes at the start of the buffer have yet to be absorbed.
    pub closed spec fn usage(&self) -> int {
        self.buffer_usage as int
    }

    /// The accumulators and the position in the block.
    pub closed spec fn state(&self) -> StripeState {
        self.stripe_accumulator@
    }

    /// The count of the bytes written.
    pub closed spec fn total(&self) -> int {
        self.total_bytes as int
    }

    /// How many of the bytes written have been absorbed.
    pub open spec fn consumed(&self) -> int {
        self.written().len() - self.usage()
    }

    /// The accumulators have absorbed, under `secret`, a whole number of
    /// stripes of what was written, and the buffer starts with the rest.
    ///
    /// Something is always left in the buffer, nothing is absorbed unless
    /// the input has overflowed the buffer, and the end of the buffer keeps
    /// the stripe before the rest for as long as the rest is shorter than a
    /// stripe.
    pub open spec fn tracks(&self, secret: Seq<u8>) -> bool {
        let written = self.written();
        let usage = self.usage();
        let consumed = self.consumed();
        &&& self.total() == written.len()
        &&& self.buffer().len() == BUFFERED_BYTES
        &&& 0 <= usage <= BUFFERED_BYTES
        &&& 0 <= consumed
        &&& consumed % 64 == 0
        &&& written.len() > 0 ==> usage > 0
        &&& consumed > 0 ==> written.len() > BUFFERED_BYTES
        &&& self.state() == absorbed(secret, written.subrange(0, consumed))
        &&& self.buffer().subrange(0, usage) == written.subrange(consumed, written.len() as int)
        &&& consumed > 0 && usage < STRIPE_BYTES ==> self.buffer().subrange(
            BUFFERED_BYTES - STRIPE_BYTES,
            BUFFERED_BYTES as int,
        ) == written.subrange(consumed - STRIPE_BYTES, consumed)
    }

    /// Starts a hasher that nothing was written to.
    pub fn new(secret_buffer: SecretBuffer<S>) -> (hasher: Self)
        ensures
            hasher.seed() == secret_buffer.seed(),
            hasher.secret_value() == secret_buffer.secret_value(),
            hasher.buffer() == secret_buffer.buffer(),
            hasher.written() == Seq::<u8>::empty(),
            hasher.usage() == 0,
            hasher.state() == initial_state(),
            hasher.total() == 0,
            forall|secret: Seq<u8>| #[trigger] hasher.tracks(secret),
    {
        let hasher = RawHasherCore {
            secret_buffer,
            buffer_usage: 0,
            stripe_accumulator: StripeAccumulator::new(),
            total_bytes: 0,
            written: Ghost(Seq::empty()),
        };
        proof {
            let none = Seq::<u8>::empty();
            secret_buffer.lemma_buffer_length();
            assert forall|secret: Seq<u8>| #[trigger] hasher.tracks(secret) by {
                reveal(absorbed);
                assert(none.subrange(0, 0) =~= none);
                assert(stripes_of(none) =~= Seq::<Seq<u8>>::empty());
                assert(secret_buffer.buffer().subrange(0, 0) =~= none);
            }
        }
        hasher
    }

    /// Returns the secret.
    pub fn into_secret(self) -> (secret: S)
        ensures
            secret == self.secret_value(),
    {
        self.secret_buffer.into_secret()
    }
}

impl<S: Clone> Clone for RawHasherCore<S> {
    fn clone(&self) -> (copy: Self)
        ensures
            copy.written() == self.written(),
            copy.usage() == self.usage(),
            copy.state() == self.state(),
            copy.total() == self.total(),
            copy.buffer() == self.buffer(),
            copy.seed() == self.seed(),
            cloned::<S>(self.secret_value(), copy.secret_value()),
            forall|secret: Seq<u8>| #[trigger] copy.tracks(secret) == self.tracks(secret),
    {
        RawHasherCore {
            secret_buffer: self.secret_buffer.clone(),
            buffer_usage: self.buffer_usage,
            stripe_accumulator: self.stripe_accumulator,
            total_bytes: self.total_bytes,
            written: Ghost(self.written@),
        }
    }
}

impl<S: FixedBuffer> RawHasherCore<S> {
    /// The secret bytes.
    pub open spec fn secret_bytes(&self) -> Seq<u8> {
        self.secret_value().bytes()
    }

    /// The secret is long enough and the hasher keeps track of its input.
    pub open spec fn wf(&self) -> bool {
        &&& self.secret_bytes().len() >= SECRET_MINIMUM_LENGTH
        &&& self.tracks(self.secret_bytes())
    }

    /// Appends `input` to what was written.
    ///
    /// Nothing is absorbed as long as the input fits in the buffer. Once it
    /// does not, everything is absorbed down to the last stripe.
    pub fn write(&mut self, input: &[u8])
        requires
            old(self).wf(),
            old(self).written().len() + input@.len() <= usize::MAX,
        ensures
            final(self).wf(),
            final(self).written() == old(self).written() + input@,
            final(self).seed() == old(self).seed(),
            final(self).secret_value() == old(self).secret_value(),
            old(self).usage() + input@.len() <= BUFFERED_BYTES ==> {
                &&& final(self).usage() == old(self).usage() + input@.len()
                &&& final(self).state() == old(self).state()
                &&& final(self).buffer() == overwritten(
                    old(self).buffer(),
                    old(self).usage(),
                    input@,
                )
            },
            old(self).usage() + input@.len() > BUFFERED_BYTES ==> {
                &&& final(self).consumed() == 64 * leading_stripes(
                    final(self).written().len() as int,
                )
                &&& final(self).buffer() == spilled(
                    old(self).buffer(),
                    old(self).usage(),
                    input@,
                )
            },
            input@.len() == 0 ==> {
                &&& final(self).written() == old(self).written()
                &&& final(self).usage() == old(self).usage()
                &&& final(self).state() == old(self).state()
                &&& final(self).total() == old(self).total()
                &&& final(self).buffer() == old(self).buffer()
            },
    {
        // A write that fits entirely in the buffer never touches the
        // accumulator.
        let usage: usize = self.buffer_usage;
        if input.len() <= BUFFERED_BYTES - usage {
            let ghost before = self.secret_buffer.buffer();
            let ghost written = self.written@;
            let ghost consumed = self.consumed();
            let (_, _, buffer) = self.secret_buffer.parts_mut();
            copy_into(buffer, usage, input);
            self.buffer_usage = usage + input.len();
            self.total_bytes += input.len();
            self.written = Ghost(self.written@ + input@);
            proof {
                let after = self.secret_buffer.buffer();
                assert(self.consumed() == consumed);
                assert(self.written@.subrange(0, consumed) =~= written.subrange(0, consumed));
                assert(after.subrange(0, self.buffer_usage as int) =~= before.subrange(
                    0,
                    usage as int,
                ) + input@);
                assert(self.written@.subrange(consumed, self.written@.len() as int)
                    =~= written.subrange(consumed, written.len() as int) + input@);
                if consumed > 0 && self.buffer_usage < STRIPE_BYTES {
                    assert(after.subrange(
                        BUFFERED_BYTES - STRIPE_BYTES,
                        BUFFERED_BYTES as int,
                    ) =~= before.subrange(BUFFERED_BYTES - STRIPE_BYTES, BUFFERED_BYTES as int));
                    assert(self.written@.subrange(consumed - STRIPE_BYTES, consumed)
                        =~= written.subrange(consumed - STRIPE_BYTES, consumed));
                }
            }
            return;
        }
        write_impl(Impl::new_unchecked(), self, input)
    }

    /// Hashes what was written. More can be written afterwards.
    pub fn finish<F: Finalize>(&self, finalize: F) -> (output: F::Output)
        requires
            self.wf(),
        ensures
            is_hash(
                finalize,
                Impl::only(),
                self.seed(),
                self.secret_bytes(),
                self.written(),
                output,
            ),
    {
        finish_impl(Impl::new_unchecked(), self, finalize)
    }
}

/// What the counts of a hasher are after any writes.
///
/// Every byte is counted, and the count fits a `usize`. What has been absorbed is a whole number of
/// stripes, and there is some exactly when more was written than the buffer
/// has room for, which is always more than [`CUTOFF`]. At least one byte is
/// left in the buffer, unless nothing was written. The accumulators have
/// absorbed what is not in the buffer, and the position in the block is the
/// number of those stripes modulo the number of stripes per block.
pub proof fn lemma_counts<S: FixedBuffer>(hasher: RawHasherCore<S>)
    requires
        hasher.wf(),
    ensures
        ({
            let len = hasher.written().len() as int;
            let usage = hasher.usage();
            &&& hasher.total() == len
            &&& len <= usize::MAX
            &&& 0 <= usage <= BUFFERED_BYTES
            &&& usage <= len
            &&& (len - usage) % 64 == 0
            &&& usage == 0 <==> len == 0
            &&& usage == len <==> len <= BUFFERED_BYTES
            &&& usage < len ==> len > CUTOFF
            &&& hasher.state() == absorbed(
                hasher.secret_bytes(),
                hasher.written().subrange(0, len - usage),
            )
            &&& hasher.state().current_stripe == (len - usage) / 64 % stripes_per_block(
                hasher.secret_bytes(),
            )
        }),
{
    lemma_absorbed_position(
        hasher.secret_bytes(),
        hasher.written().subrange(0, hasher.consumed()),
    );
}

/// What the buffer of a hasher holds after any writes.
///
/// It starts with the bytes that were not absorbed. Where those are less
/// than a stripe of an input that has overflowed the buffer, its end holds
/// the bytes that precede them, so the last stripe's worth of bytes written
/// can always be rebuilt from the buffer.
pub proof fn lemma_buffer_contents<S: FixedBuffer>(hasher: RawHasherCore<S>)
    requires
        hasher.wf(),
    ensures
        ({
            let written = hasher.written();
            let len = written.len() as int;
            let buffer = hasher.buffer();
            let usage = hasher.usage();
            &&& buffer.len() == BUFFERED_BYTES
            &&& buffer.subrange(0, usage) == written.subrange(len - usage, len)
            &&& len > BUFFERED_BYTES && usage < 64 ==> {
                &&& buffer.subrange(BUFFERED_BYTES - 64 + usage, BUFFERED_BYTES as int)
                    == written.subrange(len - 64, len - usage)
                &&& buffer.subrange(BUFFERED_BYTES - 64 + usage, BUFFERED_BYTES as int)
                    + buffer.subrange(0, usage) == written.subrange(len - 64, len)
            }
            &&& usage >= 64 ==> buffer.subrange(usage - 64, usage) == written.subrange(
                len - 64,
                len,
            )
        }),
{
    let written = hasher.written();
    let len = written.len() as int;
    let buffer = hasher.buffer();
    let usage = hasher.usage();
    let rest = buffer.subrange(0, usage);
    if len > BUFFERED_BYTES && usage < 64 {
        let kept = buffer.subrange(BUFFERED_BYTES - 64, BUFFERED_BYTES as int);
        let before = buffer.subrange(BUFFERED_BYTES - 64 + usage, BUFFERED_BYTES as int);
        assert(before =~= kept.subrange(usage, 64));
        assert(kept.subrange(usage, 64) =~= written.subrange(len - 64, len - usage));
        assert(before + rest =~= written.subrange(len - 64, len));
    }
    if usage >= 64 {
        assert(buffer.subrange(usage - 64, usage) =~= rest.subrange(usage - 64, usage));
        assert(rest.subrange(usage - 64, usage) =~= written.subrange(len - 64, len));
    }
}

/// Topping the buffer up to a whole number of stripes and absorbing those
/// absorbs all that was written before and the bytes of the top-up.
proof fn lemma_top_up(key: Seq<u8>, written: Seq<u8>, usage: int, buffer: Seq<u8>, head: Seq<u8>)
    requires
        0 <= usage <= written.len(),
        (written.len() - usage) % 64 == 0,
        buffer.len() == BUFFERED_BYTES,
        buffer.subrange(0, usage) == written.subrange(written.len() - usage, written.len() as int),
        (usage + head.len()) % 64 == 0,
        usage + head.len() <= BUFFERED_BYTES,
    ensures
        (written + head).len() % 64 == 0,
        absorbed(key, written + head) == absorb_stripes(
            absorbed(key, written.subrange(0, written.len() - usage)),
            stripes_of(overwritten(buffer, usage, head).take(usage + head.len())),
            stripes_per_block(key),
            key,
        ),
        usage + head.len() == BUFFERED_BYTES ==> overwritten(buffer, usage, head).subrange(
            BUFFERED_BYTES - STRIPE_BYTES,
            BUFFERED_BYTES as int,
        ) == (written + head).subrange(
            (written + head).len() - STRIPE_BYTES,
            (written + head).len() as int,
        ),
{
    let filled = overwritten(buffer, usage, head).take(usage + head.len());
    let front = written.subrange(0, written.len() - usage);
    let saved = written.subrange(written.len() - usage, written.len() as int);
    assert(filled =~= buffer.subrange(0, usage) + head);
    assert(written =~= front + saved);
    assert(written + head =~= front + filled);
    lemma_absorbed_concat(key, front, filled);
    if usage + head.len() == BUFFERED_BYTES {
        assert(overwritten(buffer, usage, head) =~= filled);
        assert((front + filled).subrange(
            (front + filled).len() - STRIPE_BYTES,
            (front + filled).len() as int,
        ) =~= filled.subrange(BUFFERED_BYTES - STRIPE_BYTES, BUFFERED_BYTES as int));
    }
}

/// A whole number of stripes in front moves the end of the leading stripes
/// by just as much.
proof fn lemma_leading_after(front: int, rest: int)
    requires
        0 <= front,
        front % 64 == 0,
        rest > 0,
    ensures
        64 * leading_stripes(front + rest) == front + 64 * leading_stripes(rest),
        0 <= 64 * leading_stripes(rest) < rest <= 64 * leading_stripes(rest) + 64,
{
}

/// Absorbing the leading stripes of `rest` after `front` absorbs the leading
/// stripes of both.
proof fn lemma_bulk(key: Seq<u8>, front: Seq<u8>, rest: Seq<u8>)
    requires
        front.len() % 64 == 0,
        rest.len() > 0,
    ensures
        ({
            let leading = 64 * leading_stripes(rest.len() as int);
            &&& 64 * leading_stripes((front + rest).len() as int) == front.len() + leading
            &&& (front + rest).subrange(0, front.len() + leading) == front + rest.take(leading)
            &&& absorbed(key, front + rest.take(leading)) == absorb_stripes(
                absorbed(key, front),
                stripes_of(rest.take(leading)),
                stripes_per_block(key),
                key,
            )
        }),
{
    let leading = 64 * leading_stripes(rest.len() as int);
    lemma_leading_after(front.len() as int, rest.len() as int);
    assert((front + rest).subrange(0, front.len() + leading) =~= front + rest.take(leading));
    lemma_absorbed_concat(key, front, rest.take(leading));
}

/// The buffer after its start was refilled with what is left of `rest`: its
/// end holds what precedes that, if it did so before where nothing of `rest`
/// was absorbed.
proof fn lemma_refill(buffer: Seq<u8>, front: Seq<u8>, rest: Seq<u8>)
    requires
        buffer.len() == BUFFERED_BYTES,
        rest.len() > 0,
        rest.len() < STRIPE_BYTES ==> front.len() >= STRIPE_BYTES && buffer.subrange(
            BUFFERED_BYTES - STRIPE_BYTES,
            BUFFERED_BYTES as int,
        ) == front.subrange(front.len() - STRIPE_BYTES, front.len() as int),
    ensures
        ({
            let leading = 64 * leading_stripes(rest.len() as int);
            let left = rest.skip(leading);
            let refilled = overwritten(last_stripe_kept(buffer, rest), 0, left);
            let total = front + rest;
            let consumed = front.len() + leading;
            &&& refilled.len() == BUFFERED_BYTES
            &&& refilled.subrange(0, left.len() as int) == total.subrange(
                consumed,
                total.len() as int,
            )
            &&& left.len() < STRIPE_BYTES ==> refilled.subrange(
                BUFFERED_BYTES - STRIPE_BYTES,
                BUFFERED_BYTES as int,
            ) == total.subrange(consumed - STRIPE_BYTES, consumed)
        }),
{
    let leading = 64 * leading_stripes(rest.len() as int);
    let left = rest.skip(leading);
    let kept = last_stripe_kept(buffer, rest);
    let refilled = overwritten(kept, 0, left);
    let total = front + rest;
    let consumed = front.len() + leading;
    assert(total.subrange(consumed, total.len() as int) =~= left);
    assert(refilled.subrange(0, left.len() as int) =~= left);
    if left.len() < STRIPE_BYTES {
        let end = kept.subrange(BUFFERED_BYTES - STRIPE_BYTES, BUFFERED_BYTES as int);
        assert(refilled.subrange(BUFFERED_BYTES - STRIPE_BYTES, BUFFERED_BYTES as int) =~= end);
        if leading > 0 {
            assert(end =~= rest.subrange(leading - STRIPE_BYTES, leading));
            assert(total.subrange(consumed - STRIPE_BYTES, consumed) =~= end);
        } else {
            assert(total.subrange(consumed - STRIPE_BYTES, consumed) =~= front.subrange(
                front.len() - STRIPE_BYTES,
                front.len() as int,
            ));
        }
    }
}

/// Tops the first `usage` bytes of the buffer up to a whole number of stripes
/// and absorbs those. Returns the input behind the top-up.
///
/// Filling the rest of the buffer would only copy bytes that can be read
/// straight from the input.
fn top_up<'a, V: Vector>(
    vector: V,
    accumulator: &mut StripeAccumulator,
    buffer: &mut Buffer,
    usage: usize,
    input: &'a [u8],
    n_stripes: usize,
    secret: &Secret<'_>,
) -> (rest: &'a [u8])
    requires
        usage <= BUFFERED_BYTES,
        usage + input@.len() > BUFFERED_BYTES,
        old(accumulator)@.current_stripe < n_stripes <= stripes_per_block(secret@),
    ensures
        ({
            let length = top_up_length(usage as int);
            &&& rest@ == input@.skip(length)
            &&& rest@.len() > 0
            &&& final(buffer)@ == overwritten(old(buffer)@, usage as int, input@.take(length))
            &&& final(accumulator)@ == absorb_stripes(
                old(accumulator)@,
                stripes_of(final(buffer)@.take(usage + length)),
                n_stripes as int,
                secret@,
            )
        }),
{
    let stripe_point: usize = next_stripe_boundary(usage);
    let (head, rest) = input.split_at(stripe_point - usage);
    copy_into(buffer, usage, head);
    let (stripes, _) = as_stripes(&buffer[0..stripe_point]);
    accumulator.process_stripes(vector, stripes, n_stripes, secret);
    rest
}

/// Absorbs the leading stripes of the input in place, and returns what is
/// left of it.
///
/// Anything left over gets copied into the buffer and back out again later,
/// so there is no reason to leave more than we have to. Stopping a byte short
/// of the end keeps at least one stripe that the accumulation loop has not
/// already consumed, which is what the finalization needs.
fn absorb_in_place<'a, V: Vector>(
    vector: V,
    accumulator: &mut StripeAccumulator,
    buffer: &mut Buffer,
    rest: &'a [u8],
    n_stripes: usize,
    secret: &Secret<'_>,
) -> (left: &'a [u8])
    requires
        rest@.len() > 0,
        old(accumulator)@.current_stripe < n_stripes <= stripes_per_block(secret@),
    ensures
        ({
            let leading = 64 * leading_stripes(rest@.len() as int);
            &&& left@ == rest@.skip(leading)
            &&& final(buffer)@ == last_stripe_kept(old(buffer)@, rest@)
            &&& final(accumulator)@ == absorb_stripes(
                old(accumulator)@,
                stripes_of(rest@.take(leading)),
                n_stripes as int,
                secret@,
            )
        }),
{
    if rest.len() <= STRIPE_BYTES {
        assert(rest@.skip(0) =~= rest@);
        return rest;
    }
    let full_buffer_point: usize = (rest.len() - 1) / STRIPE_BYTES * STRIPE_BYTES;
    let (head, left) = rest.split_at(full_buffer_point);
    let (stripes, _) = as_stripes(head);
    accumulator.process_stripes(vector, stripes, n_stripes, secret);

    // Finalizing with fewer than `STRIPE_BYTES` buffered rebuilds
    // the last stripe from the end of the buffer, so keep the
    // bytes that precede the buffered tail there. The tail only
    // ever grows, so a long enough one will never need this.
    if left.len() < STRIPE_BYTES {
        let (_, last_stripe) = head.split_at(full_buffer_point - STRIPE_BYTES);
        assert(last_stripe@ =~= rest@.subrange(
            full_buffer_point - STRIPE_BYTES,
            full_buffer_point as int,
        ));
        copy_into(buffer, BUFFERED_BYTES - STRIPE_BYTES, last_stripe);
    }
    left
}

/// Appends input that does not fit in what is left of the buffer.
fn write_impl<S: FixedBuffer, V: Vector>(vector: V, this: &mut RawHasherCore<S>, input: &[u8])
    requires
        old(this).wf(),
        old(this).written().len() + input@.len() <= usize::MAX,
        old(this).usage() + input@.len() > BUFFERED_BYTES,
    ensures
        final(this).wf(),
        final(this).written() == old(this).written() + input@,
        final(this).seed() == old(this).seed(),
        final(this).secret_value() == old(this).secret_value(),
        final(this).consumed() == 64 * leading_stripes(final(this).written().len() as int),
        final(this).buffer() == spilled(old(this).buffer(), old(this).usage(), input@),
{
    let n_stripes: usize = this.secret_buffer.n_stripes();
    let usage: usize = this.buffer_usage;
    let ghost key = this.secret_bytes();
    let ghost written = this.written@;
    let ghost head = input@.take(top_up_length(usage as int));
    let ghost front = written + head;
    proof {
        lemma_absorbed_position(key, written.subrange(0, this.consumed()));
        lemma_top_up(key, written, usage as int, this.buffer(), head);
        lemma_absorbed_position(key, front);
    }

    this.total_bytes += input.len();
    let (_, secret, buffer) = this.secret_buffer.parts_mut();
    let accumulator = &mut this.stripe_accumulator;
    let rest = top_up(vector, accumulator, buffer, usage, input, n_stripes, &secret);
    proof {
        assert(front + rest@ =~= written + input@);
        lemma_bulk(key, front, rest@);
        lemma_refill(buffer@, front, rest@);
    }
    let left = absorb_in_place(vector, accumulator, buffer, rest, n_stripes, &secret);

    // Any remaining data fits in the buffer, and the buffer is empty,
    // so just fill up the buffer.
    copy_into(buffer, 0, left);
    this.buffer_usage = left.len();
    this.written = Ghost(this.written@ + input@);
}

/// Joins two pieces into one stripe.
fn join_stripe(first: &[u8], second: &[u8]) -> (stripe: [u8; 64])
    requires
        first.len() + second.len() == 64,
    ensures
        stripe@ == first@ + second@,
{
    let mut stripe: [u8; 64] = [0; 64];
    let mut i: usize = 0;
    while i < 64
        invariant
            i <= 64,
            first.len() + second.len() == 64,
            forall|j: int| 0 <= j < i ==> #[trigger] stripe[j] == (first@ + second@)[j],
        decreases 64 - i,
    {
        stripe[i] = if i < first.len() {
            first[i]
        } else {
            second[i - first.len()]
        };
        i += 1;
    }
    assert(stripe@ =~= first@ + second@);
    stripe
}

/// Absorbing the leading stripes of the buffered rest absorbs the leading
/// stripes of everything that was written.
proof fn lemma_absorb_rest(key: Seq<u8>, written: Seq<u8>, usage: int)
    requires
        0 < usage <= written.len(),
        (written.len() - usage) % 64 == 0,
    ensures
        ({
            let len = written.len() as int;
            let rest = written.subrange(len - usage, len);
            let leading = 64 * leading_stripes(usage);
            &&& absorbed(key, written.subrange(0, 64 * leading_stripes(len))) == absorb_stripes(
                absorbed(key, written.subrange(0, len - usage)),
                stripes_of(rest.subrange(0, leading)),
                stripes_per_block(key),
                key,
            )
            &&& rest.subrange(leading, usage) == written.subrange(64 * leading_stripes(len), len)
        }),
{
    let len = written.len() as int;
    let rest = written.subrange(len - usage, len);
    let leading = 64 * leading_stripes(usage);
    lemma_leading_after(len - usage, usage);
    assert(written.subrange(0, 64 * leading_stripes(len)) =~= written.subrange(0, len - usage)
        + rest.subrange(0, leading));
    lemma_absorbed_concat(key, written.subrange(0, len - usage), rest.subrange(0, leading));
    assert(rest.subrange(leading, usage) =~= written.subrange(64 * leading_stripes(len), len));
}

/// Hashes what was written, working with the given vector.
pub fn finish_impl<S: FixedBuffer, F: Finalize, V: Vector>(
    vector: V,
    this: &RawHasherCore<S>,
    finalize: F,
) -> (output: F::Output)
    requires
        this.wf(),
    ensures
        is_hash(
            finalize,
            vector,
            this.seed(),
            this.secret_bytes(),
            this.written(),
            output,
        ),
{
    let n_stripes: usize = this.secret_buffer.n_stripes();
    let (seed, secret, buffer) = this.secret_buffer.parts();
    let usage: usize = this.buffer_usage;
    let ghost written = this.written@;
    let ghost consumed = this.consumed();

    if this.total_bytes > CUTOFF {
        let input: &[u8] = &buffer[0..usage];
        let mut stripe_accumulator: StripeAccumulator = this.stripe_accumulator;

        // Ingest final stripes
        let (stripes, remainder) = stripes_with_tail(input);
        proof {
            lemma_absorbed_position(secret@, written.subrange(0, consumed));
            lemma_absorb_rest(secret@, written, usage as int);
        }
        stripe_accumulator.process_stripes(vector, stripes, n_stripes, &secret);

        let last_stripe: [u8; 64] = if usage >= 64 {
            copy_stripe(input, usage - 64)
        } else {
            let n_to_reuse: usize = 64 - usage;
            join_stripe(&buffer[BUFFERED_BYTES - n_to_reuse..BUFFERED_BYTES], input)
        };
        proof {
            let len = written.len() as int;
            if usage < 64 {
                let kept = buffer@.subrange(
                    BUFFERED_BYTES - STRIPE_BYTES,
                    BUFFERED_BYTES as int,
                );
                assert(buffer@.subrange(BUFFERED_BYTES - (64 - usage), BUFFERED_BYTES as int)
                    =~= kept.subrange(usage as int, 64));
                assert(written.subrange(len - 64, len) =~= written.subrange(
                    consumed - 64,
                    consumed,
                ).subrange(usage as int, 64) + input@);
            } else {
                assert(written.subrange(len - 64, len) =~= input@.subrange(
                    usage - 64,
                    usage as int,
                ));
            }
        }

        finalize.large(
            vector,
            stripe_accumulator.accumulator(),
            remainder,
            &last_stripe,
            &secret,
            this.total_bytes,
        )
    } else {
        proof {
            assert(written.subrange(0, written.len() as int) =~= written);
        }
        finalize.small(&Secret::default_secret(), seed, &buffer[0..this.total_bytes])
    }
}

/// A hasher that owns its secret on the heap.
pub type AllocRawHasher = RawHasherCore<Box<[u8]>>;

impl AllocRawHasher {
    /// Starts a hasher with the default seed and secret.
    pub fn allocate_default() -> (hasher: Self)
        ensures
            hasher.wf(),
            hasher.written() == Seq::<u8>::empty(),
            hasher.buffer() == cleared(),
            hasher.seed() == DEFAULT_SEED,
            hasher.secret_bytes() == DEFAULT_SECRET_RAW@,
    {
        Self::new(SecretBuffer::allocate_default())
    }

    /// Starts a hasher with a secret that is derived from the seed.
    pub fn allocate_with_seed(seed: u64) -> (hasher: Self)
        ensures
            hasher.wf(),
            hasher.written() == Seq::<u8>::empty(),
            hasher.buffer() == cleared(),
            hasher.seed() == seed,
            hasher.secret_bytes() == derived_secret(seed, DEFAULT_SECRET_RAW@),
    {
        Self::new(SecretBuffer::allocate_with_seed(seed))
    }

    /// Starts a hasher with the provided seed and secret.
    pub fn allocate_with_seed_and_secret<I: Into<Box<[u8]>>>(seed: u64, secret: I) -> (result:
        Result<Self, SecretTooShortError<Box<[u8]>>>)
        ensures
            result matches Ok(hasher) ==> {
                &&& call_ensures(<I as Into<Box<[u8]>>>::into, (secret,), hasher.secret_value())
                &&& hasher.wf()
                &&& hasher.written() == Seq::<u8>::empty()
                &&& hasher.buffer() == cleared()
                &&& hasher.seed() == seed
            },
            result matches Err(error) ==> {
                &&& call_ensures(<I as Into<Box<[u8]>>>::into, (secret,), error.secret())
                &&& error.secret().bytes().len() < SECRET_MINIMUM_LENGTH
            },
    {
        match SecretBuffer::allocate_with_seed_and_secret(seed, secret) {
            Ok(secret_buffer) => Ok(Self::new(secret_buffer)),
            Err(error) => Err(error),
        }
    }
}

/// The longest input that is hashed without accumulators has 240 bytes.
pub proof fn lemma_cutoff()
    ensures
        CUTOFF == 240,
        CUTOFF < BUFFERED_BYTES,
{
}

/// Before the first complete stripe the accumulators are the initial ones.
pub proof fn lemma_absorbed_nothing(secret: Seq<u8>, input: Seq<u8>)
    requires
        input.len() < 64,
    ensures
        absorbed(secret, input).accumulator == INITIAL_ACCUMULATORS@,
        absorbed(secret, input).current_stripe == 0,
{
    reveal(absorbed);
}

/// What the stripe behind a whole number of stripes does, whatever it holds.
///
/// With `n` stripes in front of it, and blocks of `(secret.len() - 64) / 8`
/// stripes, it has position `p`, which is `n` modulo the length of a block.
/// It is accumulated under the bytes `8 * p .. 8 * p + 64` of the secret, and
/// followed by a scramble with the last 64 bytes if it is the last of its
/// block.
pub proof fn lemma_absorbed_next(secret: Seq<u8>, front: Seq<u8>, stripe: Seq<u8>)
    requires
        secret.len() >= 136,
        front.len() % 64 == 0,
        stripe.len() == 64,
    ensures
        ({
            let block = (secret.len() - 64) / 8;
            let p = (front.len() / 64) as int % block;
            let before = absorbed(secret, front).accumulator;
            let after = absorbed(secret, front + stripe).accumulator;
            let under = accumulated(before, stripe, secret.subrange(8 * p, 8 * p + 64));
            &&& p + 1 < block ==> after == under
            &&& p + 1 == block ==> after == scrambled(
                under,
                secret.subrange(secret.len() - 64, secret.len() as int),
            )
        }),
{
    reveal(absorbed);
    let block = stripes_per_block(secret);
    lemma_stripes_of_concat(front, stripe);
    assert(stripe.subrange(0, 64) =~= stripe);
    assert(stripes_of(front) + stripes_of(stripe) =~= stripes_of(front).push(stripe));
    lemma_absorb_next(initial_state(), stripes_of(front), stripe, block, secret);
}

/// Copying into a buffer changes the bytes that are copied to and no others.
pub proof fn lemma_overwritten(buffer: Seq<u8>, at: int, source: Seq<u8>)
    requires
        0 <= at,
        at + source.len() <= buffer.len(),
    ensures
        overwritten(buffer, at, source).len() == buffer.len(),
        forall|i: int|
            0 <= i < buffer.len() ==> #[trigger] overwritten(buffer, at, source)[i] == (if at <= i
                < at + source.len() {
                source[i - at]
            } else {
                buffer[i]
            }),
{
}

/// A top-up is shorter than a stripe and ends at a whole number of stripes.
pub proof fn lemma_top_up_length(usage: int)
    requires
        0 <= usage,
    ensures
        0 <= top_up_length(usage) < 64,
        (usage + top_up_length(usage)) % 64 == 0,
{
}

/// What each byte of the buffer is after an input that did not fit.
///
/// Of the input behind the top-up, all the complete stripes that leave at
/// least one byte are absorbed. What is left of it is at the start of the
/// buffer. Where that is less than a stripe, the last 64 bytes are the stripe
/// absorbed before it, if one was. The top-up stands where it was copied to,
/// and all other bytes are as they were.
pub proof fn lemma_spilled(buffer: Seq<u8>, usage: int, input: Seq<u8>, top_up: int, leading: int)
    requires
        buffer.len() == 512,
        0 <= usage <= 512,
        usage + input.len() > 512,
        0 <= top_up < 64,
        (usage + top_up) % 64 == 0,
        0 <= leading,
        leading % 64 == 0,
        top_up + leading < input.len() <= top_up + leading + 64,
    ensures
        ({
            let left = input.len() - top_up - leading;
            let spill = spilled(buffer, usage, input);
            &&& spill.len() == 512
            &&& forall|i: int|
                0 <= i < 512 ==> #[trigger] spill[i] == (if i < left {
                    input[top_up + leading + i]
                } else if left < 64 && leading > 0 && i >= 448 {
                    input[top_up + leading - 64 + (i - 448)]
                } else if usage <= i < usage + top_up {
                    input[i - usage]
                } else {
                    buffer[i]
                })
        }),
{
    assert(top_up == top_up_length(usage));
    let head = input.take(top_up);
    let rest = input.skip(top_up);
    assert(64 * leading_stripes(rest.len() as int) == leading);
    let topped = overwritten(buffer, usage, head);
    lemma_overwritten(buffer, usage, head);
    let kept = last_stripe_kept(topped, rest);
    if leading > 0 {
        lemma_overwritten(topped, 448, rest.subrange(leading - 64, leading));
    }
    lemma_overwritten(kept, 0, rest.skip(leading));
}

/// The bytes of the value that a hasher was given are its secret, all of
/// them, and a hasher that can be written to has at least 136.
pub proof fn lemma_secret_bytes_of<S: FixedBuffer>(hasher: RawHasherCore<S>)
    ensures
        hasher.secret_bytes() == hasher.secret_value().bytes(),
        hasher.wf() ==> hasher.secret_bytes().len() >= 136,
{
}

/// All the elements of the array that a hasher was given are its secret.
pub proof fn lemma_array_is_the_secret_of<const N: usize>(hasher: RawHasherCore<[u8; N]>)
    ensures
        hasher.secret_bytes() == hasher.secret_value()@,
        hasher.secret_bytes().len() == N,
{
}

/// All the elements of the borrowed array that a hasher was given are its
/// secret.
pub proof fn lemma_array_ref_is_the_secret_of<'a, const N: usize>(
    hasher: RawHasherCore<&'a [u8; N]>,
)
    ensures
        hasher.secret_bytes() == (*hasher.secret_value())@,
        hasher.secret_bytes().len() == N,
{
}

/// All the elements of the mutably borrowed array that a hasher was given are
/// its secret.
pub proof fn lemma_array_mut_is_the_secret_of<'a, const N: usize>(
    hasher: RawHasherCore<&'a mut [u8; N]>,
)
    ensures
        hasher.secret_bytes() == (*hasher.secret_value())@,
        hasher.secret_bytes().len() == N,
{
}

/// All the elements of the boxed slice that a hasher was given are its
/// secret.
pub proof fn lemma_boxed_slice_is_the_secret_of(hasher: RawHasherCore<Box<[u8]>>)
    ensures
        hasher.secret_bytes() == (*hasher.secret_value())@,
{
}

} // verus!
