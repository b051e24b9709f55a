//! The secret of a hasher together with the bytes it has yet to absorb.
use vstd::prelude::*;
use vstd::slice::slice_to_vec;

use crate::secret::{
    derive_secret, derived_secret, stripes_per_block, DefaultSecret, Error, Secret,
    DEFAULT_SECRET_LENGTH, DEFAULT_SECRET_RAW, DEFAULT_SEED, SECRET_MINIMUM_LENGTH,
};
use crate::stripes::STRIPE_BYTES;

verus! {

/// A buffer containing the secret bytes.
///
/// The bytes are a function of the buffer's value, so a buffer that is not
/// modified always shows the same number of them.
pub trait FixedBuffer {
    /// The bytes that the buffer holds.
    spec fn bytes(&self) -> Seq<u8>;

    /// Borrows the bytes.
    fn as_bytes(&self) -> (bytes: &[u8])
        ensures
            bytes@ == self.bytes(),
    ;
}

/// A mutable buffer to contain the secret bytes.
///
/// What is written through the borrowed slice is what
/// [`FixedBuffer::as_bytes`] shows afterwards.
pub trait FixedMutBuffer: FixedBuffer {
    /// Borrows the bytes mutably.
    fn as_mut_bytes(&mut self) -> (bytes: &mut [u8])
        ensures
            bytes@ == old(self).bytes(),
            final(self).bytes() == final(bytes)@,
    ;
}

impl<const N: usize> FixedBuffer for [u8; N] {
    open spec fn bytes(&self) -> Seq<u8> {
        self@
    }

    fn as_bytes(&self) -> (bytes: &[u8])
        ensures
            bytes@ == self@,
    {
        self
    }
}

impl<const N: usize> FixedMutBuffer for [u8; N] {
    fn as_mut_bytes(&mut self) -> (bytes: &mut [u8])
        ensures
            bytes@ == old(self)@,
            final(self)@ == final(bytes)@,
    {
        self
    }
}

impl<const N: usize> FixedBuffer for &[u8; N] {
    open spec fn bytes(&self) -> Seq<u8> {
        (**self)@
    }

    fn as_bytes(&self) -> (bytes: &[u8])
        ensures
            bytes@ == (**self)@,
    {
        *self
    }
}

impl<const N: usize> FixedBuffer for &mut [u8; N] {
    open spec fn bytes(&self) -> Seq<u8> {
        (**self)@
    }

    fn as_bytes(&self) -> (bytes: &[u8]) {
        &**self
    }
}

impl<const N: usize> FixedMutBuffer for &mut [u8; N] {
    fn as_mut_bytes(&mut self) -> (bytes: &mut [u8])
        ensures
            bytes@ == (**old(self))@,
            (**final(self))@ == final(bytes)@,
    {
        &mut **self
    }
}

impl FixedBuffer for Box<[u8]> {
    open spec fn bytes(&self) -> Seq<u8> {
        (**self)@
    }

    fn as_bytes(&self) -> (bytes: &[u8])
        ensures
            bytes@ == (**self)@,
    {
        &**self
    }
}

impl FixedMutBuffer for Box<[u8]> {
    fn as_mut_bytes(&mut self) -> (bytes: &mut [u8])
        ensures
            bytes@ == (**old(self))@,
            (**final(self))@ == final(bytes)@,
    {
        &mut **self
    }
}

/// The number of stripes that the buffer has room for.
///
/// Only writes that overflow the buffer do any work, so a larger one makes
/// a run of small writes cheaper. Past this size the cost of clearing it
/// starts to show up when a hasher is short-lived.
pub const BUFFERED_STRIPES: usize = 8;

/// The number of bytes that the buffer has room for.
pub const BUFFERED_BYTES: usize = STRIPE_BYTES * BUFFERED_STRIPES;

/// Room for the bytes that have yet to be absorbed.
pub type Buffer = [u8; BUFFERED_BYTES];

/// The contents of a fresh buffer.
pub open spec fn cleared() -> Seq<u8> {
    Seq::new(BUFFERED_BYTES as nat, |i: int| 0u8)
}

/// Makes a fresh buffer.
fn clear_buffer() -> (buffer: Buffer)
    ensures
        buffer@ == cleared(),
{
    let buffer: Buffer = [0; BUFFERED_BYTES];
    assert(buffer@ =~= cleared());
    buffer
}

/// The provided secret was not exactly [`DEFAULT_SECRET_LENGTH`] bytes.
pub struct SecretWithSeedError<S>(S);

impl<S> SecretWithSeedError<S> {
    /// The secret that was provided.
    pub closed spec fn secret(&self) -> S {
        self.0
    }

    /// Returns the secret.
    pub fn into_secret(self) -> (secret: S)
        ensures
            secret == self.secret(),
    {
        self.0
    }

    /// Describes the error.
    pub fn to_string(&self) -> (text: String)
        ensures
            text@ == "The secret must be exactly 192 bytes"@,
    {
        "The secret must be exactly 192 bytes".to_string()
    }
}

/// The provided secret was not at least [`SECRET_MINIMUM_LENGTH`] bytes.
pub struct SecretTooShortError<S>(Error, S);

impl<S> SecretTooShortError<S> {
    /// The secret that was provided.
    pub closed spec fn secret(&self) -> S {
        self.1
    }

    /// Returns the secret.
    pub fn into_secret(self) -> (secret: S)
        ensures
            secret == self.secret(),
    {
        self.1
    }

    /// Describes the error.
    pub fn to_string(&self) -> (text: String)
        ensures
            text@ == "The secret must be at least 136 bytes"@,
    {
        self.0.to_string()
    }
}

/// Holds secret and temporary buffers that are ensured to be
/// appropriately sized.
pub struct SecretBuffer<S> {
    seed: u64,
    secret: S,
    buffer: Buffer,
}

impl<S> SecretBuffer<S> {
    /// The seed.
    pub closed spec fn seed(&self) -> u64 {
        self.seed
    }

    /// The value that holds the secret.
    pub closed spec fn secret_value(&self) -> S {
        self.secret
    }

    /// What the temporary buffer holds.
    pub closed spec fn buffer(&self) -> Seq<u8> {
        self.buffer@
    }

    /// The temporary buffer is always of the same size.
    pub proof fn lemma_buffer_length(&self)
        ensures
            self.buffer().len() == BUFFERED_BYTES,
    {
    }

    /// Returns the secret.
    pub fn into_secret(self) -> (secret: S)
        ensures
            secret == self.secret_value(),
    {
        self.secret
    }
}

impl<S: Clone> Clone for SecretBuffer<S> {
    fn clone(&self) -> (copy: Self)
        ensures
            copy.seed() == self.seed(),
            cloned::<S>(self.secret_value(), copy.secret_value()),
            copy.buffer() == self.buffer(),
    {
        SecretBuffer { seed: self.seed, secret: self.secret.clone(), buffer: self.buffer }
    }
}

impl<S: FixedBuffer> SecretBuffer<S> {
    /// The secret bytes.
    pub open spec fn secret_bytes(&self) -> Seq<u8> {
        self.secret_value().bytes()
    }

    /// The secret is long enough.
    pub open spec fn wf(&self) -> bool {
        self.secret_bytes().len() >= SECRET_MINIMUM_LENGTH
    }

    /// Takes the seed, secret, and buffer and performs no
    /// modifications to them, only validating that the sizes are
    /// appropriate.
    pub fn new(seed: u64, secret: S) -> (result: Result<Self, SecretTooShortError<S>>)
        ensures
            result is Ok <==> secret.bytes().len() >= SECRET_MINIMUM_LENGTH,
            result matches Ok(buffer) ==> {
                &&& buffer.wf()
                &&& buffer.seed() == seed
                &&& buffer.secret_value() == secret
                &&& buffer.buffer() == cleared()
            },
            result matches Err(error) ==> error.secret() == secret,
    {
        match Secret::new(secret.as_bytes()) {
            Ok(_) => Ok(SecretBuffer { seed, secret, buffer: clear_buffer() }),
            Err(e) => Err(SecretTooShortError(e, secret)),
        }
    }

    /// Whether the secret is long enough, as it is in every buffer that the
    /// constructors make.
    pub fn is_valid(&self) -> (valid: bool)
        ensures
            valid == self.wf(),
    {
        self.secret.as_bytes().len() >= SECRET_MINIMUM_LENGTH
    }

    /// The number of stripes in a block.
    pub(crate) fn n_stripes(&self) -> (n: usize)
        requires
            self.wf(),
        ensures
            n == stripes_per_block(self.secret_bytes()),
            n > 0,
    {
        Self::secret(&self.secret).n_stripes()
    }

    /// Borrows the seed, the secret and the buffer.
    pub(crate) fn parts(&self) -> (parts: (u64, Secret<'_>, &Buffer))
        requires
            self.wf(),
        ensures
            parts.0 == self.seed(),
            parts.1@ == self.secret_bytes(),
            parts.2@ == self.buffer(),
    {
        (self.seed, Self::secret(&self.secret), &self.buffer)
    }

    /// Borrows the seed, the secret and the buffer, the latter mutably.
    pub(crate) fn parts_mut(&mut self) -> (parts: (u64, Secret<'_>, &mut Buffer))
        requires
            old(self).wf(),
        ensures
            parts.0 == old(self).seed(),
            parts.1@ == old(self).secret_bytes(),
            parts.2@ == old(self).buffer(),
            final(self).seed() == old(self).seed(),
            final(self).secret_value() == old(self).secret_value(),
            final(self).buffer() == final(parts.2)@,
    {
        (self.seed, Self::secret(&self.secret), &mut self.buffer)
    }

    /// Views a secret whose length was established at construction.
    fn secret(secret: &S) -> (view: Secret<'_>)
        requires
            secret.bytes().len() >= SECRET_MINIMUM_LENGTH,
        ensures
            view@ == secret.bytes(),
    {
        Secret::new_unchecked(secret.as_bytes())
    }
}

/// Overwrites a secret of the default length.
fn fill_secret(secret: &mut [u8], source: &DefaultSecret)
    requires
        old(secret)@.len() == DEFAULT_SECRET_LENGTH,
    ensures
        final(secret)@ == source@,
{
    let mut i: usize = 0;
    while i < DEFAULT_SECRET_LENGTH
        invariant
            i <= DEFAULT_SECRET_LENGTH,
            secret@.len() == DEFAULT_SECRET_LENGTH,
            forall|j: int| 0 <= j < i ==> #[trigger] secret[j] == source[j],
        decreases DEFAULT_SECRET_LENGTH - i,
    {
        secret[i] = source[i];
        i += 1;
    }
    assert(secret@ =~= source@);
}

impl<S: FixedMutBuffer> SecretBuffer<S> {
    /// Fills the secret buffer with a secret derived from the seed
    /// and the default secret. The secret must be exactly
    /// [`DEFAULT_SECRET_LENGTH`] bytes long.
    pub fn with_seed(seed: u64, secret: S) -> (result: Result<Self, SecretWithSeedError<S>>)
        ensures
            result is Ok <==> secret.bytes().len() == DEFAULT_SECRET_LENGTH,
            result matches Ok(buffer) ==> {
                &&& buffer.wf()
                &&& buffer.seed() == seed
                &&& buffer.secret_bytes() == derived_secret(seed, DEFAULT_SECRET_RAW@)
                &&& buffer.buffer() == cleared()
            },
            result matches Err(error) ==> error.secret() == secret,
    {
        if secret.as_bytes().len() != DEFAULT_SECRET_LENGTH {
            return Err(SecretWithSeedError(secret));
        }
        let mut derived: DefaultSecret = DEFAULT_SECRET_RAW;
        derive_secret(seed, &mut derived);
        let mut secret = secret;
        fill_secret(secret.as_mut_bytes(), &derived);
        Ok(SecretBuffer { seed, secret, buffer: clear_buffer() })
    }
}

impl SecretBuffer<&'static [u8; DEFAULT_SECRET_LENGTH]> {
    /// Use the default seed and secret values while allocating nothing.
    pub fn default() -> (buffer: Self)
        ensures
            buffer.wf(),
            buffer.seed() == DEFAULT_SEED,
            *buffer.secret_value() == DEFAULT_SECRET_RAW,
            buffer.buffer() == cleared(),
    {
        SecretBuffer { seed: DEFAULT_SEED, secret: &DEFAULT_SECRET_RAW, buffer: clear_buffer() }
    }
}

/// Turns a vector into a boxed slice.
///
/// Calls `Vec::<u8>::into_boxed_slice` of the standard library, which keeps
/// the elements and drops the spare capacity.
#[verifier::external_body]
fn boxed_slice(bytes: Vec<u8>) -> (boxed: Box<[u8]>)
    ensures
        boxed@ == bytes@,
{
    bytes.into_boxed_slice()
}

/// A secret buffer that owns its secret on the heap.
pub type AllocSecretBuffer = SecretBuffer<Box<[u8]>>;

impl AllocSecretBuffer {
    /// Allocates the secret and temporary buffers and fills them
    /// with the default seed and secret values.
    pub fn allocate_default() -> (buffer: Self)
        ensures
            buffer.wf(),
            buffer.seed() == DEFAULT_SEED,
            buffer.secret_bytes() == DEFAULT_SECRET_RAW@,
            buffer.buffer() == cleared(),
    {
        SecretBuffer {
            seed: DEFAULT_SEED,
            secret: boxed_slice(slice_to_vec(&DEFAULT_SECRET_RAW)),
            buffer: clear_buffer(),
        }
    }

    /// Allocates the secret and temporary buffers and uses the
    /// provided seed to construct the secret value.
    pub fn allocate_with_seed(seed: u64) -> (buffer: Self)
        ensures
            buffer.wf(),
            buffer.seed() == seed,
            buffer.secret_bytes() == derived_secret(seed, DEFAULT_SECRET_RAW@),
            buffer.buffer() == cleared(),
    {
        let mut secret: DefaultSecret = DEFAULT_SECRET_RAW;
        derive_secret(seed, &mut secret);
        SecretBuffer {
            seed,
            secret: boxed_slice(slice_to_vec(&secret)),
            buffer: clear_buffer(),
        }
    }

    /// Allocates the temporary buffer and uses the provided seed
    /// and secret buffer.
    pub fn allocate_with_seed_and_secret<I: Into<Box<[u8]>>>(seed: u64, secret: I) -> (result:
        Result<Self, SecretTooShortError<Box<[u8]>>>)
        ensures
            result matches Ok(buffer) ==> {
                &&& call_ensures(<I as Into<Box<[u8]>>>::into, (secret,), buffer.secret_value())
                &&& buffer.wf()
                &&& buffer.seed() == seed
                &&& buffer.buffer() == cleared()
            },
            result matches Err(error) ==> {
                &&& call_ensures(<I as Into<Box<[u8]>>>::into, (secret,), error.secret())
                &&& error.secret().bytes().len() < SECRET_MINIMUM_LENGTH
            },
    {
        Self::new(seed, secret.into())
    }
}

/// An array shows all of its elements as bytes.
pub proof fn lemma_array_bytes<const N: usize>(array: [u8; N])
    ensures
        array.bytes().len() == N,
        forall|i: int| 0 <= i < N ==> #[trigger] array.bytes()[i] == array[i],
{
}

/// A borrowed array shows all of its elements as bytes.
pub proof fn lemma_array_ref_bytes<const N: usize>(array: &[u8; N])
    ensures
        (&array).bytes().len() == N,
        forall|i: int| 0 <= i < N ==> #[trigger] (&array).bytes()[i] == array[i],
{
}

/// A boxed slice shows all of its elements as bytes.
pub proof fn lemma_boxed_slice_bytes(slice: Box<[u8]>)
    ensures
        slice.bytes().len() == slice@.len(),
        forall|i: int| 0 <= i < slice@.len() ==> #[trigger] slice.bytes()[i] == slice@[i],
{
}

/// All the elements of an array are the secret.
pub proof fn lemma_array_is_the_secret<const N: usize>(secret_buffer: SecretBuffer<[u8; N]>)
    ensures
        secret_buffer.secret_bytes() == secret_buffer.secret_value()@,
        secret_buffer.secret_bytes().len() == N,
{
}

/// All the elements of a borrowed array are the secret.
pub proof fn lemma_array_ref_is_the_secret<'a, const N: usize>(
    secret_buffer: SecretBuffer<&'a [u8; N]>,
)
    ensures
        secret_buffer.secret_bytes() == (*secret_buffer.secret_value())@,
        secret_buffer.secret_bytes().len() == N,
{
}

/// All the elements of a mutably borrowed array are the secret.
pub proof fn lemma_array_mut_is_the_secret<'a, const N: usize>(
    secret_buffer: SecretBuffer<&'a mut [u8; N]>,
)
    ensures
        secret_buffer.secret_bytes() == (*secret_buffer.secret_value())@,
        secret_buffer.secret_bytes().len() == N,
{
}

/// All the elements of a boxed slice are the secret.
pub proof fn lemma_boxed_slice_is_the_secret(secret_buffer: SecretBuffer<Box<[u8]>>)
    ensures
        secret_buffer.secret_bytes() == (*secret_buffer.secret_value())@,
{
}

/// The bytes of the value that a buffer was given are the secret, all of
/// them.
pub proof fn lemma_secret_bytes<S: FixedBuffer>(secret_buffer: SecretBuffer<S>)
    ensures
        secret_buffer.secret_bytes() == secret_buffer.secret_value().bytes(),
{
}

/// A secret buffer is valid exactly when its secret has at least 136 bytes,
/// whatever else it holds.
pub proof fn lemma_validity<S: FixedBuffer>(secret_buffer: SecretBuffer<S>)
    ensures
        secret_buffer.wf() <==> secret_buffer.secret_value().bytes().len() >= 136,
{
}

/// The buffer has room for 512 bytes, and all of them are zero at first.
pub proof fn lemma_cleared()
    ensures
        BUFFERED_BYTES == 512,
        cleared().len() == 512,
        forall|i: int| 0 <= i < 512 ==> #[trigger] cleared()[i] == 0,
{
}

} // verus!
