//! Runs of stripes, and the place in the secret that each one meets.
use vstd::prelude::*;

use crate::large::{
    accumulated, lemma_accumulated_pair, scrambled, Vector, INITIAL_ACCUMULATORS,
};
use crate::secret::{secret_last_stripe, secret_stripe, stripes_per_block, Secret};
use crate::words::le_u64;

verus! {

/// The number of bytes in a stripe.
pub const STRIPE_BYTES: usize = 64;

/// The accumulators, and how many stripes of the current block they have
/// absorbed.
#[verifier::ext_equal]
pub struct StripeState {
    pub accumulator: Seq<u64>,
    pub current_stripe: int,
}

/// The state before the first stripe.
pub open spec fn initial_state() -> StripeState {
    StripeState { accumulator: INITIAL_ACCUMULATORS@, current_stripe: 0 }
}

/// The state after one more stripe. The stripe that completes a block is
/// followed by a scramble, and the next one starts a new block.
pub open spec fn absorb_stripe(
    state: StripeState,
    stripe: Seq<u8>,
    n_stripes: int,
    secret: Seq<u8>,
) -> StripeState {
    let accumulator = accumulated(
        state.accumulator,
        stripe,
        secret_stripe(secret, state.current_stripe),
    );
    if state.current_stripe + 1 == n_stripes {
        StripeState {
            accumulator: scrambled(accumulator, secret_last_stripe(secret)),
            current_stripe: 0,
        }
    } else {
        StripeState { accumulator, current_stripe: state.current_stripe + 1 }
    }
}

/// The state after a run of stripes.
pub open spec fn absorb_stripes(
    state: StripeState,
    stripes: Seq<Seq<u8>>,
    n_stripes: int,
    secret: Seq<u8>,
) -> StripeState
    decreases stripes.len(),
{
    if stripes.len() == 0 {
        state
    } else {
        absorb_stripe(
            absorb_stripes(state, stripes.drop_last(), n_stripes, secret),
            stripes.last(),
            n_stripes,
            secret,
        )
    }
}

/// The complete stripes of `bytes`, from the front.
pub open spec fn stripes_of(bytes: Seq<u8>) -> Seq<Seq<u8>> {
    Seq::new(bytes.len() / 64, |i: int| bytes.subrange(64 * i, 64 * i + 64))
}

/// The contents of an array of stripes.
pub open spec fn stripe_views(stripes: Seq<[u8; 64]>) -> Seq<Seq<u8>> {
    Seq::new(stripes.len(), |i: int| stripes[i]@)
}

/// How many stripes of an input of `len` bytes are absorbed by the
/// accumulation loop: all the complete ones that leave at least one byte
/// behind them.
pub open spec fn leading_stripes(len: int) -> int {
    if len == 0 {
        0
    } else {
        (len - 1) / 64
    }
}

/// Absorbing one run of stripes and then another is absorbing both at once:
/// it does not matter where a run is cut.
pub proof fn lemma_absorb_concat(
    state: StripeState,
    first: Seq<Seq<u8>>,
    second: Seq<Seq<u8>>,
    n_stripes: int,
    secret: Seq<u8>,
)
    ensures
        absorb_stripes(state, first + second, n_stripes, secret) == absorb_stripes(
            absorb_stripes(state, first, n_stripes, secret),
            second,
            n_stripes,
            secret,
        ),
    decreases second.len(),
{
    if second.len() == 0 {
        assert(first + second =~= first);
    } else {
        assert((first + second).drop_last() =~= first + second.drop_last());
        lemma_absorb_concat(state, first, second.drop_last(), n_stripes, secret);
    }
}

/// Absorbing one run of stripes and then another leaves the accumulators and
/// the position in the block as absorbing both in one run does, wherever the
/// run is cut.
pub proof fn lemma_runs_concatenate(
    state: StripeState,
    first: Seq<[u8; 64]>,
    second: Seq<[u8; 64]>,
    n_stripes: int,
    secret: Seq<u8>,
)
    ensures
        absorb_stripes(state, stripe_views(first + second), n_stripes, secret) == absorb_stripes(
            absorb_stripes(state, stripe_views(first), n_stripes, secret),
            stripe_views(second),
            n_stripes,
            secret,
        ),
{
    assert(stripe_views(first + second) =~= stripe_views(first) + stripe_views(second));
    lemma_absorb_concat(state, stripe_views(first), stripe_views(second), n_stripes, secret);
}

/// The position in the block advances with each stripe and starts over
/// after every `n_stripes` of them.
pub proof fn lemma_block_position(
    state: StripeState,
    stripes: Seq<Seq<u8>>,
    n_stripes: int,
    secret: Seq<u8>,
)
    requires
        0 <= state.current_stripe < n_stripes,
    ensures
        absorb_stripes(state, stripes, n_stripes, secret).current_stripe == (state.current_stripe
            + stripes.len()) % n_stripes,
    decreases stripes.len(),
{
    if stripes.len() == 0 {
        vstd::arithmetic::div_mod::lemma_small_mod(
            state.current_stripe as nat,
            n_stripes as nat,
        );
    } else {
        let rest = stripes.drop_last();
        lemma_block_position(state, rest, n_stripes, secret);
        let before: int = state.current_stripe + rest.len();
        let position = before % n_stripes;
        vstd::arithmetic::div_mod::lemma_add_mod_noop(before, 1, n_stripes);
        if n_stripes == 1 {
            assert((before + 1) % 1 == 0);
        } else {
            vstd::arithmetic::div_mod::lemma_small_mod(1, n_stripes as nat);
            if position + 1 == n_stripes {
                vstd::arithmetic::div_mod::lemma_mod_self_0(n_stripes);
            } else {
                vstd::arithmetic::div_mod::lemma_small_mod(
                    (position + 1) as nat,
                    n_stripes as nat,
                );
            }
        }
    }
}

/// The stripes of a whole number of stripes followed by more bytes.
pub proof fn lemma_stripes_of_concat(first: Seq<u8>, second: Seq<u8>)
    requires
        first.len() % 64 == 0,
    ensures
        stripes_of(first + second) == stripes_of(first) + stripes_of(second),
{
    let n: int = (first.len() / 64) as int;
    assert forall|i: int| 0 <= i < stripes_of(first + second).len() implies #[trigger] stripes_of(
        first + second,
    )[i] == (stripes_of(first) + stripes_of(second))[i] by {
        if i < n {
            assert((first + second).subrange(64 * i, 64 * i + 64) =~= first.subrange(
                64 * i,
                64 * i + 64,
            ));
        } else {
            assert((first + second).subrange(64 * i, 64 * i + 64) =~= second.subrange(
                64 * (i - n),
                64 * (i - n) + 64,
            ));
        }
    }
    assert(stripes_of(first + second) =~= stripes_of(first) + stripes_of(second));
}

/// Views bytes as stripes.
///
/// Calls `<[u8]>::as_chunks::<64>` of the standard library, which splits a
/// slice into the complete 64-byte arrays at its front and the bytes that
/// are left over behind them.
#[verifier::external_body]
pub(crate) fn as_stripes(bytes: &[u8]) -> (split: (&[[u8; 64]], &[u8]))
    ensures
        stripe_views(split.0@) == stripes_of(bytes@),
        split.1@ == bytes@.subrange(64 * (bytes@.len() / 64) as int, bytes@.len() as int),
{
    bytes.as_chunks::<64>()
}

/// Splits a block into its leading stripes and a tail that is never empty
/// unless the block is.
pub(crate) fn stripes_with_tail(block: &[u8]) -> (split: (&[[u8; 64]], &[u8]))
    ensures
        stripe_views(split.0@) == stripes_of(
            block@.subrange(0, 64 * leading_stripes(block@.len() as int)),
        ),
        split.1@ == block@.subrange(
            64 * leading_stripes(block@.len() as int),
            block@.len() as int,
        ),
{
    if block.len() == 0 {
        return (as_stripes(block).0, block);
    }
    let (head, tail) = block.split_at((block.len() - 1) / 64 * 64);
    (as_stripes(head).0, tail)
}

/// Tracks which stripe we are currently on to know which part of the
/// secret we should be using.
#[derive(Copy, Clone)]
pub struct StripeAccumulator {
    accumulator: [u64; 8],
    current_stripe: usize,
}

impl View for StripeAccumulator {
    type V = StripeState;

    closed spec fn view(&self) -> StripeState {
        StripeState {
            accumulator: self.accumulator@,
            current_stripe: self.current_stripe as int,
        }
    }
}

/// An accumulator has eight lanes, and its position in the block is a
/// count.
pub proof fn lemma_state_bounds(accumulator: StripeAccumulator)
    ensures
        accumulator@.accumulator.len() == 8,
        0 <= accumulator@.current_stripe <= usize::MAX,
{
}

impl StripeAccumulator {
    /// Starts before the first stripe.
    pub fn new() -> (accumulator: Self)
        ensures
            accumulator@ == initial_state(),
    {
        StripeAccumulator { accumulator: INITIAL_ACCUMULATORS, current_stripe: 0 }
    }

    /// The accumulators.
    pub fn accumulator(&self) -> (lanes: [u64; 8])
        ensures
            lanes@ == self@.accumulator,
    {
        self.accumulator
    }

    /// Absorbs a run of stripes, scrambling after each full block.
    ///
    /// The secret needs room for every position in the block that the run
    /// reaches.
    pub fn process_stripes<V: Vector>(
        &mut self,
        vector: V,
        stripes: &[[u8; 64]],
        n_stripes: usize,
        secret: &Secret<'_>,
    )
        requires
            stripes@.len() > 0 ==> {
                &&& old(self)@.current_stripe < n_stripes
                &&& n_stripes <= stripes_per_block(secret@) || old(self)@.current_stripe
                    + stripes@.len() <= stripes_per_block(secret@)
            },
        ensures
            final(self)@ == absorb_stripes(
                old(self)@,
                stripe_views(stripes@),
                n_stripes as int,
                secret@,
            ),
            old(self)@.current_stripe < n_stripes ==> final(self)@.current_stripe == (old(
                self,
            )@.current_stripe + stripes@.len()) % n_stripes as int,
    {
        proof {
            if self@.current_stripe < n_stripes {
                lemma_block_position(
                    self@,
                    stripe_views(stripes@),
                    n_stripes as int,
                    secret@,
                );
            }
        }
        if stripes.is_empty() {
            return;
        }
        let mut acc: [u64; 8] = self.accumulator;
        let mut current: usize = self.current_stripe;
        let mut rest: &[[u8; 64]] = stripes;

        let ghost start = self@;
        let ghost all = stripe_views(stripes@);
        let ghost mut done: int = 0;
        assert(all.take(0) =~= Seq::<Seq<u8>>::empty());

        while !rest.is_empty()
            invariant
                current < n_stripes,
                n_stripes <= stripes_per_block(secret@) || {
                    &&& current == start.current_stripe + done
                    &&& start.current_stripe + all.len() <= stripes_per_block(secret@)
                },
                0 <= done <= all.len(),
                all == stripe_views(stripes@),
                rest@ == stripes@.skip(done),
                absorb_stripes(start, all.take(done), n_stripes as int, secret@) == (StripeState {
                    accumulator: acc@,
                    current_stripe: current as int,
                }),
            decreases rest@.len(),
        {
            let room: usize = n_stripes - current;
            let n: usize = if room < rest.len() {
                room
            } else {
                rest.len()
            };
            let (head, tail) = rest.split_at(n);

            let mut i: usize = 0;
            while i < n
                invariant
                    i <= n,
                    n == head@.len(),
                    current + n <= n_stripes,
                    current + n <= stripes_per_block(secret@),
                    0 <= done,
                    done + n <= all.len(),
                    all == stripe_views(stripes@),
                    head@ == stripes@.subrange(done, done + n),
                    i < n ==> absorb_stripes(
                        start,
                        all.take(done + i),
                        n_stripes as int,
                        secret@,
                    ) == (StripeState { accumulator: acc@, current_stripe: current + i }),
                    i == n ==> absorb_stripes(
                        start,
                        all.take(done + i),
                        n_stripes as int,
                        secret@,
                    ) == (if current + n == n_stripes {
                        StripeState {
                            accumulator: scrambled(acc@, secret_last_stripe(secret@)),
                            current_stripe: 0,
                        }
                    } else {
                        StripeState { accumulator: acc@, current_stripe: current + n }
                    }),
                decreases n - i,
            {
                let secret_stripe = secret.stripe(current + i);
                vector.accumulate(&mut acc, &head[i], &secret_stripe);
                proof {
                    let next = all.take(done + i + 1);
                    assert(next.drop_last() =~= all.take(done + i));
                    assert(next.last() == head[i as int]@);
                }
                i += 1;
            }

            current += n;
            rest = tail;
            proof {
                assert(rest@ =~= stripes@.skip(done + n));
                done = done + n;
            }

            if current == n_stripes {
                let secret_end = secret.last_stripe();
                vector.round_scramble(&mut acc, &secret_end);
                current = 0;
            }
        }
        assert(all.take(done) =~= all);

        self.accumulator = acc;
        self.current_stripe = current;
    }
}

/// The complete stripes of some bytes are the 64-byte pieces from the front,
/// as many as there are.
pub proof fn lemma_stripes_of_bytes(bytes: Seq<u8>)
    ensures
        64 * stripes_of(bytes).len() <= bytes.len() < 64 * stripes_of(bytes).len() + 64,
        forall|n: int|
            0 <= n < stripes_of(bytes).len() ==> (#[trigger] stripes_of(bytes)[n]).len() == 64,
        forall|n: int, j: int|
            0 <= n < stripes_of(bytes).len() && 0 <= j < 64 ==> #[trigger] stripes_of(bytes)[n][j]
                == bytes[64 * n + j],
{
}

/// The views of some stripes are theirs, one for one.
pub proof fn lemma_stripe_views(stripes: Seq<[u8; 64]>)
    ensures
        stripe_views(stripes).len() == stripes.len(),
        forall|n: int, j: int|
            0 <= n < stripes.len() && 0 <= j < 64 ==> #[trigger] stripe_views(stripes)[n][j]
                == stripes[n][j],
{
}

/// The leading stripes leave from 1 to 64 bytes behind, and are none of
/// nothing.
pub proof fn lemma_leading_stripes(len: int)
    requires
        0 <= len,
    ensures
        len == 0 ==> leading_stripes(len) == 0,
        len > 0 ==> 64 * leading_stripes(len) < len <= 64 * leading_stripes(len) + 64,
{
}

/// A stripe has 64 bytes, and the first one meets the initial accumulators at
/// the start of a block.
pub proof fn lemma_initial_state()
    ensures
        STRIPE_BYTES == 64,
        initial_state().accumulator == INITIAL_ACCUMULATORS@,
        initial_state().current_stripe == 0,
{
}

/// Absorbing no stripe changes nothing.
pub proof fn lemma_absorb_nothing(state: StripeState, n_stripes: int, secret: Seq<u8>)
    ensures
        absorb_stripes(state, Seq::empty(), n_stripes, secret) == state,
{
}

/// What one more stripe does, whatever it holds.
///
/// A stripe at position `p` of its block is accumulated under the bytes
/// `8 * p .. 8 * p + 64` of the secret. The one at the last position is
/// followed by a scramble with the last 64 bytes, and no other is.
pub proof fn lemma_absorb_next(
    state: StripeState,
    stripes: Seq<Seq<u8>>,
    next: Seq<u8>,
    n_stripes: int,
    secret: Seq<u8>,
)
    requires
        0 <= state.current_stripe < n_stripes,
    ensures
        ({
            let p = (state.current_stripe + stripes.len()) % n_stripes;
            let before = absorb_stripes(state, stripes, n_stripes, secret);
            let after = absorb_stripes(state, stripes.push(next), n_stripes, secret);
            let under = accumulated(
                before.accumulator,
                next,
                secret.subrange(8 * p, 8 * p + 64),
            );
            &&& before.current_stripe == p
            &&& p + 1 < n_stripes ==> after.accumulator == under && after.current_stripe == p + 1
            &&& p + 1 == n_stripes ==> after.accumulator == scrambled(
                under,
                secret.subrange(secret.len() - 64, secret.len() as int),
            ) && after.current_stripe == 0
        }),
{
    lemma_block_position(state, stripes, n_stripes, secret);
    assert(stripes.push(next).drop_last() =~= stripes);
}

/// What a stripe adds to a lane under the bytes of the secret from `at` on:
/// the stripe word of the other lane of the pair, and the product of the
/// lower and the upper half of the lane's own stripe word masked with the
/// secret.
pub open spec fn lane_gain(stripe: Seq<u8>, secret: Seq<u8>, at: int, lane: int) -> int {
    let value = le_u64(stripe, 8 * lane) ^ le_u64(secret, at + 8 * lane);
    let other = if lane % 2 == 0 {
        8 * lane + 8
    } else {
        8 * lane - 8
    };
    le_u64(stripe, other) + (value & 0xffff_ffff) * (value >> 32)
}

/// What a run of stripes adds to a lane, the first of them at position
/// `first` of the block.
pub open spec fn run_gain(stripes: Seq<Seq<u8>>, secret: Seq<u8>, first: int, lane: int) -> int
    decreases stripes.len(),
{
    if stripes.len() == 0 {
        0
    } else {
        run_gain(stripes.drop_last(), secret, first, lane) + lane_gain(
            stripes.last(),
            secret,
            8 * (first + stripes.len() - 1),
            lane,
        )
    }
}

/// A word of a part of some bytes is one of the bytes.
proof fn lemma_word_of_part(bytes: Seq<u8>, from: int, to: int, at: int)
    requires
        0 <= from,
        0 <= at,
        from + at + 8 <= to <= bytes.len(),
    ensures
        le_u64(bytes.subrange(from, to), at) == le_u64(bytes, from + at),
{
}

/// A lane after one stripe, over the three words that it depends on.
proof fn lemma_lane_of_words(
    acc: Seq<u64>,
    stripe: Seq<u8>,
    part: Seq<u8>,
    lane: int,
    own: u64,
    other: u64,
    key: u64,
)
    requires
        0 <= lane < 8,
        own == le_u64(stripe, 8 * lane),
        other == le_u64(
            stripe,
            (if lane % 2 == 0 {
                8 * lane + 8
            } else {
                8 * lane - 8
            }),
        ),
        key == le_u64(part, 8 * lane),
    ensures
        accumulated(acc, stripe, part)[lane] == (acc[lane] + (other + ((own ^ key) & 0xffff_ffff)
            * ((own ^ key) >> 32))) % 0x1_0000_0000_0000_0000,
{
    lemma_accumulated_pair(acc, stripe, part, lane / 2);
}

/// A lane after one stripe under a part of the secret.
proof fn lemma_lane_gain(acc: Seq<u64>, stripe: Seq<u8>, secret: Seq<u8>, at: int, lane: int)
    requires
        0 <= lane < 8,
        0 <= at,
        at + 64 <= secret.len(),
    ensures
        accumulated(acc, stripe, secret.subrange(at, at + 64))[lane] == (acc[lane] + lane_gain(
            stripe,
            secret,
            at,
            lane,
        )) % 0x1_0000_0000_0000_0000,
{
    let other = if lane % 2 == 0 {
        8 * lane + 8
    } else {
        8 * lane - 8
    };
    lemma_word_of_part(secret, at, at + 64, 8 * lane);
    lemma_lane_of_words(
        acc,
        stripe,
        secret.subrange(at, at + 64),
        lane,
        le_u64(stripe, 8 * lane),
        le_u64(stripe, other),
        le_u64(secret, at + 8 * lane),
    );
}

/// Within one block every lane is the sum of what it was and what each stripe
/// adds to it, modulo 2^64: stripe `j` of the run under the bytes of the
/// secret from `8 * (p + j)` on, where `p` is the position that the run
/// starts at.
pub proof fn lemma_block_is_a_sum(
    state: StripeState,
    stripes: Seq<Seq<u8>>,
    n_stripes: int,
    secret: Seq<u8>,
    lane: int,
)
    requires
        0 <= lane < 8,
        0 <= state.current_stripe,
        state.current_stripe + stripes.len() < n_stripes,
        8 * (state.current_stripe + stripes.len()) + 56 <= secret.len(),
    ensures
        absorb_stripes(state, stripes, n_stripes, secret).accumulator[lane] == (
        state.accumulator[lane] + run_gain(stripes, secret, state.current_stripe, lane))
            % 0x1_0000_0000_0000_0000,
    decreases stripes.len(),
{
    if stripes.len() > 0 {
        let rest = stripes.drop_last();
        let first = state.current_stripe;
        let position = first + rest.len();
        lemma_block_is_a_sum(state, rest, n_stripes, secret, lane);
        lemma_absorb_next(state, rest, stripes.last(), n_stripes, secret);
        assert(rest.push(stripes.last()) =~= stripes);
        vstd::arithmetic::div_mod::lemma_small_mod(position as nat, n_stripes as nat);
        let before = absorb_stripes(state, rest, n_stripes, secret).accumulator;
        lemma_lane_gain(before, stripes.last(), secret, 8 * position, lane);
        lemma_sum_modulo(
            state.accumulator[lane] + run_gain(rest, secret, first, lane),
            lane_gain(stripes.last(), secret, 8 * position, lane),
        );
    }
}

/// A sum may be reduced at any point.
proof fn lemma_sum_modulo(a: int, b: int)
    ensures
        (a % 0x1_0000_0000_0000_0000 + b) % 0x1_0000_0000_0000_0000 == (a + b)
            % 0x1_0000_0000_0000_0000,
{
}

} // verus!
