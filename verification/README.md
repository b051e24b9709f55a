# xxhash3

The streaming core of the XXH3 family of hashes, verified with Verus.

A `RawHasherCore` takes its input in pieces of any size. `finish` hands the
input to a `Finalize` implementation: inputs of at most 240 bytes as they are,
longer ones as eight accumulators and the last bytes. The contracts state that
what is handed over depends on the concatenation of the pieces, the seed and
the secret alone.

- `src/words.rs`: little-endian words.
- `src/secret.rs`: secrets, and deriving one from a seed.
- `src/large.rs`, `src/large/avx512.rs`: absorbing a stripe, eight lanes at a
  time.
- `src/stripes.rs`: runs of stripes and blocks.
- `src/buffer.rs`: the secret of a hasher and its buffer.
- `src/streaming.rs`: the hasher.
- `src/laws.rs`: what holds of the hash as a whole.
- `app/`: the errors with the standard error traits.
