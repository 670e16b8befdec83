# custodes

K-of-N social recovery for TOKEN identities: Shamir secret sharing over GF(2^8),
verified with Verus.

- `src/gf256.rs`: the field, with its laws; `gf_mul` and `gf_inv`.
- `src/polynomial.rs`: polynomials, Lagrange interpolation at zero; `gf_eval`.
- `src/policy.rs`, `src/request.rs`: who holds shards, and the request for them.
- `src/shard.rs` and `src/shard/`: shards, `split`, `reconstruct`, `ShardCollector`.
- `src/laws.rs`: what these promise together. Any `K` shards of a split give the secret
  back; fewer reveal nothing; too few are refused; a corrupted shard goes unnoticed.
- `src/error.rs`: the errors and their messages.
- `src/handle.rs`: what is taken from the standard library's documentation.
- `app/`: the error as a `std::error::Error`, and two seams. Sealing a shard to a
  custodian's key waits for TOKEN's KEM, the verification phrases for the `voca` crate;
  until then calling either panics.

The field arithmetic is not constant-time, and `reconstruct` has no integrity check of
its own: bind a MAC or an AEAD where shards are sealed.

License: MIT OR Apache-2.0, at your option.
