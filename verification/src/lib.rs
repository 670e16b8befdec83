//! custodes: K-of-N social recovery for TOKEN identities.
//!
//! Lose every device and normal attestation is impossible: there is no surviving device
//! left to vouch for a new one. custodes is the layer TOKEN invokes for exactly that
//! case. It splits a recovery secret into `N` shards under a threshold `K` (Shamir secret
//! sharing over GF(2^8)); any `K` custodians cooperating reconstruct the secret on new
//! hardware, and fewer than `K` learn nothing, information-theoretically and not merely
//! computationally.
//!
//! The crate turns a bytestring into shards, and back. It does not store shards, transmit
//! anything, manage device attestation, or know what the secret is.
//!
//! The field arithmetic is not constant-time, so where the timing of [`split`] or
//! [`reconstruct`] is observable, that needs a pass of its own. Reconstruction performs no
//! integrity check: a custodian who returns a corrupted shard silently corrupts the
//! output. Bind a MAC or an AEAD where shards are encrypted, so that a tampered shard is
//! rejected before it reaches [`reconstruct`].

pub mod answers;
pub mod error;
pub mod gf256;
mod handle;
pub mod laws;
pub mod policy;
pub mod polynomial;
pub mod request;
pub mod shard;

pub use crate::error::{Error, Result};
pub use crate::policy::{Custodian, RecoveryPolicy, RecoveryPolicyBuilder};
pub use crate::request::RecoveryRequest;
pub use crate::shard::collector::ShardCollector;
pub use crate::shard::reconstruct::reconstruct;
pub use crate::shard::split::{split, Rng};
pub use crate::shard::Shard;
