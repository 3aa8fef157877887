//! Verified core of a Merkle-root token distributor.
//!
//! An issuer commits to a set of `(index, claimant, amount)` entitlements by
//! publishing one 256-bit Merkle root. A claimant redeems an entitlement by
//! presenting it with an inclusion proof; the library checks the proof, keeps
//! the per-entitlement claim records and the distribution's aggregate caps.

pub mod bitmap;
pub mod distributor;
pub mod merkle_proof;
