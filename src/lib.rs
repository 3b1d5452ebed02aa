//! Verification of Merkle inclusion proofs.

pub mod digest;
pub mod hex_text;
pub mod laws;
pub mod merkle;
pub mod session;
