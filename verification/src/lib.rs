//! A verifiable lottery built on a commit-reveal scheme.
//!
//! An operator commits to a secret by publishing its digest, later reveals the
//! secret to rank a list of entries, and anyone can verify both that the ranking
//! follows from the revealed secret and that the secret is the committed one.

pub mod commitment;
pub mod compare;
pub mod entries;
pub mod error;
pub mod hash;
pub mod hex_text;
pub mod laws;
pub mod outcome;
pub mod protocol;
pub mod ranking;
