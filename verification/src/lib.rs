//! A position-keyed byte-substitution cipher and the exact-arithmetic core of
//! its ciphertext-only analyzer.

pub mod perm;
pub mod table;
pub mod cipher;
pub mod freq;
pub mod cost;
pub mod sorting;
pub mod search;
pub mod shortlist;
pub mod wide;
pub mod breaker;
pub mod length;
pub mod hex;
pub mod residues;
