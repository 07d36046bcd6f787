//! Resolves a human-readable size string (a decimal magnitude with an
//! optional `k`/`m`/`g` suffix) into an exact byte count, optionally
//! perturbing the digit positions the user left unspecified by a bounded
//! random amount.

pub mod content;
pub mod digits;
pub mod laws;
pub mod size;
