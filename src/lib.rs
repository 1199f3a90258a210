//! Structured lattice commitments over the ring `Z_q[X]/(X^N + 1)`.
//!
//! The library holds the modular arithmetic, dense polynomials, the
//! negacyclic polynomial ring, matrices over that ring, a deterministic
//! ChaCha byte stream for transcript-derived challenges, and the vector
//! commitment scheme with its proof of opening.
use vstd::prelude::*;

pub mod field;
pub mod polynomial;
pub mod ring;
pub mod matrix;
pub mod chacha_rng;
pub mod challenge;
pub mod algebra;
pub mod commitment;

pub use commitment::Vcs;
