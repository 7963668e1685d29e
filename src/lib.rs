//! Verified core of the multipole-to-local (M2L) translation step of a fast
//! multipole method: the Hadamard product engine that combines a sibling octet
//! of frequency-domain multipole expansions with the translation kernels, the
//! scatter-displacement table, and the per-octet gather/scatter plan.
//!
//! The numeric element type is left generic: the engine is proved correct for
//! any element type and any multiply-accumulate / add operation handed in, so
//! the complex floating-point arithmetic itself stays with the caller.
pub mod buffer;
pub mod config;
pub mod error;
pub mod hadamard;
pub mod m2l;
pub mod scatter;
