//! Compilation, persistence, and recursive-composition layer of a
//! zero-knowledge circuit framework.
//!
//! The crate turns a compiled constraint system plus a typed input/output
//! contract into a portable artifact, drives proof generation and
//! verification against that artifact, and reconstructs the exact shape of a
//! FRI-style opening proof as a tree of in-circuit symbolic values, purely
//! from protocol parameters.
//!
//! The constraint-satisfaction prover itself is an external collaborator,
//! reached through a capability interface; the logic here is
//! backend-agnostic.

pub mod artifact;
pub mod codec;
pub mod error;
pub mod fri;
pub mod io;
pub mod stream;
pub mod variables;
