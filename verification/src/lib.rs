//! Arithmetization of control-flow attestation: a control-flow graph, an
//! execution path through it, the trace matrix that encodes the path, and the
//! polynomial identities that hold of the matrix exactly where the path is valid.

pub mod error;
pub mod lists;
pub mod text;
pub mod field;
pub mod prime;
pub mod cfg;
pub mod exe_path;
pub mod trace;
pub mod air;
pub mod soundness;
