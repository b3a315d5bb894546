//! Verified core of the shinri SMT solver's bit-blaster and of its benchmark
//! harness.
pub mod bench;
pub mod bv;
pub mod text;
