//! Eager bit-blasting of bit-vector operations to CNF over a private
//! variable namespace.
pub mod blast;
pub mod lower;
pub mod semantics;
pub mod rewrite;
pub mod terms;
