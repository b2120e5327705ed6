//! Locus: the surface syntax, the diagnostics, and the arithmetic procedure
//! that finds certificates for linear integer arithmetic.

pub mod integer;
pub mod term;
pub mod text;
pub mod source;
pub mod ast;
pub mod diagnostic;
pub mod elab;
pub mod arith;
pub mod bench;
