//! The scope of the elaborator, the specialization of generic declarations
//! into ordinary ones, and what the arithmetic tier reports.

pub mod arithmetic;
pub mod blocks;
pub mod env;
pub mod generics;
pub mod items;
pub mod keys;
pub mod literals;
pub mod preview;
