//! The arithmetization and proving core of a PLONK-style proof system: a
//! single-pass floor planner, the verifier side of the permutation argument,
//! and the prover side of the vanishing argument.

pub mod arithmetic;
pub mod circuit;
pub mod dev;
pub mod floor_planner;
pub mod layouter;
pub mod permutation;
pub mod plonk;
pub mod poly;
pub mod table_layouter;
pub mod transcript;
pub mod vanishing;
