//! Transaction-footprint analysis, conflict scheduling and contention scoring
//! for Soroban transaction sets.

pub mod keys;
pub mod keyset;
pub mod footprint;
pub mod scheduler;
pub mod lanes;
pub mod score;
pub mod text;
pub mod names;
pub mod analysis;
pub mod detectors;
pub mod syntax;
pub mod callgraph;
pub mod xdr;
pub mod replay;
pub mod simulate;
pub mod totals;
