//! A verified gate-level netlist analysis and transformation engine.
//!
//! The crate owns a mutable directed-multigraph representation of circuit
//! connectivity (the netlist store), derived analyses over it (strongly
//! connected components, a greedy feedback arc set, longest combinational
//! depth), mutation operations with cache invalidation, a pass pipeline, and
//! a structural verifier.

pub mod graph;
pub mod scc;
pub mod fas;
pub mod depth;
pub mod netlist;
pub mod clean;
pub mod analysis;
pub mod passes;
