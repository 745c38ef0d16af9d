//! Input model for the one-sided crossing minimization problem: a bipartite
//! graph with a fixed layer (indices below the fixed count) and a free layer
//! (the remaining indices), together with routines that count how many edge
//! pairs cross under a given ordering of the free layer, and builders that
//! produce such graphs from random generation, a deterministic zero-crossing
//! construction, and a PACE-style text format.

pub mod error;
pub mod graph;
pub mod crossings;
pub mod parse;
pub mod graph_builder;
