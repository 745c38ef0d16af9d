use vstd::prelude::*;

verus! {

/// The failure kinds reported by the graph and its builders.
///
/// `IndexError` is returned by edge mutation and queries when a node index is
/// at or above the node count. `ValueError` is returned for an invalid free
/// ordering or an infeasible random-edge request. `ParseError` is returned for
/// a missing or malformed header line, a malformed edge line, or an edge-count
/// mismatch while reading the text format.
#[derive(Clone, Copy, Debug, PartialEq, Eq, Structural)]
pub enum GraphError {
    IndexError,
    ValueError,
    ParseError,
}

} // verus!
