//! Succession diagram data: one node of a succession diagram pairs the trap
//! space of the node with the stable motifs that percolate to its
//! successors. Loading such data from disk happens outside the library;
//! here only the shape of one entry is defined.
use vstd::prelude::*;

verus! {

/// One node of a succession diagram: its trap space, plus the stable motifs
/// that percolate to node successors. A space maps variable names to fixed
/// values.
#[derive(Clone, PartialEq, Eq, Debug)]
pub struct SdEntry {
    pub trap: std::collections::HashMap<String, u8>,
    pub motifs: Vec<std::collections::HashMap<String, u8>>,
}

} // verus!
