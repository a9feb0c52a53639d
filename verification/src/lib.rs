//! Symbolic decomposition of the state-transition graph of an asynchronous
//! Boolean network into its strongly connected components.
//!
//! States are kept in symbolic sets; the decomposition never enumerates
//! them. The crate offers the chain decomposition with a layered or a
//! saturation reachability strategy, an optional trimming pass for states
//! that cannot lie on a cycle, a Hamming-distance pivot heuristic, and a
//! naive forward-backward decomposition used as a reference.
use vstd::prelude::*;

pub mod chain;
pub mod dd;
pub mod fwd_bwd;
pub mod hamming;
pub mod laws;
pub mod model;
pub mod reachability;
pub mod trimming;
pub mod succession_diagrams;
pub mod symbolic;
pub mod transients;

verus! {

} // verus!
