//! General properties of the decomposition, proved once and for all: a
//! decomposition is empty on acyclic graphs, is the same set of components
//! whatever strategy produced it, and every emitted component is internally
//! connected and never a single state.
use vstd::prelude::*;

use crate::model::graph_universe;
use crate::model::is_component;
use crate::model::is_scc_decomposition;
use crate::model::lemma_component_member;
use crate::model::lemma_reach_refl;
use crate::model::lemma_scc_paths_inside;
use crate::model::lemma_scc_same;
use crate::model::nontrivial_at;
use crate::model::reach;
use crate::model::scc_at;
use biodivine_lib_param_bn::symbolic_async_graph::SymbolicAsyncGraph;

verus! {

/// On an acyclic graph — no state of the universe lies on a cycle through
/// another state — every valid decomposition is the empty sequence.
pub proof fn lemma_acyclic_decomposition_empty(g: SymbolicAsyncGraph, comps: Seq<Set<Seq<bool>>>)
    requires
        is_scc_decomposition(g, comps),
        forall|x: Seq<bool>|
            graph_universe(g).contains(x) ==> !#[trigger] nontrivial_at(g, graph_universe(g), x),
    ensures
        comps.len() == 0,
{
    if comps.len() > 0 {
        assert(is_component(g, graph_universe(g), comps[0]));
        let x = choose|x: Seq<bool>|
            graph_universe(g).contains(x) && nontrivial_at(g, graph_universe(g), x) && comps[0]
                == #[trigger] scc_at(g, graph_universe(g), x);
    }
}

/// The component `c` occurs among the components `cs`.
pub open spec fn appears_in(c: Set<Seq<bool>>, cs: Seq<Set<Seq<bool>>>) -> bool {
    exists|l: int| 0 <= l < cs.len() && c == #[trigger] cs[l]
}

/// Every component of one valid decomposition appears in any other.
pub proof fn lemma_decomposition_contained(
    g: SymbolicAsyncGraph,
    c1: Seq<Set<Seq<bool>>>,
    c2: Seq<Set<Seq<bool>>>,
)
    requires
        is_scc_decomposition(g, c1),
        is_scc_decomposition(g, c2),
    ensures
        forall|k: int| 0 <= k < c1.len() ==> #[trigger] appears_in(c1[k], c2),
{
    let u = graph_universe(g);
    assert forall|k: int| 0 <= k < c1.len() implies #[trigger] appears_in(c1[k], c2) by {
        assert(is_component(g, u, c1[k]));
        let x = choose|x: Seq<bool>|
            u.contains(x) && nontrivial_at(g, u, x) && c1[k] == #[trigger] scc_at(g, u, x);
        lemma_reach_refl(g, u, x);
        assert(c1[k].contains(x));
        let l = choose|l: int| 0 <= l < c2.len() && (#[trigger] c2[l]).contains(x);
        assert(is_component(g, u, c2[l]));
        let y = choose|y: Seq<bool>|
            u.contains(y) && nontrivial_at(g, u, y) && c2[l] == #[trigger] scc_at(g, u, y);
        // x sits in the component of y, so the two components coincide.
        lemma_scc_same(g, u, y, x);
        assert(c2[l] == c1[k]);
    }
}

/// Strategy-agnosticism: any two valid decompositions of one graph emit the
/// same set of components, whatever order and strategy produced them.
pub proof fn lemma_decomposition_unique(
    g: SymbolicAsyncGraph,
    c1: Seq<Set<Seq<bool>>>,
    c2: Seq<Set<Seq<bool>>>,
)
    requires
        is_scc_decomposition(g, c1),
        is_scc_decomposition(g, c2),
    ensures
        forall|k: int| 0 <= k < c1.len() ==> #[trigger] appears_in(c1[k], c2),
        forall|l: int| 0 <= l < c2.len() ==> #[trigger] appears_in(c2[l], c1),
{
    lemma_decomposition_contained(g, c1, c2);
    lemma_decomposition_contained(g, c2, c1);
}

/// Trim monotonicity: the components found with full trimming appear among
/// those found with initial trimming only, and those among the components
/// found without trimming. By uniqueness, the three sets in fact coincide.
pub proof fn lemma_trim_monotone(
    g: SymbolicAsyncGraph,
    full: Seq<Set<Seq<bool>>>,
    start_only: Seq<Set<Seq<bool>>>,
    off: Seq<Set<Seq<bool>>>,
)
    requires
        is_scc_decomposition(g, full),
        is_scc_decomposition(g, start_only),
        is_scc_decomposition(g, off),
    ensures
        forall|k: int| 0 <= k < full.len() ==> #[trigger] appears_in(full[k], start_only),
        forall|k: int| 0 <= k < start_only.len() ==> #[trigger] appears_in(start_only[k], off),
{
    lemma_decomposition_contained(g, full, start_only);
    lemma_decomposition_contained(g, start_only, off);
}

/// Structural validity of an emitted component: its states are mutually
/// reachable by paths that never leave the component, and it never is a
/// single state.
pub proof fn lemma_component_internally_connected(
    g: SymbolicAsyncGraph,
    comps: Seq<Set<Seq<bool>>>,
    k: int,
    a: Seq<bool>,
    b: Seq<bool>,
)
    requires
        is_scc_decomposition(g, comps),
        0 <= k < comps.len(),
        comps[k].contains(a),
        comps[k].contains(b),
    ensures
        reach(g, comps[k], a, b),
        exists|y: Seq<bool>| y != a && comps[k].contains(y),
{
    let u = graph_universe(g);
    assert(is_component(g, u, comps[k]));
    let x = choose|x: Seq<bool>|
        u.contains(x) && nontrivial_at(g, u, x) && comps[k] == #[trigger] scc_at(g, u, x);
    lemma_scc_paths_inside(g, u, x, a, b);
    // The component holds the witness of non-triviality besides x itself.
    let y = choose|y: Seq<bool>| y != x && #[trigger] reach(g, u, x, y) && reach(g, u, y, x);
    lemma_reach_refl(g, u, x);
    assert(comps[k].contains(x));
    assert(comps[k].contains(y));
    if a == x {
        assert(y != a && comps[k].contains(y));
    } else {
        assert(x != a && comps[k].contains(x));
    }
}


/// The other inclusion of the output contract: every state of an emitted
/// component lies in the universe and on a non-trivial cycle, so the union
/// of the output is exactly the cyclic portion of the universe.
pub proof fn lemma_components_only_cyclic(
    g: SymbolicAsyncGraph,
    comps: Seq<Set<Seq<bool>>>,
    k: int,
    y: Seq<bool>,
)
    requires
        is_scc_decomposition(g, comps),
        0 <= k < comps.len(),
        comps[k].contains(y),
    ensures
        graph_universe(g).contains(y),
        nontrivial_at(g, graph_universe(g), y),
{
    let u = graph_universe(g);
    assert(is_component(g, u, comps[k]));
    let x = choose|x: Seq<bool>|
        u.contains(x) && nontrivial_at(g, u, x) && comps[k] == #[trigger] scc_at(g, u, x);
    lemma_component_member(g, u, x, y);
    crate::model::lemma_reach_in_set(g, u, x, y);
}

} // verus!
