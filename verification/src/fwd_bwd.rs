//! Reference decomposition: repeatedly pick a pivot in the remaining space,
//! intersect its forward and backward closures to obtain its strongly
//! connected component, and remove it. Far more symbolic operations than the
//! chain decomposition, but simple — used to cross-check results.
use vstd::prelude::*;

use crate::chain::lemma_emit_iff;
use crate::chain::lemma_scc_localize;
use crate::model::bwd_closure;
use crate::model::component_views;
use crate::model::cyc_member;
use crate::model::fwd_closure;
use crate::model::graph_simple;
use crate::model::graph_universe;
use crate::model::graph_width;
use crate::model::is_component;
use crate::model::is_scc_decomposition;
use crate::model::is_subgraph;
use crate::model::lemma_component_member;
use crate::model::lemma_reach_refl;
use crate::model::lemma_scc_closed_full;
use crate::model::lemma_scc_cyc_in;
use crate::model::lemma_scc_same;
use crate::model::lemma_subgraph_closed;
use crate::model::nontrivial_at;
use crate::model::ok_graph;
use crate::model::ok_set;
use crate::model::scc_at;
use crate::model::scc_closed;
use crate::model::state_width;
use crate::model::vertices_of;
use crate::reachability::bwd_saturation;
use crate::reachability::fwd_saturation;
use crate::reachability::naive_bwd;
use crate::reachability::naive_fwd;
use crate::symbolic::graph_restrict;
use crate::symbolic::graph_unit_set;
use crate::symbolic::set_intersect;
use crate::symbolic::set_is_empty;
use crate::symbolic::set_is_singleton;
use crate::symbolic::set_minus;
use crate::symbolic::set_pick_singleton;
use crate::trimming::trim;
use biodivine_lib_param_bn::symbolic_async_graph::GraphColoredVertices;
use biodivine_lib_param_bn::symbolic_async_graph::SymbolicAsyncGraph;
use vstd::set_lib::lemma_len_subset;

verus! {

/// The component of one state of `space`, as the intersection of the
/// state's forward and backward closures over the whole graph.
fn get_some_scc(
    graph: &SymbolicAsyncGraph,
    space_to_pick_from: &GraphColoredVertices,
    saturation: bool,
) -> (r: GraphColoredVertices)
    requires
        ok_graph(*graph),
        ok_set(*space_to_pick_from),
        state_width(*space_to_pick_from) == graph_width(*graph),
        vertices_of(*space_to_pick_from).subset_of(graph_universe(*graph)),
        !vertices_of(*space_to_pick_from).is_empty(),
    ensures
        exists|p: Seq<bool>|
            vertices_of(*space_to_pick_from).contains(p) && vertices_of(r) == #[trigger] scc_at(
                *graph,
                graph_universe(*graph),
                p,
            ),
        ok_set(r),
        state_width(r) == graph_width(*graph),
{
    let ghost u = graph_universe(*graph);
    let pivot = set_pick_singleton(space_to_pick_from);
    let ghost pw = choose|pw: Seq<bool>|
        vertices_of(pivot) == Set::<Seq<bool>>::empty().insert(pw);
    proof {
        assert(vertices_of(pivot).contains(pw));
        assert(vertices_of(*space_to_pick_from).contains(pw));
        assert(vertices_of(pivot).subset_of(u));
    }
    let fwd = if saturation {
        fwd_saturation(graph, &pivot)
    } else {
        naive_fwd(graph, &pivot)
    };
    let bwd = if saturation {
        bwd_saturation(graph, &pivot)
    } else {
        naive_bwd(graph, &pivot)
    };
    let scc = set_intersect(&fwd, &bwd);
    proof {
        let p0 = vertices_of(pivot);
        assert forall|y: Seq<bool>| #[trigger]
            vertices_of(scc).contains(y) implies scc_at(*graph, u, pw).contains(y) by {
            let a = choose|a: Seq<bool>| p0.contains(a) && #[trigger] crate::model::reach(*graph, u, a, y);
            assert(a == pw);
            let b = choose|b: Seq<bool>| p0.contains(b) && #[trigger] crate::model::reach(*graph, u, y, b);
            assert(b == pw);
        }
        assert forall|y: Seq<bool>| #[trigger]
            scc_at(*graph, u, pw).contains(y) implies vertices_of(scc).contains(y) by {
            assert(p0.contains(pw));
        }
        assert(vertices_of(scc) =~= scc_at(*graph, u, pw));
    }
    scc
}

/// The shared loop of the reference decompositions.
#[verifier::rlimit(60)]
fn fwd_bwd_core(graph: &SymbolicAsyncGraph, saturation: bool, trimming: bool) -> (r: Vec<
    GraphColoredVertices,
>)
    requires
        graph_simple(*graph),
    ensures
        is_scc_decomposition(*graph, component_views(r@)),
        forall|k: int| 0 <= k < r@.len() ==> ok_set(#[trigger] r@[k]),
{
    let ghost u0 = graph_universe(*graph);
    let unit = graph_unit_set(graph);
    let g1 = graph_restrict(graph, &unit);
    proof {
        assert(is_subgraph(*graph, g1));
        lemma_subgraph_closed(*graph, g1);
        assert(ok_graph(g1));
        lemma_scc_closed_full(*graph);
    }
    let mut remaining = graph_unit_set(&g1);
    if trimming {
        remaining = trim(&g1, remaining);
    }
    let mut scc_dump: Vec<GraphColoredVertices> = Vec::new();
    proof {
        // The initial trim keeps every non-trivial component whole.
        assert forall|x: Seq<bool>|
            u0.contains(x) && #[trigger] nontrivial_at(*graph, u0, x) implies vertices_of(
            remaining,
        ).contains(x) && scc_at(*graph, u0, x).subset_of(vertices_of(remaining)) by {
            assert forall|d: Seq<bool>| #[trigger] scc_at(*graph, u0, x).contains(d) implies
                vertices_of(remaining).contains(d) by {
                lemma_component_member(*graph, u0, x, d);
                lemma_scc_cyc_in(*graph, g1, u0, d);
                assert(cyc_member(g1, u0, d));
            }
            lemma_reach_refl(*graph, u0, x);
            assert(scc_at(*graph, u0, x).contains(x));
        }
    }
    while !set_is_empty(&remaining)
        invariant
            graph_simple(*graph),
            u0 == graph_universe(*graph),
            u0.finite(),
            ok_graph(g1),
            is_subgraph(*graph, g1),
            graph_universe(g1) == u0,
            graph_width(g1) == graph_width(*graph),
            ok_set(remaining),
            state_width(remaining) == graph_width(*graph),
            vertices_of(remaining).subset_of(u0),
            scc_closed(*graph, vertices_of(remaining)),
            forall|k: int|
                0 <= k < scc_dump@.len() ==> is_component(
                    *graph,
                    u0,
                    vertices_of(#[trigger] scc_dump@[k]),
                ),
            forall|k: int, l: int|
                0 <= k < scc_dump@.len() && 0 <= l < scc_dump@.len() && k != l ==> vertices_of(
                    #[trigger] scc_dump@[k],
                ).disjoint(vertices_of(#[trigger] scc_dump@[l])),
            forall|k: int| 0 <= k < scc_dump@.len() ==> ok_set(#[trigger] scc_dump@[k]),
            forall|k: int|
                0 <= k < scc_dump@.len() ==> vertices_of(#[trigger] scc_dump@[k]).disjoint(
                    vertices_of(remaining),
                ),
            forall|x: Seq<bool>|
                u0.contains(x) && #[trigger] nontrivial_at(*graph, u0, x) ==> (exists|k: int|
                    0 <= k < scc_dump@.len() && vertices_of(#[trigger] scc_dump@[k]).contains(x))
                    || vertices_of(remaining).contains(x),
        decreases vertices_of(remaining).len(),
    {
        let ghost rem0 = vertices_of(remaining);
        let ghost out0 = scc_dump@;
        let scc = get_some_scc(&g1, &remaining, saturation);
        let ghost pg = choose|pg: Seq<bool>|
            vertices_of(remaining).contains(pg) && vertices_of(scc) == #[trigger] scc_at(
                g1,
                graph_universe(g1),
                pg,
            );
        let ghost sset = vertices_of(scc);
        proof {
            lemma_scc_localize(*graph, g1, pg);
            assert(sset =~= scc_at(*graph, u0, pg));
            lemma_reach_refl(*graph, u0, pg);
            assert(sset.contains(pg));
            // The component is inside the remaining space: either it is the
            // single pivot, or closure keeps it whole.
            if nontrivial_at(*graph, u0, pg) {
                assert(sset.subset_of(rem0));
            } else {
                assert forall|d: Seq<bool>| #[trigger] sset.contains(d) implies rem0.contains(
                    d,
                ) by {
                    if d != pg {
                        assert(crate::model::reach(*graph, u0, pg, d) && crate::model::reach(
                            *graph,
                            u0,
                            d,
                            pg,
                        ));
                        assert(nontrivial_at(*graph, u0, pg));
                    }
                }
            }
        }
        let next_remaining = set_minus(&remaining, &scc);
        let ghost w = vertices_of(next_remaining);
        remaining = if trimming {
            trim(&g1, next_remaining)
        } else {
            next_remaining
        };
        let ghost rem1 = vertices_of(remaining);
        proof {
            // Closure of what remains, and survival of untouched components.
            assert forall|x: Seq<bool>|
                w.contains(x) && #[trigger] nontrivial_at(*graph, u0, x) implies rem1.contains(x)
                && scc_at(*graph, u0, x).subset_of(rem1) by {
                let cx = scc_at(*graph, u0, x);
                lemma_reach_refl(*graph, u0, x);
                assert(cx.contains(x));
                assert forall|d: Seq<bool>| #[trigger] cx.contains(d) implies w.contains(d) by {
                    assert(cx.subset_of(rem0));
                    if sset.contains(d) {
                        lemma_scc_same(*graph, u0, pg, d);
                        lemma_scc_same(*graph, u0, x, d);
                        assert(cx == sset);
                        assert(sset.contains(x));
                    }
                }
                assert forall|d: Seq<bool>| #[trigger] cx.contains(d) implies rem1.contains(d) by {
                    lemma_component_member(*graph, u0, x, d);
                    lemma_scc_cyc_in(*graph, g1, w, d);
                    assert(cyc_member(g1, w, d));
                }
            }
        }
        let emit = !set_is_singleton(&scc);
        proof {
            lemma_emit_iff(*graph, pg, sset);
        }
        if emit {
            scc_dump.push(scc);
        }
        proof {
            let out1 = scc_dump@;
            assert(forall|k: int| 0 <= k < out0.len() ==> #[trigger] out1[k] == out0[k]);
            // Output invariants.
            assert forall|k: int| 0 <= k < out1.len() implies is_component(
                *graph,
                u0,
                vertices_of(#[trigger] out1[k]),
            ) && ok_set(out1[k]) by {
                if k < out0.len() {
                    assert(out1[k] == out0[k]);
                } else {
                    assert(out1[k] == scc);
                    assert(u0.contains(pg) && nontrivial_at(*graph, u0, pg) && sset == scc_at(
                        *graph,
                        u0,
                        pg,
                    ));
                }
            }
            assert forall|k: int, l: int|
                0 <= k < out1.len() && 0 <= l < out1.len() && k != l implies vertices_of(
                #[trigger] out1[k],
            ).disjoint(vertices_of(#[trigger] out1[l])) by {
                if k < out0.len() && l < out0.len() {
                    assert(out1[k] == out0[k] && out1[l] == out0[l]);
                } else if k < out0.len() {
                    assert(out1[k] == out0[k] && out1[l] == scc);
                    assert forall|z: Seq<bool>|
                        vertices_of(out1[k]).contains(z) implies !sset.contains(z) by {
                        if sset.contains(z) {
                            assert(rem0.contains(z));
                        }
                    }
                } else {
                    assert(out1[l] == out0[l] && out1[k] == scc);
                    assert forall|z: Seq<bool>|
                        sset.contains(z) implies !vertices_of(out1[l]).contains(z) by {
                        assert(rem0.contains(z));
                    }
                }
            }
            assert forall|k: int|
                0 <= k < out1.len() implies vertices_of(#[trigger] out1[k]).disjoint(rem1) by {
                if k < out0.len() {
                    assert(out1[k] == out0[k]);
                    assert forall|z: Seq<bool>|
                        vertices_of(out1[k]).contains(z) implies !rem1.contains(z) by {
                        if rem1.contains(z) {
                            assert(w.contains(z));
                            assert(rem0.contains(z));
                        }
                    }
                } else {
                    assert(out1[k] == scc);
                    assert forall|z: Seq<bool>| sset.contains(z) implies !rem1.contains(z) by {
                        if rem1.contains(z) {
                            assert(w.contains(z));
                        }
                    }
                }
            }
            // Coverage.
            assert forall|x: Seq<bool>|
                u0.contains(x) && #[trigger] nontrivial_at(*graph, u0, x) implies (exists|k: int|
                0 <= k < out1.len() && vertices_of(#[trigger] out1[k]).contains(x))
                || rem1.contains(x) by {
                if exists|k: int|
                    0 <= k < out0.len() && vertices_of(#[trigger] out0[k]).contains(x) {
                    let k = choose|k: int|
                        0 <= k < out0.len() && vertices_of(#[trigger] out0[k]).contains(x);
                    assert(out1[k] == out0[k]);
                    assert(vertices_of(out1[k]).contains(x));
                } else if rem0.contains(x) {
                    if sset.contains(x) {
                        lemma_scc_same(*graph, u0, pg, x);
                        lemma_component_member(*graph, u0, x, pg);
                        assert(nontrivial_at(*graph, u0, pg));
                        assert(emit);
                        let k = out0.len() as int;
                        assert(out1[k] == scc);
                        assert(vertices_of(out1[k]).contains(x));
                    } else {
                        assert(w.contains(x));
                        assert(rem1.contains(x));
                    }
                }
            }
            // Termination: the pivot left the remaining space for good.
            assert(!rem1.contains(pg));
            assert(rem1.subset_of(rem0));
            lemma_len_subset(rem0, u0);
            rem1.lemma_subset_not_in_lt(rem0, pg);
        }
    }
    proof {
        let comps = component_views(scc_dump@);
        assert forall|k: int| 0 <= k < comps.len() implies #[trigger] is_component(
            *graph,
            u0,
            comps[k],
        ) by {
            assert(comps[k] == vertices_of(scc_dump@[k]));
        }
        assert forall|k: int, l: int|
            0 <= k < comps.len() && 0 <= l < comps.len() && k != l implies (
        #[trigger] comps[k]).disjoint(#[trigger] comps[l]) by {
            assert(comps[k] == vertices_of(scc_dump@[k]));
            assert(comps[l] == vertices_of(scc_dump@[l]));
        }
        assert forall|x: Seq<bool>|
            u0.contains(x) && #[trigger] nontrivial_at(*graph, u0, x) implies exists|k: int|
            0 <= k < comps.len() && (#[trigger] comps[k]).contains(x) by {
            let k = choose|k: int|
                0 <= k < scc_dump@.len() && vertices_of(#[trigger] scc_dump@[k]).contains(x);
            assert(comps[k] == vertices_of(scc_dump@[k]));
            assert(comps[k].contains(x));
        }
    }
    scc_dump
}

/// Decompose the whole universe into strongly connected components,
/// trivial ones included: the result is a partition of the universe.
#[verifier::rlimit(60)]
pub fn scc_decomposition(graph: &SymbolicAsyncGraph) -> (r: Vec<GraphColoredVertices>)
    requires
        graph_simple(*graph),
    ensures
        crate::model::is_full_scc_partition(*graph, component_views(r@)),
        forall|k: int| 0 <= k < r@.len() ==> ok_set(#[trigger] r@[k]),
{
    let ghost u0 = graph_universe(*graph);
    let unit = graph_unit_set(graph);
    let g1 = graph_restrict(graph, &unit);
    proof {
        assert(is_subgraph(*graph, g1));
        lemma_subgraph_closed(*graph, g1);
        assert(ok_graph(g1));
        lemma_scc_closed_full(*graph);
    }
    let mut remaining = graph_unit_set(&g1);
    let mut sccs_dump: Vec<GraphColoredVertices> = Vec::new();
    proof {
        assert forall|x: Seq<bool>, d: Seq<bool>|
            u0.contains(x) && #[trigger] scc_at(*graph, u0, x).contains(d) implies u0.contains(
            d,
        ) by {
            crate::model::lemma_reach_in_set(*graph, u0, x, d);
        }
    }
    while !set_is_empty(&remaining)
        invariant
            graph_simple(*graph),
            u0 == graph_universe(*graph),
            u0.finite(),
            ok_graph(g1),
            is_subgraph(*graph, g1),
            graph_universe(g1) == u0,
            graph_width(g1) == graph_width(*graph),
            ok_set(remaining),
            state_width(remaining) == graph_width(*graph),
            vertices_of(remaining).subset_of(u0),
            forall|x: Seq<bool>| #[trigger]
                vertices_of(remaining).contains(x) ==> u0.contains(x) && scc_at(
                    *graph,
                    u0,
                    x,
                ).subset_of(vertices_of(remaining)),
            forall|k: int|
                0 <= k < sccs_dump@.len() ==> crate::model::is_any_component(
                    *graph,
                    u0,
                    vertices_of(#[trigger] sccs_dump@[k]),
                ),
            forall|k: int, l: int|
                0 <= k < sccs_dump@.len() && 0 <= l < sccs_dump@.len() && k != l ==> vertices_of(
                    #[trigger] sccs_dump@[k],
                ).disjoint(vertices_of(#[trigger] sccs_dump@[l])),
            forall|k: int| 0 <= k < sccs_dump@.len() ==> ok_set(#[trigger] sccs_dump@[k]),
            forall|k: int|
                0 <= k < sccs_dump@.len() ==> vertices_of(#[trigger] sccs_dump@[k]).disjoint(
                    vertices_of(remaining),
                ),
            forall|x: Seq<bool>| #[trigger]
                u0.contains(x) ==> (exists|k: int|
                    0 <= k < sccs_dump@.len() && vertices_of(#[trigger] sccs_dump@[k]).contains(x))
                    || vertices_of(remaining).contains(x),
        decreases vertices_of(remaining).len(),
    {
        let ghost rem0 = vertices_of(remaining);
        let ghost out0 = sccs_dump@;
        let scc = get_some_scc(&g1, &remaining, false);
        let ghost pg = choose|pg: Seq<bool>|
            vertices_of(remaining).contains(pg) && vertices_of(scc) == #[trigger] scc_at(
                g1,
                graph_universe(g1),
                pg,
            );
        let ghost sset = vertices_of(scc);
        proof {
            lemma_scc_localize(*graph, g1, pg);
            assert(sset =~= scc_at(*graph, u0, pg));
            lemma_reach_refl(*graph, u0, pg);
            assert(sset.contains(pg));
            assert(sset.subset_of(rem0));
        }
        remaining = set_minus(&remaining, &scc);
        let ghost rem1 = vertices_of(remaining);
        sccs_dump.push(scc);
        proof {
            let out1 = sccs_dump@;
            assert(forall|k: int| 0 <= k < out0.len() ==> #[trigger] out1[k] == out0[k]);
            assert(out1[out1.len() - 1] == scc);
            assert(crate::model::is_any_component(*graph, u0, vertices_of(scc)));
            // What remains is still closed under whole components.
            assert forall|x: Seq<bool>| #[trigger] rem1.contains(x) implies u0.contains(x)
                && scc_at(*graph, u0, x).subset_of(rem1) by {
                assert(rem0.contains(x));
                assert forall|d: Seq<bool>| #[trigger]
                    scc_at(*graph, u0, x).contains(d) implies rem1.contains(d) by {
                    assert(rem0.contains(d));
                    if sset.contains(d) {
                        lemma_scc_same(*graph, u0, pg, d);
                        lemma_scc_same(*graph, u0, x, d);
                        assert(sset.contains(x));
                    }
                }
            }
            // Disjointness of the new component from the old ones.
            assert forall|k: int, l: int|
                0 <= k < out1.len() && 0 <= l < out1.len() && k != l implies vertices_of(
                #[trigger] out1[k],
            ).disjoint(vertices_of(#[trigger] out1[l])) by {
                if k < out0.len() && l < out0.len() {
                    assert(out1[k] == out0[k] && out1[l] == out0[l]);
                } else if k < out0.len() {
                    assert(out1[k] == out0[k] && out1[l] == scc);
                    assert forall|z: Seq<bool>|
                        vertices_of(out1[k]).contains(z) implies !sset.contains(z) by {
                        if sset.contains(z) {
                            assert(rem0.contains(z));
                        }
                    }
                } else {
                    assert(out1[l] == out0[l] && out1[k] == scc);
                    assert forall|z: Seq<bool>|
                        sset.contains(z) implies !vertices_of(out1[l]).contains(z) by {
                        assert(rem0.contains(z));
                    }
                }
            }
            // Coverage.
            assert forall|x: Seq<bool>| #[trigger] u0.contains(x) implies (exists|k: int|
                0 <= k < out1.len() && vertices_of(#[trigger] out1[k]).contains(x))
                || rem1.contains(x) by {
                if exists|k: int|
                    0 <= k < out0.len() && vertices_of(#[trigger] out0[k]).contains(x) {
                    let k = choose|k: int|
                        0 <= k < out0.len() && vertices_of(#[trigger] out0[k]).contains(x);
                    assert(out1[k] == out0[k]);
                    assert(vertices_of(out1[k]).contains(x));
                } else if rem0.contains(x) {
                    if sset.contains(x) {
                        let k = out0.len() as int;
                        assert(vertices_of(out1[k]).contains(x));
                    } else {
                        assert(rem1.contains(x));
                    }
                }
            }
            // Termination.
            assert(!rem1.contains(pg));
            assert(rem1.subset_of(rem0));
            lemma_len_subset(rem0, u0);
            rem1.lemma_subset_not_in_lt(rem0, pg);
        }
    }
    proof {
        let comps = component_views(sccs_dump@);
        assert forall|k: int| 0 <= k < comps.len() implies #[trigger] crate::model::is_any_component(
            *graph,
            u0,
            comps[k],
        ) by {
            assert(comps[k] == vertices_of(sccs_dump@[k]));
        }
        assert forall|k: int, l: int|
            0 <= k < comps.len() && 0 <= l < comps.len() && k != l implies (
        #[trigger] comps[k]).disjoint(#[trigger] comps[l]) by {
            assert(comps[k] == vertices_of(sccs_dump@[k]));
            assert(comps[l] == vertices_of(sccs_dump@[l]));
        }
        assert forall|x: Seq<bool>| #[trigger] u0.contains(x) implies exists|k: int|
            0 <= k < comps.len() && (#[trigger] comps[k]).contains(x) by {
            let k = choose|k: int|
                0 <= k < sccs_dump@.len() && vertices_of(#[trigger] sccs_dump@[k]).contains(x);
            assert(comps[k] == vertices_of(sccs_dump@[k]));
            assert(comps[k].contains(x));
        }
    }
    sccs_dump
}

/// Reference decomposition with the layered reachability strategy.
pub fn fwd_bwd_scc_decomposition_naive(graph: &SymbolicAsyncGraph) -> (r: Vec<GraphColoredVertices>)
    requires
        graph_simple(*graph),
    ensures
        is_scc_decomposition(*graph, component_views(r@)),
        forall|k: int| 0 <= k < r@.len() ==> ok_set(#[trigger] r@[k]),
{
    fwd_bwd_core(graph, false, false)
}

/// Reference decomposition with the layered strategy and trimming of the
/// remaining space.
pub fn fwd_bwd_scc_decomposition_naive_trim(graph: &SymbolicAsyncGraph) -> (r: Vec<
    GraphColoredVertices,
>)
    requires
        graph_simple(*graph),
    ensures
        is_scc_decomposition(*graph, component_views(r@)),
        forall|k: int| 0 <= k < r@.len() ==> ok_set(#[trigger] r@[k]),
{
    fwd_bwd_core(graph, false, true)
}

/// Reference decomposition with the saturation reachability strategy.
pub fn fwd_bwd_scc_decomposition_saturation(graph: &SymbolicAsyncGraph) -> (r: Vec<
    GraphColoredVertices,
>)
    requires
        graph_simple(*graph),
    ensures
        is_scc_decomposition(*graph, component_views(r@)),
        forall|k: int| 0 <= k < r@.len() ==> ok_set(#[trigger] r@[k]),
{
    fwd_bwd_core(graph, true, false)
}

/// Reference decomposition with the saturation strategy and trimming of the
/// remaining space.
pub fn fwd_bwd_scc_decomposition_saturation_trim(graph: &SymbolicAsyncGraph) -> (r: Vec<
    GraphColoredVertices,
>)
    requires
        graph_simple(*graph),
    ensures
        is_scc_decomposition(*graph, component_views(r@)),
        forall|k: int| 0 <= k < r@.len() ==> ok_set(#[trigger] r@[k]),
{
    fwd_bwd_core(graph, true, true)
}

} // verus!
