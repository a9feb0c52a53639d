//! Forward and backward reachability closures over a symbolic graph.
//!
//! Two interchangeable strategies compute the same fixpoint: the layered
//! (naive) strategy repeatedly applies one full step to the newest layer,
//! while the saturation strategy scans the variables from the last declared
//! one and applies the first single-variable step that makes progress,
//! restarting the scan after each success.
//!
//! Both must be run on a graph whose transitions already stay inside its
//! universe (a graph restricted to its own unit set); neither escapes it.
use vstd::prelude::*;

use crate::model::closed_graph;
use crate::model::connects;
use crate::model::edge;
use crate::model::fwd_closure;
use crate::model::bwd_closure;
use crate::model::graph_universe;
use crate::model::graph_width;
use crate::model::lemma_bwd_least;
use crate::model::lemma_reach_extend;
use crate::model::lemma_reach_in_set;
use crate::model::lemma_reach_least;
use crate::model::lemma_reach_refl;
use crate::model::ok_graph;
use crate::model::ok_set;
use crate::model::reach;
use crate::model::state_width;
use crate::model::var_edge;
use crate::model::vertices_of;
use crate::symbolic::graph_num_vars;
use crate::symbolic::graph_post;
use crate::symbolic::graph_pre;
use crate::symbolic::graph_var_post_out;
use crate::symbolic::graph_var_pre_out;
use crate::symbolic::set_is_empty;
use crate::symbolic::set_minus;
use crate::symbolic::set_union;
use biodivine_lib_param_bn::symbolic_async_graph::GraphColoredVertices;
use biodivine_lib_param_bn::symbolic_async_graph::SymbolicAsyncGraph;
use vstd::set_lib::lemma_len_subset;

verus! {

/// The forward closure never leaves the universe of a closed graph.
pub proof fn lemma_fwd_closure_in_universe(g: SymbolicAsyncGraph, p0: Set<Seq<bool>>)
    requires
        closed_graph(g),
        p0.subset_of(graph_universe(g)),
    ensures
        fwd_closure(g, graph_universe(g), p0).subset_of(graph_universe(g)),
        p0.subset_of(fwd_closure(g, graph_universe(g), p0)),
{
    let u = graph_universe(g);
    assert forall|b: Seq<bool>| fwd_closure(g, u, p0).contains(b) implies u.contains(b) by {
        let a = choose|a: Seq<bool>| p0.contains(a) && #[trigger] reach(g, u, a, b);
        lemma_reach_in_set(g, u, a, b);
    }
    assert forall|a: Seq<bool>| p0.contains(a) implies fwd_closure(g, u, p0).contains(a) by {
        lemma_reach_refl(g, u, a);
    }
}

/// The backward closure never leaves the universe of a closed graph.
pub proof fn lemma_bwd_closure_in_universe(g: SymbolicAsyncGraph, p0: Set<Seq<bool>>)
    requires
        closed_graph(g),
        p0.subset_of(graph_universe(g)),
    ensures
        bwd_closure(g, graph_universe(g), p0).subset_of(graph_universe(g)),
        p0.subset_of(bwd_closure(g, graph_universe(g), p0)),
{
    let u = graph_universe(g);
    assert forall|b: Seq<bool>| bwd_closure(g, u, p0).contains(b) implies u.contains(b) by {
        let a = choose|a: Seq<bool>| p0.contains(a) && #[trigger] reach(g, u, b, a);
        lemma_reach_in_set(g, u, b, a);
    }
    assert forall|a: Seq<bool>| p0.contains(a) implies bwd_closure(g, u, p0).contains(a) by {
        lemma_reach_refl(g, u, a);
    }
}

/// Layered forward reachability: the least set that contains `pivot` and is
/// closed under the graph's transitions.
pub fn naive_fwd(graph: &SymbolicAsyncGraph, pivot: &GraphColoredVertices) -> (r:
    GraphColoredVertices)
    requires
        ok_graph(*graph),
        ok_set(*pivot),
        state_width(*pivot) == graph_width(*graph),
        vertices_of(*pivot).subset_of(graph_universe(*graph)),
    ensures
        vertices_of(r) == fwd_closure(*graph, graph_universe(*graph), vertices_of(*pivot)),
        vertices_of(r).subset_of(graph_universe(*graph)),
        ok_set(r),
        state_width(r) == graph_width(*graph),
{
    let ghost u = graph_universe(*graph);
    let ghost p0 = vertices_of(*pivot);
    let ghost target = fwd_closure(*graph, u, p0);
    proof {
        lemma_fwd_closure_in_universe(*graph, p0);
    }
    let mut result = pivot.clone();
    let mut curr_layer = pivot.clone();
    loop
        invariant
            ok_graph(*graph),
            ok_set(result),
            ok_set(curr_layer),
            state_width(result) == graph_width(*graph),
            state_width(curr_layer) == graph_width(*graph),
            p0.subset_of(vertices_of(result)),
            vertices_of(curr_layer).subset_of(vertices_of(result)),
            vertices_of(result).subset_of(target),
            target.subset_of(u),
            target == fwd_closure(*graph, u, p0),
            u == graph_universe(*graph),
            p0 == vertices_of(*pivot),
            u.finite(),
            forall|a: Seq<bool>, b: Seq<bool>|
                vertices_of(result).contains(a) && !vertices_of(curr_layer).contains(a)
                    && #[trigger] edge(*graph, a, b) ==> vertices_of(result).contains(b),
        ensures
            vertices_of(result) == target,
        decreases u.len() - vertices_of(result).len(),
    {
        let stepped = graph_post(graph, &curr_layer);
        let next_layer = set_minus(&stepped, &result);
        if set_is_empty(&next_layer) {
            proof {
                assert forall|a: Seq<bool>, b: Seq<bool>|
                    vertices_of(result).contains(a) && #[trigger] edge(*graph, a, b)
                        && u.contains(b) implies vertices_of(result).contains(b) by {
                    if vertices_of(curr_layer).contains(a) {
                        assert(vertices_of(stepped).contains(b));
                        assert(!vertices_of(next_layer).contains(b));
                    }
                }
                lemma_reach_least(*graph, u, p0, vertices_of(result));
                assert(vertices_of(result) =~= target);
            }
            break ;
        }
        proof {
            assert forall|b: Seq<bool>| vertices_of(next_layer).contains(b) implies target.contains(
                b,
            ) by {
                let a = choose|a: Seq<bool>|
                    vertices_of(curr_layer).contains(a) && #[trigger] edge(*graph, a, b);
                let x = choose|x: Seq<bool>| p0.contains(x) && #[trigger] reach(*graph, u, x, a);
                lemma_reach_extend(*graph, u, x, a, b);
            }
            let elt = vertices_of(next_layer).choose();
            lemma_len_subset(vertices_of(result), u);
            vertices_of(result).lemma_subset_not_in_lt(
                vertices_of(result).union(vertices_of(next_layer)),
                elt,
            );
            lemma_len_subset(vertices_of(result).union(vertices_of(next_layer)), u);
        }
        result = set_union(&result, &next_layer);
        curr_layer = next_layer;
    }
    result
}

/// Layered backward reachability: the least set that contains `pivot` and is
/// closed under the graph's transitions taken backwards.
pub fn naive_bwd(graph: &SymbolicAsyncGraph, pivot: &GraphColoredVertices) -> (r:
    GraphColoredVertices)
    requires
        ok_graph(*graph),
        ok_set(*pivot),
        state_width(*pivot) == graph_width(*graph),
        vertices_of(*pivot).subset_of(graph_universe(*graph)),
    ensures
        vertices_of(r) == bwd_closure(*graph, graph_universe(*graph), vertices_of(*pivot)),
        vertices_of(r).subset_of(graph_universe(*graph)),
        ok_set(r),
        state_width(r) == graph_width(*graph),
{
    let ghost u = graph_universe(*graph);
    let ghost p0 = vertices_of(*pivot);
    let ghost target = bwd_closure(*graph, u, p0);
    proof {
        lemma_bwd_closure_in_universe(*graph, p0);
    }
    let mut result = pivot.clone();
    let mut curr_layer = pivot.clone();
    loop
        invariant
            ok_graph(*graph),
            ok_set(result),
            ok_set(curr_layer),
            state_width(result) == graph_width(*graph),
            state_width(curr_layer) == graph_width(*graph),
            p0.subset_of(vertices_of(result)),
            vertices_of(curr_layer).subset_of(vertices_of(result)),
            vertices_of(result).subset_of(target),
            target.subset_of(u),
            target == bwd_closure(*graph, u, p0),
            u == graph_universe(*graph),
            p0 == vertices_of(*pivot),
            u.finite(),
            forall|a: Seq<bool>, b: Seq<bool>|
                vertices_of(result).contains(b) && !vertices_of(curr_layer).contains(b)
                    && #[trigger] edge(*graph, a, b) ==> vertices_of(result).contains(a),
        ensures
            vertices_of(result) == target,
        decreases u.len() - vertices_of(result).len(),
    {
        let stepped = graph_pre(graph, &curr_layer);
        let next_layer = set_minus(&stepped, &result);
        if set_is_empty(&next_layer) {
            proof {
                assert forall|a: Seq<bool>, b: Seq<bool>|
                    vertices_of(result).contains(b) && #[trigger] edge(*graph, a, b)
                        && u.contains(a) implies vertices_of(result).contains(a) by {
                    if vertices_of(curr_layer).contains(b) {
                        assert(vertices_of(stepped).contains(a));
                        assert(!vertices_of(next_layer).contains(a));
                    }
                }
                lemma_bwd_least(*graph, u, p0, vertices_of(result));
                assert(vertices_of(result) =~= target);
            }
            break ;
        }
        proof {
            assert forall|a: Seq<bool>| vertices_of(next_layer).contains(a) implies target.contains(
                a,
            ) by {
                let b = choose|b: Seq<bool>|
                    vertices_of(curr_layer).contains(b) && #[trigger] edge(*graph, a, b);
                let x = choose|x: Seq<bool>| p0.contains(x) && #[trigger] reach(*graph, u, b, x);
                crate::model::lemma_reach_left_extend(*graph, u, a, b, x);
            }
            let elt = vertices_of(next_layer).choose();
            lemma_len_subset(vertices_of(result), u);
            vertices_of(result).lemma_subset_not_in_lt(
                vertices_of(result).union(vertices_of(next_layer)),
                elt,
            );
            lemma_len_subset(vertices_of(result).union(vertices_of(next_layer)), u);
        }
        result = set_union(&result, &next_layer);
        curr_layer = next_layer;
    }
    result
}

/// Saturation forward reachability: scan the variables from the last one,
/// apply the first single-variable step that leaves the accumulator, and
/// restart; stop when a full scan makes no progress. Computes the same
/// closure as `naive_fwd`.
pub fn fwd_saturation(graph: &SymbolicAsyncGraph, initial: &GraphColoredVertices) -> (r:
    GraphColoredVertices)
    requires
        ok_graph(*graph),
        ok_set(*initial),
        state_width(*initial) == graph_width(*graph),
        vertices_of(*initial).subset_of(graph_universe(*graph)),
    ensures
        vertices_of(r) == fwd_closure(*graph, graph_universe(*graph), vertices_of(*initial)),
        vertices_of(r).subset_of(graph_universe(*graph)),
        ok_set(r),
        state_width(r) == graph_width(*graph),
{
    let ghost u = graph_universe(*graph);
    let ghost p0 = vertices_of(*initial);
    let ghost target = fwd_closure(*graph, u, p0);
    proof {
        lemma_fwd_closure_in_universe(*graph, p0);
    }
    let n = graph_num_vars(graph);
    let mut result = initial.clone();
    loop
        invariant
            ok_graph(*graph),
            ok_set(result),
            state_width(result) == graph_width(*graph),
            n as nat == graph_width(*graph),
            p0.subset_of(vertices_of(result)),
            vertices_of(result).subset_of(target),
            target.subset_of(u),
            target == fwd_closure(*graph, u, p0),
            u == graph_universe(*graph),
            p0 == vertices_of(*initial),
            u.finite(),
        ensures
            vertices_of(result) == target,
        decreases u.len() - vertices_of(result).len(),
    {
        let mut j: usize = 0;
        let mut progressed = false;
        let ghost before = vertices_of(result);
        while j < n
            invariant_except_break
                !progressed,
                j <= n,
                ok_set(result),
                state_width(result) == graph_width(*graph),
                vertices_of(result) == before,
                forall|v: int, a: Seq<bool>, b: Seq<bool>|
                    n - j <= v < n && vertices_of(result).contains(a) && #[trigger] var_edge(
                        *graph,
                        v,
                        a,
                        b,
                    ) ==> vertices_of(result).contains(b),
            invariant
                ok_graph(*graph),
                n as nat == graph_width(*graph),
                u == graph_universe(*graph),
                target == fwd_closure(*graph, u, p0),
                before.subset_of(target),
                target.subset_of(u),
            ensures
                ok_set(result),
                state_width(result) == graph_width(*graph),
                progressed ==> before.subset_of(vertices_of(result)) && vertices_of(
                    result,
                ).subset_of(target) && before != vertices_of(result),
                !progressed ==> vertices_of(result) == before && forall|
                    v: int,
                    a: Seq<bool>,
                    b: Seq<bool>,
                |
                    0 <= v < n && vertices_of(result).contains(a) && #[trigger] var_edge(
                        *graph,
                        v,
                        a,
                        b,
                    ) ==> vertices_of(result).contains(b),
            decreases n - j,
        {
            let v = n - 1 - j;
            let step = graph_var_post_out(graph, v, &result);
            if !set_is_empty(&step) {
                proof {
                    assert forall|b: Seq<bool>| vertices_of(step).contains(b)
                        implies target.contains(b) by {
                        let a = choose|a: Seq<bool>|
                            vertices_of(result).contains(a) && #[trigger] var_edge(
                                *graph,
                                v as int,
                                a,
                                b,
                            );
                        assert(edge(*graph, a, b));
                        assert(target.contains(a));
                        let x = choose|x: Seq<bool>|
                            p0.contains(x) && #[trigger] reach(*graph, u, x, a);
                        lemma_reach_extend(*graph, u, x, a, b);
                    }
                }
                let ghost added = vertices_of(step);
                result = set_union(&result, &step);
                proof {
                    let elt = added.choose();
                    assert(added.contains(elt));
                    assert(!before.contains(elt));
                    assert(vertices_of(result).contains(elt));
                    assert forall|x: Seq<bool>| vertices_of(result).contains(x)
                        implies target.contains(x) by {
                        if !before.contains(x) {
                            assert(added.contains(x));
                        }
                    }
                }
                progressed = true;
                break ;
            }
            proof {
                assert forall|vv: int, a: Seq<bool>, b: Seq<bool>|
                    n - (j + 1) <= vv < n && vertices_of(result).contains(a) && #[trigger] var_edge(
                        *graph,
                        vv,
                        a,
                        b,
                    ) implies vertices_of(result).contains(b) by {
                    if vv == v as int {
                        assert(!vertices_of(step).contains(b));
                    }
                }
            }
            j += 1;
        }
        if !progressed {
            proof {
                assert forall|a: Seq<bool>, b: Seq<bool>|
                    vertices_of(result).contains(a) && #[trigger] edge(*graph, a, b) && u.contains(
                        b,
                    ) implies vertices_of(result).contains(b) by {
                    let v = choose|v: int|
                        0 <= v < graph_width(*graph) && #[trigger] var_edge(*graph, v, a, b);
                }
                lemma_reach_least(*graph, u, p0, vertices_of(result));
                assert(vertices_of(result) =~= target);
            }
            break ;
        }
        proof {
            if forall|e: Seq<bool>| #[trigger]
                vertices_of(result).contains(e) ==> before.contains(e) {
                assert(before =~= vertices_of(result));
            }
            let elt = choose|elt: Seq<bool>|
                !before.contains(elt) && #[trigger] vertices_of(result).contains(elt);
            lemma_len_subset(before, u);
            before.lemma_subset_not_in_lt(vertices_of(result), elt);
            lemma_len_subset(vertices_of(result), u);
        }
    }
    result
}

/// Saturation backward reachability; see `fwd_saturation`.
pub fn bwd_saturation(graph: &SymbolicAsyncGraph, initial: &GraphColoredVertices) -> (r:
    GraphColoredVertices)
    requires
        ok_graph(*graph),
        ok_set(*initial),
        state_width(*initial) == graph_width(*graph),
        vertices_of(*initial).subset_of(graph_universe(*graph)),
    ensures
        vertices_of(r) == bwd_closure(*graph, graph_universe(*graph), vertices_of(*initial)),
        vertices_of(r).subset_of(graph_universe(*graph)),
        ok_set(r),
        state_width(r) == graph_width(*graph),
{
    let ghost u = graph_universe(*graph);
    let ghost p0 = vertices_of(*initial);
    let ghost target = bwd_closure(*graph, u, p0);
    proof {
        lemma_bwd_closure_in_universe(*graph, p0);
    }
    let n = graph_num_vars(graph);
    let mut result = initial.clone();
    loop
        invariant
            ok_graph(*graph),
            ok_set(result),
            state_width(result) == graph_width(*graph),
            n as nat == graph_width(*graph),
            p0.subset_of(vertices_of(result)),
            vertices_of(result).subset_of(target),
            target.subset_of(u),
            target == bwd_closure(*graph, u, p0),
            u == graph_universe(*graph),
            p0 == vertices_of(*initial),
            u.finite(),
        ensures
            vertices_of(result) == target,
        decreases u.len() - vertices_of(result).len(),
    {
        let mut j: usize = 0;
        let mut progressed = false;
        let ghost before = vertices_of(result);
        while j < n
            invariant_except_break
                !progressed,
                j <= n,
                ok_set(result),
                state_width(result) == graph_width(*graph),
                vertices_of(result) == before,
                forall|v: int, a: Seq<bool>, b: Seq<bool>|
                    n - j <= v < n && vertices_of(result).contains(b) && #[trigger] var_edge(
                        *graph,
                        v,
                        a,
                        b,
                    ) ==> vertices_of(result).contains(a),
            invariant
                ok_graph(*graph),
                n as nat == graph_width(*graph),
                u == graph_universe(*graph),
                target == bwd_closure(*graph, u, p0),
                before.subset_of(target),
                target.subset_of(u),
            ensures
                ok_set(result),
                state_width(result) == graph_width(*graph),
                progressed ==> before.subset_of(vertices_of(result)) && vertices_of(
                    result,
                ).subset_of(target) && before != vertices_of(result),
                !progressed ==> vertices_of(result) == before && forall|
                    v: int,
                    a: Seq<bool>,
                    b: Seq<bool>,
                |
                    0 <= v < n && vertices_of(result).contains(b) && #[trigger] var_edge(
                        *graph,
                        v,
                        a,
                        b,
                    ) ==> vertices_of(result).contains(a),
            decreases n - j,
        {
            let v = n - 1 - j;
            let step = graph_var_pre_out(graph, v, &result);
            if !set_is_empty(&step) {
                proof {
                    assert forall|a: Seq<bool>| vertices_of(step).contains(a)
                        implies target.contains(a) by {
                        let b = choose|b: Seq<bool>|
                            vertices_of(result).contains(b) && #[trigger] var_edge(
                                *graph,
                                v as int,
                                a,
                                b,
                            );
                        assert(edge(*graph, a, b));
                        assert(target.contains(b));
                        let x = choose|x: Seq<bool>|
                            p0.contains(x) && #[trigger] reach(*graph, u, b, x);
                        assert(u.contains(a));
                        crate::model::lemma_reach_left_extend(*graph, u, a, b, x);
                    }
                }
                let ghost added = vertices_of(step);
                result = set_union(&result, &step);
                proof {
                    let elt = added.choose();
                    assert(added.contains(elt));
                    assert(!before.contains(elt));
                    assert(vertices_of(result).contains(elt));
                    assert forall|x: Seq<bool>| vertices_of(result).contains(x)
                        implies target.contains(x) by {
                        if !before.contains(x) {
                            assert(added.contains(x));
                        }
                    }
                }
                progressed = true;
                break ;
            }
            proof {
                assert forall|vv: int, a: Seq<bool>, b: Seq<bool>|
                    n - (j + 1) <= vv < n && vertices_of(result).contains(b) && #[trigger] var_edge(
                        *graph,
                        vv,
                        a,
                        b,
                    ) implies vertices_of(result).contains(a) by {
                    if vv == v as int {
                        assert(!vertices_of(step).contains(a));
                    }
                }
            }
            j += 1;
        }
        if !progressed {
            proof {
                assert forall|a: Seq<bool>, b: Seq<bool>|
                    vertices_of(result).contains(b) && #[trigger] edge(*graph, a, b) && u.contains(
                        a,
                    ) implies vertices_of(result).contains(a) by {
                    let v = choose|v: int|
                        0 <= v < graph_width(*graph) && #[trigger] var_edge(*graph, v, a, b);
                }
                lemma_bwd_least(*graph, u, p0, vertices_of(result));
                assert(vertices_of(result) =~= target);
            }
            break ;
        }
        proof {
            if forall|e: Seq<bool>| #[trigger]
                vertices_of(result).contains(e) ==> before.contains(e) {
                assert(before =~= vertices_of(result));
            }
            let elt = choose|elt: Seq<bool>|
                !before.contains(elt) && #[trigger] vertices_of(result).contains(elt);
            lemma_len_subset(before, u);
            before.lemma_subset_not_in_lt(vertices_of(result), elt);
            lemma_len_subset(vertices_of(result), u);
        }
    }
    result
}

} // verus!
