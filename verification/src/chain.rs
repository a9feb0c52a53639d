//! Chain decomposition of a symbolic state-transition graph into its
//! non-trivial strongly connected components.
//!
//! One task of the work stack is a restricted graph together with a hint set
//! of good pivot candidates. A step picks a pivot, computes its forward
//! closure, extracts the pivot's component as the backward closure inside
//! the forward one, emits the component unless it is a single state, and
//! schedules the two remaining parts of the task's universe as new tasks.
use vstd::prelude::*;

use crate::model::bwd_closure;
use crate::model::closed_graph;
use crate::model::component_views;
use crate::model::connects;
use crate::model::cyc_member;
use crate::model::edge;
use crate::model::fwd_closure;
use crate::model::graph_simple;
use crate::model::graph_universe;
use crate::model::graph_width;
use crate::model::is_component;
use crate::model::is_scc_decomposition;
use crate::model::is_singleton_set;
use crate::model::is_subgraph;
use crate::model::lemma_bwd_least;
use crate::model::lemma_component_member;
use crate::model::lemma_connects_split;
use crate::model::lemma_disjoint_union_len;
use crate::model::lemma_nontrivial_cyc;
use crate::model::lemma_reach_in_set;
use crate::model::lemma_reach_left_extend;
use crate::model::lemma_reach_monotone;
use crate::model::lemma_reach_refl;
use crate::model::lemma_reach_trans;
use crate::model::lemma_scc_cyc_in;
use crate::model::lemma_scc_paths_inside;
use crate::model::lemma_scc_same;
use crate::model::lemma_subgraph_closed;
use crate::model::lemma_subgraph_edge;
use crate::model::lemma_subgraph_reach;
use crate::model::lemma_subgraph_trans;
use crate::model::nontrivial_at;
use crate::model::ok_graph;
use crate::model::ok_set;
use crate::model::reach;
use crate::model::scc_at;
use crate::model::scc_closed;
use crate::model::sound_set;
use crate::model::simple_context;
use crate::model::state_width;
use crate::model::vertices_of;
use crate::reachability::bwd_saturation;
use crate::reachability::fwd_saturation;
use crate::reachability::lemma_bwd_closure_in_universe;
use crate::reachability::lemma_fwd_closure_in_universe;
use crate::symbolic::graph_empty_set;
use crate::symbolic::graph_post;
use crate::symbolic::graph_pre;
use crate::symbolic::graph_restrict;
use crate::symbolic::graph_unit_set;
use crate::symbolic::set_intersect;
use crate::symbolic::set_is_empty;
use crate::symbolic::set_is_singleton;
use crate::symbolic::set_is_subset;
use crate::symbolic::set_minus;
use crate::symbolic::set_pick_singleton;
use crate::symbolic::set_union;
use crate::trimming::trim;
use biodivine_lib_param_bn::symbolic_async_graph::GraphColoredVertices;
use biodivine_lib_param_bn::symbolic_async_graph::SymbolicAsyncGraph;
use vstd::set_lib::lemma_len_subset;

verus! {

/// When to trim states that provably lie on no cycle.
#[derive(Clone, Copy, Debug, Default)]
pub enum TrimLvl {
    /// Do not trim trivial components at all.
    #[default]
    Off,
    /// Trim once, before the decomposition starts. Trivial components lying
    /// on a path between two non-trivial ones can still be visited.
    StartOnly,
    /// Trim every newly scheduled candidate set.
    Full,
}

/// How a reachability closure is computed.
#[derive(Clone, Copy, Debug, Default)]
pub enum ReachabilityStrategy {
    /// Layered breadth-first fixpoint.
    #[default]
    Layered,
    /// Saturation fixpoint over single-variable steps.
    Saturation,
}

/// How the pivot hint for the forward remainder is chosen.
#[derive(Clone, Copy, Debug, Default)]
pub enum PivotStrategy {
    /// Reuse the remainder itself (or the last layer) as the hint.
    #[default]
    Trivial,
    /// Choose the remainder state furthest from the pivot in Hamming
    /// distance.
    HammingHeuristic,
}

/// Configuration of one decomposition run.
#[derive(Clone, Copy, Debug, Default)]
pub struct Config {
    pub trim_level: TrimLvl,
    pub reachability_strategy: ReachabilityStrategy,
    pub pivot_strategy: PivotStrategy,
}

/// Layered forward reachability that also returns the last non-empty layer,
/// used to seed the hint of the forward remainder.
fn fwd_with_layer(graph: &SymbolicAsyncGraph, pivot: &GraphColoredVertices) -> (r: (
    GraphColoredVertices,
    GraphColoredVertices,
))
    requires
        ok_graph(*graph),
        ok_set(*pivot),
        state_width(*pivot) == graph_width(*graph),
        vertices_of(*pivot).subset_of(graph_universe(*graph)),
    ensures
        vertices_of(r.0) == fwd_closure(*graph, graph_universe(*graph), vertices_of(*pivot)),
        vertices_of(r.0).subset_of(graph_universe(*graph)),
        ok_set(r.0),
        state_width(r.0) == graph_width(*graph),
        ok_set(r.1),
        state_width(r.1) == graph_width(*graph),
{
    let ghost u = graph_universe(*graph);
    let ghost p0 = vertices_of(*pivot);
    let ghost target = fwd_closure(*graph, u, p0);
    proof {
        lemma_fwd_closure_in_universe(*graph, p0);
    }
    let mut result = pivot.clone();
    let mut curr_layer = pivot.clone();
    loop
        invariant
            ok_graph(*graph),
            ok_set(result),
            ok_set(curr_layer),
            state_width(result) == graph_width(*graph),
            state_width(curr_layer) == graph_width(*graph),
            p0.subset_of(vertices_of(result)),
            vertices_of(curr_layer).subset_of(vertices_of(result)),
            vertices_of(result).subset_of(target),
            target.subset_of(u),
            target == fwd_closure(*graph, u, p0),
            u == graph_universe(*graph),
            p0 == vertices_of(*pivot),
            u.finite(),
            forall|a: Seq<bool>, b: Seq<bool>|
                vertices_of(result).contains(a) && !vertices_of(curr_layer).contains(a)
                    && #[trigger] edge(*graph, a, b) ==> vertices_of(result).contains(b),
        ensures
            vertices_of(result) == target,
            ok_set(result),
            ok_set(curr_layer),
            state_width(result) == graph_width(*graph),
            state_width(curr_layer) == graph_width(*graph),
        decreases u.len() - vertices_of(result).len(),
    {
        let stepped = graph_post(graph, &curr_layer);
        let next_layer = set_minus(&stepped, &result);
        if set_is_empty(&next_layer) {
            proof {
                assert forall|a: Seq<bool>, b: Seq<bool>|
                    vertices_of(result).contains(a) && #[trigger] edge(*graph, a, b)
                        && u.contains(b) implies vertices_of(result).contains(b) by {
                    if vertices_of(curr_layer).contains(a) {
                        assert(vertices_of(stepped).contains(b));
                        assert(!vertices_of(next_layer).contains(b));
                    }
                }
                crate::model::lemma_reach_least(*graph, u, p0, vertices_of(result));
                assert(vertices_of(result) =~= target);
            }
            break ;
        }
        proof {
            assert forall|b: Seq<bool>| vertices_of(next_layer).contains(b) implies target.contains(
                b,
            ) by {
                let a = choose|a: Seq<bool>|
                    vertices_of(curr_layer).contains(a) && #[trigger] edge(*graph, a, b);
                let x = choose|x: Seq<bool>| p0.contains(x) && #[trigger] reach(*graph, u, x, a);
                crate::model::lemma_reach_extend(*graph, u, x, a, b);
            }
            let elt = vertices_of(next_layer).choose();
            lemma_len_subset(vertices_of(result), u);
            vertices_of(result).lemma_subset_not_in_lt(
                vertices_of(result).union(vertices_of(next_layer)),
                elt,
            );
            lemma_len_subset(vertices_of(result).union(vertices_of(next_layer)), u);
        }
        result = set_union(&result, &next_layer);
        curr_layer = next_layer;
    }
    (result, curr_layer)
}

/// Backward reachability by accumulation: union the predecessor set until it
/// no longer grows. Computes the same closure as `naive_bwd`.
fn bwd_accumulate(graph: &SymbolicAsyncGraph, pivot: &GraphColoredVertices) -> (r:
    GraphColoredVertices)
    requires
        ok_graph(*graph),
        ok_set(*pivot),
        state_width(*pivot) == graph_width(*graph),
        vertices_of(*pivot).subset_of(graph_universe(*graph)),
    ensures
        vertices_of(r) == bwd_closure(*graph, graph_universe(*graph), vertices_of(*pivot)),
        vertices_of(r).subset_of(graph_universe(*graph)),
        ok_set(r),
        state_width(r) == graph_width(*graph),
{
    let ghost u = graph_universe(*graph);
    let ghost p0 = vertices_of(*pivot);
    let ghost target = bwd_closure(*graph, u, p0);
    proof {
        lemma_bwd_closure_in_universe(*graph, p0);
    }
    let mut result = pivot.clone();
    loop
        invariant
            ok_graph(*graph),
            ok_set(result),
            state_width(result) == graph_width(*graph),
            p0.subset_of(vertices_of(result)),
            vertices_of(result).subset_of(target),
            target.subset_of(u),
            target == bwd_closure(*graph, u, p0),
            u == graph_universe(*graph),
            p0 == vertices_of(*pivot),
            u.finite(),
        ensures
            vertices_of(result) == target,
            ok_set(result),
            state_width(result) == graph_width(*graph),
        decreases u.len() - vertices_of(result).len(),
    {
        let pre_set = graph_pre(graph, &result);
        if set_is_subset(&pre_set, &result) {
            proof {
                assert forall|a: Seq<bool>, b: Seq<bool>|
                    vertices_of(result).contains(b) && #[trigger] edge(*graph, a, b)
                        && u.contains(a) implies vertices_of(result).contains(a) by {
                    assert(vertices_of(pre_set).contains(a));
                }
                lemma_bwd_least(*graph, u, p0, vertices_of(result));
                assert(vertices_of(result) =~= target);
            }
            break ;
        }
        proof {
            assert forall|a: Seq<bool>| vertices_of(pre_set).contains(a) implies target.contains(
                a,
            ) by {
                let b = choose|b: Seq<bool>|
                    vertices_of(result).contains(b) && #[trigger] edge(*graph, a, b);
                assert(target.contains(b));
                let x = choose|x: Seq<bool>| p0.contains(x) && #[trigger] reach(*graph, u, b, x);
                assert(u.contains(a));
                lemma_reach_left_extend(*graph, u, a, b, x);
            }
            let elt = choose|elt: Seq<bool>|
                vertices_of(pre_set).contains(elt) && !vertices_of(result).contains(elt);
            lemma_len_subset(vertices_of(result), u);
            vertices_of(result).lemma_subset_not_in_lt(
                vertices_of(result).union(vertices_of(pre_set)),
                elt,
            );
            lemma_len_subset(vertices_of(result).union(vertices_of(pre_set)), u);
        }
        result = set_union(&result, &pre_set);
    }
    result
}

/// The backward closure of the pivot computed inside the pivot's forward
/// closure is exactly the pivot's strongly connected component.
proof fn lemma_scc_extract(h: SymbolicAsyncGraph, gf: SymbolicAsyncGraph, p: Seq<bool>)
    requires
        closed_graph(h),
        graph_universe(h).contains(p),
        is_subgraph(h, gf),
        graph_universe(gf) == fwd_closure(
            h,
            graph_universe(h),
            Set::<Seq<bool>>::empty().insert(p),
        ),
    ensures
        bwd_closure(gf, graph_universe(gf), Set::<Seq<bool>>::empty().insert(p)) =~= scc_at(
            h,
            graph_universe(h),
            p,
        ),
{
    let u = graph_universe(h);
    let p0 = Set::<Seq<bool>>::empty().insert(p);
    let f = graph_universe(gf);
    let left = bwd_closure(gf, f, p0);
    let right = scc_at(h, u, p);
    lemma_fwd_closure_in_universe(h, p0);
    assert forall|y: Seq<bool>| left.contains(y) implies right.contains(y) by {
        let a = choose|a: Seq<bool>| p0.contains(a) && #[trigger] reach(gf, f, y, a);
        assert(a == p);
        lemma_subgraph_reach(h, gf, f, y, p);
        lemma_reach_monotone(h, f, u, y, p);
        lemma_reach_in_set(h, f, y, p);
        assert(f.contains(y));
        let x = choose|x: Seq<bool>| p0.contains(x) && #[trigger] reach(h, u, x, y);
        assert(x == p);
    }
    assert forall|y: Seq<bool>| right.contains(y) implies left.contains(y) by {
        let q = choose|q: Seq<Seq<bool>>| connects(h, u, q, y, p);
        assert forall|i: int| 0 <= i < q.len() implies f.contains(#[trigger] q[i]) by {
            lemma_connects_split(h, u, q, y, p, i);
            lemma_reach_trans(h, u, p, y, q[i]);
            assert(p0.contains(p));
        }
        assert(connects(h, f, q, y, p));
        lemma_subgraph_reach(h, gf, f, y, p);
        assert(p0.contains(p));
    }
}

/// Inside a task universe that is closed under the components of the root
/// graph, components agree with the root's components.
pub(crate) proof fn lemma_scc_localize(g: SymbolicAsyncGraph, h: SymbolicAsyncGraph, p: Seq<bool>)
    requires
        is_subgraph(g, h),
        scc_closed(g, graph_universe(h)),
        graph_universe(h).contains(p),
    ensures
        scc_at(h, graph_universe(h), p) =~= scc_at(g, graph_universe(g), p),
        nontrivial_at(h, graph_universe(h), p) <==> nontrivial_at(g, graph_universe(g), p),
{
    let u0 = graph_universe(g);
    let uh = graph_universe(h);
    if nontrivial_at(g, u0, p) {
        let c = scc_at(g, u0, p);
        assert(c.subset_of(uh));
        lemma_reach_refl(g, u0, p);
        assert(c.contains(p));
        assert forall|y: Seq<bool>| c.contains(y) implies scc_at(h, uh, p).contains(y) by {
            lemma_scc_paths_inside(g, u0, p, p, y);
            lemma_scc_paths_inside(g, u0, p, y, p);
            lemma_reach_monotone(g, c, uh, p, y);
            lemma_reach_monotone(g, c, uh, y, p);
            lemma_subgraph_reach(g, h, uh, p, y);
            lemma_subgraph_reach(g, h, uh, y, p);
        }
        assert forall|y: Seq<bool>| scc_at(h, uh, p).contains(y) implies c.contains(y) by {
            lemma_subgraph_reach(g, h, uh, p, y);
            lemma_subgraph_reach(g, h, uh, y, p);
            lemma_reach_monotone(g, uh, u0, p, y);
            lemma_reach_monotone(g, uh, u0, y, p);
        }
        let w = choose|w: Seq<bool>| w != p && #[trigger] reach(g, u0, p, w) && reach(g, u0, w, p);
        assert(c.contains(w));
        assert(scc_at(h, uh, p).contains(w));
        assert(nontrivial_at(h, uh, p));
    } else {
        assert forall|y: Seq<bool>| scc_at(h, uh, p).contains(y) implies scc_at(g, u0, p).contains(
            y,
        ) by {
            lemma_subgraph_reach(g, h, uh, p, y);
            lemma_subgraph_reach(g, h, uh, y, p);
            lemma_reach_monotone(g, uh, u0, p, y);
            lemma_reach_monotone(g, uh, u0, y, p);
        }
        assert forall|y: Seq<bool>| scc_at(g, u0, p).contains(y) implies scc_at(h, uh, p).contains(
            y,
        ) by {
            if y != p {
                assert(reach(g, u0, p, y) && reach(g, u0, y, p));
                assert(nontrivial_at(g, u0, p));
            } else {
                lemma_reach_refl(h, uh, p);
            }
        }
        if nontrivial_at(h, uh, p) {
            let w = choose|w: Seq<bool>|
                w != p && #[trigger] reach(h, uh, p, w) && reach(h, uh, w, p);
            assert(scc_at(h, uh, p).contains(w));
            assert(scc_at(g, u0, p).contains(w));
            assert(nontrivial_at(g, u0, p));
        }
    }
}


/// The invariant of one pending task: a restriction of the root graph with
/// a non-empty universe that is closed under the root's non-trivial
/// components, together with a hint set inside that universe.
pub open spec fn task_inv(g: SymbolicAsyncGraph, t: (SymbolicAsyncGraph, GraphColoredVertices)) -> bool {
    &&& is_subgraph(g, t.0)
    &&& graph_simple(t.0)
    &&& !graph_universe(t.0).is_empty()
    &&& scc_closed(g, graph_universe(t.0))
    &&& ok_set(t.1)
    &&& state_width(t.1) == graph_width(g)
    &&& vertices_of(t.1).subset_of(graph_universe(t.0))
}

/// All pending tasks are valid and have pairwise disjoint universes.
pub open spec fn stack_inv(
    g: SymbolicAsyncGraph,
    st: Seq<(SymbolicAsyncGraph, GraphColoredVertices)>,
) -> bool {
    &&& forall|i: int| 0 <= i < st.len() ==> task_inv(g, #[trigger] st[i])
    &&& forall|i: int, j: int|
        0 <= i < st.len() && 0 <= j < st.len() && i != j ==> graph_universe(
            (#[trigger] st[i]).0,
        ).disjoint(graph_universe((#[trigger] st[j]).0))
}

/// Emitted components are pairwise disjoint non-trivial components of the
/// root graph.
pub open spec fn output_inv(g: SymbolicAsyncGraph, out: Seq<GraphColoredVertices>) -> bool {
    &&& forall|k: int|
        0 <= k < out.len() ==> is_component(g, graph_universe(g), vertices_of(#[trigger] out[k]))
    &&& forall|k: int, l: int|
        0 <= k < out.len() && 0 <= l < out.len() && k != l ==> vertices_of(
            #[trigger] out[k],
        ).disjoint(vertices_of(#[trigger] out[l]))
    &&& forall|k: int| 0 <= k < out.len() ==> ok_set(#[trigger] out[k])
}

/// Pending universes and emitted components do not overlap.
pub open spec fn cross_inv(
    st: Seq<(SymbolicAsyncGraph, GraphColoredVertices)>,
    out: Seq<GraphColoredVertices>,
) -> bool {
    forall|i: int, k: int|
        0 <= i < st.len() && 0 <= k < out.len() ==> graph_universe(
            (#[trigger] st[i]).0,
        ).disjoint(vertices_of(#[trigger] out[k]))
}

/// Every state of a non-trivial component of the root graph has either been
/// emitted or still waits in some pending universe.
pub open spec fn cover_inv(
    g: SymbolicAsyncGraph,
    st: Seq<(SymbolicAsyncGraph, GraphColoredVertices)>,
    out: Seq<GraphColoredVertices>,
) -> bool {
    forall|x: Seq<bool>|
        graph_universe(g).contains(x) && #[trigger] nontrivial_at(g, graph_universe(g), x) ==> (
        exists|k: int| 0 <= k < out.len() && vertices_of(#[trigger] out[k]).contains(x)) || (
        exists|i: int| 0 <= i < st.len() && graph_universe((#[trigger] st[i]).0).contains(x))
}

/// The total number of pending states, the termination measure.
pub open spec fn stack_measure(st: Seq<(SymbolicAsyncGraph, GraphColoredVertices)>) -> nat
    decreases st.len(),
{
    if st.len() == 0 {
        0
    } else {
        stack_measure(st.drop_last()) + graph_universe(st.last().0).len()
    }
}

proof fn lemma_measure_push(
    st: Seq<(SymbolicAsyncGraph, GraphColoredVertices)>,
    t: (SymbolicAsyncGraph, GraphColoredVertices),
)
    ensures
        stack_measure(st.push(t)) == stack_measure(st) + graph_universe(t.0).len(),
{
    assert(st.push(t).drop_last() =~= st);
    assert(st.push(t).last() == t);
}

/// Where each non-trivial state of the popped universe ends up: in the
/// emitted component, or — with its whole component — in one of the two
/// trimmed remainders. Also: the remainders stay closed under components.
proof fn lemma_step_partition(
    graph: SymbolicAsyncGraph,
    h: SymbolicAsyncGraph,
    pw: Seq<bool>,
    fset: Set<Seq<bool>>,
    sset: Set<Seq<bool>>,
    u1: Set<Seq<bool>>,
    u2: Set<Seq<bool>>,
)
    requires
        is_subgraph(graph, h),
        scc_closed(graph, graph_universe(h)),
        graph_universe(h).contains(pw),
        fset == fwd_closure(h, graph_universe(h), Set::<Seq<bool>>::empty().insert(pw)),
        sset == scc_at(h, graph_universe(h), pw),
        sset == scc_at(graph, graph_universe(graph), pw),
        u1.subset_of(fset.difference(sset)),
        u2.subset_of(graph_universe(h).difference(fset)),
        forall|z: Seq<bool>| #[trigger]
            cyc_member(h, fset.difference(sset), z) ==> u1.contains(z),
        forall|z: Seq<bool>| #[trigger]
            cyc_member(h, graph_universe(h).difference(fset), z) ==> u2.contains(z),
    ensures
        forall|x: Seq<bool>|
            graph_universe(h).contains(x) && #[trigger] nontrivial_at(
                graph,
                graph_universe(graph),
                x,
            ) ==> {
                &&& (sset.contains(x) ==> sset == scc_at(graph, graph_universe(graph), x)
                    && nontrivial_at(graph, graph_universe(graph), pw))
                &&& (!sset.contains(x) && fset.contains(x) ==> u1.contains(x))
                &&& (!fset.contains(x) ==> u2.contains(x))
            },
        scc_closed(graph, u1),
        scc_closed(graph, u2),
{
    let u0 = graph_universe(graph);
    let uh = graph_universe(h);
    let w1 = fset.difference(sset);
    let w2 = uh.difference(fset);
    assert forall|x: Seq<bool>|
        uh.contains(x) && #[trigger] nontrivial_at(graph, u0, x) implies {
        &&& (sset.contains(x) ==> sset == scc_at(graph, u0, x) && nontrivial_at(graph, u0, pw))
        &&& (!sset.contains(x) && fset.contains(x) ==> u1.contains(x) && scc_at(
            graph,
            u0,
            x,
        ).subset_of(u1))
        &&& (!fset.contains(x) ==> u2.contains(x) && scc_at(graph, u0, x).subset_of(u2))
    } by {
        let cx = scc_at(graph, u0, x);
        assert(cx.subset_of(uh));
        lemma_scc_localize(graph, h, x);
        lemma_reach_refl(graph, u0, x);
        assert(cx.contains(x));
        if sset.contains(x) {
            lemma_scc_same(graph, u0, pw, x);
            assert(sset == cx);
            lemma_component_member(graph, u0, x, pw);
        } else if fset.contains(x) {
            let p0 = Set::<Seq<bool>>::empty().insert(pw);
            let a0 = choose|a0: Seq<bool>| p0.contains(a0) && #[trigger] reach(h, uh, a0, x);
            assert(a0 == pw);
            assert forall|d: Seq<bool>| #[trigger] cx.contains(d) implies w1.contains(d) by {
                assert(scc_at(h, uh, x).contains(d));
                lemma_reach_trans(h, uh, pw, x, d);
                assert(p0.contains(pw));
                assert(fset.contains(d));
                if sset.contains(d) {
                    lemma_scc_same(h, uh, pw, d);
                    lemma_scc_same(h, uh, x, d);
                    lemma_reach_refl(h, uh, x);
                    assert(scc_at(h, uh, x).contains(x));
                    assert(sset.contains(x));
                }
            }
            assert forall|d: Seq<bool>| #[trigger] cx.contains(d) implies u1.contains(d) by {
                lemma_component_member(graph, u0, x, d);
                lemma_scc_cyc_in(graph, h, w1, d);
            }
            assert(u1.contains(x));
        } else {
            let p0 = Set::<Seq<bool>>::empty().insert(pw);
            assert forall|d: Seq<bool>| #[trigger] cx.contains(d) implies w2.contains(d) by {
                assert(scc_at(h, uh, x).contains(d));
                if fset.contains(d) {
                    let a1 = choose|a1: Seq<bool>| p0.contains(a1) && #[trigger] reach(h, uh, a1, d);
                    assert(a1 == pw);
                    lemma_reach_trans(h, uh, pw, d, x);
                    assert(p0.contains(pw));
                    assert(fset.contains(x));
                }
            }
            assert forall|d: Seq<bool>| #[trigger] cx.contains(d) implies u2.contains(d) by {
                lemma_component_member(graph, u0, x, d);
                lemma_scc_cyc_in(graph, h, w2, d);
            }
            assert(u2.contains(x));
        }
    }
    assert forall|x: Seq<bool>|
        u1.contains(x) && #[trigger] nontrivial_at(graph, u0, x) implies scc_at(
        graph,
        u0,
        x,
    ).subset_of(u1) by {
        assert(w1.contains(x));
    }
    assert forall|x: Seq<bool>|
        u2.contains(x) && #[trigger] nontrivial_at(graph, u0, x) implies scc_at(
        graph,
        u0,
        x,
    ).subset_of(u2) by {
        assert(w2.contains(x));
    }
}

/// The extracted component is a single state exactly when the pivot lies in
/// no non-trivial component.
pub(crate) proof fn lemma_emit_iff(graph: SymbolicAsyncGraph, pw: Seq<bool>, sset: Set<Seq<bool>>)
    requires
        graph_universe(graph).contains(pw),
        sset == scc_at(graph, graph_universe(graph), pw),
    ensures
        is_singleton_set(sset) <==> !nontrivial_at(graph, graph_universe(graph), pw),
{
    let u0 = graph_universe(graph);
    lemma_reach_refl(graph, u0, pw);
    assert(sset.contains(pw));
    if nontrivial_at(graph, u0, pw) {
        let y = choose|y: Seq<bool>|
            y != pw && #[trigger] reach(graph, u0, pw, y) && reach(graph, u0, y, pw);
        assert(sset.contains(y));
        if is_singleton_set(sset) {
            let wtn = choose|wtn: Seq<bool>| sset == Set::<Seq<bool>>::empty().insert(wtn);
            assert(y == wtn && pw == wtn);
        }
    } else {
        assert forall|d: Seq<bool>| #[trigger] sset.contains(d) implies d == pw by {
            if d != pw {
                assert(reach(graph, u0, pw, d) && reach(graph, u0, d, pw));
            }
        }
        assert(sset =~= Set::<Seq<bool>>::empty().insert(pw));
        assert(is_singleton_set(sset));
    }
}

/// Re-establishes the four loop invariants after one step: the popped task
/// was replaced by the emitted component and at most two child tasks.
#[verifier::rlimit(60)]
proof fn lemma_step_invariants(
    graph: SymbolicAsyncGraph,
    st_before: Seq<(SymbolicAsyncGraph, GraphColoredVertices)>,
    st1: Seq<(SymbolicAsyncGraph, GraphColoredVertices)>,
    st2: Seq<(SymbolicAsyncGraph, GraphColoredVertices)>,
    out_before: Seq<GraphColoredVertices>,
    out_now: Seq<GraphColoredVertices>,
    scc: GraphColoredVertices,
    uh: Set<Seq<bool>>,
    fset: Set<Seq<bool>>,
    sset: Set<Seq<bool>>,
    u1: Set<Seq<bool>>,
    u2: Set<Seq<bool>>,
    pw: Seq<bool>,
    emit: bool,
)
    requires
        stack_inv(graph, st_before),
        output_inv(graph, out_before),
        cross_inv(st_before, out_before),
        cover_inv(graph, st_before, out_before),
        st_before.len() >= 1,
        graph_universe(st_before.last().0) == uh,
        // shape of the stack after the two conditional pushes
        st_before.len() - 1 <= st1.len() <= st_before.len(),
        forall|i: int| 0 <= i < st_before.len() - 1 ==> #[trigger] st1[i] == st_before[i],
        st1.len() == st_before.len() <==> !u1.is_empty(),
        !u1.is_empty() ==> task_inv(graph, st1.last()) && graph_universe(st1.last().0) == u1,
        st1.len() <= st2.len() <= st1.len() + 1,
        forall|i: int| 0 <= i < st1.len() ==> #[trigger] st2[i] == st1[i],
        st2.len() == st1.len() + 1 <==> !u2.is_empty(),
        !u2.is_empty() ==> task_inv(graph, st2.last()) && graph_universe(st2.last().0) == u2,
        // shape of the output
        vertices_of(scc) == sset,
        ok_set(scc),
        out_now == if emit {
            out_before.push(scc)
        } else {
            out_before
        },
        // geometry of the step
        sset.subset_of(fset),
        fset.subset_of(uh),
        u1.subset_of(fset.difference(sset)),
        u2.subset_of(uh.difference(fset)),
        graph_universe(graph).contains(pw),
        sset == scc_at(graph, graph_universe(graph), pw),
        emit <==> nontrivial_at(graph, graph_universe(graph), pw),
        // where the popped universe's non-trivial states went
        forall|x: Seq<bool>|
            uh.contains(x) && #[trigger] nontrivial_at(graph, graph_universe(graph), x) ==> {
                &&& (sset.contains(x) ==> nontrivial_at(graph, graph_universe(graph), pw))
                &&& (!sset.contains(x) && fset.contains(x) ==> u1.contains(x))
                &&& (!fset.contains(x) ==> u2.contains(x))
            },
        scc_closed(graph, u1),
        scc_closed(graph, u2),
    ensures
        stack_inv(graph, st2),
        output_inv(graph, out_now),
        cross_inv(st2, out_now),
        cover_inv(graph, st2, out_now),
{
    let u0 = graph_universe(graph);
    let rest_len = st_before.len() - 1;
    assert forall|i: int|
        0 <= i < rest_len implies #[trigger] st_before[i] == st2[i] && graph_universe(
        st_before[i].0,
    ).disjoint(uh) by {
        assert(st1[i] == st_before[i]);
        assert(graph_universe((st_before[i]).0).disjoint(
            graph_universe((st_before[st_before.len() - 1]).0),
        ));
    }
    assert forall|i: int|
        rest_len <= i < st2.len() implies graph_universe((#[trigger] st2[i]).0).subset_of(
        uh.difference(sset),
    ) && task_inv(graph, st2[i]) by {
        if i < st1.len() {
            assert(st2[i] == st1[i] && st1[i] == st1.last());
            assert(graph_universe(st2[i].0) == u1);
            assert forall|z: Seq<bool>| u1.contains(z) implies uh.difference(sset).contains(
                z,
            ) by {
                assert(fset.difference(sset).contains(z));
            }
        } else {
            assert(st2[i] == st2.last());
            assert(graph_universe(st2[i].0) == u2);
            assert forall|z: Seq<bool>| u2.contains(z) implies uh.difference(sset).contains(
                z,
            ) by {
                assert(uh.difference(fset).contains(z));
            }
        }
    }
    // Stack invariant.
    assert forall|i: int| 0 <= i < st2.len() implies task_inv(graph, #[trigger] st2[i]) by {
        if i < rest_len {
            assert(st2[i] == st_before[i]);
        }
    }
    assert forall|i: int, j: int|
        0 <= i < st2.len() && 0 <= j < st2.len() && i != j implies graph_universe(
        (#[trigger] st2[i]).0,
    ).disjoint(graph_universe((#[trigger] st2[j]).0)) by {
        let a = graph_universe(st2[i].0);
        let b = graph_universe(st2[j].0);
        if i < rest_len && j < rest_len {
            assert(st2[i] == st_before[i] && st2[j] == st_before[j]);
        } else if i < rest_len {
            assert(a.disjoint(uh));
            assert forall|z: Seq<bool>| a.contains(z) implies !b.contains(z) by {
                if b.contains(z) {
                    assert(uh.difference(sset).contains(z));
                }
            }
        } else if j < rest_len {
            assert(b.disjoint(uh));
            assert forall|z: Seq<bool>| a.contains(z) implies !b.contains(z) by {
                if b.contains(z) {
                    assert(uh.difference(sset).contains(z));
                }
            }
        } else {
            // the two freshly pushed tasks: one is u1, the other u2
            assert(i < st1.len() || j < st1.len());
            assert((a == u1 && b == u2) || (a == u2 && b == u1));
            assert forall|z: Seq<bool>| a.contains(z) implies !b.contains(z) by {
                if b.contains(z) {
                    assert(u1.contains(z) && u2.contains(z));
                    assert(fset.difference(sset).contains(z));
                    assert(uh.difference(fset).contains(z));
                }
            }
        }
    }
    // Output invariant.
    assert forall|k: int| 0 <= k < out_now.len() implies is_component(
        graph,
        u0,
        vertices_of(#[trigger] out_now[k]),
    ) && ok_set(out_now[k]) by {
        if k < out_before.len() {
            assert(out_now[k] == out_before[k]);
        } else {
            assert(out_now[k] == scc);
            assert(u0.contains(pw) && nontrivial_at(graph, u0, pw) && sset == scc_at(
                graph,
                u0,
                pw,
            ));
        }
    }
    assert forall|k: int, l: int|
        0 <= k < out_now.len() && 0 <= l < out_now.len() && k != l implies vertices_of(
        (#[trigger] out_now[k]),
    ).disjoint(vertices_of(#[trigger] out_now[l])) by {
        if k < out_before.len() && l < out_before.len() {
            assert(out_now[k] == out_before[k] && out_now[l] == out_before[l]);
        } else if k < out_before.len() {
            assert(out_now[k] == out_before[k] && out_now[l] == scc);
            assert(graph_universe((st_before[st_before.len() - 1]).0).disjoint(
                vertices_of(out_before[k]),
            ));
            assert forall|z: Seq<bool>|
                vertices_of(out_now[k]).contains(z) implies !sset.contains(z) by {
                if sset.contains(z) {
                    assert(uh.contains(z));
                }
            }
        } else {
            assert(out_now[l] == out_before[l] && out_now[k] == scc);
            assert(graph_universe((st_before[st_before.len() - 1]).0).disjoint(
                vertices_of(out_before[l]),
            ));
            assert forall|z: Seq<bool>|
                sset.contains(z) implies !vertices_of(out_now[l]).contains(z) by {
                assert(uh.contains(z));
            }
        }
    }
    // Cross invariant.
    assert forall|i: int, k: int|
        0 <= i < st2.len() && 0 <= k < out_now.len() implies graph_universe(
        (#[trigger] st2[i]).0,
    ).disjoint(vertices_of(#[trigger] out_now[k])) by {
        let a = graph_universe(st2[i].0);
        if k < out_before.len() {
            assert(out_now[k] == out_before[k]);
            if i < rest_len {
                assert(st2[i] == st_before[i]);
            } else {
                assert(graph_universe((st_before[st_before.len() - 1]).0).disjoint(
                    vertices_of(out_before[k]),
                ));
                assert forall|z: Seq<bool>|
                    a.contains(z) implies !vertices_of(out_now[k]).contains(z) by {
                    assert(uh.difference(sset).contains(z));
                }
            }
        } else {
            assert(out_now[k] == scc);
            if i < rest_len {
                assert(st2[i] == st_before[i]);
                assert(a.disjoint(uh));
                assert forall|z: Seq<bool>| a.contains(z) implies !sset.contains(z) by {
                    if sset.contains(z) {
                        assert(uh.contains(z));
                    }
                }
            } else {
                assert forall|z: Seq<bool>| a.contains(z) implies !sset.contains(z) by {
                    assert(uh.difference(sset).contains(z));
                }
            }
        }
    }
    // Coverage.
    assert forall|x: Seq<bool>|
        u0.contains(x) && #[trigger] nontrivial_at(graph, u0, x) implies (exists|k: int|
        0 <= k < out_now.len() && vertices_of(#[trigger] out_now[k]).contains(x)) || (exists|i: int|
        0 <= i < st2.len() && graph_universe((#[trigger] st2[i]).0).contains(x)) by {
        if exists|k: int|
            0 <= k < out_before.len() && vertices_of(#[trigger] out_before[k]).contains(x) {
            let k = choose|k: int|
                0 <= k < out_before.len() && vertices_of(#[trigger] out_before[k]).contains(x);
            assert(out_now[k] == out_before[k]);
            assert(vertices_of(out_now[k]).contains(x));
        } else {
            let i = choose|i: int|
                0 <= i < st_before.len() && graph_universe((#[trigger] st_before[i]).0).contains(
                    x,
                );
            if i < rest_len {
                assert(st2[i] == st_before[i]);
                assert(graph_universe((st2[i]).0).contains(x));
            } else {
                assert(graph_universe((st_before[st_before.len() - 1]).0).contains(x));
                assert(uh.contains(x));
                if sset.contains(x) {
                    assert(nontrivial_at(graph, u0, pw));
                    assert(emit);
                    let k = out_before.len() as int;
                    assert(out_now[k] == scc);
                    assert(vertices_of(out_now[k]).contains(x));
                } else if fset.contains(x) {
                    assert(u1.contains(x));
                    assert(!u1.is_empty());
                    let i1 = st_before.len() - 1;
                    assert(st2[i1] == st1[i1] && st1[i1] == st1.last());
                    assert(graph_universe((st2[i1]).0).contains(x));
                } else {
                    assert(u2.contains(x));
                    assert(!u2.is_empty());
                    let i2 = st2.len() - 1;
                    assert(st2[i2] == st2.last());
                    assert(graph_universe((st2[i2]).0).contains(x));
                }
            }
        }
    }
}

/// Decompose the graph into its non-trivial strongly connected components.
///
/// The graph must carry no color (parameter) dimension. The result is an
/// unordered sequence of pairwise disjoint non-trivial components whose
/// union holds exactly the states of the graph's universe that belong to
/// one; the configuration changes only the order of work, never the result.
#[verifier::rlimit(60)]
pub fn decompose(graph: SymbolicAsyncGraph, config: Config) -> (r: Vec<GraphColoredVertices>)
    requires
        graph_simple(graph),
    ensures
        is_scc_decomposition(graph, component_views(r@)),
        forall|k: int| 0 <= k < r@.len() ==> ok_set(#[trigger] r@[k]),
{
    let ghost u0 = graph_universe(graph);
    let unit = graph_unit_set(&graph);
    let g1 = graph_restrict(&graph, &unit);
    proof {
        assert(is_subgraph(graph, g1));
        lemma_subgraph_closed(graph, g1);
        assert(ok_graph(g1));
    }
    let g1_unit = graph_unit_set(&g1);
    let start = match config.trim_level {
        TrimLvl::Off => g1_unit,
        _ => trim(&g1, g1_unit),
    };
    let ghost sv = vertices_of(start);
    proof {
        // Every state of a non-trivial component survives the initial trim,
        // and so does its whole component.
        assert forall|x: Seq<bool>|
            u0.contains(x) && #[trigger] nontrivial_at(graph, u0, x) implies sv.contains(x)
            && scc_at(graph, u0, x).subset_of(sv) by {
            assert forall|d: Seq<bool>| #[trigger]
                scc_at(graph, u0, x).contains(d) implies sv.contains(d) by {
                lemma_component_member(graph, u0, x, d);
                lemma_scc_cyc_in(graph, g1, u0, d);
                assert(cyc_member(g1, u0, d));
            }
            lemma_reach_refl(graph, u0, x);
            assert(scc_at(graph, u0, x).contains(x));
        }
    }
    let g2 = graph_restrict(&g1, &start);
    proof {
        lemma_subgraph_trans(graph, g1, g2);
    }
    let mut output: Vec<GraphColoredVertices> = Vec::new();
    let mut stack: Vec<(SymbolicAsyncGraph, GraphColoredVertices)> = Vec::new();
    if !set_is_empty(&start) {
        let empty_hint = graph_empty_set(&g2);
        proof {
            assert(scc_closed(graph, vertices_of(start)));
            assert(task_inv(graph, (g2, empty_hint)));
        }
        stack.push((g2, empty_hint));
    }
    proof {
        assert forall|x: Seq<bool>|
            u0.contains(x) && #[trigger] nontrivial_at(graph, u0, x) implies exists|i: int|
            0 <= i < stack@.len() && graph_universe((#[trigger] stack@[i]).0).contains(x) by {
            assert(sv.contains(x));
            assert(stack@.len() == 1);
            assert(graph_universe((stack@[0]).0) == sv);
        }
    }
    while stack.len() != 0
        invariant
            graph_simple(graph),
            u0 == graph_universe(graph),
            u0.finite(),
            forall|w: Seq<bool>| #[trigger] u0.contains(w) ==> w.len() == graph_width(graph),
            stack_inv(graph, stack@),
            output_inv(graph, output@),
            cross_inv(stack@, output@),
            cover_inv(graph, stack@, output@),
        decreases stack_measure(stack@),
    {
        let ghost st_before = stack@;
        let ghost out_before = output@;
        let popped = stack.pop().unwrap();
        let (h, hint) = popped;
        let ghost rest = stack@;
        proof {
            assert(st_before[st_before.len() - 1] == (h, hint));
            assert(task_inv(graph, st_before[st_before.len() - 1]));
            assert(rest =~= st_before.drop_last());
            assert(stack_measure(st_before) == stack_measure(rest) + graph_universe(h).len());
            lemma_subgraph_closed(graph, h);
            lemma_len_subset(graph_universe(h), u0);
            assert(ok_graph(h));
        }
        let ghost uh = graph_universe(h);
        // Pivot selection: prefer the hint when it is nonempty.
        let pivot = if set_is_empty(&hint) {
            let unit_h = graph_unit_set(&h);
            set_pick_singleton(&unit_h)
        } else {
            set_pick_singleton(&hint)
        };
        let ghost pw = choose|pw: Seq<bool>|
            vertices_of(pivot) == Set::<Seq<bool>>::empty().insert(pw);
        proof {
            assert(vertices_of(pivot).contains(pw));
            assert(uh.contains(pw));
            assert(vertices_of(pivot).subset_of(uh));
        }
        // Forward closure of the pivot.
        let (fwd, last_layer) = match config.reachability_strategy {
            ReachabilityStrategy::Layered => fwd_with_layer(&h, &pivot),
            ReachabilityStrategy::Saturation => {
                let f = fwd_saturation(&h, &pivot);
                let e = graph_empty_set(&h);
                (f, e)
            },
        };
        let ghost fset = vertices_of(fwd);
        // The pivot's component: backward closure inside the forward one.
        let g_f = graph_restrict(&h, &fwd);
        proof {
            assert(is_subgraph(h, g_f));
            lemma_subgraph_closed(h, g_f);
            lemma_len_subset(fset, u0);
            assert(ok_graph(g_f));
            lemma_fwd_closure_in_universe(h, vertices_of(pivot));
            assert(fset.contains(pw));
        }
        let scc = match config.reachability_strategy {
            ReachabilityStrategy::Layered => bwd_accumulate(&g_f, &pivot),
            ReachabilityStrategy::Saturation => bwd_saturation(&g_f, &pivot),
        };
        let ghost sset = vertices_of(scc);
        proof {
            lemma_scc_extract(h, g_f, pw);
            lemma_scc_localize(graph, h, pw);
            assert(sset == scc_at(h, uh, pw));
            assert(sset =~= scc_at(graph, u0, pw));
            lemma_reach_refl(graph, u0, pw);
            assert(sset.contains(pw));
            assert forall|d: Seq<bool>| #[trigger] sset.contains(d) implies fset.contains(d) by {
                lemma_reach_in_set(h, uh, pw, d);
            }
        }
        // The two remainders, trimmed when configured.
        let fwd_rem_raw = set_minus(&fwd, &scc);
        let fwd_rem = match config.trim_level {
            TrimLvl::Full => trim(&h, fwd_rem_raw),
            _ => fwd_rem_raw,
        };
        let ghost u1 = vertices_of(fwd_rem);
        let unit_h2 = graph_unit_set(&h);
        let rest_rem_raw = set_minus(&unit_h2, &fwd);
        let rest_rem = match config.trim_level {
            TrimLvl::Full => trim(&h, rest_rem_raw),
            _ => rest_rem_raw,
        };
        let ghost u2 = vertices_of(rest_rem);
        proof {
            lemma_step_partition(graph, h, pw, fset, sset, u1, u2);
        }
        // Schedule the forward remainder.
        if !set_is_empty(&fwd_rem) {
            let child1 = graph_restrict(&h, &fwd_rem);
            let hint1 = match (config.reachability_strategy, config.pivot_strategy) {
                (ReachabilityStrategy::Layered, _) => set_intersect(&last_layer, &fwd_rem),
                (_, PivotStrategy::Trivial) => fwd_rem.clone(),
                (_, PivotStrategy::HammingHeuristic) => crate::hamming::ham_furthest_within(
                    &pivot,
                    &fwd_rem,
                ),
            };
            proof {
                lemma_subgraph_trans(graph, h, child1);
                assert(task_inv(graph, (child1, hint1)));
            }
            stack.push((child1, hint1));
        }
        let ghost st1 = stack@;
        proof {
            assert(st1.len() == rest.len() + (if u1.is_empty() {
                0int
            } else {
                1
            }));
            assert(forall|i: int| 0 <= i < rest.len() ==> #[trigger] st1[i] == rest[i]);
            assert(!u1.is_empty() ==> task_inv(graph, st1.last()) && graph_universe(st1.last().0)
                == u1);
            if u1.is_empty() {
                assert(u1 =~= Set::<Seq<bool>>::empty());
                assert(u1.len() == 0) by {
                    u1.lemma_len0_is_empty();
                }
                assert(stack_measure(st1) == stack_measure(rest) + u1.len());
            } else {
                lemma_measure_push(rest, st1.last());
                assert(st1 =~= rest.push(st1.last()));
                assert(stack_measure(st1) == stack_measure(rest) + u1.len());
            }
        }
        // Schedule the rest of the universe.
        if !set_is_empty(&rest_rem) {
            let child2 = graph_restrict(&h, &rest_rem);
            let hint2 = match config.reachability_strategy {
                ReachabilityStrategy::Layered => graph_pre(&child2, &scc),
                ReachabilityStrategy::Saturation => {
                    let pre_scc = graph_pre(&h, &scc);
                    set_intersect(&pre_scc, &rest_rem)
                },
            };
            proof {
                lemma_subgraph_trans(graph, h, child2);
                lemma_subgraph_closed(graph, child2);
                assert forall|a: Seq<bool>| #[trigger]
                    vertices_of(hint2).contains(a) implies u2.contains(a) by {
                    match config.reachability_strategy {
                        ReachabilityStrategy::Layered => {
                            let b = choose|b: Seq<bool>|
                                vertices_of(scc).contains(b) && #[trigger] edge(child2, a, b);
                        },
                        ReachabilityStrategy::Saturation => {},
                    }
                }
                assert(task_inv(graph, (child2, hint2)));
            }
            stack.push((child2, hint2));
        }
        let ghost st2 = stack@;
        proof {
            assert(st2.len() == st1.len() + (if u2.is_empty() {
                0int
            } else {
                1
            }));
            assert(forall|i: int| 0 <= i < st1.len() ==> #[trigger] st2[i] == st1[i]);
            assert(!u2.is_empty() ==> task_inv(graph, st2.last()) && graph_universe(st2.last().0)
                == u2);
            if u2.is_empty() {
                assert(u2 =~= Set::<Seq<bool>>::empty());
                assert(u2.len() == 0) by {
                    u2.lemma_len0_is_empty();
                }
                assert(stack_measure(st2) == stack_measure(st1) + u2.len());
            } else {
                lemma_measure_push(st1, st2.last());
                assert(st2 =~= st1.push(st2.last()));
                assert(stack_measure(st2) == stack_measure(st1) + u2.len());
            }
        }
        // Emit the component unless it is a single state.
        let emit = !set_is_singleton(&scc);
        proof {
            lemma_emit_iff(graph, pw, sset);
        }
        if emit {
            output.push(scc);
        }
        proof {
            lemma_step_invariants(
                graph,
                st_before,
                st1,
                st2,
                out_before,
                output@,
                scc,
                uh,
                fset,
                sset,
                u1,
                u2,
                pw,
                emit,
            );
            // Termination: the pivot is retired for good.
            assert(!u1.contains(pw) && !u2.contains(pw));
            assert(u1.union(u2).subset_of(uh.remove(pw)));
            lemma_len_subset(u1, uh);
            lemma_len_subset(u2, uh);
            lemma_disjoint_union_len(u1, u2);
            vstd::set::axiom_set_remove_len(uh, pw);
            lemma_len_subset(u1.union(u2), uh.remove(pw));
            assert(u1.len() + u2.len() <= uh.len() - 1);
            assert(stack_measure(st2) < stack_measure(st_before));
        }
    }
    proof {
        let comps = component_views(output@);
        assert forall|k: int| 0 <= k < comps.len() implies #[trigger] is_component(
            graph,
            u0,
            comps[k],
        ) by {
            assert(comps[k] == vertices_of(output@[k]));
        }
        assert forall|k: int, l: int|
            0 <= k < comps.len() && 0 <= l < comps.len() && k != l implies (
        #[trigger] comps[k]).disjoint(#[trigger] comps[l]) by {
            assert(comps[k] == vertices_of(output@[k]));
            assert(comps[l] == vertices_of(output@[l]));
        }
        assert forall|x: Seq<bool>|
            u0.contains(x) && #[trigger] nontrivial_at(graph, u0, x) implies exists|k: int|
            0 <= k < comps.len() && (#[trigger] comps[k]).contains(x) by {
            let k = choose|k: int|
                0 <= k < output@.len() && vertices_of(#[trigger] output@[k]).contains(x);
            assert(comps[k] == vertices_of(output@[k]));
            assert(comps[k].contains(x));
        }
    }
    output
}


/// Chain decomposition with the layered reachability strategy and the given
/// trim level. Returns the non-trivial strongly connected components of the
/// graph, in no particular order.
pub fn chain(graph: SymbolicAsyncGraph, trim_lvl: TrimLvl) -> (r: Vec<GraphColoredVertices>)
    requires
        graph_simple(graph),
    ensures
        is_scc_decomposition(graph, component_views(r@)),
        forall|k: int| 0 <= k < r@.len() ==> ok_set(#[trigger] r@[k]),
{
    decompose(
        graph,
        Config {
            trim_level: trim_lvl,
            reachability_strategy: ReachabilityStrategy::Layered,
            pivot_strategy: PivotStrategy::Trivial,
        },
    )
}

/// Chain decomposition using the saturation strategy for both reachability
/// directions. Returns the same set of components as `chain`.
pub fn chain_saturation(graph: SymbolicAsyncGraph) -> (r: Vec<GraphColoredVertices>)
    requires
        graph_simple(graph),
    ensures
        is_scc_decomposition(graph, component_views(r@)),
        forall|k: int| 0 <= k < r@.len() ==> ok_set(#[trigger] r@[k]),
{
    decompose(
        graph,
        Config {
            trim_level: TrimLvl::Off,
            reachability_strategy: ReachabilityStrategy::Saturation,
            pivot_strategy: PivotStrategy::Trivial,
        },
    )
}

/// Chain decomposition using the saturation strategy and the Hamming
/// heuristic to pick the next pivot hint. Returns the same set of
/// components as `chain`.
pub fn chain_saturation_hamming_heuristic(graph: SymbolicAsyncGraph) -> (r: Vec<
    GraphColoredVertices,
>)
    requires
        graph_simple(graph),
    ensures
        is_scc_decomposition(graph, component_views(r@)),
        forall|k: int| 0 <= k < r@.len() ==> ok_set(#[trigger] r@[k]),
{
    decompose(
        graph,
        Config {
            trim_level: TrimLvl::Off,
            reachability_strategy: ReachabilityStrategy::Saturation,
            pivot_strategy: PivotStrategy::HammingHeuristic,
        },
    )
}

} // verus!
