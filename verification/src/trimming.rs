//! Trimming removes easily detected trivial components: states without a
//! successor (or predecessor) inside the candidate set cannot lie on a cycle
//! there, and dropping them repeatedly, in both directions, keeps exactly an
//! over-approximation of the union of the non-trivial components. A trivial
//! state sitting between two non-trivial components can survive, hence only
//! an over-approximation.
use vstd::prelude::*;

use crate::model::cyc_member;
use crate::model::edge;
use crate::model::graph_width;
use crate::model::lemma_connects_split;
use crate::model::lemma_reach_extend;
use crate::model::lemma_reach_refl;
use crate::model::lemma_reach_trans;
use crate::model::ok_graph;
use crate::model::ok_set;
use crate::model::connects;
use crate::model::reach;
use crate::model::state_width;
use crate::model::vertices_of;
use crate::symbolic::graph_can_post_within;
use crate::symbolic::graph_can_pre_within;
use crate::symbolic::set_is_empty;
use crate::symbolic::set_is_subset;
use biodivine_lib_param_bn::symbolic_async_graph::GraphColoredVertices;
use biodivine_lib_param_bn::symbolic_async_graph::SymbolicAsyncGraph;
use vstd::set_lib::lemma_len_subset;

verus! {

/// A state on a cycle within `s` has a successor that is also on a cycle
/// within `s`.
pub proof fn lemma_cyc_member_step(g: SymbolicAsyncGraph, s: Set<Seq<bool>>, x: Seq<bool>)
    requires
        cyc_member(g, s, x),
    ensures
        exists|y: Seq<bool>| #[trigger] edge(g, x, y) && cyc_member(g, s, y),
{
    let y = choose|y: Seq<bool>| s.contains(y) && #[trigger] edge(g, x, y) && reach(g, s, y, x);
    let p = choose|p: Seq<Seq<bool>>| connects(g, s, p, y, x);
    if p.len() == 1 {
        // y == x: the edge x -> y is itself the cycle.
        assert(y == x);
        lemma_reach_refl(g, s, x);
        assert(edge(g, y, y));
        assert(reach(g, s, y, y));
        assert(exists|w: Seq<bool>| s.contains(w) && #[trigger] edge(g, y, w) && reach(g, s, w, y));
        assert(cyc_member(g, s, y));
    } else {
        let z = p[1];
        let k: int = 0;
        assert(edge(g, p[k], p[k + 1]));
        lemma_connects_split(g, s, p, y, x, 1);
        // z reaches x, the edge x -> y closes the cycle back to y.
        lemma_reach_extend(g, s, z, x, y);
        assert(s.contains(p[1]));
        assert(cyc_member(g, s, y));
    }
}

/// A state on a cycle within `s` has a predecessor that is also on a cycle
/// within `s`.
pub proof fn lemma_cyc_member_pred(g: SymbolicAsyncGraph, s: Set<Seq<bool>>, x: Seq<bool>)
    requires
        cyc_member(g, s, x),
    ensures
        exists|y: Seq<bool>| #[trigger] edge(g, y, x) && cyc_member(g, s, y),
{
    let y = choose|y: Seq<bool>| s.contains(y) && #[trigger] edge(g, x, y) && reach(g, s, y, x);
    let p = choose|p: Seq<Seq<bool>>| connects(g, s, p, y, x);
    if p.len() == 1 {
        // y == x: the self-loop makes x its own predecessor.
        assert(edge(g, y, x) && cyc_member(g, s, y));
    } else {
        let w = p[p.len() - 2];
        let k = p.len() - 2;
        assert(edge(g, p[k], p[k + 1]));
        lemma_connects_split(g, s, p, y, x, k);
        // w's cycle: w -> x (edge), x -> y (edge), y -> w (path prefix).
        lemma_reach_refl(g, s, x);
        lemma_reach_extend(g, s, x, x, y);
        lemma_reach_trans(g, s, x, y, w);
        assert(s.contains(p[k]));
        assert(cyc_member(g, s, w));
        assert(edge(g, w, x));
    }
}

/// States on cycles within `s` still lie on cycles within any `t` between
/// the cycle states and `s`.
pub proof fn lemma_cyc_member_shrink(
    g: SymbolicAsyncGraph,
    s: Set<Seq<bool>>,
    t: Set<Seq<bool>>,
    x: Seq<bool>,
)
    requires
        cyc_member(g, s, x),
        t.subset_of(s),
        forall|z: Seq<bool>| #[trigger] cyc_member(g, s, z) ==> t.contains(z),
    ensures
        cyc_member(g, t, x),
{
    let y = choose|y: Seq<bool>| s.contains(y) && #[trigger] edge(g, x, y) && reach(g, s, y, x);
    let p = choose|p: Seq<Seq<bool>>| connects(g, s, p, y, x);
    assert forall|i: int| 0 <= i < p.len() implies t.contains(#[trigger] p[i]) by {
        let z = p[i];
        lemma_connects_split(g, s, p, y, x, i);
        if i == p.len() - 1 {
            assert(z == x);
            assert(cyc_member(g, s, z));
        } else {
            assert(edge(g, p[i], p[i + 1]));
            lemma_connects_split(g, s, p, y, x, i + 1);
            // p[i+1] reaches x, the edge x -> y and the prefix close the cycle.
            lemma_reach_extend(g, s, p[i + 1], x, y);
            lemma_reach_trans(g, s, p[i + 1], y, z);
            assert(s.contains(p[i + 1]));
            assert(cyc_member(g, s, z));
        }
    }
    assert(t.contains(p[0]));
    assert(t.contains(p[p.len() - 1]));
    assert(connects(g, t, p, y, x));
    assert(cyc_member(g, t, x));
}

/// Repeatedly drop the states of `set` without a successor still inside;
/// every state on a cycle within `set` survives.
pub(crate) fn trim_trailing(graph: &SymbolicAsyncGraph, set: GraphColoredVertices) -> (r:
    GraphColoredVertices)
    requires
        ok_graph(*graph),
        ok_set(set),
        state_width(set) == graph_width(*graph),
    ensures
        vertices_of(r).subset_of(vertices_of(set)),
        forall|x: Seq<bool>| #[trigger] cyc_member(*graph, vertices_of(set), x)
            ==> vertices_of(r).contains(x),
        ok_set(r),
        state_width(r) == graph_width(*graph),
{
    let ghost s0 = vertices_of(set);
    if set_is_empty(&set) {
        return set;
    }
    let mut result = set;
    loop
        invariant
            ok_graph(*graph),
            ok_set(result),
            state_width(result) == graph_width(*graph),
            vertices_of(result).subset_of(s0),
            s0.finite(),
            forall|x: Seq<bool>| #[trigger] cyc_member(*graph, s0, x) ==> vertices_of(
                result,
            ).contains(x),
        ensures
            vertices_of(result).subset_of(s0),
            forall|x: Seq<bool>| #[trigger] cyc_member(*graph, s0, x) ==> vertices_of(
                result,
            ).contains(x),
            ok_set(result),
            state_width(result) == graph_width(*graph),
        decreases vertices_of(result).len(),
    {
        let has_successor = graph_can_post_within(graph, &result);
        if set_is_subset(&result, &has_successor) {
            break ;
        }
        proof {
            assert forall|x: Seq<bool>| #[trigger] cyc_member(*graph, s0, x) implies vertices_of(
                has_successor,
            ).contains(x) by {
                lemma_cyc_member_step(*graph, s0, x);
                let y = choose|y: Seq<bool>| #[trigger]
                    edge(*graph, x, y) && cyc_member(*graph, s0, y);
            }
            let elt = choose|elt: Seq<bool>|
                !vertices_of(has_successor).contains(elt) && #[trigger] vertices_of(
                    result,
                ).contains(elt);
            lemma_len_subset(vertices_of(result), s0);
            vertices_of(has_successor).lemma_subset_not_in_lt(vertices_of(result), elt);
        }
        result = has_successor;
    }
    result
}

/// Repeatedly drop the states of `set` without a predecessor still inside;
/// every state on a cycle within `set` survives.
pub(crate) fn trim_leading(graph: &SymbolicAsyncGraph, set: GraphColoredVertices) -> (r:
    GraphColoredVertices)
    requires
        ok_graph(*graph),
        ok_set(set),
        state_width(set) == graph_width(*graph),
    ensures
        vertices_of(r).subset_of(vertices_of(set)),
        forall|x: Seq<bool>| #[trigger] cyc_member(*graph, vertices_of(set), x)
            ==> vertices_of(r).contains(x),
        ok_set(r),
        state_width(r) == graph_width(*graph),
{
    let ghost s0 = vertices_of(set);
    if set_is_empty(&set) {
        return set;
    }
    let mut result = set;
    loop
        invariant
            ok_graph(*graph),
            ok_set(result),
            state_width(result) == graph_width(*graph),
            vertices_of(result).subset_of(s0),
            s0.finite(),
            forall|x: Seq<bool>| #[trigger] cyc_member(*graph, s0, x) ==> vertices_of(
                result,
            ).contains(x),
        ensures
            vertices_of(result).subset_of(s0),
            forall|x: Seq<bool>| #[trigger] cyc_member(*graph, s0, x) ==> vertices_of(
                result,
            ).contains(x),
            ok_set(result),
            state_width(result) == graph_width(*graph),
        decreases vertices_of(result).len(),
    {
        let has_predecessor = graph_can_pre_within(graph, &result);
        if set_is_subset(&result, &has_predecessor) {
            break ;
        }
        proof {
            assert forall|x: Seq<bool>| #[trigger] cyc_member(*graph, s0, x) implies vertices_of(
                has_predecessor,
            ).contains(x) by {
                lemma_cyc_member_pred(*graph, s0, x);
                let y = choose|y: Seq<bool>| #[trigger]
                    edge(*graph, y, x) && cyc_member(*graph, s0, y);
            }
            let elt = choose|elt: Seq<bool>|
                !vertices_of(has_predecessor).contains(elt) && #[trigger] vertices_of(
                    result,
                ).contains(elt);
            lemma_len_subset(vertices_of(result), s0);
            vertices_of(has_predecessor).lemma_subset_not_in_lt(vertices_of(result), elt);
        }
        result = has_predecessor;
    }
    result
}

/// Trim in both directions until both fixpoints hold: the result keeps every
/// state on a cycle within `set` and holds only states of `set`.
pub(crate) fn trim(graph: &SymbolicAsyncGraph, set: GraphColoredVertices) -> (r:
    GraphColoredVertices)
    requires
        ok_graph(*graph),
        ok_set(set),
        state_width(set) == graph_width(*graph),
    ensures
        vertices_of(r).subset_of(vertices_of(set)),
        forall|x: Seq<bool>| #[trigger] cyc_member(*graph, vertices_of(set), x)
            ==> vertices_of(r).contains(x),
        ok_set(r),
        state_width(r) == graph_width(*graph),
{
    let ghost s0 = vertices_of(set);
    let led = trim_leading(graph, set);
    let ghost l = vertices_of(led);
    let trimmed = trim_trailing(graph, led);
    proof {
        assert forall|x: Seq<bool>| #[trigger] cyc_member(*graph, s0, x) implies vertices_of(
            trimmed,
        ).contains(x) by {
            lemma_cyc_member_shrink(*graph, s0, l, x);
        }
    }
    trimmed
}

} // verus!
