//! Classification of symbolic sets by how the dynamics can leave them:
//! universally transient sets, long-lived sets, trap sets, and the smallest
//! enclosing subspace of a set.
use vstd::prelude::*;

use crate::model::graph_simple;
use crate::model::graph_width;
use crate::model::ok_set;
use crate::model::state_width;
use crate::model::var_edge;
use crate::model::vertices_of;
use crate::symbolic::graph_num_vars;
use crate::symbolic::graph_var_can_post_out;
use crate::symbolic::set_fix_variable;
use crate::symbolic::set_is_empty;
use crate::symbolic::set_is_subset;
use biodivine_lib_param_bn::symbolic_async_graph::GraphColoredVertices;
use biodivine_lib_param_bn::symbolic_async_graph::SymbolicAsyncGraph;

verus! {

/// Every state of `s` can leave `s` by updating variable `v`.
pub open spec fn all_escape_via(g: SymbolicAsyncGraph, v: int, s: Set<Seq<bool>>) -> bool {
    forall|a: Seq<bool>| #[trigger]
        s.contains(a) ==> exists|b: Seq<bool>| !s.contains(b) && #[trigger] var_edge(g, v, a, b)
}

/// Some single variable lets every state of `s` leave `s`.
pub open spec fn universally_transient(g: SymbolicAsyncGraph, s: Set<Seq<bool>>) -> bool {
    exists|v: int| 0 <= v < graph_width(g) && #[trigger] all_escape_via(g, v, s)
}

/// No transition leaves `s`.
pub open spec fn trapped(g: SymbolicAsyncGraph, s: Set<Seq<bool>>) -> bool {
    forall|v: int, a: Seq<bool>, b: Seq<bool>|
        0 <= v < graph_width(g) && s.contains(a) && #[trigger] var_edge(g, v, a, b)
            ==> s.contains(b)
}

/// Whether there is a variable `v` such that every state in `set` can leave
/// `set` by updating `v`. A strongly connected subset of such a `set` can
/// never oscillate in `v`, so no component inside it is long-lived in `v`.
pub fn is_universally_transient(graph: &SymbolicAsyncGraph, set: &GraphColoredVertices) -> (r:
    bool)
    requires
        graph_simple(*graph),
        ok_set(*set),
        state_width(*set) == graph_width(*graph),
    ensures
        r <==> universally_transient(*graph, vertices_of(*set)),
{
    let n = graph_num_vars(graph);
    let mut v: usize = 0;
    while v < n
        invariant
            v <= n,
            n as nat == graph_width(*graph),
            graph_simple(*graph),
            ok_set(*set),
            state_width(*set) == graph_width(*graph),
            forall|vv: int| 0 <= vv < v ==> !#[trigger] all_escape_via(*graph, vv, vertices_of(*set)),
        ensures
            v == n,
            forall|vv: int| 0 <= vv < n ==> !#[trigger] all_escape_via(*graph, vv, vertices_of(*set)),
        decreases n - v,
    {
        let can_go_out = graph_var_can_post_out(graph, v, set);
        if set_is_subset(set, &can_go_out) {
            proof {
                assert forall|a: Seq<bool>| #[trigger]
                    vertices_of(*set).contains(a) implies exists|b: Seq<bool>|
                    !vertices_of(*set).contains(b) && #[trigger] var_edge(*graph, v as int, a, b) by {
                    assert(vertices_of(can_go_out).contains(a));
                }
                assert(all_escape_via(*graph, v as int, vertices_of(*set)));
            }
            return true;
        }
        proof {
            let a = choose|a: Seq<bool>|
                vertices_of(*set).contains(a) && !vertices_of(can_go_out).contains(a);
            assert(!all_escape_via(*graph, v as int, vertices_of(*set)));
        }
        v += 1;
    }
    false
}

/// Whether the `set` is long-lived: the opposite of universally transient.
pub fn is_long_lived(graph: &SymbolicAsyncGraph, set: &GraphColoredVertices) -> (r: bool)
    requires
        graph_simple(*graph),
        ok_set(*set),
        state_width(*set) == graph_width(*graph),
    ensures
        r <==> !universally_transient(*graph, vertices_of(*set)),
{
    !is_universally_transient(graph, set)
}

/// Whether the `set` is trapped: no transition of the graph leaves it.
pub fn is_trapped(graph: &SymbolicAsyncGraph, set: &GraphColoredVertices) -> (r: bool)
    requires
        graph_simple(*graph),
        ok_set(*set),
        state_width(*set) == graph_width(*graph),
    ensures
        r <==> trapped(*graph, vertices_of(*set)),
{
    let n = graph_num_vars(graph);
    let mut v: usize = 0;
    while v < n
        invariant
            v <= n,
            n as nat == graph_width(*graph),
            graph_simple(*graph),
            ok_set(*set),
            state_width(*set) == graph_width(*graph),
            forall|vv: int, a: Seq<bool>, b: Seq<bool>|
                0 <= vv < v && vertices_of(*set).contains(a) && #[trigger] var_edge(
                    *graph,
                    vv,
                    a,
                    b,
                ) ==> vertices_of(*set).contains(b),
        ensures
            v == n,
            trapped(*graph, vertices_of(*set)),
        decreases n - v,
    {
        let can_go_out = graph_var_can_post_out(graph, v, set);
        if !set_is_empty(&can_go_out) {
            proof {
                let a = vertices_of(can_go_out).choose();
                assert(vertices_of(can_go_out).contains(a));
                let b = choose|b: Seq<bool>|
                    !vertices_of(*set).contains(b) && #[trigger] var_edge(*graph, v as int, a, b);
            }
            return false;
        }
        proof {
            assert forall|a: Seq<bool>, b: Seq<bool>|
                vertices_of(*set).contains(a) && #[trigger] var_edge(*graph, v as int, a, b)
                    implies vertices_of(*set).contains(b) by {
                if !vertices_of(*set).contains(b) {
                    assert(vertices_of(can_go_out).contains(a));
                }
            }
        }
        v += 1;
    }
    true
}

/// The value of one network variable over a subspace.
#[derive(Clone, Copy, Debug, PartialEq, Eq, Structural)]
pub enum ExtBool {
    /// The variable is fixed to false over the whole set.
    Zero,
    /// The variable is fixed to true over the whole set.
    One,
    /// The variable takes both values inside the set.
    Any,
}

/// The variable is true in every state of `s`.
pub open spec fn fixed_true(s: Set<Seq<bool>>, v: int) -> bool {
    forall|w: Seq<bool>| #[trigger] s.contains(w) ==> w[v]
}

/// The variable is false in every state of `s`.
pub open spec fn fixed_false(s: Set<Seq<bool>>, v: int) -> bool {
    forall|w: Seq<bool>| #[trigger] s.contains(w) ==> !w[v]
}

/// The smallest subspace (hypercube) enclosing all states of the nonempty
/// `set`: per variable, whether it is fixed to one value or free.
pub fn enclosing_subspace(graph: &SymbolicAsyncGraph, set: &GraphColoredVertices) -> (r: Vec<
    ExtBool,
>)
    requires
        graph_simple(*graph),
        ok_set(*set),
        state_width(*set) == graph_width(*graph),
        !vertices_of(*set).is_empty(),
    ensures
        r@.len() == graph_width(*graph),
        forall|v: int|
            0 <= v < r@.len() ==> (#[trigger] r@[v] == ExtBool::One <==> fixed_true(
                vertices_of(*set),
                v,
            )),
        forall|v: int|
            0 <= v < r@.len() ==> (#[trigger] r@[v] == ExtBool::Zero <==> fixed_false(
                vertices_of(*set),
                v,
            )),
{
    let n = graph_num_vars(graph);
    let mut space: Vec<ExtBool> = Vec::new();
    let mut v: usize = 0;
    while v < n
        invariant
            v <= n,
            n as nat == graph_width(*graph),
            graph_simple(*graph),
            ok_set(*set),
            state_width(*set) == graph_width(*graph),
            !vertices_of(*set).is_empty(),
            space@.len() == v,
            forall|vv: int|
                0 <= vv < v ==> (#[trigger] space@[vv] == ExtBool::One <==> fixed_true(
                    vertices_of(*set),
                    vv,
                )),
            forall|vv: int|
                0 <= vv < v ==> (#[trigger] space@[vv] == ExtBool::Zero <==> fixed_false(
                    vertices_of(*set),
                    vv,
                )),
        decreases n - v,
    {
        let true_subset = set_fix_variable(set, v, true);
        let false_subset = set_fix_variable(set, v, false);
        let true_empty = set_is_empty(&true_subset);
        let false_empty = set_is_empty(&false_subset);
        proof {
            let w = vertices_of(*set).choose();
            assert(vertices_of(*set).contains(w));
            if w[v as int] {
                assert(vertices_of(true_subset).contains(w));
            } else {
                assert(vertices_of(false_subset).contains(w));
            }
            assert(!(true_empty && false_empty));
            if false_empty {
                assert forall|u: Seq<bool>| #[trigger]
                    vertices_of(*set).contains(u) implies u[v as int] by {
                    if !u[v as int] {
                        assert(vertices_of(false_subset).contains(u));
                    }
                }
            }
            if true_empty {
                assert forall|u: Seq<bool>| #[trigger]
                    vertices_of(*set).contains(u) implies !u[v as int] by {
                    if u[v as int] {
                        assert(vertices_of(true_subset).contains(u));
                    }
                }
            }
            if !false_empty {
                let u = vertices_of(false_subset).choose();
                assert(vertices_of(false_subset).contains(u));
                assert(!fixed_true(vertices_of(*set), v as int));
            }
            if !true_empty {
                let u = vertices_of(true_subset).choose();
                assert(vertices_of(true_subset).contains(u));
                assert(!fixed_false(vertices_of(*set), v as int));
            }
        }
        let entry = if false_empty {
            ExtBool::One
        } else if true_empty {
            ExtBool::Zero
        } else {
            ExtBool::Any
        };
        space.push(entry);
        v += 1;
    }
    space
}

/// Whether `a` is a subspace of `b`: every variable fixed in `b` is fixed to
/// the same value in `a`.
pub fn is_subspace(a: &Vec<ExtBool>, b: &Vec<ExtBool>) -> (r: bool)
    requires
        a@.len() == b@.len(),
    ensures
        r <==> forall|v: int|
            0 <= v < b@.len() ==> ((#[trigger] b@[v] == ExtBool::One ==> a@[v] == ExtBool::One)
                && (b@[v] == ExtBool::Zero ==> a@[v] == ExtBool::Zero)),
{
    let n = b.len();
    let mut v: usize = 0;
    while v < n
        invariant
            v <= n,
            n == b@.len(),
            a@.len() == b@.len(),
            forall|vv: int|
                0 <= vv < v ==> ((#[trigger] b@[vv] == ExtBool::One ==> a@[vv] == ExtBool::One) && (
                b@[vv] == ExtBool::Zero ==> a@[vv] == ExtBool::Zero)),
        decreases n - v,
    {
        let fixed_mismatch = match (b[v], a[v]) {
            (ExtBool::One, ExtBool::One) => false,
            (ExtBool::Zero, ExtBool::Zero) => false,
            (ExtBool::Any, _) => false,
            _ => true,
        };
        if fixed_mismatch {
            return false;
        }
        v += 1;
    }
    true
}

} // verus!
