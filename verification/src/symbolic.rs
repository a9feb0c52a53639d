//! Trusted boundary to the symbolic state-space engine.
//!
//! The decomposition logic never touches decision diagrams directly: every
//! call into the symbolic engine goes through one of the wrappers below,
//! whose contracts state — over the model of `crate::model` — what the
//! engine's documentation and source promise. Nothing else in the crate is
//! trusted.
use vstd::prelude::*;

use crate::dd::dd_accepts;
use crate::dd::dd_wf;
use crate::dd::DdNode;
use crate::model::graph_simple;
use crate::model::graph_universe;
use crate::model::graph_width;
use crate::model::simple_context;
use crate::model::sound_set;
use crate::model::state_width;
use crate::model::var_edge;
use crate::model::vertices_of;
use biodivine_lib_param_bn::symbolic_async_graph::GraphColoredVertices;
use biodivine_lib_param_bn::symbolic_async_graph::SymbolicAsyncGraph;
use biodivine_lib_param_bn::VariableId;

verus! {

/// Declares the symbolic transition graph of the engine as an opaque type.
#[verifier::external_type_specification]
#[verifier::external_body]
pub struct ExSymbolicAsyncGraph(SymbolicAsyncGraph);

/// Declares the symbolic state set of the engine as an opaque type.
#[verifier::external_type_specification]
#[verifier::external_body]
pub struct ExGraphColoredVertices(GraphColoredVertices);

/// Relies on the derived `Clone` of `GraphColoredVertices`: a field-wise
/// copy is the same set value.
pub assume_specification[ <GraphColoredVertices as Clone>::clone ](
    s: &GraphColoredVertices,
) -> (r: GraphColoredVertices)
    ensures
        r == *s,
;

/// Relies on the derived `Clone` of `SymbolicAsyncGraph`: a field-wise copy
/// is the same graph value.
pub assume_specification[ <SymbolicAsyncGraph as Clone>::clone ](
    g: &SymbolicAsyncGraph,
) -> (r: SymbolicAsyncGraph)
    ensures
        r == *g,
;

/// Relies on `SymbolicAsyncGraph::num_vars`: the number of network
/// variables of the graph's context.
#[verifier::external_body]
pub(crate) fn graph_num_vars(g: &SymbolicAsyncGraph) -> (r: usize)
    ensures
        r as nat == graph_width(*g),
{
    g.num_vars()
}

/// Relies on `SymbolicAsyncGraph::unit_colored_vertices`: the unit set holds
/// exactly the graph's universe of states.
#[verifier::external_body]
pub(crate) fn graph_unit_set(g: &SymbolicAsyncGraph) -> (r: GraphColoredVertices)
    ensures
        vertices_of(r) == graph_universe(*g),
        simple_context(r) <==> graph_simple(*g),
        state_width(r) == graph_width(*g),
        sound_set(r),
{
    g.unit_colored_vertices().clone()
}

/// Relies on `SymbolicAsyncGraph::mk_empty_colored_vertices`: the empty set
/// of the graph's context.
#[verifier::external_body]
pub(crate) fn graph_empty_set(g: &SymbolicAsyncGraph) -> (r: GraphColoredVertices)
    ensures
        vertices_of(r) == Set::<Seq<bool>>::empty(),
        simple_context(r) <==> graph_simple(*g),
        state_width(r) == graph_width(*g),
        sound_set(r),
{
    g.mk_empty_colored_vertices()
}

/// Relies on `SymbolicAsyncGraph::restrict`: the restricted graph keeps the
/// context and the update functions, its unit set becomes `s`, and its
/// transitions are those of `g` with both endpoints in `s`.
#[verifier::external_body]
pub(crate) fn graph_restrict(g: &SymbolicAsyncGraph, s: &GraphColoredVertices) -> (r:
    SymbolicAsyncGraph)
    requires
        graph_simple(*g),
        simple_context(*s),
        state_width(*s) == graph_width(*g),
    ensures
        graph_simple(r),
        graph_width(r) == graph_width(*g),
        graph_universe(r) == vertices_of(*s),
        crate::model::restricted_edges(r, *g, vertices_of(*s)),
{
    g.restrict(s)
}

/// Relies on `SymbolicAsyncGraph::post`: all successors of `s`, over every
/// update variable.
#[verifier::external_body]
pub(crate) fn graph_post(g: &SymbolicAsyncGraph, s: &GraphColoredVertices) -> (r:
    GraphColoredVertices)
    requires
        graph_simple(*g),
        simple_context(*s),
        state_width(*s) == graph_width(*g),
    ensures
        vertices_of(r) == Set::new(
            |b: Seq<bool>|
                exists|a: Seq<bool>|
                    vertices_of(*s).contains(a) && #[trigger] crate::model::edge(*g, a, b),
        ),
        simple_context(r),
        state_width(r) == graph_width(*g),
        sound_set(r),
{
    g.post(s)
}

/// Relies on `SymbolicAsyncGraph::pre`: all predecessors of `s`, over every
/// update variable.
#[verifier::external_body]
pub(crate) fn graph_pre(g: &SymbolicAsyncGraph, s: &GraphColoredVertices) -> (r:
    GraphColoredVertices)
    requires
        graph_simple(*g),
        simple_context(*s),
        state_width(*s) == graph_width(*g),
    ensures
        vertices_of(r) == Set::new(
            |a: Seq<bool>|
                exists|b: Seq<bool>|
                    vertices_of(*s).contains(b) && #[trigger] crate::model::edge(*g, a, b),
        ),
        simple_context(r),
        state_width(r) == graph_width(*g),
        sound_set(r),
{
    g.pre(s)
}

/// Relies on `SymbolicAsyncGraph::var_post_out`: successors of `s` along the
/// single variable `v` that land outside `s`.
#[verifier::external_body]
pub(crate) fn graph_var_post_out(g: &SymbolicAsyncGraph, v: usize, s: &GraphColoredVertices) -> (r:
    GraphColoredVertices)
    requires
        graph_simple(*g),
        simple_context(*s),
        state_width(*s) == graph_width(*g),
        (v as nat) < graph_width(*g),
    ensures
        vertices_of(r) == Set::new(
            |b: Seq<bool>|
                !vertices_of(*s).contains(b) && exists|a: Seq<bool>|
                    vertices_of(*s).contains(a) && #[trigger] var_edge(*g, v as int, a, b),
        ),
        simple_context(r),
        state_width(r) == graph_width(*g),
        sound_set(r),
{
    g.var_post_out(VariableId::from_index(v), s)
}

/// Relies on `SymbolicAsyncGraph::var_pre_out`: predecessors of `s` along
/// the single variable `v` that lie outside `s`.
#[verifier::external_body]
pub(crate) fn graph_var_pre_out(g: &SymbolicAsyncGraph, v: usize, s: &GraphColoredVertices) -> (r:
    GraphColoredVertices)
    requires
        graph_simple(*g),
        simple_context(*s),
        state_width(*s) == graph_width(*g),
        (v as nat) < graph_width(*g),
    ensures
        vertices_of(r) == Set::new(
            |a: Seq<bool>|
                !vertices_of(*s).contains(a) && exists|b: Seq<bool>|
                    vertices_of(*s).contains(b) && #[trigger] var_edge(*g, v as int, a, b),
        ),
        simple_context(r),
        state_width(r) == graph_width(*g),
        sound_set(r),
{
    g.var_pre_out(VariableId::from_index(v), s)
}

/// Relies on `SymbolicAsyncGraph::var_can_post_out`: the members of `s` that
/// can leave `s` by updating variable `v`.
#[verifier::external_body]
pub(crate) fn graph_var_can_post_out(
    g: &SymbolicAsyncGraph,
    v: usize,
    s: &GraphColoredVertices,
) -> (r: GraphColoredVertices)
    requires
        graph_simple(*g),
        simple_context(*s),
        state_width(*s) == graph_width(*g),
        (v as nat) < graph_width(*g),
    ensures
        vertices_of(r) == Set::new(
            |a: Seq<bool>|
                vertices_of(*s).contains(a) && exists|b: Seq<bool>|
                    !vertices_of(*s).contains(b) && #[trigger] var_edge(*g, v as int, a, b),
        ),
        simple_context(r),
        state_width(r) == graph_width(*g),
        sound_set(r),
{
    g.var_can_post_out(VariableId::from_index(v), s)
}

/// Relies on `SymbolicAsyncGraph::can_post_within`: the members of `s` with
/// at least one successor inside `s`.
#[verifier::external_body]
pub(crate) fn graph_can_post_within(g: &SymbolicAsyncGraph, s: &GraphColoredVertices) -> (r:
    GraphColoredVertices)
    requires
        graph_simple(*g),
        simple_context(*s),
        state_width(*s) == graph_width(*g),
    ensures
        vertices_of(r) == Set::new(
            |a: Seq<bool>|
                vertices_of(*s).contains(a) && exists|b: Seq<bool>|
                    vertices_of(*s).contains(b) && #[trigger] crate::model::edge(*g, a, b),
        ),
        simple_context(r),
        state_width(r) == graph_width(*g),
        sound_set(r),
{
    g.can_post_within(s)
}

/// Relies on `SymbolicAsyncGraph::can_pre_within`: the members of `s` with
/// at least one predecessor inside `s`.
#[verifier::external_body]
pub(crate) fn graph_can_pre_within(g: &SymbolicAsyncGraph, s: &GraphColoredVertices) -> (r:
    GraphColoredVertices)
    requires
        graph_simple(*g),
        simple_context(*s),
        state_width(*s) == graph_width(*g),
    ensures
        vertices_of(r) == Set::new(
            |b: Seq<bool>|
                vertices_of(*s).contains(b) && exists|a: Seq<bool>|
                    vertices_of(*s).contains(a) && #[trigger] crate::model::edge(*g, a, b),
        ),
        simple_context(r),
        state_width(r) == graph_width(*g),
        sound_set(r),
{
    g.can_pre_within(s)
}

/// Relies on the `union` of `biodivine_std::traits::Set` (disjunction of the
/// underlying diagrams).
#[verifier::external_body]
pub(crate) fn set_union(a: &GraphColoredVertices, b: &GraphColoredVertices) -> (r:
    GraphColoredVertices)
    requires
        simple_context(*a),
        simple_context(*b),
        state_width(*a) == state_width(*b),
    ensures
        vertices_of(r) == vertices_of(*a).union(vertices_of(*b)),
        simple_context(r),
        state_width(r) == state_width(*a),
        sound_set(r),
{
    biodivine_lib_param_bn::biodivine_std::traits::Set::union(a, b)
}

/// Relies on the `intersect` of `biodivine_std::traits::Set` (conjunction of
/// the underlying diagrams).
#[verifier::external_body]
pub(crate) fn set_intersect(a: &GraphColoredVertices, b: &GraphColoredVertices) -> (r:
    GraphColoredVertices)
    requires
        simple_context(*a),
        simple_context(*b),
        state_width(*a) == state_width(*b),
    ensures
        vertices_of(r) == vertices_of(*a).intersect(vertices_of(*b)),
        simple_context(r),
        state_width(r) == state_width(*a),
        sound_set(r),
{
    biodivine_lib_param_bn::biodivine_std::traits::Set::intersect(a, b)
}

/// Relies on the `minus` of `biodivine_std::traits::Set` (difference of the
/// underlying diagrams).
#[verifier::external_body]
pub(crate) fn set_minus(a: &GraphColoredVertices, b: &GraphColoredVertices) -> (r:
    GraphColoredVertices)
    requires
        simple_context(*a),
        simple_context(*b),
        state_width(*a) == state_width(*b),
    ensures
        vertices_of(r) == vertices_of(*a).difference(vertices_of(*b)),
        simple_context(r),
        state_width(r) == state_width(*a),
        sound_set(r),
{
    biodivine_lib_param_bn::biodivine_std::traits::Set::minus(a, b)
}

/// Relies on the `is_empty` of `biodivine_std::traits::Set`: a diagram is
/// unsatisfiable exactly when the set holds no state.
#[verifier::external_body]
pub(crate) fn set_is_empty(s: &GraphColoredVertices) -> (r: bool)
    ensures
        r <==> vertices_of(*s).is_empty(),
{
    biodivine_lib_param_bn::biodivine_std::traits::Set::is_empty(s)
}

/// Relies on the `is_subset` of `biodivine_std::traits::Set`.
#[verifier::external_body]
pub(crate) fn set_is_subset(a: &GraphColoredVertices, b: &GraphColoredVertices) -> (r: bool)
    requires
        simple_context(*a),
        simple_context(*b),
        state_width(*a) == state_width(*b),
    ensures
        r <==> vertices_of(*a).subset_of(vertices_of(*b)),
{
    biodivine_lib_param_bn::biodivine_std::traits::Set::is_subset(a, b)
}

/// Relies on `GraphColoredVertices::is_singleton`: in a context without
/// color variables, the set is a single conjunctive clause fixing every
/// variable exactly when it holds one state.
#[verifier::external_body]
pub(crate) fn set_is_singleton(s: &GraphColoredVertices) -> (r: bool)
    requires
        simple_context(*s),
    ensures
        r <==> crate::model::is_singleton_set(vertices_of(*s)),
{
    s.is_singleton()
}

/// Relies on `GraphColoredVertices::pick_singleton`: one state of the set as
/// a singleton subset, or the empty set when the set is empty.
#[verifier::external_body]
pub(crate) fn set_pick_singleton(s: &GraphColoredVertices) -> (r: GraphColoredVertices)
    requires
        simple_context(*s),
    ensures
        vertices_of(r).subset_of(vertices_of(*s)),
        vertices_of(*s).is_empty() ==> vertices_of(r).is_empty(),
        !vertices_of(*s).is_empty() ==> crate::model::is_singleton_set(vertices_of(r)),
        simple_context(r),
        state_width(r) == state_width(*s),
        sound_set(r),
{
    s.pick_singleton()
}

/// Relies on `GraphColoredVertices::fix_network_variable`: the subset where
/// variable `v` carries the given value.
#[verifier::external_body]
pub(crate) fn set_fix_variable(s: &GraphColoredVertices, v: usize, value: bool) -> (r:
    GraphColoredVertices)
    requires
        simple_context(*s),
        (v as nat) < state_width(*s),
    ensures
        vertices_of(r) == Set::new(
            |w: Seq<bool>| vertices_of(*s).contains(w) && w[v as int] == value,
        ),
        simple_context(r),
        state_width(r) == state_width(*s),
        sound_set(r),
{
    s.fix_network_variable(VariableId::from_index(v), value)
}

/// Relies on `Bdd::sat_witness` of the underlying diagram: one satisfying
/// valuation of a nonempty set, as one boolean per variable.
#[verifier::external_body]
pub(crate) fn set_witness(s: &GraphColoredVertices) -> (r: Vec<bool>)
    requires
        simple_context(*s),
        !vertices_of(*s).is_empty(),
    ensures
        r@.len() == state_width(*s),
        vertices_of(*s).contains(r@),
{
    s.as_bdd().sat_witness().unwrap().into_vector()
}

/// Relies on `Bdd::to_nodes` of the underlying diagram, and on the
/// documented array invariants of the diagram: terminals sit at indices 0
/// (reject) and 1 (accept) with the variable count as sentinel variable,
/// children precede their parents, variables increase from parent to child,
/// the root is the last node, and entering at the root accepts exactly the
/// valuations stored in the set.
#[verifier::external_body]
pub(crate) fn set_to_diagram(s: &GraphColoredVertices) -> (r: Vec<DdNode>)
    requires
        simple_context(*s),
    ensures
        dd_wf(r@, state_width(*s)),
        forall|val: Seq<bool>|
            val.len() == state_width(*s) ==> (#[trigger] dd_accepts(
                r@,
                r@.len() - 1,
                val,
            ) <==> vertices_of(*s).contains(val)),
{
    let nodes = s.as_bdd().clone().to_nodes();
    nodes.into_iter().map(
        |nd: biodivine_lib_bdd::BddNode|
            DdNode {
                var: nd.var.to_index(),
                low: nd.low_link.to_index(),
                high: nd.high_link.to_index(),
            },
    ).collect()
}

/// Relies on `BddValuation::new`, the `Bdd` made `From` it, and
/// `GraphColoredVertices::copy`: the singleton set of the given valuation,
/// in the context of `s`.
#[verifier::external_body]
pub(crate) fn set_from_valuation(s: &GraphColoredVertices, bits: &Vec<bool>) -> (r:
    GraphColoredVertices)
    requires
        simple_context(*s),
        bits@.len() == state_width(*s),
    ensures
        vertices_of(r) == Set::<Seq<bool>>::empty().insert(bits@),
        simple_context(r),
        state_width(r) == state_width(*s),
        sound_set(r),
{
    s.copy(biodivine_lib_bdd::Bdd::from(biodivine_lib_bdd::BddValuation::new(bits.clone())))
}

} // verus!
