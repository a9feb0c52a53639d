//! Mathematical model of the symbolic state-transition graph.
//!
//! A *state* is a valuation of the network variables, modelled as a
//! `Seq<bool>` whose length is the number of network variables. A symbolic
//! set is modelled by the set of states it contains, and a symbolic graph by
//! its universe (unit set) together with its one-step transition relation,
//! split per updated variable.
use vstd::prelude::*;

use biodivine_lib_param_bn::symbolic_async_graph::GraphColoredVertices;
use biodivine_lib_param_bn::symbolic_async_graph::SymbolicAsyncGraph;

verus! {

/// The set of vertex valuations of a symbolic set (its projection over the
/// color dimension). Each valuation assigns one boolean per network variable.
pub uninterp spec fn vertices_of(s: GraphColoredVertices) -> Set<Seq<bool>>;

/// The number of network (state) variables of the symbolic context a set
/// belongs to; every valuation in `vertices_of` has exactly this length.
pub uninterp spec fn state_width(s: GraphColoredVertices) -> nat;

/// Holds when the symbolic context of the set has no parameter (color)
/// variables and no extra symbolic variables: its decision diagrams range
/// over exactly the network variables, in declaration order.
pub uninterp spec fn simple_context(s: GraphColoredVertices) -> bool;

/// The number of network variables of a symbolic graph.
pub uninterp spec fn graph_width(g: SymbolicAsyncGraph) -> nat;

/// Holds when the graph's symbolic context has no parameter (color)
/// variables and no extra symbolic variables.
pub uninterp spec fn graph_simple(g: SymbolicAsyncGraph) -> bool;

/// The vertex valuations of the graph's unit (universe) set.
pub uninterp spec fn graph_universe(g: SymbolicAsyncGraph) -> Set<Seq<bool>>;

/// The one-step transition relation of the graph along one updated variable:
/// `var_edge(g, v, a, b)` holds when state `a` moves to state `b` by updating
/// exactly the network variable with index `v`.
pub uninterp spec fn var_edge(g: SymbolicAsyncGraph, v: int, a: Seq<bool>, b: Seq<bool>) -> bool;

/// One asynchronous transition: some variable moves `a` to `b`.
pub open spec fn edge(g: SymbolicAsyncGraph, a: Seq<bool>, b: Seq<bool>) -> bool {
    exists|v: int| 0 <= v < graph_width(g) && #[trigger] var_edge(g, v, a, b)
}

/// A set holding exactly one state.
pub open spec fn is_singleton_set(x: Set<Seq<bool>>) -> bool {
    exists|w: Seq<bool>| x == Set::<Seq<bool>>::empty().insert(w)
}

/// The transitions of `sub` are exactly the transitions of `big` whose
/// endpoints both lie in `s`.
pub open spec fn restricted_edges(
    sub: SymbolicAsyncGraph,
    big: SymbolicAsyncGraph,
    s: Set<Seq<bool>>,
) -> bool {
    forall|v: int, a: Seq<bool>, b: Seq<bool>|
        #[trigger] var_edge(sub, v, a, b) <==> var_edge(big, v, a, b) && s.contains(a)
            && s.contains(b)
}

/// A set value whose model is usable: finitely many states, each of the
/// context's width.
pub open spec fn sound_set(s: GraphColoredVertices) -> bool {
    &&& vertices_of(s).finite()
    &&& forall|w: Seq<bool>| #[trigger] vertices_of(s).contains(w) ==> w.len() == state_width(s)
}

/// A set that the verified algorithms can work on.
pub open spec fn ok_set(s: GraphColoredVertices) -> bool {
    &&& simple_context(s)
    &&& sound_set(s)
}

/// Every transition of the graph stays inside its universe. This holds for
/// any graph obtained by restricting a graph to a subset of its universe.
pub open spec fn closed_graph(g: SymbolicAsyncGraph) -> bool {
    forall|a: Seq<bool>, b: Seq<bool>|
        #[trigger] edge(g, a, b) ==> graph_universe(g).contains(a) && graph_universe(g).contains(b)
}

/// A graph value on which a decomposition can run: uncolored simple context,
/// transitions confined to a finite universe of fixed-width states.
pub open spec fn ok_graph(g: SymbolicAsyncGraph) -> bool {
    &&& graph_simple(g)
    &&& closed_graph(g)
    &&& graph_universe(g).finite()
    &&& forall|w: Seq<bool>| #[trigger] graph_universe(g).contains(w) ==> w.len() == graph_width(g)
}

/// `sub` is the restriction of `big` to `sub`'s universe: same variables,
/// and exactly the transitions of `big` whose endpoints both lie in the
/// smaller universe.
pub open spec fn is_subgraph(big: SymbolicAsyncGraph, sub: SymbolicAsyncGraph) -> bool {
    &&& graph_width(sub) == graph_width(big)
    &&& graph_universe(sub).subset_of(graph_universe(big))
    &&& restricted_edges(sub, big, graph_universe(sub))
}

// ---------------------------------------------------------------------------
// Paths and reachability within a vertex set.
// ---------------------------------------------------------------------------

/// Consecutive entries of `p` are transitions of `g`.
pub open spec fn is_path(g: SymbolicAsyncGraph, p: Seq<Seq<bool>>) -> bool {
    forall|i: int| 0 <= i < p.len() - 1 ==> #[trigger] edge(g, p[i], p[i + 1])
}

/// Every entry of `p` lies in `s`.
pub open spec fn within(p: Seq<Seq<bool>>, s: Set<Seq<bool>>) -> bool {
    forall|i: int| 0 <= i < p.len() ==> s.contains(#[trigger] p[i])
}

/// `p` is a path of `g` from `a` to `b` that never leaves `s`.
pub open spec fn connects(
    g: SymbolicAsyncGraph,
    s: Set<Seq<bool>>,
    p: Seq<Seq<bool>>,
    a: Seq<bool>,
    b: Seq<bool>,
) -> bool {
    &&& p.len() >= 1
    &&& is_path(g, p)
    &&& within(p, s)
    &&& p.first() == a
    &&& p.last() == b
}

/// `b` is reachable from `a` by transitions of `g` that stay inside `s`.
/// In particular `reach(g, s, a, a)` holds exactly when `a` is in `s`.
pub open spec fn reach(g: SymbolicAsyncGraph, s: Set<Seq<bool>>, a: Seq<bool>, b: Seq<bool>) -> bool {
    exists|p: Seq<Seq<bool>>| #[trigger] connects(g, s, p, a, b)
}

/// Forward closure of the states of `p0` inside `s`.
pub open spec fn fwd_closure(g: SymbolicAsyncGraph, s: Set<Seq<bool>>, p0: Set<Seq<bool>>) -> Set<
    Seq<bool>,
> {
    Set::new(|b: Seq<bool>| exists|a: Seq<bool>| p0.contains(a) && #[trigger] reach(g, s, a, b))
}

/// Backward closure of the states of `p0` inside `s`.
pub open spec fn bwd_closure(g: SymbolicAsyncGraph, s: Set<Seq<bool>>, p0: Set<Seq<bool>>) -> Set<
    Seq<bool>,
> {
    Set::new(|b: Seq<bool>| exists|a: Seq<bool>| p0.contains(a) && #[trigger] reach(g, s, b, a))
}

/// The strongly connected component of `x` within `s`: all states mutually
/// reachable with `x` by paths inside `s`.
pub open spec fn scc_at(g: SymbolicAsyncGraph, s: Set<Seq<bool>>, x: Seq<bool>) -> Set<Seq<bool>> {
    Set::new(|y: Seq<bool>| reach(g, s, x, y) && reach(g, s, y, x))
}

/// `x` lies on a cycle inside `s` that visits at least one other state.
pub open spec fn nontrivial_at(g: SymbolicAsyncGraph, s: Set<Seq<bool>>, x: Seq<bool>) -> bool {
    exists|y: Seq<bool>| y != x && #[trigger] reach(g, s, x, y) && reach(g, s, y, x)
}

/// `x` lies on some cycle inside `s` (possibly a self-loop).
pub open spec fn cyc_member(g: SymbolicAsyncGraph, s: Set<Seq<bool>>, x: Seq<bool>) -> bool {
    &&& s.contains(x)
    &&& exists|y: Seq<bool>|
        s.contains(y) && #[trigger] edge(g, x, y) && reach(g, s, y, x)
}

/// `c` is one non-trivial strongly connected component of `g` within `u`.
pub open spec fn is_component(g: SymbolicAsyncGraph, u: Set<Seq<bool>>, c: Set<Seq<bool>>) -> bool {
    exists|x: Seq<bool>| u.contains(x) && nontrivial_at(g, u, x) && c == #[trigger] scc_at(g, u, x)
}

/// Every non-trivial component of `g` that touches `u` lies inside `u`.
pub open spec fn scc_closed(g: SymbolicAsyncGraph, u: Set<Seq<bool>>) -> bool {
    forall|x: Seq<bool>|
        u.contains(x) && #[trigger] nontrivial_at(g, graph_universe(g), x) ==> scc_at(
            g,
            graph_universe(g),
            x,
        ).subset_of(u)
}

/// The output of a decomposition: pairwise disjoint non-trivial components,
/// whose union holds exactly the states of the universe that lie in one.
pub open spec fn is_scc_decomposition(g: SymbolicAsyncGraph, comps: Seq<Set<Seq<bool>>>) -> bool {
    &&& forall|k: int|
        0 <= k < comps.len() ==> #[trigger] is_component(g, graph_universe(g), comps[k])
    &&& forall|k: int, l: int|
        0 <= k < comps.len() && 0 <= l < comps.len() && k != l ==> (#[trigger] comps[k]).disjoint(
            #[trigger] comps[l],
        )
    &&& forall|x: Seq<bool>|
        graph_universe(g).contains(x) && #[trigger] nontrivial_at(g, graph_universe(g), x)
            ==> exists|k: int| 0 <= k < comps.len() && (#[trigger] comps[k]).contains(x)
}

/// `c` is the strongly connected component of some state of `u`, possibly
/// a trivial one.
pub open spec fn is_any_component(g: SymbolicAsyncGraph, u: Set<Seq<bool>>, c: Set<Seq<bool>>) -> bool {
    exists|x: Seq<bool>| u.contains(x) && c == #[trigger] scc_at(g, u, x)
}

/// A full partition of the universe into strongly connected components,
/// trivial ones included: pairwise disjoint components covering every
/// state.
pub open spec fn is_full_scc_partition(g: SymbolicAsyncGraph, comps: Seq<Set<Seq<bool>>>) -> bool {
    &&& forall|k: int|
        0 <= k < comps.len() ==> #[trigger] is_any_component(g, graph_universe(g), comps[k])
    &&& forall|k: int, l: int|
        0 <= k < comps.len() && 0 <= l < comps.len() && k != l ==> (#[trigger] comps[k]).disjoint(
            #[trigger] comps[l],
        )
    &&& forall|x: Seq<bool>|
        #[trigger] graph_universe(g).contains(x) ==> exists|k: int|
            0 <= k < comps.len() && (#[trigger] comps[k]).contains(x)
}

/// The models of a sequence of symbolic sets.
pub open spec fn component_views(out: Seq<GraphColoredVertices>) -> Seq<Set<Seq<bool>>> {
    out.map_values(|s: GraphColoredVertices| vertices_of(s))
}

// ---------------------------------------------------------------------------
// Basic path lemmas.
// ---------------------------------------------------------------------------

pub proof fn lemma_reach_refl(g: SymbolicAsyncGraph, s: Set<Seq<bool>>, a: Seq<bool>)
    requires
        s.contains(a),
    ensures
        reach(g, s, a, a),
{
    let p = seq![a];
    assert(connects(g, s, p, a, a));
}

pub proof fn lemma_reach_in_set(
    g: SymbolicAsyncGraph,
    s: Set<Seq<bool>>,
    a: Seq<bool>,
    b: Seq<bool>,
)
    requires
        reach(g, s, a, b),
    ensures
        s.contains(a),
        s.contains(b),
{
    let p = choose|p: Seq<Seq<bool>>| connects(g, s, p, a, b);
    assert(s.contains(p[0]));
    assert(s.contains(p[p.len() - 1]));
}

pub proof fn lemma_reach_extend(
    g: SymbolicAsyncGraph,
    s: Set<Seq<bool>>,
    a: Seq<bool>,
    b: Seq<bool>,
    c: Seq<bool>,
)
    requires
        reach(g, s, a, b),
        edge(g, b, c),
        s.contains(c),
    ensures
        reach(g, s, a, c),
{
    let p = choose|p: Seq<Seq<bool>>| connects(g, s, p, a, b);
    let q = p.push(c);
    assert forall|i: int| 0 <= i < q.len() - 1 implies #[trigger] edge(g, q[i], q[i + 1]) by {
        if i < p.len() - 1 {
            assert(edge(g, p[i], p[i + 1]));
        } else {
            assert(q[i] == b && q[i + 1] == c);
        }
    }
    assert(q.last() == c);
    assert(connects(g, s, q, a, c));
}

pub proof fn lemma_reach_left_extend(
    g: SymbolicAsyncGraph,
    s: Set<Seq<bool>>,
    a: Seq<bool>,
    b: Seq<bool>,
    c: Seq<bool>,
)
    requires
        s.contains(a),
        edge(g, a, b),
        reach(g, s, b, c),
    ensures
        reach(g, s, a, c),
{
    let p = choose|p: Seq<Seq<bool>>| connects(g, s, p, b, c);
    let q = seq![a] + p;
    assert(q.len() == 1 + p.len());
    assert forall|i: int| 0 <= i < q.len() - 1 implies #[trigger] edge(g, q[i], q[i + 1]) by {
        if i == 0 {
            assert(q[0] == a && q[1] == p[0] && p[0] == b);
        } else {
            let k = i - 1;
            assert(q[i] == p[k] && q[i + 1] == p[k + 1]);
            assert(edge(g, p[k], p[k + 1]));
        }
    }
    assert forall|i: int| 0 <= i < q.len() implies s.contains(#[trigger] q[i]) by {
        if i > 0 {
            assert(s.contains(p[i - 1]));
        }
    }
    assert(q.last() == p.last());
    assert(connects(g, s, q, a, c));
}

pub proof fn lemma_reach_trans(
    g: SymbolicAsyncGraph,
    s: Set<Seq<bool>>,
    a: Seq<bool>,
    b: Seq<bool>,
    c: Seq<bool>,
)
    requires
        reach(g, s, a, b),
        reach(g, s, b, c),
    ensures
        reach(g, s, a, c),
{
    let p = choose|p: Seq<Seq<bool>>| connects(g, s, p, a, b);
    let q = choose|q: Seq<Seq<bool>>| connects(g, s, q, b, c);
    let r = p + q.drop_first();
    assert(r.len() == p.len() + q.len() - 1);
    assert forall|i: int| 0 <= i < r.len() implies s.contains(#[trigger] r[i]) by {
        if i < p.len() {
            assert(s.contains(p[i]));
        } else {
            assert(r[i] == q[i - p.len() + 1]);
            assert(s.contains(q[i - p.len() + 1]));
        }
    }
    assert forall|i: int| 0 <= i < r.len() - 1 implies #[trigger] edge(g, r[i], r[i + 1]) by {
        if i < p.len() - 1 {
            assert(r[i] == p[i] && r[i + 1] == p[i + 1]);
            assert(edge(g, p[i], p[i + 1]));
        } else if i == p.len() - 1 {
            if q.len() >= 2 {
                assert(r[i] == p.last() && p.last() == b && q.first() == b);
                assert(r[i + 1] == q[1]);
                assert(edge(g, q[0], q[1]));
            }
        } else {
            assert(r[i] == q[i - p.len() + 1] && r[i + 1] == q[i - p.len() + 2]);
            assert(edge(g, q[i - p.len() + 1], q[i - p.len() + 2]));
        }
    }
    if q.len() == 1 {
        assert(r == p);
        assert(b == c);
        assert(connects(g, s, r, a, c));
    } else {
        assert(r.last() == q.last());
        assert(connects(g, s, r, a, c));
    }
}

pub proof fn lemma_reach_monotone(
    g: SymbolicAsyncGraph,
    s1: Set<Seq<bool>>,
    s2: Set<Seq<bool>>,
    a: Seq<bool>,
    b: Seq<bool>,
)
    requires
        reach(g, s1, a, b),
        s1.subset_of(s2),
    ensures
        reach(g, s2, a, b),
{
    let p = choose|p: Seq<Seq<bool>>| connects(g, s1, p, a, b);
    assert forall|i: int| 0 <= i < p.len() implies s2.contains(#[trigger] p[i]) by {
        assert(s1.contains(p[i]));
    }
    assert(connects(g, s2, p, a, b));
}

/// Splitting a connecting path at any position yields reachability to and
/// from the intermediate state.
pub proof fn lemma_connects_split(
    g: SymbolicAsyncGraph,
    s: Set<Seq<bool>>,
    p: Seq<Seq<bool>>,
    a: Seq<bool>,
    b: Seq<bool>,
    i: int,
)
    requires
        connects(g, s, p, a, b),
        0 <= i < p.len(),
    ensures
        reach(g, s, a, p[i]),
        reach(g, s, p[i], b),
{
    let pre = p.subrange(0, i + 1);
    assert forall|j: int| 0 <= j < pre.len() - 1 implies #[trigger] edge(g, pre[j], pre[j + 1]) by {
        assert(edge(g, p[j], p[j + 1]));
    }
    assert forall|j: int| 0 <= j < pre.len() implies s.contains(#[trigger] pre[j]) by {
        assert(s.contains(p[j]));
    }
    assert(connects(g, s, pre, a, p[i]));
    let post = p.subrange(i, p.len() as int);
    assert forall|j: int| 0 <= j < post.len() - 1 implies #[trigger] edge(g, post[j], post[j + 1]) by {
        assert(post[j] == p[i + j] && post[j + 1] == p[i + j + 1]);
        assert(edge(g, p[i + j], p[i + j + 1]));
    }
    assert forall|j: int| 0 <= j < post.len() implies s.contains(#[trigger] post[j]) by {
        assert(s.contains(p[i + j]));
    }
    assert(post.last() == p[p.len() - 1]);
    assert(connects(g, s, post, p[i], b));
}

/// Reachability is the least fixpoint: any set `c` that contains `p0` and is
/// closed under the transitions of `g` that stay inside `s` contains the
/// whole forward closure of `p0`.
pub proof fn lemma_reach_least(
    g: SymbolicAsyncGraph,
    s: Set<Seq<bool>>,
    p0: Set<Seq<bool>>,
    c: Set<Seq<bool>>,
)
    requires
        p0.subset_of(c),
        forall|a: Seq<bool>, b: Seq<bool>|
            c.contains(a) && #[trigger] edge(g, a, b) && s.contains(b) ==> c.contains(b),
    ensures
        fwd_closure(g, s, p0).subset_of(c),
{
    assert forall|b: Seq<bool>| fwd_closure(g, s, p0).contains(b) implies c.contains(b) by {
        let a = choose|a: Seq<bool>| p0.contains(a) && #[trigger] reach(g, s, a, b);
        let p = choose|p: Seq<Seq<bool>>| connects(g, s, p, a, b);
        lemma_path_stays(g, s, p, c);
    }
}

/// Backward version of `lemma_reach_least`.
pub proof fn lemma_bwd_least(
    g: SymbolicAsyncGraph,
    s: Set<Seq<bool>>,
    p0: Set<Seq<bool>>,
    c: Set<Seq<bool>>,
)
    requires
        p0.subset_of(c),
        forall|a: Seq<bool>, b: Seq<bool>|
            c.contains(b) && #[trigger] edge(g, a, b) && s.contains(a) ==> c.contains(a),
    ensures
        bwd_closure(g, s, p0).subset_of(c),
{
    assert forall|b: Seq<bool>| bwd_closure(g, s, p0).contains(b) implies c.contains(b) by {
        let a = choose|a: Seq<bool>| p0.contains(a) && #[trigger] reach(g, s, b, a);
        let p = choose|p: Seq<Seq<bool>>| connects(g, s, p, b, a);
        lemma_path_stays_rev(g, s, p, c);
    }
}

proof fn lemma_path_stays(
    g: SymbolicAsyncGraph,
    s: Set<Seq<bool>>,
    p: Seq<Seq<bool>>,
    c: Set<Seq<bool>>,
)
    requires
        p.len() >= 1,
        is_path(g, p),
        within(p, s),
        c.contains(p.first()),
        forall|a: Seq<bool>, b: Seq<bool>|
            c.contains(a) && #[trigger] edge(g, a, b) && s.contains(b) ==> c.contains(b),
    ensures
        c.contains(p.last()),
    decreases p.len(),
{
    if p.len() > 1 {
        let q = p.drop_last();
        assert forall|i: int| 0 <= i < q.len() - 1 implies #[trigger] edge(g, q[i], q[i + 1]) by {
            assert(edge(g, p[i], p[i + 1]));
        }
        assert forall|i: int| 0 <= i < q.len() implies s.contains(#[trigger] q[i]) by {
            assert(s.contains(p[i]));
        }
        lemma_path_stays(g, s, q, c);
        let k = p.len() - 2;
        assert(edge(g, p[k], p[k + 1]));
        assert(s.contains(p[k + 1]));
    }
}

proof fn lemma_path_stays_rev(
    g: SymbolicAsyncGraph,
    s: Set<Seq<bool>>,
    p: Seq<Seq<bool>>,
    c: Set<Seq<bool>>,
)
    requires
        p.len() >= 1,
        is_path(g, p),
        within(p, s),
        c.contains(p.last()),
        forall|a: Seq<bool>, b: Seq<bool>|
            c.contains(b) && #[trigger] edge(g, a, b) && s.contains(a) ==> c.contains(a),
    ensures
        c.contains(p.first()),
    decreases p.len(),
{
    if p.len() > 1 {
        let q = p.drop_first();
        assert forall|i: int| 0 <= i < q.len() - 1 implies #[trigger] edge(g, q[i], q[i + 1]) by {
            let k = i + 1;
            assert(edge(g, p[k], p[k + 1]));
        }
        assert forall|i: int| 0 <= i < q.len() implies s.contains(#[trigger] q[i]) by {
            assert(s.contains(p[i + 1]));
        }
        assert(q.last() == p.last());
        lemma_path_stays_rev(g, s, q, c);
        assert(edge(g, p[0], p[1]));
        assert(s.contains(p[0]));
    }
}

// ---------------------------------------------------------------------------
// Transfer between a graph and its restriction.
// ---------------------------------------------------------------------------

pub proof fn lemma_subgraph_edge(
    big: SymbolicAsyncGraph,
    sub: SymbolicAsyncGraph,
    a: Seq<bool>,
    b: Seq<bool>,
)
    requires
        is_subgraph(big, sub),
    ensures
        edge(sub, a, b) <==> edge(big, a, b) && graph_universe(sub).contains(a)
            && graph_universe(sub).contains(b),
{
    if edge(sub, a, b) {
        let v = choose|v: int| 0 <= v < graph_width(sub) && #[trigger] var_edge(sub, v, a, b);
        assert(var_edge(big, v, a, b));
    }
    if edge(big, a, b) && graph_universe(sub).contains(a) && graph_universe(sub).contains(b) {
        let v = choose|v: int| 0 <= v < graph_width(big) && #[trigger] var_edge(big, v, a, b);
        assert(var_edge(sub, v, a, b));
    }
}

/// For a set `s` inside the restricted universe, paths within `s` are the
/// same in the restriction as in the original graph.
pub proof fn lemma_subgraph_reach(
    big: SymbolicAsyncGraph,
    sub: SymbolicAsyncGraph,
    s: Set<Seq<bool>>,
    a: Seq<bool>,
    b: Seq<bool>,
)
    requires
        is_subgraph(big, sub),
        s.subset_of(graph_universe(sub)),
    ensures
        reach(sub, s, a, b) <==> reach(big, s, a, b),
{
    if reach(sub, s, a, b) {
        let p = choose|p: Seq<Seq<bool>>| connects(sub, s, p, a, b);
        assert forall|i: int| 0 <= i < p.len() - 1 implies #[trigger] edge(big, p[i], p[i + 1]) by {
            assert(edge(sub, p[i], p[i + 1]));
            lemma_subgraph_edge(big, sub, p[i], p[i + 1]);
        }
        assert(connects(big, s, p, a, b));
    }
    if reach(big, s, a, b) {
        let p = choose|p: Seq<Seq<bool>>| connects(big, s, p, a, b);
        assert forall|i: int| 0 <= i < p.len() - 1 implies #[trigger] edge(sub, p[i], p[i + 1]) by {
            assert(edge(big, p[i], p[i + 1]));
            assert(s.contains(p[i]) && s.contains(p[i + 1]));
            lemma_subgraph_edge(big, sub, p[i], p[i + 1]);
        }
        assert(connects(sub, s, p, a, b));
    }
}

/// Members of one strongly connected component are connected by paths that
/// never leave the component.
pub proof fn lemma_scc_paths_inside(
    g: SymbolicAsyncGraph,
    s: Set<Seq<bool>>,
    x: Seq<bool>,
    a: Seq<bool>,
    b: Seq<bool>,
)
    requires
        scc_at(g, s, x).contains(a),
        scc_at(g, s, x).contains(b),
    ensures
        reach(g, scc_at(g, s, x), a, b),
{
    let c = scc_at(g, s, x);
    lemma_reach_trans(g, s, a, x, b);
    let p = choose|p: Seq<Seq<bool>>| connects(g, s, p, a, b);
    assert forall|i: int| 0 <= i < p.len() implies c.contains(#[trigger] p[i]) by {
        lemma_connects_split(g, s, p, a, b, i);
        // x -> a -> p[i] and p[i] -> b -> x
        lemma_reach_trans(g, s, x, a, p[i]);
        lemma_reach_trans(g, s, p[i], b, x);
    }
    assert(connects(g, c, p, a, b));
}

pub proof fn lemma_subgraph_trans(
    g: SymbolicAsyncGraph,
    m: SymbolicAsyncGraph,
    h: SymbolicAsyncGraph,
)
    requires
        is_subgraph(g, m),
        is_subgraph(m, h),
    ensures
        is_subgraph(g, h),
{
    assert forall|v: int, a: Seq<bool>, b: Seq<bool>| #[trigger] var_edge(h, v, a, b) implies (
    var_edge(g, v, a, b) && graph_universe(h).contains(a) && graph_universe(h).contains(b)) by {
        assert(var_edge(m, v, a, b));
    }
    assert forall|v: int, a: Seq<bool>, b: Seq<bool>|
        var_edge(g, v, a, b) && graph_universe(h).contains(a) && graph_universe(h).contains(
        b,
    ) implies #[trigger] var_edge(h, v, a, b) by {
        assert(var_edge(m, v, a, b));
    }
}

pub proof fn lemma_subgraph_closed(g: SymbolicAsyncGraph, h: SymbolicAsyncGraph)
    requires
        is_subgraph(g, h),
    ensures
        closed_graph(h),
{
    assert forall|a: Seq<bool>, b: Seq<bool>| #[trigger] edge(h, a, b) implies graph_universe(
        h,
    ).contains(a) && graph_universe(h).contains(b) by {
        let v = choose|v: int| 0 <= v < graph_width(h) && #[trigger] var_edge(h, v, a, b);
    }
}

/// A state of a non-trivial component lies on a cycle within `s`.
pub proof fn lemma_nontrivial_cyc(g: SymbolicAsyncGraph, s: Set<Seq<bool>>, x: Seq<bool>)
    requires
        nontrivial_at(g, s, x),
    ensures
        cyc_member(g, s, x),
{
    let y = choose|y: Seq<bool>| y != x && #[trigger] reach(g, s, x, y) && reach(g, s, y, x);
    let p = choose|p: Seq<Seq<bool>>| connects(g, s, p, x, y);
    assert(p.len() >= 2);
    let k: int = 0;
    assert(edge(g, p[k], p[k + 1]));
    lemma_connects_split(g, s, p, x, y, 1);
    lemma_reach_trans(g, s, p[1], y, x);
    assert(s.contains(p[1]));
    assert(cyc_member(g, s, x));
}

/// A whole non-trivial component of `g` that sits inside a set `s` of a
/// restriction `h` lies on cycles of `h` within `s`.
pub proof fn lemma_scc_cyc_in(
    g: SymbolicAsyncGraph,
    h: SymbolicAsyncGraph,
    s: Set<Seq<bool>>,
    x: Seq<bool>,
)
    requires
        is_subgraph(g, h),
        s.subset_of(graph_universe(h)),
        nontrivial_at(g, graph_universe(g), x),
        scc_at(g, graph_universe(g), x).subset_of(s),
    ensures
        cyc_member(h, s, x),
{
    let u = graph_universe(g);
    let c = scc_at(g, u, x);
    let y = choose|y: Seq<bool>| y != x && #[trigger] reach(g, u, x, y) && reach(g, u, y, x);
    lemma_reach_in_set(g, u, x, y);
    lemma_reach_refl(g, u, x);
    assert(c.contains(x));
    assert(c.contains(y));
    lemma_scc_paths_inside(g, u, x, x, y);
    let q = choose|q: Seq<Seq<bool>>| connects(g, c, q, x, y);
    assert(q.len() >= 2);
    let k: int = 0;
    assert(edge(g, q[k], q[k + 1]));
    let z = q[1];
    assert(c.contains(q[1]));
    lemma_subgraph_edge(g, h, x, z);
    assert(edge(h, x, z));
    lemma_connects_split(g, c, q, x, y, 1);
    lemma_scc_paths_inside(g, u, x, y, x);
    lemma_reach_trans(g, c, z, y, x);
    lemma_reach_monotone(g, c, s, z, x);
    lemma_subgraph_reach(g, h, s, z, x);
    assert(cyc_member(h, s, x));
}

/// The sizes of two disjoint finite sets add up.
pub proof fn lemma_disjoint_union_len(a: Set<Seq<bool>>, b: Set<Seq<bool>>)
    requires
        a.finite(),
        b.finite(),
        a.disjoint(b),
    ensures
        a.union(b).len() == a.len() + b.len(),
    decreases b.len(),
{
    if b.is_empty() {
        assert(a.union(b) =~= a);
    } else {
        let e = b.choose();
        assert(b.contains(e));
        let b2 = b.remove(e);
        lemma_disjoint_union_len(a, b2);
        assert(a.union(b) =~= a.union(b2).insert(e));
        assert(!a.union(b2).contains(e));
    }
}

/// Every member of a non-trivial component is itself non-trivial, with the
/// same component.
pub proof fn lemma_component_member(
    g: SymbolicAsyncGraph,
    s: Set<Seq<bool>>,
    x: Seq<bool>,
    y: Seq<bool>,
)
    requires
        nontrivial_at(g, s, x),
        scc_at(g, s, x).contains(y),
    ensures
        nontrivial_at(g, s, y),
        scc_at(g, s, y) == scc_at(g, s, x),
{
    lemma_scc_same(g, s, x, y);
    if y == x {
    } else {
        assert(reach(g, s, y, x) && reach(g, s, x, y));
        assert(nontrivial_at(g, s, y));
    }
}

/// Two states of one component determine the same component.
pub proof fn lemma_scc_same(g: SymbolicAsyncGraph, s: Set<Seq<bool>>, x: Seq<bool>, y: Seq<bool>)
    requires
        scc_at(g, s, x).contains(y),
    ensures
        scc_at(g, s, y) == scc_at(g, s, x),
{
    assert forall|z: Seq<bool>| #![auto] scc_at(g, s, y).contains(z) implies scc_at(
        g,
        s,
        x,
    ).contains(z) by {
        lemma_reach_trans(g, s, x, y, z);
        lemma_reach_trans(g, s, z, y, x);
    }
    assert forall|z: Seq<bool>| #![auto] scc_at(g, s, x).contains(z) implies scc_at(
        g,
        s,
        y,
    ).contains(z) by {
        lemma_reach_trans(g, s, y, x, z);
        lemma_reach_trans(g, s, z, x, y);
    }
    assert(scc_at(g, s, y) =~= scc_at(g, s, x));
}


/// The whole universe is closed under components: members of a component
/// are endpoints of paths inside the universe.
pub proof fn lemma_scc_closed_full(g: SymbolicAsyncGraph)
    ensures
        scc_closed(g, graph_universe(g)),
{
    let u = graph_universe(g);
    assert forall|x: Seq<bool>|
        u.contains(x) && #[trigger] nontrivial_at(g, u, x) implies scc_at(g, u, x).subset_of(
        u,
    ) by {
        assert forall|y: Seq<bool>| #[trigger] scc_at(g, u, x).contains(y) implies u.contains(
            y,
        ) by {
            lemma_reach_in_set(g, u, x, y);
        }
    }
}

} // verus!
