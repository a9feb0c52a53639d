//! An arena view of a binary decision diagram, and the dynamic-programming
//! search for the stored valuation that is furthest (in Hamming distance)
//! from a given pivot valuation.
//!
//! The diagram is an array of nodes. Index 0 is the rejecting terminal,
//! index 1 the accepting terminal, and the last node is the root. A decision
//! node branches on one variable and points to two earlier nodes; variables
//! strictly increase from a node to its children (terminals carry the
//! variable count as a sentinel).
use vstd::prelude::*;

verus! {

/// One node of the diagram arena.
pub struct DdNode {
    /// Index of the decision variable (the variable count for terminals).
    pub var: usize,
    /// Arena index of the child followed when the variable is false.
    pub low: usize,
    /// Arena index of the child followed when the variable is true.
    pub high: usize,
}

/// The decision level of node `i`: its variable, or `n` for terminals.
pub open spec fn dd_level(nodes: Seq<DdNode>, i: int) -> nat {
    nodes[i].var as nat
}

/// Structural well-formedness of an arena over `n` variables: terminals at
/// indices 0 and 1 carry the sentinel level `n`; every decision node points
/// to strictly earlier nodes of strictly larger level.
pub open spec fn dd_wf(nodes: Seq<DdNode>, n: nat) -> bool {
    &&& nodes.len() >= 1
    &&& forall|i: int|
        0 <= i < nodes.len() && i <= 1 ==> (#[trigger] nodes[i]).var == n
    &&& forall|i: int|
        2 <= i < nodes.len() ==> {
            &&& (#[trigger] nodes[i]).var < n
            &&& nodes[i].low < i
            &&& nodes[i].high < i
            &&& nodes[nodes[i].low as int].var > nodes[i].var
            &&& nodes[nodes[i].high as int].var > nodes[i].var
        }
}

/// Whether the valuation `val` is accepted when the diagram is entered at
/// node `i`: follow the branch chosen by each decision variable until a
/// terminal decides.
pub open spec fn dd_accepts(nodes: Seq<DdNode>, i: int, val: Seq<bool>) -> bool
    decreases i,
{
    if i == 1 {
        true
    } else if i <= 0 || i >= nodes.len() {
        false
    } else {
        let nd = nodes[i];
        let c = if nd.var < val.len() && val[nd.var as int] {
            nd.high as int
        } else {
            nd.low as int
        };
        if 0 <= c < i {
            dd_accepts(nodes, c, val)
        } else {
            false
        }
    }
}

/// Number of positions `j` with `k <= j < a.len()` where `a` and `b`
/// disagree.
pub open spec fn ham_from(a: Seq<bool>, b: Seq<bool>, k: int) -> nat
    decreases a.len() - k,
{
    if k < 0 || k >= a.len() {
        0
    } else {
        (if k < b.len() && a[k] != b[k] {
            1nat
        } else {
            0nat
        }) + ham_from(a, b, k + 1)
    }
}

/// Number of variables on which two equally long valuations disagree.
pub open spec fn hamming_distance(a: Seq<bool>, b: Seq<bool>) -> nat {
    ham_from(a, b, 0)
}


// ---------------------------------------------------------------------------
// Facts about disagreement counts and acceptance.
// ---------------------------------------------------------------------------

/// The count from `k` only reads positions at or after `k`.
pub proof fn lemma_ham_from_agree(a1: Seq<bool>, a2: Seq<bool>, b: Seq<bool>, k: int)
    requires
        a1.len() == a2.len(),
        forall|j: int| k <= j < a1.len() ==> a1[j] == a2[j],
    ensures
        ham_from(a1, b, k) == ham_from(a2, b, k),
    decreases a1.len() - k,
{
    if 0 <= k < a1.len() {
        lemma_ham_from_agree(a1, a2, b, k + 1);
    }
}

/// At most one disagreement per remaining position.
pub proof fn lemma_ham_from_le(a: Seq<bool>, b: Seq<bool>, k: int)
    requires
        0 <= k <= a.len(),
    ensures
        ham_from(a, b, k) <= a.len() - k,
    decreases a.len() - k,
{
    if k < a.len() {
        lemma_ham_from_le(a, b, k + 1);
    }
}

/// Counting from `k1` adds at most one per position before `k2`.
pub proof fn lemma_ham_from_split(a: Seq<bool>, b: Seq<bool>, k1: int, k2: int)
    requires
        0 <= k1 <= k2 <= a.len(),
    ensures
        ham_from(a, b, k1) <= (k2 - k1) + ham_from(a, b, k2),
    decreases k2 - k1,
{
    if k1 < k2 {
        lemma_ham_from_split(a, b, k1 + 1, k2);
    }
}

/// When every position before `k2` disagrees, the count from `k1` is exactly
/// the width of that span plus the rest.
pub proof fn lemma_ham_from_split_exact(a: Seq<bool>, b: Seq<bool>, k1: int, k2: int)
    requires
        0 <= k1 <= k2 <= a.len(),
        b.len() == a.len(),
        forall|j: int| k1 <= j < k2 ==> a[j] != b[j],
    ensures
        ham_from(a, b, k1) == (k2 - k1) + ham_from(a, b, k2),
    decreases k2 - k1,
{
    if k1 < k2 {
        lemma_ham_from_split_exact(a, b, k1 + 1, k2);
    }
}

/// Acceptance at a node only reads the variables at or below the node's
/// level.
pub proof fn lemma_dd_accepts_agree(
    nodes: Seq<DdNode>,
    n: nat,
    i: int,
    a1: Seq<bool>,
    a2: Seq<bool>,
)
    requires
        dd_wf(nodes, n),
        0 <= i < nodes.len(),
        a1.len() == n,
        a2.len() == n,
        forall|j: int| dd_level(nodes, i) <= j < n ==> a1[j] == a2[j],
    ensures
        dd_accepts(nodes, i, a1) == dd_accepts(nodes, i, a2),
    decreases i,
{
    if i >= 2 {
        let nd = nodes[i];
        assert(a1[nd.var as int] == a2[nd.var as int]);
        let c: int = if a1[nd.var as int] {
            nd.high as int
        } else {
            nd.low as int
        };
        assert(dd_level(nodes, c) > nd.var);
        lemma_dd_accepts_agree(nodes, n, c, a1, a2);
    }
}

// ---------------------------------------------------------------------------
// The memoized search.
// ---------------------------------------------------------------------------

/// What one cache slot says about its node: no valuation is accepted there,
/// or the stored valuation is accepted and its disagreement count below the
/// node's level is the best achievable.
pub open spec fn entry_ok(
    nodes: Seq<DdNode>,
    n: nat,
    piv: Seq<bool>,
    j: int,
    e: Option<(Vec<bool>, usize)>,
) -> bool {
    match e {
        Option::None => forall|u: Seq<bool>|
            u.len() == n ==> !#[trigger] dd_accepts(nodes, j, u),
        Option::Some(p) => {
            &&& p.0@.len() == n
            &&& dd_accepts(nodes, j, p.0@)
            &&& p.1 as nat == ham_from(p.0@, piv, dd_level(nodes, j) as int)
            &&& forall|u: Seq<bool>|
                u.len() == n && #[trigger] dd_accepts(nodes, j, u) ==> ham_from(
                    u,
                    piv,
                    dd_level(nodes, j) as int,
                ) <= p.1 as nat
        },
    }
}

/// What one branch candidate at a decision node says: best over the
/// valuations that take this branch.
pub open spec fn branch_ok(
    nodes: Seq<DdNode>,
    n: nat,
    piv: Seq<bool>,
    i: int,
    value: bool,
    e: Option<(Vec<bool>, usize)>,
) -> bool {
    match e {
        Option::None => forall|u: Seq<bool>|
            u.len() == n && u[nodes[i].var as int] == value ==> !#[trigger] dd_accepts(
                nodes,
                i,
                u,
            ),
        Option::Some(p) => {
            &&& p.0@.len() == n
            &&& p.0@[nodes[i].var as int] == value
            &&& dd_accepts(nodes, i, p.0@)
            &&& p.1 as nat == ham_from(p.0@, piv, nodes[i].var as int)
            &&& forall|u: Seq<bool>|
                u.len() == n && u[nodes[i].var as int] == value && #[trigger] dd_accepts(
                    nodes,
                    i,
                    u,
                ) ==> ham_from(u, piv, nodes[i].var as int) <= p.1 as nat
        },
    }
}

/// Lift the solved child entry of one branch to the decision node: fix the
/// branch variable, and set every variable skipped between the node and the
/// child opposite to the pivot, each skipped variable adding one guaranteed
/// point of distance.
fn extend_entry(
    nodes: &Vec<DdNode>,
    n: usize,
    piv: &Vec<bool>,
    i: usize,
    value: bool,
    e: &Option<(Vec<bool>, usize)>,
) -> (r: Option<(Vec<bool>, usize)>)
    requires
        dd_wf(nodes@, n as nat),
        piv@.len() == n,
        2 <= i < nodes@.len(),
        entry_ok(
            nodes@,
            n as nat,
            piv@,
            (if value {
                nodes@[i as int].high
            } else {
                nodes@[i as int].low
            }) as int,
            *e,
        ),
    ensures
        branch_ok(nodes@, n as nat, piv@, i as int, value, r),
{
    let v = nodes[i].var;
    let child = if value {
        nodes[i].high
    } else {
        nodes[i].low
    };
    let ghost c = child as int;
    proof {
        assert(nodes@[c].var > v);
    }
    match e {
        Option::None => {
            proof {
                assert forall|u: Seq<bool>|
                    u.len() == n && u[nodes@[i as int].var as int] == value implies !#[trigger] dd_accepts(
                    nodes@,
                    i as int,
                    u,
                ) by {
                    if dd_accepts(nodes@, i as int, u) {
                        assert(dd_accepts(nodes@, c, u));
                    }
                }
            }
            Option::None
        },
        Option::Some(p) => {
            let child_lvl = nodes[child].var;
            let ghost wc = p.0@;
            let dc = p.1;
            let mut w = p.0.clone();
            proof {
                assert(wc.len() == n);
                assert(v < n);
            }
            w[v] = value;
            let mut k = v + 1;
            while k < child_lvl
                invariant
                    v < k <= child_lvl <= n,
                    piv@.len() == n,
                    w@.len() == n,
                    wc.len() == n,
                    w@[v as int] == value,
                    forall|j: int| v < j < k ==> w@[j] == !piv@[j],
                    forall|j: int| 0 <= j < v ==> w@[j] == wc[j],
                    forall|j: int| k <= j < n ==> w@[j] == wc[j],
                decreases child_lvl - k,
            {
                let flip = !piv[k];
                w[k] = flip;
                k += 1;
            }
            let bonus: usize = if piv[v] != value {
                1
            } else {
                0
            };
            proof {
                lemma_ham_from_le(wc, piv@, child_lvl as int);
            }
            let d = dc + bonus + (child_lvl - v - 1);
            proof {
                // The lifted valuation is accepted: it takes this branch and
                // agrees with the child's valuation below the child's level.
                lemma_dd_accepts_agree(nodes@, n as nat, c, w@, wc);
                assert(dd_accepts(nodes@, c, w@));
                assert(dd_accepts(nodes@, i as int, w@));
                // Its distance is exactly the child's plus the branch bonus
                // plus one per skipped variable.
                lemma_ham_from_agree(w@, wc, piv@, child_lvl as int);
                lemma_ham_from_split_exact(w@, piv@, v + 1, child_lvl as int);
                assert(ham_from(w@, piv@, v as int) == (if w@[v as int] != piv@[v as int] {
                    1nat
                } else {
                    0nat
                }) + ham_from(w@, piv@, v + 1));
                assert(ham_from(w@, piv@, v as int) == bonus + (child_lvl - v - 1) + dc);
                // No valuation taking this branch can do better.
                assert forall|u: Seq<bool>|
                    u.len() == n && u[nodes@[i as int].var as int] == value
                        && #[trigger] dd_accepts(nodes@, i as int, u) implies ham_from(
                    u,
                    piv@,
                    nodes@[i as int].var as int,
                ) <= d as nat by {
                    assert(dd_accepts(nodes@, c, u));
                    lemma_ham_from_split(u, piv@, v + 1, child_lvl as int);
                    assert(ham_from(u, piv@, child_lvl as int) <= dc as nat);
                    assert(ham_from(u, piv@, v as int) == (if u[v as int] != piv@[v as int] {
                        1nat
                    } else {
                        0nat
                    }) + ham_from(u, piv@, v + 1));
                }
            }
            Option::Some((w, d))
        },
    }
}

/// Find a stored valuation of the diagram with the greatest Hamming
/// distance from the pivot valuation, by one bottom-up pass over the arena
/// with a memo entry per node.
#[verifier::rlimit(60)]
pub fn dd_furthest(nodes: &Vec<DdNode>, n: usize, piv: &Vec<bool>) -> (r: Option<Vec<bool>>)
    requires
        dd_wf(nodes@, n as nat),
        piv@.len() == n,
    ensures
        (r matches Option::None ==> forall|u: Seq<bool>|
            u.len() == n ==> !#[trigger] dd_accepts(nodes@, nodes@.len() - 1, u)),
        (r matches Option::Some(w) ==> w@.len() == n && dd_accepts(nodes@, nodes@.len() - 1, w@)
            && forall|u: Seq<bool>|
            u.len() == n && #[trigger] dd_accepts(nodes@, nodes@.len() - 1, u)
                ==> hamming_distance(u, piv@) <= hamming_distance(w@, piv@)),
{
    let mut cache: Vec<Option<(Vec<bool>, usize)>> = Vec::new();
    cache.push(Option::None);
    proof {
        assert(entry_ok(nodes@, n as nat, piv@, 0, cache@[0]));
    }
    if nodes.len() >= 2 {
        let base = piv.clone();
        cache.push(Option::Some((base, 0)));
        proof {
            assert(dd_level(nodes@, 1) == n);
            assert(ham_from(piv@, piv@, n as int) == 0);
            assert forall|u: Seq<bool>| u.len() == n && #[trigger] dd_accepts(nodes@, 1, u)
                implies ham_from(u, piv@, n as int) <= 0nat by {}
            assert(entry_ok(nodes@, n as nat, piv@, 1, cache@[1]));
        }
    }
    let mut i: usize = 2;
    while i < nodes.len()
        invariant
            dd_wf(nodes@, n as nat),
            piv@.len() == n,
            2 <= i,
            nodes@.len() >= 2 ==> i <= nodes@.len() && cache@.len() == i,
            nodes@.len() < 2 ==> cache@.len() == 1,
            forall|j: int| 0 <= j < cache@.len() ==> entry_ok(nodes@, n as nat, piv@, j, #[trigger] cache@[j]),
        decreases nodes@.len() - i,
    {
        let low = nodes[i].low;
        let high = nodes[i].high;
        proof {
            assert(nodes@[i as int].low < i && nodes@[i as int].high < i);
        }
        let el = extend_entry(nodes, n, piv, i, false, &cache[low]);
        let eh = extend_entry(nodes, n, piv, i, true, &cache[high]);
        let best: Option<(Vec<bool>, usize)> = match (el, eh) {
            (Option::None, Option::None) => Option::None,
            (Option::Some(l), Option::None) => Option::Some(l),
            (Option::None, Option::Some(h)) => Option::Some(h),
            (Option::Some(l), Option::Some(h)) => {
                if l.1 < h.1 {
                    Option::Some(h)
                } else {
                    Option::Some(l)
                }
            },
        };
        proof {
            // Case split: every accepted valuation takes one of the two
            // branches, and each branch candidate dominates its side.
            assert forall|u: Seq<bool>|
                u.len() == n && #[trigger] dd_accepts(nodes@, i as int, u) implies (u[nodes@[i as int].var as int]
                == true || u[nodes@[i as int].var as int] == false) by {}
            assert(entry_ok(nodes@, n as nat, piv@, i as int, best));
        }
        cache.push(best);
        i += 1;
    }
    let root = nodes.len() - 1;
    let entry = match &cache[root] {
        Option::None => {
            return Option::None;
        },
        Option::Some(p) => (p.0.clone(), p.1),
    };
    let (mut w, d) = entry;
    let root_lvl = nodes[root].var;
    let ghost w0 = w@;
    let mut k: usize = 0;
    while k < root_lvl
        invariant
            k <= root_lvl <= n,
            piv@.len() == n,
            w@.len() == n,
            w0.len() == n,
            forall|j: int| 0 <= j < k ==> w@[j] == !piv@[j],
            forall|j: int| k <= j < n ==> w@[j] == w0[j],
        decreases root_lvl - k,
    {
        let flip = !piv[k];
        w[k] = flip;
        k += 1;
    }
    proof {
        let rt = nodes@.len() - 1;
        lemma_dd_accepts_agree(nodes@, n as nat, rt, w@, w0);
        lemma_ham_from_agree(w@, w0, piv@, root_lvl as int);
        lemma_ham_from_split_exact(w@, piv@, 0, root_lvl as int);
        assert(hamming_distance(w@, piv@) == root_lvl + d);
        assert forall|u: Seq<bool>|
            u.len() == n && #[trigger] dd_accepts(nodes@, rt, u) implies hamming_distance(u, piv@)
            <= hamming_distance(w@, piv@) by {
            lemma_ham_from_split(u, piv@, 0, root_lvl as int);
            assert(ham_from(u, piv@, root_lvl as int) <= d as nat);
        }
    }
    Option::Some(w)
}

} // verus!
