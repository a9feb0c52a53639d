//! Hamming-distance pivot heuristic: among the states of a choice set, find
//! one furthest from a given pivot state, by a memoized bottom-up traversal
//! of the choice set's decision diagram.
use vstd::prelude::*;

use crate::dd::dd_accepts;
use crate::dd::dd_furthest;
use crate::dd::hamming_distance;
use crate::model::is_singleton_set;
use crate::model::ok_set;
use crate::model::state_width;
use crate::model::vertices_of;
use crate::symbolic::set_from_valuation;
use crate::symbolic::set_to_diagram;
use crate::symbolic::set_witness;
use biodivine_lib_param_bn::symbolic_async_graph::GraphColoredVertices;

verus! {

/// The member of `choice_set` with the greatest Hamming distance from the
/// single state of `pivot_set`, as a singleton set.
///
/// Only the cost of later reachability runs depends on this choice, never
/// the result of a decomposition.
pub fn ham_furthest_within(
    pivot_set: &GraphColoredVertices,
    choice_set: &GraphColoredVertices,
) -> (r: GraphColoredVertices)
    requires
        ok_set(*pivot_set),
        ok_set(*choice_set),
        state_width(*pivot_set) == state_width(*choice_set),
        is_singleton_set(vertices_of(*pivot_set)),
        !vertices_of(*choice_set).is_empty(),
    ensures
        ok_set(r),
        state_width(r) == state_width(*choice_set),
        is_singleton_set(vertices_of(r)),
        vertices_of(r).subset_of(vertices_of(*choice_set)),
        forall|u: Seq<bool>, w: Seq<bool>, p: Seq<bool>|
            #![trigger vertices_of(*choice_set).contains(u), vertices_of(r).contains(w), vertices_of(*pivot_set).contains(p)]
            vertices_of(*choice_set).contains(u) && vertices_of(r).contains(w) && vertices_of(
                *pivot_set,
            ).contains(p) ==> hamming_distance(u, p) <= hamming_distance(w, p),
{
    let ghost n = state_width(*choice_set);
    let bits = set_witness(pivot_set);
    let arena = set_to_diagram(choice_set);
    let ghost root = arena@.len() - 1;
    let found = dd_furthest(&arena, bits.len(), &bits);
    let best = match found {
        Option::Some(w) => w,
        Option::None => {
            proof {
                let val = vertices_of(*choice_set).choose();
                assert(vertices_of(*choice_set).contains(val));
                assert(val.len() == n);
                assert(dd_accepts(arena@, root, val));
                assert(false);
            }
            vstd::pervasive::unreached()
        },
    };
    proof {
        assert(dd_accepts(arena@, root, best@));
        assert(vertices_of(*choice_set).contains(best@));
    }
    let result = set_from_valuation(choice_set, &best);
    proof {
        assert forall|u: Seq<bool>, w: Seq<bool>, p: Seq<bool>|
            vertices_of(*choice_set).contains(u) && vertices_of(result).contains(w)
                && vertices_of(*pivot_set).contains(p) implies hamming_distance(u, p)
            <= hamming_distance(w, p) by {
            assert(p == bits@);
            assert(w == best@);
            assert(u.len() == n);
            assert(dd_accepts(arena@, root, u));
        }
    }
    result
}

} // verus!
