use std::collections::HashSet;

use biodivine_lib_param_bn::biodivine_std::traits::Set as _;
use biodivine_lib_param_bn::symbolic_async_graph::GraphColoredVertices;
use biodivine_lib_param_bn::symbolic_async_graph::SymbolicAsyncGraph;
use biodivine_lib_param_bn::BooleanNetwork;
use num_bigint::BigUint;

use cejn::chain::chain;
use cejn::chain::chain_saturation;
use cejn::chain::chain_saturation_hamming_heuristic;
use cejn::chain::TrimLvl;
use cejn::fwd_bwd::fwd_bwd_scc_decomposition_naive;
use cejn::fwd_bwd::fwd_bwd_scc_decomposition_naive_trim;
use cejn::fwd_bwd::fwd_bwd_scc_decomposition_saturation;
use cejn::fwd_bwd::fwd_bwd_scc_decomposition_saturation_trim;

fn basic_async_graph() -> SymbolicAsyncGraph {
    let bool_network = BooleanNetwork::try_from(
        r#"
            A -| A
            B -> B
            $A: !A
            $B: B
            "#,
    )
    .unwrap();
    SymbolicAsyncGraph::new(&bool_network).unwrap()
}

fn basic_decomposition<F>(decomposition_fn: F)
where
    F: Fn(SymbolicAsyncGraph) -> Vec<GraphColoredVertices>,
{
    let async_graph = basic_async_graph();
    let mut vars = async_graph.variables();
    let var_a = vars.next().unwrap();
    let var_b = vars.next().unwrap();
    assert!(vars.next().is_none());

    let unit_set = async_graph.unit_colored_vertices();

    let a_true = unit_set.fix_network_variable(var_a, true);
    let b_true = unit_set.fix_network_variable(var_b, true);
    let a_false = unit_set.fix_network_variable(var_a, false);
    let b_false = unit_set.fix_network_variable(var_b, false);

    assert_eq!(a_true.exact_cardinality(), BigUint::from(2u32));
    assert_eq!(b_true.exact_cardinality(), BigUint::from(2u32));
    assert_eq!(a_false.exact_cardinality(), BigUint::from(2u32));
    assert_eq!(b_false.exact_cardinality(), BigUint::from(2u32));

    let false_false = a_false.intersect(&b_false);
    let false_true = a_false.intersect(&b_true);
    let true_false = a_true.intersect(&b_false);
    let true_true = a_true.intersect(&b_true);

    assert_eq!(false_false.exact_cardinality(), BigUint::from(1u32));
    assert_eq!(false_true.exact_cardinality(), BigUint::from(1u32));
    assert_eq!(true_false.exact_cardinality(), BigUint::from(1u32));
    assert_eq!(true_true.exact_cardinality(), BigUint::from(1u32));

    let false_false_post = async_graph.post(&false_false);
    assert_eq!(false_false_post.exact_cardinality(), BigUint::from(1u32));
    assert_eq!(false_false_post, true_false);

    let a_false_post = async_graph.post(&a_false);
    assert_eq!(a_false_post.exact_cardinality(), BigUint::from(2u32));
    assert_eq!(a_false_post, a_true);

    // the chain part
    println!(
        "the colors: {:?}",
        async_graph.unit_colors().exact_cardinality()
    );

    let scc_vec = decomposition_fn(async_graph);

    assert_eq!(scc_vec.len(), 2);

    // one of the components is { (a=false, b=false), (a=true, b=false) }
    assert!(scc_vec.contains(&b_false));
    // the other is { (a=false, b=true), (a=true, b=true) }
    assert!(scc_vec.contains(&b_true));
}

#[test]
fn chain_test() {
    basic_decomposition(|graph| chain(graph, TrimLvl::Off));
}

#[test]
fn chain_saturation_test() {
    basic_decomposition(chain_saturation);
}

#[test]
fn chain_saturation_hamming_heuristic_test() {
    basic_decomposition(chain_saturation_hamming_heuristic);
}

#[test]
fn compare_chain_fwd_bwd_basic_graph() {
    let async_graph = basic_async_graph();

    let chain_scc_set = chain(async_graph.clone(), TrimLvl::Off)
        .into_iter()
        .collect::<HashSet<_>>();
    let fwd_bwd_scc_set = fwd_bwd_scc_decomposition_naive(&async_graph)
        .into_iter()
        .collect::<HashSet<_>>();

    assert_eq!(chain_scc_set, fwd_bwd_scc_set);
}

// The component set must not depend on the strategy: layered, saturation,
// saturation with the Hamming heuristic, and the four reference
// decompositions must all agree.
#[test]
fn compare_all_strategies() {
    let async_graph = basic_async_graph();

    let reference = fwd_bwd_scc_decomposition_naive(&async_graph)
        .into_iter()
        .collect::<HashSet<_>>();

    let results = vec![
        chain(async_graph.clone(), TrimLvl::Off),
        chain(async_graph.clone(), TrimLvl::StartOnly),
        chain(async_graph.clone(), TrimLvl::Full),
        chain_saturation(async_graph.clone()),
        chain_saturation_hamming_heuristic(async_graph.clone()),
        fwd_bwd_scc_decomposition_naive_trim(&async_graph),
        fwd_bwd_scc_decomposition_saturation(&async_graph),
        fwd_bwd_scc_decomposition_saturation_trim(&async_graph),
    ];
    for sccs in results {
        let as_set = sccs.into_iter().collect::<HashSet<_>>();
        assert_eq!(as_set, reference);
    }
}

// An acyclic state-transition graph (a linear chain of states) decomposes
// into no components at all.
#[test]
fn acyclic_graph_decomposes_to_nothing() {
    let bool_network = BooleanNetwork::try_from(
        r#"
            A -> B
            B -> C
            $A: true
            $B: A
            $C: B
            "#,
    )
    .unwrap();
    let graph = SymbolicAsyncGraph::new(&bool_network).unwrap();

    assert!(chain(graph.clone(), TrimLvl::Off).is_empty());
    assert!(chain(graph.clone(), TrimLvl::StartOnly).is_empty());
    assert!(chain(graph.clone(), TrimLvl::Full).is_empty());
    assert!(chain_saturation(graph.clone()).is_empty());
    assert!(chain_saturation_hamming_heuristic(graph.clone()).is_empty());
    assert!(fwd_bwd_scc_decomposition_naive(&graph).is_empty());
    assert!(fwd_bwd_scc_decomposition_saturation_trim(&graph).is_empty());
}

// Trim monotonicity: full trimming yields a subset of start-only trimming,
// which yields a subset of no trimming.
#[test]
fn trimming_levels_are_monotone() {
    let bool_network = BooleanNetwork::try_from(
        r#"
            A -| A
            B -> B
            A -> C
            C -> C
            $A: !A
            $B: B
            $C: A | C
            "#,
    )
    .unwrap();
    let graph = SymbolicAsyncGraph::new(&bool_network).unwrap();

    let sccs_no_trim = chain(graph.clone(), TrimLvl::Off)
        .into_iter()
        .collect::<HashSet<_>>();
    let sccs_single_trim = chain(graph.clone(), TrimLvl::StartOnly)
        .into_iter()
        .collect::<HashSet<_>>();
    let sccs_full_trim = chain(graph, TrimLvl::Full).into_iter().collect::<HashSet<_>>();

    assert!(sccs_single_trim.is_subset(&sccs_no_trim));
    assert!(sccs_full_trim.is_subset(&sccs_single_trim));
}

// Structural validity: emitted components are pairwise disjoint and none of
// them is a single state.
#[test]
fn components_disjoint_and_nontrivial() {
    let async_graph = basic_async_graph();
    let sccs = chain(async_graph, TrimLvl::Off);
    assert_eq!(sccs.len(), 2);
    for scc in sccs.iter() {
        assert!(!scc.is_singleton());
        assert!(scc.exact_cardinality() >= BigUint::from(2u32));
    }
    for (i, a) in sccs.iter().enumerate() {
        for (j, b) in sccs.iter().enumerate() {
            if i != j {
                assert!(a.intersect(b).is_empty());
            }
        }
    }
}

// The full decomposition partitions the whole universe, trivial components
// included.
#[test]
fn full_partition_covers_every_state() {
    let graph = basic_async_graph();
    let parts = cejn::fwd_bwd::scc_decomposition(&graph);
    assert_eq!(parts.len(), 2);
    let mut union = graph.mk_empty_colored_vertices();
    for part in &parts {
        assert!(union.intersect(part).is_empty());
        union = union.union(part);
    }
    assert_eq!(&union, graph.unit_colored_vertices());

    let acyclic = BooleanNetwork::try_from(
        r#"
            A -> B
            $A: true
            $B: A
            "#,
    )
    .unwrap();
    let graph = SymbolicAsyncGraph::new(&acyclic).unwrap();
    let parts = cejn::fwd_bwd::scc_decomposition(&graph);
    // four states, all in trivial components of their own
    assert_eq!(parts.len(), 4);
    for part in &parts {
        assert!(part.is_singleton());
    }
}
