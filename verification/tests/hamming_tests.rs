use biodivine_lib_param_bn::biodivine_std::traits::Set as _;
use biodivine_lib_param_bn::symbolic_async_graph::SymbolicAsyncGraph;
use biodivine_lib_param_bn::BooleanNetwork;

use cejn::hamming::ham_furthest_within;

fn basic_async_graph() -> SymbolicAsyncGraph {
    let bool_network = BooleanNetwork::try_from(
        r#"
            A -| A
            B -> B
            $A: !A
            $B: B
            "#,
    ) // the exact network does not matter; just the presence of the states
    .unwrap();
    SymbolicAsyncGraph::new(&bool_network).unwrap()
}

#[test]
fn test_ham_furthest_within() {
    let async_graph = basic_async_graph();

    let (var_a, var_b) = {
        let mut vars = async_graph.variables();
        let var_a = vars.next().unwrap();
        let var_b = vars.next().unwrap();
        assert!(vars.next().is_none());
        (var_a, var_b)
    };

    let unit_set = async_graph.unit_colored_vertices().to_owned();

    let a_true = unit_set.fix_network_variable(var_a, true);
    let b_true = unit_set.fix_network_variable(var_b, true);
    let a_false = unit_set.fix_network_variable(var_a, false);
    let b_false = unit_set.fix_network_variable(var_b, false);

    let false_false = a_false.intersect(&b_false);
    let false_true = a_false.intersect(&b_true);
    let true_false = a_true.intersect(&b_false);
    let true_true = a_true.intersect(&b_true);

    // must choose the single one
    assert_eq!(ham_furthest_within(&false_false, &true_true), true_true);
    assert_eq!(ham_furthest_within(&false_false, &true_false), true_false);
    assert_eq!(ham_furthest_within(&false_false, &false_true), false_true);
    assert_eq!(ham_furthest_within(&false_false, &false_false), false_false);

    // must choose the most distant one - all negated
    assert_eq!(ham_furthest_within(&false_false, &unit_set), true_true);
    assert_eq!(ham_furthest_within(&false_true, &unit_set), true_false);
    assert_eq!(ham_furthest_within(&true_false, &unit_set), false_true);
    assert_eq!(ham_furthest_within(&true_true, &unit_set), false_false);
}

#[test]
fn test_unit_set() {
    let async_graph = basic_async_graph();

    let valuations = async_graph
        .unit_colored_vertices()
        .as_bdd()
        .sat_valuations()
        .collect::<Vec<_>>();

    println!("{:?}", valuations);
}
