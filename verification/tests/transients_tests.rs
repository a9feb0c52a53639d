use biodivine_lib_param_bn::biodivine_std::traits::Set as _;
use biodivine_lib_param_bn::symbolic_async_graph::SymbolicAsyncGraph;
use biodivine_lib_param_bn::BooleanNetwork;

use cejn::transients::enclosing_subspace;
use cejn::transients::is_long_lived;
use cejn::transients::is_subspace;
use cejn::transients::is_trapped;
use cejn::transients::is_universally_transient;
use cejn::transients::ExtBool;

fn basic_async_graph() -> SymbolicAsyncGraph {
    let bool_network = BooleanNetwork::try_from(
        r#"
            A -| A
            B -> B
            $A: !A
            $B: B
            "#,
    )
    .unwrap();
    SymbolicAsyncGraph::new(&bool_network).unwrap()
}

#[test]
fn trapped_and_long_lived_sets() {
    let graph = basic_async_graph();
    let mut vars = graph.variables();
    let var_a = vars.next().unwrap();
    let var_b = vars.next().unwrap();

    let unit = graph.unit_colored_vertices();
    let a_false = unit.fix_network_variable(var_a, false);
    let b_false = unit.fix_network_variable(var_b, false);
    let b_true = unit.fix_network_variable(var_b, true);

    // B never changes, so each half-space on B is a trap; A oscillates
    // inside it, so neither is universally transient.
    assert!(is_trapped(&graph, &b_false));
    assert!(is_trapped(&graph, &b_true));
    assert!(is_long_lived(&graph, &b_false));
    assert!(!is_universally_transient(&graph, &b_true));

    // Every state with A=false leaves that set by updating A.
    assert!(!is_trapped(&graph, &a_false));
    assert!(is_universally_transient(&graph, &a_false));
    assert!(!is_long_lived(&graph, &a_false));

    // The whole universe is trivially a trap.
    assert!(is_trapped(&graph, unit));
}

#[test]
fn enclosing_subspace_per_variable() {
    let graph = basic_async_graph();
    let mut vars = graph.variables();
    let var_a = vars.next().unwrap();
    let var_b = vars.next().unwrap();

    let unit = graph.unit_colored_vertices();
    let b_false = unit.fix_network_variable(var_b, false);
    let b_true = unit.fix_network_variable(var_b, true);
    let corner = b_true.fix_network_variable(var_a, true);

    assert_eq!(enclosing_subspace(&graph, unit), vec![ExtBool::Any, ExtBool::Any]);
    assert_eq!(
        enclosing_subspace(&graph, &b_false),
        vec![ExtBool::Any, ExtBool::Zero]
    );
    assert_eq!(
        enclosing_subspace(&graph, &corner),
        vec![ExtBool::One, ExtBool::One]
    );

    let sub_corner = enclosing_subspace(&graph, &corner);
    let sub_b_true = enclosing_subspace(&graph, &b_true);
    let sub_unit = enclosing_subspace(&graph, unit);
    assert!(is_subspace(&sub_corner, &sub_b_true));
    assert!(is_subspace(&sub_b_true, &sub_unit));
    assert!(!is_subspace(&sub_b_true, &sub_corner));
    assert!(is_subspace(&sub_corner, &sub_corner));
}
