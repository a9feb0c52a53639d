use std::collections::HashMap;

use biodivine_lib_param_bn::biodivine_std::traits::Set as _;
use biodivine_lib_param_bn::symbolic_async_graph::SymbolicAsyncGraph;
use biodivine_lib_param_bn::BooleanNetwork;
use biodivine_lib_param_bn::Monotonicity;
use biodivine_lib_param_bn::Regulation;
use biodivine_lib_param_bn::RegulatoryGraph;

use cejn::succession_diagrams::SdEntry;

#[test]
fn lib_param_bn_tryout() -> Result<(), String> {
    let mut rg = RegulatoryGraph::new(vec!["A".into(), "B".into(), "C".into()]);
    rg.add_raw_regulation(Regulation {
        regulator: rg.find_variable("A").unwrap(),
        target: rg.find_variable("B").unwrap(),
        observable: true,
        monotonicity: Some(Monotonicity::Activation),
    })?;
    rg.add_raw_regulation(Regulation {
        regulator: rg.find_variable("B").unwrap(),
        target: rg.find_variable("C").unwrap(),
        observable: true,
        monotonicity: Some(Monotonicity::Activation),
    })?;
    rg.add_raw_regulation(Regulation {
        regulator: rg.find_variable("C").unwrap(),
        target: rg.find_variable("A").unwrap(),
        observable: true,
        monotonicity: Some(Monotonicity::Activation),
    })?;
    rg.add_raw_regulation(Regulation {
        regulator: rg.find_variable("C").unwrap(),
        target: rg.find_variable("B").unwrap(),
        observable: false,
        monotonicity: Some(Monotonicity::Inhibition),
    })?;

    let some_id = rg.find_variable("A").unwrap();
    let xd = &rg[some_id];

    println!("{:?}", xd);

    Ok(())
}

#[test]
fn lib_param_bn_tryout_2() -> Result<(), String> {
    let bool_network = BooleanNetwork::try_from(
        r"
        A -> B
        C -|? B
        # Update function of variable B:
        $B: A
        C -> A
        B -> A
        A -| A
        $A: C | f(A, B)
    ",
    )?;

    let trans_graph = SymbolicAsyncGraph::new(&bool_network)?;

    let id_b = bool_network.as_graph().find_variable("B").unwrap();
    let b_is_true = trans_graph.fix_network_variable(id_b, true);
    let b_is_false = trans_graph.fix_network_variable(id_b, false);

    let empty_subgraph = b_is_true.intersect_vertices(&b_is_false.vertices());

    assert!(empty_subgraph.is_empty());

    Ok(())
}

// One succession-diagram entry can be built and compared by value.
#[test]
fn sd_entry_round_trip() {
    let mut trap = HashMap::new();
    trap.insert("v_ICL".to_string(), 0u8);
    let mut motif = HashMap::new();
    motif.insert("v_ICL".to_string(), 0u8);
    motif.insert("v_ADD".to_string(), 1u8);
    let entry = SdEntry {
        trap: trap.clone(),
        motifs: vec![motif.clone()],
    };
    let copy = entry.clone();
    assert_eq!(entry, copy);
    assert_eq!(copy.trap.get("v_ICL"), Some(&0u8));
    assert_eq!(copy.motifs.len(), 1);
    assert_eq!(copy.motifs[0].get("v_ADD"), Some(&1u8));
}
