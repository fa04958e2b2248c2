use exprdag::dag::{DagBuilder, DagNode};

fn node(id: usize, label: &str, left: Option<usize>, right: Option<usize>) -> DagNode {
    DagNode { id, label: label.to_string(), left, right }
}

#[test]
fn built_graphs_pass_the_run_time_check() {
    let mut builder = DagBuilder::new();
    assert!(builder.is_well_formed());
    let a = builder.make_leaf("a");
    let b = builder.make_leaf("b");
    assert!(builder.is_well_formed());
    builder.nodes.push(node(2, "+", Some(a), Some(b)));
    assert!(builder.is_well_formed());
}

#[test]
fn a_node_under_the_wrong_id_fails_the_check() {
    let builder = DagBuilder { nodes: vec![node(1, "a", None, None)] };
    assert!(!builder.is_well_formed());
}

#[test]
fn a_node_with_one_operand_fails_the_check() {
    let builder =
        DagBuilder { nodes: vec![node(0, "a", None, None), node(1, "+", Some(0), None)] };
    assert!(!builder.is_well_formed());
}

#[test]
fn a_forward_or_self_reference_fails_the_check() {
    let builder = DagBuilder { nodes: vec![node(0, "+", Some(0), Some(0))] };
    assert!(!builder.is_well_formed());
    let builder =
        DagBuilder { nodes: vec![node(0, "+", Some(1), Some(1)), node(1, "a", None, None)] };
    assert!(!builder.is_well_formed());
}

#[test]
fn a_repeated_structure_fails_the_check() {
    let builder =
        DagBuilder { nodes: vec![node(0, "a", None, None), node(1, "a", None, None)] };
    assert!(!builder.is_well_formed());
    let builder = DagBuilder {
        nodes: vec![
            node(0, "a", None, None),
            node(1, "+", Some(0), Some(0)),
            node(2, "+", Some(0), Some(0)),
        ],
    };
    assert!(!builder.is_well_formed());
}
