use exprdag::dag::{DagBuilder, DagNode};
use exprdag::parser::{parse_expr, AstNode, ParseError};
use exprdag::scanner::Scanner;
use std::collections::VecDeque;

fn ast_of(input: &str) -> AstNode {
    let mut errors: Vec<ParseError> = Vec::new();
    let tokens = VecDeque::from(Scanner::new(input).tokenize());
    let (_, ast, _) = parse_expr(tokens, &mut errors);
    ast
}

fn build(input: &str) -> (DagBuilder, usize) {
    let mut builder = DagBuilder::new();
    let root = builder.from_ast(&ast_of(input));
    (builder, root)
}

fn row(node: &DagNode) -> (usize, &str, Option<usize>, Option<usize>) {
    (node.id, node.label.as_str(), node.left, node.right)
}

fn is_leaf(node: &DagNode) -> bool {
    node.left.is_none() && node.right.is_none()
}

#[test]
fn a_new_builder_is_empty() {
    assert!(DagBuilder::new().nodes.is_empty());
    assert!(DagBuilder::default().nodes.is_empty());
}

#[test]
fn operands_come_before_their_operator() {
    let (builder, root) = build("a+b*c");
    let rows: Vec<_> = builder.nodes.iter().map(row).collect();
    assert_eq!(
        rows,
        vec![
            (0, "a", None, None),
            (1, "b", None, None),
            (2, "c", None, None),
            (3, "*", Some(1), Some(2)),
            (4, "+", Some(0), Some(3)),
        ]
    );
    assert_eq!(root, 4);
    assert_eq!(builder.nodes.iter().filter(|n| is_leaf(n)).count(), 3);
    assert_eq!(builder.nodes.iter().filter(|n| !is_leaf(n)).count(), 2);
}

#[test]
fn a_repeated_subexpression_is_one_node() {
    let (builder, root) = build("(a+b)*(a+b)");
    let rows: Vec<_> = builder.nodes.iter().map(row).collect();
    assert_eq!(
        rows,
        vec![
            (0, "a", None, None),
            (1, "b", None, None),
            (2, "+", Some(0), Some(1)),
            (3, "*", Some(2), Some(2)),
        ]
    );
    assert_eq!(root, 3);
    let sums = builder.nodes.iter().filter(|n| n.label == "+").count();
    assert_eq!(sums, 1);
    assert_eq!(builder.nodes[root].left, builder.nodes[root].right);
}

#[test]
fn operand_order_matters_for_sharing() {
    let (builder, _) = build("(a+b)*(b+a)");
    assert_eq!(builder.nodes.len(), 5);
    assert_eq!(builder.nodes.iter().filter(|n| n.label == "+").count(), 2);
}

#[test]
fn the_same_name_is_the_same_leaf() {
    let mut builder = DagBuilder::new();
    let first = builder.make_leaf("x");
    let other = builder.make_leaf("y");
    let again = builder.make_leaf("x");
    assert_eq!(first, again);
    assert_ne!(first, other);
    assert_eq!(builder.nodes.len(), 2);

    let (builder, _) = build("a*a+a");
    assert_eq!(builder.nodes.iter().filter(|n| n.label == "a").count(), 1);
}

#[test]
fn the_same_number_is_the_same_leaf() {
    let mut builder = DagBuilder::new();
    let first = builder.from_ast(&AstNode::Number("42".to_string()));
    let again = builder.from_ast(&AstNode::Number("42".to_string()));
    let other = builder.from_ast(&AstNode::Number("420".to_string()));
    assert_eq!(first, again);
    assert_ne!(first, other);

    let (builder, _) = build("1+1*1");
    assert_eq!(builder.nodes.iter().filter(|n| n.label == "1").count(), 1);
    assert_eq!(builder.nodes.len(), 3);
}

#[test]
fn leaves_are_shared_by_label_alone() {
    let mut builder = DagBuilder::new();
    let number = builder.from_ast(&AstNode::Number("7".to_string()));
    let name = builder.from_ast(&AstNode::Identifier("7".to_string()));
    assert_eq!(number, name);
}

#[test]
fn a_leaf_and_an_operator_of_the_same_label_stay_apart() {
    let mut builder = DagBuilder::new();
    let plus_leaf = builder.make_leaf("+");
    let a = builder.make_leaf("a");
    let sum = builder.from_ast(&AstNode::BinaryOp {
        op: "+".to_string(),
        left: Box::new(AstNode::Identifier("a".to_string())),
        right: Box::new(AstNode::Identifier("a".to_string())),
    });
    assert_eq!((plus_leaf, a, sum), (0, 1, 2));
    assert_eq!(row(&builder.nodes[2]), (2, "+", Some(1), Some(1)));
}

#[test]
fn all_error_nodes_are_one_leaf_and_all_empty_nodes_another() {
    let mut builder = DagBuilder::new();
    let e1 = builder.from_ast(&AstNode::Error);
    let e2 = builder.from_ast(&AstNode::Error);
    let n1 = builder.from_ast(&AstNode::Empty);
    let n2 = builder.from_ast(&AstNode::Empty);
    assert_eq!(e1, e2);
    assert_eq!(n1, n2);
    assert_ne!(e1, n1);
    assert_eq!(builder.nodes[e1].label, "ERR");
    assert_eq!(builder.nodes[n1].label, "ε");

    let (builder, _) = build(")+)");
    let rows: Vec<_> = builder.nodes.iter().map(row).collect();
    assert_eq!(rows, vec![(0, "ERR", None, None), (1, "+", Some(0), Some(0))]);
}

#[test]
fn adding_a_tree_again_changes_nothing() {
    let ast = ast_of("(a+b)*c+(a+b)");
    let mut builder = DagBuilder::new();
    let first = builder.from_ast(&ast);
    let size = builder.nodes.len();
    let _ = builder.from_ast(&ast_of("x*y"));
    let again = builder.from_ast(&ast);
    assert_eq!(first, again);
    assert_eq!(builder.nodes.len(), size + 3);
}

#[test]
fn one_builder_shares_across_trees() {
    let mut builder = DagBuilder::new();
    let sum = builder.from_ast(&ast_of("a+b"));
    let product = builder.from_ast(&ast_of("(a+b)*c"));
    assert_eq!(builder.nodes[product].left, Some(sum));
    assert_eq!(builder.nodes.len(), 5);
}

#[test]
fn ids_are_positions_and_operands_point_backwards() {
    let (builder, _) = build("(a+b*c)*(b*c+d)*(a+b*c)+1");
    for (k, node) in builder.nodes.iter().enumerate() {
        assert_eq!(node.id, k);
        assert_eq!(node.left.is_none(), node.right.is_none());
        if let (Some(l), Some(r)) = (node.left, node.right) {
            assert!(l < k && r < k);
        }
        for earlier in &builder.nodes[..k] {
            assert!(
                (earlier.label.as_str(), earlier.left, earlier.right)
                    != (node.label.as_str(), node.left, node.right)
            );
        }
    }
}

#[test]
fn listing_shows_every_node_once_on_the_level_it_is_first_met() {
    let (builder, root) = build("a+b*c");
    assert_eq!(builder.print(root), "+ \na * \nb c \n");
    let (builder, root) = build("(a+b)*(a+b)");
    assert_eq!(builder.print(root), "* \n+ \na b \n");
    let (builder, root) = build("a+a*a");
    assert_eq!(builder.print(root), "+ \na * \n");
    let (builder, root) = build("x");
    assert_eq!(builder.print(root), "x \n");
}

#[test]
fn listing_from_an_inner_node_shows_only_what_is_below_it() {
    let (builder, _) = build("a+b*c");
    assert_eq!(builder.print(3), "* \nb c \n");
    assert_eq!(builder.print(0), "a \n");
}

#[test]
fn a_cloned_node_is_the_same_node() {
    let (builder, root) = build("a+b");
    let copy = builder.nodes[root].clone();
    assert_eq!(row(&copy), (2, "+", Some(0), Some(1)));
}
