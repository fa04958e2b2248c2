use exprdag::dag::DagBuilder;
use exprdag::llvm::{Instruction, IrFunction, Opcode, Operand, LLVM};
use exprdag::parser::{parse_expr, AstNode, ParseError};
use exprdag::scanner::Scanner;
use std::collections::VecDeque;

fn build(input: &str) -> (DagBuilder, usize) {
    let mut errors: Vec<ParseError> = Vec::new();
    let tokens = VecDeque::from(Scanner::new(input).tokenize());
    let (_, ast, _) = parse_expr(tokens, &mut errors);
    assert!(errors.is_empty());
    let mut builder = DagBuilder::new();
    let root = builder.from_ast(&ast);
    (builder, root)
}

fn lower(input: &str) -> IrFunction {
    let (dag, root) = build(input);
    LLVM::new().generate(&dag, root)
}

fn lines(input: &str) -> Vec<String> {
    lower(input).render()
}

fn registers_read(instruction: &Instruction) -> Vec<usize> {
    let mut out = Vec::new();
    for operand in [&instruction.left, &instruction.right] {
        if let Operand::Temp(n) = operand {
            out.push(*n);
        }
    }
    out
}

#[test]
fn end_to_end_sum_of_a_product() {
    assert_eq!(
        lines("a+b*c"),
        vec![
            "define i64 @foo(i64 %a, i64 %b, i64 %c) {",
            "    tmp1 = multiply i64 %b, %c",
            "    tmp2 = add i64 %a, tmp1",
            "    return i64 tmp2",
            "}",
        ]
    );
    let function = lower("a+b*c");
    assert_eq!(function.params, vec!["a", "b", "c"]);
    assert_eq!(function.body.len(), 2);
}

#[test]
fn a_shared_subexpression_is_computed_once() {
    let function = lower("(a+b)*(a+b)");
    assert_eq!(function.body.len(), 2);
    let adds = function.body.iter().filter(|i| i.op == Opcode::Add).count();
    assert_eq!(adds, 1);
    assert_eq!(function.body[0].op, Opcode::Add);
    assert_eq!(function.body[1].op, Opcode::Multiply);
    assert!(matches!(function.body[1].left, Operand::Temp(1)));
    assert!(matches!(function.body[1].right, Operand::Temp(1)));
    assert_eq!(
        function.render(),
        vec![
            "define i64 @foo(i64 %a, i64 %b) {",
            "    tmp1 = add i64 %a, %b",
            "    tmp2 = multiply i64 tmp1, tmp1",
            "    return i64 tmp2",
            "}",
        ]
    );
}

#[test]
fn parameters_are_sorted_whatever_their_order_of_appearance() {
    let function = lower("b+a*b");
    assert_eq!(function.params, vec!["a", "b"]);
    assert_eq!(function.render()[0], "define i64 @foo(i64 %a, i64 %b) {");

    let function = lower("zeta*Alpha+mid+alpha*b");
    assert_eq!(function.params, vec!["Alpha", "alpha", "b", "mid", "zeta"]);
}

#[test]
fn collecting_names_alone() {
    let (dag, root) = build("c*b+a*(c+12)");
    assert_eq!(LLVM::collect_identifiers(&dag, root), vec!["a", "b", "c"]);
    assert_eq!(LLVM::collect_identifiers(&dag, 0), vec!["c"]);
    let (dag, root) = build("1+2");
    assert!(LLVM::collect_identifiers(&dag, root).is_empty());
}

#[test]
fn a_prefix_of_a_name_sorts_before_it() {
    let function = lower("ab+a+abc");
    assert_eq!(function.params, vec!["a", "ab", "abc"]);
}

#[test]
fn numbers_are_written_inline_and_are_no_parameters() {
    assert_eq!(
        lines("2*x+10"),
        vec![
            "define i64 @foo(i64 %x) {",
            "    tmp1 = multiply i64 2, %x",
            "    tmp2 = add i64 tmp1, 10",
            "    return i64 tmp2",
            "}",
        ]
    );
}

#[test]
fn a_single_leaf_needs_no_instruction() {
    assert_eq!(lines("x"), vec!["define i64 @foo(i64 %x) {", "    return i64 %x", "}"]);
    assert_eq!(lines("42"), vec!["define i64 @foo() {", "    return i64 42", "}"]);
}

#[test]
fn no_instruction_reads_a_register_defined_later() {
    for input in ["a+b*c", "(a+b)*(a+b)", "((a+b)*(c+d)+(a+b))*((c+d)*(a+b)+e)", "a*b*c*d*e+a*b*c"] {
        let function = lower(input);
        for (k, instruction) in function.body.iter().enumerate() {
            for n in registers_read(instruction) {
                assert!(1 <= n && n <= k, "input {} instruction {}", input, k);
            }
        }
        if let Operand::Temp(n) = function.result {
            assert_eq!(n, function.body.len());
        }
    }
}

#[test]
fn there_is_one_instruction_for_each_inner_node() {
    for input in ["a+b*c", "(a+b)*(a+b)", "((a+b)*(c+d)+(a+b))*((c+d)*(a+b)+e)", "a+a+a+a"] {
        let (dag, root) = build(input);
        let inner = dag.nodes.iter().filter(|n| n.left.is_some()).count();
        let function = LLVM::new().generate(&dag, root);
        assert_eq!(function.body.len(), inner, "input {}", input);
    }
}

#[test]
fn registers_are_numbered_in_order_of_emission() {
    let rendered = lines("a*b+c*d+e*f+g*h+i*j+k*l");
    assert_eq!(rendered.len(), 11 + 3);
    assert_eq!(rendered[1], "    tmp1 = multiply i64 %a, %b");
    assert_eq!(rendered[2], "    tmp2 = multiply i64 %c, %d");
    assert_eq!(rendered[3], "    tmp3 = add i64 tmp1, tmp2");
    assert_eq!(rendered[10], "    tmp10 = multiply i64 %k, %l");
    assert_eq!(rendered[11], "    tmp11 = add i64 tmp9, tmp10");
    assert_eq!(rendered[12], "    return i64 tmp11");
}

#[test]
fn an_operator_that_is_neither_plus_nor_star_is_unknown() {
    let ast = AstNode::BinaryOp {
        op: "-".to_string(),
        left: Box::new(AstNode::Identifier("a".to_string())),
        right: Box::new(AstNode::Number("1".to_string())),
    };
    let mut dag = DagBuilder::new();
    let root = dag.from_ast(&ast);
    let function = LLVM::new().generate(&dag, root);
    assert_eq!(function.body[0].op, Opcode::Unknown);
    assert_eq!(function.render()[1], "    tmp1 = unknown i64 %a, 1");
}

#[test]
fn sentinel_leaves_are_lowered_by_their_labels() {
    let ast = AstNode::BinaryOp {
        op: "+".to_string(),
        left: Box::new(AstNode::Error),
        right: Box::new(AstNode::Empty),
    };
    let mut dag = DagBuilder::new();
    let root = dag.from_ast(&ast);
    let function = LLVM::new().generate(&dag, root);
    assert_eq!(function.params, vec!["ERR"]);
    assert_eq!(function.render()[1], "    tmp1 = add i64 %ERR, ε");
}

#[test]
fn a_leaf_that_looks_like_a_register_is_still_a_literal() {
    let ast = AstNode::BinaryOp {
        op: "*".to_string(),
        left: Box::new(AstNode::Identifier("tmp7".to_string())),
        right: Box::new(AstNode::Identifier("x".to_string())),
    };
    let mut dag = DagBuilder::new();
    let root = dag.from_ast(&ast);
    let function = LLVM::new().generate(&dag, root);
    assert!(matches!(&function.body[0].left, Operand::Literal(text) if text == "tmp7"));
    assert!(matches!(&function.body[0].right, Operand::Param(name) if name == "x"));
}

#[test]
fn a_generator_keeps_what_it_has_emitted() {
    let (dag, root) = build("a+b*c");
    let mut generator = LLVM::new();
    let first = generator.generate(&dag, 3);
    assert_eq!(first.body.len(), 1);
    assert!(matches!(first.result, Operand::Temp(1)));
    let second = generator.generate(&dag, root);
    assert_eq!(second.body.len(), 2);
    assert!(matches!(second.result, Operand::Temp(2)));
    assert!(matches!(second.body[1].right, Operand::Temp(1)));
    let third = generator.generate(&dag, root);
    assert_eq!(third.body.len(), 2);
    assert!(matches!(third.result, Operand::Temp(2)));
}

#[test]
fn emitting_a_node_twice_gives_the_same_register() {
    let (dag, root) = build("a*b");
    let mut generator = LLVM::new();
    let first = generator.emit_node(&dag, root);
    let again = generator.emit_node(&dag, root);
    assert!(matches!(first, Operand::Temp(1)));
    assert!(matches!(again, Operand::Temp(1)));
    assert!(matches!(generator.emit_node(&dag, 0), Operand::Param(name) if name == "a"));
}

#[test]
fn operands_and_opcodes_as_text() {
    assert_eq!(Operand::Param("x".to_string()).text(), "%x");
    assert_eq!(Operand::Literal("42".to_string()).text(), "42");
    assert_eq!(Operand::Temp(12).text(), "tmp12");
    assert_eq!(Operand::Temp(12).clone().text(), "tmp12");
    assert_eq!(Opcode::Add.mnemonic(), "add");
    assert_eq!(Opcode::Multiply.mnemonic(), "multiply");
    assert_eq!(Opcode::Unknown.mnemonic(), "unknown");
}

#[test]
fn rendering_a_function_made_by_hand() {
    let function = IrFunction {
        params: vec![],
        body: vec![Instruction {
            op: Opcode::Add,
            left: Operand::Literal("1".to_string()),
            right: Operand::Literal("2".to_string()),
        }],
        result: Operand::Temp(1),
    };
    assert_eq!(
        function.render(),
        vec!["define i64 @foo() {", "    tmp1 = add i64 1, 2", "    return i64 tmp1", "}"]
    );
    let copy = function.body[0].clone();
    assert_eq!(copy.op, Opcode::Add);
}
