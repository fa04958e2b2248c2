use exprdag::driver::check_leftover;
use exprdag::parser::{
    parse_expr, parse_exprdash, parse_factor, parse_term, parse_termdash, report_error, AstNode,
    ParseError, ParseTree,
};
use exprdag::scanner::{Scanner, Token};
use std::collections::VecDeque;

fn tokens_of(input: &str) -> VecDeque<Token> {
    VecDeque::from(Scanner::new(input).tokenize())
}

fn parse(input: &str) -> (ParseTree, AstNode, VecDeque<Token>, Vec<String>) {
    let mut errors: Vec<ParseError> = Vec::new();
    let (tree, ast, rest) = parse_expr(tokens_of(input), &mut errors);
    (tree, ast, rest, errors.into_iter().map(|e| e.message).collect())
}

fn ast_text(ast: &AstNode) -> String {
    match ast {
        AstNode::Number(n) => n.clone(),
        AstNode::Identifier(id) => id.clone(),
        AstNode::BinaryOp { op, left, right } => {
            format!("{}({}, {})", op, ast_text(left), ast_text(right))
        }
        AstNode::Empty => "<empty>".to_string(),
        AstNode::Error => "<error>".to_string(),
    }
}

fn rest_text(rest: &VecDeque<Token>) -> String {
    format!("{:?}", rest)
}

#[test]
fn valid_input_is_consumed_up_to_the_end_marker_without_diagnostics() {
    for input in ["a", "42", "a+b", "a*b", "a+b*c", "(a)", "((a))", "(a+b)*(c+d)", "a*(b+c)*d+e", "1+2+3+4"] {
        let (_, ast, rest, errors) = parse(input);
        assert_eq!(rest_text(&rest), "[EOF]", "input {}", input);
        assert!(errors.is_empty(), "input {}", input);
        assert!(!ast_text(&ast).contains("<error>"), "input {}", input);
    }
}

#[test]
fn product_binds_tighter_than_sum() {
    let (_, ast, _, _) = parse("a+b*c");
    assert_eq!(ast_text(&ast), "+(a, *(b, c))");
    let (_, ast, _, _) = parse("a*b+c");
    assert_eq!(ast_text(&ast), "+(*(a, b), c)");
}

#[test]
fn both_operators_group_to_the_left() {
    let (_, ast, _, _) = parse("a+b+c");
    assert_eq!(ast_text(&ast), "+(+(a, b), c)");
    let (_, ast, _, _) = parse("a*b*c*d");
    assert_eq!(ast_text(&ast), "*(*(*(a, b), c), d)");
}

#[test]
fn parentheses_override_precedence_and_leave_no_trace() {
    let (_, ast, _, _) = parse("(a+b)*c");
    assert_eq!(ast_text(&ast), "*(+(a, b), c)");
    let (_, ast, _, _) = parse("((a))");
    assert_eq!(ast_text(&ast), "a");
}

#[test]
fn numbers_and_identifiers_keep_their_kind() {
    let (_, ast, _, _) = parse("12*x");
    assert_eq!(
        format!("{:?}", ast),
        "BinaryOp { op: \"*\", left: Number(\"12\"), right: Identifier(\"x\") }"
    );
}

#[test]
fn end_of_input_where_a_factor_should_start() {
    let (_, ast, rest, errors) = parse("");
    assert_eq!(errors, vec!["Unexpected end of input while parsing factor"]);
    assert_eq!(ast_text(&ast), "<error>");
    assert_eq!(rest_text(&rest), "[EOF]");
}

#[test]
fn a_factor_is_missing_even_without_an_end_marker() {
    let mut errors: Vec<ParseError> = Vec::new();
    let (_, ast, rest) = parse_factor(VecDeque::new(), &mut errors);
    assert_eq!(errors.len(), 1);
    assert_eq!(errors[0].message, "Unexpected end of input while parsing factor");
    assert!(matches!(ast, AstNode::Error));
    assert!(rest.is_empty());
}

#[test]
fn trailing_operator_reports_missing_factor() {
    let (_, ast, rest, errors) = parse("a+");
    assert_eq!(errors, vec!["Unexpected end of input while parsing factor"]);
    assert_eq!(ast_text(&ast), "+(a, <error>)");
    assert_eq!(rest_text(&rest), "[EOF]");
}

#[test]
fn unmatched_closing_parenthesis() {
    let (_, ast, rest, errors) = parse(")");
    assert_eq!(errors, vec!["Unmatched ')'"]);
    assert_eq!(ast_text(&ast), "<error>");
    assert_eq!(rest_text(&rest), "[EOF]");
}

#[test]
fn unmatched_opening_parenthesis() {
    let (_, ast, rest, errors) = parse("(a+b");
    assert_eq!(errors, vec!["Expected ')' but found Some(EOF)"]);
    assert_eq!(ast_text(&ast), "<error>");
    assert_eq!(rest_text(&rest), "[EOF]");
}

#[test]
fn missing_parenthesis_with_nothing_left_at_all() {
    let mut tokens = VecDeque::new();
    tokens.push_back(Token::BOpen);
    tokens.push_back(Token::Identifier("a".to_string()));
    let mut errors: Vec<ParseError> = Vec::new();
    let (_, ast, rest) = parse_expr(tokens, &mut errors);
    assert_eq!(errors.len(), 1);
    assert_eq!(errors[0].message, "Expected ')' but found None");
    assert!(matches!(ast, AstNode::Error));
    assert!(rest.is_empty());
}

#[test]
fn missing_parenthesis_names_the_token_found() {
    let (_, _, rest, errors) = parse("(a b");
    assert_eq!(errors, vec!["Expected ')' but found Some(Identifier(\"b\"))"]);
    assert_eq!(rest_text(&rest), "[Identifier(\"b\"), EOF]");
    let (_, _, _, errors) = parse("(a 7");
    assert_eq!(errors, vec!["Expected ')' but found Some(Number(\"7\"))"]);
    let (_, _, _, errors) = parse("(a (");
    assert_eq!(errors, vec!["Expected ')' but found Some(BOpen)"]);
}

#[test]
fn missing_parenthesis_before_an_invalid_character() {
    let (_, _, rest, errors) = parse("(a $ # @");
    assert_eq!(
        errors,
        vec![
            "Invalid character '$' in term",
            "Invalid character '#' in expression",
            "Expected ')' but found Some(Error('@'))",
            "Invalid character '@' in term",
        ]
    );
    assert_eq!(rest_text(&rest), "[EOF]");
}

#[test]
fn operator_where_a_factor_should_start() {
    let (_, ast, rest, errors) = parse("*a");
    assert_eq!(errors, vec!["Unexpected token in factor: Star"]);
    assert_eq!(ast_text(&ast), "<error>");
    assert_eq!(rest_text(&rest), "[Identifier(\"a\"), EOF]");
    let (_, _, _, errors) = parse("+");
    assert_eq!(errors[0], "Unexpected token in factor: Plus");
}

#[test]
fn invalid_character_where_a_factor_should_start() {
    let (_, ast, rest, errors) = parse("$");
    assert_eq!(errors, vec!["Invalid character '$' in factor"]);
    assert_eq!(ast_text(&ast), "<error>");
    assert_eq!(rest_text(&rest), "[EOF]");
}

#[test]
fn invalid_character_after_a_factor_ends_the_term() {
    let (_, ast, rest, errors) = parse("a $ * b");
    assert_eq!(errors, vec!["Invalid character '$' in term"]);
    assert_eq!(ast_text(&ast), "<error>");
    assert_eq!(rest_text(&rest), "[Star, Identifier(\"b\"), EOF]");
}

#[test]
fn invalid_character_after_a_term_ends_the_expression() {
    let mut errors: Vec<ParseError> = Vec::new();
    let left = AstNode::Identifier("a".to_string());
    let (_, ast, rest) = parse_exprdash(tokens_of("$ + b"), &mut errors, left);
    assert_eq!(errors.len(), 1);
    assert_eq!(errors[0].message, "Invalid character '$' in expression");
    assert!(matches!(ast, AstNode::Error));
    assert_eq!(rest_text(&rest), "[Plus, Identifier(\"b\"), EOF]");
}

#[test]
fn several_diagnostics_from_one_line() {
    let (_, ast, rest, errors) = parse("a + * b");
    assert!(!errors.is_empty());
    assert_eq!(errors, vec!["Unexpected token in factor: Star"]);
    assert_eq!(ast_text(&ast), "+(a, <error>)");
    assert_eq!(rest_text(&rest), "[Identifier(\"b\"), EOF]");

    let (_, ast, _, errors) = parse(") + ) * $");
    assert_eq!(
        errors,
        vec!["Unmatched ')'", "Unmatched ')'", "Invalid character '$' in factor"]
    );
    assert_eq!(ast_text(&ast), "+(<error>, *(<error>, <error>))");
}

#[test]
fn diagnostics_are_appended_to_those_already_recorded() {
    let mut errors: Vec<ParseError> = Vec::new();
    report_error(&mut errors, "earlier");
    let _ = parse_expr(tokens_of(")"), &mut errors);
    let messages: Vec<&str> = errors.iter().map(|e| e.message.as_str()).collect();
    assert_eq!(messages, vec!["earlier", "Unmatched ')'"]);
}

#[test]
fn a_term_stops_before_a_plus() {
    let mut errors: Vec<ParseError> = Vec::new();
    let (_, ast, rest) = parse_term(tokens_of("a*b+c"), &mut errors);
    assert!(errors.is_empty());
    assert_eq!(ast_text(&ast), "*(a, b)");
    assert_eq!(rest_text(&rest), "[Plus, Identifier(\"c\"), EOF]");
}

#[test]
fn the_dash_productions_fold_into_the_left_operand() {
    let mut errors: Vec<ParseError> = Vec::new();
    let left = AstNode::Identifier("x".to_string());
    let (_, ast, rest) = parse_termdash(tokens_of("*a*b"), &mut errors, left);
    assert_eq!(ast_text(&ast), "*(*(x, a), b)");
    assert_eq!(rest_text(&rest), "[EOF]");

    let left = AstNode::Identifier("x".to_string());
    let (_, ast, rest) = parse_exprdash(tokens_of(")"), &mut errors, left);
    assert_eq!(ast_text(&ast), "x");
    assert_eq!(rest_text(&rest), "[BClose, EOF]");
    assert!(errors.is_empty());
}

#[test]
fn leftover_tokens_are_a_diagnostic_of_their_own() {
    let mut errors: Vec<ParseError> = Vec::new();
    let (_, _, rest) = parse_expr(tokens_of("a b"), &mut errors);
    assert!(errors.is_empty());
    check_leftover(&rest, &mut errors);
    assert_eq!(errors.len(), 1);
    assert_eq!(errors[0].message, "Extra or unmatched tokens after valid expression");
}

#[test]
fn the_end_marker_alone_is_not_leftover() {
    let mut errors: Vec<ParseError> = Vec::new();
    let (_, _, rest) = parse_expr(tokens_of("a"), &mut errors);
    check_leftover(&rest, &mut errors);
    assert!(errors.is_empty());
    check_leftover(&VecDeque::new(), &mut errors);
    assert!(errors.is_empty());
}

#[test]
fn parse_tree_of_a_single_name() {
    let (tree, _, _, _) = parse("a");
    assert_eq!(
        tree.print(),
        "EXPR \nTERM EXPRDASH \nFACTOR TERMDASH EPSILON \nIDENTIFIER(a) EPSILON \n"
    );
}

#[test]
fn parse_tree_of_a_sum_in_parentheses() {
    let (tree, _, _, _) = parse("(1+b)");
    assert_eq!(tree.label, "EXPR");
    assert_eq!(tree.children.len(), 2);
    let factor = &tree.children[0].children[0];
    assert_eq!(factor.label, "FACTOR");
    let labels: Vec<&str> = factor.children.iter().map(|c| c.label.as_str()).collect();
    assert_eq!(labels, vec!["BOPEN", "EXPR", "BCLOSE"]);
    let inner = &factor.children[1];
    assert_eq!(inner.children[0].children[0].children[0].label, "NUMBER(1)");
    let dash = &inner.children[1];
    assert_eq!(dash.label, "EXPRDASH");
    assert_eq!(dash.children[0].label, "PLUS");
    assert_eq!(dash.children[1].label, "TERM");
    assert_eq!(dash.children[2].children[0].label, "EPSILON");
}

#[test]
fn parse_tree_marks_the_place_of_an_error() {
    let (tree, _, _, _) = parse(")");
    assert_eq!(
        tree.print(),
        "EXPR \nTERM EXPRDASH \nFACTOR TERMDASH EPSILON \nERROR EPSILON \n"
    );
    let (tree, _, _, _) = parse("a$");
    assert_eq!(
        tree.print(),
        "EXPR \nTERM EXPRDASH \nFACTOR TERMDASH EPSILON \nIDENTIFIER(a) ERROR \n"
    );
}

#[test]
fn a_new_parse_tree_node_has_no_children() {
    let node = ParseTree::new("PLUS");
    assert_eq!(node.label, "PLUS");
    assert!(node.children.is_empty());
    assert_eq!(node.print(), "PLUS \n");
}

#[test]
fn syntax_tree_listing_goes_level_by_level() {
    let (_, ast, _, _) = parse("a+b*c");
    assert_eq!(ast.print(), "+ \na * \nb c \n");
    let (_, ast, _, _) = parse("(a+b)*(a+b)");
    assert_eq!(ast.print(), "* \n+ + \na b a b \n");
    let (_, ast, _, _) = parse("7");
    assert_eq!(ast.print(), "7 \n");
}

#[test]
fn syntax_tree_listing_shows_the_sentinels() {
    assert_eq!(AstNode::Error.print(), "ERROR \n");
    assert_eq!(AstNode::Empty.print(), "ε \n");
    let (_, ast, _, _) = parse("a+");
    assert_eq!(ast.print(), "+ \na ERROR \n");
}

#[test]
fn a_cloned_syntax_tree_is_the_same_tree() {
    let (_, ast, _, _) = parse("a*(b+1)");
    assert_eq!(format!("{:?}", ast.clone()), format!("{:?}", ast));
    assert_eq!(ast_text(&ast.clone()), "*(a, +(b, 1))");
}
