use exprdag::driver::compile_line;
use exprdag::parser::AstNode;

fn messages(line: &str) -> Vec<String> {
    compile_line(line).errors.into_iter().map(|e| e.message).collect()
}

#[test]
fn a_clean_line_is_compiled() {
    let out = compile_line("a+b*c");
    assert!(out.errors.is_empty());
    assert!(out.warnings.is_empty());
    assert_eq!(out.ast.print(), "+ \na * \nb c \n");
    let lowered = out.lowered.as_ref().expect("lowered");
    assert_eq!(lowered.root, 4);
    assert_eq!(lowered.dag.nodes.len(), 5);
    assert_eq!(lowered.dag.print(lowered.root), "+ \na * \nb c \n");
    assert_eq!(lowered.function.params, vec!["a", "b", "c"]);
    assert_eq!(
        out.artifact(),
        vec![
            "define i64 @foo(i64 %a, i64 %b, i64 %c) {",
            "    tmp1 = multiply i64 %b, %c",
            "    tmp2 = add i64 %a, tmp1",
            "    return i64 tmp2",
            "}",
        ]
    );
}

#[test]
fn sharing_reaches_the_artifact() {
    let out = compile_line("(a+b)*(a+b)");
    assert_eq!(
        out.artifact(),
        vec![
            "define i64 @foo(i64 %a, i64 %b) {",
            "    tmp1 = add i64 %a, %b",
            "    tmp2 = multiply i64 tmp1, tmp1",
            "    return i64 tmp2",
            "}",
        ]
    );
}

#[test]
fn a_misplaced_operator_gives_only_the_placeholder() {
    let out = compile_line("a + * b");
    let recorded: Vec<&str> = out.errors.iter().map(|e| e.message.as_str()).collect();
    assert!(!recorded.is_empty());
    assert_eq!(
        recorded,
        vec![
            "Unexpected token in factor: Star",
            "Extra or unmatched tokens after valid expression",
        ]
    );
    assert!(out.lowered.is_none());
    assert_eq!(out.artifact(), vec!["; Unable to parse input"]);
}

#[test]
fn an_unclosed_parenthesis_gives_only_the_placeholder() {
    let out = compile_line("(a+b");
    assert_eq!(out.errors.len(), 1);
    assert!(out.errors[0].message.contains("Expected ')'"));
    assert_eq!(out.errors[0].message, "Expected ')' but found Some(EOF)");
    assert!(out.lowered.is_none());
    assert_eq!(out.artifact(), vec!["; Unable to parse input"]);
}

#[test]
fn leftover_tokens_give_only_the_placeholder() {
    let out = compile_line("a b");
    assert_eq!(messages("a b"), vec!["Extra or unmatched tokens after valid expression"]);
    assert!(matches!(out.ast, AstNode::Identifier(_)));
    assert!(out.lowered.is_none());
    assert_eq!(out.artifact(), vec!["; Unable to parse input"]);
    assert_eq!(messages("a)"), vec!["Extra or unmatched tokens after valid expression"]);
}

#[test]
fn an_invalid_character_is_warned_about_and_diagnosed() {
    let out = compile_line("a # b");
    assert_eq!(out.warnings.len(), 1);
    assert_eq!(out.warnings[0].character, '#');
    assert_eq!(out.warnings[0].position, 3);
    assert_eq!(out.warnings[0].message(), "Warning: unexpected character '#' at position 3");
    let recorded: Vec<&str> = out.errors.iter().map(|e| e.message.as_str()).collect();
    assert_eq!(
        recorded,
        vec![
            "Invalid character '#' in term",
            "Extra or unmatched tokens after valid expression",
        ]
    );
    assert_eq!(out.artifact(), vec!["; Unable to parse input"]);
}

#[test]
fn a_blank_line_is_an_error_like_any_other() {
    assert_eq!(messages(""), vec!["Unexpected end of input while parsing factor"]);
    assert_eq!(compile_line("   ").artifact(), vec!["; Unable to parse input"]);
}

#[test]
fn every_line_starts_afresh() {
    let first = compile_line("a*b+c");
    let _ = compile_line("x+");
    let again = compile_line("a*b+c");
    assert_eq!(first.artifact(), again.artifact());
    assert_eq!(again.artifact()[1], "    tmp1 = multiply i64 %a, %b");
}

#[test]
fn white_space_makes_no_difference() {
    assert_eq!(compile_line(" ( a + b )*c ").artifact(), compile_line("(a+b)*c").artifact());
}
