//! One line of text through all the stages.
//!
//! Nothing is kept from one line to the next: scanner, diagnostics, graph
//! and code generator are made afresh for every line.  A line with any
//! diagnostic is not lowered at all; in place of a function it yields a
//! one-line placeholder.

use crate::dag::{built, DagBuilder, NodeView};
use crate::llvm::{
    defined_before, emitted, fresh, function_lines, names_of, no_forward_refs, strictly_sorted,
    texts, IrFunction, LLVM,
};
use crate::parser::{
    messages, parse_expr, parsed_expr, report_error, AstNode, AstView, ParseError,
};
use crate::scanner::{
    scanned_tokens, scanned_warnings, token_views, ScanWarning, Scanner, Token, TokenView,
};
use std::collections::VecDeque;
use vstd::prelude::*;

verus! {

/// Tokens are left over, and the first of them is not the end marker.
pub open spec fn has_leftover(rest: Seq<TokenView>) -> bool {
    rest.len() > 0 && !(rest[0] is EOF)
}

/// The diagnostic for leftover tokens.
pub open spec fn leftover_message() -> Seq<char> {
    "Extra or unmatched tokens after valid expression"@
}

/// The tokens of a line.
pub open spec fn line_tokens(line: Seq<char>) -> Seq<TokenView> {
    scanned_tokens(line, 0)
}

/// All the diagnostics of a line, in the order in which they are recorded:
/// those of the parser, then one more if tokens are left over.
pub open spec fn line_diagnostics(line: Seq<char>) -> Seq<Seq<char>> {
    let outcome = parsed_expr(line_tokens(line));
    if has_leftover(outcome.rest) {
        outcome.errors.push(leftover_message())
    } else {
        outcome.errors
    }
}

/// The one line written in place of a function for a line that could not
/// be parsed.
pub open spec fn placeholder_lines() -> Seq<Seq<char>> {
    seq!["; Unable to parse input"@]
}

/// The graph of a line, its root, and the function it was lowered to.
pub struct Lowered {
    pub dag: DagBuilder,
    pub root: usize,
    pub function: IrFunction,
}

/// Everything that one line yields.
pub struct Compilation {
    /// The scanner's warnings.
    pub warnings: Vec<ScanWarning>,
    /// All diagnostics; empty for a line that is compiled.
    pub errors: Vec<ParseError>,
    /// The syntax tree, with `Error` nodes where parsing failed.
    pub ast: AstNode,
    /// Graph and function, for a line without diagnostics only.
    pub lowered: Option<Lowered>,
}

/// `lowered` is what the syntax tree `ast` gives: its graph built from
/// nothing, and that graph's function emitted by a fresh generator.
pub open spec fn lowered_from(lowered: Lowered, ast: AstView) -> bool {
    let (arena, root) = built(Seq::<NodeView>::empty(), ast);
    let (state, result) = emitted(arena, root, fresh());
    &&& lowered.dag.wf()
    &&& lowered.dag@ == arena
    &&& lowered.root == root
    &&& lowered.function@.body == state.code
    &&& lowered.function@.result == result
    &&& strictly_sorted(lowered.function@.params)
    &&& lowered.function@.params.to_set() == names_of(arena, root)
    &&& no_forward_refs(lowered.function@.body)
    &&& defined_before(lowered.function@.result, lowered.function@.body.len() as int)
}

/// Records the diagnostic for leftover tokens if `remaining` holds any but
/// the end marker at its front.
pub fn check_leftover(remaining: &VecDeque<Token>, errors: &mut Vec<ParseError>)
    ensures
        messages(final(errors)@) == if has_leftover(token_views(remaining@)) {
            messages(old(errors)@).push(leftover_message())
        } else {
            messages(old(errors)@)
        },
{
    if remaining.len() > 0 && !matches!(remaining[0], Token::EOF) {
        report_error(errors, "Extra or unmatched tokens after valid expression");
    }
}

/// Compiles one line.
///
/// The line is scanned and parsed to its end whatever it holds.  If that
/// left no diagnostic, the syntax tree is folded into a graph and the graph
/// lowered to a function; otherwise neither is made.
pub fn compile_line(line: &str) -> (out: Compilation)
    ensures
        out.warnings@ == scanned_warnings(line@, 0),
        messages(out.errors@) == line_diagnostics(line@),
        out.ast@ == parsed_expr(line_tokens(line@)).ast,
        out.lowered is Some <==> line_diagnostics(line@).len() == 0,
        out.lowered is Some ==> lowered_from(out.lowered->0, out.ast@),
{
    let mut scanner = Scanner::new(line);
    let tokens = scanner.tokenize();
    let mut warnings: Vec<ScanWarning> = Vec::new();
    let kept = scanner.warnings();
    let mut w: usize = 0;
    while w < kept.len()
        invariant
            w <= kept.len(),
            warnings@ == kept@.take(w as int),
        decreases kept.len() - w,
    {
        warnings.push(kept[w]);
        assert(warnings@ =~= kept@.take(w + 1));
        w += 1;
    }
    assert(kept@.take(w as int) =~= kept@);
    assert(Seq::<ScanWarning>::empty() + scanned_warnings(line@, 0) =~= scanned_warnings(
        line@,
        0,
    ));

    let mut queue: VecDeque<Token> = VecDeque::new();
    let mut i: usize = 0;
    while i < tokens.len()
        invariant
            i <= tokens.len(),
            queue@ == tokens@.take(i as int),
        decreases tokens.len() - i,
    {
        queue.push_back(tokens[i].clone());
        assert(queue@ =~= tokens@.take(i + 1));
        i += 1;
    }
    assert(tokens@.take(i as int) =~= tokens@);

    let mut errors: Vec<ParseError> = Vec::new();
    assert(messages(errors@) =~= Seq::<Seq<char>>::empty());
    let (_tree, ast, remaining) = parse_expr(queue, &mut errors);
    assert(messages(errors@) =~= parsed_expr(line_tokens(line@)).errors);
    check_leftover(&remaining, &mut errors);

    if errors.len() > 0 {
        return Compilation { warnings, errors, ast, lowered: None };
    }
    let mut dag = DagBuilder::new();
    let root = dag.from_ast(&ast);
    let mut generator = LLVM::new();
    assert(generator@ == fresh());
    let function = generator.generate(&dag, root);
    Compilation { warnings, errors, ast, lowered: Some(Lowered { dag, root, function }) }
}

impl Compilation {
    /// The text to be written for the line: the function if there is one,
    /// else the placeholder.
    pub fn artifact(&self) -> (lines: Vec<String>)
        ensures
            texts(lines@) == match self.lowered {
                Some(lowered) => function_lines(lowered.function@),
                None => placeholder_lines(),
            },
    {
        match &self.lowered {
            Some(lowered) => lowered.function.render(),
            None => {
                let mut lines: Vec<String> = Vec::new();
                lines.push("; Unable to parse input".to_owned());
                assert(texts(lines@) =~= placeholder_lines());
                lines
            },
        }
    }
}

} // verus!
