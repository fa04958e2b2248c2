//! Recursive-descent parser with error recovery.
//!
//! The grammar is
//!
//! ```text
//! EXPR      -> TERM EXPRDASH
//! EXPRDASH  -> '+' TERM EXPRDASH | ε
//! TERM      -> FACTOR TERMDASH
//! TERMDASH  -> '*' FACTOR TERMDASH | ε
//! FACTOR    -> IDENTIFIER | NUMBER | '(' EXPR ')'
//! ```
//!
//! Each production is one function.  The two dash-productions receive the
//! tree built from everything consumed so far and fold the next operand into
//! it, which makes both operators left-associative.  A malformed input never
//! stops the parser: the offending part becomes an `Error` node, a diagnostic
//! is recorded and parsing goes on.
//!
//! What each function returns is fixed by a specification function of the
//! same shape over token views: [`parsed_expr`], [`parsed_exprdash`],
//! [`parsed_term`], [`parsed_termdash`] and [`parsed_factor`].

use crate::scanner::{token_debug, token_views, Token, TokenView};
use crate::text::{join2, join3, push_char};
use std::collections::VecDeque;
use vstd::prelude::*;
use vstd::string::StringExecFns;

verus! {

/// A node of the concrete parse tree, kept for diagnostics only.
pub struct ParseTree {
    pub label: String,
    pub children: Vec<ParseTree>,
}

/// The mathematical value of a [`ParseTree`].
pub struct TreeView {
    pub label: Seq<char>,
    pub children: Seq<TreeView>,
}

impl ParseTree {
    /// The tree as a mathematical value; `@` is shorthand for it.
    pub open spec fn model(&self) -> TreeView
        decreases self,
    {
        TreeView {
            label: self.label@,
            children: Seq::new(
                self.children.len() as nat,
                |i: int|
                    if 0 <= i < self.children.len() {
                        self.children[i].model()
                    } else {
                        TreeView { label: Seq::empty(), children: Seq::empty() }
                    },
            ),
        }
    }
}

impl View for ParseTree {
    type V = TreeView;

    open spec fn view(&self) -> TreeView {
        self.model()
    }
}

/// A recorded diagnostic.
pub struct ParseError {
    pub message: String,
}

impl View for ParseError {
    type V = Seq<char>;

    open spec fn view(&self) -> Seq<char> {
        self.message@
    }
}

/// The messages of a list of diagnostics, in order.
pub open spec fn messages(errors: Seq<ParseError>) -> Seq<Seq<char>> {
    Seq::new(errors.len(), |i: int| errors[i]@)
}

/// A node of the abstract syntax tree.
#[derive(Debug)]
pub enum AstNode {
    Number(String),
    Identifier(String),
    BinaryOp { op: String, left: Box<AstNode>, right: Box<AstNode> },
    Empty,
    Error,
}

/// The mathematical value of an [`AstNode`].
pub enum AstView {
    Number(Seq<char>),
    Identifier(Seq<char>),
    BinaryOp { op: Seq<char>, left: Box<AstView>, right: Box<AstView> },
    Empty,
    Error,
}

impl AstNode {
    /// The tree as a mathematical value; `@` is shorthand for it.
    pub open spec fn model(&self) -> AstView
        decreases self,
    {
        match self {
            AstNode::Number(s) => AstView::Number(s@),
            AstNode::Identifier(s) => AstView::Identifier(s@),
            AstNode::BinaryOp { op, left, right } => AstView::BinaryOp {
                op: op@,
                left: Box::new(left.model()),
                right: Box::new(right.model()),
            },
            AstNode::Empty => AstView::Empty,
            AstNode::Error => AstView::Error,
        }
    }
}

impl Clone for AstNode {
    fn clone(&self) -> (copy: AstNode)
        ensures
            copy == *self,
        decreases self,
    {
        match self {
            AstNode::Number(s) => AstNode::Number(s.clone()),
            AstNode::Identifier(s) => AstNode::Identifier(s.clone()),
            AstNode::BinaryOp { op, left, right } => AstNode::BinaryOp {
                op: op.clone(),
                left: Box::new((&**left).clone()),
                right: Box::new((&**right).clone()),
            },
            AstNode::Empty => AstNode::Empty,
            AstNode::Error => AstNode::Error,
        }
    }
}

impl View for AstNode {
    type V = AstView;

    open spec fn view(&self) -> AstView {
        self.model()
    }
}

/// A parse-tree node without children.
pub open spec fn leaf(label: Seq<char>) -> TreeView {
    TreeView { label, children: Seq::empty() }
}

/// A parse-tree node with the given children.
pub open spec fn branch(label: Seq<char>, children: Seq<TreeView>) -> TreeView {
    TreeView { label, children }
}

/// The application of a binary operator to two operands.
pub open spec fn binary(op: Seq<char>, left: AstView, right: AstView) -> AstView {
    AstView::BinaryOp { op, left: Box::new(left), right: Box::new(right) }
}

/// What one production yields: its parse tree, its syntax tree, the tokens
/// it left unconsumed and the diagnostics it recorded, oldest first.
pub struct Parsed {
    pub tree: TreeView,
    pub ast: AstView,
    pub rest: Seq<TokenView>,
    pub errors: Seq<Seq<char>>,
}

/// The diagnostic for an invalid character met in `place`.
pub open spec fn invalid_char_message(ch: char, place: Seq<char>) -> Seq<char> {
    "Invalid character '"@.push(ch) + "' in "@ + place
}

/// The `{:?}` text of the first of `tokens`, as an `Option`.
pub open spec fn front_debug(tokens: Seq<TokenView>) -> Seq<char> {
    if tokens.len() == 0 {
        "None"@
    } else {
        "Some("@ + token_debug(tokens[0]) + ")"@
    }
}

/// The diagnostic for a parenthesis that is not closed where `rest` begins.
pub open spec fn expected_close_message(rest: Seq<TokenView>) -> Seq<char> {
    "Expected ')' but found "@ + front_debug(rest)
}

/// The diagnostic for an operator met where a factor should start.
pub open spec fn unexpected_token_message(t: TokenView) -> Seq<char> {
    "Unexpected token in factor: "@ + token_debug(t)
}

/// A factor that could not be parsed: an `Error` node and one diagnostic.
pub open spec fn failed_factor(rest: Seq<TokenView>, message: Seq<char>) -> Parsed {
    Parsed {
        tree: branch("FACTOR"@, seq![leaf("ERROR"@)]),
        ast: AstView::Error,
        rest,
        errors: seq![message],
    }
}

/// `EXPR -> TERM EXPRDASH`.
pub open spec fn parsed_expr(tokens: Seq<TokenView>) -> Parsed
    decreases tokens.len(), 4nat,
{
    let term = parsed_term(tokens);
    if term.rest.len() <= tokens.len() {
        let tail = parsed_exprdash(term.rest, term.ast);
        Parsed {
            tree: branch("EXPR"@, seq![term.tree, tail.tree]),
            ast: tail.ast,
            rest: tail.rest,
            errors: term.errors + tail.errors,
        }
    } else {
        term
    }
}

/// `EXPRDASH -> '+' TERM EXPRDASH | ε`, with `left` the operand so far.
pub open spec fn parsed_exprdash(tokens: Seq<TokenView>, left: AstView) -> Parsed
    decreases tokens.len(), 3nat,
{
    if tokens.len() > 0 && tokens[0] is Plus {
        let term = parsed_term(tokens.drop_first());
        if term.rest.len() < tokens.len() {
            let tail = parsed_exprdash(term.rest, binary("+"@, left, term.ast));
            Parsed {
                tree: branch("EXPRDASH"@, seq![leaf("PLUS"@), term.tree, tail.tree]),
                ast: tail.ast,
                rest: tail.rest,
                errors: term.errors + tail.errors,
            }
        } else {
            term
        }
    } else if tokens.len() > 0 && tokens[0] is Error {
        Parsed {
            tree: branch("EXPRDASH"@, seq![leaf("ERROR"@)]),
            ast: AstView::Error,
            rest: tokens.drop_first(),
            errors: seq![invalid_char_message(tokens[0]->Error_0, "expression"@)],
        }
    } else {
        Parsed {
            tree: branch("EXPRDASH"@, seq![leaf("EPSILON"@)]),
            ast: left,
            rest: tokens,
            errors: Seq::empty(),
        }
    }
}

/// `TERM -> FACTOR TERMDASH`.
pub open spec fn parsed_term(tokens: Seq<TokenView>) -> Parsed
    decreases tokens.len(), 2nat,
{
    let factor = parsed_factor(tokens);
    if factor.rest.len() <= tokens.len() {
        let tail = parsed_termdash(factor.rest, factor.ast);
        Parsed {
            tree: branch("TERM"@, seq![factor.tree, tail.tree]),
            ast: tail.ast,
            rest: tail.rest,
            errors: factor.errors + tail.errors,
        }
    } else {
        factor
    }
}

/// `TERMDASH -> '*' FACTOR TERMDASH | ε`, with `left` the operand so far.
pub open spec fn parsed_termdash(tokens: Seq<TokenView>, left: AstView) -> Parsed
    decreases tokens.len(), 1nat,
{
    if tokens.len() > 0 && tokens[0] is Star {
        let factor = parsed_factor(tokens.drop_first());
        if factor.rest.len() < tokens.len() {
            let tail = parsed_termdash(factor.rest, binary("*"@, left, factor.ast));
            Parsed {
                tree: branch("TERMDASH"@, seq![leaf("STAR"@), factor.tree, tail.tree]),
                ast: tail.ast,
                rest: tail.rest,
                errors: factor.errors + tail.errors,
            }
        } else {
            factor
        }
    } else if tokens.len() > 0 && tokens[0] is Error {
        Parsed {
            tree: branch("TERMDASH"@, seq![leaf("ERROR"@)]),
            ast: AstView::Error,
            rest: tokens.drop_first(),
            errors: seq![invalid_char_message(tokens[0]->Error_0, "term"@)],
        }
    } else {
        Parsed {
            tree: branch("TERMDASH"@, seq![leaf("EPSILON"@)]),
            ast: left,
            rest: tokens,
            errors: Seq::empty(),
        }
    }
}

/// `FACTOR -> IDENTIFIER | NUMBER | '(' EXPR ')'`.
pub open spec fn parsed_factor(tokens: Seq<TokenView>) -> Parsed
    decreases tokens.len(), 0nat,
{
    if tokens.len() == 0 {
        failed_factor(tokens, "Unexpected end of input while parsing factor"@)
    } else {
        match tokens[0] {
            TokenView::Identifier(name) => Parsed {
                tree: branch("FACTOR"@, seq![leaf("IDENTIFIER("@ + name + ")"@)]),
                ast: AstView::Identifier(name),
                rest: tokens.drop_first(),
                errors: Seq::empty(),
            },
            TokenView::Number(digits) => Parsed {
                tree: branch("FACTOR"@, seq![leaf("NUMBER("@ + digits + ")"@)]),
                ast: AstView::Number(digits),
                rest: tokens.drop_first(),
                errors: Seq::empty(),
            },
            TokenView::BOpen => {
                let inner = parsed_expr(tokens.drop_first());
                if inner.rest.len() > 0 && inner.rest[0] is BClose {
                    Parsed {
                        tree: branch(
                            "FACTOR"@,
                            seq![leaf("BOPEN"@), inner.tree, leaf("BCLOSE"@)],
                        ),
                        ast: inner.ast,
                        rest: inner.rest.drop_first(),
                        errors: inner.errors,
                    }
                } else {
                    Parsed {
                        tree: branch(
                            "FACTOR"@,
                            seq![leaf("BOPEN"@), inner.tree, leaf("ERROR"@)],
                        ),
                        ast: AstView::Error,
                        rest: inner.rest,
                        errors: inner.errors.push(expected_close_message(inner.rest)),
                    }
                }
            },
            TokenView::BClose => failed_factor(tokens.drop_first(), "Unmatched ')'"@),
            TokenView::Error(ch) => failed_factor(
                tokens.drop_first(),
                invalid_char_message(ch, "factor"@),
            ),
            TokenView::EOF => failed_factor(
                tokens,
                "Unexpected end of input while parsing factor"@,
            ),
            other => failed_factor(tokens.drop_first(), unexpected_token_message(other)),
        }
    }
}

/// `rest` is what remains of `tokens` after some prefix was taken away.
pub open spec fn is_suffix(rest: Seq<TokenView>, tokens: Seq<TokenView>) -> bool {
    &&& rest.len() <= tokens.len()
    &&& rest == tokens.skip(tokens.len() - rest.len())
}

proof fn lemma_suffix_chain(a: Seq<TokenView>, b: Seq<TokenView>, c: Seq<TokenView>)
    requires
        is_suffix(a, b),
        is_suffix(b, c),
    ensures
        is_suffix(a, c),
{
    assert(a =~= c.skip(c.len() - a.len()));
}

proof fn lemma_suffix_tail(tokens: Seq<TokenView>)
    requires
        tokens.len() > 0,
    ensures
        is_suffix(tokens.drop_first(), tokens),
{
    assert(tokens.drop_first() =~= tokens.skip(1));
}

proof fn lemma_suffix_self(tokens: Seq<TokenView>)
    ensures
        is_suffix(tokens, tokens),
{
    assert(tokens =~= tokens.skip(0));
}

/// Every production leaves a suffix of its input: tokens are only ever
/// consumed from the front, and none is invented.
pub proof fn lemma_expr_leaves_suffix(tokens: Seq<TokenView>)
    ensures
        is_suffix(parsed_expr(tokens).rest, tokens),
    decreases tokens.len(), 4nat,
{
    lemma_term_leaves_suffix(tokens);
    let term = parsed_term(tokens);
    lemma_exprdash_leaves_suffix(term.rest, term.ast);
    lemma_suffix_chain(parsed_exprdash(term.rest, term.ast).rest, term.rest, tokens);
}

/// See [`lemma_expr_leaves_suffix`].
pub proof fn lemma_exprdash_leaves_suffix(tokens: Seq<TokenView>, left: AstView)
    ensures
        is_suffix(parsed_exprdash(tokens, left).rest, tokens),
    decreases tokens.len(), 3nat,
{
    if tokens.len() > 0 && tokens[0] is Plus {
        let tail = tokens.drop_first();
        lemma_suffix_tail(tokens);
        lemma_term_leaves_suffix(tail);
        let term = parsed_term(tail);
        let next = binary("+"@, left, term.ast);
        lemma_exprdash_leaves_suffix(term.rest, next);
        lemma_suffix_chain(term.rest, tail, tokens);
        lemma_suffix_chain(parsed_exprdash(term.rest, next).rest, term.rest, tokens);
    } else if tokens.len() > 0 && tokens[0] is Error {
        lemma_suffix_tail(tokens);
    } else {
        lemma_suffix_self(tokens);
    }
}

/// See [`lemma_expr_leaves_suffix`].
pub proof fn lemma_term_leaves_suffix(tokens: Seq<TokenView>)
    ensures
        is_suffix(parsed_term(tokens).rest, tokens),
    decreases tokens.len(), 2nat,
{
    lemma_factor_leaves_suffix(tokens);
    let factor = parsed_factor(tokens);
    lemma_termdash_leaves_suffix(factor.rest, factor.ast);
    lemma_suffix_chain(parsed_termdash(factor.rest, factor.ast).rest, factor.rest, tokens);
}

/// See [`lemma_expr_leaves_suffix`].
pub proof fn lemma_termdash_leaves_suffix(tokens: Seq<TokenView>, left: AstView)
    ensures
        is_suffix(parsed_termdash(tokens, left).rest, tokens),
    decreases tokens.len(), 1nat,
{
    if tokens.len() > 0 && tokens[0] is Star {
        let tail = tokens.drop_first();
        lemma_suffix_tail(tokens);
        lemma_factor_leaves_suffix(tail);
        let factor = parsed_factor(tail);
        let next = binary("*"@, left, factor.ast);
        lemma_termdash_leaves_suffix(factor.rest, next);
        lemma_suffix_chain(factor.rest, tail, tokens);
        lemma_suffix_chain(parsed_termdash(factor.rest, next).rest, factor.rest, tokens);
    } else if tokens.len() > 0 && tokens[0] is Error {
        lemma_suffix_tail(tokens);
    } else {
        lemma_suffix_self(tokens);
    }
}

/// See [`lemma_expr_leaves_suffix`].
pub proof fn lemma_factor_leaves_suffix(tokens: Seq<TokenView>)
    ensures
        is_suffix(parsed_factor(tokens).rest, tokens),
    decreases tokens.len(), 0nat,
{
    lemma_suffix_self(tokens);
    if tokens.len() > 0 {
        lemma_suffix_tail(tokens);
        if tokens[0] is BOpen {
            let tail = tokens.drop_first();
            lemma_expr_leaves_suffix(tail);
            let inner = parsed_expr(tail);
            lemma_suffix_chain(inner.rest, tail, tokens);
            if inner.rest.len() > 0 {
                lemma_suffix_tail(inner.rest);
                lemma_suffix_chain(inner.rest.drop_first(), inner.rest, tokens);
            }
        }
    }
}

/// Records a diagnostic at the end of `errors`.
pub fn report_error(errors: &mut Vec<ParseError>, msg: &str)
    ensures
        messages(final(errors)@) == messages(old(errors)@).push(msg@),
{
    errors.push(ParseError { message: msg.to_owned() });
    assert(messages(errors@) =~= messages(old(errors)@).push(msg@));
}

impl ParseTree {
    /// A node with the given label and no children.
    pub fn new(label: &str) -> (node: ParseTree)
        ensures
            node@ == leaf(label@),
    {
        let node = ParseTree { label: label.to_owned(), children: Vec::new() };
        assert(node@.children =~= Seq::empty());
        node
    }
}

fn node1(label: &str, a: ParseTree) -> (node: ParseTree)
    ensures
        node@ == branch(label@, seq![a@]),
{
    let mut children: Vec<ParseTree> = Vec::new();
    children.push(a);
    let node = ParseTree { label: label.to_owned(), children };
    assert(node@.children =~= seq![a@]);
    node
}

fn node2(label: &str, a: ParseTree, b: ParseTree) -> (node: ParseTree)
    ensures
        node@ == branch(label@, seq![a@, b@]),
{
    let mut children: Vec<ParseTree> = Vec::new();
    children.push(a);
    children.push(b);
    let node = ParseTree { label: label.to_owned(), children };
    assert(node@.children =~= seq![a@, b@]);
    node
}

fn node3(label: &str, a: ParseTree, b: ParseTree, c: ParseTree) -> (node: ParseTree)
    ensures
        node@ == branch(label@, seq![a@, b@, c@]),
{
    let mut children: Vec<ParseTree> = Vec::new();
    children.push(a);
    children.push(b);
    children.push(c);
    let node = ParseTree { label: label.to_owned(), children };
    assert(node@.children =~= seq![a@, b@, c@]);
    node
}

/// Removes and returns the first token.
fn take_front(tokens: &mut VecDeque<Token>) -> (first: Token)
    requires
        old(tokens)@.len() > 0,
    ensures
        first == old(tokens)@[0],
        token_views(final(tokens)@) == token_views(old(tokens)@).drop_first(),
{
    let first = tokens.pop_front().unwrap();
    assert(token_views(tokens@) =~= token_views(old(tokens)@).drop_first());
    first
}

/// The invalid character at the front of `tokens`, if one stands there.
fn front_error(tokens: &VecDeque<Token>) -> (found: Option<char>)
    ensures
        found is Some <==> tokens@.len() > 0 && tokens@[0] is Error,
        found is Some ==> tokens@[0] == Token::Error(found->0),
{
    if tokens.len() == 0 {
        return None;
    }
    match &tokens[0] {
        Token::Error(ch) => Some(*ch),
        _ => None,
    }
}

fn invalid_char_text(ch: char, place: &str) -> (out: String)
    ensures
        out@ == invalid_char_message(ch, place@),
{
    let mut out = "Invalid character '".to_owned();
    push_char(&mut out, ch);
    out.append("' in ");
    out.append(place);
    out
}

fn front_debug_text(tokens: &VecDeque<Token>) -> (out: String)
    ensures
        out@ == front_debug(token_views(tokens@)),
{
    if tokens.len() == 0 {
        "None".to_owned()
    } else {
        let inner = tokens[0].debug_text();
        join3("Some(", inner.as_str(), ")")
    }
}

/// The result of a factor that could not be parsed, once `message` has been
/// recorded.
fn fail_factor(
    tokens: VecDeque<Token>,
    errors: &mut Vec<ParseError>,
    message: &str,
) -> (out: (ParseTree, AstNode, VecDeque<Token>))
    ensures
        out.0@ == failed_factor(token_views(tokens@), message@).tree,
        out.1@ == AstView::Error,
        out.2 == tokens,
        messages(final(errors)@) == messages(old(errors)@) + seq![message@],
{
    report_error(errors, message);
    assert(messages(errors@) =~= messages(old(errors)@) + seq![message@]);
    (node1("FACTOR", ParseTree::new("ERROR")), AstNode::Error, tokens)
}

/// Parses `EXPR -> TERM EXPRDASH` from the front of `tokens`.
///
/// Returns the parse tree, the syntax tree and the tokens left over, and
/// appends to `errors` the diagnostics met on the way, exactly as
/// [`parsed_expr`] says.
pub fn parse_expr(tokens: VecDeque<Token>, errors: &mut Vec<ParseError>) -> (out: (
    ParseTree,
    AstNode,
    VecDeque<Token>,
))
    ensures
        out.0@ == parsed_expr(token_views(tokens@)).tree,
        out.1@ == parsed_expr(token_views(tokens@)).ast,
        token_views(out.2@) == parsed_expr(token_views(tokens@)).rest,
        messages(final(errors)@) == messages(old(errors)@) + parsed_expr(
            token_views(tokens@),
        ).errors,
    decreases tokens@.len(), 4nat,
{
    let ghost input = token_views(tokens@);
    proof {
        lemma_term_leaves_suffix(input);
    }
    let (term_node, term_ast, after_term) = parse_term(tokens, errors);
    let ghost term = parsed_term(input);
    let (dash_node, ast, rest) = parse_exprdash(after_term, errors, term_ast);
    proof {
        let tail = parsed_exprdash(term.rest, term.ast);
        assert(messages(errors@) =~= messages(old(errors)@) + (term.errors + tail.errors));
    }
    (node2("EXPR", term_node, dash_node), ast, rest)
}

/// Parses `EXPRDASH -> '+' TERM EXPRDASH | ε`, folding each further term
/// into `left_ast`, exactly as [`parsed_exprdash`] says.
pub fn parse_exprdash(
    tokens: VecDeque<Token>,
    errors: &mut Vec<ParseError>,
    left_ast: AstNode,
) -> (out: (ParseTree, AstNode, VecDeque<Token>))
    ensures
        out.0@ == parsed_exprdash(token_views(tokens@), left_ast@).tree,
        out.1@ == parsed_exprdash(token_views(tokens@), left_ast@).ast,
        token_views(out.2@) == parsed_exprdash(token_views(tokens@), left_ast@).rest,
        messages(final(errors)@) == messages(old(errors)@) + parsed_exprdash(
            token_views(tokens@),
            left_ast@,
        ).errors,
    decreases tokens@.len(), 3nat,
{
    let ghost input = token_views(tokens@);
    let mut tokens = tokens;
    if tokens.len() > 0 && matches!(tokens[0], Token::Plus) {
        let _ = take_front(&mut tokens);
        proof {
            lemma_suffix_tail(input);
            lemma_term_leaves_suffix(input.drop_first());
        }
        let (term_node, term_ast, after_term) = parse_term(tokens, errors);
        let ghost term = parsed_term(input.drop_first());
        let combined = AstNode::BinaryOp {
            op: "+".to_owned(),
            left: Box::new(left_ast),
            right: Box::new(term_ast),
        };
        let (dash_node, ast, rest) = parse_exprdash(after_term, errors, combined);
        proof {
            let tail = parsed_exprdash(term.rest, combined@);
            assert(messages(errors@) =~= messages(old(errors)@) + (term.errors + tail.errors));
        }
        (node3("EXPRDASH", ParseTree::new("PLUS"), term_node, dash_node), ast, rest)
    } else if let Some(ch) = front_error(&tokens) {
        let _ = take_front(&mut tokens);
        let message = invalid_char_text(ch, "expression");
        report_error(errors, message.as_str());
        assert(messages(errors@) =~= messages(old(errors)@) + seq![message@]);
        (node1("EXPRDASH", ParseTree::new("ERROR")), AstNode::Error, tokens)
    } else {
        assert(messages(errors@) =~= messages(old(errors)@) + Seq::<Seq<char>>::empty());
        (node1("EXPRDASH", ParseTree::new("EPSILON")), left_ast, tokens)
    }
}

/// Parses `TERM -> FACTOR TERMDASH` from the front of `tokens`, exactly as
/// [`parsed_term`] says.
pub fn parse_term(tokens: VecDeque<Token>, errors: &mut Vec<ParseError>) -> (out: (
    ParseTree,
    AstNode,
    VecDeque<Token>,
))
    ensures
        out.0@ == parsed_term(token_views(tokens@)).tree,
        out.1@ == parsed_term(token_views(tokens@)).ast,
        token_views(out.2@) == parsed_term(token_views(tokens@)).rest,
        messages(final(errors)@) == messages(old(errors)@) + parsed_term(
            token_views(tokens@),
        ).errors,
    decreases tokens@.len(), 2nat,
{
    let ghost input = token_views(tokens@);
    proof {
        lemma_factor_leaves_suffix(input);
    }
    let (factor_node, factor_ast, after_factor) = parse_factor(tokens, errors);
    let ghost factor = parsed_factor(input);
    let (dash_node, ast, rest) = parse_termdash(after_factor, errors, factor_ast);
    proof {
        let tail = parsed_termdash(factor.rest, factor.ast);
        assert(messages(errors@) =~= messages(old(errors)@) + (factor.errors + tail.errors));
    }
    (node2("TERM", factor_node, dash_node), ast, rest)
}

/// Parses `TERMDASH -> '*' FACTOR TERMDASH | ε`, folding each further
/// factor into `left_ast`, exactly as [`parsed_termdash`] says.
pub fn parse_termdash(
    tokens: VecDeque<Token>,
    errors: &mut Vec<ParseError>,
    left_ast: AstNode,
) -> (out: (ParseTree, AstNode, VecDeque<Token>))
    ensures
        out.0@ == parsed_termdash(token_views(tokens@), left_ast@).tree,
        out.1@ == parsed_termdash(token_views(tokens@), left_ast@).ast,
        token_views(out.2@) == parsed_termdash(token_views(tokens@), left_ast@).rest,
        messages(final(errors)@) == messages(old(errors)@) + parsed_termdash(
            token_views(tokens@),
            left_ast@,
        ).errors,
    decreases tokens@.len(), 1nat,
{
    let ghost input = token_views(tokens@);
    let mut tokens = tokens;
    if tokens.len() > 0 && matches!(tokens[0], Token::Star) {
        let _ = take_front(&mut tokens);
        proof {
            lemma_suffix_tail(input);
            lemma_factor_leaves_suffix(input.drop_first());
        }
        let (factor_node, factor_ast, after_factor) = parse_factor(tokens, errors);
        let ghost factor = parsed_factor(input.drop_first());
        let combined = AstNode::BinaryOp {
            op: "*".to_owned(),
            left: Box::new(left_ast),
            right: Box::new(factor_ast),
        };
        let (dash_node, ast, rest) = parse_termdash(after_factor, errors, combined);
        proof {
            let tail = parsed_termdash(factor.rest, combined@);
            assert(messages(errors@) =~= messages(old(errors)@) + (factor.errors
                + tail.errors));
        }
        (node3("TERMDASH", ParseTree::new("STAR"), factor_node, dash_node), ast, rest)
    } else if let Some(ch) = front_error(&tokens) {
        let _ = take_front(&mut tokens);
        let message = invalid_char_text(ch, "term");
        report_error(errors, message.as_str());
        assert(messages(errors@) =~= messages(old(errors)@) + seq![message@]);
        (node1("TERMDASH", ParseTree::new("ERROR")), AstNode::Error, tokens)
    } else {
        assert(messages(errors@) =~= messages(old(errors)@) + Seq::<Seq<char>>::empty());
        (node1("TERMDASH", ParseTree::new("EPSILON")), left_ast, tokens)
    }
}

/// Parses `FACTOR -> IDENTIFIER | NUMBER | '(' EXPR ')'` from the front of
/// `tokens`, exactly as [`parsed_factor`] says.
///
/// Anything else is an error: it is recorded, at most one token is consumed
/// (none at the end of the input), and the factor becomes an `Error` node
/// so that the caller can go on with the operators that follow.
pub fn parse_factor(tokens: VecDeque<Token>, errors: &mut Vec<ParseError>) -> (out: (
    ParseTree,
    AstNode,
    VecDeque<Token>,
))
    ensures
        out.0@ == parsed_factor(token_views(tokens@)).tree,
        out.1@ == parsed_factor(token_views(tokens@)).ast,
        token_views(out.2@) == parsed_factor(token_views(tokens@)).rest,
        messages(final(errors)@) == messages(old(errors)@) + parsed_factor(
            token_views(tokens@),
        ).errors,
    decreases tokens@.len(), 0nat,
{
    let ghost input = token_views(tokens@);
    let mut tokens = tokens;
    if tokens.len() == 0 || matches!(tokens[0], Token::EOF) {
        return fail_factor(tokens, errors, "Unexpected end of input while parsing factor");
    }
    let first = take_front(&mut tokens);
    match first {
        Token::Identifier(name) => {
            let label = join3("IDENTIFIER(", name.as_str(), ")");
            let node = node1("FACTOR", ParseTree::new(label.as_str()));
            assert(messages(errors@) =~= messages(old(errors)@) + Seq::<Seq<char>>::empty());
            (node, AstNode::Identifier(name), tokens)
        },
        Token::Number(digits) => {
            let label = join3("NUMBER(", digits.as_str(), ")");
            let node = node1("FACTOR", ParseTree::new(label.as_str()));
            assert(messages(errors@) =~= messages(old(errors)@) + Seq::<Seq<char>>::empty());
            (node, AstNode::Number(digits), tokens)
        },
        Token::BOpen => {
            let (expr_node, expr_ast, mut rest) = parse_expr(tokens, errors);
            let ghost inner = parsed_expr(input.drop_first());
            if rest.len() > 0 && matches!(rest[0], Token::BClose) {
                let _ = take_front(&mut rest);
                let node = node3(
                    "FACTOR",
                    ParseTree::new("BOPEN"),
                    expr_node,
                    ParseTree::new("BCLOSE"),
                );
                (node, expr_ast, rest)
            } else {
                let found = front_debug_text(&rest);
                let message = join2("Expected ')' but found ", found.as_str());
                report_error(errors, message.as_str());
                let node = node3(
                    "FACTOR",
                    ParseTree::new("BOPEN"),
                    expr_node,
                    ParseTree::new("ERROR"),
                );
                (node, AstNode::Error, rest)
            }
        },
        Token::BClose => fail_factor(tokens, errors, "Unmatched ')'"),
        Token::Error(ch) => {
            let message = invalid_char_text(ch, "factor");
            fail_factor(tokens, errors, message.as_str())
        },
        other => {
            let shown = other.debug_text();
            let message = join2("Unexpected token in factor: ", shown.as_str());
            fail_factor(tokens, errors, message.as_str())
        },
    }
}

/// The label under which a node of the syntax tree is shown.
pub open spec fn ast_label(ast: AstView) -> Seq<char> {
    match ast {
        AstView::Number(digits) => digits,
        AstView::Identifier(name) => name,
        AstView::BinaryOp { op, .. } => op,
        AstView::Empty => "ε"@,
        AstView::Error => "ERROR"@,
    }
}

/// The operands of a node, left to right; none for a leaf.
pub open spec fn ast_children(ast: AstView) -> Seq<AstView> {
    match ast {
        AstView::BinaryOp { left, right, .. } => seq![*left, *right],
        _ => Seq::empty(),
    }
}

/// The number of nodes of a syntax tree.
pub open spec fn ast_size(ast: AstView) -> nat
    decreases ast,
{
    match ast {
        AstView::BinaryOp { left, right, .. } => 1 + ast_size(*left) + ast_size(*right),
        _ => 1,
    }
}

/// The number of nodes of all the trees of a level together.
pub open spec fn ast_level_size(level: Seq<AstView>) -> nat
    decreases level.len(),
{
    if level.len() == 0 {
        0
    } else {
        ast_level_size(level.drop_last()) + ast_size(level.last())
    }
}

/// The level below `level`: the operands of its nodes, in order.
pub open spec fn ast_next_level(level: Seq<AstView>) -> Seq<AstView>
    decreases level.len(),
{
    if level.len() == 0 {
        Seq::empty()
    } else {
        ast_next_level(level.drop_last()) + ast_children(level.last())
    }
}

/// The labels of a level, each followed by a space.
pub open spec fn ast_labels(level: Seq<AstView>) -> Seq<char>
    decreases level.len(),
{
    if level.len() == 0 {
        Seq::empty()
    } else {
        ast_labels(level.drop_last()) + ast_label(level.last()) + " "@
    }
}

/// Every level holds fewer nodes in all than the one above it.
pub proof fn lemma_ast_next_level_smaller(level: Seq<AstView>)
    ensures
        ast_level_size(ast_next_level(level)) + level.len() == ast_level_size(level),
    decreases level.len(),
{
    if level.len() > 0 {
        lemma_ast_next_level_smaller(level.drop_last());
        lemma_ast_level_size_concat(
            ast_next_level(level.drop_last()),
            ast_children(level.last()),
        );
        let kids = ast_children(level.last());
        if kids.len() > 0 {
            let one = kids.drop_last();
            assert(ast_level_size(one.drop_last()) == 0);
            assert(ast_level_size(one) == ast_size(kids[0]));
            assert(ast_level_size(kids) == ast_size(kids[0]) + ast_size(kids[1]));
        } else {
            assert(ast_level_size(kids) == 0);
        }
    }
}

proof fn lemma_ast_level_size_concat(a: Seq<AstView>, b: Seq<AstView>)
    ensures
        ast_level_size(a + b) == ast_level_size(a) + ast_level_size(b),
    decreases b.len(),
{
    if b.len() == 0 {
        assert(a + b =~= a);
    } else {
        assert((a + b).drop_last() =~= a + b.drop_last());
        lemma_ast_level_size_concat(a, b.drop_last());
    }
}

/// The level-order listing of the trees of `level` and of everything below
/// them: one line for each level, holding the labels of its nodes from left
/// to right, each followed by a space.
pub open spec fn ast_listing(level: Seq<AstView>) -> Seq<char>
    decreases ast_level_size(level),
{
    if level.len() == 0 {
        Seq::empty()
    } else {
        proof {
            lemma_ast_next_level_smaller(level);
        }
        ast_labels(level) + "\n"@ + ast_listing(ast_next_level(level))
    }
}

/// The views of a sequence of borrowed syntax trees, element by element.
pub open spec fn ast_views(nodes: Seq<&AstNode>) -> Seq<AstView> {
    Seq::new(nodes.len(), |i: int| nodes[i]@)
}

impl AstNode {
    /// The level-order listing of the tree, ready to be printed: see
    /// [`ast_listing`].
    pub fn print(&self) -> (out: String)
        ensures
            out@ == ast_listing(seq![self@]),
    {
        let mut out = String::new();
        let mut queue: Vec<&AstNode> = Vec::new();
        queue.push(self);
        assert(ast_views(queue@) =~= seq![self@]);
        while queue.len() > 0
            invariant
                out@ + ast_listing(ast_views(queue@)) == ast_listing(seq![self@]),
            decreases ast_level_size(ast_views(queue@)),
        {
            let ghost level = ast_views(queue@);
            let ghost done = out@;
            let mut next: Vec<&AstNode> = Vec::new();
            let mut i: usize = 0;
            assert(level.take(0) =~= Seq::<AstView>::empty());
            assert(ast_views(next@) =~= Seq::<AstView>::empty());
            assert(out@ =~= done + ast_labels(level.take(0)));
            while i < queue.len()
                invariant
                    i <= queue.len(),
                    level == ast_views(queue@),
                    out@ == done + ast_labels(level.take(i as int)),
                    ast_views(next@) == ast_next_level(level.take(i as int)),
                decreases queue.len() - i,
            {
                let node = queue[i];
                let ghost upto = level.take(i + 1);
                assert(upto.drop_last() =~= level.take(i as int));
                assert(upto.last() == node@);
                let ghost kids_before = ast_views(next@);
                match node {
                    AstNode::BinaryOp { op, left, right } => {
                        out.append(op.as_str());
                        next.push(&**left);
                        next.push(&**right);
                    },
                    AstNode::Identifier(name) => {
                        out.append(name.as_str());
                    },
                    AstNode::Number(digits) => {
                        out.append(digits.as_str());
                    },
                    AstNode::Empty => {
                        out.append("ε");
                    },
                    AstNode::Error => {
                        out.append("ERROR");
                    },
                }
                out.append(" ");
                assert(ast_views(next@) =~= kids_before + ast_children(node@));
                assert(out@ =~= done + ast_labels(upto));
                i += 1;
            }
            assert(level.take(i as int) =~= level);
            out.append("\n");
            proof {
                lemma_ast_next_level_smaller(level);
                assert(out@ + ast_listing(ast_views(next@)) =~= done + ast_listing(level));
            }
            queue = next;
        }
        assert(out@ + Seq::<char>::empty() =~= out@);
        out
    }
}

/// The number of nodes of a parse tree.
pub open spec fn tree_size(tree: TreeView) -> nat
    decreases tree,
{
    1 + forest_size(tree.children)
}

/// The number of nodes of all the given parse trees together.
pub open spec fn forest_size(trees: Seq<TreeView>) -> nat
    decreases trees,
{
    if trees.len() == 0 {
        0
    } else {
        forest_size(trees.drop_last()) + tree_size(trees.last())
    }
}

/// The level below `level`: the children of its nodes, in order.
pub open spec fn tree_next_level(level: Seq<TreeView>) -> Seq<TreeView>
    decreases level.len(),
{
    if level.len() == 0 {
        Seq::empty()
    } else {
        tree_next_level(level.drop_last()) + level.last().children
    }
}

/// The labels of a level, each followed by a space.
pub open spec fn tree_labels(level: Seq<TreeView>) -> Seq<char>
    decreases level.len(),
{
    if level.len() == 0 {
        Seq::empty()
    } else {
        tree_labels(level.drop_last()) + level.last().label + " "@
    }
}

proof fn lemma_forest_size_concat(a: Seq<TreeView>, b: Seq<TreeView>)
    ensures
        forest_size(a + b) == forest_size(a) + forest_size(b),
    decreases b.len(),
{
    if b.len() == 0 {
        assert(a + b =~= a);
    } else {
        assert((a + b).drop_last() =~= a + b.drop_last());
        lemma_forest_size_concat(a, b.drop_last());
    }
}

/// Every level holds fewer nodes in all than the one above it.
pub proof fn lemma_tree_next_level_smaller(level: Seq<TreeView>)
    ensures
        forest_size(tree_next_level(level)) + level.len() == forest_size(level),
    decreases level.len(),
{
    if level.len() > 0 {
        lemma_tree_next_level_smaller(level.drop_last());
        lemma_forest_size_concat(tree_next_level(level.drop_last()), level.last().children);
        assert(tree_size(level.last()) == 1 + forest_size(level.last().children));
    }
}

/// The level-order listing of the trees of `level` and of everything below
/// them: one line for each level, holding the labels of its nodes from left
/// to right, each followed by a space.
pub open spec fn tree_listing(level: Seq<TreeView>) -> Seq<char>
    decreases forest_size(level),
{
    if level.len() == 0 {
        Seq::empty()
    } else {
        proof {
            lemma_tree_next_level_smaller(level);
        }
        tree_labels(level) + "\n"@ + tree_listing(tree_next_level(level))
    }
}

/// The views of a sequence of borrowed parse trees, element by element.
pub open spec fn borrowed_tree_views(nodes: Seq<&ParseTree>) -> Seq<TreeView> {
    Seq::new(nodes.len(), |i: int| nodes[i]@)
}

impl ParseTree {
    /// The level-order listing of the tree, ready to be printed: see
    /// [`tree_listing`].
    pub fn print(&self) -> (out: String)
        ensures
            out@ == tree_listing(seq![self@]),
    {
        let mut out = String::new();
        let mut queue: Vec<&ParseTree> = Vec::new();
        queue.push(self);
        assert(borrowed_tree_views(queue@) =~= seq![self@]);
        while queue.len() > 0
            invariant
                out@ + tree_listing(borrowed_tree_views(queue@)) == tree_listing(seq![self@]),
            decreases forest_size(borrowed_tree_views(queue@)),
        {
            let ghost level = borrowed_tree_views(queue@);
            let ghost done = out@;
            let mut next: Vec<&ParseTree> = Vec::new();
            let mut i: usize = 0;
            assert(level.take(0) =~= Seq::<TreeView>::empty());
            assert(borrowed_tree_views(next@) =~= Seq::<TreeView>::empty());
            assert(out@ =~= done + tree_labels(level.take(0)));
            while i < queue.len()
                invariant
                    i <= queue.len(),
                    level == borrowed_tree_views(queue@),
                    out@ == done + tree_labels(level.take(i as int)),
                    borrowed_tree_views(next@) == tree_next_level(level.take(i as int)),
                decreases queue.len() - i,
            {
                let node = queue[i];
                let ghost upto = level.take(i + 1);
                assert(upto.drop_last() =~= level.take(i as int));
                assert(upto.last() == node@);
                let ghost kids_before = borrowed_tree_views(next@);
                out.append(node.label.as_str());
                out.append(" ");
                let mut j: usize = 0;
                while j < node.children.len()
                    invariant
                        j <= node.children.len(),
                        borrowed_tree_views(next@) == kids_before + node@.children.take(j as int),
                    decreases node.children.len() - j,
                {
                    let ghost so_far = borrowed_tree_views(next@);
                    next.push(&node.children[j]);
                    assert(node@.children.len() == node.children.len());
                    assert(node@.children[j as int] == node.children[j as int]@);
                    assert(borrowed_tree_views(next@) =~= so_far.push(node.children[j as int]@));
                    assert(node@.children.take(j + 1) =~= node@.children.take(j as int).push(
                        node@.children[j as int],
                    ));
                    assert(borrowed_tree_views(next@) =~= kids_before + node@.children.take(
                        j + 1,
                    ));
                    j += 1;
                }
                assert(node@.children.take(j as int) =~= node@.children);
                assert(out@ =~= done + tree_labels(upto));
                i += 1;
            }
            assert(level.take(i as int) =~= level);
            out.append("\n");
            proof {
                lemma_tree_next_level_smaller(level);
                assert(out@ + tree_listing(borrowed_tree_views(next@)) =~= done + tree_listing(
                    level,
                ));
            }
            queue = next;
        }
        assert(out@ + Seq::<char>::empty() =~= out@);
        out
    }
}

} // verus!
