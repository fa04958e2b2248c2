//! The language the parser accepts, stated independently of the parser, and
//! the proof that every sentence of it is parsed without a diagnostic.

use crate::parser::{
    binary, lemma_factor_leaves_suffix, lemma_term_leaves_suffix, parsed_expr, parsed_exprdash,
    parsed_factor, parsed_term, parsed_termdash, AstView, Parsed,
};
use crate::scanner::TokenView;
use vstd::prelude::*;

verus! {

/// The written form of an expression: like the syntax tree, but with the
/// parentheses still in place.
pub enum Syntax {
    Ident(Seq<char>),
    Num(Seq<char>),
    Paren(Box<Syntax>),
    Sum(Box<Syntax>, Box<Syntax>),
    Product(Box<Syntax>, Box<Syntax>),
}

/// `s` can stand where the grammar asks for a factor: a name, a number or
/// an expression in parentheses.
pub open spec fn is_factor(s: Syntax) -> bool
    decreases s, 0nat,
{
    match s {
        Syntax::Ident(_) => true,
        Syntax::Num(_) => true,
        Syntax::Paren(inner) => is_expr(*inner),
        _ => false,
    }
}

/// `s` can stand where the grammar asks for a term: a factor, or a term
/// times a factor.
pub open spec fn is_term(s: Syntax) -> bool
    decreases s, 1nat,
{
    match s {
        Syntax::Product(left, right) => is_term(*left) && is_factor(*right),
        _ => is_factor(s),
    }
}

/// `s` is an expression: a term, or an expression plus a term.
pub open spec fn is_expr(s: Syntax) -> bool
    decreases s, 2nat,
{
    match s {
        Syntax::Sum(left, right) => is_expr(*left) && is_term(*right),
        _ => is_term(s),
    }
}

/// The tokens that spell `s`, without an end marker.
pub open spec fn tokens_of(s: Syntax) -> Seq<TokenView>
    decreases s,
{
    match s {
        Syntax::Ident(name) => seq![TokenView::Identifier(name)],
        Syntax::Num(digits) => seq![TokenView::Number(digits)],
        Syntax::Paren(inner) => seq![TokenView::BOpen] + tokens_of(*inner) + seq![
            TokenView::BClose,
        ],
        Syntax::Sum(left, right) => tokens_of(*left) + seq![TokenView::Plus] + tokens_of(*right),
        Syntax::Product(left, right) => tokens_of(*left) + seq![TokenView::Star] + tokens_of(
            *right,
        ),
    }
}

/// The syntax tree that `s` stands for: parentheses dropped, both operators
/// grouped as written.
pub open spec fn ast_of(s: Syntax) -> AstView
    decreases s,
{
    match s {
        Syntax::Ident(name) => AstView::Identifier(name),
        Syntax::Num(digits) => AstView::Number(digits),
        Syntax::Paren(inner) => ast_of(*inner),
        Syntax::Sum(left, right) => binary("+"@, ast_of(*left), ast_of(*right)),
        Syntax::Product(left, right) => binary("*"@, ast_of(*left), ast_of(*right)),
    }
}

/// Two outcomes agree in everything but the parse tree.
pub open spec fn same_result(a: Parsed, b: Parsed) -> bool {
    &&& a.ast == b.ast
    &&& a.rest == b.rest
    &&& a.errors == b.errors
}

/// `tokens` does not begin with a token that a term would go on with.
pub open spec fn ends_term(tokens: Seq<TokenView>) -> bool {
    tokens.len() == 0 || !(tokens[0] is Star || tokens[0] is Error)
}

/// A factor at the front of the input is consumed whole and without a
/// diagnostic, whatever follows it.
pub proof fn lemma_factor_parses(s: Syntax, rest: Seq<TokenView>)
    requires
        is_factor(s),
    ensures
        parsed_factor(tokens_of(s) + rest).ast == ast_of(s),
        parsed_factor(tokens_of(s) + rest).rest == rest,
        parsed_factor(tokens_of(s) + rest).errors == Seq::<Seq<char>>::empty(),
    decreases s, 0nat,
{
    let tokens = tokens_of(s) + rest;
    match s {
        Syntax::Ident(name) => {
            assert(tokens.drop_first() =~= rest);
        },
        Syntax::Num(digits) => {
            assert(tokens.drop_first() =~= rest);
        },
        Syntax::Paren(inner) => {
            let after = seq![TokenView::BClose] + rest;
            assert(tokens.drop_first() =~= tokens_of(*inner) + after);
            lemma_expr_parses(*inner, after);
            assert(after.drop_first() =~= rest);
        },
        _ => {},
    }
}

/// A term at the front of the input is parsed as its syntax tree, and
/// parsing goes on after it as for any term's continuation.
pub proof fn lemma_term_parses(s: Syntax, rest: Seq<TokenView>)
    requires
        is_term(s),
    ensures
        same_result(parsed_term(tokens_of(s) + rest), parsed_termdash(rest, ast_of(s))),
    decreases s, 1nat,
{
    let tokens = tokens_of(s) + rest;
    lemma_factor_leaves_suffix(tokens);
    match s {
        Syntax::Product(left, right) => {
            let after = seq![TokenView::Star] + tokens_of(*right) + rest;
            assert(tokens =~= tokens_of(*left) + after);
            lemma_term_parses(*left, after);
            assert(after.drop_first() =~= tokens_of(*right) + rest);
            lemma_factor_parses(*right, rest);
            assert(Seq::<Seq<char>>::empty() + parsed_termdash(rest, ast_of(s)).errors
                =~= parsed_termdash(rest, ast_of(s)).errors);
        },
        _ => {
            lemma_factor_parses(s, rest);
            assert(Seq::<Seq<char>>::empty() + parsed_termdash(rest, ast_of(s)).errors
                =~= parsed_termdash(rest, ast_of(s)).errors);
        },
    }
}

/// An expression at the front of the input is parsed as its syntax tree,
/// and parsing goes on after it as for any expression's continuation,
/// provided that what follows does not continue its last term.
pub proof fn lemma_expr_parses(s: Syntax, rest: Seq<TokenView>)
    requires
        is_expr(s),
        ends_term(rest),
    ensures
        same_result(parsed_expr(tokens_of(s) + rest), parsed_exprdash(rest, ast_of(s))),
    decreases s, 2nat,
{
    let tokens = tokens_of(s) + rest;
    lemma_term_leaves_suffix(tokens);
    match s {
        Syntax::Sum(left, right) => {
            let after = seq![TokenView::Plus] + tokens_of(*right) + rest;
            assert(tokens =~= tokens_of(*left) + after);
            lemma_expr_parses(*left, after);
            assert(after.drop_first() =~= tokens_of(*right) + rest);
            lemma_term_parses(*right, rest);
            lemma_term_leaves_suffix(after.drop_first());
            assert(Seq::<Seq<char>>::empty() + parsed_exprdash(rest, ast_of(s)).errors
                =~= parsed_exprdash(rest, ast_of(s)).errors);
        },
        _ => {
            lemma_term_parses(s, rest);
            assert(Seq::<Seq<char>>::empty() + parsed_exprdash(rest, ast_of(s)).errors
                =~= parsed_exprdash(rest, ast_of(s)).errors);
        },
    }
}

/// Parsing a well-formed expression followed by the end marker consumes
/// everything but the marker, records no diagnostic and yields the
/// expression's syntax tree.
pub proof fn lemma_valid_input_parses_cleanly(s: Syntax)
    requires
        is_expr(s),
    ensures
        parsed_expr(tokens_of(s).push(TokenView::EOF)).rest == seq![TokenView::EOF],
        parsed_expr(tokens_of(s).push(TokenView::EOF)).errors.len() == 0,
        parsed_expr(tokens_of(s).push(TokenView::EOF)).ast == ast_of(s),
{
    let end = seq![TokenView::EOF];
    assert(tokens_of(s).push(TokenView::EOF) =~= tokens_of(s) + end);
    lemma_expr_parses(s, end);
}

/// A factor parsed without a diagnostic is a factor of the grammar: the
/// tokens consumed spell it, and the syntax tree returned is its own.
pub proof fn lemma_factor_sound(tokens: Seq<TokenView>) -> (s: Syntax)
    requires
        parsed_factor(tokens).errors.len() == 0,
    ensures
        is_factor(s),
        tokens == tokens_of(s) + parsed_factor(tokens).rest,
        parsed_factor(tokens).ast == ast_of(s),
    decreases tokens.len(), 0nat,
{
    match tokens[0] {
        TokenView::Identifier(name) => {
            let s = Syntax::Ident(name);
            assert(tokens =~= tokens_of(s) + tokens.drop_first());
            s
        },
        TokenView::Number(digits) => {
            let s = Syntax::Num(digits);
            assert(tokens =~= tokens_of(s) + tokens.drop_first());
            s
        },
        _ => {
            assert(tokens.len() > 0 && tokens[0] is BOpen);
            let tail = tokens.drop_first();
            let inner = parsed_expr(tail);
            assert(inner.rest.len() > 0 && inner.rest[0] is BClose);
            let e = lemma_expr_sound(tail);
            let s = Syntax::Paren(Box::new(e));
            assert(tokens =~= seq![TokenView::BOpen] + tail);
            assert(inner.rest =~= seq![TokenView::BClose] + inner.rest.drop_first());
            assert(tokens =~= tokens_of(s) + inner.rest.drop_first());
            s
        },
    }
}

/// The continuation of a term, parsed without a diagnostic, extends the
/// term `left` to a term of the grammar.
pub proof fn lemma_termdash_sound(tokens: Seq<TokenView>, left: Syntax) -> (s: Syntax)
    requires
        is_term(left),
        parsed_termdash(tokens, ast_of(left)).errors.len() == 0,
    ensures
        is_term(s),
        tokens_of(left) + tokens == tokens_of(s) + parsed_termdash(tokens, ast_of(left)).rest,
        parsed_termdash(tokens, ast_of(left)).ast == ast_of(s),
    decreases tokens.len(), 1nat,
{
    if tokens.len() > 0 && tokens[0] is Star {
        let tail = tokens.drop_first();
        lemma_factor_leaves_suffix(tail);
        let factor = parsed_factor(tail);
        let f = lemma_factor_sound(tail);
        let combined = Syntax::Product(Box::new(left), Box::new(f));
        let s = lemma_termdash_sound(factor.rest, combined);
        assert(tokens =~= seq![TokenView::Star] + tail);
        assert(tokens_of(left) + tokens =~= tokens_of(combined) + factor.rest);
        s
    } else {
        left
    }
}

/// A term parsed without a diagnostic is a term of the grammar.
pub proof fn lemma_term_sound(tokens: Seq<TokenView>) -> (s: Syntax)
    requires
        parsed_term(tokens).errors.len() == 0,
    ensures
        is_term(s),
        tokens == tokens_of(s) + parsed_term(tokens).rest,
        parsed_term(tokens).ast == ast_of(s),
    decreases tokens.len(), 2nat,
{
    lemma_factor_leaves_suffix(tokens);
    let factor = parsed_factor(tokens);
    let f = lemma_factor_sound(tokens);
    lemma_termdash_sound(factor.rest, f)
}

/// The continuation of an expression, parsed without a diagnostic, extends
/// the expression `left` to an expression of the grammar.
pub proof fn lemma_exprdash_sound(tokens: Seq<TokenView>, left: Syntax) -> (s: Syntax)
    requires
        is_expr(left),
        parsed_exprdash(tokens, ast_of(left)).errors.len() == 0,
    ensures
        is_expr(s),
        tokens_of(left) + tokens == tokens_of(s) + parsed_exprdash(tokens, ast_of(left)).rest,
        parsed_exprdash(tokens, ast_of(left)).ast == ast_of(s),
    decreases tokens.len(), 3nat,
{
    if tokens.len() > 0 && tokens[0] is Plus {
        let tail = tokens.drop_first();
        lemma_term_leaves_suffix(tail);
        let term = parsed_term(tail);
        let t = lemma_term_sound(tail);
        let combined = Syntax::Sum(Box::new(left), Box::new(t));
        let s = lemma_exprdash_sound(term.rest, combined);
        assert(tokens =~= seq![TokenView::Plus] + tail);
        assert(tokens_of(left) + tokens =~= tokens_of(combined) + term.rest);
        s
    } else {
        left
    }
}

/// An expression parsed without a diagnostic is an expression of the
/// grammar: the tokens consumed spell it, and the syntax tree returned is
/// its own.  With [`lemma_expr_parses`] this says that the inputs parsed
/// cleanly are exactly the sentences of the grammar.
pub proof fn lemma_expr_sound(tokens: Seq<TokenView>) -> (s: Syntax)
    requires
        parsed_expr(tokens).errors.len() == 0,
    ensures
        is_expr(s),
        tokens == tokens_of(s) + parsed_expr(tokens).rest,
        parsed_expr(tokens).ast == ast_of(s),
    decreases tokens.len(), 4nat,
{
    lemma_term_leaves_suffix(tokens);
    let term = parsed_term(tokens);
    let t = lemma_term_sound(tokens);
    assert(is_expr(t)) by {
        if t is Sum {
            assert(!is_factor(t));
        }
    }
    lemma_exprdash_sound(term.rest, t)
}

} // verus!
