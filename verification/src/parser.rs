//! Parsing a statement.
//!
//! Grammar, from loosest to tightest binding:
//!
//! ```text
//! statement := IDENT ":=" quantity
//!            | quantity ("->" IDENT)?
//! quantity  := additive IDENT?
//! additive  := multiplicative (("+" | "-") multiplicative)*
//! multiplicative := power (("*" | "/") power)*
//! power     := unary ("^" power)?
//! unary     := "-" unary | primary
//! primary   := NUMBER | IDENT | IDENT "(" items? ")" | "(" additive ")" | "[" items? "]"
//! items     := additive ("," additive)*
//! ```
//!
//! The specification is a set of functions over the token views and a token
//! position; each returns the parsed tree and the position after it.
use crate::lexer::{
    lang_error, lex, lex_from, tokens_view, KindView, LangError, LangErrorView, Token, TokenKind,
    TokenView,
};
use crate::syntax::{
    expr_span, exprs_view, lemma_exprs_view_push, BinaryOp, Expr, ExprView, Stmt, StmtView,
    UnaryOp,
};
use crate::text::Span;
use vstd::prelude::*;

verus! {

broadcast use vstd::seq::group_seq_axioms;

pub type ExprResult = Result<(ExprView, int), LangErrorView>;

pub type ItemsResult = Result<(Seq<ExprView>, int), LangErrorView>;

pub open spec fn cover(a: Span, b: Span) -> Span {
    a.spec_cover(b)
}

pub open spec fn end_of_input() -> LangErrorView {
    lang_error(Span { start: 0, end: 0 }, "unexpected end of input"@)
}

pub open spec fn has_kind_plus_or_minus(t: Seq<TokenView>, p: int) -> bool {
    0 <= p < t.len() && (t[p].kind is Plus || t[p].kind is Minus)
}

pub open spec fn has_kind_star_or_slash(t: Seq<TokenView>, p: int) -> bool {
    0 <= p < t.len() && (t[p].kind is Star || t[p].kind is Slash)
}

pub open spec fn additive_op(k: KindView) -> BinaryOp {
    if k is Plus {
        BinaryOp::Add
    } else {
        BinaryOp::Sub
    }
}

pub open spec fn multiplicative_op(k: KindView) -> BinaryOp {
    if k is Star {
        BinaryOp::Mul
    } else {
        BinaryOp::Div
    }
}

pub open spec fn binary(op: BinaryOp, left: ExprView, right: ExprView) -> ExprView {
    ExprView::Binary {
        op,
        left: Box::new(left),
        right: Box::new(right),
        span: cover(expr_span(left), expr_span(right)),
    }
}

/// A closing `)` or `]` expected at `q`, after the opening token at `open`.
pub open spec fn closes(t: Seq<TokenView>, open: int, q: int, square: bool) -> Option<LangErrorView> {
    let message = if square {
        "expected `]`"@
    } else {
        "expected `)`"@
    };
    if q >= t.len() {
        Some(lang_error(t[open].span, message))
    } else if (square && !(t[q].kind is RBracket)) || (!square && !(t[q].kind is RParen)) {
        Some(lang_error(t[q].span, message))
    } else {
        None
    }
}

pub open spec fn p_primary(t: Seq<TokenView>, p: int) -> ExprResult
    decreases t.len() - p, 1nat,
{
    if p < 0 || p >= t.len() {
        Err(end_of_input())
    } else {
        match t[p].kind {
            KindView::Number(text) => Ok((ExprView::Number(text, t[p].span), p + 1)),
            KindView::Ident(name) => {
                if p + 1 < t.len() && t[p + 1].kind is LParen {
                    let args: ItemsResult = if p + 2 < t.len() && t[p + 2].kind is RParen {
                        Ok((Seq::empty(), p + 2))
                    } else {
                        p_items(t, p + 2, Seq::empty())
                    };
                    match args {
                        Err(e) => Err(e),
                        Ok((args, q)) => match closes(t, p, q, false) {
                            Some(e) => Err(e),
                            None => Ok(
                                (
                                    ExprView::Call {
                                        name,
                                        args,
                                        span: cover(t[p].span, t[q].span),
                                    },
                                    q + 1,
                                ),
                            ),
                        },
                    }
                } else {
                    Ok((ExprView::Var(name, t[p].span), p + 1))
                }
            },
            KindView::LParen => match p_additive(t, p + 1) {
                Err(e) => Err(e),
                Ok((e, q)) => match closes(t, p, q, false) {
                    Some(err) => Err(err),
                    None => Ok((e, q + 1)),
                },
            },
            KindView::LBracket => {
                let items: ItemsResult = if p + 1 < t.len() && t[p + 1].kind is RBracket {
                    Ok((Seq::empty(), p + 1))
                } else {
                    p_items(t, p + 1, Seq::empty())
                };
                match items {
                    Err(e) => Err(e),
                    Ok((items, q)) => match closes(t, p, q, true) {
                        Some(e) => Err(e),
                        None => Ok((ExprView::List(items, cover(t[p].span, t[q].span)), q + 1)),
                    },
                }
            },
            _ => Err(lang_error(t[p].span, "expected expression"@)),
        }
    }
}

pub open spec fn p_unary(t: Seq<TokenView>, p: int) -> ExprResult
    decreases t.len() - p, 2nat,
{
    if 0 <= p < t.len() && t[p].kind is Minus {
        match p_unary(t, p + 1) {
            Err(e) => Err(e),
            Ok((e, q)) => Ok(
                (
                    ExprView::Unary {
                        op: UnaryOp::Neg,
                        expr: Box::new(e),
                        span: cover(t[p].span, expr_span(e)),
                    },
                    q,
                ),
            ),
        }
    } else {
        p_primary(t, p)
    }
}

pub open spec fn p_power(t: Seq<TokenView>, p: int) -> ExprResult
    decreases t.len() - p, 3nat,
{
    match p_unary(t, p) {
        Err(e) => Err(e),
        Ok((e, q)) => if p <= q < t.len() && t[q].kind is Caret {
            match p_power(t, q + 1) {
                Err(err) => Err(err),
                Ok((right, q2)) => Ok((binary(BinaryOp::Pow, e, right), q2)),
            }
        } else {
            Ok((e, q))
        },
    }
}

pub open spec fn p_multiplicative_rest(t: Seq<TokenView>, q: int, left: ExprView) -> ExprResult
    decreases t.len() - q, 4nat,
{
    if has_kind_star_or_slash(t, q) {
        match p_power(t, q + 1) {
            Err(e) => Err(e),
            Ok((right, q2)) => if q < q2 <= t.len() {
                p_multiplicative_rest(t, q2, binary(multiplicative_op(t[q].kind), left, right))
            } else {
                Ok((left, q))
            },
        }
    } else {
        Ok((left, q))
    }
}

pub open spec fn p_multiplicative(t: Seq<TokenView>, p: int) -> ExprResult
    decreases t.len() - p, 5nat,
{
    match p_power(t, p) {
        Err(e) => Err(e),
        Ok((e, q)) => if p <= q <= t.len() {
            p_multiplicative_rest(t, q, e)
        } else {
            Ok((e, q))
        },
    }
}

pub open spec fn p_additive_rest(t: Seq<TokenView>, q: int, left: ExprView) -> ExprResult
    decreases t.len() - q, 6nat,
{
    if has_kind_plus_or_minus(t, q) {
        match p_multiplicative(t, q + 1) {
            Err(e) => Err(e),
            Ok((right, q2)) => if q < q2 <= t.len() {
                p_additive_rest(t, q2, binary(additive_op(t[q].kind), left, right))
            } else {
                Ok((left, q))
            },
        }
    } else {
        Ok((left, q))
    }
}

pub open spec fn p_additive(t: Seq<TokenView>, p: int) -> ExprResult
    decreases t.len() - p, 7nat,
{
    match p_multiplicative(t, p) {
        Err(e) => Err(e),
        Ok((e, q)) => if p <= q <= t.len() {
            p_additive_rest(t, q, e)
        } else {
            Ok((e, q))
        },
    }
}

/// Comma-separated expressions from `p` on, after those already in `acc`.
pub open spec fn p_items(t: Seq<TokenView>, p: int, acc: Seq<ExprView>) -> ItemsResult
    decreases t.len() - p, 8nat,
{
    match p_additive(t, p) {
        Err(e) => Err(e),
        Ok((e, q)) => if p <= q < t.len() && t[q].kind is Comma {
            p_items(t, q + 1, acc.push(e))
        } else {
            Ok((acc.push(e), q))
        },
    }
}

/// An additive expression, followed by an optional unit name.
pub open spec fn p_quantity(t: Seq<TokenView>, p: int) -> ExprResult {
    match p_additive(t, p) {
        Err(e) => Err(e),
        Ok((e, q)) => if 0 <= q < t.len() && t[q].kind is Ident {
            Ok(
                (
                    ExprView::Quantity {
                        expr: Box::new(e),
                        unit: t[q].kind->Ident_0,
                        span: cover(expr_span(e), t[q].span),
                    },
                    q + 1,
                ),
            )
        } else {
            Ok((e, q))
        },
    }
}

pub open spec fn target_unit_message() -> Seq<char> {
    "expected target unit after `->`"@
}

/// The statement at the front of `t`, and the position after it.
pub open spec fn p_statement(t: Seq<TokenView>) -> Result<(StmtView, int), LangErrorView> {
    if t.len() >= 2 && t[0].kind is Ident && t[1].kind is Assign {
        match p_quantity(t, 2) {
            Err(e) => Err(e),
            Ok((e, q)) => Ok(
                (
                    StmtView::Assign {
                        name: t[0].kind->Ident_0,
                        expr: e,
                        span: cover(t[0].span, expr_span(e)),
                    },
                    q,
                ),
            ),
        }
    } else {
        match p_quantity(t, 0) {
            Err(e) => Err(e),
            Ok((e, q)) => if 0 <= q < t.len() && t[q].kind is Arrow {
                if q + 1 >= t.len() {
                    Err(lang_error(expr_span(e), target_unit_message()))
                } else if t[q + 1].kind is Ident {
                    Ok(
                        (
                            StmtView::Convert {
                                expr: e,
                                to_unit: t[q + 1].kind->Ident_0,
                                to_unit_span: t[q + 1].span,
                                span: cover(expr_span(e), t[q + 1].span),
                            },
                            q + 2,
                        ),
                    )
                } else {
                    Err(lang_error(t[q + 1].span, target_unit_message()))
                }
            } else {
                Ok((StmtView::Expr(e), q))
            },
        }
    }
}

/// The statement that the tokens `t` make up, with nothing after it.
pub open spec fn statement_of_tokens(t: Seq<TokenView>) -> Result<StmtView, LangErrorView> {
    match p_statement(t) {
        Err(e) => Err(e),
        Ok((s, q)) => if 0 <= q < t.len() {
            Err(lang_error(t[q].span, "unexpected trailing input"@))
        } else {
            Ok(s)
        },
    }
}

/// The statement that the text `source` holds, or the first lexing or
/// parsing error.
pub open spec fn statement_of(source: Seq<char>) -> Result<StmtView, LangErrorView> {
    match lex_from(vstd::utf8::encode_utf8(source), 0) {
        Err(e) => Err(e),
        Ok(t) => statement_of_tokens(t),
    }
}

/// The executable result `r` is the specified result `s`, and a success
/// moved forward from `p` but not past `n`.
pub open spec fn agrees(r: Result<(Expr, usize), LangError>, s: ExprResult, p: int, n: int) -> bool {
    match r {
        Ok((e, q)) => s == Ok::<(ExprView, int), LangErrorView>((e@, q as int)) && p < q <= n,
        Err(err) => s == Err::<(ExprView, int), LangErrorView>(err@),
    }
}

pub open spec fn stmt_result_view(r: Result<Stmt, LangError>) -> Result<StmtView, LangErrorView> {
    match r {
        Ok(s) => Ok(s@),
        Err(e) => Err(e@),
    }
}

fn error_at(span: Span, message: &str) -> (e: LangError)
    ensures
        e@ == lang_error(span, message@),
{
    LangError { span, message: crate::lexer::text(message) }
}

fn is_kind_at(tokens: &Vec<Token>, p: usize, which: u8) -> (b: bool)
    ensures
        b == (p < tokens.len() && match tokens@[p as int].kind@ {
            KindView::LParen => which == 0,
            KindView::RParen => which == 1,
            KindView::LBracket => which == 2,
            KindView::RBracket => which == 3,
            KindView::Comma => which == 4,
            KindView::Caret => which == 5,
            KindView::Minus => which == 6,
            KindView::Arrow => which == 7,
            _ => false,
        }),
{
    if p >= tokens.len() {
        return false;
    }
    match &tokens[p].kind {
        TokenKind::LParen => which == 0,
        TokenKind::RParen => which == 1,
        TokenKind::LBracket => which == 2,
        TokenKind::RBracket => which == 3,
        TokenKind::Comma => which == 4,
        TokenKind::Caret => which == 5,
        TokenKind::Minus => which == 6,
        TokenKind::Arrow => which == 7,
        _ => false,
    }
}

proof fn lemma_token_view(tokens: Seq<Token>, p: int)
    requires
        0 <= p < tokens.len(),
    ensures
        tokens_view(tokens)[p] == tokens[p]@,
        tokens_view(tokens).len() == tokens.len(),
{
}

/// The closing token at `q`, checked as `closes` specifies.
fn expect_close(tokens: &Vec<Token>, open: usize, q: usize, square: bool) -> (r: Result<(), LangError>)
    requires
        open < tokens.len(),
    ensures
        match r {
            Ok(()) => closes(tokens_view(tokens@), open as int, q as int, square) is None,
            Err(e) => closes(tokens_view(tokens@), open as int, q as int, square) == Some(e@),
        },
{
    let ghost t = tokens_view(tokens@);
    proof {
        lemma_token_view(tokens@, open as int);
    }
    let message = if square {
        "expected `]`"
    } else {
        "expected `)`"
    };
    if q >= tokens.len() {
        return Err(error_at(tokens[open].span, message));
    }
    proof {
        lemma_token_view(tokens@, q as int);
    }
    let ok = if square {
        is_kind_at(tokens, q, 3)
    } else {
        is_kind_at(tokens, q, 1)
    };
    if !ok {
        return Err(error_at(tokens[q].span, message));
    }
    Ok(())
}

/// Comma-separated expressions from `p` on.
fn parse_items(tokens: &Vec<Token>, p: usize) -> (r: Result<(Vec<Expr>, usize), LangError>)
    requires
        p <= tokens.len(),
    ensures
        match r {
            Ok((items, q)) => p_items(tokens_view(tokens@), p as int, Seq::empty()) == Ok::<
                (Seq<ExprView>, int),
                LangErrorView,
            >((exprs_view(items@), q as int)) && p < q <= tokens.len(),
            Err(e) => p_items(tokens_view(tokens@), p as int, Seq::empty()) == Err::<
                (Seq<ExprView>, int),
                LangErrorView,
            >(e@),
        },
    decreases tokens.len() - p, 8nat,
{
    let ghost t = tokens_view(tokens@);
    let mut items: Vec<Expr> = Vec::new();
    let mut j = p;
    assert(exprs_view(items@) =~= Seq::<ExprView>::empty());
    loop
        invariant
            t == tokens_view(tokens@),
            p <= j <= tokens.len(),
            p_items(t, p as int, Seq::empty()) == p_items(t, j as int, exprs_view(items@)),
        decreases tokens.len() - j,
    {
        match parse_additive(tokens, j) {
            Err(e) => {
                return Err(e);
            },
            Ok((e, q)) => {
                proof {
                    lemma_exprs_view_push(items@, e);
                }
                items.push(e);
                if is_kind_at(tokens, q, 4) {
                    proof {
                        lemma_token_view(tokens@, q as int);
                    }
                    j = q + 1;
                } else {
                    return Ok((items, q));
                }
            },
        }
    }
}

fn parse_primary(tokens: &Vec<Token>, p: usize) -> (r: Result<(Expr, usize), LangError>)
    requires
        p <= tokens.len(),
    ensures
        agrees(r, p_primary(tokens_view(tokens@), p as int), p as int, tokens.len() as int),
    decreases tokens.len() - p, 1nat,
{
    let ghost t = tokens_view(tokens@);
    if p >= tokens.len() {
        return Err(error_at(Span::new(0, 0), "unexpected end of input"));
    }
    proof {
        lemma_token_view(tokens@, p as int);
    }
    let span = tokens[p].span;
    match &tokens[p].kind {
        TokenKind::Number(literal) => Ok((Expr::Number(literal.clone(), span), p + 1)),
        TokenKind::Ident(name) => {
            if is_kind_at(tokens, p + 1, 0) {
                let args_result = if is_kind_at(tokens, p + 2, 1) {
                    let empty: Vec<Expr> = Vec::new();
                    assert(exprs_view(empty@) =~= Seq::<ExprView>::empty());
                    Ok((empty, p + 2))
                } else {
                    parse_items(tokens, p + 2)
                };
                match args_result {
                    Err(e) => Err(e),
                    Ok((args, q)) => {
                        match expect_close(tokens, p, q, false) {
                            Err(e) => Err(e),
                            Ok(()) => {
                                proof {
                                    lemma_token_view(tokens@, q as int);
                                }
                                let close = tokens[q].span;
                                Ok(
                                    (
                                        Expr::Call {
                                            name: name.clone(),
                                            args,
                                            span: span.cover(close),
                                        },
                                        q + 1,
                                    ),
                                )
                            },
                        }
                    },
                }
            } else {
                Ok((Expr::Var(name.clone(), span), p + 1))
            }
        },
        TokenKind::LParen => {
            match parse_additive(tokens, p + 1) {
                Err(e) => Err(e),
                Ok((e, q)) => match expect_close(tokens, p, q, false) {
                    Err(err) => Err(err),
                    Ok(()) => Ok((e, q + 1)),
                },
            }
        },
        TokenKind::LBracket => {
            let items_result = if is_kind_at(tokens, p + 1, 3) {
                let empty: Vec<Expr> = Vec::new();
                assert(exprs_view(empty@) =~= Seq::<ExprView>::empty());
                Ok((empty, p + 1))
            } else {
                parse_items(tokens, p + 1)
            };
            match items_result {
                Err(e) => Err(e),
                Ok((items, q)) => match expect_close(tokens, p, q, true) {
                    Err(e) => Err(e),
                    Ok(()) => {
                        proof {
                            lemma_token_view(tokens@, q as int);
                        }
                        let close = tokens[q].span;
                        Ok((Expr::List(items, span.cover(close)), q + 1))
                    },
                },
            }
        },
        _ => Err(error_at(span, "expected expression")),
    }
}

fn parse_unary(tokens: &Vec<Token>, p: usize) -> (r: Result<(Expr, usize), LangError>)
    requires
        p <= tokens.len(),
    ensures
        agrees(r, p_unary(tokens_view(tokens@), p as int), p as int, tokens.len() as int),
    decreases tokens.len() - p, 2nat,
{
    if is_kind_at(tokens, p, 6) {
        proof {
            lemma_token_view(tokens@, p as int);
        }
        let start = tokens[p].span;
        match parse_unary(tokens, p + 1) {
            Err(e) => Err(e),
            Ok((e, q)) => {
                let span = start.cover(e.span());
                Ok((Expr::Unary { op: UnaryOp::Neg, expr: Box::new(e), span }, q))
            },
        }
    } else {
        parse_primary(tokens, p)
    }
}

fn parse_power(tokens: &Vec<Token>, p: usize) -> (r: Result<(Expr, usize), LangError>)
    requires
        p <= tokens.len(),
    ensures
        agrees(r, p_power(tokens_view(tokens@), p as int), p as int, tokens.len() as int),
    decreases tokens.len() - p, 3nat,
{
    match parse_unary(tokens, p) {
        Err(e) => Err(e),
        Ok((e, q)) => {
            if is_kind_at(tokens, q, 5) {
                proof {
                    lemma_token_view(tokens@, q as int);
                }
                match parse_power(tokens, q + 1) {
                    Err(err) => Err(err),
                    Ok((right, q2)) => {
                        let span = e.span().cover(right.span());
                        Ok(
                            (
                                Expr::Binary {
                                    op: BinaryOp::Pow,
                                    left: Box::new(e),
                                    right: Box::new(right),
                                    span,
                                },
                                q2,
                            ),
                        )
                    },
                }
            } else {
                Ok((e, q))
            }
        },
    }
}

/// The operator of a `*` or `/` token at `q`, if there is one.
fn multiplicative_op_at(tokens: &Vec<Token>, q: usize) -> (op: Option<BinaryOp>)
    ensures
        match op {
            Some(o) => has_kind_star_or_slash(tokens_view(tokens@), q as int) && o
                == multiplicative_op(tokens_view(tokens@)[q as int].kind),
            None => !has_kind_star_or_slash(tokens_view(tokens@), q as int),
        },
{
    if q >= tokens.len() {
        return None;
    }
    proof {
        lemma_token_view(tokens@, q as int);
    }
    match &tokens[q].kind {
        TokenKind::Star => Some(BinaryOp::Mul),
        TokenKind::Slash => Some(BinaryOp::Div),
        _ => None,
    }
}

/// The operator of a `+` or `-` token at `q`, if there is one.
fn additive_op_at(tokens: &Vec<Token>, q: usize) -> (op: Option<BinaryOp>)
    ensures
        match op {
            Some(o) => has_kind_plus_or_minus(tokens_view(tokens@), q as int) && o == additive_op(
                tokens_view(tokens@)[q as int].kind,
            ),
            None => !has_kind_plus_or_minus(tokens_view(tokens@), q as int),
        },
{
    if q >= tokens.len() {
        return None;
    }
    proof {
        lemma_token_view(tokens@, q as int);
    }
    match &tokens[q].kind {
        TokenKind::Plus => Some(BinaryOp::Add),
        TokenKind::Minus => Some(BinaryOp::Sub),
        _ => None,
    }
}

fn parse_multiplicative(tokens: &Vec<Token>, p: usize) -> (r: Result<(Expr, usize), LangError>)
    requires
        p <= tokens.len(),
    ensures
        agrees(r, p_multiplicative(tokens_view(tokens@), p as int), p as int, tokens.len() as int),
    decreases tokens.len() - p, 5nat,
{
    let ghost t = tokens_view(tokens@);
    let (mut expr, mut q) = match parse_power(tokens, p) {
        Err(e) => {
            return Err(e);
        },
        Ok(found) => found,
    };
    loop
        invariant
            t == tokens_view(tokens@),
            p < q <= tokens.len(),
            p_multiplicative(t, p as int) == p_multiplicative_rest(t, q as int, expr@),
        decreases tokens.len() - q,
    {
        match multiplicative_op_at(tokens, q) {
            None => {
                return Ok((expr, q));
            },
            Some(op) => {
                match parse_power(tokens, q + 1) {
                    Err(e) => {
                        return Err(e);
                    },
                    Ok((right, q2)) => {
                        let span = expr.span().cover(right.span());
                        expr = Expr::Binary {
                            op,
                            left: Box::new(expr),
                            right: Box::new(right),
                            span,
                        };
                        q = q2;
                    },
                }
            },
        }
    }
}

fn parse_additive(tokens: &Vec<Token>, p: usize) -> (r: Result<(Expr, usize), LangError>)
    requires
        p <= tokens.len(),
    ensures
        agrees(r, p_additive(tokens_view(tokens@), p as int), p as int, tokens.len() as int),
    decreases tokens.len() - p, 7nat,
{
    let ghost t = tokens_view(tokens@);
    let (mut expr, mut q) = match parse_multiplicative(tokens, p) {
        Err(e) => {
            return Err(e);
        },
        Ok(found) => found,
    };
    loop
        invariant
            t == tokens_view(tokens@),
            p < q <= tokens.len(),
            p_additive(t, p as int) == p_additive_rest(t, q as int, expr@),
        decreases tokens.len() - q,
    {
        match additive_op_at(tokens, q) {
            None => {
                return Ok((expr, q));
            },
            Some(op) => {
                match parse_multiplicative(tokens, q + 1) {
                    Err(e) => {
                        return Err(e);
                    },
                    Ok((right, q2)) => {
                        let span = expr.span().cover(right.span());
                        expr = Expr::Binary {
                            op,
                            left: Box::new(expr),
                            right: Box::new(right),
                            span,
                        };
                        q = q2;
                    },
                }
            },
        }
    }
}

fn parse_quantity(tokens: &Vec<Token>, p: usize) -> (r: Result<(Expr, usize), LangError>)
    requires
        p <= tokens.len(),
    ensures
        agrees(r, p_quantity(tokens_view(tokens@), p as int), p as int, tokens.len() as int),
{
    match parse_additive(tokens, p) {
        Err(e) => Err(e),
        Ok((e, q)) => {
            if q < tokens.len() {
                proof {
                    lemma_token_view(tokens@, q as int);
                }
                if let TokenKind::Ident(unit) = &tokens[q].kind {
                    let span = e.span().cover(tokens[q].span);
                    return Ok((Expr::Quantity { expr: Box::new(e), unit: unit.clone(), span }, q + 1));
                }
            }
            Ok((e, q))
        },
    }
}

/// The statement at the front of `tokens`, and the position after it.
fn parse_statement_tokens(tokens: &Vec<Token>) -> (r: Result<(Stmt, usize), LangError>)
    ensures
        match r {
            Ok((s, q)) => p_statement(tokens_view(tokens@)) == Ok::<(StmtView, int), LangErrorView>(
                (s@, q as int),
            ) && q <= tokens.len(),
            Err(e) => p_statement(tokens_view(tokens@)) == Err::<(StmtView, int), LangErrorView>(
                e@,
            ),
        },
{
    let ghost t = tokens_view(tokens@);
    if tokens.len() >= 2 {
        proof {
            lemma_token_view(tokens@, 0);
            lemma_token_view(tokens@, 1);
        }
        if let TokenKind::Ident(name) = &tokens[0].kind {
            if let TokenKind::Assign = &tokens[1].kind {
                let name_span = tokens[0].span;
                return match parse_quantity(tokens, 2) {
                    Err(e) => Err(e),
                    Ok((expr, q)) => {
                        let span = name_span.cover(expr.span());
                        Ok((Stmt::Assign { name: name.clone(), expr, span }, q))
                    },
                };
            }
        }
    }
    match parse_quantity(tokens, 0) {
        Err(e) => Err(e),
        Ok((expr, q)) => {
            if is_kind_at(tokens, q, 7) {
                if q + 1 >= tokens.len() {
                    return Err(error_at(expr.span(), "expected target unit after `->`"));
                }
                proof {
                    lemma_token_view(tokens@, (q + 1) as int);
                }
                let unit_span = tokens[q + 1].span;
                match &tokens[q + 1].kind {
                    TokenKind::Ident(to_unit) => {
                        let span = expr.span().cover(unit_span);
                        Ok(
                            (
                                Stmt::Convert {
                                    expr,
                                    to_unit: to_unit.clone(),
                                    to_unit_span: unit_span,
                                    span,
                                },
                                q + 2,
                            ),
                        )
                    },
                    _ => Err(error_at(unit_span, "expected target unit after `->`")),
                }
            } else {
                Ok((Stmt::Expr(expr), q))
            }
        },
    }
}

/// Parses the statement `source`.
pub fn parse_statement(source: &str) -> (r: Result<Stmt, LangError>)
    ensures
        stmt_result_view(r) == statement_of(source@),
{
    let tokens = match lex(source) {
        Err(e) => {
            return Err(e);
        },
        Ok(tokens) => tokens,
    };
    let (statement, q) = match parse_statement_tokens(&tokens) {
        Err(e) => {
            return Err(e);
        },
        Ok(found) => found,
    };
    if q < tokens.len() {
        proof {
            lemma_token_view(tokens@, q as int);
        }
        return Err(error_at(tokens[q].span, "unexpected trailing input"));
    }
    Ok(statement)
}

// ---------------------------------------------------------------------------
// Laws: the precedence of the arithmetic operators.
/// A symbol of a flat arithmetic expression: a number, a variable or an
/// operator.
pub enum FlatSym {
    Num(Seq<char>),
    Name(Seq<char>),
    Op(BinaryOp),
}

/// `k` is a binary operator: `+`, `-`, `*`, `/` or `^`.
pub open spec fn is_binary_op(k: KindView) -> bool {
    k is Plus || k is Minus || k is Star || k is Slash || k is Caret
}

pub open spec fn sym_of(k: KindView) -> FlatSym {
    match k {
        KindView::Number(text) => FlatSym::Num(text),
        KindView::Ident(name) => FlatSym::Name(name),
        KindView::Plus => FlatSym::Op(BinaryOp::Add),
        KindView::Minus => FlatSym::Op(BinaryOp::Sub),
        KindView::Star => FlatSym::Op(BinaryOp::Mul),
        KindView::Slash => FlatSym::Op(BinaryOp::Div),
        _ => FlatSym::Op(BinaryOp::Pow),
    }
}

/// The symbols of the tokens `t[p..q]`.
pub open spec fn syms(t: Seq<TokenView>, p: int, q: int) -> Seq<FlatSym> {
    t.subrange(p, q).map_values(|x: TokenView| sym_of(x.kind))
}

/// From `p` on, the tokens are numbers and variables separated by binary
/// operators.
pub open spec fn flat_from(t: Seq<TokenView>, p: int) -> bool
    decreases t.len() - p,
{
    &&& 0 <= p < t.len()
    &&& t[p].kind is Number || t[p].kind is Ident
    &&& p + 1 == t.len() || (p + 1 < t.len() && is_binary_op(t[p + 1].kind) && flat_from(t, p + 2))
}

/// `q` ends the tokens, or an operator at `q` is followed by a flat
/// expression.
pub open spec fn flat_after(t: Seq<TokenView>, q: int) -> bool {
    q == t.len() || (0 <= q < t.len() && is_binary_op(t[q].kind) && flat_from(t, q + 1))
}

/// The numbers and operators of `e`, left to right.
pub open spec fn tree_syms(e: ExprView) -> Seq<FlatSym>
    decreases e,
{
    match e {
        ExprView::Number(text, _) => seq![FlatSym::Num(text)],
        ExprView::Var(name, _) => seq![FlatSym::Name(name)],
        ExprView::Binary { op, left, right, .. } => tree_syms(*left) + seq![FlatSym::Op(op)] + tree_syms(
            *right,
        ),
        _ => Seq::empty(),
    }
}

/// How tightly the root of `e` binds: a number 3, `^` 2, `*` and `/` 1,
/// `+` and `-` 0.
pub open spec fn tier(e: ExprView) -> int {
    match e {
        ExprView::Binary { op, .. } => match op {
            BinaryOp::Pow => 2,
            BinaryOp::Mul => 1,
            BinaryOp::Div => 1,
            _ => 0,
        },
        _ => 3,
    }
}

/// Every operator of `e` binds as arithmetic does: `^` before `*` and `/`,
/// those before `+` and `-`; `^` groups to the right and the others to the
/// left.
pub open spec fn well_bound(e: ExprView) -> bool
    decreases e,
{
    match e {
        ExprView::Number(..) => true,
        ExprView::Var(..) => true,
        ExprView::Binary { op, left, right, .. } => well_bound(*left) && well_bound(*right) && match op {
            BinaryOp::Pow => tier(*left) == 3 && tier(*right) >= 2,
            BinaryOp::Mul => tier(*left) >= 1 && tier(*right) >= 2,
            BinaryOp::Div => tier(*left) >= 1 && tier(*right) >= 2,
            _ => tier(*right) >= 1,
        },
        _ => false,
    }
}

proof fn lemma_syms_join(t: Seq<TokenView>, p: int, m: int, q: int)
    requires
        0 <= p <= m <= q <= t.len(),
    ensures
        syms(t, p, q) == syms(t, p, m) + syms(t, m, q),
{
    assert(syms(t, p, q) =~= syms(t, p, m) + syms(t, m, q));
}

proof fn lemma_syms_one(t: Seq<TokenView>, p: int)
    requires
        0 <= p < t.len(),
    ensures
        syms(t, p, p + 1) == seq![sym_of(t[p].kind)],
{
    assert(syms(t, p, p + 1) =~= seq![sym_of(t[p].kind)]);
}

proof fn lemma_power_flat(t: Seq<TokenView>, p: int)
    requires
        flat_from(t, p),
    ensures
        p_power(t, p) matches Ok((e, q)) && p < q <= t.len() && flat_after(t, q) && (q < t.len()
            ==> !(t[q].kind is Caret)) && tree_syms(e) == syms(t, p, q) && well_bound(e) && tier(e) >= 2,
    decreases t.len() - p,
{
    lemma_syms_one(t, p);
    let n = if t[p].kind is Number {
        ExprView::Number(t[p].kind->Number_0, t[p].span)
    } else {
        ExprView::Var(t[p].kind->Ident_0, t[p].span)
    };
    assert(p_primary(t, p) == Ok::<(ExprView, int), LangErrorView>((n, p + 1)));
    assert(p_unary(t, p) == Ok::<(ExprView, int), LangErrorView>((n, p + 1)));
    if p + 1 < t.len() && t[p + 1].kind is Caret {
        lemma_power_flat(t, p + 2);
        let (right, q2) = p_power(t, p + 2)->Ok_0;
        lemma_syms_one(t, p + 1);
        lemma_syms_join(t, p, p + 1, q2);
        lemma_syms_join(t, p + 1, p + 2, q2);
        let e = binary(BinaryOp::Pow, n, right);
        assert(tree_syms(e) =~= tree_syms(n) + seq![FlatSym::Op(BinaryOp::Pow)] + tree_syms(right));
        assert(tree_syms(e) =~= syms(t, p, q2));
        assert(p_power(t, p) == Ok::<(ExprView, int), LangErrorView>((e, q2)));
        assert(well_bound(n));
        assert(tier(n) == 3);
        assert(well_bound(e));
    } else {
        assert(p_power(t, p) == Ok::<(ExprView, int), LangErrorView>((n, p + 1)));
        assert(tree_syms(n) == syms(t, p, p + 1));
        assert(flat_after(t, p + 1));
    }
}

proof fn lemma_mul_rest_flat(t: Seq<TokenView>, p0: int, q: int, left: ExprView)
    requires
        0 <= p0 < q,
        flat_after(t, q),
        q < t.len() ==> !(t[q].kind is Caret),
        tree_syms(left) == syms(t, p0, q),
        well_bound(left),
        tier(left) >= 1,
    ensures
        p_multiplicative_rest(t, q, left) matches Ok((e, q2)) && q <= q2 <= t.len() && flat_after(t, q2)
            && (q2 < t.len() ==> (t[q2].kind is Plus || t[q2].kind is Minus)) && tree_syms(e) == syms(
            t,
            p0,
            q2,
        ) && well_bound(e) && tier(e) >= 1,
    decreases t.len() - q,
{
    if has_kind_star_or_slash(t, q) {
        lemma_power_flat(t, q + 1);
        let (right, q2) = p_power(t, q + 1)->Ok_0;
        let e = binary(multiplicative_op(t[q].kind), left, right);
        lemma_syms_one(t, q);
        lemma_syms_join(t, p0, q, q2);
        lemma_syms_join(t, q, q + 1, q2);
        assert(sym_of(t[q].kind) == FlatSym::Op(multiplicative_op(t[q].kind)));
        assert(tree_syms(e) =~= tree_syms(left) + seq![FlatSym::Op(multiplicative_op(t[q].kind))]
            + tree_syms(right));
        assert(tree_syms(e) =~= syms(t, p0, q2));
        lemma_mul_rest_flat(t, p0, q2, e);
    }
}

proof fn lemma_additive_flat(t: Seq<TokenView>, p: int)
    requires
        flat_from(t, p),
    ensures
        p_additive(t, p) matches Ok((e, q)) && q == t.len() && tree_syms(e) == syms(t, p, q) && well_bound(
            e,
        ),
{
    lemma_power_flat(t, p);
    let (e, q) = p_power(t, p)->Ok_0;
    lemma_mul_rest_flat(t, p, q, e);
    let (m, q2) = p_multiplicative_rest(t, q, e)->Ok_0;
    lemma_add_rest_flat(t, p, q2, m);
}

proof fn lemma_add_rest_flat(t: Seq<TokenView>, p0: int, q: int, left: ExprView)
    requires
        0 <= p0 < q,
        flat_after(t, q),
        q < t.len() ==> (t[q].kind is Plus || t[q].kind is Minus),
        tree_syms(left) == syms(t, p0, q),
        well_bound(left),
    ensures
        p_additive_rest(t, q, left) matches Ok((e, q2)) && q2 == t.len() && tree_syms(e) == syms(t, p0, q2)
            && well_bound(e),
    decreases t.len() - q,
{
    if q < t.len() {
        lemma_power_flat(t, q + 1);
        let (e1, q1) = p_power(t, q + 1)->Ok_0;
        lemma_mul_rest_flat(t, q + 1, q1, e1);
        let (right, q2) = p_multiplicative_rest(t, q1, e1)->Ok_0;
        assert(p_multiplicative(t, q + 1) == Ok::<(ExprView, int), LangErrorView>((right, q2)));
        let e = binary(additive_op(t[q].kind), left, right);
        lemma_syms_one(t, q);
        lemma_syms_join(t, p0, q, q2);
        lemma_syms_join(t, q, q + 1, q2);
        assert(sym_of(t[q].kind) == FlatSym::Op(additive_op(t[q].kind)));
        assert(tree_syms(e) =~= tree_syms(left) + seq![FlatSym::Op(additive_op(t[q].kind))] + tree_syms(
            right,
        ));
        assert(tree_syms(e) =~= syms(t, p0, q2));
        lemma_add_rest_flat(t, p0, q2, e);
    }
}

/// Numbers and variables separated by binary operators always parse, with
/// nothing left over, into an expression whose numbers, variables and
/// operators are the tokens in order and whose operators bind as arithmetic does: `^` tightest and to
/// the right, then `*` and `/`, then `+` and `-`, both to the left. So
/// `2 * 3 ^ 2` is `2 * (3 ^ 2)` and `8 / 4 / 2` is `(8 / 4) / 2`.
pub proof fn law_arithmetic_precedence(t: Seq<TokenView>)
    requires
        flat_from(t, 0),
    ensures
        statement_of_tokens(t) matches Ok(StmtView::Expr(e)) && tree_syms(e) == syms(t, 0, t.len() as int)
            && well_bound(e),
{
    lemma_additive_flat(t, 0);
}

} // verus!
