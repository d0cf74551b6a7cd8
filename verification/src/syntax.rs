//! The syntax tree of statements.
//!
//! A number keeps the text of its literal; turning that text into a number is
//! left to the arithmetic that evaluates the tree.
use crate::text::Span;
use vstd::prelude::*;

verus! {

broadcast use vstd::seq::group_seq_axioms;

#[derive(Clone, Copy, Debug, PartialEq, Eq, Structural)]
pub enum UnaryOp {
    Neg,
}

#[derive(Clone, Copy, Debug, PartialEq, Eq, Structural)]
pub enum BinaryOp {
    Add,
    Sub,
    Mul,
    Div,
    Pow,
}

#[derive(Debug)]
#[allow(inconsistent_fields)]
pub enum Expr {
    Number(String, Span),
    Var(String, Span),
    Unary { op: UnaryOp, expr: Box<Expr>, span: Span },
    Binary { op: BinaryOp, left: Box<Expr>, right: Box<Expr>, span: Span },
    List(Vec<Expr>, Span),
    Call { name: String, args: Vec<Expr>, span: Span },
    Quantity { expr: Box<Expr>, unit: String, span: Span },
}

#[derive(Debug)]
pub enum Stmt {
    Assign { name: String, expr: Expr, span: Span },
    Convert { expr: Expr, to_unit: String, to_unit_span: Span, span: Span },
    Expr(Expr),
}

/// The mathematical value of an [`Expr`].
#[allow(inconsistent_fields)]
pub enum ExprView {
    Number(Seq<char>, Span),
    Var(Seq<char>, Span),
    Unary { op: UnaryOp, expr: Box<ExprView>, span: Span },
    Binary { op: BinaryOp, left: Box<ExprView>, right: Box<ExprView>, span: Span },
    List(Seq<ExprView>, Span),
    Call { name: Seq<char>, args: Seq<ExprView>, span: Span },
    Quantity { expr: Box<ExprView>, unit: Seq<char>, span: Span },
}

/// The mathematical value of a [`Stmt`].
pub enum StmtView {
    Assign { name: Seq<char>, expr: ExprView, span: Span },
    Convert { expr: ExprView, to_unit: Seq<char>, to_unit_span: Span, span: Span },
    Expr(ExprView),
}

pub open spec fn expr_view(e: &Expr) -> ExprView
    decreases e,
{
    match e {
        Expr::Number(text, span) => ExprView::Number(text@, *span),
        Expr::Var(name, span) => ExprView::Var(name@, *span),
        Expr::Unary { op, expr, span } => ExprView::Unary {
            op: *op,
            expr: Box::new(expr_view(expr)),
            span: *span,
        },
        Expr::Binary { op, left, right, span } => ExprView::Binary {
            op: *op,
            left: Box::new(expr_view(left)),
            right: Box::new(expr_view(right)),
            span: *span,
        },
        Expr::List(items, span) => ExprView::List(exprs_view(items@), *span),
        Expr::Call { name, args, span } => ExprView::Call {
            name: name@,
            args: exprs_view(args@),
            span: *span,
        },
        Expr::Quantity { expr, unit, span } => ExprView::Quantity {
            expr: Box::new(expr_view(expr)),
            unit: unit@,
            span: *span,
        },
    }
}

pub open spec fn exprs_view(es: Seq<Expr>) -> Seq<ExprView>
    decreases es,
{
    if es.len() == 0 {
        Seq::empty()
    } else {
        exprs_view(es.subrange(0, es.len() - 1)).push(expr_view(&es[es.len() - 1]))
    }
}

impl View for Expr {
    type V = ExprView;

    open spec fn view(&self) -> ExprView {
        expr_view(self)
    }
}

impl View for Stmt {
    type V = StmtView;

    open spec fn view(&self) -> StmtView {
        match self {
            Stmt::Assign { name, expr, span } => StmtView::Assign {
                name: name@,
                expr: expr@,
                span: *span,
            },
            Stmt::Convert { expr, to_unit, to_unit_span, span } => StmtView::Convert {
                expr: expr@,
                to_unit: to_unit@,
                to_unit_span: *to_unit_span,
                span: *span,
            },
            Stmt::Expr(expr) => StmtView::Expr(expr@),
        }
    }
}

pub proof fn lemma_exprs_view_push(es: Seq<Expr>, e: Expr)
    ensures
        exprs_view(es.push(e)) == exprs_view(es).push(e@),
{
    assert(es.push(e).subrange(0, es.len() as int) =~= es);
}

pub proof fn lemma_exprs_view(es: Seq<Expr>)
    ensures
        exprs_view(es).len() == es.len(),
        forall|i: int| 0 <= i < es.len() ==> #[trigger] exprs_view(es)[i] == es[i]@,
    decreases es.len(),
{
    if es.len() > 0 {
        let init = es.subrange(0, es.len() - 1);
        lemma_exprs_view(init);
        assert forall|i: int| 0 <= i < es.len() implies #[trigger] exprs_view(es)[i] == es[i]@ by {
            if i < es.len() - 1 {
                assert(init[i] == es[i]);
            }
        }
    }
}

pub open spec fn expr_span(e: ExprView) -> Span {
    match e {
        ExprView::Number(_, span) => span,
        ExprView::Var(_, span) => span,
        ExprView::List(_, span) => span,
        ExprView::Unary { span, .. } => span,
        ExprView::Binary { span, .. } => span,
        ExprView::Call { span, .. } => span,
        ExprView::Quantity { span, .. } => span,
    }
}

pub open spec fn stmt_span(s: StmtView) -> Span {
    match s {
        StmtView::Assign { span, .. } => span,
        StmtView::Convert { span, .. } => span,
        StmtView::Expr(e) => expr_span(e),
    }
}

impl Expr {
    pub fn span(&self) -> (span: Span)
        ensures
            span == expr_span(self@),
    {
        match self {
            Expr::Number(_, span) => *span,
            Expr::Var(_, span) => *span,
            Expr::List(_, span) => *span,
            Expr::Unary { span, .. } => *span,
            Expr::Binary { span, .. } => *span,
            Expr::Call { span, .. } => *span,
            Expr::Quantity { span, .. } => *span,
        }
    }
}

impl Stmt {
    pub fn span(&self) -> (span: Span)
        ensures
            span == stmt_span(self@),
    {
        match self {
            Stmt::Assign { span, .. } => *span,
            Stmt::Convert { span, .. } => *span,
            Stmt::Expr(expr) => expr.span(),
        }
    }
}

} // verus!
