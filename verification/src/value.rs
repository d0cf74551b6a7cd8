//! What a statement evaluates to, number for number: the value of each
//! construct in terms of the operations of the [`Arithmetic`], and the
//! error it reports otherwise.
//!
//! A variable takes the result that the scope holds for the statement it
//! refers to: its value, its error (reported where the variable is used), or
//! a circular reference while that statement is being evaluated.
use crate::eval::{
    call_plan, circular_error, converted, median_of, non_empty_message, unknown_variable_message,
    Arithmetic, CallPlan, EvalState, NumberFn, Value,
};
use crate::lexer::{lang_error, LangError, LangErrorView};
use crate::scope::binding;
use crate::syntax::{expr_span, BinaryOp, Expr, Stmt};
use crate::text::Span;
use crate::units::{conversion_of, unit_of, unknown_unit_message};
use vstd::prelude::*;

verus! {

broadcast use vstd::seq::group_seq_axioms;

/// The mathematical value of a [`Value`].
pub enum ValueView<N> {
    Number(N),
    List(Seq<N>),
    Quantity(N, Seq<char>),
}

pub open spec fn value_view<N>(v: Value<N>) -> ValueView<N> {
    match v {
        Value::Number(n) => ValueView::Number(n),
        Value::List(items) => ValueView::List(items@),
        Value::Quantity { value, unit } => ValueView::Quantity(value, unit@),
    }
}

pub open spec fn result_view<N>(r: Result<Value<N>, LangError>) -> Result<ValueView<N>, LangErrorView> {
    match r {
        Ok(v) => Ok(value_view(v)),
        Err(e) => Err(e@),
    }
}

/// The number `r` holds, or the error of using it as a number at `span`.
pub open spec fn number_of<N>(r: Result<ValueView<N>, LangErrorView>, span: Span) -> Result<N, LangErrorView> {
    match r {
        Err(e) => Err(e),
        Ok(ValueView::Number(n)) => Ok(n),
        Ok(ValueView::List(_)) => Err(lang_error(span, "expected number, found list"@)),
        Ok(ValueView::Quantity(..)) => Err(lang_error(span, "expected number, found quantity"@)),
    }
}

/// The numbers of the list `r` holds, or the error of using it as a list.
pub open spec fn list_of<N>(r: Result<ValueView<N>, LangErrorView>, span: Span) -> Result<Seq<N>, LangErrorView> {
    match r {
        Err(e) => Err(e),
        Ok(ValueView::List(items)) => Ok(items),
        Ok(_) => Err(lang_error(span, "expected list argument"@)),
    }
}

/// The result of statement `k` as a variable used at `span` sees it.
pub open spec fn var_value<N>(states: Seq<EvalState<N>>, k: int, span: Span) -> Result<ValueView<N>, LangErrorView> {
    if 0 <= k < states.len() {
        match states[k] {
            EvalState::Done(Ok(v)) => Ok(value_view(v)),
            EvalState::Done(Err(f)) => Err(lang_error(span, f.message@)),
            _ => Err(circular_error(span)),
        }
    } else {
        Err(circular_error(span))
    }
}

/// `round(number, digits)`: scaled by ten to the `digits`, rounded, and
/// scaled back.
pub open spec fn round_value<A: Arithmetic>(number: A::Num, digits: A::Num) -> A::Num {
    let factor = A::spec_apply(BinaryOp::Pow, A::spec_literal("10.0"@), digits);
    A::spec_apply(
        BinaryOp::Div,
        A::spec_apply_fn(NumberFn::Round, A::spec_apply(BinaryOp::Mul, number, factor)),
        factor,
    )
}

/// The first `k` numbers of `ns` combined from the first one on with the
/// smaller (`min`) or larger operation.
pub open spec fn extreme<A: Arithmetic>(ns: Seq<A::Num>, k: int, min: bool) -> A::Num
    decreases k,
{
    if k <= 1 {
        ns[0]
    } else if min {
        A::spec_smaller(extreme::<A>(ns, k - 1, min), ns[k - 1])
    } else {
        A::spec_larger(extreme::<A>(ns, k - 1, min), ns[k - 1])
    }
}

/// What an aggregate `plan` named `name`, called at `span`, gives for the
/// numbers `ns`.
pub open spec fn aggregate_value<A: Arithmetic>(
    plan: CallPlan,
    name: Seq<char>,
    span: Span,
    ns: Seq<A::Num>,
) -> Result<A::Num, LangErrorView> {
    match plan {
        CallPlan::Sum => Ok(A::spec_sum(ns)),
        CallPlan::Count => Ok(A::spec_from_count(ns.len())),
        CallPlan::Product => Ok(A::spec_product(ns)),
        _ => if ns.len() == 0 {
            Err(lang_error(span, non_empty_message(name)))
        } else {
            match plan {
                CallPlan::Avg => Ok(
                    A::spec_apply(BinaryOp::Div, A::spec_sum(ns), A::spec_from_count(ns.len())),
                ),
                CallPlan::Median => Ok(median_of::<A>(ns)),
                CallPlan::Min => Ok(extreme::<A>(ns, ns.len() as int, true)),
                _ => Ok(extreme::<A>(ns, ns.len() as int, false)),
            }
        },
    }
}

/// What `e` evaluates to from position `current` of a scope whose
/// statements are in `states`.
pub open spec fn value_of<A: Arithmetic>(
    e: &Expr,
    parsed: Seq<Option<Stmt>>,
    states: Seq<EvalState<A::Num>>,
    current: int,
) -> Result<ValueView<A::Num>, LangErrorView>
    decreases e, 2nat,
{
    match e {
        Expr::Number(literal, _) => Ok(ValueView::Number(A::spec_literal(literal@))),
        Expr::Var(name, span) => match binding(parsed, name@, current) {
            None => Err(lang_error(*span, unknown_variable_message(name@))),
            Some(k) => var_value(states, k, *span),
        },
        Expr::Unary { expr, span, .. } => match number_of(value_of::<A>(expr, parsed, states, current), *span) {
            Ok(n) => Ok(ValueView::Number(A::spec_negate(n))),
            Err(err) => Err(err),
        },
        Expr::Binary { op, left, right, .. } => match number_of(
            value_of::<A>(left, parsed, states, current),
            expr_span(left@),
        ) {
            Err(err) => Err(err),
            Ok(l) => match number_of(value_of::<A>(right, parsed, states, current), expr_span(right@)) {
                Err(err) => Err(err),
                Ok(r) => if *op == BinaryOp::Div && A::spec_is_zero(r) {
                    Err(lang_error(expr_span(right@), "divide by zero"@))
                } else {
                    Ok(ValueView::Number(A::spec_apply(*op, l, r)))
                },
            },
        },
        Expr::List(items, _) => match numbers_of::<A>(items@, parsed, states, current) {
            Ok(ns) => Ok(ValueView::List(ns)),
            Err(err) => Err(err),
        },
        Expr::Call { name, args, span } => call_value::<A>(name@, args@, *span, parsed, states, current),
        Expr::Quantity { expr, unit, span } => match number_of(
            value_of::<A>(expr, parsed, states, current),
            expr_span(expr@),
        ) {
            Err(err) => Err(err),
            Ok(n) => if unit_of(unit@) is None {
                Err(lang_error(*span, unknown_unit_message(unit@)))
            } else {
                Ok(ValueView::Quantity(n, unit@))
            },
        },
    }
}

/// The numbers that `es` evaluate to in order, or the first error.
pub open spec fn numbers_of<A: Arithmetic>(
    es: Seq<Expr>,
    parsed: Seq<Option<Stmt>>,
    states: Seq<EvalState<A::Num>>,
    current: int,
) -> Result<Seq<A::Num>, LangErrorView>
    decreases es, 0nat,
{
    if es.len() == 0 {
        Ok(Seq::empty())
    } else {
        match numbers_of::<A>(es.subrange(0, es.len() - 1), parsed, states, current) {
            Err(err) => Err(err),
            Ok(ns) => match number_of(
                value_of::<A>(&es[es.len() - 1], parsed, states, current),
                expr_span(es[es.len() - 1]@),
            ) {
                Err(err) => Err(err),
                Ok(n) => Ok(ns.push(n)),
            },
        }
    }
}

/// What the call `name(args)` at `span` evaluates to. (A call with no
/// argument is never planned; it is reported like an aggregate's.)
pub open spec fn call_value<A: Arithmetic>(
    name: Seq<char>,
    args: Seq<Expr>,
    span: Span,
    parsed: Seq<Option<Stmt>>,
    states: Seq<EvalState<A::Num>>,
    current: int,
) -> Result<ValueView<A::Num>, LangErrorView>
    decreases args, 1nat,
{
    match call_plan(name, args.len() as nat) {
        Err(m) => Err(lang_error(span, m)),
        Ok(plan) => if args.len() == 0 {
            Err(lang_error(span, "expected at least one argument"@))
        } else {
            let first = value_of::<A>(&args[0], parsed, states, current);
            let first_span = expr_span(args[0]@);
            match plan {
                CallPlan::Len => match list_of(first, first_span) {
                    Err(err) => Err(err),
                    Ok(items) => Ok(ValueView::Number(A::spec_from_count(items.len()))),
                },
                CallPlan::Unary(f) => match number_of(first, first_span) {
                    Err(err) => Err(err),
                    Ok(n) => Ok(ValueView::Number(A::spec_apply_fn(f, n))),
                },
                CallPlan::Round => match number_of(first, first_span) {
                    Err(err) => Err(err),
                    Ok(n) => {
                        let digits = if args.len() == 2 {
                            number_of(value_of::<A>(&args[1], parsed, states, current), expr_span(args[1]@))
                        } else {
                            Ok(A::spec_literal("0.0"@))
                        };
                        match digits {
                            Err(err) => Err(err),
                            Ok(d) => Ok(ValueView::Number(round_value::<A>(n, d))),
                        }
                    },
                },
                _ => {
                    let numbers = if args.len() == 1 {
                        list_of(first, first_span)
                    } else {
                        numbers_of::<A>(args, parsed, states, current)
                    };
                    match numbers {
                        Err(err) => Err(err),
                        Ok(ns) => match aggregate_value::<A>(plan, name, span, ns) {
                            Err(err) => Err(err),
                            Ok(x) => Ok(ValueView::Number(x)),
                        },
                    }
                },
            }
        },
    }
}

/// What `statement` evaluates to: the value of its expression, or for a
/// conversion, the quantity converted to the target unit.
pub open spec fn stmt_value<A: Arithmetic>(
    statement: &Stmt,
    parsed: Seq<Option<Stmt>>,
    states: Seq<EvalState<A::Num>>,
    current: int,
) -> Result<ValueView<A::Num>, LangErrorView> {
    match statement {
        Stmt::Assign { expr, .. } => value_of::<A>(expr, parsed, states, current),
        Stmt::Expr(expr) => value_of::<A>(expr, parsed, states, current),
        Stmt::Convert { expr, to_unit, to_unit_span, .. } => match value_of::<A>(
            expr,
            parsed,
            states,
            current,
        ) {
            Err(err) => Err(err),
            Ok(ValueView::Quantity(amount, from)) => match conversion_of(from, to_unit@) {
                Ok((f, t)) => Ok(ValueView::Quantity(converted::<A>(amount, f, t), to_unit@)),
                Err(m) => Err(lang_error(*to_unit_span, m)),
            },
            Ok(_) => Err(
                lang_error(expr_span(expr@), "expected a quantity for unit conversion"@),
            ),
        },
    }
}

// ---------------------------------------------------------------------------
// Which statements an evaluation has looked at.
/// Every variable that evaluating `e` reaches refers to a statement that the
/// scope has visited: the value of `e` no longer changes as the scope
/// evaluates more statements.
pub open spec fn settled<A: Arithmetic>(
    e: &Expr,
    parsed: Seq<Option<Stmt>>,
    states: Seq<EvalState<A::Num>>,
    current: int,
) -> bool
    decreases e, 2nat,
{
    match e {
        Expr::Number(..) => true,
        Expr::Var(name, _) => match binding(parsed, name@, current) {
            None => true,
            Some(k) => 0 <= k < states.len() && !(states[k] is Unvisited),
        },
        Expr::Unary { expr, .. } => settled::<A>(expr, parsed, states, current),
        Expr::Binary { left, right, .. } => settled::<A>(left, parsed, states, current) && (number_of(
            value_of::<A>(left, parsed, states, current),
            expr_span(left@),
        ) is Ok ==> settled::<A>(right, parsed, states, current)),
        Expr::List(items, _) => settled_items::<A>(items@, parsed, states, current),
        Expr::Call { name, args, .. } => settled_call::<A>(name@, args@, parsed, states, current),
        Expr::Quantity { expr, .. } => settled::<A>(expr, parsed, states, current),
    }
}

pub open spec fn settled_items<A: Arithmetic>(
    es: Seq<Expr>,
    parsed: Seq<Option<Stmt>>,
    states: Seq<EvalState<A::Num>>,
    current: int,
) -> bool
    decreases es, 0nat,
{
    if es.len() == 0 {
        true
    } else {
        settled_items::<A>(es.subrange(0, es.len() - 1), parsed, states, current) && (numbers_of::<A>(
            es.subrange(0, es.len() - 1),
            parsed,
            states,
            current,
        ) is Ok ==> settled::<A>(&es[es.len() - 1], parsed, states, current))
    }
}

pub open spec fn settled_call<A: Arithmetic>(
    name: Seq<char>,
    args: Seq<Expr>,
    parsed: Seq<Option<Stmt>>,
    states: Seq<EvalState<A::Num>>,
    current: int,
) -> bool
    decreases args, 1nat,
{
    match call_plan(name, args.len() as nat) {
        Err(_) => true,
        Ok(plan) => if args.len() == 0 {
            true
        } else {
            match plan {
                CallPlan::Len => settled::<A>(&args[0], parsed, states, current),
                CallPlan::Unary(_) => settled::<A>(&args[0], parsed, states, current),
                CallPlan::Round => settled::<A>(&args[0], parsed, states, current) && (number_of(
                    value_of::<A>(&args[0], parsed, states, current),
                    expr_span(args[0]@),
                ) is Ok && args.len() == 2 ==> settled::<A>(&args[1], parsed, states, current)),
                _ => if args.len() == 1 {
                    settled::<A>(&args[0], parsed, states, current)
                } else {
                    settled_items::<A>(args, parsed, states, current)
                },
            }
        },
    }
}

pub open spec fn settled_stmt<A: Arithmetic>(
    statement: &Stmt,
    parsed: Seq<Option<Stmt>>,
    states: Seq<EvalState<A::Num>>,
    current: int,
) -> bool {
    match statement {
        Stmt::Assign { expr, .. } => settled::<A>(expr, parsed, states, current),
        Stmt::Expr(expr) => settled::<A>(expr, parsed, states, current),
        Stmt::Convert { expr, .. } => settled::<A>(expr, parsed, states, current),
    }
}

/// Visiting more statements keeps what is settled, and its value.
pub proof fn lemma_settled_kept<A: Arithmetic>(
    e: &Expr,
    parsed: Seq<Option<Stmt>>,
    before: Seq<EvalState<A::Num>>,
    after: Seq<EvalState<A::Num>>,
    current: int,
)
    requires
        crate::eval::preserved(before, after),
        settled::<A>(e, parsed, before, current),
    ensures
        settled::<A>(e, parsed, after, current),
        value_of::<A>(e, parsed, after, current) == value_of::<A>(e, parsed, before, current),
    decreases e, 2nat,
{
    match e {
        Expr::Unary { expr, .. } => {
            lemma_settled_kept::<A>(expr, parsed, before, after, current);
        },
        Expr::Binary { left, right, .. } => {
            lemma_settled_kept::<A>(left, parsed, before, after, current);
            if number_of(value_of::<A>(left, parsed, before, current), expr_span(left@)) is Ok {
                lemma_settled_kept::<A>(right, parsed, before, after, current);
            }
        },
        Expr::List(items, _) => {
            lemma_settled_items_kept::<A>(items@, parsed, before, after, current);
        },
        Expr::Call { name, args, span } => {
            lemma_settled_call_kept::<A>(name@, args@, *span, parsed, before, after, current);
        },
        Expr::Quantity { expr, .. } => {
            lemma_settled_kept::<A>(expr, parsed, before, after, current);
        },
        Expr::Var(name, _) => {
            if let Some(k) = binding(parsed, name@, current) {
                assert(after[k] == before[k]);
            }
        },
        Expr::Number(..) => {},
    }
}

pub proof fn lemma_settled_items_kept<A: Arithmetic>(
    es: Seq<Expr>,
    parsed: Seq<Option<Stmt>>,
    before: Seq<EvalState<A::Num>>,
    after: Seq<EvalState<A::Num>>,
    current: int,
)
    requires
        crate::eval::preserved(before, after),
        settled_items::<A>(es, parsed, before, current),
    ensures
        settled_items::<A>(es, parsed, after, current),
        numbers_of::<A>(es, parsed, after, current) == numbers_of::<A>(es, parsed, before, current),
    decreases es, 0nat,
{
    if es.len() > 0 {
        let init = es.subrange(0, es.len() - 1);
        lemma_settled_items_kept::<A>(init, parsed, before, after, current);
        if numbers_of::<A>(init, parsed, before, current) is Ok {
            lemma_settled_kept::<A>(&es[es.len() - 1], parsed, before, after, current);
        }
    }
}

pub proof fn lemma_settled_call_kept<A: Arithmetic>(
    name: Seq<char>,
    args: Seq<Expr>,
    span: Span,
    parsed: Seq<Option<Stmt>>,
    before: Seq<EvalState<A::Num>>,
    after: Seq<EvalState<A::Num>>,
    current: int,
)
    requires
        crate::eval::preserved(before, after),
        settled_call::<A>(name, args, parsed, before, current),
    ensures
        settled_call::<A>(name, args, parsed, after, current),
        call_value::<A>(name, args, span, parsed, after, current) == call_value::<A>(
            name,
            args,
            span,
            parsed,
            before,
            current,
        ),
    decreases args, 1nat,
{
    if let Ok(plan) = call_plan(name, args.len() as nat) {
      if args.len() > 0 {
        if plan is Len || plan is Unary || plan is Round || args.len() == 1 {
            lemma_settled_kept::<A>(&args[0], parsed, before, after, current);
        }
        match plan {
            CallPlan::Len => {},
            CallPlan::Unary(_) => {},
            CallPlan::Round => {
                if number_of(value_of::<A>(&args[0], parsed, before, current), expr_span(args[0]@)) is Ok
                    && args.len() == 2 {
                    lemma_settled_kept::<A>(&args[1], parsed, before, after, current);
                }
            },
            _ => {
                if args.len() != 1 {
                    lemma_settled_items_kept::<A>(args, parsed, before, after, current);
                }
            },
        }
      }
    }
}

/// The numbers of the arguments of an aggregate: those of its one list
/// argument, or one number for each argument.
pub open spec fn aggregate_args<A: Arithmetic>(
    args: Seq<Expr>,
    parsed: Seq<Option<Stmt>>,
    states: Seq<EvalState<A::Num>>,
    current: int,
) -> Result<Seq<A::Num>, LangErrorView> {
    if args.len() == 1 {
        list_of(value_of::<A>(&args[0], parsed, states, current), expr_span(args[0]@))
    } else {
        numbers_of::<A>(args, parsed, states, current)
    }
}

pub open spec fn settled_args<A: Arithmetic>(
    args: Seq<Expr>,
    parsed: Seq<Option<Stmt>>,
    states: Seq<EvalState<A::Num>>,
    current: int,
) -> bool {
    if args.len() == 1 {
        settled::<A>(&args[0], parsed, states, current)
    } else {
        settled_items::<A>(args, parsed, states, current)
    }
}

/// Two results recorded as the same are the same value or error.
pub proof fn lemma_same_outcome_view<N>(r: Result<Value<N>, LangError>, res: Result<Value<N>, LangError>)
    requires
        crate::eval::same_outcome(r, res),
    ensures
        result_view(r) == result_view(res),
{
}

/// Once the numbers of the first `j` expressions of `es` fail, so do those
/// of all of `es`, with the same error, and nothing after is looked at.
pub proof fn lemma_numbers_fail<A: Arithmetic>(
    es: Seq<Expr>,
    j: int,
    parsed: Seq<Option<Stmt>>,
    states: Seq<EvalState<A::Num>>,
    current: int,
)
    requires
        0 <= j <= es.len(),
        numbers_of::<A>(es.take(j), parsed, states, current) is Err,
        settled_items::<A>(es.take(j), parsed, states, current),
    ensures
        numbers_of::<A>(es, parsed, states, current) == numbers_of::<A>(es.take(j), parsed, states, current),
        settled_items::<A>(es, parsed, states, current),
    decreases es.len() - j,
{
    if j < es.len() {
        let next = es.take(j + 1);
        assert(next.subrange(0, next.len() - 1) =~= es.take(j));
        lemma_numbers_fail::<A>(es, j + 1, parsed, states, current);
    } else {
        assert(es.take(j) =~= es);
    }
}

// ---------------------------------------------------------------------------
// Which statements a statement reads.
/// Some variable of `e`, used from statement `k`, refers to statement `i`.
pub open spec fn expr_reads(e: &Expr, parsed: Seq<Option<Stmt>>, k: int, i: int) -> bool
    decreases e,
{
    match e {
        Expr::Number(..) => false,
        Expr::Var(name, _) => binding(parsed, name@, k) == Some(i),
        Expr::Unary { expr, .. } => expr_reads(expr, parsed, k, i),
        Expr::Binary { left, right, .. } => expr_reads(left, parsed, k, i) || expr_reads(right, parsed, k, i),
        Expr::List(items, _) => exprs_reads(items@, parsed, k, i),
        Expr::Call { args, .. } => exprs_reads(args@, parsed, k, i),
        Expr::Quantity { expr, .. } => expr_reads(expr, parsed, k, i),
    }
}

pub open spec fn exprs_reads(es: Seq<Expr>, parsed: Seq<Option<Stmt>>, k: int, i: int) -> bool
    decreases es,
{
    if es.len() == 0 {
        false
    } else {
        exprs_reads(es.subrange(0, es.len() - 1), parsed, k, i) || expr_reads(&es[es.len() - 1], parsed, k, i)
    }
}

pub open spec fn stmt_reads(statement: &Stmt, parsed: Seq<Option<Stmt>>, k: int, i: int) -> bool {
    match statement {
        Stmt::Assign { expr, .. } => expr_reads(expr, parsed, k, i),
        Stmt::Expr(expr) => expr_reads(expr, parsed, k, i),
        Stmt::Convert { expr, .. } => expr_reads(expr, parsed, k, i),
    }
}

/// Statement `k` of the scope has a variable that refers to statement `i`.
pub open spec fn reads(parsed: Seq<Option<Stmt>>, k: int, i: int) -> bool {
    &&& 0 <= k < parsed.len()
    &&& parsed[k] matches Some(st) && stmt_reads(&st, parsed, k, i)
}

/// `p` is a chain of statements, each of which reads the next.
pub open spec fn is_read_path(parsed: Seq<Option<Stmt>>, p: Seq<int>) -> bool {
    forall|m: int| 0 <= m < p.len() - 1 ==> reads(parsed, #[trigger] p[m], p[m + 1])
}

/// Statement `i` leads to statement `j` through reads (in no step or more).
pub open spec fn reaches(parsed: Seq<Option<Stmt>>, i: int, j: int) -> bool {
    exists|p: Seq<int>|
        #[trigger] is_read_path(parsed, p) && p.len() > 0 && p[0] == i && p[p.len() - 1] == j
}

/// The reads of statement `k` lead back to it: it is on a cycle.
pub open spec fn reaches_back(parsed: Seq<Option<Stmt>>, k: int) -> bool {
    exists|i: int| #[trigger] reads(parsed, k, i) && reaches(parsed, i, k)
}

/// Every statement being evaluated leads to statement `j`.
pub open spec fn stack_reaches<N>(parsed: Seq<Option<Stmt>>, states: Seq<EvalState<N>>, j: int) -> bool {
    forall|i: int| 0 <= i < states.len() && (#[trigger] states[i]) is Visiting ==> reaches(parsed, i, j)
}

/// Every variable of `e`, used from statement `k`, is one that statement
/// `k` reads.
pub open spec fn reads_within(e: &Expr, parsed: Seq<Option<Stmt>>, k: int) -> bool {
    forall|i: int| #[trigger] expr_reads(e, parsed, k, i) ==> reads(parsed, k, i)
}

pub open spec fn items_within(es: Seq<Expr>, parsed: Seq<Option<Stmt>>, k: int) -> bool {
    forall|i: int| #[trigger] exprs_reads(es, parsed, k, i) ==> reads(parsed, k, i)
}

/// The reads of the parts of `e` are reads of `e`.
pub proof fn lemma_within_parts(e: &Expr, parsed: Seq<Option<Stmt>>, k: int)
    requires
        reads_within(e, parsed, k),
    ensures
        match e {
            Expr::Var(name, _) => binding(parsed, name@, k) matches Some(c) ==> reads(parsed, k, c),
            Expr::Unary { expr, .. } => reads_within(expr, parsed, k),
            Expr::Binary { left, right, .. } => reads_within(left, parsed, k) && reads_within(right, parsed, k),
            Expr::List(items, _) => items_within(items@, parsed, k),
            Expr::Call { args, .. } => items_within(args@, parsed, k),
            Expr::Quantity { expr, .. } => reads_within(expr, parsed, k),
            Expr::Number(..) => true,
        },
{
    match e {
        Expr::Var(name, _) => {
            if let Some(c) = binding(parsed, name@, k) {
                assert(expr_reads(e, parsed, k, c));
            }
        },
        Expr::Unary { expr, .. } => {
            assert forall|i: int| #[trigger] expr_reads(expr, parsed, k, i) implies reads(parsed, k, i) by {
                assert(expr_reads(e, parsed, k, i));
            }
        },
        Expr::Quantity { expr, .. } => {
            assert forall|i: int| #[trigger] expr_reads(expr, parsed, k, i) implies reads(parsed, k, i) by {
                assert(expr_reads(e, parsed, k, i));
            }
        },
        Expr::Binary { left, right, .. } => {
            assert forall|i: int| #[trigger] expr_reads(left, parsed, k, i) implies reads(parsed, k, i) by {
                assert(expr_reads(e, parsed, k, i));
            }
            assert forall|i: int| #[trigger] expr_reads(right, parsed, k, i) implies reads(parsed, k, i) by {
                assert(expr_reads(e, parsed, k, i));
            }
        },
        Expr::List(items, _) => {
            assert forall|i: int| #[trigger] exprs_reads(items@, parsed, k, i) implies reads(parsed, k, i) by {
                assert(expr_reads(e, parsed, k, i));
            }
        },
        Expr::Call { args, .. } => {
            assert forall|i: int| #[trigger] exprs_reads(args@, parsed, k, i) implies reads(parsed, k, i) by {
                assert(expr_reads(e, parsed, k, i));
            }
        },
        Expr::Number(..) => {},
    }
}

pub proof fn lemma_reaches_self(parsed: Seq<Option<Stmt>>, i: int)
    ensures
        reaches(parsed, i, i),
{
    let p = seq![i];
    assert(is_read_path(parsed, p));
}

pub proof fn lemma_reaches_step(parsed: Seq<Option<Stmt>>, i: int, j: int, l: int)
    requires
        reaches(parsed, i, j),
        reads(parsed, j, l),
    ensures
        reaches(parsed, i, l),
{
    let p = choose|p: Seq<int>|
        #[trigger] is_read_path(parsed, p) && p.len() > 0 && p[0] == i && p[p.len() - 1] == j;
    let q = p.push(l);
    assert forall|m: int| 0 <= m < q.len() - 1 implies reads(parsed, #[trigger] q[m], q[m + 1]) by {
        if m < p.len() - 1 {
            assert(q[m] == p[m] && q[m + 1] == p[m + 1]);
        }
    }
    assert(is_read_path(parsed, q));
}

/// A statement read from the statements being evaluated leads to them all.
pub proof fn lemma_stack_step<N>(parsed: Seq<Option<Stmt>>, states: Seq<EvalState<N>>, k: int, c: int)
    requires
        stack_reaches(parsed, states, k),
        reads(parsed, k, c),
    ensures
        stack_reaches(parsed, states, c),
{
    assert forall|i: int| 0 <= i < states.len() && (#[trigger] states[i]) is Visiting implies reaches(
        parsed,
        i,
        c,
    ) by {
        lemma_reaches_step(parsed, i, k, c);
    }
}

/// Evaluating more statements leaves those being evaluated as they are.
pub proof fn lemma_stack_kept<N>(
    parsed: Seq<Option<Stmt>>,
    before: Seq<EvalState<N>>,
    after: Seq<EvalState<N>>,
    k: int,
)
    requires
        stack_reaches(parsed, before, k),
        crate::eval::preserved(before, after),
        forall|i: int| 0 <= i < before.len() && before[i] is Unvisited ==> !(#[trigger] after[i] is Visiting),
    ensures
        stack_reaches(parsed, after, k),
{
    assert forall|i: int| 0 <= i < after.len() && (#[trigger] after[i]) is Visiting implies reaches(
        parsed,
        i,
        k,
    ) by {
        if !(before[i] is Unvisited) {
            assert(after[i] == before[i]);
        }
    }
}

pub proof fn lemma_item_reads(es: Seq<Expr>, m: int, parsed: Seq<Option<Stmt>>, k: int, i: int)
    requires
        0 <= m < es.len(),
        expr_reads(&es[m], parsed, k, i),
    ensures
        exprs_reads(es, parsed, k, i),
    decreases es.len(),
{
    if m < es.len() - 1 {
        let init = es.subrange(0, es.len() - 1);
        assert(init[m] == es[m]);
        lemma_item_reads(init, m, parsed, k, i);
    }
}

/// The reads of an item of `es` are reads of `es`.
pub proof fn lemma_item_within(es: Seq<Expr>, m: int, parsed: Seq<Option<Stmt>>, k: int)
    requires
        0 <= m < es.len(),
        items_within(es, parsed, k),
    ensures
        reads_within(&es[m], parsed, k),
{
    assert forall|i: int| #[trigger] expr_reads(&es[m], parsed, k, i) implies reads(parsed, k, i) by {
        lemma_item_reads(es, m, parsed, k, i);
    }
}

pub proof fn lemma_init_within(es: Seq<Expr>, j: int, parsed: Seq<Option<Stmt>>, k: int)
    requires
        0 <= j <= es.len(),
        items_within(es, parsed, k),
    ensures
        items_within(es.take(j), parsed, k),
{
    assert forall|i: int| #[trigger] exprs_reads(es.take(j), parsed, k, i) implies reads(parsed, k, i) by {
        lemma_take_reads(es, j, parsed, k, i);
    }
}

proof fn lemma_take_reads(es: Seq<Expr>, j: int, parsed: Seq<Option<Stmt>>, k: int, i: int)
    requires
        0 <= j <= es.len(),
        exprs_reads(es.take(j), parsed, k, i),
    ensures
        exprs_reads(es, parsed, k, i),
    decreases es.len() - j,
{
    if j < es.len() {
        let next = es.take(j + 1);
        assert(next.subrange(0, next.len() - 1) =~= es.take(j));
        lemma_take_reads(es, j + 1, parsed, k, i);
    } else {
        assert(es.take(j) =~= es);
    }
}

/// No statement of an empty scope is read.
pub proof fn lemma_no_reads(e: &Expr, i: int)
    ensures
        !expr_reads(e, Seq::empty(), 0, i),
    decreases e,
{
    match e {
        Expr::Unary { expr, .. } => lemma_no_reads(expr, i),
        Expr::Binary { left, right, .. } => {
            lemma_no_reads(left, i);
            lemma_no_reads(right, i);
        },
        Expr::List(items, _) => lemma_no_items_reads(items@, i),
        Expr::Call { args, .. } => lemma_no_items_reads(args@, i),
        Expr::Quantity { expr, .. } => lemma_no_reads(expr, i),
        Expr::Var(name, _) => {
            assert(crate::scope::last_binding(Seq::<Option<Stmt>>::empty(), name@, 0) is None) by {
                assert(!crate::scope::assigns(Seq::<Option<Stmt>>::empty(), 0, name@));
                assert(crate::scope::last_binding(Seq::<Option<Stmt>>::empty(), name@, -1) is None);
            }
        },
        Expr::Number(..) => {},
    }
}

pub proof fn lemma_no_items_reads(es: Seq<Expr>, i: int)
    ensures
        !exprs_reads(es, Seq::empty(), 0, i),
    decreases es,
{
    if es.len() > 0 {
        lemma_no_items_reads(es.subrange(0, es.len() - 1), i);
        lemma_no_reads(&es[es.len() - 1], i);
    }
}

// ---------------------------------------------------------------------------
// The results a scope holds.
/// `states` holds what `t` holds for every statement that `t` has done, and
/// each of those statements was done before time `time` (by `done_at`).
pub open spec fn agrees<N>(t: Seq<EvalState<N>>, states: Seq<EvalState<N>>, done_at: Seq<int>, time: int) -> bool {
    &&& t.len() == states.len()
    &&& forall|i: int|
        0 <= i < t.len() && (#[trigger] t[i]) is Done ==> states[i] == t[i] && done_at[i] < time
}

/// `res` is what statement `j` evaluates to while it is being evaluated, in
/// a scope `t` whose done statements hold what `states` holds and were done
/// before `j` was, and in which every statement being evaluated leads to `j`
/// through reads.
pub open spec fn result_justified<A: Arithmetic>(
    parsed: Seq<Option<Stmt>>,
    states: Seq<EvalState<A::Num>>,
    done_at: Seq<int>,
    j: int,
    res: Result<Value<A::Num>, LangError>,
) -> bool {
    exists|t: Seq<EvalState<A::Num>>|
        #[trigger] agrees(t, states, done_at, done_at[j]) && t[j] is Visiting && stack_reaches(parsed, t, j)
            && settled_stmt::<A>(&parsed[j]->0, parsed, t, j) && result_view(res) == stmt_value::<A>(
            &parsed[j]->0,
            parsed,
            t,
            j,
        )
}

/// Every statement that the scope has evaluated parses, and holds what it
/// evaluates to given the statements done before it (`done_at` gives the
/// time at which each was done).
pub open spec fn values_justified<A: Arithmetic>(
    parsed: Seq<Option<Stmt>>,
    states: Seq<EvalState<A::Num>>,
    done_at: Seq<int>,
) -> bool {
    forall|j: int|
        0 <= j < states.len() ==> match #[trigger] states[j] {
            EvalState::Done(res) => parsed[j] is Some && result_justified::<A>(parsed, states, done_at, j, res),
            _ => true,
        }
}

/// Setting statement `pos` that is not done keeps the results justified,
/// when its new result is; a newly done statement is done at `time`, after
/// all the others.
pub proof fn lemma_justified_update<A: Arithmetic>(
    parsed: Seq<Option<Stmt>>,
    states: Seq<EvalState<A::Num>>,
    done_at: Seq<int>,
    pos: int,
    v: EvalState<A::Num>,
    time: int,
)
    requires
        0 <= pos < states.len(),
        done_at.len() == states.len(),
        values_justified::<A>(parsed, states, done_at),
        !(states[pos] is Done),
        v matches EvalState::Done(res) ==> parsed[pos] is Some && result_justified::<A>(
            parsed,
            states.update(pos, v),
            done_at.update(pos, time),
            pos,
            res,
        ),
    ensures
        values_justified::<A>(
            parsed,
            states.update(pos, v),
            if v is Done {
                done_at.update(pos, time)
            } else {
                done_at
            },
        ),
{
    let after = states.update(pos, v);
    let order = if v is Done {
        done_at.update(pos, time)
    } else {
        done_at
    };
    assert forall|j: int| 0 <= j < after.len() implies match #[trigger] after[j] {
        EvalState::Done(res) => parsed[j] is Some && result_justified::<A>(parsed, after, order, j, res),
        _ => true,
    } by {
        if j != pos {
            if let EvalState::Done(res) = after[j] {
                assert(states[j] == after[j]);
                assert(result_justified::<A>(parsed, states, done_at, j, res));
                let t = choose|t: Seq<EvalState<A::Num>>|
                    #[trigger] agrees(t, states, done_at, done_at[j]) && t[j] is Visiting && stack_reaches(parsed, t, j)
                        && settled_stmt::<A>(
                        &parsed[j]->0,
                        parsed,
                        t,
                        j,
                    ) && result_view(res) == stmt_value::<A>(&parsed[j]->0, parsed, t, j);
                assert(order[j] == done_at[j]);
                assert(agrees(t, after, order, order[j])) by {
                    assert forall|i: int| 0 <= i < t.len() && (#[trigger] t[i]) is Done implies after[i]
                        == t[i] && order[i] < order[j] by {
                        assert(states[i] == t[i]);
                        assert(i != pos);
                    }
                }
            }
        }
    }
}

// ---------------------------------------------------------------------------
// Laws.
/// The variable that evaluating `e` reads before anything else can fail,
/// with the span of that read.
pub open spec fn first_read(e: &Expr) -> Option<(Seq<char>, Span)>
    decreases e,
{
    match e {
        Expr::Var(name, span) => Some((name@, *span)),
        Expr::Unary { expr, .. } => first_read(expr),
        Expr::Binary { left, .. } => first_read(left),
        Expr::Quantity { expr, .. } => first_read(expr),
        _ => None,
    }
}

/// The span of the first read of `e`, if it has one.
pub open spec fn read_span(e: &Expr) -> Span {
    match first_read(e) {
        Some((_, span)) => span,
        None => Span { start: 0, end: 0 },
    }
}

proof fn lemma_first_read_circular<A: Arithmetic>(
    e: &Expr,
    parsed: Seq<Option<Stmt>>,
    t: Seq<EvalState<A::Num>>,
    k: int,
)
    requires
        first_read(e) matches Some((name, _)) && binding(parsed, name, k) == Some(k),
        0 <= k < t.len(),
        t[k] is Visiting,
    ensures
        value_of::<A>(e, parsed, t, k) == Err::<ValueView<A::Num>, LangErrorView>(
            circular_error(read_span(e)),
        ),
    decreases e,
{
    match e {
        Expr::Unary { expr, .. } => lemma_first_read_circular::<A>(expr, parsed, t, k),
        Expr::Binary { left, .. } => lemma_first_read_circular::<A>(left, parsed, t, k),
        Expr::Quantity { expr, .. } => lemma_first_read_circular::<A>(expr, parsed, t, k),
        _ => {},
    }
}

/// A statement that assigns a name and first reads that same name refers
/// to itself: wherever the results of a scope are justified, it holds the
/// circular-reference error at that read.
pub proof fn law_self_reference_circular<A: Arithmetic>(
    parsed: Seq<Option<Stmt>>,
    states: Seq<EvalState<A::Num>>,
    done_at: Seq<int>,
    k: int,
)
    requires
        values_justified::<A>(parsed, states, done_at),
        states.len() == parsed.len(),
        0 <= k < states.len(),
        states[k] is Done,
        parsed[k] matches Some(Stmt::Assign { name, expr, .. }) && first_read(&expr) matches Some((n, _))
            && n == name@,
    ensures
        states[k] matches EvalState::Done(res) && result_view(res) == Err::<ValueView<A::Num>, LangErrorView>(
            circular_error(read_span(&parsed[k]->0->Assign_expr)),
        ),
{
    if let EvalState::Done(res) = states[k] {
        assert(result_justified::<A>(parsed, states, done_at, k, res));
        let t = choose|t: Seq<EvalState<A::Num>>|
            #[trigger] agrees(t, states, done_at, done_at[k]) && t[k] is Visiting && stack_reaches(parsed, t, k) && settled_stmt::<A>(&parsed[k]->0, parsed, t, k)
                && result_view(res) == stmt_value::<A>(&parsed[k]->0, parsed, t, k);
        if let Some(Stmt::Assign { name, expr, .. }) = parsed[k] {
            assert(crate::scope::assigns(parsed, k, name@));
            assert(crate::scope::last_binding(parsed, name@, k) == Some(k));
            lemma_first_read_circular::<A>(&expr, parsed, t, k);
        }
    }
}

/// A division whose divisor the arithmetic takes for zero fails with the
/// divide-by-zero error at the divisor, whatever the dividend.
pub proof fn law_divide_by_zero<A: Arithmetic>(
    left: Expr,
    right: Expr,
    span: Span,
    divisor: A::Num,
    parsed: Seq<Option<Stmt>>,
    states: Seq<EvalState<A::Num>>,
    current: int,
)
    requires
        number_of(value_of::<A>(&left, parsed, states, current), expr_span(left@)) is Ok,
        number_of(value_of::<A>(&right, parsed, states, current), expr_span(right@)) == Ok::<
            A::Num,
            LangErrorView,
        >(divisor),
        A::spec_is_zero(divisor),
    ensures
        value_of::<A>(
            &Expr::Binary { op: BinaryOp::Div, left: Box::new(left), right: Box::new(right), span },
            parsed,
            states,
            current,
        ) == Err::<ValueView<A::Num>, LangErrorView>(lang_error(expr_span(right@), "divide by zero"@)),
{
}

proof fn lemma_first_read_err<A: Arithmetic>(
    e: &Expr,
    parsed: Seq<Option<Stmt>>,
    t: Seq<EvalState<A::Num>>,
    current: int,
    d: int,
)
    requires
        first_read(e) matches Some((name, _)) && binding(parsed, name, current) == Some(d),
        var_value(t, d, read_span(e)) is Err,
    ensures
        value_of::<A>(e, parsed, t, current) == var_value(t, d, read_span(e)),
    decreases e,
{
    match e {
        Expr::Unary { expr, .. } => lemma_first_read_err::<A>(expr, parsed, t, current, d),
        Expr::Binary { left, .. } => lemma_first_read_err::<A>(left, parsed, t, current, d),
        Expr::Quantity { expr, .. } => lemma_first_read_err::<A>(expr, parsed, t, current, d),
        _ => {},
    }
}

/// Statement `x` assigns a name and first reads a variable that refers to
/// statement `y`.
pub open spec fn reads_first(parsed: Seq<Option<Stmt>>, x: int, y: int) -> bool {
    parsed[x] matches Some(Stmt::Assign { expr, .. }) && first_read(&expr) matches Some((n, _))
        && binding(parsed, n, x) == Some(y)
}

/// The span of the first read of statement `x`, an assignment.
pub open spec fn stmt_read_span(parsed: Seq<Option<Stmt>>, x: int) -> Span {
    read_span(&parsed[x]->0->Assign_expr)
}

/// Statement `x`, done, first reads statement `y`: it holds the circular
/// error at that read when `y` was not done before it, or when `y` holds a
/// circular-reference error itself.
proof fn lemma_read_of_cycle<A: Arithmetic>(
    parsed: Seq<Option<Stmt>>,
    states: Seq<EvalState<A::Num>>,
    done_at: Seq<int>,
    x: int,
    y: int,
)
    requires
        values_justified::<A>(parsed, states, done_at),
        states.len() == parsed.len(),
        0 <= x < states.len(),
        0 <= y < states.len(),
        states[x] is Done,
        reads_first(parsed, x, y),
        !(done_at[y] < done_at[x]) || (states[y] matches EvalState::Done(Err(f)) && f.message@
            == "circular reference detected"@),
    ensures
        states[x] matches EvalState::Done(res) && result_view(res) == Err::<ValueView<A::Num>, LangErrorView>(
            circular_error(stmt_read_span(parsed, x)),
        ),
{
    if let EvalState::Done(res) = states[x] {
        assert(result_justified::<A>(parsed, states, done_at, x, res));
        let t = choose|t: Seq<EvalState<A::Num>>|
            #[trigger] agrees(t, states, done_at, done_at[x]) && t[x] is Visiting && stack_reaches(parsed, t, x)
                && settled_stmt::<A>(
                &parsed[x]->0,
                parsed,
                t,
                x,
            ) && result_view(res) == stmt_value::<A>(&parsed[x]->0, parsed, t, x);
        if let Some(Stmt::Assign { expr, .. }) = parsed[x] {
            let span = read_span(&expr);
            if t[y] is Done {
                assert(states[y] == t[y]);
            }
            assert(var_value(t, y, span) == Err::<ValueView<A::Num>, LangErrorView>(circular_error(span)));
            lemma_first_read_err::<A>(&expr, parsed, t, x, y);
        }
    }
}

/// Two assignments that each first read a variable referring to the other
/// form a cycle: wherever the results of a scope are justified and both
/// are done, each holds the circular-reference error at its read.
pub proof fn law_two_cycle_circular<A: Arithmetic>(
    parsed: Seq<Option<Stmt>>,
    states: Seq<EvalState<A::Num>>,
    done_at: Seq<int>,
    a: int,
    b: int,
)
    requires
        values_justified::<A>(parsed, states, done_at),
        states.len() == parsed.len(),
        0 <= a < states.len(),
        0 <= b < states.len(),
        states[a] is Done,
        states[b] is Done,
        reads_first(parsed, a, b),
        reads_first(parsed, b, a),
    ensures
        states[a] matches EvalState::Done(res) && result_view(res) == Err::<ValueView<A::Num>, LangErrorView>(
            circular_error(stmt_read_span(parsed, a)),
        ),
        states[b] matches EvalState::Done(res) && result_view(res) == Err::<ValueView<A::Num>, LangErrorView>(
            circular_error(stmt_read_span(parsed, b)),
        ),
{
    if !(done_at[b] < done_at[a]) {
        lemma_read_of_cycle::<A>(parsed, states, done_at, a, b);
        lemma_read_of_cycle::<A>(parsed, states, done_at, b, a);
    } else {
        lemma_read_of_cycle::<A>(parsed, states, done_at, b, a);
        lemma_read_of_cycle::<A>(parsed, states, done_at, a, b);
    }
}

/// The statements `c[0]`, ..., `c[n - 1]` form a cycle of first reads: each
/// assigns a name and first reads a variable that refers to the next one,
/// and the last one's refers to the first.
pub open spec fn read_cycle(parsed: Seq<Option<Stmt>>, c: Seq<int>) -> bool {
    &&& c.len() > 0
    &&& forall|i: int| 0 <= i < c.len() ==> reads_first(parsed, #[trigger] c[i], c[(i + 1) % (c.len() as int)])
}

proof fn lemma_cycle_member<A: Arithmetic>(
    parsed: Seq<Option<Stmt>>,
    states: Seq<EvalState<A::Num>>,
    done_at: Seq<int>,
    c: Seq<int>,
    i: int,
)
    requires
        values_justified::<A>(parsed, states, done_at),
        states.len() == parsed.len(),
        read_cycle(parsed, c),
        forall|m: int|
            0 <= m < c.len() ==> 0 <= #[trigger] c[m] < states.len() && states[c[m]] is Done
                && done_at[c[m]] >= 0,
        0 <= i < c.len(),
    ensures
        states[c[i]] matches EvalState::Done(res) && result_view(res) == Err::<ValueView<A::Num>, LangErrorView>(
            circular_error(stmt_read_span(parsed, c[i])),
        ),
    decreases done_at[c[i]],
{
    let x = c[i];
    let next = (i + 1) % (c.len() as int);
    let y = c[next];
    assert(reads_first(parsed, x, y));
    if done_at[y] < done_at[x] {
        lemma_cycle_member::<A>(parsed, states, done_at, c, next);
    }
    lemma_read_of_cycle::<A>(parsed, states, done_at, x, y);
}

/// Assignments that form a cycle of first reads are all circular
/// references: wherever the results of a scope are justified and all of
/// them are done, each holds the circular-reference error at its read.
pub proof fn law_cycle_circular<A: Arithmetic>(
    parsed: Seq<Option<Stmt>>,
    states: Seq<EvalState<A::Num>>,
    done_at: Seq<int>,
    c: Seq<int>,
)
    requires
        values_justified::<A>(parsed, states, done_at),
        states.len() == parsed.len(),
        read_cycle(parsed, c),
        forall|m: int|
            0 <= m < c.len() ==> 0 <= #[trigger] c[m] < states.len() && states[c[m]] is Done
                && done_at[c[m]] >= 0,
    ensures
        forall|i: int|
            0 <= i < c.len() ==> (states[#[trigger] c[i]] matches EvalState::Done(res) && result_view(res)
                == Err::<ValueView<A::Num>, LangErrorView>(circular_error(stmt_read_span(parsed, c[i])))),
{
    assert forall|i: int| 0 <= i < c.len() implies (states[#[trigger] c[i]] matches EvalState::Done(res)
        && result_view(res) == Err::<ValueView<A::Num>, LangErrorView>(
        circular_error(stmt_read_span(parsed, c[i])),
    )) by {
        lemma_cycle_member::<A>(parsed, states, done_at, c, i);
    }
}

// ---------------------------------------------------------------------------
// Values over the final results.
/// `s` holds what `t` holds for every statement that `t` has done.
pub open spec fn same_done<N>(t: Seq<EvalState<N>>, s: Seq<EvalState<N>>) -> bool {
    &&& t.len() == s.len()
    &&& forall|i: int| 0 <= i < t.len() && (#[trigger] t[i]) is Done ==> s[i] == t[i]
}

/// No statement that `e` reads from statement `k` is being evaluated in `t`.
pub open spec fn meets_no_visiting<N>(e: &Expr, parsed: Seq<Option<Stmt>>, t: Seq<EvalState<N>>, k: int) -> bool {
    forall|i: int| #[trigger] expr_reads(e, parsed, k, i) && 0 <= i < t.len() ==> !(t[i] is Visiting)
}

pub open spec fn items_meet_no_visiting<N>(
    es: Seq<Expr>,
    parsed: Seq<Option<Stmt>>,
    t: Seq<EvalState<N>>,
    k: int,
) -> bool {
    forall|i: int| #[trigger] exprs_reads(es, parsed, k, i) && 0 <= i < t.len() ==> !(t[i] is Visiting)
}

/// A settled expression that reads no statement being evaluated has the
/// same value in any scope that holds the same results for the statements
/// done.
pub proof fn lemma_value_transfer<A: Arithmetic>(
    e: &Expr,
    parsed: Seq<Option<Stmt>>,
    t: Seq<EvalState<A::Num>>,
    s: Seq<EvalState<A::Num>>,
    k: int,
)
    requires
        settled::<A>(e, parsed, t, k),
        same_done(t, s),
        meets_no_visiting(e, parsed, t, k),
    ensures
        value_of::<A>(e, parsed, t, k) == value_of::<A>(e, parsed, s, k),
    decreases e, 2nat,
{
    match e {
        Expr::Var(name, _) => {
            if let Some(c) = binding(parsed, name@, k) {
                assert(expr_reads(e, parsed, k, c));
                assert(s[c] == t[c]);
            }
        },
        Expr::Unary { expr, .. } => {
            assert forall|i: int| #[trigger] expr_reads(expr, parsed, k, i) && 0 <= i < t.len() implies !(
            t[i] is Visiting) by {
                assert(expr_reads(e, parsed, k, i));
            }
            lemma_value_transfer::<A>(expr, parsed, t, s, k);
        },
        Expr::Quantity { expr, .. } => {
            assert forall|i: int| #[trigger] expr_reads(expr, parsed, k, i) && 0 <= i < t.len() implies !(
            t[i] is Visiting) by {
                assert(expr_reads(e, parsed, k, i));
            }
            lemma_value_transfer::<A>(expr, parsed, t, s, k);
        },
        Expr::Binary { left, right, .. } => {
            assert forall|i: int| #[trigger] expr_reads(left, parsed, k, i) && 0 <= i < t.len() implies !(
            t[i] is Visiting) by {
                assert(expr_reads(e, parsed, k, i));
            }
            assert forall|i: int| #[trigger] expr_reads(right, parsed, k, i) && 0 <= i < t.len() implies !(
            t[i] is Visiting) by {
                assert(expr_reads(e, parsed, k, i));
            }
            lemma_value_transfer::<A>(left, parsed, t, s, k);
            if number_of(value_of::<A>(left, parsed, t, k), expr_span(left@)) is Ok {
                lemma_value_transfer::<A>(right, parsed, t, s, k);
            }
        },
        Expr::List(items, _) => {
            assert forall|i: int| #[trigger] exprs_reads(items@, parsed, k, i) && 0 <= i < t.len() implies !(
            t[i] is Visiting) by {
                assert(expr_reads(e, parsed, k, i));
            }
            lemma_numbers_transfer::<A>(items@, parsed, t, s, k);
        },
        Expr::Call { name, args, span } => {
            assert forall|i: int| #[trigger] exprs_reads(args@, parsed, k, i) && 0 <= i < t.len() implies !(
            t[i] is Visiting) by {
                assert(expr_reads(e, parsed, k, i));
            }
            lemma_call_transfer::<A>(name@, args@, *span, parsed, t, s, k);
        },
        Expr::Number(..) => {},
    }
}

pub proof fn lemma_numbers_transfer<A: Arithmetic>(
    es: Seq<Expr>,
    parsed: Seq<Option<Stmt>>,
    t: Seq<EvalState<A::Num>>,
    s: Seq<EvalState<A::Num>>,
    k: int,
)
    requires
        settled_items::<A>(es, parsed, t, k),
        same_done(t, s),
        items_meet_no_visiting(es, parsed, t, k),
    ensures
        numbers_of::<A>(es, parsed, t, k) == numbers_of::<A>(es, parsed, s, k),
    decreases es, 0nat,
{
    if es.len() > 0 {
        let init = es.subrange(0, es.len() - 1);
        assert forall|i: int| #[trigger] exprs_reads(init, parsed, k, i) && 0 <= i < t.len() implies !(
        t[i] is Visiting) by {
            assert(exprs_reads(es, parsed, k, i));
        }
        lemma_numbers_transfer::<A>(init, parsed, t, s, k);
        if numbers_of::<A>(init, parsed, t, k) is Ok {
            assert forall|i: int| #[trigger] expr_reads(&es[es.len() - 1], parsed, k, i) && 0 <= i < t.len() implies !(
            t[i] is Visiting) by {
                assert(exprs_reads(es, parsed, k, i));
            }
            lemma_value_transfer::<A>(&es[es.len() - 1], parsed, t, s, k);
        }
    }
}

pub proof fn lemma_call_transfer<A: Arithmetic>(
    name: Seq<char>,
    args: Seq<Expr>,
    span: Span,
    parsed: Seq<Option<Stmt>>,
    t: Seq<EvalState<A::Num>>,
    s: Seq<EvalState<A::Num>>,
    k: int,
)
    requires
        settled_call::<A>(name, args, parsed, t, k),
        same_done(t, s),
        items_meet_no_visiting(args, parsed, t, k),
    ensures
        call_value::<A>(name, args, span, parsed, t, k) == call_value::<A>(name, args, span, parsed, s, k),
    decreases args, 1nat,
{
    if let Ok(plan) = call_plan(name, args.len() as nat) {
        if args.len() > 0 {
            assert forall|m: int, i: int|
                0 <= m < args.len() && #[trigger] expr_reads(&args[m], parsed, k, i) && 0 <= i < t.len() implies !(
                t[i] is Visiting) by {
                lemma_item_reads(args, m, parsed, k, i);
            }
            if plan is Len || plan is Unary || plan is Round || args.len() == 1 {
                lemma_value_transfer::<A>(&args[0], parsed, t, s, k);
            }
            match plan {
                CallPlan::Len => {},
                CallPlan::Unary(_) => {},
                CallPlan::Round => {
                    if number_of(value_of::<A>(&args[0], parsed, t, k), expr_span(args[0]@)) is Ok
                        && args.len() == 2 {
                        lemma_value_transfer::<A>(&args[1], parsed, t, s, k);
                    }
                },
                _ => {
                    if args.len() != 1 {
                        lemma_numbers_transfer::<A>(args, parsed, t, s, k);
                    }
                },
            }
        }
    }
}

/// A statement whose reads do not lead back to it holds the value it has
/// over the final results of the scope: its variables take the values that
/// the statements they refer to hold, whatever order they were evaluated in.
pub proof fn law_acyclic_value<A: Arithmetic>(
    parsed: Seq<Option<Stmt>>,
    states: Seq<EvalState<A::Num>>,
    done_at: Seq<int>,
    k: int,
)
    requires
        values_justified::<A>(parsed, states, done_at),
        states.len() == parsed.len(),
        0 <= k < states.len(),
        states[k] is Done,
        !reaches_back(parsed, k),
    ensures
        states[k] matches EvalState::Done(res) && result_view(res) == stmt_value::<A>(
            &parsed[k]->0,
            parsed,
            states,
            k,
        ),
{
    if let EvalState::Done(res) = states[k] {
        assert(result_justified::<A>(parsed, states, done_at, k, res));
        let t = choose|t: Seq<EvalState<A::Num>>|
            #[trigger] agrees(t, states, done_at, done_at[k]) && t[k] is Visiting && stack_reaches(parsed, t, k)
                && settled_stmt::<A>(&parsed[k]->0, parsed, t, k) && result_view(res) == stmt_value::<A>(
                &parsed[k]->0,
                parsed,
                t,
                k,
            );
        assert(same_done(t, states));
        let st = parsed[k]->0;
        let e = match st {
            Stmt::Assign { expr, .. } => expr,
            Stmt::Expr(expr) => expr,
            Stmt::Convert { expr, .. } => expr,
        };
        assert forall|i: int| #[trigger] expr_reads(&e, parsed, k, i) && 0 <= i < t.len() implies !(
        t[i] is Visiting) by {
            assert(stmt_reads(&st, parsed, k, i));
            assert(reads(parsed, k, i));
            if t[i] is Visiting {
                assert(reaches(parsed, i, k));
                assert(reaches_back(parsed, k));
            }
        }
        lemma_value_transfer::<A>(&e, parsed, t, states, k);
    }
}

} // verus!
