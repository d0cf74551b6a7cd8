//! What is sure of an evaluation before it runs, whatever the arithmetic
//! computes: the shape of the value it gives or the error it reports.
use crate::eval::{
    call_plan, circular_error, non_empty_message, preserved, same_value, shape_of,
    unknown_variable_message, CallPlan, EvalState, Shape, Value,
};
use crate::lexer::{lang_error, LangError, LangErrorView};
use crate::scope::binding;
use crate::syntax::{BinaryOp, Expr, ExprView, Stmt, StmtView};
use crate::text::Span;
use vstd::prelude::*;

verus! {

/// What holds of every result of evaluating `e` from position `current`
/// of the scope, whatever the arithmetic computes: the kind of value it
/// gives when it succeeds, and how a variable is resolved.
pub open spec fn expr_outcome<N>(
    e: &Expr,
    r: Result<Value<N>, LangError>,
    parsed: Seq<Option<Stmt>>,
    states: Seq<EvalState<N>>,
    current: int,
) -> bool {
    match e {
        Expr::Number(..) => r matches Ok(v) && v is Number,
        Expr::Var(name, span) => (binding(parsed, name@, current) is None ==> (r matches Err(err)
            && err@ == lang_error(*span, unknown_variable_message(name@)))) && (binding(
            parsed,
            name@,
            current,
        ) matches Some(k) ==> resolved(states[k], r, *span)) && (r matches Err(err) ==> err.span
            == *span),
        Expr::Unary { .. } => r matches Ok(v) ==> v is Number,
        Expr::Binary { .. } => r matches Ok(v) ==> v is Number,
        Expr::List(items, _) => r matches Ok(v) ==> (v matches Value::List(values) && values.len()
            == items.len()),
        Expr::Call { name, args, span } => match call_plan(name@, args.len() as nat) {
            Err(m) => r matches Err(err) && err@ == lang_error(*span, m),
            Ok(_) => r matches Ok(v) ==> v is Number,
        },
        Expr::Quantity { unit, .. } => (r matches Ok(v) ==> (v matches Value::Quantity {
            unit: u,
            ..
        } && u@ == unit@)) && (crate::units::unit_of(unit@) is None ==> r is Err),
    }
}

/// `r` is as `sure` says: a value of the shape it gives, or the error it
/// gives; anything when nothing is sure.
pub open spec fn outcome_holds<N>(
    r: Result<Value<N>, LangError>,
    sure: Option<Result<Shape, LangErrorView>>,
) -> bool {
    match sure {
        Some(Ok(sh)) => r matches Ok(v) && shape_of(v) == sh,
        Some(Err(err)) => r matches Err(e) && e@ == err,
        None => true,
    }
}

/// The error of using a value of shape `sh` where a number is needed.
pub open spec fn shape_number_error(sh: Shape, span: Span) -> Option<LangErrorView> {
    match sh {
        Shape::Number => None,
        Shape::List(_) => Some(lang_error(span, "expected number, found list"@)),
        Shape::Quantity(_) => Some(lang_error(span, "expected number, found quantity"@)),
    }
}

/// What is sure of an evaluation whose value is then needed as a number.
pub open spec fn as_number(
    sure: Option<Result<Shape, LangErrorView>>,
    span: Span,
) -> Option<Result<Shape, LangErrorView>> {
    match sure {
        Some(Ok(sh)) => match shape_number_error(sh, span) {
            Some(err) => Some(Err(err)),
            None => Some(Ok(Shape::Number)),
        },
        other => other,
    }
}

/// What is sure of an evaluation whose value is then needed as a list: its
/// length, or the error.
pub open spec fn as_list(
    sure: Option<Result<Shape, LangErrorView>>,
    span: Span,
) -> Option<Result<nat, LangErrorView>> {
    match sure {
        Some(Ok(Shape::List(m))) => Some(Ok(m)),
        Some(Ok(_)) => Some(Err(lang_error(span, "expected list argument"@))),
        Some(Err(err)) => Some(Err(err)),
        None => None,
    }
}

/// What is sure of a call doing `plan`, named `name` at `span`, from what is
/// sure of its first and second arguments (at their spans), of all its
/// arguments evaluated as numbers in order, and their number `n`.
pub open spec fn plan_outcome(
    plan: CallPlan,
    name: Seq<char>,
    span: Span,
    first: Option<Result<Shape, LangErrorView>>,
    first_span: Span,
    second: Option<Result<Shape, LangErrorView>>,
    second_span: Span,
    items: Option<Result<(), LangErrorView>>,
    n: nat,
) -> Option<Result<Shape, LangErrorView>> {
    match plan {
        CallPlan::Len => match as_list(first, first_span) {
            Some(Ok(_)) => Some(Ok(Shape::Number)),
            Some(Err(err)) => Some(Err(err)),
            None => None,
        },
        CallPlan::Unary(_) => as_number(first, first_span),
        CallPlan::Round => match as_number(first, first_span) {
            Some(Ok(_)) => if n == 2 {
                as_number(second, second_span)
            } else {
                Some(Ok(Shape::Number))
            },
            other => other,
        },
        _ => {
            let count = if n == 1 {
                as_list(first, first_span)
            } else {
                match items {
                    Some(Ok(_)) => Some(Ok(n)),
                    Some(Err(err)) => Some(Err(err)),
                    None => None,
                }
            };
            match count {
                Some(Ok(m)) => if plan is Sum || plan is Product || plan is Count || m > 0 {
                    Some(Ok(Shape::Number))
                } else {
                    Some(Err(lang_error(span, non_empty_message(name))))
                },
                Some(Err(err)) => Some(Err(err)),
                None => None,
            }
        },
    }
}

/// What is sure of evaluating `e` from position `current` of a scope whose
/// statements are in `states`, whatever the arithmetic computes: the shape
/// of its value or the error it reports, or `None` where the arithmetic
/// decides (a division fails on a zero divisor) or a statement not yet
/// evaluated does.
pub open spec fn sure_outcome<N>(
    e: &Expr,
    parsed: Seq<Option<Stmt>>,
    states: Seq<EvalState<N>>,
    current: int,
) -> Option<Result<Shape, LangErrorView>>
    decreases e,
{
    match e {
        Expr::Number(..) => Some(Ok(Shape::Number)),
        Expr::Var(name, span) => match binding(parsed, name@, current) {
            None => Some(Err(lang_error(*span, unknown_variable_message(name@)))),
            Some(k) => if 0 <= k < states.len() {
                match states[k] {
                    EvalState::Done(Ok(v)) => Some(Ok(shape_of(v))),
                    EvalState::Done(Err(f)) => Some(Err(lang_error(*span, f.message@))),
                    EvalState::Visiting => Some(Err(circular_error(*span))),
                    EvalState::Unvisited => None,
                }
            } else {
                None
            },
        },
        Expr::Unary { expr, span, .. } => as_number(sure_outcome(expr, parsed, states, current), *span),
        Expr::Binary { op, left, right, .. } => match as_number(
            sure_outcome(left, parsed, states, current),
            crate::syntax::expr_span(left@),
        ) {
            Some(Ok(_)) => match as_number(
                sure_outcome(right, parsed, states, current),
                crate::syntax::expr_span(right@),
            ) {
                Some(Ok(_)) => if *op == BinaryOp::Div {
                    None
                } else {
                    Some(Ok(Shape::Number))
                },
                other => other,
            },
            other => other,
        },
        Expr::List(items, _) => match sure_items(items@, parsed, states, current) {
            Some(Ok(_)) => Some(Ok(Shape::List(items.len() as nat))),
            Some(Err(err)) => Some(Err(err)),
            None => None,
        },
        Expr::Call { name, args, span } => match call_plan(name@, args.len() as nat) {
            Err(m) => Some(Err(lang_error(*span, m))),
            Ok(plan) => plan_outcome(
                plan,
                name@,
                *span,
                if args.len() > 0 {
                    sure_outcome(&args@[0], parsed, states, current)
                } else {
                    None
                },
                if args.len() > 0 {
                    crate::syntax::expr_span(args@[0]@)
                } else {
                    *span
                },
                if args.len() > 1 {
                    sure_outcome(&args@[1], parsed, states, current)
                } else {
                    None
                },
                if args.len() > 1 {
                    crate::syntax::expr_span(args@[1]@)
                } else {
                    *span
                },
                sure_items(args@, parsed, states, current),
                args.len() as nat,
            ),
        },
        Expr::Quantity { expr, unit, span } => match as_number(
            sure_outcome(expr, parsed, states, current),
            crate::syntax::expr_span(expr@),
        ) {
            Some(Ok(_)) => if crate::units::unit_of(unit@) is Some {
                Some(Ok(Shape::Quantity(unit@)))
            } else {
                Some(Err(lang_error(*span, crate::units::unknown_unit_message(unit@))))
            },
            other => other,
        },
    }
}

/// What is sure of evaluating `es` in order, each as a number: that all
/// give numbers, or the first error.
pub open spec fn sure_items<N>(
    es: Seq<Expr>,
    parsed: Seq<Option<Stmt>>,
    states: Seq<EvalState<N>>,
    current: int,
) -> Option<Result<(), LangErrorView>>
    decreases es,
{
    if es.len() == 0 {
        Some(Ok(()))
    } else {
        match as_number(sure_outcome(&es[0], parsed, states, current), crate::syntax::expr_span(es[0]@)) {
            Some(Ok(_)) => sure_items(es.subrange(1, es.len() as int), parsed, states, current),
            Some(Err(err)) => Some(Err(err)),
            None => None,
        }
    }
}

/// What is sure of argument `i` of `args`, if there is one.
pub open spec fn arg_outcome<N>(
    args: Seq<Expr>,
    i: int,
    parsed: Seq<Option<Stmt>>,
    states: Seq<EvalState<N>>,
    current: int,
) -> Option<Result<Shape, LangErrorView>> {
    if 0 <= i < args.len() {
        sure_outcome(&args[i], parsed, states, current)
    } else {
        None
    }
}

/// The span of argument `i` of `args`, or `span` when there is none.
pub open spec fn arg_span(args: Seq<Expr>, i: int, span: Span) -> Span {
    if 0 <= i < args.len() {
        crate::syntax::expr_span(args[i]@)
    } else {
        span
    }
}

/// What is sure of the numbers that the arguments of an aggregate give:
/// how many (the length of a single list, or one for each argument), or
/// the first error.
pub open spec fn count_outcome<N>(
    args: Seq<Expr>,
    parsed: Seq<Option<Stmt>>,
    states: Seq<EvalState<N>>,
    current: int,
) -> Option<Result<nat, LangErrorView>> {
    if args.len() == 1 {
        as_list(arg_outcome(args, 0, parsed, states, current), arg_span(args, 0, Span { start: 0, end: 0 }))
    } else {
        match sure_items(args, parsed, states, current) {
            Some(Ok(_)) => Some(Ok(args.len())),
            Some(Err(err)) => Some(Err(err)),
            None => None,
        }
    }
}

/// What is sure of evaluating `statement`: that of its expression, or for
/// a conversion, a quantity in the target unit or the error of the
/// conversion.
pub open spec fn stmt_outcome<N>(
    statement: &Stmt,
    parsed: Seq<Option<Stmt>>,
    states: Seq<EvalState<N>>,
    current: int,
) -> Option<Result<Shape, LangErrorView>> {
    match statement {
        Stmt::Assign { expr, .. } => sure_outcome(expr, parsed, states, current),
        Stmt::Expr(expr) => sure_outcome(expr, parsed, states, current),
        Stmt::Convert { expr, to_unit, to_unit_span, .. } => match sure_outcome(
            expr,
            parsed,
            states,
            current,
        ) {
            Some(Ok(Shape::Quantity(from))) => match crate::units::conversion_of(from, to_unit@) {
                Ok(_) => Some(Ok(Shape::Quantity(to_unit@))),
                Err(m) => Some(Err(lang_error(*to_unit_span, m))),
            },
            Some(Ok(_)) => Some(
                Err(
                    lang_error(
                        crate::syntax::expr_span(expr@),
                        "expected a quantity for unit conversion"@,
                    ),
                ),
            ),
            other => other,
        },
    }
}

/// What is sure stays sure, and the same, while more statements of the
/// scope are evaluated.
pub proof fn lemma_outcome_kept<N>(
    e: &Expr,
    parsed: Seq<Option<Stmt>>,
    before: Seq<EvalState<N>>,
    after: Seq<EvalState<N>>,
    current: int,
)
    requires
        preserved(before, after),
    ensures
        sure_outcome(e, parsed, before, current) is Some ==> sure_outcome(e, parsed, after, current)
            == sure_outcome(e, parsed, before, current),
    decreases e,
{
    match e {
        Expr::Unary { expr, .. } => {
            lemma_outcome_kept(expr, parsed, before, after, current);
        },
        Expr::Binary { left, right, .. } => {
            lemma_outcome_kept(left, parsed, before, after, current);
            lemma_outcome_kept(right, parsed, before, after, current);
        },
        Expr::List(items, _) => {
            lemma_items_kept(items@, parsed, before, after, current);
        },
        Expr::Call { args, .. } => {
            if args.len() > 0 {
                lemma_outcome_kept(&args@[0], parsed, before, after, current);
            }
            if args.len() > 1 {
                lemma_outcome_kept(&args@[1], parsed, before, after, current);
            }
            lemma_items_kept(args@, parsed, before, after, current);
        },
        Expr::Quantity { expr, .. } => {
            lemma_outcome_kept(expr, parsed, before, after, current);
        },
        Expr::Var(name, _) => {
            if let Some(k) = binding(parsed, name@, current) {
                if 0 <= k < before.len() && !(before[k] is Unvisited) {
                    assert(after[k] == before[k]);
                }
            }
        },
        Expr::Number(..) => {},
    }
}

pub proof fn lemma_items_kept<N>(
    es: Seq<Expr>,
    parsed: Seq<Option<Stmt>>,
    before: Seq<EvalState<N>>,
    after: Seq<EvalState<N>>,
    current: int,
)
    requires
        preserved(before, after),
    ensures
        sure_items(es, parsed, before, current) is Some ==> sure_items(es, parsed, after, current)
            == sure_items(es, parsed, before, current),
    decreases es,
{
    if es.len() > 0 {
        lemma_outcome_kept(&es[0], parsed, before, after, current);
        lemma_items_kept(es.subrange(1, es.len() as int), parsed, before, after, current);
    }
}

pub proof fn lemma_stmt_outcome_kept<N>(
    statement: &Stmt,
    parsed: Seq<Option<Stmt>>,
    before: Seq<EvalState<N>>,
    after: Seq<EvalState<N>>,
    current: int,
)
    requires
        preserved(before, after),
    ensures
        stmt_outcome(statement, parsed, before, current) is Some ==> stmt_outcome(
            statement,
            parsed,
            after,
            current,
        ) == stmt_outcome(statement, parsed, before, current),
{
    match statement {
        Stmt::Assign { expr, .. } => lemma_outcome_kept(expr, parsed, before, after, current),
        Stmt::Expr(expr) => lemma_outcome_kept(expr, parsed, before, after, current),
        Stmt::Convert { expr, .. } => lemma_outcome_kept(expr, parsed, before, after, current),
    }
}

/// The shape that `e` is sure to evaluate to whatever the arithmetic
/// computes and whatever the scope holds: as for [`sure_outcome`], with no
/// variable sure.
pub open spec fn view_shape(e: ExprView) -> Option<Shape>
    decreases e,
{
    match e {
        ExprView::Number(..) => Some(Shape::Number),
        ExprView::Var(..) => None,
        ExprView::Unary { expr, .. } => if view_shape(*expr) == Some(Shape::Number) {
            Some(Shape::Number)
        } else {
            None
        },
        ExprView::Binary { op, left, right, .. } => if op != BinaryOp::Div && view_shape(*left) == Some(
            Shape::Number,
        ) && view_shape(*right) == Some(Shape::Number) {
            Some(Shape::Number)
        } else {
            None
        },
        ExprView::List(items, _) => if view_numbers(items) {
            Some(Shape::List(items.len()))
        } else {
            None
        },
        ExprView::Call { name, args, .. } => match call_plan(name, args.len()) {
            Err(_) => None,
            Ok(plan) => {
                let first = if args.len() > 0 {
                    view_shape(args[0])
                } else {
                    None
                };
                let count = if args.len() == 1 {
                    match first {
                        Some(Shape::List(m)) => Some(m),
                        _ => None,
                    }
                } else if view_numbers(args) {
                    Some(args.len())
                } else {
                    None
                };
                let sure = match plan {
                    CallPlan::Len => first matches Some(Shape::List(_)),
                    CallPlan::Unary(_) => first == Some(Shape::Number),
                    CallPlan::Round => view_numbers(args),
                    CallPlan::Sum | CallPlan::Product | CallPlan::Count => count is Some,
                    _ => count matches Some(m) && m > 0,
                };
                if sure {
                    Some(Shape::Number)
                } else {
                    None
                }
            },
        },
        ExprView::Quantity { expr, unit, .. } => if view_shape(*expr) == Some(Shape::Number)
            && crate::units::unit_of(unit) is Some {
            Some(Shape::Quantity(unit))
        } else {
            None
        },
    }
}

/// Every expression of `es` is sure to evaluate to a number, whatever the
/// scope holds.
pub open spec fn view_numbers(es: Seq<ExprView>) -> bool
    decreases es,
{
    if es.len() == 0 {
        true
    } else {
        view_shape(es[0]) == Some(Shape::Number) && view_numbers(es.subrange(1, es.len() as int))
    }
}

/// The shape that a statement is sure to evaluate to whatever the scope
/// holds.
pub open spec fn view_stmt_sure(statement: StmtView) -> Option<Shape> {
    match statement {
        StmtView::Assign { expr, .. } => view_shape(expr),
        StmtView::Expr(expr) => view_shape(expr),
        StmtView::Convert { expr, to_unit, .. } => match view_shape(expr) {
            Some(Shape::Quantity(from)) => if crate::units::conversion_of(from, to_unit) is Ok {
                Some(Shape::Quantity(to_unit))
            } else {
                None
            },
            _ => None,
        },
    }
}

/// Statement `k` of the scope parses, and is sure to evaluate whatever
/// the scope holds.
pub open spec fn closed_sure(parsed: Seq<Option<Stmt>>, k: int) -> bool {
    parsed[k] matches Some(st) && view_stmt_sure(st@) is Some
}

/// What is sure whatever the scope holds is sure in every scope.
pub proof fn lemma_view_shape<N>(
    e: &Expr,
    parsed: Seq<Option<Stmt>>,
    states: Seq<EvalState<N>>,
    current: int,
)
    ensures
        view_shape(e@) matches Some(sh) ==> sure_outcome(e, parsed, states, current) == Some(
            Ok::<Shape, LangErrorView>(sh),
        ),
    decreases e,
{
    match e {
        Expr::Unary { expr, .. } => {
            lemma_view_shape(expr, parsed, states, current);
        },
        Expr::Binary { left, right, .. } => {
            lemma_view_shape(left, parsed, states, current);
            lemma_view_shape(right, parsed, states, current);
        },
        Expr::List(items, _) => {
            lemma_view_numbers(items@, parsed, states, current);
        },
        Expr::Call { args, .. } => {
            crate::syntax::lemma_exprs_view(args@);
            if args.len() > 0 {
                lemma_view_shape(&args@[0], parsed, states, current);
            }
            if args.len() > 1 {
                lemma_view_shape(&args@[1], parsed, states, current);
            }
            lemma_view_numbers(args@, parsed, states, current);
            if args.len() > 1 && view_numbers(crate::syntax::exprs_view(args@)) {
                lemma_view_numbers_each(crate::syntax::exprs_view(args@), 1);
            }
        },
        Expr::Quantity { expr, .. } => {
            lemma_view_shape(expr, parsed, states, current);
        },
        _ => {},
    }
}

/// Every expression of a list of sure numbers is a sure number.
proof fn lemma_view_numbers_each(vs: Seq<ExprView>, i: int)
    requires
        view_numbers(vs),
        0 <= i < vs.len(),
    ensures
        view_shape(vs[i]) == Some(Shape::Number),
    decreases i,
{
    if i > 0 {
        lemma_view_numbers_each(vs.subrange(1, vs.len() as int), i - 1);
    }
}

pub proof fn lemma_view_numbers<N>(
    es: Seq<Expr>,
    parsed: Seq<Option<Stmt>>,
    states: Seq<EvalState<N>>,
    current: int,
)
    ensures
        view_numbers(crate::syntax::exprs_view(es)) ==> sure_items(es, parsed, states, current)
            == Some(Ok::<(), LangErrorView>(())),
        crate::syntax::exprs_view(es).len() == es.len(),
    decreases es,
{
    crate::syntax::lemma_exprs_view(es);
    if es.len() > 0 {
        let rest = es.subrange(1, es.len() as int);
        let vs = crate::syntax::exprs_view(es);
        crate::syntax::lemma_exprs_view(rest);
        assert(vs.subrange(1, vs.len() as int) =~= crate::syntax::exprs_view(rest)) by {
            assert forall|i: int| 0 <= i < rest.len() implies #[trigger] crate::syntax::exprs_view(
                rest,
            )[i] == vs[i + 1] by {
                assert(rest[i] == es[i + 1]);
            }
        }
        lemma_view_numbers(rest, parsed, states, current);
        lemma_view_shape(&es[0], parsed, states, current);
    }
}

pub proof fn lemma_view_stmt_sure<N>(
    statement: &Stmt,
    parsed: Seq<Option<Stmt>>,
    states: Seq<EvalState<N>>,
    current: int,
)
    ensures
        view_stmt_sure(statement@) matches Some(sh) ==> stmt_outcome(statement, parsed, states, current)
            == Some(Ok::<Shape, LangErrorView>(sh)),
{
    match statement {
        Stmt::Assign { expr, .. } => lemma_view_shape(expr, parsed, states, current),
        Stmt::Expr(expr) => lemma_view_shape(expr, parsed, states, current),
        Stmt::Convert { expr, .. } => lemma_view_shape(expr, parsed, states, current),
    }
}

/// What a variable referred to at `span` gives when the statement it
/// refers to is in `state`: a cycle is reported where the variable is used,
/// and an evaluated statement gives its recorded value, or its error
/// message reported at `span`.
pub open spec fn resolved<N>(state: EvalState<N>, r: Result<Value<N>, LangError>, span: Span) -> bool {
    match state {
        EvalState::Visiting => r matches Err(e) && e@ == circular_error(span),
        EvalState::Done(Ok(w)) => r matches Ok(v) && same_value(v, w),
        EvalState::Done(Err(f)) => r matches Err(e) && e@ == lang_error(span, f.message@),
        EvalState::Unvisited => true,
    }
}

// ---------------------------------------------------------------------------
// Outcomes in document order.
/// What is sure of evaluating statement `k` of the scope in document order,
/// whatever the arithmetic computes: as [`stmt_outcome`], where a variable
/// that refers to an earlier statement has that statement's outcome, one
/// that refers to its own statement is a cycle, and one that refers to a
/// later statement is not sure.
pub open spec fn doc_outcome(parsed: Seq<Option<Stmt>>, k: int) -> Option<Result<Shape, LangErrorView>>
    decreases k, 2int, parsed,
{
    if 0 <= k < parsed.len() {
        match parsed[k] {
            Some(st) => doc_stmt(&st, parsed, k),
            None => None,
        }
    } else {
        None
    }
}

/// What is sure of evaluating `statement` as statement `k`, in document
/// order.
pub open spec fn doc_stmt(statement: &Stmt, parsed: Seq<Option<Stmt>>, k: int) -> Option<
    Result<Shape, LangErrorView>,
>
    decreases k, 1int, statement,
{
    match statement {
        Stmt::Assign { expr, .. } => doc_expr(expr, parsed, k),
        Stmt::Expr(expr) => doc_expr(expr, parsed, k),
        Stmt::Convert { expr, to_unit, to_unit_span, .. } => match doc_expr(expr, parsed, k) {
            Some(Ok(Shape::Quantity(from))) => match crate::units::conversion_of(from, to_unit@) {
                Ok(_) => Some(Ok(Shape::Quantity(to_unit@))),
                Err(m) => Some(Err(lang_error(*to_unit_span, m))),
            },
            Some(Ok(_)) => Some(
                Err(
                    lang_error(
                        crate::syntax::expr_span(expr@),
                        "expected a quantity for unit conversion"@,
                    ),
                ),
            ),
            other => other,
        },
    }
}

/// What is sure of evaluating `e` in statement `k`, in document order.
pub open spec fn doc_expr(e: &Expr, parsed: Seq<Option<Stmt>>, k: int) -> Option<
    Result<Shape, LangErrorView>,
>
    decreases k, 0int, e,
{
    match e {
        Expr::Number(..) => Some(Ok(Shape::Number)),
        Expr::Var(name, span) => match binding(parsed, name@, k) {
            None => Some(Err(lang_error(*span, unknown_variable_message(name@)))),
            Some(j) => if j == k {
                Some(Err(circular_error(*span)))
            } else if 0 <= j < k {
                match doc_outcome(parsed, j) {
                    Some(Ok(sh)) => Some(Ok(sh)),
                    Some(Err(f)) => Some(Err(lang_error(*span, f.message))),
                    None => None,
                }
            } else {
                None
            },
        },
        Expr::Unary { expr, span, .. } => as_number(doc_expr(expr, parsed, k), *span),
        Expr::Binary { op, left, right, .. } => match as_number(
            doc_expr(left, parsed, k),
            crate::syntax::expr_span(left@),
        ) {
            Some(Ok(_)) => match as_number(doc_expr(right, parsed, k), crate::syntax::expr_span(right@)) {
                Some(Ok(_)) => if *op == BinaryOp::Div {
                    None
                } else {
                    Some(Ok(Shape::Number))
                },
                other => other,
            },
            other => other,
        },
        Expr::List(items, _) => match doc_items(items@, parsed, k) {
            Some(Ok(_)) => Some(Ok(Shape::List(items.len() as nat))),
            Some(Err(err)) => Some(Err(err)),
            None => None,
        },
        Expr::Call { name, args, span } => match call_plan(name@, args.len() as nat) {
            Err(m) => Some(Err(lang_error(*span, m))),
            Ok(plan) => plan_outcome(
                plan,
                name@,
                *span,
                if args.len() > 0 {
                    doc_expr(&args@[0], parsed, k)
                } else {
                    None
                },
                if args.len() > 0 {
                    crate::syntax::expr_span(args@[0]@)
                } else {
                    *span
                },
                if args.len() > 1 {
                    doc_expr(&args@[1], parsed, k)
                } else {
                    None
                },
                if args.len() > 1 {
                    crate::syntax::expr_span(args@[1]@)
                } else {
                    *span
                },
                doc_items(args@, parsed, k),
                args.len() as nat,
            ),
        },
        Expr::Quantity { expr, unit, span } => match as_number(
            doc_expr(expr, parsed, k),
            crate::syntax::expr_span(expr@),
        ) {
            Some(Ok(_)) => if crate::units::unit_of(unit@) is Some {
                Some(Ok(Shape::Quantity(unit@)))
            } else {
                Some(Err(lang_error(*span, crate::units::unknown_unit_message(unit@))))
            },
            other => other,
        },
    }
}

/// What is sure of evaluating `es` in order, each as a number, in
/// statement `k`, in document order.
pub open spec fn doc_items(es: Seq<Expr>, parsed: Seq<Option<Stmt>>, k: int) -> Option<
    Result<(), LangErrorView>,
>
    decreases k, 0int, es,
{
    if es.len() == 0 {
        Some(Ok(()))
    } else {
        match as_number(doc_expr(&es[0], parsed, k), crate::syntax::expr_span(es[0]@)) {
            Some(Ok(_)) => doc_items(es.subrange(1, es.len() as int), parsed, k),
            Some(Err(err)) => Some(Err(err)),
            None => None,
        }
    }
}

/// What is sure of argument `i` of `args` in statement `k`, in document
/// order.
pub open spec fn doc_arg(args: Seq<Expr>, i: int, parsed: Seq<Option<Stmt>>, k: int) -> Option<
    Result<Shape, LangErrorView>,
> {
    if 0 <= i < args.len() {
        doc_expr(&args[i], parsed, k)
    } else {
        None
    }
}

/// What is sure of the numbers that the arguments of an aggregate give, in
/// statement `k`, in document order.
pub open spec fn doc_count(args: Seq<Expr>, parsed: Seq<Option<Stmt>>, k: int) -> Option<
    Result<nat, LangErrorView>,
> {
    if args.len() == 1 {
        as_list(doc_arg(args, 0, parsed, k), arg_span(args, 0, Span { start: 0, end: 0 }))
    } else {
        match doc_items(args, parsed, k) {
            Some(Ok(_)) => Some(Ok(args.len())),
            Some(Err(err)) => Some(Err(err)),
            None => None,
        }
    }
}

/// Every statement evaluated so far got the outcome it has in document
/// order, where that is sure.
pub open spec fn doc_consistent<N>(parsed: Seq<Option<Stmt>>, states: Seq<EvalState<N>>) -> bool {
    forall|j: int|
        0 <= j < states.len() ==> match #[trigger] states[j] {
            EvalState::Done(res) => outcome_holds(res, doc_outcome(parsed, j)),
            _ => true,
        }
}

/// Some statement whose outcome in document order is sure is being
/// evaluated.
pub open spec fn visiting_known<N>(parsed: Seq<Option<Stmt>>, states: Seq<EvalState<N>>) -> bool {
    exists|a: int|
        0 <= a < states.len() && (#[trigger] states[a]) is Visiting && doc_outcome(parsed, a) is Some
}

/// Every statement whose outcome in document order is sure, and which is
/// being evaluated, comes at or after `current`.
pub open spec fn visiting_above<N>(
    parsed: Seq<Option<Stmt>>,
    states: Seq<EvalState<N>>,
    current: int,
) -> bool {
    forall|a: int|
        0 <= a < states.len() && (#[trigger] states[a]) is Visiting && doc_outcome(parsed, a) is Some
            ==> current <= a
}

/// An evaluation whose outcome in document order is `sure`, made from
/// statement `current` (which is being evaluated), runs in document order:
/// the statements evaluated so far got their outcomes, and when it is part
/// of the evaluation of a statement with a sure outcome, its own outcome is
/// sure and it does not reach back to statements being evaluated.
pub open spec fn in_doc_order<N, T>(
    parsed: Seq<Option<Stmt>>,
    states: Seq<EvalState<N>>,
    current: int,
    sure: Option<T>,
) -> bool {
    &&& doc_consistent(parsed, states)
    &&& visiting_above(parsed, states, current)
    &&& visiting_known(parsed, states) ==> sure is Some
    &&& 0 <= current < states.len()
    &&& states[current] is Visiting
}


/// What is sure of the variable `name` at `span` in statement `k`, in
/// document order.
pub open spec fn doc_var(name: Seq<char>, span: Span, parsed: Seq<Option<Stmt>>, k: int) -> Option<
    Result<Shape, LangErrorView>,
> {
    match binding(parsed, name, k) {
        None => Some(Err(lang_error(span, unknown_variable_message(name)))),
        Some(j) => if j == k {
            Some(Err(circular_error(span)))
        } else if 0 <= j < k {
            match doc_outcome(parsed, j) {
                Some(Ok(sh)) => Some(Ok(sh)),
                Some(Err(f)) => Some(Err(lang_error(span, f.message))),
                None => None,
            }
        } else {
            None
        },
    }
}

/// What is sure of the call `name(args)` at `span` in statement `k`, in
/// document order.
pub open spec fn doc_call(
    name: Seq<char>,
    args: Seq<Expr>,
    span: Span,
    parsed: Seq<Option<Stmt>>,
    k: int,
) -> Option<Result<Shape, LangErrorView>> {
    match call_plan(name, args.len()) {
        Err(m) => Some(Err(lang_error(span, m))),
        Ok(plan) => plan_outcome(
            plan,
            name,
            span,
            doc_arg(args, 0, parsed, k),
            arg_span(args, 0, span),
            doc_arg(args, 1, parsed, k),
            arg_span(args, 1, span),
            doc_items(args, parsed, k),
            args.len(),
        ),
    }
}

/// Evaluating leaves the statements being evaluated as they were.
pub proof fn lemma_visiting_kept<N>(
    parsed: Seq<Option<Stmt>>,
    before: Seq<EvalState<N>>,
    after: Seq<EvalState<N>>,
    current: int,
)
    requires
        preserved(before, after),
        forall|k: int| 0 <= k < before.len() && before[k] is Unvisited ==> !(#[trigger] after[k] is Visiting),
    ensures
        visiting_known(parsed, after) == visiting_known(parsed, before),
        visiting_above(parsed, after, current) == visiting_above(parsed, before, current),
        0 <= current < before.len() && before[current] is Visiting ==> after[current] is Visiting,
{
    assert forall|a: int| 0 <= a < after.len() implies (#[trigger] after[a] is Visiting) == (
    before[a] is Visiting) by {
        if before[a] is Visiting {
            assert(after[a] == before[a]);
        } else if !(before[a] is Unvisited) {
            assert(after[a] == before[a]);
        }
    }
    if visiting_known(parsed, after) {
        let a = choose|a: int|
            0 <= a < after.len() && (#[trigger] after[a]) is Visiting && doc_outcome(parsed, a) is Some;
        assert(before[a] is Visiting);
    }
    if visiting_known(parsed, before) {
        let a = choose|a: int|
            0 <= a < before.len() && (#[trigger] before[a]) is Visiting && doc_outcome(parsed, a) is Some;
        assert(after[a] is Visiting);
    }
}

/// Statement `pos` is evaluated in document order: the statements evaluated
/// so far got their outcomes, every statement with a sure outcome that is
/// being evaluated comes after it, and when there is one, the outcome of
/// `pos` is sure too.
pub open spec fn statement_in_doc_order<N>(
    parsed: Seq<Option<Stmt>>,
    states: Seq<EvalState<N>>,
    pos: int,
) -> bool {
    &&& doc_consistent(parsed, states)
    &&& visiting_above(parsed, states, pos + 1)
    &&& visiting_known(parsed, states) ==> doc_outcome(parsed, pos) is Some
    &&& 0 <= pos < states.len()
    &&& !(states[pos] is Visiting)
}

proof fn lemma_doc_first_read_circular(e: &Expr, parsed: Seq<Option<Stmt>>, k: int)
    requires
        crate::value::first_read(e) matches Some((name, _)) && binding(parsed, name, k) == Some(k),
    ensures
        doc_expr(e, parsed, k) == Some(
            Err::<Shape, LangErrorView>(circular_error(crate::value::read_span(e))),
        ),
    decreases e,
{
    match e {
        Expr::Unary { expr, .. } => lemma_doc_first_read_circular(expr, parsed, k),
        Expr::Binary { left, .. } => lemma_doc_first_read_circular(left, parsed, k),
        Expr::Quantity { expr, .. } => lemma_doc_first_read_circular(expr, parsed, k),
        _ => {},
    }
}

/// A statement that assigns a name and first reads that same name is
/// reported as a circular reference at that read, whatever the rest of the
/// document holds.
pub proof fn law_self_reference_reported(parsed: Seq<Option<Stmt>>, k: int)
    requires
        0 <= k < parsed.len(),
        parsed[k] matches Some(Stmt::Assign { name, expr, .. }) && crate::value::first_read(&expr) matches Some(
            (n, _),
        ) && n == name@,
    ensures
        doc_outcome(parsed, k) == Some(
            Err::<Shape, LangErrorView>(
                circular_error(crate::value::read_span(&parsed[k]->0->Assign_expr)),
            ),
        ),
{
    if let Some(Stmt::Assign { name, expr, .. }) = parsed[k] {
        assert(crate::scope::assigns(parsed, k, name@));
        assert(crate::scope::last_binding(parsed, name@, k) == Some(k));
        lemma_doc_first_read_circular(&expr, parsed, k);
    }
}

} // verus!
