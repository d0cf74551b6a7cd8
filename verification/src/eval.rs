//! Evaluating statements.
//!
//! Numbers are handled by an [`Arithmetic`]: it turns literals into numbers,
//! combines them and formats them. Everything else is decided here: which
//! variable a name refers to, which calls exist and how many arguments they
//! take, what kind of value each construct needs and yields, which unit
//! conversions exist, and which error is reported first. The evaluation
//! functions state their results exactly: the value that `crate::value`
//! gives each construct, in terms of the operations of the arithmetic.
use crate::chars::same_text;
use crate::lexer::{concat3, lang_error, text, LangError, LangErrorView};
use crate::syntax::{BinaryOp, Expr, Stmt, UnaryOp};
use crate::outcome::{
    arg_outcome, arg_span, as_number, closed_sure, count_outcome, doc_arg, doc_call, doc_consistent,
    doc_count, doc_expr, doc_items, doc_outcome, doc_stmt, doc_var, expr_outcome, in_doc_order,
    lemma_outcome_kept, lemma_stmt_outcome_kept, lemma_view_stmt_sure, lemma_visiting_kept,
    outcome_holds, plan_outcome, resolved, statement_in_doc_order, stmt_outcome, sure_items,
    sure_outcome,
};
use crate::scope::{binding, find_binding, lemma_first_binding, lemma_last_binding};
use crate::text::Span;
use crate::value::{
    agrees, aggregate_args, items_within, lemma_item_within, lemma_no_reads, lemma_reaches_self,
    lemma_stack_kept, lemma_stack_step, reads, reads_within, stack_reaches, stmt_reads, aggregate_value, call_value, lemma_justified_update, result_justified,
    values_justified, extreme, lemma_numbers_fail, lemma_same_outcome_view,
    lemma_settled_items_kept, lemma_settled_kept, number_of, numbers_of, result_view, settled,
    settled_args, settled_call, settled_items, settled_stmt, stmt_value, value_of, var_value,
};
use crate::units::{
    check_conversion, conversion_of, unit_definition, TemperatureScale, UnitKind, UnitKindView,
    UnitView,
};
use vstd::prelude::*;

verus! {

broadcast use vstd::seq::group_seq_axioms;

/// The one-argument numeric functions.
#[derive(Clone, Copy, Debug, PartialEq, Eq, Structural)]
pub enum NumberFn {
    Abs,
    Floor,
    Ceil,
    Sqrt,
    /// Rounding to the nearest integer, halves away from zero.
    Round,
}

/// The numbers that statements compute with.
///
/// Each operation is a function of its arguments, named by a spec function
/// of the same name with a `spec_` prefix; the contracts of the library say
/// which of these a result is. What the functions compute on given numbers
/// (floating point, in the server) is the implementation's, and the `ensures`
/// of the methods are what an implementation promises: that each method
/// computes a function of its arguments alone. The default bodies of the
/// spec functions only let an implementation written outside verified code
/// leave them out: the server's `f64` implementation cannot name the types
/// of these spec functions, and without defaults it could not implement the
/// trait at all. To the library, for a generic implementation, each spec
/// function is unknown (nothing is proved from the defaults); for the `f64`
/// implementation, that its methods compute the functions the contracts
/// name is trusted, not proved.
pub trait Arithmetic {
    type Num: Copy;

    /// The number that the decimal literal `text` denotes.
    closed spec fn spec_literal(text: Seq<char>) -> Self::Num {
        vstd::pervasive::arbitrary()
    }

    closed spec fn spec_from_count(count: nat) -> Self::Num {
        vstd::pervasive::arbitrary()
    }

    closed spec fn spec_negate(value: Self::Num) -> Self::Num {
        vstd::pervasive::arbitrary()
    }

    closed spec fn spec_apply(op: BinaryOp, left: Self::Num, right: Self::Num) -> Self::Num {
        vstd::pervasive::arbitrary()
    }

    closed spec fn spec_is_zero(value: Self::Num) -> bool {
        vstd::pervasive::arbitrary()
    }

    closed spec fn spec_apply_fn(f: NumberFn, value: Self::Num) -> Self::Num {
        vstd::pervasive::arbitrary()
    }

    closed spec fn spec_smaller(left: Self::Num, right: Self::Num) -> Self::Num {
        vstd::pervasive::arbitrary()
    }

    closed spec fn spec_larger(left: Self::Num, right: Self::Num) -> Self::Num {
        vstd::pervasive::arbitrary()
    }

    closed spec fn spec_sum(values: Seq<Self::Num>) -> Self::Num {
        vstd::pervasive::arbitrary()
    }

    closed spec fn spec_product(values: Seq<Self::Num>) -> Self::Num {
        vstd::pervasive::arbitrary()
    }

    closed spec fn spec_precedes(left: Self::Num, right: Self::Num) -> bool {
        vstd::pervasive::arbitrary()
    }

    closed spec fn spec_format_fixed(value: Self::Num) -> Seq<char> {
        vstd::pervasive::arbitrary()
    }

    /// The number that a decimal literal (digits with at most one `.`, and at
    /// least one digit) denotes.
    fn literal(&self, text: &str) -> (r: Self::Num)
        ensures
            r == Self::spec_literal(text@),
    ;

    /// A count as a number.
    fn from_count(&self, count: usize) -> (r: Self::Num)
        ensures
            r == Self::spec_from_count(count as nat),
    ;

    fn negate(&self, value: Self::Num) -> (r: Self::Num)
        ensures
            r == Self::spec_negate(value),
    ;

    fn apply(&self, op: BinaryOp, left: Self::Num, right: Self::Num) -> (r: Self::Num)
        ensures
            r == Self::spec_apply(op, left, right),
    ;

    fn is_zero(&self, value: Self::Num) -> (r: bool)
        ensures
            r == Self::spec_is_zero(value),
    ;

    fn apply_fn(&self, f: NumberFn, value: Self::Num) -> (r: Self::Num)
        ensures
            r == Self::spec_apply_fn(f, value),
    ;

    fn smaller(&self, left: Self::Num, right: Self::Num) -> (r: Self::Num)
        ensures
            r == Self::spec_smaller(left, right),
    ;

    fn larger(&self, left: Self::Num, right: Self::Num) -> (r: Self::Num)
        ensures
            r == Self::spec_larger(left, right),
    ;

    fn sum(&self, values: &Vec<Self::Num>) -> (r: Self::Num)
        ensures
            r == Self::spec_sum(values@),
    ;

    fn product(&self, values: &Vec<Self::Num>) -> (r: Self::Num)
        ensures
            r == Self::spec_product(values@),
    ;

    /// `left` comes strictly before `right` in the total order of numbers.
    fn precedes(&self, left: Self::Num, right: Self::Num) -> (r: bool)
        ensures
            r == Self::spec_precedes(left, right),
    ;

    /// The number with exactly ten decimals, a magnitude below `1e-10`
    /// being shown as zero.
    fn format_fixed(&self, value: Self::Num) -> (r: String)
        ensures
            r@ == Self::spec_format_fixed(value),
    ;
}

/// The value of a statement.
#[derive(Clone, Debug, PartialEq)]
pub enum Value<N> {
    Number(N),
    List(Vec<N>),
    Quantity { value: N, unit: String },
}

/// What a call does, once its name and number of arguments are known.
#[derive(Clone, Copy, Debug, PartialEq, Eq, Structural)]
pub enum CallPlan {
    Sum,
    Avg,
    Min,
    Max,
    Len,
    Count,
    Product,
    Median,
    Unary(NumberFn),
    Round,
}

pub open spec fn expects_one_message(name: Seq<char>) -> Seq<char> {
    "`"@ + name + "` expects exactly one argument"@
}

pub open spec fn unknown_function_message(name: Seq<char>) -> Seq<char> {
    "unknown function `"@ + name + "`"@
}

pub open spec fn non_empty_message(name: Seq<char>) -> Seq<char> {
    "`"@ + name + "` requires a non-empty list"@
}

/// Aggregates take one list or several numbers.
pub open spec fn aggregate(count: nat, plan: CallPlan) -> Result<CallPlan, Seq<char>> {
    if count == 0 {
        Err("expected at least one argument"@)
    } else {
        Ok(plan)
    }
}

/// Functions of one number take exactly one argument.
pub open spec fn single(name: Seq<char>, count: nat, plan: CallPlan) -> Result<CallPlan, Seq<char>> {
    if count != 1 {
        Err(expects_one_message(name))
    } else {
        Ok(plan)
    }
}

/// The call `name(...)` with `count` arguments: what it does, or the error
/// it is reported with before any argument is evaluated.
pub open spec fn call_plan(name: Seq<char>, count: nat) -> Result<CallPlan, Seq<char>> {
    if name == "sum"@ {
        aggregate(count, CallPlan::Sum)
    } else if name == "avg"@ {
        aggregate(count, CallPlan::Avg)
    } else if name == "min"@ {
        aggregate(count, CallPlan::Min)
    } else if name == "max"@ {
        aggregate(count, CallPlan::Max)
    } else if name == "len"@ {
        single(name, count, CallPlan::Len)
    } else if name == "count"@ {
        aggregate(count, CallPlan::Count)
    } else if name == "product"@ {
        aggregate(count, CallPlan::Product)
    } else if name == "median"@ {
        aggregate(count, CallPlan::Median)
    } else if name == "abs"@ {
        single(name, count, CallPlan::Unary(NumberFn::Abs))
    } else if name == "round"@ {
        if count < 1 || count > 2 {
            Err("`round` expects one or two arguments"@)
        } else {
            Ok(CallPlan::Round)
        }
    } else if name == "floor"@ {
        single(name, count, CallPlan::Unary(NumberFn::Floor))
    } else if name == "ceil"@ {
        single(name, count, CallPlan::Unary(NumberFn::Ceil))
    } else if name == "sqrt"@ {
        single(name, count, CallPlan::Unary(NumberFn::Sqrt))
    } else {
        Err(unknown_function_message(name))
    }
}

fn aggregate_plan(count: usize, plan: CallPlan) -> (r: Result<CallPlan, String>)
    ensures
        match r {
            Ok(p) => aggregate(count as nat, plan) == Ok::<CallPlan, Seq<char>>(p),
            Err(m) => aggregate(count as nat, plan) == Err::<CallPlan, Seq<char>>(m@),
        },
{
    if count == 0 {
        Err(text("expected at least one argument"))
    } else {
        Ok(plan)
    }
}

fn single_plan(name: &str, count: usize, plan: CallPlan) -> (r: Result<CallPlan, String>)
    ensures
        match r {
            Ok(p) => single(name@, count as nat, plan) == Ok::<CallPlan, Seq<char>>(p),
            Err(m) => single(name@, count as nat, plan) == Err::<CallPlan, Seq<char>>(m@),
        },
{
    if count != 1 {
        Err(concat3("`", name, "` expects exactly one argument"))
    } else {
        Ok(plan)
    }
}

/// What the call `name(...)` with `count` arguments does.
pub fn plan_call(name: &str, count: usize) -> (r: Result<CallPlan, String>)
    ensures
        match r {
            Ok(p) => call_plan(name@, count as nat) == Ok::<CallPlan, Seq<char>>(p),
            Err(m) => call_plan(name@, count as nat) == Err::<CallPlan, Seq<char>>(m@),
        },
{
    if same_text(name, "sum") {
        aggregate_plan(count, CallPlan::Sum)
    } else if same_text(name, "avg") {
        aggregate_plan(count, CallPlan::Avg)
    } else if same_text(name, "min") {
        aggregate_plan(count, CallPlan::Min)
    } else if same_text(name, "max") {
        aggregate_plan(count, CallPlan::Max)
    } else if same_text(name, "len") {
        single_plan(name, count, CallPlan::Len)
    } else if same_text(name, "count") {
        aggregate_plan(count, CallPlan::Count)
    } else if same_text(name, "product") {
        aggregate_plan(count, CallPlan::Product)
    } else if same_text(name, "median") {
        aggregate_plan(count, CallPlan::Median)
    } else if same_text(name, "abs") {
        single_plan(name, count, CallPlan::Unary(NumberFn::Abs))
    } else if same_text(name, "round") {
        if count < 1 || count > 2 {
            Err(text("`round` expects one or two arguments"))
        } else {
            Ok(CallPlan::Round)
        }
    } else if same_text(name, "floor") {
        single_plan(name, count, CallPlan::Unary(NumberFn::Floor))
    } else if same_text(name, "ceil") {
        single_plan(name, count, CallPlan::Unary(NumberFn::Ceil))
    } else if same_text(name, "sqrt") {
        single_plan(name, count, CallPlan::Unary(NumberFn::Sqrt))
    } else {
        Err(concat3("unknown function `", name, "`"))
    }
}

/// A value without its numbers: a number, a list of some length, or a
/// quantity in some unit.
pub enum Shape {
    Number,
    List(nat),
    Quantity(Seq<char>),
}

pub open spec fn shape_of<N>(v: Value<N>) -> Shape {
    match v {
        Value::Number(_) => Shape::Number,
        Value::List(items) => Shape::List(items@.len()),
        Value::Quantity { unit, .. } => Shape::Quantity(unit@),
    }
}

/// The error of using `v` where a number is needed, if it is not one.
pub open spec fn number_error<N>(v: Value<N>, span: Span) -> Option<LangErrorView> {
    match v {
        Value::Number(_) => None,
        Value::List(_) => Some(lang_error(span, "expected number, found list"@)),
        Value::Quantity { .. } => Some(lang_error(span, "expected number, found quantity"@)),
    }
}

/// The error of using `v` where a list is needed, if it is not one.
pub open spec fn list_error<N>(v: Value<N>, span: Span) -> Option<LangErrorView> {
    match v {
        Value::List(_) => None,
        _ => Some(lang_error(span, "expected list argument"@)),
    }
}

/// The number `value` holds, or the error of using it as a number.
pub fn expect_number<N: Copy>(value: Value<N>, span: Span) -> (r: Result<N, LangError>)
    ensures
        match r {
            Ok(n) => value == Value::<N>::Number(n),
            Err(e) => number_error(value, span) == Some(e@),
        },
{
    match value {
        Value::Number(number) => Ok(number),
        Value::List(_) => Err(LangError { span, message: text("expected number, found list") }),
        Value::Quantity { .. } => Err(
            LangError { span, message: text("expected number, found quantity") },
        ),
    }
}

/// The numbers of the list `value` holds, or the error of using it as a list.
pub fn expect_list<N>(value: Value<N>, span: Span) -> (r: Result<Vec<N>, LangError>)
    ensures
        match r {
            Ok(items) => value == Value::<N>::List(items),
            Err(e) => list_error(value, span) == Some(e@),
        },
{
    match value {
        Value::List(items) => Ok(items),
        _ => Err(LangError { span, message: text("expected list argument") }),
    }
}

// ---------------------------------------------------------------------------
// The state of a scope.
/// Where the evaluation of a statement of the scope stands.
pub enum EvalState<N> {
    Unvisited,
    Visiting,
    Done(Result<Value<N>, LangError>),
}

/// How many statements have not been visited yet.
pub open spec fn unvisited<N>(states: Seq<EvalState<N>>) -> nat
    decreases states.len(),
{
    if states.len() == 0 {
        0
    } else {
        unvisited(states.drop_last()) + if states.last() is Unvisited {
            1nat
        } else {
            0nat
        }
    }
}

/// `after` comes from `before` by visiting statements: the visited ones keep
/// their state, and none becomes unvisited again.
pub open spec fn preserved<N>(before: Seq<EvalState<N>>, after: Seq<EvalState<N>>) -> bool {
    &&& after.len() == before.len()
    &&& forall|i: int| 0 <= i < before.len() && !(before[i] is Unvisited) ==> after[i] == before[i]
    &&& unvisited(after) <= unvisited(before)
}

pub proof fn lemma_unvisited_update<N>(states: Seq<EvalState<N>>, i: int, v: EvalState<N>)
    requires
        0 <= i < states.len(),
        !(v is Unvisited),
    ensures
        states[i] is Unvisited ==> unvisited(states.update(i, v)) + 1 == unvisited(states),
        !(states[i] is Unvisited) ==> unvisited(states.update(i, v)) == unvisited(states),
    decreases states.len(),
{
    if i < states.len() - 1 {
        lemma_unvisited_update(states.drop_last(), i, v);
        assert(states.update(i, v).drop_last() =~= states.drop_last().update(i, v));
    } else {
        assert(states.update(i, v).drop_last() =~= states.drop_last());
    }
}

pub proof fn lemma_unvisited_positive<N>(states: Seq<EvalState<N>>, i: int)
    requires
        0 <= i < states.len(),
        states[i] is Unvisited,
    ensures
        unvisited(states) >= 1,
    decreases states.len(),
{
    if i < states.len() - 1 {
        lemma_unvisited_positive(states.drop_last(), i);
    }
}

/// The size of an expression, which evaluation works down.
pub open spec fn expr_size(e: &Expr) -> nat
    decreases e,
{
    match e {
        Expr::Number(..) => 1,
        Expr::Var(..) => 1,
        Expr::Unary { expr, .. } => 1 + expr_size(expr),
        Expr::Binary { left, right, .. } => 1 + expr_size(left) + expr_size(right),
        Expr::List(items, _) => 2 + exprs_size(items@),
        Expr::Call { args, .. } => 2 + exprs_size(args@),
        Expr::Quantity { expr, .. } => 1 + expr_size(expr),
    }
}

pub open spec fn exprs_size(es: Seq<Expr>) -> nat
    decreases es,
{
    if es.len() == 0 {
        0
    } else {
        exprs_size(es.subrange(0, es.len() - 1)) + expr_size(&es[es.len() - 1])
    }
}

pub proof fn lemma_exprs_size_item(es: Seq<Expr>, i: int)
    requires
        0 <= i < es.len(),
    ensures
        expr_size(&es[i]) <= exprs_size(es),
    decreases es.len(),
{
    if i < es.len() - 1 {
        lemma_exprs_size_item(es.subrange(0, es.len() - 1), i);
    }
}

/// Evaluates the statements of a scope, each at most once.
pub struct Evaluator<'a, A: Arithmetic> {
    pub arithmetic: &'a A,
    pub parsed: &'a Vec<Option<Stmt>>,
    pub state: Vec<EvalState<A::Num>>,
    /// When each statement was done, counted in statements done.
    pub done_at: Ghost<Seq<int>>,
    /// How many statements are done.
    pub clock: Ghost<int>,
}

impl<'a, A: Arithmetic> Evaluator<'a, A> {
    /// The scope has a state for each statement, and each statement it has
    /// evaluated holds what it evaluates to.
    pub open spec fn wf(&self) -> bool {
        &&& self.state.len() == self.parsed.len()
        &&& self.done_at@.len() == self.state.len()
        &&& self.clock@ >= 0
        &&& forall|i: int|
            0 <= i < self.state.len() && (#[trigger] self.state@[i]) is Done ==> 0 <= self.done_at@[i]
                < self.clock@
        &&& values_justified::<A>(self.parsed@, self.state@, self.done_at@)
    }

    /// `after` is this evaluator after more statements were visited: each
    /// one it visited is evaluated, and none that is sure to evaluate
    /// whatever the scope holds failed.
    pub open spec fn evolves_to(&self, after: &Self) -> bool {
        &&& after.arithmetic == self.arithmetic
        &&& after.parsed == self.parsed
        &&& preserved(self.state@, after.state@)
        &&& forall|k: int|
            0 <= k < self.state.len() && self.state@[k] is Unvisited ==> !(
            #[trigger] after.state@[k] is Visiting)
        &&& forall|k: int|
            0 <= k < self.state.len() && self.state@[k] is Unvisited && (
            #[trigger] after.state@[k] matches EvalState::Done(Err(_))) ==> !closed_sure(
                self.parsed@,
                k,
            )
    }

    pub fn new(parsed: &'a Vec<Option<Stmt>>, arithmetic: &'a A) -> (ev: Self)
        ensures
            ev.wf(),
            ev.parsed == parsed,
            ev.arithmetic == arithmetic,
            forall|i: int| 0 <= i < ev.state.len() ==> ev.state@[i] is Unvisited,
    {
        let mut state: Vec<EvalState<A::Num>> = Vec::new();
        let mut i: usize = 0;
        while i < parsed.len()
            invariant
                i <= parsed.len(),
                state.len() == i,
                forall|k: int| 0 <= k < i ==> state@[k] is Unvisited,
            decreases parsed.len() - i,
        {
            state.push(EvalState::Unvisited);
            i = i + 1;
        }
        Evaluator { arithmetic, parsed, state, done_at: Ghost(Seq::new(parsed.len() as nat, |i: int| 0)), clock: Ghost(0) }
    }
}

/// The statements being evaluated stay the same as the scope evolves.
pub proof fn lemma_stack_evolves<'a, A: Arithmetic>(a: &Evaluator<'a, A>, b: &Evaluator<'a, A>, k: int)
    requires
        a.evolves_to(b),
        stack_reaches(a.parsed@, a.state@, k),
    ensures
        stack_reaches(b.parsed@, b.state@, k),
{
    assert forall|i: int| 0 <= i < a.state@.len() && a.state@[i] is Unvisited implies !(
    #[trigger] b.state@[i] is Visiting) by {
        assert(a.state@[i] is Unvisited);
    }
    lemma_stack_kept(a.parsed@, a.state@, b.state@, k);
}

pub proof fn lemma_evolves_trans<'a, A: Arithmetic>(
    a: &Evaluator<'a, A>,
    b: &Evaluator<'a, A>,
    c: &Evaluator<'a, A>,
)
    requires
        a.evolves_to(b),
        b.evolves_to(c),
    ensures
        a.evolves_to(c),
{
}

pub open spec fn circular_error(span: Span) -> LangErrorView {
    lang_error(span, "circular reference detected"@)
}

pub open spec fn unknown_variable_message(name: Seq<char>) -> Seq<char> {
    "unknown variable `"@ + name + "`"@
}

/// The span of statement `k` of the scope, or an empty span.
pub open spec fn statement_span(parsed: Seq<Option<Stmt>>, k: int) -> Span {
    match parsed[k] {
        Some(s) => crate::syntax::stmt_span(s@),
        None => Span { start: 0, end: 0 },
    }
}

/// `a` and `b` are the same value: the same numbers, and units with the
/// same text.
pub open spec fn same_value<N>(a: Value<N>, b: Value<N>) -> bool {
    match (a, b) {
        (Value::Number(x), Value::Number(y)) => x == y,
        (Value::List(x), Value::List(y)) => x@ == y@,
        (Value::Quantity { value: x, unit: u }, Value::Quantity { value: y, unit: w }) => x == y
            && u@ == w@,
        _ => false,
    }
}

/// A copy of a value.
pub fn copy_value<N: Copy>(value: &Value<N>) -> (copy: Value<N>)
    ensures
        same_value(copy, *value),
{
    match value {
        Value::Number(n) => Value::Number(*n),
        Value::List(items) => {
            let mut copied: Vec<N> = Vec::new();
            let mut i: usize = 0;
            while i < items.len()
                invariant
                    i <= items.len(),
                    copied@ == items@.take(i as int),
                decreases items.len() - i,
            {
                copied.push(items[i]);
                i = i + 1;
                assert(copied@ =~= items@.take(i as int));
            }
            assert(items@.take(items.len() as int) =~= items@);
            Value::List(copied)
        },
        Value::Quantity { value, unit } => Value::Quantity { value: *value, unit: unit.clone() },
    }
}

/// A copy of an evaluation result.
pub fn copy_result<N: Copy>(result: &Result<Value<N>, LangError>) -> (copy: Result<Value<N>, LangError>)
    ensures
        same_outcome(copy, *result),
{
    match result {
        Ok(v) => Ok(copy_value(v)),
        Err(e) => Err(LangError { span: e.span, message: e.message.clone() }),
    }
}

/// `r` is the result recorded as `res`: the same value, or the same error.
pub open spec fn same_outcome<N>(r: Result<Value<N>, LangError>, res: Result<Value<N>, LangError>) -> bool {
    match (r, res) {
        (Ok(v), Ok(w)) => same_value(v, w),
        (Err(e), Err(f)) => e@ == f@,
        _ => false,
    }
}

/// Evaluates statement `pos` of the scope: a cached result if it was
/// evaluated already, a circular-reference error if it is being evaluated.
pub fn eval_statement_at<'a, A: Arithmetic>(ev: &mut Evaluator<'a, A>, pos: usize) -> (r: Result<
    Value<A::Num>,
    LangError,
>)
    requires
        old(ev).wf(),
        stack_reaches(old(ev).parsed@, old(ev).state@, pos as int),
        pos < old(ev).state.len(),
        old(ev).parsed@[pos as int] is Some,
    ensures
        final(ev).wf(),
        old(ev).evolves_to(final(ev)),
        old(ev).state@[pos as int] is Visiting ==> (r matches Err(e) && e@ == circular_error(
            statement_span(old(ev).parsed@, pos as int),
        )),
        old(ev).state@[pos as int] matches EvalState::Done(res) ==> same_outcome(r, res),
        !(old(ev).state@[pos as int] is Visiting) ==> (final(ev).state@[pos as int] matches EvalState::Done(
            res,
        ) && same_outcome(r, res)),
        old(ev).state@[pos as int] is Unvisited ==> outcome_holds(
            r,
            stmt_outcome(&old(ev).parsed@[pos as int]->0, old(ev).parsed@, old(ev).state@, pos as int),
        ),
        !(old(ev).state@[pos as int] is Unvisited) ==> final(ev).state@ == old(ev).state@,
        statement_in_doc_order(old(ev).parsed@, old(ev).state@, pos as int) ==> doc_consistent(
            old(ev).parsed@,
            final(ev).state@,
        ) && outcome_holds(r, doc_outcome(old(ev).parsed@, pos as int)),
        old(ev).state@[pos as int] is Unvisited ==> settled_stmt::<A>(
            &old(ev).parsed@[pos as int]->0,
            old(ev).parsed@,
            final(ev).state@.update(pos as int, EvalState::Visiting),
            pos as int,
        ) && result_view(r) == stmt_value::<A>(
            &old(ev).parsed@[pos as int]->0,
            old(ev).parsed@,
            final(ev).state@.update(pos as int, EvalState::Visiting),
            pos as int,
        ),
    decreases unvisited(old(ev).state@), 0nat, 2nat,
{
    match &ev.state[pos] {
        EvalState::Done(result) => {
            return copy_result(result);
        },
        EvalState::Visiting => {
            let parsed: &'a Vec<Option<Stmt>> = ev.parsed;
            let span = match &parsed[pos] {
                Some(statement) => statement.span(),
                None => Span::new(0, 0),
            };
            return Err(LangError { span, message: text("circular reference detected") });
        },
        EvalState::Unvisited => {},
    }
    proof {
        lemma_unvisited_positive(ev.state@, pos as int);
    }
    evaluate_unvisited(ev, pos)
}

fn set_state<'a, A: Arithmetic>(ev: &mut Evaluator<'a, A>, pos: usize, v: EvalState<A::Num>)
    requires
        old(ev).wf(),
        pos < old(ev).state.len(),
        !(v is Unvisited),
        !(old(ev).state@[pos as int] is Done),
        v matches EvalState::Done(res) ==> old(ev).parsed@[pos as int] is Some && result_justified::<A>(
            old(ev).parsed@,
            old(ev).state@.update(pos as int, v),
            old(ev).done_at@.update(pos as int, old(ev).clock@),
            pos as int,
            res,
        ),
    ensures
        final(ev).wf(),
        final(ev).arithmetic == old(ev).arithmetic,
        final(ev).parsed == old(ev).parsed,
        final(ev).state@ == old(ev).state@.update(pos as int, v),
{
    proof {
        lemma_justified_update::<A>(ev.parsed@, ev.state@, ev.done_at@, pos as int, v, ev.clock@);
    }
    let done = matches!(v, EvalState::Done(_));
    ev.state.set(pos, v);
    if done {
        ev.done_at = Ghost(ev.done_at@.update(pos as int, ev.clock@));
        ev.clock = Ghost(ev.clock@ + 1);
    }
}

fn evaluate_unvisited<'a, A: Arithmetic>(ev: &mut Evaluator<'a, A>, pos: usize) -> (r: Result<
    Value<A::Num>,
    LangError,
>)
    requires
        old(ev).wf(),
        stack_reaches(old(ev).parsed@, old(ev).state@, pos as int),
        pos < old(ev).state.len(),
        old(ev).state@[pos as int] is Unvisited,
        old(ev).parsed@[pos as int] is Some,
    ensures
        final(ev).wf(),
        old(ev).evolves_to(final(ev)),
        final(ev).state@[pos as int] matches EvalState::Done(res) && same_outcome(r, res),
        outcome_holds(
            r,
            stmt_outcome(&old(ev).parsed@[pos as int]->0, old(ev).parsed@, old(ev).state@, pos as int),
        ),
        statement_in_doc_order(old(ev).parsed@, old(ev).state@, pos as int) ==> doc_consistent(
            old(ev).parsed@,
            final(ev).state@,
        ) && outcome_holds(r, doc_outcome(old(ev).parsed@, pos as int)),
        settled_stmt::<A>(
            &old(ev).parsed@[pos as int]->0,
            old(ev).parsed@,
            final(ev).state@.update(pos as int, EvalState::Visiting),
            pos as int,
        ),
        result_view(r) == stmt_value::<A>(
            &old(ev).parsed@[pos as int]->0,
            old(ev).parsed@,
            final(ev).state@.update(pos as int, EvalState::Visiting),
            pos as int,
        ),
    decreases unvisited(old(ev).state@), 0nat, 1nat,
{
    let ghost start = *ev;
    set_state(ev, pos, EvalState::Visiting);
    proof {
        lemma_unvisited_update(start.state@, pos as int, EvalState::Visiting);
    }
    let ghost visiting = *ev;
    proof {
        assert forall|i: int| 0 <= i < visiting.state@.len() && (#[trigger] visiting.state@[i]) is Visiting implies crate::value::reaches(
            visiting.parsed@,
            i,
            pos as int,
        ) by {
            if i == pos {
                lemma_reaches_self(visiting.parsed@, i);
            } else {
                assert(start.state@[i] is Visiting);
            }
        }
    }
    let parsed: &'a Vec<Option<Stmt>> = ev.parsed;
    let statement = parsed[pos].as_ref().unwrap();
    proof {
        lemma_stmt_outcome_kept(statement, parsed@, start.state@, visiting.state@, pos as int);
    }
    let result = eval_stmt(ev, statement, pos);
    proof {
        lemma_view_stmt_sure(statement, parsed@, visiting.state@, pos as int);
    }
    let ghost after = *ev;
    assert(after.state@[pos as int] is Visiting);
    proof {
        lemma_stack_kept(parsed@, visiting.state@, after.state@, pos as int);
    }
    let recorded = copy_result(&result);
    proof {
        lemma_same_outcome_view(recorded, result);
        let done = after.state@.update(pos as int, EvalState::Done(recorded));
        let order = after.done_at@.update(pos as int, after.clock@);
        assert(agrees(after.state@, done, order, order[pos as int]));
        assert(result_justified::<A>(parsed@, done, order, pos as int, recorded));
    }
    set_state(ev, pos, EvalState::Done(recorded));
    proof {
        lemma_unvisited_update(after.state@, pos as int, ev.state@[pos as int]);
        assert(ev.state@.update(pos as int, EvalState::Visiting) =~= after.state@);
    }
    result
}

/// Evaluates a statement from position `current` of the scope.
pub fn eval_stmt<'a, A: Arithmetic>(ev: &mut Evaluator<'a, A>, statement: &Stmt, current: usize) -> (r: Result<Value<A::Num>, LangError>)
    requires
        old(ev).wf(),
        stack_reaches(old(ev).parsed@, old(ev).state@, current as int),
        forall|i: int| #[trigger] stmt_reads(statement, old(ev).parsed@, current as int, i) ==> reads(
            old(ev).parsed@,
            current as int,
            i,
        ),
    ensures
        final(ev).wf(),
        old(ev).evolves_to(final(ev)),
        statement matches Stmt::Expr(e) ==> expr_outcome(e, r, old(ev).parsed@, old(ev).state@, current as int),
        statement matches Stmt::Assign { expr, .. } ==> expr_outcome(expr, r, old(ev).parsed@, old(ev).state@, current as int),
        statement matches Stmt::Convert { to_unit, .. } ==> (r matches Ok(v) ==> (v matches Value::Quantity { unit, .. } && unit@ == to_unit@ && crate::units::unit_of(to_unit@) is Some)),
        outcome_holds(r, stmt_outcome(statement, old(ev).parsed@, old(ev).state@, current as int)),
        in_doc_order(
            old(ev).parsed@,
            old(ev).state@,
            current as int,
            doc_stmt(statement, old(ev).parsed@, current as int),
        ) ==> doc_consistent(old(ev).parsed@, final(ev).state@) && outcome_holds(
            r,
            doc_stmt(statement, old(ev).parsed@, current as int),
        ),
        settled_stmt::<A>(statement, old(ev).parsed@, final(ev).state@, current as int),
        result_view(r) == stmt_value::<A>(statement, old(ev).parsed@, final(ev).state@, current as int),
    decreases unvisited(old(ev).state@), 1 + match statement {
        Stmt::Assign { expr, .. } => expr_size(expr),
        Stmt::Convert { expr, .. } => expr_size(expr),
        Stmt::Expr(expr) => expr_size(expr),
    }, 0nat,
{
    proof {
        let parsed = ev.parsed@;
        match statement {
            Stmt::Assign { expr, .. } => {
                assert forall|i: int| #[trigger] crate::value::expr_reads(expr, parsed, current as int, i) implies reads(
                    parsed,
                    current as int,
                    i,
                ) by {
                    assert(stmt_reads(statement, parsed, current as int, i));
                }
            },
            Stmt::Expr(expr) => {
                assert forall|i: int| #[trigger] crate::value::expr_reads(expr, parsed, current as int, i) implies reads(
                    parsed,
                    current as int,
                    i,
                ) by {
                    assert(stmt_reads(statement, parsed, current as int, i));
                }
            },
            Stmt::Convert { expr, .. } => {
                assert forall|i: int| #[trigger] crate::value::expr_reads(expr, parsed, current as int, i) implies reads(
                    parsed,
                    current as int,
                    i,
                ) by {
                    assert(stmt_reads(statement, parsed, current as int, i));
                }
            },
        }
    }
    match statement {
        Stmt::Assign { expr, .. } => eval_expr(ev, expr, current),
        Stmt::Expr(expr) => eval_expr(ev, expr, current),
        Stmt::Convert { expr, to_unit, to_unit_span, .. } => {
            let value = match eval_expr(ev, expr, current) {
                Err(e) => {
                    return Err(e);
                },
                Ok(v) => v,
            };
            match value {
                Value::Quantity { value: amount, unit: from_unit } => {
                    match convert_quantity(ev.arithmetic, amount, from_unit.as_str(), to_unit.as_str()) {
                        Ok(converted) => Ok(Value::Quantity { value: converted, unit: to_unit.clone() }),
                        Err(message) => Err(LangError { span: *to_unit_span, message }),
                    }
                },
                _ => Err(
                    LangError {
                        span: expr.span(),
                        message: text("expected a quantity for unit conversion"),
                    },
                ),
            }
        },
    }
}

/// A temperature `value` on `scale`, in kelvin.
pub open spec fn to_kelvin<A: Arithmetic>(scale: TemperatureScale, value: A::Num) -> A::Num {
    let offset = A::spec_literal("273.15"@);
    match scale {
        TemperatureScale::C => A::spec_apply(BinaryOp::Add, value, offset),
        TemperatureScale::F => A::spec_apply(
            BinaryOp::Add,
            A::spec_apply(
                BinaryOp::Div,
                A::spec_apply(
                    BinaryOp::Mul,
                    A::spec_apply(BinaryOp::Sub, value, A::spec_literal("32.0"@)),
                    A::spec_literal("5.0"@),
                ),
                A::spec_literal("9.0"@),
            ),
            offset,
        ),
        TemperatureScale::K => value,
    }
}

/// A temperature of `kelvin` kelvin, on `scale`.
pub open spec fn from_kelvin<A: Arithmetic>(scale: TemperatureScale, kelvin: A::Num) -> A::Num {
    let offset = A::spec_literal("273.15"@);
    match scale {
        TemperatureScale::C => A::spec_apply(BinaryOp::Sub, kelvin, offset),
        TemperatureScale::F => A::spec_apply(
            BinaryOp::Add,
            A::spec_apply(
                BinaryOp::Div,
                A::spec_apply(
                    BinaryOp::Mul,
                    A::spec_apply(BinaryOp::Sub, kelvin, offset),
                    A::spec_literal("9.0"@),
                ),
                A::spec_literal("5.0"@),
            ),
            A::spec_literal("32.0"@),
        ),
        TemperatureScale::K => kelvin,
    }
}

/// `value` in unit `from`, converted to unit `to`: scaled to the base unit
/// and back for linear units, through kelvin for temperatures.
pub open spec fn converted<A: Arithmetic>(value: A::Num, from: UnitView, to: UnitView) -> A::Num {
    match (from.kind, to.kind) {
        (UnitKindView::Linear(f), UnitKindView::Linear(t)) => A::spec_apply(
            BinaryOp::Div,
            A::spec_apply(BinaryOp::Mul, value, A::spec_literal(f)),
            A::spec_literal(t),
        ),
        (UnitKindView::Temperature(fs), UnitKindView::Temperature(ts)) => from_kelvin::<A>(
            ts,
            to_kelvin::<A>(fs, value),
        ),
        _ => value,
    }
}

/// Converting a temperature to kelvin gives its kelvin value: `v` C is
/// `v + 273.15` K, `v` F is `(v - 32) * 5 / 9 + 273.15` K, and `v` K is `v` K.
pub proof fn law_convert_to_kelvin<A: Arithmetic>(v: A::Num, from: UnitView, to: UnitView)
    requires
        from.kind is Temperature,
        to.kind == UnitKindView::Temperature(TemperatureScale::K),
    ensures
        converted::<A>(v, from, to) == match from.kind {
            UnitKindView::Temperature(TemperatureScale::C) => A::spec_apply(
                BinaryOp::Add,
                v,
                A::spec_literal("273.15"@),
            ),
            UnitKindView::Temperature(TemperatureScale::F) => A::spec_apply(
                BinaryOp::Add,
                A::spec_apply(
                    BinaryOp::Div,
                    A::spec_apply(
                        BinaryOp::Mul,
                        A::spec_apply(BinaryOp::Sub, v, A::spec_literal("32.0"@)),
                        A::spec_literal("5.0"@),
                    ),
                    A::spec_literal("9.0"@),
                ),
                A::spec_literal("273.15"@),
            ),
            _ => v,
        },
{
}

/// Converting kelvin to a temperature scale: `v` K is `v - 273.15` C,
/// `(v - 273.15) * 9 / 5 + 32` F, and `v` K.
pub proof fn law_convert_from_kelvin<A: Arithmetic>(v: A::Num, from: UnitView, to: UnitView)
    requires
        from.kind == UnitKindView::Temperature(TemperatureScale::K),
        to.kind is Temperature,
    ensures
        converted::<A>(v, from, to) == match to.kind {
            UnitKindView::Temperature(TemperatureScale::C) => A::spec_apply(
                BinaryOp::Sub,
                v,
                A::spec_literal("273.15"@),
            ),
            UnitKindView::Temperature(TemperatureScale::F) => A::spec_apply(
                BinaryOp::Add,
                A::spec_apply(
                    BinaryOp::Div,
                    A::spec_apply(
                        BinaryOp::Mul,
                        A::spec_apply(BinaryOp::Sub, v, A::spec_literal("273.15"@)),
                        A::spec_literal("9.0"@),
                    ),
                    A::spec_literal("5.0"@),
                ),
                A::spec_literal("32.0"@),
            ),
            _ => v,
        },
{
}

/// Converting between linear units multiplies by the factor of the source
/// unit to its base unit and divides by that of the target unit.
pub proof fn law_convert_linear<A: Arithmetic>(v: A::Num, from: UnitView, to: UnitView, f: Seq<char>, g: Seq<char>)
    requires
        from.kind == UnitKindView::Linear(f),
        to.kind == UnitKindView::Linear(g),
    ensures
        converted::<A>(v, from, to) == A::spec_apply(
            BinaryOp::Div,
            A::spec_apply(BinaryOp::Mul, v, A::spec_literal(f)),
            A::spec_literal(g),
        ),
{
}

/// Converts `value` from unit `from` to unit `to`.
pub fn convert_quantity<A: Arithmetic>(arithmetic: &A, value: A::Num, from: &str, to: &str) -> (r: Result<A::Num, String>)
    ensures
        match conversion_of(from@, to@) {
            Ok((f, t)) => r == Ok::<A::Num, String>(converted::<A>(value, f, t)),
            Err(m) => r matches Err(e) && e@ == m,
        },
{
    let (from_def, to_def) = match check_conversion(from, to) {
        Err(message) => {
            return Err(message);
        },
        Ok(defs) => defs,
    };
    match (from_def.kind, to_def.kind) {
        (UnitKind::Linear { factor_to_base: from_factor }, UnitKind::Linear { factor_to_base: to_factor }) => {
            let scaled = arithmetic.apply(BinaryOp::Mul, value, arithmetic.literal(from_factor));
            Ok(arithmetic.apply(BinaryOp::Div, scaled, arithmetic.literal(to_factor)))
        },
        (UnitKind::Temperature(from_scale), UnitKind::Temperature(to_scale)) => {
            let offset = arithmetic.literal("273.15");
            let kelvin = match from_scale {
                TemperatureScale::C => arithmetic.apply(BinaryOp::Add, value, offset),
                TemperatureScale::F => {
                    let shifted = arithmetic.apply(BinaryOp::Sub, value, arithmetic.literal("32.0"));
                    let scaled = arithmetic.apply(BinaryOp::Mul, shifted, arithmetic.literal("5.0"));
                    let celsius = arithmetic.apply(BinaryOp::Div, scaled, arithmetic.literal("9.0"));
                    arithmetic.apply(BinaryOp::Add, celsius, offset)
                },
                TemperatureScale::K => value,
            };
            let converted = match to_scale {
                TemperatureScale::C => arithmetic.apply(BinaryOp::Sub, kelvin, offset),
                TemperatureScale::F => {
                    let celsius = arithmetic.apply(BinaryOp::Sub, kelvin, offset);
                    let scaled = arithmetic.apply(BinaryOp::Mul, celsius, arithmetic.literal("9.0"));
                    let divided = arithmetic.apply(BinaryOp::Div, scaled, arithmetic.literal("5.0"));
                    arithmetic.apply(BinaryOp::Add, divided, arithmetic.literal("32.0"))
                },
                TemperatureScale::K => kelvin,
            };
            Ok(converted)
        },
        _ => Err(text("incompatible conversion")),
    }
}


/// Evaluates the variable `name`, referred to at `span` from position
/// `current` of the scope; an error of the statement it refers to is
/// reported at `span`.
pub fn resolve_variable<'a, A: Arithmetic>(
    ev: &mut Evaluator<'a, A>,
    name: &str,
    span: Span,
    current: usize,
) -> (r: Result<Value<A::Num>, LangError>)
    requires
        old(ev).wf(),
        stack_reaches(old(ev).parsed@, old(ev).state@, current as int),
        binding(old(ev).parsed@, name@, current as int) matches Some(c) ==> reads(old(ev).parsed@, current as int, c),
    ensures
        final(ev).wf(),
        old(ev).evolves_to(final(ev)),
        binding(old(ev).parsed@, name@, current as int) is None ==> (r matches Err(err) && err@
            == lang_error(span, unknown_variable_message(name@))),
        binding(old(ev).parsed@, name@, current as int) matches Some(k) ==> resolved(
            old(ev).state@[k],
            r,
            span,
        ),
        r matches Err(err) ==> err.span == span,
        in_doc_order(
            old(ev).parsed@,
            old(ev).state@,
            current as int,
            doc_var(name@, span, old(ev).parsed@, current as int),
        ) ==> doc_consistent(old(ev).parsed@, final(ev).state@) && outcome_holds(
            r,
            doc_var(name@, span, old(ev).parsed@, current as int),
        ),
        binding(old(ev).parsed@, name@, current as int) matches Some(k) ==> 0 <= k < final(ev).state.len()
            && !(final(ev).state@[k] is Unvisited) && result_view(r) == var_value(final(ev).state@, k, span),
    decreases unvisited(old(ev).state@), 0nat, 3nat,
{
    let parsed: &'a Vec<Option<Stmt>> = ev.parsed;
    let candidate = match find_binding(parsed, name, current) {
        None => {
            return Err(LangError { span, message: concat3("unknown variable `", name, "`") });
        },
        Some(k) => k,
    };
    proof {
        lemma_last_binding(parsed@, name@, current as int);
        lemma_first_binding(parsed@, name@, 0);
    }
    let ghost states = ev.state@;
    let ghost sure = doc_var(name@, span, parsed@, current as int);
    proof {
        if in_doc_order(parsed@, states, current as int, sure) && !(states[candidate as int] is Visiting) {
            let k = candidate as int;
            if crate::outcome::visiting_known(parsed@, states) {
                assert(sure is Some);
                assert(k <= current);
                if k == current {
                    assert(states[k] is Visiting);
                }
                assert(doc_outcome(parsed@, k) is Some);
            }
            assert forall|a: int|
                0 <= a < states.len() && (#[trigger] states[a]) is Visiting && doc_outcome(
                    parsed@,
                    a,
                ) is Some implies k + 1 <= a by {
                assert(crate::outcome::visiting_known(parsed@, states));
                assert(current <= a);
            }
            assert(crate::outcome::statement_in_doc_order(parsed@, states, k));
        }
    }
    proof {
        lemma_stack_step(parsed@, ev.state@, current as int, candidate as int);
    }
    let r = eval_statement_at(ev, candidate);
    proof {
        if let EvalState::Done(res) = ev.state@[candidate as int] {
            lemma_same_outcome_view(r, res);
        }
    }
    match r {
        Ok(v) => Ok(v),
        Err(error) => Err(LangError { span, message: error.message }),
    }
}

/// Evaluates `expr` from position `current` of the scope.
#[verifier::loop_isolation(false)]
pub fn eval_expr<'a, A: Arithmetic>(ev: &mut Evaluator<'a, A>, expr: &Expr, current: usize) -> (r: Result<Value<A::Num>, LangError>)
    requires
        old(ev).wf(),
        stack_reaches(old(ev).parsed@, old(ev).state@, current as int),
        reads_within(expr, old(ev).parsed@, current as int),
    ensures
        final(ev).wf(),
        old(ev).evolves_to(final(ev)),
        expr_outcome(expr, r, old(ev).parsed@, old(ev).state@, current as int),
        outcome_holds(r, sure_outcome(expr, old(ev).parsed@, old(ev).state@, current as int)),
        in_doc_order(
            old(ev).parsed@,
            old(ev).state@,
            current as int,
            doc_expr(expr, old(ev).parsed@, current as int),
        ) ==> doc_consistent(old(ev).parsed@, final(ev).state@) && outcome_holds(
            r,
            doc_expr(expr, old(ev).parsed@, current as int),
        ),
        settled::<A>(expr, old(ev).parsed@, final(ev).state@, current as int),
        result_view(r) == value_of::<A>(expr, old(ev).parsed@, final(ev).state@, current as int),
    decreases unvisited(old(ev).state@), expr_size(expr), 0nat,
{
    let ghost parsed = ev.parsed@;
    let ghost states0 = ev.state@;
    proof {
        crate::value::lemma_within_parts(expr, parsed, current as int);
    }
    match expr {
        Expr::Number(literal, _) => Ok(Value::Number(ev.arithmetic.literal(literal.as_str()))),
        Expr::Var(name, span) => resolve_variable(ev, name.as_str(), *span, current),
        Expr::Unary { op, expr: inner, span } => {
            let value = match eval_expr(ev, inner, current) {
                Err(e) => {
                    return Err(e);
                },
                Ok(v) => v,
            };
            let number = match expect_number(value, *span) {
                Err(e) => {
                    return Err(e);
                },
                Ok(n) => n,
            };
            match op {
                UnaryOp::Neg => Ok(Value::Number(ev.arithmetic.negate(number))),
            }
        },
        Expr::Binary { op, left, right, .. } => {
            let left_span = left.span();
            let right_span = right.span();
            let ghost before = *ev;
            let left_value = match eval_expr(ev, left, current) {
                Err(e) => {
                    return Err(e);
                },
                Ok(v) => v,
            };
            let left_number = match expect_number(left_value, left_span) {
                Err(e) => {
                    return Err(e);
                },
                Ok(n) => n,
            };
            let ghost middle = *ev;
            proof {
                lemma_outcome_kept(right, parsed, states0, ev.state@, current as int);
                lemma_stack_evolves(&before, &middle, current as int);
            }
            let right_result = eval_expr(ev, right, current);
            proof {
                lemma_evolves_trans(&before, &middle, ev);
                lemma_settled_kept::<A>(left, parsed, middle.state@, ev.state@, current as int);
            }
            let right_value = match right_result {
                Err(e) => {
                    return Err(e);
                },
                Ok(v) => v,
            };
            let right_number = match expect_number(right_value, right_span) {
                Err(e) => {
                    return Err(e);
                },
                Ok(n) => n,
            };
            if *op == BinaryOp::Div && ev.arithmetic.is_zero(right_number) {
                return Err(LangError { span: right_span, message: text("divide by zero") });
            }
            Ok(Value::Number(ev.arithmetic.apply(*op, left_number, right_number)))
        },
        Expr::List(items, _) => {
            match eval_numbers(ev, items, current) {
                Err(e) => Err(e),
                Ok(values) => Ok(Value::List(values)),
            }
        },
        Expr::Call { name, args, span } => eval_call(ev, name.as_str(), args, *span, current),
        Expr::Quantity { expr: inner, unit, span } => {
            let value = match eval_expr(ev, inner, current) {
                Err(e) => {
                    return Err(e);
                },
                Ok(v) => v,
            };
            let amount = match expect_number(value, inner.span()) {
                Err(e) => {
                    return Err(e);
                },
                Ok(n) => n,
            };
            if unit_definition(unit.as_str()).is_none() {
                return Err(LangError { span: *span, message: concat3("unknown unit `", unit.as_str(), "`") });
            }
            Ok(Value::Quantity { value: amount, unit: unit.clone() })
        },
    }
}

/// Evaluates the arguments of an aggregate: one list, or several numbers.
fn eval_numeric_args<'a, A: Arithmetic>(
    ev: &mut Evaluator<'a, A>,
    args: &Vec<Expr>,
    current: usize,
) -> (r: Result<Vec<A::Num>, LangError>)
    requires
        old(ev).wf(),
        stack_reaches(old(ev).parsed@, old(ev).state@, current as int),
        items_within(args@, old(ev).parsed@, current as int),
        args.len() >= 1,
    ensures
        final(ev).wf(),
        old(ev).evolves_to(final(ev)),
        args.len() > 1 ==> (r matches Ok(values) ==> values.len() == args.len()),
        match count_outcome(args@, old(ev).parsed@, old(ev).state@, current as int) {
            Some(Ok(m)) => r matches Ok(values) && values.len() == m,
            Some(Err(err)) => r matches Err(e) && e@ == err,
            None => true,
        },
        in_doc_order(
            old(ev).parsed@,
            old(ev).state@,
            current as int,
            doc_count(args@, old(ev).parsed@, current as int),
        ) ==> doc_consistent(old(ev).parsed@, final(ev).state@) && match doc_count(
            args@,
            old(ev).parsed@,
            current as int,
        ) {
            Some(Ok(m)) => r matches Ok(values) && values.len() == m,
            Some(Err(err)) => r matches Err(e) && e@ == err,
            None => true,
        },
        settled_args::<A>(args@, old(ev).parsed@, final(ev).state@, current as int),
        match aggregate_args::<A>(args@, old(ev).parsed@, final(ev).state@, current as int) {
            Ok(ns) => r matches Ok(values) && values@ == ns,
            Err(err) => r matches Err(e) && e@ == err,
        },
    decreases unvisited(old(ev).state@), 1 + exprs_size(args@), 0nat,
{
    let ghost parsed = ev.parsed@;
    let ghost before = ev.state@;
    if args.len() == 1 {
        proof {
            lemma_exprs_size_item(args@, 0);
            lemma_item_within(args@, 0, ev.parsed@, current as int);
        }
        let value = match eval_expr(ev, &args[0], current) {
            Err(e) => {
                return Err(e);
            },
            Ok(v) => v,
        };
        return expect_list(value, args[0].span());
    }
    eval_numbers(ev, args, current)
}

/// Evaluates `args` in order, each as a number.
fn eval_numbers<'a, A: Arithmetic>(
    ev: &mut Evaluator<'a, A>,
    args: &Vec<Expr>,
    current: usize,
) -> (r: Result<Vec<A::Num>, LangError>)
    requires
        old(ev).wf(),
        stack_reaches(old(ev).parsed@, old(ev).state@, current as int),
        items_within(args@, old(ev).parsed@, current as int),
    ensures
        final(ev).wf(),
        old(ev).evolves_to(final(ev)),
        r matches Ok(values) ==> values.len() == args.len(),
        match sure_items(args@, old(ev).parsed@, old(ev).state@, current as int) {
            Some(Ok(_)) => r is Ok,
            Some(Err(err)) => r matches Err(e) && e@ == err,
            None => true,
        },
        in_doc_order(
            old(ev).parsed@,
            old(ev).state@,
            current as int,
            doc_items(args@, old(ev).parsed@, current as int),
        ) ==> doc_consistent(old(ev).parsed@, final(ev).state@) && match doc_items(
            args@,
            old(ev).parsed@,
            current as int,
        ) {
            Some(Ok(_)) => r is Ok,
            Some(Err(err)) => r matches Err(e) && e@ == err,
            None => true,
        },
        settled_items::<A>(args@, old(ev).parsed@, final(ev).state@, current as int),
        match numbers_of::<A>(args@, old(ev).parsed@, final(ev).state@, current as int) {
            Ok(ns) => r matches Ok(values) && values@ == ns,
            Err(err) => r matches Err(e) && e@ == err,
        },
    decreases unvisited(old(ev).state@), exprs_size(args@), 1nat,
{
    let ghost parsed = ev.parsed@;
    let ghost before = ev.state@;
    let mut values: Vec<A::Num> = Vec::new();
    let mut i: usize = 0;
    let ghost start = *ev;
    assert(args@.subrange(0, args.len() as int) =~= args@);
    while i < args.len()
        invariant
            ev.wf(),
            start.evolves_to(ev),
            stack_reaches(parsed, ev.state@, current as int),
            items_within(args@, parsed, current as int),
            i <= args.len(),
            values.len() == i,
            unvisited(ev.state@) <= unvisited(old(ev).state@),
            start == *old(ev),
            parsed == ev.parsed@,
            before == start.state@,
            sure_items(args@, parsed, before, current as int) is Some ==> sure_items(
                args@.subrange(i as int, args.len() as int),
                parsed,
                before,
                current as int,
            ) == sure_items(args@, parsed, before, current as int),
            in_doc_order(parsed, before, current as int, doc_items(args@, parsed, current as int))
                ==> doc_consistent(parsed, ev.state@) && (doc_items(args@, parsed, current as int) is Some
                ==> doc_items(
                args@.subrange(i as int, args.len() as int),
                parsed,
                current as int,
            ) == doc_items(args@, parsed, current as int)),
            settled_items::<A>(args@.take(i as int), parsed, ev.state@, current as int),
            numbers_of::<A>(args@.take(i as int), parsed, ev.state@, current as int) == Ok::<
                Seq<A::Num>,
                LangErrorView,
            >(values@),
        decreases args.len() - i,
    {
        proof {
            lemma_visiting_kept(parsed, before, ev.state@, current as int);
            lemma_exprs_size_item(args@, i as int);
            lemma_outcome_kept(&args@[i as int], parsed, before, ev.state@, current as int);
            let rest = args@.subrange(i as int, args.len() as int);
            assert(rest[0] == args@[i as int]);
            assert(rest.subrange(1, rest.len() as int) =~= args@.subrange(i + 1, args.len() as int));
        }
        let ghost here = *ev;
        proof {
            lemma_item_within(args@, i as int, parsed, current as int);
        }
        let result = eval_expr(ev, &args[i], current);
        proof {
            lemma_evolves_trans(&start, &here, ev);
            lemma_stack_evolves(&here, ev, current as int);
            lemma_settled_items_kept::<A>(args@.take(i as int), parsed, here.state@, ev.state@, current as int);
            let next = args@.take(i + 1);
            assert(next.subrange(0, next.len() - 1) =~= args@.take(i as int));
            assert(next[next.len() - 1] == args@[i as int]);
        }
        let value = match result {
            Err(e) => {
                proof {
                    lemma_numbers_fail::<A>(args@, i + 1, parsed, ev.state@, current as int);
                }
                return Err(e);
            },
            Ok(v) => v,
        };
        let number = match expect_number(value, args[i].span()) {
            Err(e) => {
                proof {
                    lemma_numbers_fail::<A>(args@, i + 1, parsed, ev.state@, current as int);
                }
                return Err(e);
            },
            Ok(n) => n,
        };
        values.push(number);
        i = i + 1;
    }
    assert(args@.subrange(args.len() as int, args.len() as int) =~= Seq::<Expr>::empty());
    assert(args@.take(args.len() as int) =~= args@);
    Ok(values)
}

/// The single argument of a call, as a number.
fn eval_number_arg<'a, A: Arithmetic>(
    ev: &mut Evaluator<'a, A>,
    args: &Vec<Expr>,
    index: usize,
    current: usize,
) -> (r: Result<A::Num, LangError>)
    requires
        old(ev).wf(),
        stack_reaches(old(ev).parsed@, old(ev).state@, current as int),
        items_within(args@, old(ev).parsed@, current as int),
        index < args.len(),
    ensures
        final(ev).wf(),
        old(ev).evolves_to(final(ev)),
        match as_number(
            arg_outcome(args@, index as int, old(ev).parsed@, old(ev).state@, current as int),
            arg_span(args@, index as int, Span { start: 0, end: 0 }),
        ) {
            Some(Ok(_)) => r is Ok,
            Some(Err(err)) => r matches Err(e) && e@ == err,
            None => true,
        },
        in_doc_order(
            old(ev).parsed@,
            old(ev).state@,
            current as int,
            as_number(
                doc_arg(args@, index as int, old(ev).parsed@, current as int),
                arg_span(args@, index as int, Span { start: 0, end: 0 }),
            ),
        ) ==> doc_consistent(old(ev).parsed@, final(ev).state@) && match as_number(
            doc_arg(args@, index as int, old(ev).parsed@, current as int),
            arg_span(args@, index as int, Span { start: 0, end: 0 }),
        ) {
            Some(Ok(_)) => r is Ok,
            Some(Err(err)) => r matches Err(e) && e@ == err,
            None => true,
        },
        settled::<A>(&args@[index as int], old(ev).parsed@, final(ev).state@, current as int),
        match number_of(
            value_of::<A>(&args@[index as int], old(ev).parsed@, final(ev).state@, current as int),
            crate::syntax::expr_span(args@[index as int]@),
        ) {
            Ok(n) => r == Ok::<A::Num, LangError>(n),
            Err(err) => r matches Err(e) && e@ == err,
        },
    decreases unvisited(old(ev).state@), 1 + exprs_size(args@), 0nat,
{
    proof {
        lemma_exprs_size_item(args@, index as int);
        lemma_item_within(args@, index as int, ev.parsed@, current as int);
    }
    let value = match eval_expr(ev, &args[index], current) {
        Err(e) => {
            return Err(e);
        },
        Ok(v) => v,
    };
    expect_number(value, args[index].span())
}

fn non_empty_error(name: &str, span: Span) -> (e: LangError)
    ensures
        e@ == lang_error(span, non_empty_message(name@)),
{
    LangError { span, message: concat3("`", name, "` requires a non-empty list") }
}

/// Evaluates the call `name(args)` at `span`.
fn eval_call<'a, A: Arithmetic>(
    ev: &mut Evaluator<'a, A>,
    name: &str,
    args: &Vec<Expr>,
    span: Span,
    current: usize,
) -> (r: Result<Value<A::Num>, LangError>)
    requires
        old(ev).wf(),
        stack_reaches(old(ev).parsed@, old(ev).state@, current as int),
        items_within(args@, old(ev).parsed@, current as int),
    ensures
        final(ev).wf(),
        old(ev).evolves_to(final(ev)),
        match call_plan(name@, args.len() as nat) {
            Err(m) => r matches Err(err) && err@ == lang_error(span, m),
            Ok(plan) => (r matches Ok(v) ==> v is Number) && outcome_holds(
                r,
                plan_outcome(
                    plan,
                    name@,
                    span,
                    arg_outcome(args@, 0, old(ev).parsed@, old(ev).state@, current as int),
                    arg_span(args@, 0, span),
                    arg_outcome(args@, 1, old(ev).parsed@, old(ev).state@, current as int),
                    arg_span(args@, 1, span),
                    sure_items(args@, old(ev).parsed@, old(ev).state@, current as int),
                    args.len() as nat,
                ),
            ),
        },
        in_doc_order(
            old(ev).parsed@,
            old(ev).state@,
            current as int,
            doc_call(name@, args@, span, old(ev).parsed@, current as int),
        ) ==> doc_consistent(old(ev).parsed@, final(ev).state@) && outcome_holds(
            r,
            doc_call(name@, args@, span, old(ev).parsed@, current as int),
        ),
        settled_call::<A>(name@, args@, old(ev).parsed@, final(ev).state@, current as int),
        result_view(r) == call_value::<A>(name@, args@, span, old(ev).parsed@, final(ev).state@, current as int),
    decreases unvisited(old(ev).state@), 1 + exprs_size(args@), 1nat,
{
    let ghost parsed = ev.parsed@;
    let ghost states0 = ev.state@;
    let plan = match plan_call(name, args.len()) {
        Err(message) => {
            return Err(LangError { span, message });
        },
        Ok(plan) => plan,
    };
    let arithmetic: &'a A = ev.arithmetic;
    match plan {
        CallPlan::Len => {
            proof {
                lemma_exprs_size_item(args@, 0);
                lemma_item_within(args@, 0, ev.parsed@, current as int);
            }
            let value = match eval_expr(ev, &args[0], current) {
                Err(e) => {
                    return Err(e);
                },
                Ok(v) => v,
            };
            let list = match expect_list(value, args[0].span()) {
                Err(e) => {
                    return Err(e);
                },
                Ok(l) => l,
            };
            Ok(Value::Number(arithmetic.from_count(list.len())))
        },
        CallPlan::Unary(f) => {
            let number = match eval_number_arg(ev, args, 0, current) {
                Err(e) => {
                    return Err(e);
                },
                Ok(n) => n,
            };
            Ok(Value::Number(arithmetic.apply_fn(f, number)))
        },
        CallPlan::Round => {
            let ghost before = *ev;
            let number = match eval_number_arg(ev, args, 0, current) {
                Err(e) => {
                    return Err(e);
                },
                Ok(n) => n,
            };
            let digits = if args.len() == 2 {
                let ghost middle = *ev;
                proof {
                    lemma_outcome_kept(&args@[1], parsed, states0, ev.state@, current as int);
                    lemma_stack_evolves(&before, &middle, current as int);
                }
                let second = eval_number_arg(ev, args, 1, current);
                proof {
                    lemma_evolves_trans(&before, &middle, ev);
                    lemma_settled_kept::<A>(&args@[0], parsed, middle.state@, ev.state@, current as int);
                }
                match second {
                    Err(e) => {
                        return Err(e);
                    },
                    Ok(n) => n,
                }
            } else {
                arithmetic.literal("0.0")
            };
            let factor = arithmetic.apply(BinaryOp::Pow, arithmetic.literal("10.0"), digits);
            let scaled = arithmetic.apply(BinaryOp::Mul, number, factor);
            let rounded = arithmetic.apply_fn(NumberFn::Round, scaled);
            Ok(Value::Number(arithmetic.apply(BinaryOp::Div, rounded, factor)))
        },
        _ => {
            let values = match eval_numeric_args(ev, args, current) {
                Err(e) => {
                    return Err(e);
                },
                Ok(v) => v,
            };
            match aggregate_numbers(arithmetic, plan, name, span, &values) {
                Ok(x) => Ok(Value::Number(x)),
                Err(e) => Err(e),
            }
        },
    }
}

/// What the aggregate `plan`, called `name` at `span`, gives for `values`.
pub fn aggregate_numbers<A: Arithmetic>(
    arithmetic: &A,
    plan: CallPlan,
    name: &str,
    span: Span,
    values: &Vec<A::Num>,
) -> (r: Result<A::Num, LangError>)
    ensures
        match aggregate_value::<A>(plan, name@, span, values@) {
            Ok(x) => r == Ok::<A::Num, LangError>(x),
            Err(err) => r matches Err(e) && e@ == err,
        },
{
    match plan {
        CallPlan::Sum => Ok(arithmetic.sum(values)),
        CallPlan::Count => Ok(arithmetic.from_count(values.len())),
        CallPlan::Product => Ok(arithmetic.product(values)),
        _ => {
            if values.len() == 0 {
                return Err(non_empty_error(name, span));
            }
            match plan {
                CallPlan::Avg => {
                    let total = arithmetic.sum(values);
                    Ok(arithmetic.apply(BinaryOp::Div, total, arithmetic.from_count(values.len())))
                },
                CallPlan::Median => Ok(median(arithmetic, values)),
                _ => {
                    let is_min = plan == CallPlan::Min;
                    let mut acc = values[0];
                    let mut i: usize = 1;
                    while i < values.len()
                        invariant
                            1 <= i <= values.len(),
                            acc == extreme::<A>(values@, i as int, is_min),
                        decreases values.len() - i,
                    {
                        acc = if is_min {
                            arithmetic.smaller(acc, values[i])
                        } else {
                            arithmetic.larger(acc, values[i])
                        };
                        i = i + 1;
                    }
                    Ok(acc)
                },
            }
        },
    }
}

/// The index of the number that a selection takes from `rest`: scanning
/// from index `j` on, the latest one that precedes the one kept so far
/// (`best`).
pub open spec fn pick<A: Arithmetic>(rest: Seq<A::Num>, j: int, best: int) -> int
    decreases rest.len() - j,
{
    if j >= rest.len() {
        best
    } else if A::spec_precedes(rest[j], rest[best]) {
        pick::<A>(rest, j + 1, j)
    } else {
        pick::<A>(rest, j + 1, best)
    }
}

pub proof fn lemma_pick<A: Arithmetic>(rest: Seq<A::Num>, j: int, best: int)
    requires
        0 <= best < j,
    ensures
        0 <= pick::<A>(rest, j, best) < if j > rest.len() { j } else { rest.len() as int },
        best < rest.len() ==> pick::<A>(rest, j, best) < rest.len(),
    decreases rest.len() - j,
{
    if j < rest.len() {
        if A::spec_precedes(rest[j], rest[best]) {
            lemma_pick::<A>(rest, j + 1, j);
        } else {
            lemma_pick::<A>(rest, j + 1, best);
        }
    }
}

/// `values` sorted by selection: the number picked first, then the others
/// sorted the same way.
pub open spec fn selection_sorted<A: Arithmetic>(values: Seq<A::Num>) -> Seq<A::Num>
    decreases values.len(),
{
    let b = pick::<A>(values, 1, 0);
    if values.len() == 0 || !(0 <= b < values.len()) {
        Seq::empty()
    } else {
        seq![values[b]] + selection_sorted::<A>(values.remove(b))
    }
}

/// `precedes` is a strict order: no number precedes itself, and it is
/// transitive.
pub open spec fn strict_order<A: Arithmetic>() -> bool {
    &&& forall|a: A::Num| !#[trigger] A::spec_precedes(a, a)
    &&& forall|a: A::Num, b: A::Num, c: A::Num|
        #![trigger A::spec_precedes(a, b), A::spec_precedes(b, c)]
        A::spec_precedes(a, b) && A::spec_precedes(b, c) ==> A::spec_precedes(a, c)
}

proof fn lemma_pick_minimal<A: Arithmetic>(rest: Seq<A::Num>, j: int, best: int)
    requires
        strict_order::<A>(),
        0 <= best < j <= rest.len(),
        forall|i: int| 0 <= i < j ==> !A::spec_precedes(#[trigger] rest[i], rest[best]),
    ensures
        forall|i: int|
            0 <= i < rest.len() ==> !A::spec_precedes(#[trigger] rest[i], rest[pick::<A>(rest, j, best)]),
    decreases rest.len() - j,
{
    if j < rest.len() {
        if A::spec_precedes(rest[j], rest[best]) {
            assert forall|i: int| 0 <= i < j + 1 implies !A::spec_precedes(#[trigger] rest[i], rest[j]) by {
                if i < j && A::spec_precedes(rest[i], rest[j]) {
                    assert(A::spec_precedes(rest[i], rest[best]));
                }
            }
            lemma_pick_minimal::<A>(rest, j + 1, j);
        } else {
            lemma_pick_minimal::<A>(rest, j + 1, best);
        }
    }
}

proof fn lemma_selection_elements<A: Arithmetic>(values: Seq<A::Num>)
    ensures
        selection_sorted::<A>(values).len() == values.len(),
        forall|k: int|
            0 <= k < values.len() ==> values.contains(#[trigger] selection_sorted::<A>(values)[k]),
    decreases values.len(),
{
    if values.len() > 0 {
        lemma_pick::<A>(values, 1, 0);
        let b = pick::<A>(values, 1, 0);
        let rest = values.remove(b);
        lemma_selection_elements::<A>(rest);
        let s = selection_sorted::<A>(values);
        assert forall|k: int| 0 <= k < values.len() implies values.contains(#[trigger] s[k]) by {
            if k == 0 {
                assert(values[b] == s[0]);
            } else {
                assert(s[k] == selection_sorted::<A>(rest)[k - 1]);
                assert(rest.contains(s[k]));
                let m = choose|m: int| 0 <= m < rest.len() && rest[m] == s[k];
                if m < b {
                    assert(values[m] == s[k]);
                } else {
                    assert(values[m + 1] == s[k]);
                }
            }
        }
    }
}

/// When `precedes` is a strict order, the numbers that selection sorting
/// gives are in order: none precedes a number that comes before it.
pub proof fn law_selection_sorted_in_order<A: Arithmetic>(values: Seq<A::Num>)
    requires
        strict_order::<A>(),
    ensures
        forall|i: int, j: int|
            0 <= i < j < selection_sorted::<A>(values).len() ==> !A::spec_precedes(
                #[trigger] selection_sorted::<A>(values)[j],
                #[trigger] selection_sorted::<A>(values)[i],
            ),
    decreases values.len(),
{
    if values.len() > 0 {
        lemma_pick::<A>(values, 1, 0);
        let b = pick::<A>(values, 1, 0);
        let rest = values.remove(b);
        lemma_pick_minimal::<A>(values, 1, 0);
        law_selection_sorted_in_order::<A>(rest);
        lemma_selection_elements::<A>(rest);
        let s = selection_sorted::<A>(values);
        let t = selection_sorted::<A>(rest);
        assert forall|i: int, j: int| 0 <= i < j < s.len() implies !A::spec_precedes(
            #[trigger] s[j],
            #[trigger] s[i],
        ) by {
            if i == 0 {
                assert(s[j] == t[j - 1]);
                assert(rest.contains(t[j - 1]));
                let m = choose|m: int| 0 <= m < rest.len() && rest[m] == t[j - 1];
                if m < b {
                    assert(values[m] == s[j]);
                } else {
                    assert(values[m + 1] == s[j]);
                }
            } else {
                assert(s[j] == t[j - 1] && s[i] == t[i - 1]);
            }
        }
    }
}

/// The numbers of `values` in increasing order: repeatedly the one picked
/// from those that remain.
pub fn sort_numbers<A: Arithmetic>(arithmetic: &A, values: &Vec<A::Num>) -> (sorted: Vec<A::Num>)
    ensures
        sorted@ == selection_sorted::<A>(values@),
        sorted@.to_multiset() == values@.to_multiset(),
        sorted.len() == values.len(),
{
    let mut rest: Vec<A::Num> = Vec::new();
    let mut i: usize = 0;
    while i < values.len()
        invariant
            i <= values.len(),
            rest@ == values@.take(i as int),
        decreases values.len() - i,
    {
        rest.push(values[i]);
        i = i + 1;
        assert(rest@ =~= values@.take(i as int));
    }
    assert(values@.take(values.len() as int) =~= values@);
    let mut sorted: Vec<A::Num> = Vec::new();
    proof {
        sorted@.to_multiset_ensures();
        vstd::multiset::lemma_multiset_empty_len(sorted@.to_multiset());
    }
    assert(sorted@ + selection_sorted::<A>(rest@) =~= selection_sorted::<A>(values@));
    while rest.len() > 0
        invariant
            sorted@.to_multiset().add(rest@.to_multiset()) == values@.to_multiset(),
            sorted.len() + rest.len() == values.len(),
            sorted@ + selection_sorted::<A>(rest@) == selection_sorted::<A>(values@),
        decreases rest.len(),
    {
        let mut best: usize = 0;
        let mut j: usize = 1;
        while j < rest.len()
            invariant
                best < j <= rest.len(),
                pick::<A>(rest@, 1, 0) == pick::<A>(rest@, j as int, best as int),
            decreases rest.len() - j,
        {
            if arithmetic.precedes(rest[j], rest[best]) {
                best = j;
            }
            j = j + 1;
        }
        let ghost before = rest@;
        let ghost old_sorted = sorted@;
        proof {
            lemma_pick::<A>(before, 1, 0);
        }
        let next = rest.remove(best);
        sorted.push(next);
        proof {
            before.to_multiset_ensures();
            old_sorted.to_multiset_ensures();
            assert(before.to_multiset().count(next) > 0) by {
                assert(before.contains(next)) by {
                    assert(before[best as int] == next);
                }
            }
            assert(selection_sorted::<A>(before) == seq![next] + selection_sorted::<A>(rest@));
            assert(sorted@ + selection_sorted::<A>(rest@) =~= old_sorted + selection_sorted::<A>(before));
        }
    }
    proof {
        rest@.to_multiset_ensures();
        vstd::multiset::lemma_multiset_empty_len(rest@.to_multiset());
    }
    assert(rest@.to_multiset() =~= vstd::multiset::Multiset::<A::Num>::empty());
    assert(sorted@ + selection_sorted::<A>(rest@) =~= sorted@);
    sorted
}

/// The median of `values`: the middle number once sorted, or the mean of
/// the two middle ones when there is an even number of them.
pub open spec fn median_of<A: Arithmetic>(values: Seq<A::Num>) -> A::Num {
    let s = selection_sorted::<A>(values);
    let mid = (values.len() / 2) as int;
    if values.len() % 2 == 0 {
        A::spec_apply(
            BinaryOp::Div,
            A::spec_apply(BinaryOp::Add, s[mid - 1], s[mid]),
            A::spec_literal("2.0"@),
        )
    } else {
        s[mid]
    }
}

/// The median of a non-empty list: its middle number once sorted, or the
/// mean of its two middle numbers when its length is even.
pub fn median<A: Arithmetic>(arithmetic: &A, values: &Vec<A::Num>) -> (m: A::Num)
    requires
        values.len() > 0,
    ensures
        m == median_of::<A>(values@),
        values.len() % 2 == 1 ==> values@.contains(m),
{
    let sorted = sort_numbers(arithmetic, values);
    let mid = sorted.len() / 2;
    if sorted.len() % 2 == 0 {
        let total = arithmetic.apply(BinaryOp::Add, sorted[mid - 1], sorted[mid]);
        arithmetic.apply(BinaryOp::Div, total, arithmetic.literal("2.0"))
    } else {
        proof {
            sorted@.to_multiset_ensures();
            values@.to_multiset_ensures();
            assert(sorted@.contains(sorted@[mid as int]));
            assert(sorted@.to_multiset().count(sorted@[mid as int]) > 0);
        }
        sorted[mid]
    }
}

/// Evaluates `statement` on its own: every variable in it is unknown.
pub fn eval_statement<A: Arithmetic>(statement: &Stmt, arithmetic: &A) -> (r: Result<Value<A::Num>, LangError>)
    ensures
        statement matches Stmt::Expr(e) ==> expr_outcome(e, r, Seq::empty(), Seq::empty(), 0),
        statement matches Stmt::Assign { expr, .. } ==> expr_outcome(expr, r, Seq::empty(), Seq::empty(), 0),
        statement matches Stmt::Convert { to_unit, .. } ==> (r matches Ok(v) ==> (v matches Value::Quantity { unit, .. } && unit@ == to_unit@ && crate::units::unit_of(to_unit@) is Some)),
        outcome_holds(r, stmt_outcome(statement, Seq::empty(), Seq::<EvalState<A::Num>>::empty(), 0)),
        result_view(r) == stmt_value::<A>(statement, Seq::empty(), Seq::<EvalState<A::Num>>::empty(), 0),
{
    let empty: Vec<Option<Stmt>> = Vec::new();
    let mut ev = Evaluator::new(&empty, arithmetic);
    assert(ev.parsed@ =~= Seq::<Option<Stmt>>::empty());
    assert(ev.state@ =~= Seq::<EvalState<A::Num>>::empty());
    proof {
        assert forall|i: int| #[trigger] stmt_reads(statement, ev.parsed@, 0, i) implies reads(ev.parsed@, 0, i) by {
            match statement {
                Stmt::Assign { expr, .. } => lemma_no_reads(expr, i),
                Stmt::Expr(expr) => lemma_no_reads(expr, i),
                Stmt::Convert { expr, .. } => lemma_no_reads(expr, i),
            }
        }
    }
    let r = eval_stmt(&mut ev, statement, 0);
    assert(ev.state@ =~= Seq::<EvalState<A::Num>>::empty());
    r
}

} // verus!
