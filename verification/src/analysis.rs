//! Analysis of a whole document: its statements, what each evaluates to,
//! and the errors to report.
//!
//! All statements of the document share one scope. A variable refers to
//! its last assignment up to the statement that uses it, or else to its
//! first assignment further down; each statement is evaluated at most once.
use crate::chars::{chars_of, string_from_range};
use crate::eval::{eval_statement_at, lemma_evolves_trans, Arithmetic, EvalState, Evaluator, Shape};
use crate::format::{format_value, value_text};
use crate::value::{law_acyclic_value, reaches_back, result_view, stmt_value, values_justified};
use crate::outcome::{closed_sure, doc_consistent, doc_outcome, lemma_view_stmt_sure, view_stmt_sure};
use crate::lexer::{concat3, LangError, LangErrorView};
use crate::markdown::{
    extract_statements, extracted, skip_ws, trim_end_at, views, ExtractedStatement, StatementView,
};
use crate::parser::{parse_statement, statement_of};
use crate::syntax::{Stmt, StmtView};
use crate::text::Span;
use vstd::prelude::*;

verus! {

broadcast use vstd::seq::group_seq_axioms;

/// An error to report, as a span of the document.
pub struct DiagnosticData {
    pub span: Span,
    pub message: String,
}

pub struct DiagnosticView {
    pub span: Span,
    pub message: Seq<char>,
}

impl View for DiagnosticData {
    type V = DiagnosticView;

    open spec fn view(&self) -> DiagnosticView {
        DiagnosticView { span: self.span, message: self.message@ }
    }
}

/// A statement of the document with what it evaluated to, if it did.
pub struct StatementAnalysis {
    pub source: ExtractedStatement,
    pub hint_label: Option<String>,
    pub replacement_text: Option<String>,
    pub hover_text: Option<String>,
}

/// The statements of a document, and the errors found in them.
pub struct Analysis {
    pub diagnostics: Vec<DiagnosticData>,
    pub statements: Vec<StatementAnalysis>,
    /// The statements as parsed, `None` where one does not parse.
    pub parsed: Ghost<Seq<Option<Stmt>>>,
}

pub open spec fn text_of(o: Option<String>) -> Option<Seq<char>> {
    match o {
        Some(s) => Some(s@),
        None => None,
    }
}

pub open spec fn saturating_add(a: usize, b: usize) -> usize {
    if a + b > usize::MAX {
        usize::MAX
    } else {
        (a + b) as usize
    }
}

/// An error of a statement, placed in the document: its offsets counted
/// from the start of the statement's source (saturating at `usize::MAX`,
/// which no document in memory reaches).
pub open spec fn document_diagnostic(source: StatementView, e: LangErrorView) -> DiagnosticView {
    DiagnosticView {
        span: Span {
            start: saturating_add(source.source_span.start, e.span.start),
            end: saturating_add(source.source_span.start, e.span.end),
        },
        message: e.message,
    }
}

/// The errors of the statements that do not parse, in document order.
pub open spec fn parse_diagnostics(sources: Seq<StatementView>) -> Seq<DiagnosticView>
    decreases sources.len(),
{
    if sources.len() == 0 {
        Seq::empty()
    } else {
        let rest = parse_diagnostics(sources.drop_last());
        match statement_of(sources.last().text) {
            Err(e) => rest.push(document_diagnostic(sources.last(), e)),
            Ok(_) => rest,
        }
    }
}

/// The inlay hint of a statement that evaluated to `value`.
pub open spec fn hint_text(statement: StmtView, value: Seq<char>) -> Seq<char> {
    match statement {
        StmtView::Assign { name, .. } => name + " = "@ + value,
        _ => "= "@ + value,
    }
}

/// `s` without white space at either end.
pub open spec fn trimmed(s: Seq<char>) -> Seq<char> {
    let a = skip_ws(s, 0, s.len() as int);
    s.subrange(a, trim_end_at(s, a, s.len() as int))
}

/// The hover text of a statement `source` that evaluated to `value`.
pub open spec fn hover(source: Seq<char>, statement: StmtView, value: Seq<char>) -> Seq<char> {
    let summary = match statement {
        StmtView::Assign { name, .. } => name + " = "@ + value,
        _ => value,
    };
    "Expression: `"@ + trimmed(source) + "`\n\nResult: `"@ + summary + "`"@
}

/// What a statement analysis shows is consistent: all three texts or none,
/// and when there are, the hint and the hover describe the replacement.
pub open spec fn consistent(st: StatementAnalysis) -> bool {
    &&& (st.hint_label is Some <==> st.replacement_text is Some)
    &&& (st.hint_label is Some <==> st.hover_text is Some)
    &&& st.hint_label is Some ==> (statement_of(st.source@.text) matches Ok(statement) && st.hint_label->0@
        == hint_text(statement, st.replacement_text->0@) && st.hover_text->0@ == hover(
        st.source@.text,
        statement,
        st.replacement_text->0@,
    ))
}

/// The indices, in order, of the first `k` statements that parse but have
/// no value: those whose evaluation failed.
pub open spec fn failed(statements: Seq<StatementAnalysis>, k: int) -> Seq<int>
    decreases k,
{
    if k <= 0 {
        Seq::empty()
    } else if statement_of(statements[k - 1].source@.text) is Ok && statements[k - 1].hint_label is None {
        failed(statements, k - 1).push(k - 1)
    } else {
        failed(statements, k - 1)
    }
}

/// `d` reports an error of the statement `source`, placed in the document.
pub open spec fn reports(d: DiagnosticView, source: StatementView) -> bool {
    exists|e: LangErrorView| d == document_diagnostic(source, e)
}

/// `d` reports an error of the statement `source`, which is the error that
/// the statement is sure to give, when it is sure.
pub open spec fn reports_sure(
    d: DiagnosticView,
    source: StatementView,
    sure: Option<Result<Shape, LangErrorView>>,
) -> bool {
    &&& reports(d, source)
    &&& sure matches Some(Err(e)) ==> d == document_diagnostic(source, e)
}

pub open spec fn diagnostic_views(ds: Seq<DiagnosticData>) -> Seq<DiagnosticView> {
    ds.map_values(|d: DiagnosticData| d@)
}

pub open spec fn statement_views(ss: Seq<StatementAnalysis>) -> Seq<StatementView> {
    ss.map_values(|s: StatementAnalysis| s.source@)
}

/// The statements show the results that `states` holds for them: each one
/// that parses was evaluated, the replacement text of one that succeeded is
/// the text of its value, and one that failed shows nothing.
pub open spec fn shows<A: Arithmetic>(
    parsed: Seq<Option<Stmt>>,
    states: Seq<EvalState<A::Num>>,
    statements: Seq<StatementAnalysis>,
) -> bool {
    &&& states.len() == statements.len()
    &&& forall|k: int|
        0 <= k < statements.len() ==> match #[trigger] states[k] {
            EvalState::Done(Ok(v)) => parsed[k] is Some && text_of(statements[k].replacement_text)
                == Some(value_text::<A>(v)),
            EvalState::Done(Err(_)) => parsed[k] is Some && statements[k].replacement_text is None,
            EvalState::Unvisited => parsed[k] is None,
            EvalState::Visiting => false,
        }
}

/// Every statement that parses and whose reads do not lead back to it holds
/// its value over the final results `states`: each variable takes the value
/// of the statement it refers to.
pub open spec fn final_values<A: Arithmetic>(parsed: Seq<Option<Stmt>>, states: Seq<EvalState<A::Num>>) -> bool {
    forall|k: int|
        0 <= k < states.len() && parsed[k] is Some && !reaches_back(parsed, k) ==> ((#[trigger] states[k]) matches EvalState::Done(
            res,
        ) && result_view(res) == stmt_value::<A>(&parsed[k]->0, parsed, states, k))
}

proof fn lemma_final_values<A: Arithmetic>(
    parsed: Seq<Option<Stmt>>,
    states: Seq<EvalState<A::Num>>,
    done_at: Seq<int>,
    statements: Seq<StatementAnalysis>,
)
    requires
        values_justified::<A>(parsed, states, done_at),
        states.len() == parsed.len(),
        shows::<A>(parsed, states, statements),
    ensures
        final_values::<A>(parsed, states),
{
    assert forall|k: int|
        0 <= k < states.len() && parsed[k] is Some && !reaches_back(parsed, k) implies ((#[trigger] states[k]) matches EvalState::Done(
            res,
        ) && result_view(res) == stmt_value::<A>(&parsed[k]->0, parsed, states, k)) by {
        assert(states[k] is Done);
        law_acyclic_value::<A>(parsed, states, done_at, k);
    }
}

/// The error that `states` holds for statement `k` is the one `d` reports.
pub open spec fn reports_state<A: Arithmetic>(
    states: Seq<EvalState<A::Num>>,
    sources: Seq<StatementView>,
    k: int,
    d: DiagnosticData,
) -> bool {
    match states[k] {
        EvalState::Done(Err(e)) => d@ == document_diagnostic(sources[k], e@),
        _ => false,
    }
}

/// Of the first `pos` statements, each one whose evaluation failed has its
/// diagnostic (in order, after the `first` diagnostics) report the error
/// that `states` holds for it.
#[verifier::opaque]
pub open spec fn failures_reported<A: Arithmetic>(
    states: Seq<EvalState<A::Num>>,
    sources: Seq<StatementView>,
    statements: Seq<StatementAnalysis>,
    pos: int,
    diagnostics: Seq<DiagnosticData>,
    first: int,
) -> bool {
    forall|j: int|
        0 <= j < failed(statements, pos).len() ==> reports_state::<A>(
            states,
            sources,
            failed(statements, pos)[j],
            #[trigger] diagnostics[first + j],
        )
}

proof fn lemma_failed_below(statements: Seq<StatementAnalysis>, k: int)
    ensures
        forall|j: int| 0 <= j < failed(statements, k).len() ==> 0 <= #[trigger] failed(statements, k)[j] < k,
    decreases k,
{
    if k > 0 {
        lemma_failed_below(statements, k - 1);
        let prev = failed(statements, k - 1);
        assert forall|j: int| 0 <= j < failed(statements, k).len() implies 0 <= #[trigger] failed(
            statements,
            k,
        )[j] < k by {
            if j < prev.len() {
                assert(failed(statements, k)[j] == prev[j]);
            }
        }
    }
}

/// One more statement keeps the failures reported: the results already
/// done stay, and a statement that failed now has its diagnostic.
proof fn lemma_failures_step<A: Arithmetic>(
    old_states: Seq<EvalState<A::Num>>,
    states: Seq<EvalState<A::Num>>,
    sources: Seq<StatementView>,
    old_statements: Seq<StatementAnalysis>,
    statements: Seq<StatementAnalysis>,
    pos: int,
    old_diags: Seq<DiagnosticData>,
    diags: Seq<DiagnosticData>,
    first: int,
)
    requires
        failures_reported::<A>(old_states, sources, old_statements, pos, old_diags, first),
        0 <= pos < statements.len(),
        statements.len() == old_statements.len(),
        old_states.len() == statements.len(),
        crate::eval::preserved(old_states, states),
        forall|k: int| 0 <= k < pos ==> statements[k] == old_statements[k],
        0 <= first,
        old_diags.len() == first + failed(old_statements, pos).len(),
        diags.len() >= old_diags.len(),
        forall|i: int| 0 <= i < old_diags.len() ==> diags[i] == old_diags[i],
        statement_of(statements[pos].source@.text) is Ok && statements[pos].hint_label is None ==> diags.len()
            == old_diags.len() + 1 && reports_state::<A>(states, sources, pos, diags[old_diags.len() as int]),
    ensures
        failures_reported::<A>(states, sources, statements, pos + 1, diags, first),
{
    reveal(failures_reported);
    lemma_failed_prefix(old_statements, statements, pos);
    lemma_failed_below(old_statements, pos);
    let f = failed(statements, pos);
    assert forall|j: int| 0 <= j < failed(statements, pos + 1).len() implies reports_state::<A>(
        states,
        sources,
        failed(statements, pos + 1)[j],
        #[trigger] diags[first + j],
    ) by {
        if j < f.len() {
            assert(failed(statements, pos + 1)[j] == f[j]);
            let k = f[j];
            assert(reports_state::<A>(old_states, sources, k, old_diags[first + j]));
            assert(!(old_states[k] is Unvisited));
            assert(states[k] == old_states[k]);
            assert(diags[first + j] == old_diags[first + j]);
        } else {
            assert(failed(statements, pos + 1)[j] == pos);
        }
    }
}

/// The first statement from index `i` on whose display span holds `offset`.
pub open spec fn first_at(statements: Seq<StatementAnalysis>, offset: int, i: int) -> Option<int>
    decreases statements.len() - i,
{
    if i < 0 || i >= statements.len() {
        None
    } else if statements[i].source.display_span.spec_contains(offset) {
        Some(i)
    } else {
        first_at(statements, offset, i + 1)
    }
}

/// `first_at` finds the first statement that holds `offset`, or none.
pub proof fn lemma_first_at(statements: Seq<StatementAnalysis>, offset: int, i: int)
    requires
        0 <= i,
    ensures
        match first_at(statements, offset, i) {
            Some(k) => i <= k < statements.len() && statements[k].source.display_span.spec_contains(
                offset,
            ) && forall|j: int|
                i <= j < k ==> !#[trigger] statements[j].source.display_span.spec_contains(offset),
            None => forall|j: int|
                i <= j < statements.len() ==> !#[trigger] statements[j].source.display_span.spec_contains(
                    offset,
                ),
        },
    decreases statements.len() - i,
{
    if i < statements.len() {
        lemma_first_at(statements, offset, i + 1);
    }
}

/// A copy of a statement of the document.
fn copy_statement(st: &ExtractedStatement) -> (copy: ExtractedStatement)
    ensures
        copy@ == st@,
{
    ExtractedStatement {
        text: st.text.clone(),
        source_span: st.source_span,
        display_span: st.display_span,
        insert_span: st.insert_span,
    }
}

/// Places an error of the statement `source` in the document.
fn to_document_diagnostic(source: &ExtractedStatement, error: &LangError) -> (d: DiagnosticData)
    ensures
        d@ == document_diagnostic(source@, error@),
{
    DiagnosticData {
        span: Span::new(
            source.source_span.start.saturating_add(error.span.start),
            source.source_span.start.saturating_add(error.span.end),
        ),
        message: error.message.clone(),
    }
}

/// The inlay hint of `statement`, which evaluated to the text `value`.
pub fn hint_label(statement: &Stmt, value: &str) -> (label: String)
    ensures
        label@ == hint_text(statement@, value@),
{
    match statement {
        Stmt::Assign { name, .. } => concat3(name.as_str(), " = ", value),
        _ => {
            let mut label = crate::lexer::text("= ");
            label.append(value);
            label
        },
    }
}

/// The hover text of the statement `source`, parsed as `statement`, which
/// evaluated to the text `value`.
pub fn hover_text(source: &str, statement: &Stmt, value: &str) -> (text: String)
    ensures
        text@ == hover(source@, statement@, value@),
{
    let chars = chars_of(source);
    let n = chars.len();
    let a = crate::markdown::skip_white_space_in(&chars, 0, n);
    let b = crate::markdown::trim_white_space_end_in(&chars, a, n);
    let trimmed_source = string_from_range(&chars, a, b);
    let summary = match statement {
        Stmt::Assign { name, .. } => concat3(name.as_str(), " = ", value),
        _ => crate::lexer::text(value),
    };
    let mut text = concat3("Expression: `", trimmed_source.as_str(), "`\n\nResult: `");
    text.append(summary.as_str());
    text.append("`");
    text
}


fn copy_text(o: &Option<String>) -> (copy: Option<String>)
    ensures
        text_of(copy) == text_of(*o),
{
    match o {
        Some(s) => Some(s.clone()),
        None => None,
    }
}

impl StatementAnalysis {
    pub fn source_span(&self) -> (span: Span)
        ensures
            span == self.source.source_span,
    {
        self.source.source_span
    }

    pub fn display_span(&self) -> (span: Span)
        ensures
            span == self.source.display_span,
    {
        self.source.display_span
    }

    pub fn insert_span(&self) -> (span: Span)
        ensures
            span == self.source.insert_span,
    {
        self.source.insert_span
    }

    pub fn hint_label(&self) -> (label: Option<String>)
        ensures
            text_of(label) == text_of(self.hint_label),
    {
        copy_text(&self.hint_label)
    }

    pub fn replacement_text(&self) -> (replacement: Option<String>)
        ensures
            text_of(replacement) == text_of(self.replacement_text),
    {
        copy_text(&self.replacement_text)
    }

    pub fn hover_text(&self) -> (hover: Option<String>)
        ensures
            text_of(hover) == text_of(self.hover_text),
    {
        copy_text(&self.hover_text)
    }
}

impl Analysis {
    pub fn statements(&self) -> (statements: &[StatementAnalysis])
        ensures
            statements@ == self.statements@,
    {
        self.statements.as_slice()
    }

    /// The first statement whose display span holds `offset`.
    pub fn statement_at_offset(&self, offset: usize) -> (found: Option<&StatementAnalysis>)
        ensures
            match first_at(self.statements@, offset as int, 0) {
                Some(i) => found == Some(&self.statements@[i]),
                None => found is None,
            },
    {
        let mut i: usize = 0;
        while i < self.statements.len()
            invariant
                i <= self.statements.len(),
                first_at(self.statements@, offset as int, 0) == first_at(
                    self.statements@,
                    offset as int,
                    i as int,
                ),
            decreases self.statements.len() - i,
        {
            if self.statements[i].source.display_span.contains(offset) {
                return Some(&self.statements[i]);
            }
            i = i + 1;
        }
        None
    }
}

proof fn lemma_parse_diagnostics_step(sv: Seq<StatementView>, i: int)
    requires
        0 <= i < sv.len(),
    ensures
        parse_diagnostics(sv.take(i + 1)) == match statement_of(sv[i].text) {
            Err(e) => parse_diagnostics(sv.take(i)).push(document_diagnostic(sv[i], e)),
            Ok(_) => parse_diagnostics(sv.take(i)),
        },
{
    assert(sv.take(i + 1).drop_last() =~= sv.take(i));
}

/// `failed` looks only at the statements before `k`.
proof fn lemma_failed_prefix(a: Seq<StatementAnalysis>, b: Seq<StatementAnalysis>, k: int)
    requires
        0 <= k <= a.len(),
        k <= b.len(),
        forall|j: int|
            0 <= j < k ==> a[j].source@.text == b[j].source@.text && (a[j].hint_label is None
                <==> b[j].hint_label is None),
    ensures
        failed(a, k) == failed(b, k),
    decreases k,
{
    if k > 0 {
        lemma_failed_prefix(a, b, k - 1);
    }
}

/// Analyzes `text`: finds its statements, parses them and evaluates them
/// with `arithmetic`.
#[verifier::rlimit(60)]
pub fn analyze<A: Arithmetic>(text: &str, arithmetic: &A) -> (analysis: Analysis)
    ensures
        statement_views(analysis.statements@) == extracted(text@),
        forall|i: int| 0 <= i < analysis.statements.len() ==> consistent(#[trigger] analysis.statements@[i]),
        diagnostic_views(analysis.diagnostics@).take(parse_diagnostics(extracted(text@)).len() as int)
            == parse_diagnostics(extracted(text@)),
        analysis.diagnostics.len() == parse_diagnostics(extracted(text@)).len() + failed(
            analysis.statements@,
            analysis.statements.len() as int,
        ).len(),
        forall|k: int|
            0 <= k < analysis.statements.len() && (statement_of(extracted(text@)[k].text) matches Ok(
                st,
            ) && view_stmt_sure(st) is Some) ==> (#[trigger] analysis.statements@[k]).hint_label is Some,
        analysis.parsed@.len() == analysis.statements.len(),
        forall|k: int|
            0 <= k < analysis.statements.len() ==> match #[trigger] analysis.parsed@[k] {
                Some(st) => statement_of(extracted(text@)[k].text) == Ok::<StmtView, LangErrorView>(st@),
                None => statement_of(extracted(text@)[k].text) is Err,
            },
        forall|k: int|
            0 <= k < analysis.statements.len() ==> match doc_outcome(analysis.parsed@, k) {
                Some(Ok(_)) => (#[trigger] analysis.statements@[k]).hint_label is Some,
                Some(Err(_)) => analysis.statements@[k].hint_label is None,
                None => true,
            },
        forall|j: int|
            0 <= j < failed(analysis.statements@, analysis.statements.len() as int).len() ==> reports_sure(
                #[trigger] analysis.diagnostics@[parse_diagnostics(extracted(text@)).len() + j]@,
                extracted(text@)[failed(analysis.statements@, analysis.statements.len() as int)[j]],
                doc_outcome(
                    analysis.parsed@,
                    failed(analysis.statements@, analysis.statements.len() as int)[j],
                ),
            ),
        exists|states: Seq<EvalState<A::Num>>, done_at: Seq<int>|
            values_justified::<A>(analysis.parsed@, states, done_at) && (forall|i: int|
                0 <= i < states.len() && (#[trigger] states[i]) is Done ==> done_at[i] >= 0) && shows::<A>(
                analysis.parsed@,
                states,
                analysis.statements@,
            ) && failures_reported::<A>(
                states,
                extracted(text@),
                analysis.statements@,
                analysis.statements.len() as int,
                analysis.diagnostics@,
                parse_diagnostics(extracted(text@)).len() as int,
            ) && final_values::<A>(analysis.parsed@, states),
{
    let sources = extract_statements(text);
    let ghost sv = views(sources@);
    let n = sources.len();
    let mut parsed: Vec<Option<Stmt>> = Vec::new();
    let mut diagnostics: Vec<DiagnosticData> = Vec::new();
    let mut statements: Vec<StatementAnalysis> = Vec::new();
    let mut i: usize = 0;
    assert(sv.take(0) =~= Seq::<StatementView>::empty());
    assert(diagnostic_views(diagnostics@) =~= parse_diagnostics(sv.take(0)));
    while i < n
        invariant
            n == sources.len(),
            sv == views(sources@),
            i <= n,
            parsed.len() == i,
            statements.len() == i,
            forall|k: int|
                0 <= k < i ==> (#[trigger] statements@[k]).source@ == sv[k] && statements@[k].hint_label is None
                    && statements@[k].replacement_text is None && statements@[k].hover_text is None,
            forall|k: int|
                0 <= k < i ==> match #[trigger] parsed@[k] {
                    Some(st) => statement_of(sv[k].text) == Ok::<StmtView, LangErrorView>(st@),
                    None => statement_of(sv[k].text) is Err,
                },
            diagnostic_views(diagnostics@) == parse_diagnostics(sv.take(i as int)),
        decreases n - i,
    {
        proof {
            lemma_parse_diagnostics_step(sv, i as int);
        }
        let ghost before = diagnostic_views(diagnostics@);
        match parse_statement(sources[i].text.as_str()) {
            Ok(statement) => {
                parsed.push(Some(statement));
            },
            Err(error) => {
                let d = to_document_diagnostic(&sources[i], &error);
                diagnostics.push(d);
                assert(diagnostic_views(diagnostics@) =~= before.push(d@));
                parsed.push(None);
            },
        }
        statements.push(
            StatementAnalysis {
                source: copy_statement(&sources[i]),
                hint_label: None,
                replacement_text: None,
                hover_text: None,
            },
        );
        i = i + 1;
    }
    assert(sv.take(n as int) =~= sv);
    let ghost parse_count = diagnostics.len();
    let ghost parse_views = diagnostic_views(diagnostics@);
    let mut ev = Evaluator::new(&parsed, arithmetic);
    let ghost initial = ev;
    let mut pos: usize = 0;
    assert(failed(statements@, 0) =~= Seq::<int>::empty());
    proof {
        reveal(failures_reported);
    }
    while pos < n
        invariant
            n == sources.len(),
            sv == views(sources@),
            sv == extracted(text@),
            pos <= n,
            parsed.len() == n,
            statements.len() == n,
            ev.wf(),
            ev.parsed@ == parsed@,
            ev.arithmetic == arithmetic,
            forall|k: int| 0 <= k < n ==> (#[trigger] statements@[k]).source@ == sv[k],
            forall|k: int| 0 <= k < n ==> consistent(#[trigger] statements@[k]),
            forall|k: int| pos <= k < n ==> (#[trigger] statements@[k]).hint_label is None,
            forall|k: int|
                0 <= k < n ==> match #[trigger] parsed@[k] {
                    Some(st) => statement_of(sv[k].text) == Ok::<StmtView, LangErrorView>(st@),
                    None => statement_of(sv[k].text) is Err,
                },
            parse_views == parse_diagnostics(sv),
            parse_count == parse_views.len(),
            diagnostic_views(diagnostics@).take(parse_count as int) == parse_views,
            diagnostics.len() == parse_count + failed(statements@, pos as int).len(),
            initial.evolves_to(&ev),
            initial.parsed@ == parsed@,
            initial.state.len() == n,
            forall|k: int| 0 <= k < n ==> (#[trigger] initial.state@[k]) is Unvisited,
            forall|k: int|
                0 <= k < pos && closed_sure(parsed@, k) ==> (#[trigger] statements@[k]).hint_label is Some,
            forall|j: int|
                0 <= j < failed(statements@, pos as int).len() ==> reports_sure(
                    #[trigger] diagnostics@[parse_count + j]@,
                    sv[failed(statements@, pos as int)[j]],
                    doc_outcome(parsed@, failed(statements@, pos as int)[j]),
                ),
            doc_consistent(parsed@, ev.state@),
            forall|k: int|
                0 <= k < pos ==> match doc_outcome(parsed@, k) {
                    Some(Ok(_)) => (#[trigger] statements@[k]).hint_label is Some,
                    Some(Err(_)) => statements@[k].hint_label is None,
                    None => true,
                },
            forall|k: int| 0 <= k < n ==> !(#[trigger] ev.state@[k] is Visiting),
            failures_reported::<A>(ev.state@, sv, statements@, pos as int, diagnostics@, parse_count as int),
            forall|k: int|
                0 <= k < pos ==> match #[trigger] ev.state@[k] {
                    EvalState::Done(Ok(v)) => parsed@[k] is Some && text_of(statements@[k].replacement_text)
                        == Some(value_text::<A>(v)),
                    EvalState::Done(Err(_)) => parsed@[k] is Some && statements@[k].replacement_text is None,
                    EvalState::Unvisited => parsed@[k] is None,
                    EvalState::Visiting => false,
                },
        decreases n - pos,
    {
        let ghost old_statements = statements@;
        let ghost old_diagnostics = diagnostics@;
        let ghost old_states = ev.state@;
        let ghost old_count = diagnostics.len();
        if let Some(statement) = &parsed[pos] {
            let ghost here = ev;
            proof {
                lemma_view_stmt_sure(statement, parsed@, here.state@, pos as int);
            }
            proof {
                assert forall|a: int| 0 <= a < n implies !(#[trigger] here.state@[a] is Visiting) by {
                    assert(initial.state@[a] is Unvisited);
                }
                assert(!crate::outcome::visiting_known(parsed@, here.state@));
                assert(crate::outcome::statement_in_doc_order(parsed@, here.state@, pos as int));
            }
            let result = eval_statement_at(&mut ev, pos);
            proof {
                assert(crate::eval::preserved(old_states, ev.state@));
                lemma_evolves_trans(&initial, &here, &ev);
                if closed_sure(parsed@, pos as int) {
                    assert(!(here.state@[pos as int] is Visiting));
                    if let EvalState::Done(res) = here.state@[pos as int] {
                        assert(!(res is Err));
                    }
                }
            }
            match result {
                Ok(value) => {
                    let formatted = format_value(arithmetic, &value);
                    let hint = hint_label(statement, formatted.as_str());
                    let hover = hover_text(sources[pos].text.as_str(), statement, formatted.as_str());
                    let analyzed = StatementAnalysis {
                        source: copy_statement(&sources[pos]),
                        hint_label: Some(hint),
                        replacement_text: Some(formatted),
                        hover_text: Some(hover),
                    };
                    statements.set(pos, analyzed);
                    proof {
                        lemma_failed_prefix(old_statements, statements@, pos as int);
                        assert(consistent(statements@[pos as int]));
                    }
                },
                Err(error) => {
                    let d = to_document_diagnostic(&sources[pos], &error);
                    diagnostics.push(d);
                    proof {
                        assert(diagnostics@[old_count as int] == d);
                        assert(reports_state::<A>(ev.state@, sv, pos as int, d));
                        assert(diagnostic_views(diagnostics@).take(parse_count as int) =~= diagnostic_views(
                            old_diagnostics,
                        ).take(parse_count as int));
                        assert(failed(statements@, pos + 1) == failed(statements@, pos as int).push(
                            pos as int,
                        ));
                        assert(reports_sure(d@, sv[pos as int], doc_outcome(parsed@, pos as int)));
                        assert forall|j: int|
                            0 <= j < failed(statements@, pos + 1).len() implies reports_sure(
                            #[trigger] diagnostics@[parse_count + j]@,
                            sv[failed(statements@, pos + 1)[j]],
                            doc_outcome(parsed@, failed(statements@, pos + 1)[j]),
                        ) by {
                            if j < failed(statements@, pos as int).len() {
                                assert(diagnostics@[parse_count + j] == old_diagnostics[parse_count + j]);
                            }
                        }
                    }
                },
            }
        }
        proof {
            assert forall|k: int| 0 <= k < n implies !(#[trigger] ev.state@[k] is Visiting) by {
                assert(initial.state@[k] is Unvisited);
            }
            assert forall|k: int| 0 <= k < pos + 1 implies match #[trigger] ev.state@[k] {
                EvalState::Done(Ok(v)) => parsed@[k] is Some && text_of(statements@[k].replacement_text)
                    == Some(value_text::<A>(v)),
                EvalState::Done(Err(_)) => parsed@[k] is Some && statements@[k].replacement_text is None,
                EvalState::Unvisited => parsed@[k] is None,
                EvalState::Visiting => false,
            } by {
                assert(initial.state@[k] is Unvisited);
                if k < pos {
                    assert(statements@[k] == old_statements[k]);
                    if !(old_states[k] is Unvisited) {
                        assert(ev.state@[k] == old_states[k]);
                    }
                }
            }
        }
        proof {
            lemma_failures_step::<A>(
                old_states,
                ev.state@,
                sv,
                old_statements,
                statements@,
                pos as int,
                old_diagnostics,
                diagnostics@,
                parse_count as int,
            );
        }
        pos = pos + 1;
    }
    assert(shows::<A>(parsed@, ev.state@, statements@));
    assert(values_justified::<A>(parsed@, ev.state@, ev.done_at@));
    proof {
        lemma_final_values::<A>(parsed@, ev.state@, ev.done_at@, statements@);
    }
    Analysis { diagnostics, statements, parsed: Ghost(parsed@) }
}

} // verus!
