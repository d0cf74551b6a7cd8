//! Answers to an editor's requests on an analyzed document: the hover of a
//! position, the inlay hints of a range and the code actions of a range.
//!
//! Each answer is a plain value: the editor protocol's own types are built
//! from it by the server.
use crate::analysis::{consistent, first_at, statement_views, text_of, Analysis, StatementAnalysis};
use crate::chars::byte_len;
use crate::lexer::concat3;
use crate::markdown::{all_on_chars, at, at_char, extracted, law_statements_on_chars, StatementView};
use crate::text::{
    clamp, index_at_offset, is_boundary, lemma_index_at_byte_offset, lemma_newlines_monotone,
    newlines, offset_position, overlaps, position_offset, position_to_offset, range_overlaps,
    span_to_range, Position, Range, Span,
};
use vstd::prelude::*;

verus! {

broadcast use vstd::seq::group_seq_axioms;

/// The range of positions that `span` covers in `s`.
pub open spec fn span_range(s: Seq<char>, span: Span) -> Range {
    Range { start: offset_position(s, span.start), end: offset_position(s, span.end) }
}

/// The byte `offset` (clamped to `s`) falls between two characters, on a
/// line whose number fits in a `u32`.
pub open spec fn offset_fits(s: Seq<char>, offset: usize) -> bool {
    &&& is_boundary(s, clamp(offset, s))
    &&& newlines(s, index_at_offset(s, clamp(offset, s), 0)) <= u32::MAX
}

/// Both ends of `span` can be shown as positions of `s`.
pub open spec fn span_fits(s: Seq<char>, span: Span) -> bool {
    offset_fits(s, span.start) && offset_fits(s, span.end)
}

/// All three spans of a statement can be shown as positions of `s`.
pub open spec fn statement_fits(s: Seq<char>, st: StatementView) -> bool {
    &&& span_fits(s, st.source_span)
    &&& span_fits(s, st.display_span)
    &&& span_fits(s, st.insert_span)
}

proof fn lemma_at_char_fits(s: Seq<char>, offset: usize)
    requires
        at_char(s, offset),
        byte_len(s) <= usize::MAX,
        newlines(s, s.len() as int) <= u32::MAX,
    ensures
        offset_fits(s, offset),
{
    let c = choose|c: int| 0 <= c <= s.len() && at(s, c) == offset;
    crate::chars::lemma_byte_offset_bounded(s, c);
    assert(clamp(offset, s) == offset as int);
    lemma_index_at_byte_offset(s, c);
    lemma_newlines_monotone(s, c, s.len() as int);
}

/// In a document whose line breaks can be counted in a `u32`, every span
/// of every statement can be shown as a range of positions.
pub proof fn law_statements_fit(s: Seq<char>)
    requires
        byte_len(s) <= usize::MAX,
        newlines(s, s.len() as int) <= u32::MAX,
    ensures
        forall|k: int| 0 <= k < extracted(s).len() ==> statement_fits(s, #[trigger] extracted(s)[k]),
{
    law_statements_on_chars(s);
    assert forall|k: int| 0 <= k < extracted(s).len() implies statement_fits(
        s,
        #[trigger] extracted(s)[k],
    ) by {
        let st = extracted(s)[k];
        assert(all_on_chars(s, extracted(s)));
        lemma_at_char_fits(s, st.source_span.start);
        lemma_at_char_fits(s, st.source_span.end);
        lemma_at_char_fits(s, st.display_span.start);
        lemma_at_char_fits(s, st.display_span.end);
        lemma_at_char_fits(s, st.insert_span.start);
        lemma_at_char_fits(s, st.insert_span.end);
    }
}

// ---------------------------------------------------------------------------
// Hover.
/// The hover of a statement: its hover text, over the range of its source.
pub struct HoverReply {
    pub contents: String,
    pub range: Range,
}

/// The hover at `position`: that of the first statement whose display span
/// holds the position, when that statement evaluated.
pub open spec fn hover_answer(s: Seq<char>, statements: Seq<StatementAnalysis>, position: Position) -> Option<
    (Seq<char>, Range),
> {
    match first_at(statements, position_offset(s, position) as int, 0) {
        Some(i) => match statements[i].hover_text {
            Some(h) => Some((h@, span_range(s, statements[i].source.source_span))),
            None => None,
        },
        None => None,
    }
}

/// The source span of the statement that a hover at `position` shows can
/// be shown as a range.
pub open spec fn hover_fits(s: Seq<char>, statements: Seq<StatementAnalysis>, position: Position) -> bool {
    match first_at(statements, position_offset(s, position) as int, 0) {
        Some(i) => statements[i].hover_text is Some ==> span_fits(s, statements[i].source.source_span),
        None => true,
    }
}

/// The hover at `position` of `text`, analyzed as `analysis`.
pub fn hover_at(text: &str, analysis: &Analysis, position: Position) -> (reply: Option<HoverReply>)
    requires
        hover_fits(text@, analysis.statements@, position),
    ensures
        match reply {
            Some(h) => hover_answer(text@, analysis.statements@, position) == Some(
                (h.contents@, h.range),
            ),
            None => hover_answer(text@, analysis.statements@, position) is None,
        },
{
    let offset = position_to_offset(text, position);
    let statement = match analysis.statement_at_offset(offset) {
        None => {
            return None;
        },
        Some(statement) => statement,
    };
    let contents = match statement.hover_text() {
        None => {
            return None;
        },
        Some(contents) => contents,
    };
    Some(HoverReply { contents, range: span_to_range(text, statement.source_span()) })
}

// ---------------------------------------------------------------------------
// Inlay hints.
/// A hint shown after a statement: at `position`, the text `label`, with
/// `tooltip` on hovering it.
pub struct InlayHintReply {
    pub position: Position,
    pub label: String,
    pub tooltip: Option<String>,
}

pub struct HintView {
    pub position: Position,
    pub label: Seq<char>,
    pub tooltip: Option<Seq<char>>,
}

impl View for InlayHintReply {
    type V = HintView;

    open spec fn view(&self) -> HintView {
        HintView { position: self.position, label: self.label@, tooltip: text_of(self.tooltip) }
    }
}

/// The hint of a statement that evaluated, when its display range meets
/// `range`: shown at the end of that range, its label after a space.
pub open spec fn hint_of(s: Seq<char>, st: StatementAnalysis, range: Range) -> Option<HintView> {
    match st.hint_label {
        None => None,
        Some(label) => {
            let shown = span_range(s, st.source.display_span);
            if overlaps(shown, range) {
                Some(
                    HintView {
                        position: shown.end,
                        label: " "@ + label@,
                        tooltip: text_of(st.hover_text),
                    },
                )
            } else {
                None
            }
        },
    }
}

/// The hints of the statements, in document order.
pub open spec fn hints(s: Seq<char>, statements: Seq<StatementAnalysis>, range: Range) -> Seq<HintView>
    decreases statements.len(),
{
    if statements.len() == 0 {
        Seq::empty()
    } else {
        let rest = hints(s, statements.drop_last(), range);
        match hint_of(s, statements.last(), range) {
            Some(h) => rest.push(h),
            None => rest,
        }
    }
}

pub open spec fn hint_views(replies: Seq<InlayHintReply>) -> Seq<HintView> {
    replies.map_values(|h: InlayHintReply| h@)
}

/// The display span of every statement that evaluated can be shown as a
/// range.
pub open spec fn hints_fit(s: Seq<char>, statements: Seq<StatementAnalysis>) -> bool {
    forall|i: int|
        0 <= i < statements.len() && (#[trigger] statements[i]).hint_label is Some ==> span_fits(
            s,
            statements[i].source.display_span,
        )
}

/// The inlay hints of `text`, analyzed as `analysis`, that meet `range`.
pub fn inlay_hints(text: &str, analysis: &Analysis, range: Range) -> (replies: Vec<InlayHintReply>)
    requires
        hints_fit(text@, analysis.statements@),
    ensures
        hint_views(replies@) == hints(text@, analysis.statements@, range),
{
    let statements = analysis.statements();
    let ghost sts = analysis.statements@;
    let mut replies: Vec<InlayHintReply> = Vec::new();
    let mut i: usize = 0;
    assert(sts.take(0) =~= Seq::<StatementAnalysis>::empty());
    while i < statements.len()
        invariant
            statements@ == sts,
            sts == analysis.statements@,
            hints_fit(text@, sts),
            i <= statements.len(),
            hint_views(replies@) == hints(text@, sts.take(i as int), range),
        decreases statements.len() - i,
    {
        let ghost before = hint_views(replies@);
        proof {
            reveal_strlit("");
        }
        assert(sts.take(i + 1).drop_last() =~= sts.take(i as int));
        assert(sts.take(i + 1).last() == sts[i as int]);
        let statement = &statements[i];
        if let Some(label) = statement.hint_label() {
            let shown = span_to_range(text, statement.display_span());
            if range_overlaps(&shown, &range) {
                let reply = InlayHintReply {
                    position: shown.end,
                    label: concat3(" ", label.as_str(), ""),
                    tooltip: statement.hover_text(),
                };
                replies.push(reply);
                assert(hint_views(replies@) =~= before.push(reply@));
            }
        }
        i = i + 1;
    }
    assert(sts.take(statements.len() as int) =~= sts);
    replies
}

// ---------------------------------------------------------------------------
// Code actions.
/// What an action is for.
#[derive(Clone, Copy, Debug, PartialEq, Eq, Structural)]
pub enum ActionKind {
    /// Rewrites a statement.
    Rewrite,
    /// Fixes a document by adding to it.
    QuickFix,
}

/// An action that replaces `range` of the document with `new_text`.
pub struct CodeActionReply {
    pub title: String,
    pub kind: ActionKind,
    pub range: Range,
    pub new_text: String,
}

pub struct ActionView {
    pub title: Seq<char>,
    pub kind: ActionKind,
    pub range: Range,
    pub new_text: Seq<char>,
}

impl View for CodeActionReply {
    type V = ActionView;

    open spec fn view(&self) -> ActionView {
        ActionView { title: self.title@, kind: self.kind, range: self.range, new_text: self.new_text@ }
    }
}

/// The actions on a statement whose display range meets `range`, when it
/// evaluated: replacing its source with its result, and inserting its hint
/// after it.
pub open spec fn actions_of(s: Seq<char>, st: StatementAnalysis, range: Range) -> Seq<ActionView> {
    if !overlaps(span_range(s, st.source.display_span), range) {
        Seq::empty()
    } else {
        match (st.replacement_text, st.hint_label) {
            (Some(replacement), Some(label)) => {
                let at_end = span_range(s, st.source.insert_span).end;
                seq![
                    ActionView {
                        title: "Replace with "@ + replacement@,
                        kind: ActionKind::Rewrite,
                        range: span_range(s, st.source.source_span),
                        new_text: replacement@,
                    },
                    ActionView {
                        title: "Insert evaluated result ("@ + label@ + ")"@,
                        kind: ActionKind::QuickFix,
                        range: Range { start: at_end, end: at_end },
                        new_text: " "@ + label@,
                    },
                ]
            },
            _ => Seq::empty(),
        }
    }
}

/// The actions on the statements, in document order.
pub open spec fn actions(s: Seq<char>, statements: Seq<StatementAnalysis>, range: Range) -> Seq<ActionView>
    decreases statements.len(),
{
    if statements.len() == 0 {
        Seq::empty()
    } else {
        actions(s, statements.drop_last(), range) + actions_of(s, statements.last(), range)
    }
}

pub open spec fn action_views(replies: Seq<CodeActionReply>) -> Seq<ActionView> {
    replies.map_values(|a: CodeActionReply| a@)
}

/// Every display span can be shown as a range, and every statement with a
/// replacement whose display range meets `range` has a hint, and spans
/// that can be shown too.
pub open spec fn actions_fit(s: Seq<char>, statements: Seq<StatementAnalysis>, range: Range) -> bool {
    forall|i: int|
        0 <= i < statements.len() ==> {
            let st = #[trigger] statements[i];
            &&& span_fits(s, st.source.display_span)
            &&& (overlaps(span_range(s, st.source.display_span), range)
                && st.replacement_text is Some) ==> {
                &&& st.hint_label is Some
                &&& span_fits(s, st.source.source_span)
                &&& span_fits(s, st.source.insert_span)
            }
        }
}

/// The code actions on the statements of `text`, analyzed as `analysis`,
/// whose display range meets `range`.
pub fn code_actions(text: &str, analysis: &Analysis, range: Range) -> (replies: Vec<CodeActionReply>)
    requires
        actions_fit(text@, analysis.statements@, range),
    ensures
        action_views(replies@) == actions(text@, analysis.statements@, range),
{
    let statements = analysis.statements();
    let ghost sts = analysis.statements@;
    let mut replies: Vec<CodeActionReply> = Vec::new();
    let mut i: usize = 0;
    assert(sts.take(0) =~= Seq::<StatementAnalysis>::empty());
    while i < statements.len()
        invariant
            statements@ == sts,
            sts == analysis.statements@,
            actions_fit(text@, sts, range),
            i <= statements.len(),
            action_views(replies@) == actions(text@, sts.take(i as int), range),
        decreases statements.len() - i,
    {
        let ghost before = action_views(replies@);
        proof {
            reveal_strlit("");
        }
        assert(sts.take(i + 1).drop_last() =~= sts.take(i as int));
        assert(sts.take(i + 1).last() == sts[i as int]);
        let statement = &statements[i];
        let shown = span_to_range(text, statement.display_span());
        if range_overlaps(&shown, &range) {
            match (statement.replacement_text(), statement.hint_label()) {
                (Some(replacement), Some(label)) => {
                    let replace = CodeActionReply {
                        title: concat3("Replace with ", replacement.as_str(), ""),
                        kind: ActionKind::Rewrite,
                        range: span_to_range(text, statement.source_span()),
                        new_text: replacement,
                    };
                    let at_end = span_to_range(text, statement.insert_span()).end;
                    let insert = CodeActionReply {
                        title: concat3("Insert evaluated result (", label.as_str(), ")"),
                        kind: ActionKind::QuickFix,
                        range: Range { start: at_end, end: at_end },
                        new_text: concat3(" ", label.as_str(), ""),
                    };
                    replies.push(replace);
                    replies.push(insert);
                },
                _ => {},
            }
            assert(action_views(replies@) =~= before + actions_of(text@, sts[i as int], range));
        } else {
            assert(action_views(replies@) =~= before + actions_of(text@, sts[i as int], range));
        }
        i = i + 1;
    }
    assert(sts.take(statements.len() as int) =~= sts);
    replies
}

// ---------------------------------------------------------------------------
/// The analysis of a document whose line breaks can be counted in a `u32`
/// answers every request: its hovers, inlay hints and code actions.
pub proof fn law_analysis_answers(
    s: Seq<char>,
    statements: Seq<StatementAnalysis>,
    position: Position,
    range: Range,
)
    requires
        byte_len(s) <= usize::MAX,
        newlines(s, s.len() as int) <= u32::MAX,
        statement_views(statements) == extracted(s),
        forall|i: int| 0 <= i < statements.len() ==> consistent(#[trigger] statements[i]),
    ensures
        hover_fits(s, statements, position),
        hints_fit(s, statements),
        actions_fit(s, statements, range),
{
    law_statements_fit(s);
    assert forall|i: int| 0 <= i < statements.len() implies statement_fits(
        s,
        #[trigger] statements[i].source@,
    ) by {
        assert(statement_views(statements)[i] == statements[i].source@);
        assert(statement_fits(s, extracted(s)[i]));
    }
    crate::analysis::lemma_first_at(statements, position_offset(s, position) as int, 0);
}

/// The actions on two runs of statements are those on the first run, then
/// those on the second: each statement contributes its own actions,
/// whatever comes before it.
pub proof fn law_actions_concat(s: Seq<char>, a: Seq<StatementAnalysis>, b: Seq<StatementAnalysis>, range: Range)
    ensures
        actions(s, a + b, range) == actions(s, a, range) + actions(s, b, range),
    decreases b.len(),
{
    if b.len() == 0 {
        assert(a + b =~= a);
    } else {
        assert((a + b).drop_last() =~= a + b.drop_last());
        assert((a + b).last() == b.last());
        law_actions_concat(s, a, b.drop_last(), range);
    }
}

proof fn lemma_actions_single(s: Seq<char>, st: StatementAnalysis, range: Range)
    ensures
        actions(s, seq![st], range) == actions_of(s, st, range),
{
    let one = seq![st];
    assert(one.drop_last() =~= Seq::<StatementAnalysis>::empty());
    assert(actions(s, one.drop_last(), range) =~= Seq::<ActionView>::empty());
    assert(actions(s, one, range) =~= actions_of(s, st, range));
}

/// Every statement that evaluated and whose display range meets `range`
/// has, among the actions, one that replaces its source with its result
/// and one that inserts its hint after it.
pub proof fn law_each_statement_acts(s: Seq<char>, statements: Seq<StatementAnalysis>, range: Range, i: int)
    requires
        0 <= i < statements.len(),
        overlaps(span_range(s, statements[i].source.display_span), range),
        statements[i].replacement_text is Some,
        statements[i].hint_label is Some,
    ensures
        actions(s, statements, range).contains(
            ActionView {
                title: "Replace with "@ + statements[i].replacement_text->0@,
                kind: ActionKind::Rewrite,
                range: span_range(s, statements[i].source.source_span),
                new_text: statements[i].replacement_text->0@,
            },
        ),
        actions(s, statements, range).contains(
            ActionView {
                title: "Insert evaluated result ("@ + statements[i].hint_label->0@ + ")"@,
                kind: ActionKind::QuickFix,
                range: Range {
                    start: span_range(s, statements[i].source.insert_span).end,
                    end: span_range(s, statements[i].source.insert_span).end,
                },
                new_text: " "@ + statements[i].hint_label->0@,
            },
        ),
{
    let before = statements.take(i);
    let rest = statements.subrange(i, statements.len() as int);
    assert(statements =~= before + rest);
    law_actions_concat(s, before, rest, range);
    let one = seq![statements[i]];
    let after = statements.subrange(i + 1, statements.len() as int);
    assert(rest =~= one + after);
    law_actions_concat(s, one, after, range);
    lemma_actions_single(s, statements[i], range);
    let own = actions_of(s, statements[i], range);
    let all = actions(s, statements, range);
    let pre = actions(s, before, range);
    assert(all == pre + (own + actions(s, after, range)));
    assert(all[pre.len() as int] == own[0]);
    assert(all[pre.len() as int + 1] == own[1]);
}

} // verus!
