//! Locating the statements of `math:` and `sheet:` blocks in a Markdown
//! document.
//!
//! A line that starts with `math:` or `sheet:` switches the rest of the
//! document into a calculation mode (the text after `math:`, if any, is a
//! statement); a line holding only `/math` or `/sheet` switches it off. In
//! the mode every non-blank line is a statement, except that a line holding
//! only `name:` opens a list block: the following lines up to the first blank
//! line (or the end of the document) become the items of
//! `name := [item, ...]`. Fenced code blocks are skipped everywhere, markers
//! inside them too. The text of a statement stops at its first backtick
//! (inline code escapes the rest of the line) and before an appended result
//! such as the `= 4` of `2 + 2 = 4`; a bare trailing `=` stays.
//!
//! Sheet tables are not evaluated: in `sheet:` mode a table row (a line
//! that starts with `|`) is left out of the statements.
//!
//! Positions in the specification are character indices into the document;
//! the spans of the statements are the byte offsets of those indices.
use crate::chars::{
    byte_len, byte_offsets, chars_of, lemma_byte_offset_bounded, byte_length, string_from_chars,
    byte_offset, is_name_char, is_name_char_char, is_name_start, is_name_start_char,
    is_white_space, is_white_space_char,
};
use crate::text::Span;
use vstd::prelude::*;

verus! {

broadcast use vstd::seq::group_seq_axioms;

/// A statement found in the document, with its spans as byte offsets.
#[derive(Clone, Debug)]
pub struct ExtractedStatement {
    pub text: String,
    pub source_span: Span,
    pub display_span: Span,
    pub insert_span: Span,
}

/// The mathematical value of an [`ExtractedStatement`].
pub struct StatementView {
    pub text: Seq<char>,
    pub source_span: Span,
    pub display_span: Span,
    pub insert_span: Span,
}

impl View for ExtractedStatement {
    type V = StatementView;

    open spec fn view(&self) -> StatementView {
        StatementView {
            text: self.text@,
            source_span: self.source_span,
            display_span: self.display_span,
            insert_span: self.insert_span,
        }
    }
}

/// Index of the first `'\n'` at or after `i`, or the length of `s`.
pub open spec fn line_end(s: Seq<char>, i: int) -> int
    decreases s.len() - i,
{
    if i >= s.len() {
        s.len() as int
    } else if s[i] == '\n' {
        i
    } else {
        line_end(s, i + 1)
    }
}

/// The end of `s[start..end]` once trailing `'\r'` characters are removed.
pub open spec fn strip_cr(s: Seq<char>, start: int, end: int) -> int
    decreases end - start,
{
    if end > start && s[end - 1] == '\r' {
        strip_cr(s, start, end - 1)
    } else {
        end
    }
}

/// The end of the content of the line that starts at `i`.
pub open spec fn content_end(s: Seq<char>, i: int) -> int {
    strip_cr(s, i, line_end(s, i))
}

/// The first index in `a..b` whose character is not white space, or `b`.
pub open spec fn skip_ws(s: Seq<char>, a: int, b: int) -> int
    decreases b - a,
{
    if a >= b {
        b
    } else if is_white_space(s[a]) {
        skip_ws(s, a + 1, b)
    } else {
        a
    }
}

/// The end of `s[a..b]` once trailing white space is removed.
pub open spec fn trim_end_at(s: Seq<char>, a: int, b: int) -> int
    decreases b - a,
{
    if b <= a {
        a
    } else if is_white_space(s[b - 1]) {
        trim_end_at(s, a, b - 1)
    } else {
        b
    }
}

/// `s[a..b]` holds only white space.
pub open spec fn is_blank(s: Seq<char>, a: int, b: int) -> bool {
    skip_ws(s, a, b) >= b
}

/// `s[a..b]` starts with the marker `math:`.
pub open spec fn starts_with_marker(s: Seq<char>, a: int, b: int) -> bool {
    &&& b - a >= 5
    &&& s[a] == 'm'
    &&& s[a + 1] == 'a'
    &&& s[a + 2] == 't'
    &&& s[a + 3] == 'h'
    &&& s[a + 4] == ':'
}

/// `s[a..b]` starts with the marker `sheet:`.
pub open spec fn starts_with_sheet_marker(s: Seq<char>, a: int, b: int) -> bool {
    &&& b - a >= 6
    &&& s[a] == 's'
    &&& s[a + 1] == 'h'
    &&& s[a + 2] == 'e'
    &&& s[a + 3] == 'e'
    &&& s[a + 4] == 't'
    &&& s[a + 5] == ':'
}

/// The line starting at `i` opens or closes a fenced code block: after its
/// leading white space it starts with three backticks.
pub open spec fn is_fence_line(s: Seq<char>, i: int) -> bool {
    let ce = content_end(s, i);
    let a = skip_ws(s, i, ce);
    &&& ce - a >= 3
    &&& s[a] == '`'
    &&& s[a + 1] == '`'
    &&& s[a + 2] == '`'
}

/// The line starting at `i` holds only `/math` or `/sheet`, up to white
/// space around it.
pub open spec fn is_close_line(s: Seq<char>, i: int) -> bool {
    let ce = content_end(s, i);
    let a = skip_ws(s, i, ce);
    let b = trim_end_at(s, a, ce);
    ||| (b - a == 5 && s[a] == '/' && s[a + 1] == 'm' && s[a + 2] == 'a' && s[a + 3] == 't'
        && s[a + 4] == 'h')
    ||| (b - a == 6 && s[a] == '/' && s[a + 1] == 's' && s[a + 2] == 'h' && s[a + 3] == 'e'
        && s[a + 4] == 'e' && s[a + 5] == 't')
}

/// `s[a..b]` is `name:` for a name made of ASCII letters, digits and `_`
/// that does not start with a digit.
pub open spec fn is_list_header(s: Seq<char>, a: int, b: int) -> bool {
    &&& b - a >= 2
    &&& s[b - 1] == ':'
    &&& is_name_start(s[a])
    &&& forall|k: int| a < k < b - 1 ==> is_name_char(#[trigger] s[k])
}

/// Where the list block whose first item line starts at `j` ends: the start
/// of the blank line that closes it (or the end of the text), and the end of
/// its last line (`prev` while no item line has been taken).
pub open spec fn list_block(s: Seq<char>, j: int, prev: int) -> (int, int)
    decreases s.len() - j,
{
    if j < 0 || j > s.len() || is_blank(s, j, content_end(s, j)) {
        (j, prev)
    } else if line_end(s, j) >= s.len() {
        (s.len() as int, line_end(s, j))
    } else {
        list_block(s, line_end(s, j) + 1, line_end(s, j))
    }
}

/// The range of a list item inside the line `s[j..end]`: the trimmed line,
/// without a leading `- ` or `* ` bullet and the white space after it.
pub open spec fn item_range(s: Seq<char>, j: int, end: int) -> (int, int) {
    let a = skip_ws(s, j, end);
    let b = trim_end_at(s, a, end);
    if b - a >= 2 && (s[a] == '-' || s[a] == '*') && s[a + 1] == ' ' {
        (skip_ws(s, a + 2, b), b)
    } else {
        (a, b)
    }
}

pub open spec fn item_text(s: Seq<char>, j: int) -> Seq<char> {
    let r = item_range(s, j, content_end(s, j));
    s.subrange(r.0, r.1)
}

/// The items of the lines from `j` up to `k`, each one preceded by `", "`
/// except the first one when `first` holds.
pub open spec fn joined_items(s: Seq<char>, j: int, k: int, first: bool) -> Seq<char>
    decreases k - j,
{
    if j < 0 || j >= k {
        Seq::empty()
    } else {
        let sep = if first {
            Seq::<char>::empty()
        } else {
            seq![',', ' ']
        };
        let rest = if j < line_end(s, j) + 1 <= k {
            joined_items(s, line_end(s, j) + 1, k, false)
        } else {
            Seq::empty()
        };
        sep + item_text(s, j) + rest
    }
}

/// `name := [item, ...]`.
pub open spec fn list_text(name: Seq<char>, items: Seq<char>) -> Seq<char> {
    name + seq![' ', ':', '=', ' ', '['] + items + seq![']']
}

/// The byte offset of character index `i`, as a `usize`.
pub open spec fn at(s: Seq<char>, i: int) -> usize {
    byte_offset(s, i) as usize
}

pub open spec fn span_of(s: Seq<char>, a: int, b: int) -> Span {
    Span { start: at(s, a), end: at(s, b) }
}

/// The first backtick in `s[a..b]`, or `b`.
pub open spec fn tick_at(s: Seq<char>, a: int, b: int) -> int
    decreases b - a,
{
    if a >= b {
        b
    } else if s[a] == '`' {
        a
    } else {
        tick_at(s, a + 1, b)
    }
}

/// `s[k]` starts a result appended to the statement that starts at `a`:
/// it is an `=` that does not end a `:=`, and text follows it before `b`.
pub open spec fn appends_result(s: Seq<char>, a: int, k: int, b: int) -> bool {
    &&& s[k] == '='
    &&& (k == a || s[k - 1] != ':')
    &&& !is_blank(s, k + 1, b)
}

/// The first index in `k..b` that starts an appended result, or `b`.
pub open spec fn result_at(s: Seq<char>, a: int, k: int, b: int) -> int
    decreases b - k,
{
    if k >= b {
        b
    } else if appends_result(s, a, k, b) {
        k
    } else {
        result_at(s, a, k + 1, b)
    }
}

/// The end of the text of the statement that starts at `a` on a line whose
/// content ends at `ce`: an inline code span (from the first backtick on)
/// and an appended result (`= ...`) are left out, and so is the white space
/// before them; otherwise the statement runs to the end of the line.
pub open spec fn statement_end(s: Seq<char>, a: int, ce: int) -> int {
    let q = result_at(s, a, a, tick_at(s, a, ce));
    if q < ce {
        trim_end_at(s, a, q)
    } else {
        ce
    }
}

/// The statement that starts at `a` on a line whose content ends at `ce`,
/// shown from `d` on, if its text is not empty.
pub open spec fn line_statements(s: Seq<char>, a: int, d: int, ce: int) -> Seq<StatementView> {
    let e = statement_end(s, a, ce);
    if a >= e {
        Seq::empty()
    } else {
        seq![
            StatementView {
                text: s.subrange(a, e),
                source_span: span_of(s, a, e),
                display_span: span_of(s, d, e),
                insert_span: span_of(s, e, e),
            },
        ]
    }
}

/// The statement on the `math:` line starting at `i`, if the text after
/// the marker holds one.
pub open spec fn marker_statements(s: Seq<char>, i: int) -> Seq<StatementView> {
    let ce = content_end(s, i);
    line_statements(s, skip_ws(s, i + 5, ce), i, ce)
}

/// The statement on the line starting at `i`, if it holds one.
pub open spec fn math_statements(s: Seq<char>, i: int) -> Seq<StatementView> {
    let ce = content_end(s, i);
    let a = skip_ws(s, i, ce);
    line_statements(s, a, a, ce)
}

/// The list statement whose header line starts at `i`.
pub open spec fn list_statement(s: Seq<char>, i: int) -> StatementView {
    let ce = content_end(s, i);
    let a = skip_ws(s, i, ce);
    let le = line_end(s, i);
    let block = list_block(s, le + 1, le);
    StatementView {
        text: list_text(s.subrange(a, ce - 1), joined_items(s, le + 1, block.0, true)),
        source_span: span_of(s, a, block.1),
        display_span: span_of(s, a, block.1),
        insert_span: span_of(s, block.1, block.1),
    }
}

/// The line starting at `i` opens a list block: it is a list header and
/// is followed by another line.
pub open spec fn opens_list(s: Seq<char>, i: int) -> bool {
    let ce = content_end(s, i);
    is_list_header(s, skip_ws(s, i, ce), ce) && line_end(s, i) < s.len()
}

/// The line starting at `i` is a table row: after its leading white space
/// it starts with `|`.
pub open spec fn is_table_line(s: Seq<char>, i: int) -> bool {
    let ce = content_end(s, i);
    let a = skip_ws(s, i, ce);
    a < ce && s[a] == '|'
}

/// Whether the mode after the line starting at `i` is a `sheet:` one: a
/// marker line sets it, any other line keeps it.
pub open spec fn next_tables(s: Seq<char>, i: int, tables: bool, fence: bool) -> bool {
    let ce = content_end(s, i);
    if fence || is_fence_line(s, i) {
        tables
    } else if starts_with_marker(s, i, ce) {
        false
    } else if starts_with_sheet_marker(s, i, ce) {
        true
    } else {
        tables
    }
}

/// The statements of `s` from the line that starts at `i` on, in a mode
/// (`in_mode`) or not, a `sheet:` mode (`tables`) or a `math:` one, inside a
/// fenced code block (`fence`) or not.
///
/// A fence line toggles the code block, and the lines of a code block are
/// skipped. Any other line that starts with `math:` or `sheet:` opens the
/// mode (a `math:` line may hold a statement after the marker); in the mode,
/// a `/math` or `/sheet` line closes it, a table row (a line that starts
/// with `|`) of a `sheet:` mode is left to the table, a list header opens a
/// list block, and any other line holds a statement if it is not blank.
pub open spec fn scan(s: Seq<char>, i: int, in_mode: bool, tables: bool, fence: bool) -> Seq<StatementView>
    decreases s.len() - i,
{
    if i < 0 || i > s.len() {
        Seq::empty()
    } else {
        let le = line_end(s, i);
        let ce = content_end(s, i);
        let code = fence || is_fence_line(s, i);
        let math = starts_with_marker(s, i, ce);
        let sheet = starts_with_sheet_marker(s, i, ce);
        let plain = !code && !math && !sheet && in_mode && !is_close_line(s, i) && !(tables
        && is_table_line(s, i));
        if plain && opens_list(s, i) {
            let k = list_block(s, le + 1, le).0;
            if i < k <= s.len() {
                seq![list_statement(s, i)] + scan(s, k, true, tables, false)
            } else {
                Seq::empty()
            }
        } else {
            let here = if code {
                Seq::empty()
            } else if math {
                marker_statements(s, i)
            } else if plain {
                math_statements(s, i)
            } else {
                Seq::empty()
            };
            let mode = if code {
                in_mode
            } else {
                math || sheet || (in_mode && !is_close_line(s, i))
            };
            if i <= le < s.len() {
                here + scan(s, le + 1, mode, next_tables(s, i, tables, fence), fence != is_fence_line(s, i))
            } else {
                here
            }
        }
    }
}

/// The statements of a whole document.
pub open spec fn extracted(s: Seq<char>) -> Seq<StatementView> {
    scan(s, 0, false, false, false)
}

pub open spec fn views(statements: Seq<ExtractedStatement>) -> Seq<StatementView> {
    statements.map_values(|st: ExtractedStatement| st@)
}

// ---------------------------------------------------------------------------
// Lemmas on the line helpers.
pub proof fn lemma_line_end(s: Seq<char>, i: int)
    requires
        0 <= i <= s.len(),
    ensures
        i <= line_end(s, i) <= s.len(),
        line_end(s, i) < s.len() ==> s[line_end(s, i)] == '\n',
        forall|k: int| i <= k < line_end(s, i) ==> s[k] != '\n',
    decreases s.len() - i,
{
    if i < s.len() && s[i] != '\n' {
        lemma_line_end(s, i + 1);
    }
}

pub proof fn lemma_strip_cr(s: Seq<char>, start: int, end: int)
    requires
        start <= end,
    ensures
        start <= strip_cr(s, start, end) <= end,
    decreases end - start,
{
    if end > start && s[end - 1] == '\r' {
        lemma_strip_cr(s, start, end - 1);
    }
}

pub proof fn lemma_skip_ws(s: Seq<char>, a: int, b: int)
    requires
        a <= b,
    ensures
        a <= skip_ws(s, a, b) <= b,
        skip_ws(s, a, b) < b ==> !is_white_space(s[skip_ws(s, a, b)]),
    decreases b - a,
{
    if a < b && is_white_space(s[a]) {
        lemma_skip_ws(s, a + 1, b);
    }
}

pub proof fn lemma_trim_end_at(s: Seq<char>, a: int, b: int)
    requires
        a <= b,
    ensures
        a <= trim_end_at(s, a, b) <= b,
    decreases b - a,
{
    if b > a && is_white_space(s[b - 1]) {
        lemma_trim_end_at(s, a, b - 1);
    }
}

pub proof fn lemma_tick_at(s: Seq<char>, a: int, b: int)
    requires
        a <= b,
    ensures
        a <= tick_at(s, a, b) <= b,
    decreases b - a,
{
    if a < b && s[a] != '`' {
        lemma_tick_at(s, a + 1, b);
    }
}

pub proof fn lemma_result_at(s: Seq<char>, a: int, k: int, b: int)
    requires
        k <= b,
    ensures
        k <= result_at(s, a, k, b) <= b,
    decreases b - k,
{
    if k < b && !appends_result(s, a, k, b) {
        lemma_result_at(s, a, k + 1, b);
    }
}

pub proof fn lemma_statement_end(s: Seq<char>, a: int, ce: int)
    requires
        a <= ce,
    ensures
        a <= statement_end(s, a, ce) <= ce,
{
    lemma_tick_at(s, a, ce);
    let t = tick_at(s, a, ce);
    lemma_result_at(s, a, a, t);
    let q = result_at(s, a, a, t);
    if q < ce {
        lemma_trim_end_at(s, a, q);
    }
}

pub proof fn lemma_list_block(s: Seq<char>, j: int, prev: int)
    requires
        0 <= j <= s.len(),
        0 <= prev < j,
    ensures
        j <= list_block(s, j, prev).0 <= s.len(),
        prev <= list_block(s, j, prev).1 <= s.len(),
        list_block(s, j, prev).1 < list_block(s, j, prev).0 || list_block(s, j, prev).0
            == s.len(),
    decreases s.len() - j,
{
    lemma_line_end(s, j);
    if !is_blank(s, j, content_end(s, j)) && line_end(s, j) < s.len() {
        lemma_list_block(s, line_end(s, j) + 1, line_end(s, j));
    }
}

// ---------------------------------------------------------------------------
// Executable helpers.
/// The index of the `'\n'` that ends the line starting at `i`, or the length.
fn find_line_end(chars: &Vec<char>, i: usize) -> (le: usize)
    requires
        i <= chars.len(),
    ensures
        le == line_end(chars@, i as int),
{
    let mut j = i;
    while j < chars.len() && chars[j] != '\n'
        invariant
            i <= j <= chars.len(),
            line_end(chars@, i as int) == line_end(chars@, j as int),
        decreases chars.len() - j,
    {
        j = j + 1;
    }
    j
}

/// The start of the next line after the one starting at `i`, if there is one.
fn next_line_offset(chars: &Vec<char>, i: usize) -> (next: Option<usize>)
    requires
        i <= chars.len(),
    ensures
        next == (if line_end(chars@, i as int) < chars.len() {
            Some((line_end(chars@, i as int) + 1) as usize)
        } else {
            None::<usize>
        }),
{
    let le = find_line_end(chars, i);
    if le < chars.len() {
        Some(le + 1)
    } else {
        None
    }
}

fn strip_cr_end(chars: &Vec<char>, start: usize, end: usize) -> (e: usize)
    requires
        start <= end <= chars.len(),
    ensures
        e == strip_cr(chars@, start as int, end as int),
{
    let mut e = end;
    while e > start && chars[e - 1] == '\r'
        invariant
            start <= e <= end,
            end <= chars.len(),
            strip_cr(chars@, start as int, end as int) == strip_cr(chars@, start as int, e as int),
        decreases e,
    {
        e = e - 1;
    }
    e
}

fn skip_white_space(chars: &Vec<char>, a: usize, b: usize) -> (k: usize)
    requires
        a <= b <= chars.len(),
    ensures
        k == skip_ws(chars@, a as int, b as int),
{
    let mut k = a;
    while k < b && is_white_space_char(chars[k])
        invariant
            a <= k <= b,
            b <= chars.len(),
            skip_ws(chars@, a as int, b as int) == skip_ws(chars@, k as int, b as int),
        decreases b - k,
    {
        k = k + 1;
    }
    k
}

fn trim_white_space_end(chars: &Vec<char>, a: usize, b: usize) -> (e: usize)
    requires
        a <= b <= chars.len(),
    ensures
        e == trim_end_at(chars@, a as int, b as int),
{
    let mut e = b;
    while e > a && is_white_space_char(chars[e - 1])
        invariant
            a <= e <= b,
            b <= chars.len(),
            trim_end_at(chars@, a as int, b as int) == trim_end_at(chars@, a as int, e as int),
        decreases e,
    {
        e = e - 1;
    }
    e
}

fn starts_with_sheet(chars: &Vec<char>, a: usize, b: usize) -> (m: bool)
    requires
        a <= b <= chars.len(),
    ensures
        m == starts_with_sheet_marker(chars@, a as int, b as int),
{
    b - a >= 6 && chars[a] == 's' && chars[a + 1] == 'h' && chars[a + 2] == 'e' && chars[a + 3]
        == 'e' && chars[a + 4] == 't' && chars[a + 5] == ':'
}

/// Whether the line starting at `i`, whose content ends at `ce`, is a fence
/// line.
fn fence_line(chars: &Vec<char>, i: usize, ce: usize) -> (f: bool)
    requires
        i <= ce <= chars.len(),
        ce == content_end(chars@, i as int),
    ensures
        f == is_fence_line(chars@, i as int),
{
    let a = skip_white_space(chars, i, ce);
    proof {
        lemma_skip_ws(chars@, i as int, ce as int);
    }
    ce - a >= 3 && chars[a] == '`' && chars[a + 1] == '`' && chars[a + 2] == '`'
}

/// Whether the line starting at `i`, whose content ends at `ce`, is a table
/// row.
fn table_line(chars: &Vec<char>, i: usize, ce: usize) -> (r: bool)
    requires
        i <= ce <= chars.len(),
        ce == content_end(chars@, i as int),
    ensures
        r == is_table_line(chars@, i as int),
{
    let a = skip_white_space(chars, i, ce);
    a < ce && chars[a] == '|'
}

/// Whether the line starting at `i`, whose content ends at `ce`, closes the
/// mode.
fn close_line(chars: &Vec<char>, i: usize, ce: usize) -> (c: bool)
    requires
        i <= ce <= chars.len(),
        ce == content_end(chars@, i as int),
    ensures
        c == is_close_line(chars@, i as int),
{
    let a = skip_white_space(chars, i, ce);
    proof {
        lemma_skip_ws(chars@, i as int, ce as int);
    }
    let b = trim_white_space_end(chars, a, ce);
    proof {
        lemma_trim_end_at(chars@, a as int, ce as int);
    }
    (b - a == 5 && chars[a] == '/' && chars[a + 1] == 'm' && chars[a + 2] == 'a' && chars[a + 3]
        == 't' && chars[a + 4] == 'h') || (b - a == 6 && chars[a] == '/' && chars[a + 1] == 's'
        && chars[a + 2] == 'h' && chars[a + 3] == 'e' && chars[a + 4] == 'e' && chars[a + 5]
        == 't')
}

/// Whether `chars[q]` starts a result appended to the statement that
/// starts at `a`, on a line whose text before any inline code ends at `t`.
fn starts_result(chars: &Vec<char>, a: usize, q: usize, t: usize) -> (r: bool)
    requires
        a <= q < t <= chars.len(),
    ensures
        r == appends_result(chars@, a as int, q as int, t as int),
{
    if chars[q] == '=' && (q == a || chars[q - 1] != ':') {
        let r = skip_white_space(chars, q + 1, t);
        r < t
    } else {
        false
    }
}

/// The end of the text of the statement that starts at `a` on a line whose
/// content ends at `ce`.
fn find_statement_end(chars: &Vec<char>, a: usize, ce: usize) -> (e: usize)
    requires
        a <= ce <= chars.len(),
    ensures
        e == statement_end(chars@, a as int, ce as int),
        a <= e <= ce,
{
    let ghost s = chars@;
    let mut t = a;
    while t < ce && chars[t] != '`'
        invariant
            a <= t <= ce <= chars.len(),
            s == chars@,
            tick_at(s, a as int, ce as int) == tick_at(s, t as int, ce as int),
        decreases ce - t,
    {
        t = t + 1;
    }
    let mut q = a;
    while q < t && !starts_result(chars, a, q, t)
        invariant
            a <= q <= t <= ce <= chars.len(),
            s == chars@,
            tick_at(s, a as int, ce as int) == t,
            result_at(s, a as int, a as int, t as int) == result_at(s, a as int, q as int, t as int),
        decreases t - q,
    {
        q = q + 1;
    }
    proof {
        lemma_statement_end(s, a as int, ce as int);
    }
    if q < ce {
        trim_white_space_end(chars, a, q)
    } else {
        ce
    }
}

fn starts_with_math_marker(chars: &Vec<char>, a: usize, b: usize) -> (m: bool)
    requires
        a <= b <= chars.len(),
    ensures
        m == starts_with_marker(chars@, a as int, b as int),
{
    b - a >= 5 && chars[a] == 'm' && chars[a + 1] == 'a' && chars[a + 2] == 't' && chars[a + 3]
        == 'h' && chars[a + 4] == ':'
}

/// Whether the trimmed line `chars[a..b]` is a list header `name:`.
fn parse_list_name(chars: &Vec<char>, a: usize, b: usize) -> (is_header: bool)
    requires
        a <= b <= chars.len(),
    ensures
        is_header == is_list_header(chars@, a as int, b as int),
{
    if b - a < 2 || chars[b - 1] != ':' || !is_name_start_char(chars[a]) {
        return false;
    }
    let mut k = a + 1;
    while k < b - 1
        invariant
            a < k <= b - 1,
            b - a >= 2,
            b <= chars.len(),
            forall|m: int| a < m < k ==> is_name_char(#[trigger] chars@[m]),
        decreases b - k,
    {
        if !is_name_char_char(chars[k]) {
            return false;
        }
        k = k + 1;
    }
    true
}

/// The range of the list item on the line `chars[j..end]`.
fn normalize_list_item(chars: &Vec<char>, j: usize, end: usize) -> (r: (usize, usize))
    requires
        j <= end <= chars.len(),
    ensures
        r.0 as int == item_range(chars@, j as int, end as int).0,
        r.1 as int == item_range(chars@, j as int, end as int).1,
        j <= r.0 <= r.1 <= end,
{
    let a = skip_white_space(chars, j, end);
    proof {
        lemma_skip_ws(chars@, j as int, end as int);
    }
    let b = trim_white_space_end(chars, a, end);
    proof {
        lemma_trim_end_at(chars@, a as int, end as int);
    }
    if b - a >= 2 && (chars[a] == '-' || chars[a] == '*') && chars[a + 1] == ' ' {
        let c = skip_white_space(chars, a + 2, b);
        proof {
            lemma_skip_ws(chars@, (a + 2) as int, b as int);
        }
        (c, b)
    } else {
        (a, b)
    }
}

/// The first index in `a..b` whose character is not white space, or `b`.
pub fn skip_white_space_in(chars: &Vec<char>, a: usize, b: usize) -> (k: usize)
    requires
        a <= b <= chars.len(),
    ensures
        k == skip_ws(chars@, a as int, b as int),
        a <= k <= b,
{
    proof {
        lemma_skip_ws(chars@, a as int, b as int);
    }
    skip_white_space(chars, a, b)
}

/// The end of `chars[a..b]` without its trailing white space.
pub fn trim_white_space_end_in(chars: &Vec<char>, a: usize, b: usize) -> (e: usize)
    requires
        a <= b <= chars.len(),
    ensures
        e == trim_end_at(chars@, a as int, b as int),
        a <= e <= b,
{
    proof {
        lemma_trim_end_at(chars@, a as int, b as int);
    }
    trim_white_space_end(chars, a, b)
}

fn append_range(buf: &mut Vec<char>, chars: &Vec<char>, a: usize, b: usize)
    requires
        a <= b <= chars.len(),
    ensures
        final(buf)@ == old(buf)@ + chars@.subrange(a as int, b as int),
{
    let mut k = a;
    while k < b
        invariant
            a <= k <= b <= chars.len(),
            buf@ == old(buf)@ + chars@.subrange(a as int, k as int),
        decreases b - k,
    {
        buf.push(chars[k]);
        proof {
            assert(chars@.subrange(a as int, k + 1) =~= chars@.subrange(a as int, k as int).push(
                chars@[k as int],
            ));
        }
        k = k + 1;
    }
}

/// The end of the list block whose first item line starts at `j`, and the
/// end of its last line.
fn find_list_block(chars: &Vec<char>, start: usize, last: usize) -> (r: (usize, usize))
    requires
        start <= chars.len(),
        last < start,
    ensures
        r.0 == list_block(chars@, start as int, last as int).0,
        r.1 == list_block(chars@, start as int, last as int).1,
{
    let mut j = start;
    let mut prev = last;
    loop
        invariant
            prev < j <= chars.len(),
            list_block(chars@, j as int, prev as int) == list_block(
                chars@,
                start as int,
                last as int,
            ),
        decreases chars.len() - j,
    {
        let le = find_line_end(chars, j);
        proof {
            lemma_line_end(chars@, j as int);
        }
        let ce = strip_cr_end(chars, j, le);
        proof {
            lemma_strip_cr(chars@, j as int, le as int);
        }
        let a = skip_white_space(chars, j, ce);
        if a >= ce {
            return (j, prev);
        }
        if le >= chars.len() {
            return (chars.len(), le);
        }
        prev = le;
        j = le + 1;
    }
}


/// `offsets` holds the byte offset of every character index of `chars`.
pub open spec fn offsets_of(chars: Seq<char>, offsets: Seq<usize>) -> bool {
    &&& offsets.len() == chars.len() + 1
    &&& forall|i: int| 0 <= i <= chars.len() ==> #[trigger] offsets[i] == byte_offset(chars, i)
}

proof fn lemma_views_push(statements: Seq<ExtractedStatement>, st: ExtractedStatement)
    ensures
        views(statements.push(st)) == views(statements) + seq![st@],
{
    assert(views(statements.push(st)) =~= views(statements) + seq![st@]);
}

fn text_of(chars: &Vec<char>, a: usize, b: usize) -> (text: String)
    requires
        a <= b <= chars.len(),
    ensures
        text@ == chars@.subrange(a as int, b as int),
{
    string_from_chars(vstd::slice::slice_subrange(chars.as_slice(), a, b))
}

/// Appends the statement that starts at `a` on a line whose content ends at
/// `ce`, shown from `d` on, if its text is not empty.
fn push_line_statement(
    statements: &mut Vec<ExtractedStatement>,
    chars: &Vec<char>,
    offsets: &Vec<usize>,
    a: usize,
    d: usize,
    ce: usize,
)
    requires
        offsets_of(chars@, offsets@),
        d <= a <= ce <= chars.len(),
    ensures
        views(final(statements)@) == views(old(statements)@) + line_statements(
            chars@,
            a as int,
            d as int,
            ce as int,
        ),
{
    let e = find_statement_end(chars, a, ce);
    if a >= e {
        assert(views(statements@) =~= views(old(statements)@) + line_statements(
            chars@,
            a as int,
            d as int,
            ce as int,
        ));
        return;
    }
    let st = ExtractedStatement {
        text: text_of(chars, a, e),
        source_span: Span::new(offsets[a], offsets[e]),
        display_span: Span::new(offsets[d], offsets[e]),
        insert_span: Span::new(offsets[e], offsets[e]),
    };
    proof {
        lemma_views_push(statements@, st);
    }
    statements.push(st);
}

fn push_marker_statement(
    statements: &mut Vec<ExtractedStatement>,
    chars: &Vec<char>,
    offsets: &Vec<usize>,
    i: usize,
    ce: usize,
)
    requires
        offsets_of(chars@, offsets@),
        i <= ce <= chars.len(),
        ce == content_end(chars@, i as int),
        starts_with_marker(chars@, i as int, ce as int),
    ensures
        views(final(statements)@) == views(old(statements)@) + marker_statements(chars@, i as int),
{
    let a = skip_white_space(chars, i + 5, ce);
    proof {
        lemma_skip_ws(chars@, (i + 5) as int, ce as int);
    }
    push_line_statement(statements, chars, offsets, a, i, ce);
}

fn push_math_statement(
    statements: &mut Vec<ExtractedStatement>,
    chars: &Vec<char>,
    offsets: &Vec<usize>,
    i: usize,
    ce: usize,
)
    requires
        offsets_of(chars@, offsets@),
        i <= ce <= chars.len(),
        ce == content_end(chars@, i as int),
    ensures
        views(final(statements)@) == views(old(statements)@) + math_statements(chars@, i as int),
{
    let a = skip_white_space(chars, i, ce);
    proof {
        lemma_skip_ws(chars@, i as int, ce as int);
    }
    push_line_statement(statements, chars, offsets, a, a, ce);
}

/// The list statement whose header line starts at `i`, and the start of
/// the line after its block, when that line opens a list block.
fn collect_list_statement(
    chars: &Vec<char>,
    offsets: &Vec<usize>,
    i: usize,
    ce: usize,
) -> (r: Option<(ExtractedStatement, usize)>)
    requires
        offsets_of(chars@, offsets@),
        i <= ce <= chars.len(),
        ce == content_end(chars@, i as int),
    ensures
        match r {
            Some((st, k)) => opens_list(chars@, i as int) && st@ == list_statement(chars@, i as int)
                && k == list_block(chars@, line_end(chars@, i as int) + 1, line_end(chars@, i as int)).0,
            None => !opens_list(chars@, i as int),
        },
{
    let ghost s = chars@;
    proof {
        lemma_line_end(s, i as int);
        lemma_strip_cr(s, i as int, line_end(s, i as int));
    }
    let a = skip_white_space(chars, i, ce);
    proof {
        lemma_skip_ws(s, i as int, ce as int);
    }
    if !parse_list_name(chars, a, ce) {
        return None;
    }
    let next = match next_line_offset(chars, i) {
        None => {
            return None;
        },
        Some(next) => next,
    };
    let le = next - 1;
    let (k, e) = find_list_block(chars, next, le);
    proof {
        lemma_list_block(s, next as int, le as int);
    }
    let mut buf: Vec<char> = Vec::new();
    append_range(&mut buf, chars, a, ce - 1);
    buf.push(' ');
    buf.push(':');
    buf.push('=');
    buf.push(' ');
    buf.push('[');
    let ghost prefix = buf@;
    assert(prefix =~= s.subrange(a as int, ce - 1) + seq![' ', ':', '=', ' ', '[']);
    let mut j = le + 1;
    let mut first = true;
    while j < k
        invariant
            offsets_of(chars@, offsets@),
            s == chars@,
            le < j <= k <= chars.len(),
            buf@ + joined_items(s, j as int, k as int, first) == prefix + joined_items(
                s,
                le + 1,
                k as int,
                true,
            ),
        decreases k - j,
    {
        let jl = find_line_end(chars, j);
        proof {
            lemma_line_end(s, j as int);
        }
        let jc = strip_cr_end(chars, j, jl);
        proof {
            lemma_strip_cr(s, j as int, jl as int);
        }
        let (x, y) = normalize_list_item(chars, j, jc);
        let ghost before = buf@;
        if !first {
            buf.push(',');
            buf.push(' ');
        }
        append_range(&mut buf, chars, x, y);
        let ghost sep = if first {
            Seq::<char>::empty()
        } else {
            seq![',', ' ']
        };
        assert(jc == content_end(s, j as int));
        assert(item_text(s, j as int) == s.subrange(x as int, y as int));
        assert(buf@ =~= before + sep + item_text(s, j as int));
        if jl >= k {
            assert(joined_items(s, j as int, k as int, first) == sep + item_text(s, j as int));
            assert(buf@ + joined_items(s, k as int, k as int, false) =~= buf@);
            j = k;
        } else {
            assert(buf@ + joined_items(s, jl + 1, k as int, false) =~= before + joined_items(
                s,
                j as int,
                k as int,
                first,
            ));
            j = jl + 1;
        }
        first = false;
    }
    assert(joined_items(s, j as int, k as int, first) =~= Seq::<char>::empty());
    buf.push(']');
    let text = string_from_chars(buf.as_slice());
    let st = ExtractedStatement {
        text,
        source_span: Span::new(offsets[a], offsets[e]),
        display_span: Span::new(offsets[a], offsets[e]),
        insert_span: Span::new(offsets[e], offsets[e]),
    };
    assert(st@.text =~= list_statement(s, i as int).text);
    Some((st, k))
}

/// The statements of the `math:` and `sheet:` blocks of `text`, in
/// document order.
pub fn extract_statements(text: &str) -> (statements: Vec<ExtractedStatement>)
    ensures
        views(statements@) == extracted(text@),
{
    let chars = chars_of(text);
    let ghost s = chars@;
    let _ = byte_length(text);
    let offsets = byte_offsets(&chars);
    let mut statements: Vec<ExtractedStatement> = Vec::new();
    let mut in_mode = false;
    let mut tables = false;
    let mut fence = false;
    let mut i: usize = 0;
    assert(views(statements@) =~= Seq::<StatementView>::empty());
    loop
        invariant_except_break
            i <= chars.len(),
            views(statements@) + scan(s, i as int, in_mode, tables, fence) == extracted(s),
        invariant
            s == chars@,
            offsets_of(chars@, offsets@),
        ensures
            views(statements@) == extracted(s),
        decreases chars.len() - i,
    {
        let le = find_line_end(&chars, i);
        proof {
            lemma_line_end(s, i as int);
        }
        let ce = strip_cr_end(&chars, i, le);
        proof {
            lemma_strip_cr(s, i as int, le as int);
        }
        let fence_here = fence_line(&chars, i, ce);
        let math = starts_with_math_marker(&chars, i, ce);
        let sheet = starts_with_sheet(&chars, i, ce);
        if fence || fence_here {
            fence = fence != fence_here;
        } else if math {
            push_marker_statement(&mut statements, &chars, &offsets, i, ce);
            in_mode = true;
            tables = false;
        } else if sheet {
            in_mode = true;
            tables = true;
        } else if in_mode {
            if close_line(&chars, i, ce) {
                in_mode = false;
            } else if tables && table_line(&chars, i, ce) {
            } else {
                if let Some((st, k)) = collect_list_statement(&chars, &offsets, i, ce) {
                    proof {
                        lemma_list_block(s, le + 1, le as int);
                        lemma_views_push(statements@, st);
                    }
                    statements.push(st);
                    fence = false;
                    i = k;
                    continue;
                }
                push_math_statement(&mut statements, &chars, &offsets, i, ce);
            }
        }
        if le >= chars.len() {
            assert(views(statements@) =~= extracted(s));
            break;
        }
        i = le + 1;
    }
    statements
}

// ---------------------------------------------------------------------------
// Laws.
/// `j` is where a line starts.
pub open spec fn is_line_start(s: Seq<char>, j: int) -> bool {
    0 <= j <= s.len() && (j == 0 || s[j - 1] == '\n')
}

/// The line starting at `j` starts with `math:` or `sheet:`.
pub open spec fn is_marker_line(s: Seq<char>, j: int) -> bool {
    starts_with_marker(s, j, content_end(s, j)) || starts_with_sheet_marker(s, j, content_end(s, j))
}

proof fn lemma_scan_without_marker(s: Seq<char>, i: int, tables: bool, fence: bool)
    requires
        is_line_start(s, i),
        forall|j: int| #[trigger] is_line_start(s, j) && j >= i ==> !is_marker_line(s, j),
    ensures
        scan(s, i, false, tables, fence) == Seq::<StatementView>::empty(),
    decreases s.len() - i,
{
    lemma_line_end(s, i);
    let le = line_end(s, i);
    assert(!is_marker_line(s, i));
    if le < s.len() {
        assert(is_line_start(s, le + 1));
        lemma_scan_without_marker(s, le + 1, tables, fence != is_fence_line(s, i));
    }
}

/// Text outside the calculation modes is ignored: a document without a
/// line that starts with `math:` or `sheet:` has no statements.
pub proof fn law_no_marker_no_statements(s: Seq<char>)
    requires
        forall|j: int| #[trigger] is_line_start(s, j) ==> !is_marker_line(s, j),
    ensures
        extracted(s) == Seq::<StatementView>::empty(),
{
    assert(is_line_start(s, 0));
    lemma_scan_without_marker(s, 0, false, false);
}

proof fn lemma_scan_skips_to(s: Seq<char>, i: int, m: int)
    requires
        is_line_start(s, i),
        is_line_start(s, m),
        i <= m,
        forall|j: int| #[trigger] is_line_start(s, j) && i <= j < m ==> !is_marker_line(s, j)
            && !is_fence_line(s, j),
    ensures
        scan(s, i, false, false, false) == scan(s, m, false, false, false),
    decreases m - i,
{
    if i < m {
        lemma_line_end(s, i);
        let le = line_end(s, i);
        assert(le <= m - 1) by {
            if le > m - 1 {
                assert(s[m - 1] != '\n');
            }
        }
        assert(is_line_start(s, i));
        assert(scan(s, i, false, false, false) == scan(s, le + 1, false, false, false)) by {
            assert(!is_marker_line(s, i) && !is_fence_line(s, i));
        }
        assert(is_line_start(s, le + 1));
        lemma_scan_skips_to(s, le + 1, m);
    }
}

/// Everything before the first line that starts with `math:` or `sheet:`
/// is ignored: when no line before `m` is such a marker or a code fence,
/// the statements of the document are those found from line `m` on.
pub proof fn law_text_before_marker_ignored(s: Seq<char>, m: int)
    requires
        is_line_start(s, m),
        forall|j: int| #[trigger] is_line_start(s, j) && j < m ==> !is_marker_line(s, j)
            && !is_fence_line(s, j),
    ensures
        extracted(s) == scan(s, m, false, false, false),
{
    assert(is_line_start(s, 0));
    lemma_scan_skips_to(s, 0, m);
}

/// The spans of a statement lie in `lo..=hi`, the display span starts no
/// later than the source span and both end where the insertion point is.
pub open spec fn well_placed(st: StatementView, lo: int, hi: int) -> bool {
    &&& lo <= st.display_span.start <= st.source_span.start <= st.source_span.end <= hi
    &&& st.display_span.end == st.source_span.end
    &&& st.insert_span.start == st.source_span.end
    &&& st.insert_span.end == st.source_span.end
}

/// Each statement ends before the next one starts.
pub open spec fn in_order(sts: Seq<StatementView>) -> bool {
    forall|k: int, l: int| 0 <= k < l < sts.len() ==> #[trigger] sts[k].source_span.end < #[trigger] sts[l].display_span.start
}

pub open spec fn all_placed(sts: Seq<StatementView>, lo: int, hi: int) -> bool {
    forall|k: int| 0 <= k < sts.len() ==> well_placed(#[trigger] sts[k], lo, hi)
}

proof fn lemma_at(s: Seq<char>, i: int)
    requires
        0 <= i <= s.len(),
        byte_len(s) <= usize::MAX,
    ensures
        at(s, i) as int == byte_offset(s, i),
        at(s, i) <= byte_len(s),
{
    lemma_byte_offset_bounded(s, i);
}

proof fn lemma_at_lt(s: Seq<char>, i: int, j: int)
    requires
        0 <= i < j <= s.len(),
        byte_len(s) <= usize::MAX,
    ensures
        at(s, i) < at(s, j),
{
    lemma_at(s, i);
    lemma_at(s, j);
    crate::chars::lemma_byte_offset_grows(s, i, j);
}

proof fn lemma_at_le(s: Seq<char>, i: int, j: int)
    requires
        0 <= i <= j <= s.len(),
        byte_len(s) <= usize::MAX,
    ensures
        at(s, i) <= at(s, j),
{
    lemma_at(s, i);
    lemma_at(s, j);
    crate::chars::lemma_byte_offset_grows(s, i, j);
}

proof fn lemma_concat_ordered(a: Seq<StatementView>, b: Seq<StatementView>, lo: int, mid: int, hi: int)
    requires
        lo <= mid <= hi,
        all_placed(a, lo, mid),
        in_order(a),
        all_placed(b, mid + 1, hi),
        in_order(b),
    ensures
        all_placed(a + b, lo, hi),
        in_order(a + b),
{
    assert forall|k: int| 0 <= k < (a + b).len() implies well_placed(#[trigger] (a + b)[k], lo, hi) by {
        if k < a.len() {
            assert((a + b)[k] == a[k]);
            assert(well_placed(a[k], lo, mid));
        } else {
            assert((a + b)[k] == b[k - a.len()]);
            assert(well_placed(b[k - a.len()], mid + 1, hi));
        }
    }
    assert forall|k: int, l: int| 0 <= k < l < (a + b).len() implies #[trigger] (a + b)[k].source_span.end
        < #[trigger] (a + b)[l].display_span.start by {
        if l < a.len() {
            assert((a + b)[k] == a[k] && (a + b)[l] == a[l]);
        } else if k >= a.len() {
            assert((a + b)[k] == b[k - a.len()] && (a + b)[l] == b[l - a.len()]);
        } else {
            assert((a + b)[k] == a[k] && (a + b)[l] == b[l - a.len()]);
            assert(well_placed(a[k], lo, mid));
            assert(well_placed(b[l - a.len()], mid + 1, hi));
        }
    }
}

proof fn lemma_line_statements_placed(s: Seq<char>, a: int, d: int, ce: int)
    requires
        0 <= d <= a <= ce <= s.len(),
        byte_len(s) <= usize::MAX,
    ensures
        all_placed(line_statements(s, a, d, ce), at(s, d) as int, at(s, ce) as int),
        in_order(line_statements(s, a, d, ce)),
{
    lemma_statement_end(s, a, ce);
    let e = statement_end(s, a, ce);
    lemma_at_le(s, d, a);
    lemma_at_le(s, a, e);
    lemma_at_le(s, e, ce);
}

/// The statements found on the line starting at `i`, outside a list block.
pub open spec fn line_here(s: Seq<char>, i: int, in_mode: bool, tables: bool, fence: bool) -> Seq<StatementView> {
    let ce = content_end(s, i);
    let code = fence || is_fence_line(s, i);
    let math = starts_with_marker(s, i, ce);
    let sheet = starts_with_sheet_marker(s, i, ce);
    let plain = !code && !math && !sheet && in_mode && !is_close_line(s, i) && !(tables
        && is_table_line(s, i));
    if code {
        Seq::empty()
    } else if math {
        marker_statements(s, i)
    } else if plain {
        math_statements(s, i)
    } else {
        Seq::empty()
    }
}

proof fn lemma_line_here_placed(s: Seq<char>, i: int, in_mode: bool, tables: bool, fence: bool)
    requires
        0 <= i <= s.len(),
        byte_len(s) <= usize::MAX,
    ensures
        all_placed(line_here(s, i, in_mode, tables, fence), at(s, i) as int, at(s, content_end(s, i)) as int),
        in_order(line_here(s, i, in_mode, tables, fence)),
{
    lemma_line_end(s, i);
    lemma_strip_cr(s, i, line_end(s, i));
    let ce = content_end(s, i);
    lemma_at_le(s, i, ce);
    if !(fence || is_fence_line(s, i)) {
        if starts_with_marker(s, i, ce) {
            lemma_skip_ws(s, i + 5, ce);
            lemma_line_statements_placed(s, skip_ws(s, i + 5, ce), i, ce);
        } else {
            lemma_skip_ws(s, i, ce);
            let a = skip_ws(s, i, ce);
            lemma_line_statements_placed(s, a, a, ce);
            lemma_at_le(s, i, a);
        }
    }
}

proof fn lemma_scan_placed(s: Seq<char>, i: int, in_mode: bool, tables: bool, fence: bool)
    requires
        0 <= i <= s.len(),
        byte_len(s) <= usize::MAX,
    ensures
        all_placed(scan(s, i, in_mode, tables, fence), at(s, i) as int, at(s, s.len() as int) as int),
        in_order(scan(s, i, in_mode, tables, fence)),
    decreases s.len() - i,
{
    lemma_line_end(s, i);
    let le = line_end(s, i);
    lemma_strip_cr(s, i, le);
    let ce = content_end(s, i);
    lemma_at_le(s, i, ce);
    lemma_at_le(s, ce, s.len() as int);
    let code = fence || is_fence_line(s, i);
    let math = starts_with_marker(s, i, ce);
    let sheet = starts_with_sheet_marker(s, i, ce);
    let plain = !code && !math && !sheet && in_mode && !is_close_line(s, i) && !(tables
        && is_table_line(s, i));
    if plain && opens_list(s, i) {
        let block = list_block(s, le + 1, le);
        let k = block.0;
        let e = block.1;
        lemma_list_block(s, le + 1, le);
        lemma_skip_ws(s, i, ce);
        let a = skip_ws(s, i, ce);
        lemma_at_le(s, i, a);
        lemma_at_le(s, a, e);
        lemma_at_le(s, e, s.len() as int);
        let here = seq![list_statement(s, i)];
        let rest = scan(s, k, true, tables, false);
        lemma_scan_placed(s, k, true, tables, false);
        if k < s.len() || e < k {
            if e < k {
                lemma_at_lt(s, e, k);
            }
            lemma_concat_ordered(here, rest, at(s, i) as int, at(s, e) as int, at(s, s.len() as int) as int);
        } else {
            assert(rest =~= Seq::<StatementView>::empty());
            lemma_concat_ordered(here, rest, at(s, i) as int, at(s, e) as int, at(s, s.len() as int) as int);
        }
        assert(scan(s, i, in_mode, tables, fence) == here + rest);
    } else {
        let here = line_here(s, i, in_mode, tables, fence);
        lemma_line_here_placed(s, i, in_mode, tables, fence);
        let mode = if code {
            in_mode
        } else {
            math || sheet || (in_mode && !is_close_line(s, i))
        };
        let next_fence = fence != is_fence_line(s, i);
        let tables_after = next_tables(s, i, tables, fence);
        if le < s.len() {
            let rest = scan(s, le + 1, mode, tables_after, next_fence);
            lemma_scan_placed(s, le + 1, mode, tables_after, next_fence);
            lemma_at_le(s, ce, le);
            lemma_at_lt(s, le, le + 1);
            lemma_concat_ordered(here, rest, at(s, i) as int, at(s, ce) as int, at(s, s.len() as int) as int);
            assert(scan(s, i, in_mode, tables, fence) == here + rest);
        } else {
            assert(scan(s, i, in_mode, tables, fence) == here);
        }
    }
}

/// The statements of a document come in document order: each lies within
/// the text, and each ends before the next one starts.
pub proof fn law_statements_in_order(s: Seq<char>)
    requires
        byte_len(s) <= usize::MAX,
    ensures
        all_placed(extracted(s), 0, byte_len(s) as int),
        in_order(extracted(s)),
{
    lemma_scan_placed(s, 0, false, false, false);
    lemma_at(s, 0);
    lemma_at(s, s.len() as int);
    crate::chars::lemma_byte_offset_bounded(s, 0);
    assert(s.take(0) =~= Seq::<char>::empty());
}

/// `offset` is the byte offset of a character index of `s`, or of its end.
pub open spec fn at_char(s: Seq<char>, offset: usize) -> bool {
    exists|c: int| 0 <= c <= s.len() && at(s, c) == offset
}

/// Every end of every span of `st` is the byte offset of a character index.
pub open spec fn on_chars(s: Seq<char>, st: StatementView) -> bool {
    &&& at_char(s, st.source_span.start)
    &&& at_char(s, st.source_span.end)
    &&& at_char(s, st.display_span.start)
    &&& at_char(s, st.display_span.end)
    &&& at_char(s, st.insert_span.start)
    &&& at_char(s, st.insert_span.end)
}

pub open spec fn all_on_chars(s: Seq<char>, sts: Seq<StatementView>) -> bool {
    forall|k: int| 0 <= k < sts.len() ==> on_chars(s, #[trigger] sts[k])
}

proof fn lemma_all_on_chars_concat(s: Seq<char>, a: Seq<StatementView>, b: Seq<StatementView>)
    requires
        all_on_chars(s, a),
        all_on_chars(s, b),
    ensures
        all_on_chars(s, a + b),
{
    assert forall|k: int| 0 <= k < (a + b).len() implies on_chars(s, #[trigger] (a + b)[k]) by {
        if k < a.len() {
            assert((a + b)[k] == a[k]);
        } else {
            assert((a + b)[k] == b[k - a.len()]);
        }
    }
}

proof fn lemma_line_here_on_chars(s: Seq<char>, i: int, in_mode: bool, tables: bool, fence: bool)
    requires
        0 <= i <= s.len(),
    ensures
        all_on_chars(s, line_here(s, i, in_mode, tables, fence)),
{
    lemma_line_end(s, i);
    lemma_strip_cr(s, i, line_end(s, i));
    let ce = content_end(s, i);
    if !(fence || is_fence_line(s, i)) {
        let a = if starts_with_marker(s, i, ce) {
            skip_ws(s, i + 5, ce)
        } else {
            skip_ws(s, i, ce)
        };
        if starts_with_marker(s, i, ce) {
            lemma_skip_ws(s, i + 5, ce);
        } else {
            lemma_skip_ws(s, i, ce);
        }
        lemma_statement_end(s, a, ce);
        let e = statement_end(s, a, ce);
        assert(at_char(s, at(s, a)));
        assert(at_char(s, at(s, e)));
        assert(at_char(s, at(s, i)));
    }
}

proof fn lemma_scan_on_chars(s: Seq<char>, i: int, in_mode: bool, tables: bool, fence: bool)
    requires
        0 <= i <= s.len(),
    ensures
        all_on_chars(s, scan(s, i, in_mode, tables, fence)),
    decreases s.len() - i,
{
    lemma_line_end(s, i);
    let le = line_end(s, i);
    lemma_strip_cr(s, i, le);
    let ce = content_end(s, i);
    let code = fence || is_fence_line(s, i);
    let math = starts_with_marker(s, i, ce);
    let sheet = starts_with_sheet_marker(s, i, ce);
    let plain = !code && !math && !sheet && in_mode && !is_close_line(s, i) && !(tables
        && is_table_line(s, i));
    if plain && opens_list(s, i) {
        let block = list_block(s, le + 1, le);
        lemma_list_block(s, le + 1, le);
        lemma_skip_ws(s, i, ce);
        let a = skip_ws(s, i, ce);
        assert(at_char(s, at(s, a)));
        assert(at_char(s, at(s, block.1)));
        let here = seq![list_statement(s, i)];
        assert(on_chars(s, here[0]));
        let k = block.0;
        if i < k <= s.len() {
            lemma_scan_on_chars(s, k, true, tables, false);
            lemma_all_on_chars_concat(s, here, scan(s, k, true, tables, false));
        }
    } else {
        let here = line_here(s, i, in_mode, tables, fence);
        lemma_line_here_on_chars(s, i, in_mode, tables, fence);
        let mode = if code {
            in_mode
        } else {
            math || sheet || (in_mode && !is_close_line(s, i))
        };
        let next_fence = fence != is_fence_line(s, i);
        let tables_after = next_tables(s, i, tables, fence);
        if i <= le < s.len() {
            lemma_scan_on_chars(s, le + 1, mode, tables_after, next_fence);
            lemma_all_on_chars_concat(s, here, scan(s, le + 1, mode, tables_after, next_fence));
        }
    }
}

/// Every span of every statement of a document starts and ends on a
/// character boundary of the document.
pub proof fn law_statements_on_chars(s: Seq<char>)
    ensures
        all_on_chars(s, extracted(s)),
{
    lemma_scan_on_chars(s, 0, false, false, false);
}

/// `t` is not blank: it starts with a character that is not white space.
pub open spec fn starts_non_blank(t: Seq<char>) -> bool {
    t.len() > 0 && !is_white_space(t[0])
}

/// The text of `st` is not blank, and it is either the part of the document
/// that its source span covers or `st` is the list statement of the list
/// header line at some `i`.
pub open spec fn text_from_source(s: Seq<char>, st: StatementView) -> bool {
    &&& starts_non_blank(st.text)
    &&& {
        ||| exists|a: int, b: int|
            #![trigger s.subrange(a, b)]
            0 <= a < b <= s.len() && st.text == s.subrange(a, b) && st.source_span == span_of(
                s,
                a,
                b,
            )
        ||| exists|i: int| 0 <= i <= s.len() && #[trigger] opens_list(s, i) && st == list_statement(s, i)
    }
}

pub open spec fn all_from_source(s: Seq<char>, sts: Seq<StatementView>) -> bool {
    forall|k: int| 0 <= k < sts.len() ==> text_from_source(s, #[trigger] sts[k])
}

proof fn lemma_all_from_source_concat(s: Seq<char>, a: Seq<StatementView>, b: Seq<StatementView>)
    requires
        all_from_source(s, a),
        all_from_source(s, b),
    ensures
        all_from_source(s, a + b),
{
    assert forall|k: int| 0 <= k < (a + b).len() implies text_from_source(s, #[trigger] (a + b)[k]) by {
        if k < a.len() {
            assert((a + b)[k] == a[k]);
        } else {
            assert((a + b)[k] == b[k - a.len()]);
        }
    }
}

proof fn lemma_line_here_from_source(s: Seq<char>, i: int, in_mode: bool, tables: bool, fence: bool)
    requires
        0 <= i <= s.len(),
    ensures
        all_from_source(s, line_here(s, i, in_mode, tables, fence)),
{
    lemma_line_end(s, i);
    lemma_strip_cr(s, i, line_end(s, i));
    let ce = content_end(s, i);
    if !(fence || is_fence_line(s, i)) {
        let a = if starts_with_marker(s, i, ce) {
            skip_ws(s, i + 5, ce)
        } else {
            skip_ws(s, i, ce)
        };
        if starts_with_marker(s, i, ce) {
            lemma_skip_ws(s, i + 5, ce);
        } else {
            lemma_skip_ws(s, i, ce);
        }
        lemma_statement_end(s, a, ce);
        let e = statement_end(s, a, ce);
        let here = line_here(s, i, in_mode, tables, fence);
        if here.len() > 0 {
            assert(here[0].text == s.subrange(a, e));
            assert(here[0].text[0] == s[a]);
            assert(text_from_source(s, here[0]));
        }
    }
}

proof fn lemma_scan_from_source(s: Seq<char>, i: int, in_mode: bool, tables: bool, fence: bool)
    requires
        0 <= i <= s.len(),
    ensures
        all_from_source(s, scan(s, i, in_mode, tables, fence)),
    decreases s.len() - i,
{
    lemma_line_end(s, i);
    let le = line_end(s, i);
    lemma_strip_cr(s, i, le);
    let ce = content_end(s, i);
    let code = fence || is_fence_line(s, i);
    let math = starts_with_marker(s, i, ce);
    let sheet = starts_with_sheet_marker(s, i, ce);
    let plain = !code && !math && !sheet && in_mode && !is_close_line(s, i) && !(tables
        && is_table_line(s, i));
    if plain && opens_list(s, i) {
        let block = list_block(s, le + 1, le);
        lemma_skip_ws(s, i, ce);
        let a = skip_ws(s, i, ce);
        let st = list_statement(s, i);
        assert(st.text[0] == s[a]);
        assert(text_from_source(s, st));
        let here = seq![st];
        let k = block.0;
        if i < k <= s.len() {
            lemma_scan_from_source(s, k, true, tables, false);
            lemma_all_from_source_concat(s, here, scan(s, k, true, tables, false));
        }
    } else {
        let here = line_here(s, i, in_mode, tables, fence);
        lemma_line_here_from_source(s, i, in_mode, tables, fence);
        let mode = if code {
            in_mode
        } else {
            math || sheet || (in_mode && !is_close_line(s, i))
        };
        let next_fence = fence != is_fence_line(s, i);
        let tables_after = next_tables(s, i, tables, fence);
        if i <= le < s.len() {
            lemma_scan_from_source(s, le + 1, mode, tables_after, next_fence);
            lemma_all_from_source_concat(s, here, scan(s, le + 1, mode, tables_after, next_fence));
        }
    }
}

/// Every statement of a document has a text that is not blank, and that
/// text is either exactly the document text its source span covers or, for
/// a list block, the `name := [item, ...]` statement of its header line.
pub proof fn law_statement_texts(s: Seq<char>)
    ensures
        all_from_source(s, extracted(s)),
{
    lemma_scan_from_source(s, 0, false, false, false);
}

proof fn lemma_trim_end_last(s: Seq<char>, a: int, b: int)
    requires
        a <= b,
    ensures
        trim_end_at(s, a, b) > a ==> !is_white_space(s[trim_end_at(s, a, b) - 1]),
    decreases b - a,
{
    if b > a && is_white_space(s[b - 1]) {
        lemma_trim_end_last(s, a, b - 1);
    }
}

/// `s[a..b]` starts with a `- ` or `* ` bullet.
pub open spec fn starts_with_bullet(s: Seq<char>, a: int, b: int) -> bool {
    b - a >= 2 && (s[a] == '-' || s[a] == '*') && s[a + 1] == ' '
}

/// A list item is its line without white space at either end, and without
/// one leading `- ` or `* ` bullet (and the white space after it): the item
/// neither starts nor ends with white space, and at most one bullet goes.
pub proof fn law_list_item_trimmed(s: Seq<char>, j: int, end: int)
    requires
        0 <= j <= end <= s.len(),
    ensures
        ({
            let r = item_range(s, j, end);
            let a = skip_ws(s, j, end);
            let b = trim_end_at(s, a, end);
            &&& j <= r.0 <= r.1 <= end
            &&& r.0 < r.1 ==> !is_white_space(s[r.0]) && !is_white_space(s[r.1 - 1])
            &&& s.subrange(r.0, r.1) == if starts_with_bullet(s, a, b) {
                s.subrange(skip_ws(s, a + 2, b), b)
            } else {
                s.subrange(a, b)
            }
        }),
{
    let a = skip_ws(s, j, end);
    lemma_skip_ws(s, j, end);
    let b = trim_end_at(s, a, end);
    lemma_trim_end_at(s, a, end);
    lemma_trim_end_last(s, a, end);
    if starts_with_bullet(s, a, b) {
        lemma_skip_ws(s, a + 2, b);
    }
}

/// `c` is an ASCII letter.
pub open spec fn ascii_letter(c: char) -> bool {
    ('a' <= c && c <= 'z') || ('A' <= c && c <= 'Z')
}

/// `s[a..b]` is an identifier: an ASCII letter or `_`, then ASCII letters,
/// digits or `_`.
pub open spec fn is_identifier(s: Seq<char>, a: int, b: int) -> bool {
    &&& a < b
    &&& ascii_letter(s[a]) || s[a] == '_'
    &&& forall|k: int| a < k < b ==> ascii_letter(#[trigger] s[k]) || ('0' <= s[k] && s[k] <= '9') || s[k] == '_'
}

/// In a mode, a line that holds an identifier and `:` (after any leading
/// white space) and is followed by another line opens a list block: its
/// statements start with the list statement of that line, and go on after
/// the block.
pub proof fn law_identifier_line_opens_list(s: Seq<char>, i: int, tables: bool)
    requires
        0 <= i <= s.len(),
        line_end(s, i) < s.len(),
        !is_marker_line(s, i),
        ({
            let ce = content_end(s, i);
            let a = skip_ws(s, i, ce);
            ce >= 1 && s[ce - 1] == ':' && is_identifier(s, a, ce - 1)
        }),
    ensures
        scan(s, i, true, tables, false) == seq![list_statement(s, i)] + scan(
            s,
            list_block(s, line_end(s, i) + 1, line_end(s, i)).0,
            true,
            tables,
            false,
        ),
{
    lemma_line_end(s, i);
    let le = line_end(s, i);
    lemma_strip_cr(s, i, le);
    let ce = content_end(s, i);
    lemma_skip_ws(s, i, ce);
    let a = skip_ws(s, i, ce);
    assert(is_list_header(s, a, ce));
    assert(opens_list(s, i));
    assert(!is_fence_line(s, i));
    assert(!is_close_line(s, i));
    assert(!is_table_line(s, i));
    lemma_list_block(s, le + 1, le);
}

/// A list block whose first item line starts at `j` runs to the first
/// blank line: every line it holds is not blank, and it ends at the end of
/// the text or at a line that is blank.
pub proof fn law_list_block_lines(s: Seq<char>, j: int, prev: int)
    requires
        0 <= prev < j <= s.len(),
        is_line_start(s, j),
    ensures
        ({
            let k = list_block(s, j, prev).0;
            &&& j <= k <= s.len()
            &&& forall|m: int|
                #[trigger] is_line_start(s, m) && j <= m < k ==> !is_blank(s, m, content_end(s, m))
            &&& k == s.len() || (is_line_start(s, k) && is_blank(s, k, content_end(s, k)))
        }),
    decreases s.len() - j,
{
    lemma_line_end(s, j);
    lemma_list_block(s, j, prev);
    let le = line_end(s, j);
    if !is_blank(s, j, content_end(s, j)) && le < s.len() {
        law_list_block_lines(s, le + 1, le);
        let k = list_block(s, j, prev).0;
        assert forall|m: int| #[trigger] is_line_start(s, m) && j <= m < k implies !is_blank(
            s,
            m,
            content_end(s, m),
        ) by {
            if m > j {
                if m <= le {
                    assert(s[m - 1] != '\n');
                }
            }
        }
        assert(is_line_start(s, le + 1));
    }
}

} // verus!
