//! Byte spans and editor positions.
//!
//! An editor position is a line number and, within the line, a count of
//! UTF-16 code units. Offsets into a text are byte offsets.
use crate::chars::{
    byte_len, byte_length, byte_offset, byte_offsets, chars_of, lemma_byte_offset_bounded,
    lemma_byte_offset_grows, lemma_byte_offset_step, lemma_utf16_take_step, string_from_chars,
    utf16_len, utf16_width, utf16_width_of,
};
use crate::markdown::{lemma_line_end, line_end};
use vstd::prelude::*;

verus! {

/// A half-open-by-convention byte range `start..end` in a source text.
/// `contains` treats both ends as inside.
#[derive(Clone, Copy, Debug, PartialEq, Eq, Structural)]
pub struct Span {
    pub start: usize,
    pub end: usize,
}

pub open spec fn min_usize(a: usize, b: usize) -> usize {
    if a <= b { a } else { b }
}

pub open spec fn max_usize(a: usize, b: usize) -> usize {
    if a >= b { a } else { b }
}

impl Span {
    pub fn new(start: usize, end: usize) -> (span: Span)
        ensures
            span.start == start,
            span.end == end,
    {
        Span { start, end }
    }

    pub open spec fn spec_contains(self, offset: int) -> bool {
        self.start <= offset <= self.end
    }

    pub fn contains(&self, offset: usize) -> (inside: bool)
        ensures
            inside == self.spec_contains(offset as int),
    {
        self.start <= offset && offset <= self.end
    }

    pub open spec fn spec_cover(self, other: Span) -> Span {
        Span { start: min_usize(self.start, other.start), end: max_usize(self.end, other.end) }
    }

    pub fn cover(self, other: Span) -> (covered: Span)
        ensures
            covered == self.spec_cover(other),
    {
        let start = if self.start <= other.start { self.start } else { other.start };
        let end = if self.end >= other.end { self.end } else { other.end };
        Span::new(start, end)
    }
}

/// Covering two spans does not depend on their order.
pub proof fn law_cover_commutes(a: Span, b: Span)
    ensures
        a.spec_cover(b) == b.spec_cover(a),
{
}

/// Every offset inside either span is inside the span that covers both.
pub proof fn law_cover_contains_both(a: Span, b: Span, offset: int)
    requires
        a.spec_contains(offset) || b.spec_contains(offset),
    ensures
        a.spec_cover(b).spec_contains(offset),
{
}


/// A position in a text: a line number, and a count of UTF-16 code units
/// from the start of the line.
#[derive(Clone, Copy, Debug, PartialEq, Eq, Structural)]
pub struct Position {
    pub line: u32,
    pub character: u32,
}

#[derive(Clone, Copy, Debug, PartialEq, Eq, Structural)]
pub struct Range {
    pub start: Position,
    pub end: Position,
}

/// An edit of a text: the text that replaces a range, or the whole text.
#[derive(Clone, Debug)]
pub struct ContentChange {
    pub range: Option<Range>,
    pub text: String,
}

/// How many line breaks come before character index `c`.
pub open spec fn newlines(s: Seq<char>, c: int) -> nat
    decreases c,
{
    if c <= 0 {
        0
    } else {
        newlines(s, c - 1) + if s[c - 1] == '\n' {
            1nat
        } else {
            0nat
        }
    }
}

/// The start of the line that holds character index `c`.
pub open spec fn line_start(s: Seq<char>, c: int) -> int
    decreases c,
{
    if c <= 0 {
        0
    } else if s[c - 1] == '\n' {
        c
    } else {
        line_start(s, c - 1)
    }
}

/// The position of character index `c`.
pub open spec fn position_at(s: Seq<char>, c: int) -> Position {
    Position {
        line: newlines(s, c) as u32,
        character: utf16_len(s.subrange(line_start(s, c), c)) as u32,
    }
}

/// The first character index whose byte offset is at least `offset`,
/// searching from `c` on.
pub open spec fn index_at_offset(s: Seq<char>, offset: int, c: int) -> int
    decreases s.len() - c,
{
    if c < 0 || c >= s.len() || byte_offset(s, c) >= offset {
        c
    } else {
        index_at_offset(s, offset, c + 1)
    }
}

/// `offset` is the byte offset of a character, or the end of the text.
pub open spec fn is_boundary(s: Seq<char>, offset: int) -> bool {
    byte_offset(s, index_at_offset(s, offset, 0)) == offset
}

pub open spec fn clamp(offset: usize, s: Seq<char>) -> int {
    if offset <= byte_len(s) {
        offset as int
    } else {
        byte_len(s) as int
    }
}

/// The position of the byte `offset` (clamped to the text).
pub open spec fn offset_position(s: Seq<char>, offset: usize) -> Position {
    position_at(s, index_at_offset(s, clamp(offset, s), 0))
}

/// The index just after the `line`-th line break, where line `line` starts.
pub open spec fn nth_line_start(s: Seq<char>, line: nat) -> Option<int>
    decreases line,
{
    if line == 0 {
        Some(0)
    } else {
        match nth_line_start(s, (line - 1) as nat) {
            Some(start) => if 0 <= start <= s.len() && line_end(s, start) < s.len() {
                Some(line_end(s, start) + 1)
            } else {
                None
            },
            None => None,
        }
    }
}

/// From index `i` of a line, the index reached after `character` UTF-16
/// units (`used` of them spent already), without crossing the end of the
/// line or splitting a character.
pub open spec fn advance(s: Seq<char>, i: int, used: nat, character: nat) -> int
    decreases s.len() - i,
{
    if i < 0 || i >= s.len() || s[i] == '\n' || used >= character || used + utf16_width(s[i])
        > character {
        i
    } else {
        advance(s, i + 1, used + utf16_width(s[i]), character)
    }
}

/// The character index of `position`: the end of the text when the line
/// does not exist, else within its line as far as `character` reaches.
pub open spec fn position_index(s: Seq<char>, position: Position) -> int {
    match nth_line_start(s, position.line as nat) {
        None => s.len() as int,
        Some(start) => advance(s, start, 0, position.character as nat),
    }
}

/// The byte offset of `position`.
pub open spec fn position_offset(s: Seq<char>, position: Position) -> nat {
    byte_offset(s, position_index(s, position))
}

pub proof fn lemma_index_at_offset(s: Seq<char>, offset: int, c: int)
    requires
        0 <= c <= s.len(),
    ensures
        c <= index_at_offset(s, offset, c) <= s.len(),
        index_at_offset(s, offset, c) < s.len() ==> byte_offset(s, index_at_offset(s, offset, c))
            >= offset,
        forall|k: int| c <= k < index_at_offset(s, offset, c) ==> byte_offset(s, k) < offset,
    decreases s.len() - c,
{
    if c < s.len() && byte_offset(s, c) < offset {
        lemma_index_at_offset(s, offset, c + 1);
    }
}

pub proof fn lemma_newlines_step(s: Seq<char>, c: int)
    requires
        0 <= c < s.len(),
    ensures
        newlines(s, c + 1) == newlines(s, c) + if s[c] == '\n' {
            1nat
        } else {
            0nat
        },
        line_start(s, c + 1) == if s[c] == '\n' {
            c + 1
        } else {
            line_start(s, c)
        },
{
}

pub proof fn lemma_newlines_monotone(s: Seq<char>, a: int, b: int)
    requires
        0 <= a <= b <= s.len(),
    ensures
        newlines(s, a) <= newlines(s, b),
    decreases b - a,
{
    if a < b {
        lemma_newlines_monotone(s, a, b - 1);
    }
}

pub proof fn lemma_line_start(s: Seq<char>, c: int)
    requires
        0 <= c <= s.len(),
    ensures
        0 <= line_start(s, c) <= c,
        forall|k: int| line_start(s, c) <= k < c ==> s[k] != '\n',
    decreases c,
{
    if c > 0 && s[c - 1] != '\n' {
        lemma_line_start(s, c - 1);
    }
}

pub proof fn lemma_utf16_le_bytes(s: Seq<char>)
    ensures
        utf16_len(s) <= byte_len(s),
    decreases s.len(),
{
    if s.len() > 0 {
        lemma_utf16_le_bytes(s.drop_last());
    }
}

/// The position of the byte `offset`, which is clamped to the text.
pub fn offset_to_position(text: &str, offset: usize) -> (position: Position)
    requires
        is_boundary(text@, clamp(offset, text@)),
        newlines(text@, index_at_offset(text@, clamp(offset, text@), 0)) <= u32::MAX,
    ensures
        position == offset_position(text@, offset),
{
    let chars = chars_of(text);
    let ghost s = chars@;
    let total = byte_length(text);
    let offset = if offset <= total {
        offset
    } else {
        total
    };
    let ghost target = index_at_offset(s, offset as int, 0);
    proof {
        lemma_index_at_offset(s, offset as int, 0);
        lemma_newlines_monotone(s, 0, target);
        assert(s.take(0) =~= Seq::<char>::empty());
    }
    let mut i: usize = 0;
    let mut bytes: usize = 0;
    let mut line: u32 = 0;
    let mut start: usize = 0;
    while i < chars.len() && bytes < offset
        invariant
            s == chars@,
            total == byte_len(s),
            offset <= total,
            target == index_at_offset(s, offset as int, 0),
            0 <= target <= s.len(),
            newlines(s, target) <= u32::MAX,
            i <= target,
            bytes == byte_offset(s, i as int),
            line == newlines(s, i as int),
            start == line_start(s, i as int),
            index_at_offset(s, offset as int, 0) == index_at_offset(s, offset as int, i as int),
        decreases chars.len() - i,
    {
        proof {
            lemma_byte_offset_step(s, i as int);
            lemma_byte_offset_bounded(s, (i + 1) as int);
            lemma_newlines_step(s, i as int);
            lemma_index_at_offset(s, offset as int, i as int);
            lemma_newlines_monotone(s, (i + 1) as int, target);
        }
        if chars[i] == '\n' {
            line = line + 1;
            start = i + 1;
        }
        bytes = bytes + crate::chars::utf8_width_of(chars[i]);
        i = i + 1;
    }
    proof {
        lemma_line_start(s, i as int);
        lemma_utf16_le_bytes(s.subrange(start as int, i as int));
        assert(s.subrange(start as int, i as int).take(0) =~= Seq::<char>::empty());
    }
    let mut k: usize = start;
    let mut units: usize = 0;
    while k < i
        invariant
            s == chars@,
            start <= k <= i <= s.len(),
            units == utf16_len(s.subrange(start as int, k as int)),
            utf16_len(s.subrange(start as int, i as int)) <= byte_len(s.subrange(start as int, i as int)),
            byte_len(s) <= usize::MAX,
        decreases i - k,
    {
        proof {
            let sub = s.subrange(start as int, i as int);
            assert(s.subrange(start as int, k + 1).drop_last() =~= s.subrange(start as int, k as int));
            lemma_utf16_prefix(sub, (k - start + 1) as int);
            lemma_utf16_take_step(sub, (k - start) as int);
            assert(s.subrange(start as int, k as int) =~= sub.take((k - start) as int));
            assert(s.subrange(start as int, k + 1) =~= sub.take((k - start + 1) as int));
            lemma_byte_len_sub(s, start as int, i as int);
        }
        units = units + utf16_width_of(chars[k]) as usize;
        k = k + 1;
    }
    Position { line, character: #[verifier::truncate] (units as u32) }
}

proof fn lemma_utf16_prefix(s: Seq<char>, k: int)
    requires
        0 <= k <= s.len(),
    ensures
        utf16_len(s.take(k)) <= utf16_len(s),
    decreases s.len() - k,
{
    assert(s.take(s.len() as int) =~= s);
    if k < s.len() {
        lemma_utf16_prefix(s, k + 1);
        lemma_utf16_take_step(s, k);
    }
}

proof fn lemma_byte_len_sub(s: Seq<char>, a: int, b: int)
    requires
        0 <= a <= b <= s.len(),
    ensures
        byte_len(s.subrange(a, b)) <= byte_len(s),
{
    crate::chars::lemma_byte_len_concat(s.take(a), s.subrange(a, b));
    crate::chars::lemma_byte_len_concat(s.take(b), s.skip(b));
    assert(s.take(a) + s.subrange(a, b) =~= s.take(b));
    assert(s.take(b) + s.skip(b) =~= s);
}


pub proof fn lemma_nth_line_start_none(s: Seq<char>, a: nat, b: nat)
    requires
        a <= b,
        nth_line_start(s, a) is None,
    ensures
        nth_line_start(s, b) is None,
    decreases b - a,
{
    if a < b {
        lemma_nth_line_start_none(s, a, (b - 1) as nat);
    }
}

pub proof fn lemma_nth_line_start_bounds(s: Seq<char>, line: nat)
    ensures
        nth_line_start(s, line) matches Some(start) ==> 0 <= start <= s.len(),
    decreases line,
{
    if line > 0 {
        lemma_nth_line_start_bounds(s, (line - 1) as nat);
        if let Some(start) = nth_line_start(s, (line - 1) as nat) {
            if 0 <= start <= s.len() {
                lemma_line_end(s, start);
            }
        }
    }
}

pub proof fn lemma_advance(s: Seq<char>, i: int, used: nat, character: nat)
    requires
        0 <= i <= s.len(),
    ensures
        i <= advance(s, i, used, character) <= s.len(),
    decreases s.len() - i,
{
    if !(i >= s.len() || s[i] == '\n' || used >= character || used + utf16_width(s[i]) > character) {
        lemma_advance(s, i + 1, used + utf16_width(s[i]), character);
    }
}

/// The character index of `position` in `chars`.
pub fn position_to_index(chars: &Vec<char>, position: Position) -> (index: usize)
    ensures
        index == position_index(chars@, position),
        index <= chars.len(),
{
    let ghost s = chars@;
    let mut line: u32 = 0;
    let mut start: usize = 0;
    let mut i: usize = 0;
    while i < chars.len()
        invariant
            s == chars@,
            i <= s.len(),
            start <= i,
            line <= position.line,
            nth_line_start(s, line as nat) == Some(start as int),
            forall|k: int| start <= k < i ==> s[k] != '\n',
        ensures
            s == chars@,
            i <= s.len(),
            start <= i,
            line <= position.line,
            nth_line_start(s, line as nat) == Some(start as int),
            forall|k: int| start <= k < i ==> s[k] != '\n',
            line == position.line || i == s.len(),
        decreases chars.len() - i,
    {
        if line == position.line {
            break;
        }
        if chars[i] == '\n' {
            proof {
                lemma_line_end_at(s, start as int, i as int);
            }
            line = line + 1;
            start = i + 1;
        }
        i = i + 1;
    }
    if line < position.line {
        proof {
            lemma_line_end_at(s, start as int, s.len() as int);
            lemma_nth_line_start_none(s, (line + 1) as nat, position.line as nat);
        }
        return chars.len();
    }
    let mut k: usize = start;
    let mut used: u64 = 0;
    proof {
        lemma_advance(s, start as int, 0, position.character as nat);
    }
    while k < chars.len() && chars[k] != '\n' && used < position.character as u64 && used
        + utf16_width_of(chars[k]) as u64 <= position.character as u64
        invariant
            s == chars@,
            start <= k <= s.len(),
            used <= position.character,
            advance(s, start as int, 0, position.character as nat) == advance(
                s,
                k as int,
                used as nat,
                position.character as nat,
            ),
        decreases chars.len() - k,
    {
        used = used + utf16_width_of(chars[k]) as u64;
        k = k + 1;
    }
    k
}

/// Where the line starting at `start` ends, when no line break comes before `end`.
proof fn lemma_line_end_at(s: Seq<char>, start: int, end: int)
    requires
        0 <= start <= end <= s.len(),
        forall|k: int| start <= k < end ==> s[k] != '\n',
        end == s.len() || s[end] == '\n',
    ensures
        line_end(s, start) == end,
    decreases end - start,
{
    if start < end {
        lemma_line_end_at(s, start + 1, end);
    }
}

/// The byte offset of `position` in `text`.
pub fn position_to_offset(text: &str, position: Position) -> (offset: usize)
    ensures
        offset == position_offset(text@, position),
{
    let chars = chars_of(text);
    let _ = byte_length(text);
    let offsets = byte_offsets(&chars);
    let index = position_to_index(&chars, position);
    offsets[index]
}

/// The range of positions that `span` covers in `text`.
pub fn span_to_range(text: &str, span: Span) -> (range: Range)
    requires
        is_boundary(text@, clamp(span.start, text@)),
        is_boundary(text@, clamp(span.end, text@)),
        newlines(text@, index_at_offset(text@, clamp(span.start, text@), 0)) <= u32::MAX,
        newlines(text@, index_at_offset(text@, clamp(span.end, text@), 0)) <= u32::MAX,
    ensures
        range == (Range {
            start: offset_position(text@, span.start),
            end: offset_position(text@, span.end),
        }),
{
    Range { start: offset_to_position(text, span.start), end: offset_to_position(text, span.end) }
}

/// Positions in document order: by line, then by character.
pub open spec fn precedes(a: Position, b: Position) -> bool {
    a.line < b.line || (a.line == b.line && a.character < b.character)
}

/// Two ranges share a position (ends included).
pub open spec fn overlaps(left: Range, right: Range) -> bool {
    !(precedes(left.end, right.start) || precedes(right.end, left.start))
}

fn position_precedes(a: Position, b: Position) -> (p: bool)
    ensures
        p == precedes(a, b),
{
    a.line < b.line || (a.line == b.line && a.character < b.character)
}

pub fn range_overlaps(left: &Range, right: &Range) -> (overlap: bool)
    ensures
        overlap == overlaps(*left, *right),
{
    !(position_precedes(left.end, right.start) || position_precedes(right.end, left.start))
}

/// The text after one edit.
pub open spec fn apply_change(s: Seq<char>, range: Option<Range>, replacement: Seq<char>) -> Seq<char> {
    match range {
        None => replacement,
        Some(r) => {
            let a = position_index(s, r.start);
            let b = position_index(s, r.end);
            if a <= b {
                s.subrange(0, a) + replacement + s.subrange(b, s.len() as int)
            } else {
                s
            }
        },
    }
}

pub open spec fn change_views(changes: Seq<ContentChange>) -> Seq<(Option<Range>, Seq<char>)> {
    changes.map_values(|c: ContentChange| (c.range, c.text@))
}

/// The text after the edits, applied in order.
pub open spec fn apply_changes(s: Seq<char>, changes: Seq<(Option<Range>, Seq<char>)>) -> Seq<char>
    decreases changes.len(),
{
    if changes.len() == 0 {
        s
    } else {
        apply_change(apply_changes(s, changes.drop_last()), changes.last().0, changes.last().1)
    }
}

/// Applies the edits to `text`, in order.
pub fn apply_content_changes(text: String, changes: Vec<ContentChange>) -> (result: String)
    ensures
        result@ == apply_changes(text@, change_views(changes@)),
{
    let ghost views = change_views(changes@);
    let mut current = chars_of(text.as_str());
    let mut i: usize = 0;
    assert(views.take(0) =~= Seq::<(Option<Range>, Seq<char>)>::empty());
    while i < changes.len()
        invariant
            views == change_views(changes@),
            i <= changes.len(),
            current@ == apply_changes(text@, views.take(i as int)),
        decreases changes.len() - i,
    {
        let change = &changes[i];
        let next = match change.range {
            None => chars_of(change.text.as_str()),
            Some(range) => {
                let a = position_to_index(&current, range.start);
                let b = position_to_index(&current, range.end);
                if a <= b {
                    let replacement = chars_of(change.text.as_str());
                    let mut next: Vec<char> = Vec::new();
                    append_chars(&mut next, &current, 0, a);
                    append_chars(&mut next, &replacement, 0, replacement.len());
                    append_chars(&mut next, &current, b, current.len());
                    assert(replacement@.subrange(0, replacement.len() as int) =~= replacement@);
                    next
                } else {
                    current
                }
            },
        };
        proof {
            assert(views.take(i + 1).drop_last() =~= views.take(i as int));
        }
        current = next;
        i = i + 1;
    }
    assert(views.take(changes.len() as int) =~= views);
    string_from_chars(current.as_slice())
}

fn append_chars(buf: &mut Vec<char>, chars: &Vec<char>, a: usize, b: usize)
    requires
        a <= b <= chars.len(),
    ensures
        final(buf)@ == old(buf)@ + chars@.subrange(a as int, b as int),
{
    let mut k = a;
    while k < b
        invariant
            a <= k <= b <= chars.len(),
            buf@ == old(buf)@ + chars@.subrange(a as int, k as int),
        decreases b - k,
    {
        buf.push(chars[k]);
        proof {
            assert(chars@.subrange(a as int, k + 1) =~= chars@.subrange(a as int, k as int).push(
                chars@[k as int],
            ));
        }
        k = k + 1;
    }
}


proof fn lemma_nth_line_start_of(s: Seq<char>, c: int)
    requires
        0 <= c <= s.len(),
    ensures
        nth_line_start(s, newlines(s, c)) == Some(line_start(s, c)),
    decreases c,
{
    if c > 0 {
        lemma_nth_line_start_of(s, c - 1);
        if s[c - 1] == '\n' {
            lemma_line_start(s, c - 1);
            lemma_line_end_at(s, line_start(s, c - 1), c - 1);
            assert(newlines(s, c) == newlines(s, c - 1) + 1);
        }
    }
}

proof fn lemma_utf16_at_least_len(s: Seq<char>)
    ensures
        utf16_len(s) >= s.len(),
    decreases s.len(),
{
    if s.len() > 0 {
        lemma_utf16_at_least_len(s.drop_last());
    }
}

proof fn lemma_advance_reaches(s: Seq<char>, ls: int, i: int, c: int)
    requires
        0 <= ls <= i <= c <= s.len(),
        forall|k: int| ls <= k < c ==> s[k] != '\n',
    ensures
        advance(
            s,
            i,
            utf16_len(s.subrange(ls, i)),
            utf16_len(s.subrange(ls, c)),
        ) == c,
    decreases c - i,
{
    crate::chars::lemma_utf16_len_concat(s.subrange(ls, i), s.subrange(i, c));
    assert(s.subrange(ls, i) + s.subrange(i, c) =~= s.subrange(ls, c));
    if i < c {
        lemma_utf16_at_least_len(s.subrange(i + 1, c));
        crate::chars::lemma_utf16_len_concat(s.subrange(ls, i), seq![s[i]]);
        assert(s.subrange(ls, i) + seq![s[i]] =~= s.subrange(ls, i + 1));
        assert(seq![s[i]].drop_last() =~= Seq::<char>::empty());
        assert(utf16_len(Seq::<char>::empty()) == 0);
        assert(seq![s[i]].last() == s[i]);
        assert(utf16_len(seq![s[i]]) == utf16_width(s[i]));
        crate::chars::lemma_utf16_len_concat(seq![s[i]], s.subrange(i + 1, c));
        assert(seq![s[i]] + s.subrange(i + 1, c) =~= s.subrange(i, c));
        lemma_advance_reaches(s, ls, i + 1, c);
    } else {
        assert(s.subrange(i, c) =~= Seq::<char>::empty());
    }
}

/// The byte offset of a character index leads back to that index.
pub proof fn lemma_index_at_byte_offset(s: Seq<char>, c: int)
    requires
        0 <= c <= s.len(),
    ensures
        index_at_offset(s, byte_offset(s, c) as int, 0) == c,
{
    let r = index_at_offset(s, byte_offset(s, c) as int, 0);
    lemma_index_at_offset(s, byte_offset(s, c) as int, 0);
    if r < c {
        lemma_byte_offset_grows(s, r, c);
        lemma_byte_offset_grows(s, r, r + 1);
        lemma_byte_offset_grows(s, r + 1, c);
    }
    if r > c {
        assert(byte_offset(s, c) < byte_offset(s, c));
    }
}

/// The position of a character index leads back to that index.
pub proof fn lemma_position_index_round_trip(s: Seq<char>, c: int)
    requires
        0 <= c <= s.len(),
        newlines(s, c) <= u32::MAX,
        utf16_len(s.subrange(line_start(s, c), c)) <= u32::MAX,
    ensures
        position_index(s, position_at(s, c)) == c,
{
    lemma_nth_line_start_of(s, c);
    lemma_line_start(s, c);
    let ls = line_start(s, c);
    assert(s.subrange(ls, ls) =~= Seq::<char>::empty());
    lemma_advance_reaches(s, ls, ls, c);
}

/// A ranged change replaces exactly the text between the two character
/// indices its positions name, whatever lines they are on: for indices
/// `a <= b`, the change from the position of `a` to that of `b` gives
/// `s[..a] + replacement + s[b..]`.
pub proof fn law_change_between_indices(s: Seq<char>, a: int, b: int, replacement: Seq<char>)
    requires
        0 <= a <= b <= s.len(),
        newlines(s, b) <= u32::MAX,
        utf16_len(s.subrange(line_start(s, a), a)) <= u32::MAX,
        utf16_len(s.subrange(line_start(s, b), b)) <= u32::MAX,
    ensures
        apply_change(
            s,
            Some(Range { start: position_at(s, a), end: position_at(s, b) }),
            replacement,
        ) == s.subrange(0, a) + replacement + s.subrange(b, s.len() as int),
{
    lemma_newlines_grow(s, a, b);
    lemma_position_index_round_trip(s, a);
    lemma_position_index_round_trip(s, b);
}

/// A change whose start comes after its end leaves the text as it is.
pub proof fn law_reversed_change_ignored(s: Seq<char>, a: int, b: int, replacement: Seq<char>)
    requires
        0 <= b < a <= s.len(),
        newlines(s, a) <= u32::MAX,
        utf16_len(s.subrange(line_start(s, a), a)) <= u32::MAX,
        utf16_len(s.subrange(line_start(s, b), b)) <= u32::MAX,
    ensures
        apply_change(
            s,
            Some(Range { start: position_at(s, a), end: position_at(s, b) }),
            replacement,
        ) == s,
{
    lemma_newlines_grow(s, b, a);
    lemma_position_index_round_trip(s, a);
    lemma_position_index_round_trip(s, b);
}

proof fn lemma_newlines_grow(s: Seq<char>, a: int, b: int)
    requires
        0 <= a <= b,
    ensures
        newlines(s, a) <= newlines(s, b),
    decreases b - a,
{
    if a < b {
        lemma_newlines_grow(s, a, b - 1);
    }
}

/// A byte offset between two characters, converted to a position and back,
/// is the same offset; and every such offset is accepted by
/// `offset_to_position`.
pub proof fn law_offset_position_round_trip(s: Seq<char>, c: int)
    requires
        0 <= c <= s.len(),
        byte_len(s) <= usize::MAX,
        newlines(s, c) <= u32::MAX,
        utf16_len(s.subrange(line_start(s, c), c)) <= u32::MAX,
    ensures
        is_boundary(s, byte_offset(s, c) as int),
        offset_position(s, byte_offset(s, c) as usize) == position_at(s, c),
        position_offset(s, offset_position(s, byte_offset(s, c) as usize)) == byte_offset(s, c),
{
    lemma_byte_offset_bounded(s, c);
    lemma_index_at_byte_offset(s, c);
    lemma_position_index_round_trip(s, c);
}

/// No line break in `s[a..b]`: `b` is on the line of `a`.
proof fn lemma_same_line(s: Seq<char>, a: int, b: int)
    requires
        0 <= a <= b <= s.len(),
        forall|k: int| a <= k < b ==> s[k] != '\n',
    ensures
        newlines(s, b) == newlines(s, a),
        a < b ==> line_start(s, b) == line_start(s, a),
    decreases b - a,
{
    if a < b {
        lemma_same_line(s, a, b - 1);
    }
}

/// Where line `line` starts, there are `line` line breaks before, and a
/// line starts.
proof fn lemma_nth_line_start_line(s: Seq<char>, line: nat)
    ensures
        nth_line_start(s, line) matches Some(start) ==> newlines(s, start) == line && line_start(
            s,
            start,
        ) == start,
    decreases line,
{
    lemma_nth_line_start_bounds(s, line);
    if line > 0 {
        lemma_nth_line_start_line(s, (line - 1) as nat);
        lemma_nth_line_start_bounds(s, (line - 1) as nat);
        if let Some(prev) = nth_line_start(s, (line - 1) as nat) {
            if 0 <= prev <= s.len() && line_end(s, prev) < s.len() {
                lemma_line_end(s, prev);
                let le = line_end(s, prev);
                lemma_same_line(s, prev, le);
                lemma_newlines_step(s, le);
            }
        }
    }
}

/// Advancing within a line crosses no line break.
proof fn lemma_advance_in_line(s: Seq<char>, i: int, used: nat, character: nat)
    requires
        0 <= i <= s.len(),
    ensures
        forall|k: int| i <= k < advance(s, i, used, character) ==> s[k] != '\n',
    decreases s.len() - i,
{
    if !(i >= s.len() || s[i] == '\n' || used >= character || used + utf16_width(s[i]) > character) {
        lemma_advance_in_line(s, i + 1, used + utf16_width(s[i]), character);
    }
}

/// A position that names an existing line and falls between two characters
/// of it, converted to a byte offset and back, is the same position.
pub proof fn law_position_offset_round_trip(s: Seq<char>, position: Position)
    requires
        byte_len(s) <= usize::MAX,
        nth_line_start(s, position.line as nat) matches Some(start) && utf16_len(
            s.subrange(start, advance(s, start, 0, position.character as nat)),
        ) == position.character,
    ensures
        offset_position(s, position_offset(s, position) as usize) == position,
{
    let start = nth_line_start(s, position.line as nat)->0;
    lemma_nth_line_start_bounds(s, position.line as nat);
    lemma_nth_line_start_line(s, position.line as nat);
    let i = advance(s, start, 0, position.character as nat);
    lemma_advance(s, start, 0, position.character as nat);
    lemma_advance_in_line(s, start, 0, position.character as nat);
    lemma_same_line(s, start, i);
    assert(position_index(s, position) == i);
    lemma_byte_offset_bounded(s, i);
    lemma_index_at_byte_offset(s, i);
    assert(clamp(byte_offset(s, i) as usize, s) == byte_offset(s, i));
}

/// Applying a list of edits in one call is applying its two parts one after
/// the other.
pub proof fn law_apply_changes_compose(
    s: Seq<char>,
    first: Seq<(Option<Range>, Seq<char>)>,
    second: Seq<(Option<Range>, Seq<char>)>,
)
    ensures
        apply_changes(s, first + second) == apply_changes(apply_changes(s, first), second),
    decreases second.len(),
{
    if second.len() == 0 {
        assert(first + second =~= first);
    } else {
        law_apply_changes_compose(s, first, second.drop_last());
        assert((first + second).drop_last() =~= first + second.drop_last());
        assert((first + second).last() == second.last());
    }
}

/// An edit without a range replaces the whole text.
pub proof fn law_full_replacement(s: Seq<char>, replacement: Seq<char>)
    ensures
        apply_changes(s, seq![(None::<Range>, replacement)]) == replacement,
{
    assert(seq![(None::<Range>, replacement)].drop_last() =~= Seq::<(Option<Range>, Seq<char>)>::empty());
}

} // verus!
