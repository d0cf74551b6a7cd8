//! Splitting a statement into tokens.
//!
//! The lexer reads the UTF-8 bytes of the statement. Spans are byte offsets
//! into the statement. A number token keeps its literal text: digits with at
//! most one `.`, which is a valid decimal literal unless it is `.` alone.
use crate::chars::string_from_chars;
use crate::text::Span;
use vstd::prelude::*;
use vstd::string::StringSliceAdditionalSpecFns;

verus! {

broadcast use {vstd::seq::group_seq_axioms, vstd::slice::group_slice_axioms};

#[derive(Debug)]
pub enum TokenKind {
    Number(String),
    Ident(String),
    Plus,
    Minus,
    Star,
    Slash,
    Caret,
    LParen,
    RParen,
    LBracket,
    RBracket,
    Comma,
    Assign,
    Arrow,
}

#[derive(Debug)]
pub struct Token {
    pub kind: TokenKind,
    pub span: Span,
}

/// The mathematical value of a [`TokenKind`].
pub enum KindView {
    Number(Seq<char>),
    Ident(Seq<char>),
    Plus,
    Minus,
    Star,
    Slash,
    Caret,
    LParen,
    RParen,
    LBracket,
    RBracket,
    Comma,
    Assign,
    Arrow,
}

pub struct TokenView {
    pub kind: KindView,
    pub span: Span,
}

impl View for TokenKind {
    type V = KindView;

    open spec fn view(&self) -> KindView {
        match self {
            TokenKind::Number(t) => KindView::Number(t@),
            TokenKind::Ident(t) => KindView::Ident(t@),
            TokenKind::Plus => KindView::Plus,
            TokenKind::Minus => KindView::Minus,
            TokenKind::Star => KindView::Star,
            TokenKind::Slash => KindView::Slash,
            TokenKind::Caret => KindView::Caret,
            TokenKind::LParen => KindView::LParen,
            TokenKind::RParen => KindView::RParen,
            TokenKind::LBracket => KindView::LBracket,
            TokenKind::RBracket => KindView::RBracket,
            TokenKind::Comma => KindView::Comma,
            TokenKind::Assign => KindView::Assign,
            TokenKind::Arrow => KindView::Arrow,
        }
    }
}

impl View for Token {
    type V = TokenView;

    open spec fn view(&self) -> TokenView {
        TokenView { kind: self.kind@, span: self.span }
    }
}

/// An error of the statement language: where and what.
#[derive(Clone, Debug)]
pub struct LangError {
    pub span: Span,
    pub message: String,
}

pub struct LangErrorView {
    pub span: Span,
    pub message: Seq<char>,
}

impl View for LangError {
    type V = LangErrorView;

    open spec fn view(&self) -> LangErrorView {
        LangErrorView { span: self.span, message: self.message@ }
    }
}

pub open spec fn lang_error(span: Span, message: Seq<char>) -> LangErrorView {
    LangErrorView { span, message }
}

pub open spec fn span_at(a: int, b: int) -> Span {
    Span { start: a as usize, end: b as usize }
}

pub open spec fn is_space_byte(c: u8) -> bool {
    c == 32 || c == 9 || c == 13 || c == 10
}

pub open spec fn is_digit_byte(c: u8) -> bool {
    48 <= c <= 57
}

pub open spec fn is_ident_start_byte(c: u8) -> bool {
    (97 <= c <= 122) || (65 <= c <= 90) || c == 95
}

pub open spec fn is_ident_byte(c: u8) -> bool {
    is_ident_start_byte(c) || is_digit_byte(c)
}

/// The end of the digits (and at most one `.`) of a number from `j` on.
pub open spec fn number_end(b: Seq<u8>, j: int, seen_dot: bool) -> int
    decreases b.len() - j,
{
    if j < 0 || j >= b.len() {
        j
    } else if is_digit_byte(b[j]) {
        number_end(b, j + 1, seen_dot)
    } else if b[j] == 46 && !seen_dot {
        number_end(b, j + 1, true)
    } else {
        j
    }
}

pub open spec fn ident_end(b: Seq<u8>, j: int) -> int
    decreases b.len() - j,
{
    if j < 0 || j >= b.len() {
        j
    } else if is_ident_byte(b[j]) {
        ident_end(b, j + 1)
    } else {
        j
    }
}

/// The ASCII bytes `b[i..e]` as characters.
pub open spec fn ascii_text(b: Seq<u8>, i: int, e: int) -> Seq<char> {
    Seq::new((e - i) as nat, |k: int| b[i + k] as char)
}

/// The token of a one-byte operator or bracket.
pub open spec fn single_token(c: u8) -> Option<KindView> {
    if c == 43 {
        Some(KindView::Plus)
    } else if c == 45 {
        Some(KindView::Minus)
    } else if c == 42 {
        Some(KindView::Star)
    } else if c == 47 {
        Some(KindView::Slash)
    } else if c == 94 {
        Some(KindView::Caret)
    } else if c == 40 {
        Some(KindView::LParen)
    } else if c == 41 {
        Some(KindView::RParen)
    } else if c == 91 {
        Some(KindView::LBracket)
    } else if c == 93 {
        Some(KindView::RBracket)
    } else if c == 44 {
        Some(KindView::Comma)
    } else {
        None
    }
}

pub open spec fn invalid_number_message(text: Seq<char>) -> Seq<char> {
    "invalid number `"@ + text + "`"@
}

pub open spec fn unexpected_character_message(c: u8) -> Seq<char> {
    "unexpected character `"@ + seq![c as char] + "`"@
}

/// `tokens` in front of the outcome of lexing the rest.
pub open spec fn prepend(
    tokens: Seq<TokenView>,
    rest: Result<Seq<TokenView>, LangErrorView>,
) -> Result<Seq<TokenView>, LangErrorView> {
    match rest {
        Ok(more) => Ok(tokens + more),
        Err(e) => Err(e),
    }
}

/// The tokens of `b` from byte `i` on, or the first error.
pub open spec fn lex_from(b: Seq<u8>, i: int) -> Result<Seq<TokenView>, LangErrorView>
    decreases b.len() - i,
{
    if i < 0 || i >= b.len() {
        Ok(Seq::empty())
    } else {
        let c = b[i];
        if is_space_byte(c) {
            lex_from(b, i + 1)
        } else if is_digit_byte(c) || c == 46 {
            let e = number_end(b, i + 1, c == 46);
            if e == i + 1 && c == 46 {
                Err(lang_error(span_at(i, e), invalid_number_message(ascii_text(b, i, e))))
            } else if i < e <= b.len() {
                let tok = TokenView { kind: KindView::Number(ascii_text(b, i, e)), span: span_at(i, e) };
                prepend(seq![tok], lex_from(b, e))
            } else {
                Ok(Seq::empty())
            }
        } else if is_ident_start_byte(c) {
            let e = ident_end(b, i + 1);
            if i < e <= b.len() {
                let tok = TokenView { kind: KindView::Ident(ascii_text(b, i, e)), span: span_at(i, e) };
                prepend(seq![tok], lex_from(b, e))
            } else {
                Ok(Seq::empty())
            }
        } else if c == 45 && i + 1 < b.len() && b[i + 1] == 62 {
            prepend(
                seq![TokenView { kind: KindView::Arrow, span: span_at(i, i + 2) }],
                lex_from(b, i + 2),
            )
        } else if c == 58 && i + 1 < b.len() && b[i + 1] == 61 {
            prepend(
                seq![TokenView { kind: KindView::Assign, span: span_at(i, i + 2) }],
                lex_from(b, i + 2),
            )
        } else if single_token(c) is Some {
            prepend(
                seq![TokenView { kind: single_token(c)->0, span: span_at(i, i + 1) }],
                lex_from(b, i + 1),
            )
        } else {
            Err(lang_error(span_at(i, i + 1), unexpected_character_message(c)))
        }
    }
}

/// The tokens of the statement `source`, or the first error.
pub open spec fn lexed(source: &str) -> Result<Seq<TokenView>, LangErrorView> {
    lex_from(source.spec_bytes(), 0)
}

pub open spec fn tokens_view(tokens: Seq<Token>) -> Seq<TokenView> {
    tokens.map_values(|t: Token| t@)
}

pub open spec fn result_view(r: Result<Vec<Token>, LangError>) -> Result<Seq<TokenView>, LangErrorView> {
    match r {
        Ok(tokens) => Ok(tokens_view(tokens@)),
        Err(e) => Err(e@),
    }
}

pub proof fn lemma_number_end(b: Seq<u8>, j: int, seen_dot: bool)
    requires
        0 <= j <= b.len(),
    ensures
        j <= number_end(b, j, seen_dot) <= b.len(),
        forall|k: int| j <= k < number_end(b, j, seen_dot) ==> is_digit_byte(b[k]) || b[k] == 46,
    decreases b.len() - j,
{
    if j < b.len() && (is_digit_byte(b[j]) || (b[j] == 46 && !seen_dot)) {
        lemma_number_end(b, j + 1, if is_digit_byte(b[j]) { seen_dot } else { true });
    }
}

pub proof fn lemma_ident_end(b: Seq<u8>, j: int)
    requires
        0 <= j <= b.len(),
    ensures
        j <= ident_end(b, j) <= b.len(),
        forall|k: int| j <= k < ident_end(b, j) ==> is_ident_byte(b[k]),
    decreases b.len() - j,
{
    if j < b.len() && is_ident_byte(b[j]) {
        lemma_ident_end(b, j + 1);
    }
}

/// A `String` from a literal, keeping its characters.
pub fn text(literal: &str) -> (s: String)
    ensures
        s@ == literal@,
{
    broadcast use vstd::string::group_string_axioms;

    literal.to_string()
}

/// `prefix`, then `middle`, then `suffix`.
pub fn concat3(prefix: &str, middle: &str, suffix: &str) -> (s: String)
    ensures
        s@ == prefix@ + middle@ + suffix@,
{
    let mut s = text(prefix);
    s.append(middle);
    s.append(suffix);
    s
}

/// The ASCII bytes `bytes[i..e]` as a `String`.
fn ascii_string(bytes: &[u8], i: usize, e: usize) -> (s: String)
    requires
        i <= e <= bytes@.len(),
    ensures
        s@ == ascii_text(bytes@, i as int, e as int),
{
    let mut chars: Vec<char> = Vec::new();
    let mut k = i;
    while k < e
        invariant
            i <= k <= e <= bytes@.len(),
            chars@ == ascii_text(bytes@, i as int, k as int),
        decreases e - k,
    {
        chars.push(bytes[k] as char);
        k = k + 1;
        assert(chars@ =~= ascii_text(bytes@, i as int, k as int));
    }
    string_from_chars(chars.as_slice())
}

fn single_token_of(c: u8) -> (kind: Option<TokenKind>)
    ensures
        match kind {
            Some(k) => single_token(c) == Some(k@),
            None => single_token(c) is None,
        },
{
    if c == 43 {
        Some(TokenKind::Plus)
    } else if c == 45 {
        Some(TokenKind::Minus)
    } else if c == 42 {
        Some(TokenKind::Star)
    } else if c == 47 {
        Some(TokenKind::Slash)
    } else if c == 94 {
        Some(TokenKind::Caret)
    } else if c == 40 {
        Some(TokenKind::LParen)
    } else if c == 41 {
        Some(TokenKind::RParen)
    } else if c == 91 {
        Some(TokenKind::LBracket)
    } else if c == 93 {
        Some(TokenKind::RBracket)
    } else if c == 44 {
        Some(TokenKind::Comma)
    } else {
        None
    }
}

proof fn lemma_prepend(
    front: Seq<TokenView>,
    middle: Seq<TokenView>,
    rest: Result<Seq<TokenView>, LangErrorView>,
)
    ensures
        prepend(front, prepend(middle, rest)) == prepend(front + middle, rest),
{
    if let Ok(more) = rest {
        assert(front + (middle + more) =~= front + middle + more);
    }
}

proof fn lemma_tokens_push(tokens: Seq<Token>, t: Token)
    ensures
        tokens_view(tokens.push(t)) == tokens_view(tokens) + seq![t@],
{
    assert(tokens_view(tokens.push(t)) =~= tokens_view(tokens) + seq![t@]);
}

/// Splits `source` into tokens.
pub fn lex(source: &str) -> (r: Result<Vec<Token>, LangError>)
    ensures
        result_view(r) == lexed(source),
{
    let bytes = source.as_bytes();
    let ghost b = bytes@;
    let n = bytes.len();
    let mut tokens: Vec<Token> = Vec::new();
    let mut idx: usize = 0;
    assert(tokens_view(tokens@) =~= Seq::<TokenView>::empty());
    while idx < n
        invariant
            b == bytes@,
            b == source.spec_bytes(),
            n == b.len(),
            idx <= n,
            lex_from(b, 0) == prepend(tokens_view(tokens@), lex_from(b, idx as int)),
        decreases n - idx,
    {
        let c = bytes[idx];
        let ghost before = tokens_view(tokens@);
        if c == 32 || c == 9 || c == 13 || c == 10 {
            idx = idx + 1;
        } else if (48 <= c && c <= 57) || c == 46 {
            let start = idx;
            let mut seen_dot = c == 46;
            idx = idx + 1;
            while idx < n
                invariant
                    b == bytes@,
                    n == b.len(),
                    start < idx <= n,
                    number_end(b, start + 1, b[start as int] == 46) == number_end(b, idx as int, seen_dot),
                ensures
                    number_end(b, start + 1, b[start as int] == 46) == idx,
                decreases n - idx,
            {
                let d = bytes[idx];
                if 48 <= d && d <= 57 {
                    idx = idx + 1;
                } else if d == 46 && !seen_dot {
                    seen_dot = true;
                    idx = idx + 1;
                } else {
                    break;
                }
            }
            let literal = ascii_string(bytes, start, idx);
            if idx == start + 1 && c == 46 {
                let message = concat3("invalid number `", literal.as_str(), "`");
                return Err(LangError { span: Span::new(start, idx), message });
            }
            let t = Token { kind: TokenKind::Number(literal), span: Span::new(start, idx) };
            proof {
                lemma_tokens_push(tokens@, t);
                lemma_prepend(before, seq![t@], lex_from(b, idx as int));
            }
            tokens.push(t);
        } else if (97 <= c && c <= 122) || (65 <= c && c <= 90) || c == 95 {
            let start = idx;
            idx = idx + 1;
            while idx < n && ((97 <= bytes[idx] && bytes[idx] <= 122) || (65 <= bytes[idx]
                && bytes[idx] <= 90) || bytes[idx] == 95 || (48 <= bytes[idx] && bytes[idx] <= 57))
                invariant
                    b == bytes@,
                    n == b.len(),
                    start < idx <= n,
                    ident_end(b, start + 1) == ident_end(b, idx as int),
                ensures
                    ident_end(b, start + 1) == idx,
                decreases n - idx,
            {
                idx = idx + 1;
            }
            let t = Token {
                kind: TokenKind::Ident(ascii_string(bytes, start, idx)),
                span: Span::new(start, idx),
            };
            proof {
                lemma_tokens_push(tokens@, t);
                lemma_prepend(before, seq![t@], lex_from(b, idx as int));
            }
            tokens.push(t);
        } else if c == 45 && idx + 1 < n && bytes[idx + 1] == 62 {
            let t = Token { kind: TokenKind::Arrow, span: Span::new(idx, idx + 2) };
            proof {
                lemma_tokens_push(tokens@, t);
                lemma_prepend(before, seq![t@], lex_from(b, idx + 2));
            }
            tokens.push(t);
            idx = idx + 2;
        } else if c == 58 && idx + 1 < n && bytes[idx + 1] == 61 {
            let t = Token { kind: TokenKind::Assign, span: Span::new(idx, idx + 2) };
            proof {
                lemma_tokens_push(tokens@, t);
                lemma_prepend(before, seq![t@], lex_from(b, idx + 2));
            }
            tokens.push(t);
            idx = idx + 2;
        } else {
            match single_token_of(c) {
                Some(kind) => {
                    let t = Token { kind, span: Span::new(idx, idx + 1) };
                    proof {
                        lemma_tokens_push(tokens@, t);
                        lemma_prepend(before, seq![t@], lex_from(b, idx + 1));
                    }
                    tokens.push(t);
                    idx = idx + 1;
                },
                None => {
                    let mut shown: Vec<char> = Vec::new();
                    shown.push(c as char);
                    let shown = string_from_chars(shown.as_slice());
                    let message = concat3("unexpected character `", shown.as_str(), "`");
                    assert(shown@ =~= seq![c as char]);
                    return Err(LangError { span: Span::new(idx, idx + 1), message });
                },
            }
        }
    }
    assert(lex_from(b, idx as int) == Ok::<Seq<TokenView>, LangErrorView>(Seq::empty()));
    assert(tokens_view(tokens@) + Seq::<TokenView>::empty() =~= tokens_view(tokens@));
    Ok(tokens)
}


/// The tokens have non-empty spans within `lo..=hi`, each one ending no
/// later than the next one starts.
pub open spec fn tokens_in_order(t: Seq<TokenView>, lo: int, hi: int) -> bool {
    &&& forall|k: int| 0 <= k < t.len() ==> lo <= (#[trigger] t[k]).span.start < t[k].span.end <= hi
    &&& forall|k: int, l: int| 0 <= k < l < t.len() ==> #[trigger] t[k].span.end <= #[trigger] t[l].span.start
}

proof fn lemma_lex_in_order(b: Seq<u8>, i: int)
    requires
        0 <= i <= b.len(),
        b.len() <= usize::MAX,
    ensures
        lex_from(b, i) matches Ok(t) ==> tokens_in_order(t, i, b.len() as int),
    decreases b.len() - i,
{
    if i < b.len() {
        let c = b[i];
        if is_space_byte(c) {
            lemma_lex_in_order(b, i + 1);
        } else {
            let e = if is_digit_byte(c) || c == 46 {
                lemma_number_end(b, i + 1, c == 46);
                number_end(b, i + 1, c == 46)
            } else if is_ident_start_byte(c) {
                lemma_ident_end(b, i + 1);
                ident_end(b, i + 1)
            } else if (c == 45 && i + 1 < b.len() && b[i + 1] == 62) || (c == 58 && i + 1 < b.len()
                && b[i + 1] == 61) {
                i + 2
            } else {
                i + 1
            };
            if i < e <= b.len() {
                lemma_lex_in_order(b, e);
                if let Ok(t) = lex_from(b, i) {
                    if let Ok(rest) = lex_from(b, e) {
                        assert forall|k: int| 0 <= k < t.len() implies i <= (#[trigger] t[k]).span.start
                            < t[k].span.end <= b.len() by {
                            if k > 0 {
                                assert(t[k] == rest[k - 1]);
                            }
                        }
                        assert forall|k: int, l: int| 0 <= k < l < t.len() implies #[trigger] t[k].span.end
                            <= #[trigger] t[l].span.start by {
                            assert(t[l] == rest[l - 1]);
                            if k > 0 {
                                assert(t[k] == rest[k - 1]);
                            }
                        }
                    }
                }
            }
        }
    }
}

/// The tokens of a statement lie within it, in order, without overlapping.
pub proof fn law_tokens_in_order(source: &str)
    requires
        source.spec_bytes().len() <= usize::MAX,
    ensures
        lexed(source) matches Ok(t) ==> tokens_in_order(t, 0, source.spec_bytes().len() as int),
{
    lemma_lex_in_order(source.spec_bytes(), 0);
}

} // verus!
