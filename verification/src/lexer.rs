//! The lexer: turns the bytes of a source text into tokens, one at a time.
//!
//! The model of a source is the UTF-8 encoding of the text (`spec_bytes`), and
//! every position and span is a byte offset into it.  `lex` states, for a
//! source and a position, the single step that `Lexer::next_token` takes.
use vstd::prelude::*;
use vstd::string::*;
use vstd::utf8::*;

use crate::text::{
    decimal_text, push_char, push_decimal, push_signed, signed_text,
};

verus! {

broadcast use vstd::utf8::encode_utf8_valid_utf8, vstd::string::group_string_axioms;

/// A lexer over a borrowed source text.
pub struct Lexer<'src> {
    src: &'src str,
    position: usize,
}

/// A single token produced by the lexer
pub type Token = Spanned<TokenKind>;

/// A lexical error together with where it happened.
pub type LexError<'src> = Spanned<LexErrorKind<'src>>;

#[derive(Debug, Clone, Copy, PartialEq, Eq, Structural)]
pub enum TokenKind {
    Integer(i64),
    Punct(Punct),
    Eof,
}

#[derive(Debug, Clone, Copy, PartialEq, Eq)]
pub struct Spanned<K> {
    pub kind: K,
    pub span: Span,
}

/// A byte range `[start, end)` in the source used to
/// indicate errors on the respective file
#[derive(Debug, Clone, Copy, PartialEq, Eq, Structural)]
pub struct Span {
    start: u32,
    end: u32,
}

#[derive(Debug, PartialEq)]
pub enum LexErrorKind<'src> {
    UnexpectedChar(char),
    InvalidInteger(&'src str),
}

#[derive(Debug, Clone, Copy, PartialEq, Eq, Structural)]
pub enum Punct {
    Plus,  // +
    Minus,  // -
    Star,  // *
    Slash,  // /
    OpenParen,  // (
    CloseParen,  // )
}

// ---------------------------------------------------------------------------
// The model of one lexing step
// ---------------------------------------------------------------------------

/// `u8::is_ascii_whitespace`: space, tab, line feed, form feed, carriage return.
pub open spec fn is_blank(x: u8) -> bool {
    x == 0x20 || x == 0x09 || x == 0x0a || x == 0x0c || x == 0x0d
}

/// `u8::is_ascii_digit`.
pub open spec fn is_digit(x: u8) -> bool {
    0x30 <= x <= 0x39
}

/// The punctuation that a byte stands for, if any.
pub open spec fn punct_of(x: u8) -> Option<Punct> {
    if x == 0x2b {
        Some(Punct::Plus)
    } else if x == 0x2d {
        Some(Punct::Minus)
    } else if x == 0x2a {
        Some(Punct::Star)
    } else if x == 0x2f {
        Some(Punct::Slash)
    } else if x == 0x28 {
        Some(Punct::OpenParen)
    } else if x == 0x29 {
        Some(Punct::CloseParen)
    } else {
        None
    }
}

/// The first position at or after `q` that does not hold ASCII whitespace.
pub open spec fn skip_blanks(b: Seq<u8>, q: nat) -> nat
    decreases b.len() - q,
{
    if q < b.len() && is_blank(b[q as int]) {
        skip_blanks(b, q + 1)
    } else {
        q
    }
}

/// The first position at or after `q` that does not hold an ASCII digit.
pub open spec fn digits_end(b: Seq<u8>, q: nat) -> nat
    decreases b.len() - q,
{
    if q < b.len() && is_digit(b[q as int]) {
        digits_end(b, q + 1)
    } else {
        q
    }
}

/// The value of a run of ASCII decimal digits, most significant first.
pub open spec fn decimal_value(d: Seq<u8>) -> nat
    decreases d.len(),
{
    if d.len() == 0 {
        0
    } else {
        10 * decimal_value(d.drop_last()) + (d.last() - 48) as nat
    }
}

/// A token as the model sees it: its kind and its byte range.
pub struct Lexed {
    pub kind: TokenKind,
    pub start: nat,
    pub end: nat,
}

/// What one lexing step meets: a token, or one of the two lexical errors,
/// each with its byte range.
pub enum Lexeme {
    Token(Lexed),
    UnexpectedChar(char, nat, nat),
    InvalidInteger(nat, nat),
}

/// The step that the lexer takes at byte position `q` of the source `b`:
/// skip ASCII whitespace, then read an integer literal, a punctuation mark,
/// the end of the input, or fail on the character found there.
pub open spec fn lex(b: Seq<u8>, q: nat) -> Lexeme {
    let s = skip_blanks(b, q);
    if s >= b.len() {
        Lexeme::Token(Lexed { kind: TokenKind::Eof, start: s, end: s })
    } else if is_digit(b[s as int]) {
        let e = digits_end(b, s);
        let v = decimal_value(b.subrange(s as int, e as int));
        if v <= i64::MAX {
            Lexeme::Token(Lexed { kind: TokenKind::Integer(v as i64), start: s, end: e })
        } else {
            Lexeme::InvalidInteger(s, e)
        }
    } else {
        match punct_of(b[s as int]) {
            Some(p) => Lexeme::Token(Lexed { kind: TokenKind::Punct(p), start: s, end: s + 1 }),
            None => {
                let rest = b.subrange(s as int, b.len() as int);
                Lexeme::UnexpectedChar(
                    decode_first_scalar(rest) as char,
                    s,
                    (s + length_of_first_scalar(rest)) as nat,
                )
            },
        }
    }
}

/// Where the lexer stands after a step: past the token or past the digits of
/// an integer that does not fit, or on the character it could not read.
pub open spec fn resume(l: Lexeme) -> nat {
    match l {
        Lexeme::Token(t) => t.end,
        Lexeme::UnexpectedChar(_, s, _) => s,
        Lexeme::InvalidInteger(_, e) => e,
    }
}

/// The byte position where what a step reads ends.
pub open spec fn reach(l: Lexeme) -> nat {
    match l {
        Lexeme::Token(t) => t.end,
        Lexeme::UnexpectedChar(_, _, e) => e,
        Lexeme::InvalidInteger(_, e) => e,
    }
}

/// The token `t` is the one the model describes.
pub open spec fn token_is(t: Token, l: Lexed) -> bool {
    t.kind == l.kind && t.span@ == (l.start as int, l.end as int)
}

/// The error `e` is the lexical error `l` met in the source `b`.
pub open spec fn lex_error_is(e: LexError, l: Lexeme, b: Seq<u8>) -> bool {
    match l {
        Lexeme::Token(_) => false,
        Lexeme::UnexpectedChar(c, s, en) => e.kind == LexErrorKind::UnexpectedChar(c) && e.span@ == (
        s as int, en as int),
        Lexeme::InvalidInteger(s, en) => {
            &&& e.kind matches LexErrorKind::InvalidInteger(text)
            &&& text.spec_bytes() == b.subrange(s as int, en as int)
            &&& e.span@ == (s as int, en as int)
        },
    }
}

/// The outcome of `next_token` is the step `l` taken in the source `b`.
pub open spec fn lex_outcome_is(r: Result<Token, LexError>, l: Lexeme, b: Seq<u8>) -> bool {
    match r {
        Ok(t) => l matches Lexeme::Token(x) && token_is(t, x),
        Err(e) => lex_error_is(e, l, b),
    }
}

/// A whole run of the lexer from `q`: every token up to and including the
/// end of the input, or the first lexical error met on the way.
pub open spec fn lex_all(b: Seq<u8>, q: nat) -> Result<Seq<Lexed>, Lexeme>
    decreases b.len() - q,
{
    match lex(b, q) {
        Lexeme::Token(t) => if t.kind == TokenKind::Eof {
            Ok(seq![t])
        } else {
            proof {
                lemma_token_progress(b, q);
            }
            match lex_all(b, t.end) {
                Ok(rest) => Ok(seq![t] + rest),
                Err(l) => Err(l),
            }
        },
        fault => Err(fault),
    }
}

/// How far into the source a whole run of the lexer from `q` reads: to the
/// end of the input, or to the end of the first lexical error.
pub open spec fn run_reach(b: Seq<u8>, q: nat) -> nat
    decreases b.len() - q,
{
    match lex(b, q) {
        Lexeme::Token(t) => if t.kind == TokenKind::Eof {
            t.end
        } else {
            proof {
                lemma_token_progress(b, q);
            }
            run_reach(b, t.end)
        },
        fault => reach(fault),
    }
}

/// How a token is written in the source: an integer by the longest run of
/// ASCII digits there, whose value it is; a punctuation mark by its one
/// byte; the end of the input by nothing, at the end of the source.
pub open spec fn spelled(b: Seq<u8>, t: Lexed) -> bool {
    match t.kind {
        TokenKind::Integer(v) => {
            &&& t.start < t.end <= b.len()
            &&& forall|i: int| t.start <= i < t.end ==> is_digit(#[trigger] b[i])
            &&& t.end < b.len() ==> !is_digit(b[t.end as int])
            &&& decimal_value(b.subrange(t.start as int, t.end as int)) == v
        },
        TokenKind::Punct(p) => t.start < b.len() && t.end == t.start + 1 && punct_of(b[t.start as int])
            == Some(p),
        TokenKind::Eof => t.start == b.len() && t.end == b.len(),
    }
}

// ---------------------------------------------------------------------------
// Facts about the model
// ---------------------------------------------------------------------------

/// Skipping whitespace never moves backwards nor past the end.
pub proof fn lemma_skip_blanks_bounds(b: Seq<u8>, q: nat)
    ensures
        q <= skip_blanks(b, q),
        q <= b.len() ==> skip_blanks(b, q) <= b.len(),
        skip_blanks(b, q) < b.len() ==> !is_blank(b[skip_blanks(b, q) as int]),
        forall|i: int| q <= i < skip_blanks(b, q) ==> is_blank(#[trigger] b[i]),
    decreases b.len() - q,
{
    if q < b.len() && is_blank(b[q as int]) {
        lemma_skip_blanks_bounds(b, q + 1);
    }
}

/// A digit run never moves backwards nor past the end, and holds only digits.
pub proof fn lemma_digits_end_bounds(b: Seq<u8>, q: nat)
    ensures
        q <= digits_end(b, q),
        q <= b.len() ==> digits_end(b, q) <= b.len(),
        digits_end(b, q) < b.len() ==> !is_digit(b[digits_end(b, q) as int]),
        forall|i: int| q <= i < digits_end(b, q) ==> is_digit(#[trigger] b[i]),
    decreases b.len() - q,
{
    if q < b.len() && is_digit(b[q as int]) {
        lemma_digits_end_bounds(b, q + 1);
    }
}

/// Extending a digit run never lowers its value.
pub proof fn lemma_decimal_value_monotone(d: Seq<u8>, i: int)
    requires
        0 <= i <= d.len(),
    ensures
        decimal_value(d.take(i)) <= decimal_value(d),
    decreases d.len() - i,
{
    if i < d.len() {
        lemma_decimal_value_monotone(d, i + 1);
        assert(d.take(i + 1).drop_last() =~= d.take(i));
    } else {
        assert(d.take(i) =~= d);
    }
}

/// Every token starts at or after `q`; one other than the end of the input
/// covers at least one byte and ends inside the source.
pub proof fn lemma_token_progress(b: Seq<u8>, q: nat)
    ensures
        lex(b, q) matches Lexeme::Token(t) ==> q <= t.start <= t.end,
        lex(b, q) matches Lexeme::Token(t) ==> (t.kind != TokenKind::Eof ==> t.start < t.end
            <= b.len()),
        lex(b, q) matches Lexeme::Token(t) ==> (t.kind == TokenKind::Eof ==> t.start
            == skip_blanks(b, q) && t.start >= b.len()),
{
    lemma_skip_blanks_bounds(b, q);
    let s = skip_blanks(b, q);
    if s < b.len() && is_digit(b[s as int]) {
        lemma_digits_end_bounds(b, s);
    }
}

/// Every step starts at or after `q`; a token other than the end of input
/// covers at least one byte, and no step reads past the end of the source.
pub proof fn lemma_lex_bounds(b: Seq<u8>, q: nat)
    requires
        q <= b.len(),
        valid_utf8(b),
        is_char_boundary(b, q as int),
    ensures
        match lex(b, q) {
            Lexeme::Token(t) => {
                &&& q <= t.start <= t.end <= b.len()
                &&& t.kind == TokenKind::Eof <==> t.start == t.end
                &&& t.kind == TokenKind::Eof ==> t.start == b.len()
            },
            Lexeme::UnexpectedChar(_, s, e) => q <= s < e <= b.len(),
            Lexeme::InvalidInteger(s, e) => q <= s < e <= b.len(),
        },
        q <= resume(lex(b, q)) <= b.len(),
        is_char_boundary(b, resume(lex(b, q)) as int),
{
    lemma_skip_blanks_bounds(b, q);
    let s = skip_blanks(b, q);
    lemma_ascii_run_boundary(b, q, s);
    if s < b.len() {
        if is_digit(b[s as int]) {
            lemma_digits_end_bounds(b, s);
            lemma_ascii_run_boundary(b, s, digits_end(b, s));
        } else if punct_of(b[s as int]).is_some() {
            lemma_ascii_step_boundary(b, s);
        } else {
            lemma_first_scalar_fits(b, s);
        }
    }
}

/// Past an ASCII byte that starts a character another character starts.
pub proof fn lemma_ascii_step_boundary(b: Seq<u8>, i: nat)
    requires
        valid_utf8(b),
        is_char_boundary(b, i as int),
        i < b.len(),
        b[i as int] <= 0x7f,
    ensures
        is_char_boundary(b, i + 1 as int),
{
    vstd::utf8::is_char_boundary_start_end_of_seq(b);
    if i + 1 < b.len() {
        vstd::utf8::valid_utf8_split(b, i as int);
        let rest = b.subrange(i as int, b.len() as int);
        assert(valid_utf8(rest));
        assert(rest[0] == b[i as int]);
        assert(valid_first_scalar(rest));
        assert(length_of_first_scalar(rest) == 1);
        let tail = pop_first_scalar(rest);
        assert(valid_utf8(tail));
        assert(tail.len() > 0);
        assert(valid_first_scalar(tail));
        assert(tail[0] == b[i + 1 as int]);
        vstd::utf8::is_char_boundary_iff_not_is_continuation_byte(b, i + 1 as int);
    }
}

/// A run of ASCII bytes that starts on a character boundary ends on one.
pub proof fn lemma_ascii_run_boundary(b: Seq<u8>, from: nat, to: nat)
    requires
        valid_utf8(b),
        is_char_boundary(b, from as int),
        from <= to <= b.len(),
        forall|i: int| from <= i < to ==> #[trigger] b[i] <= 0x7f,
    ensures
        is_char_boundary(b, to as int),
    decreases to - from,
{
    if from < to {
        lemma_ascii_step_boundary(b, from);
        lemma_ascii_run_boundary(b, from + 1, to);
    }
}

/// The character that starts at a boundary lies wholly inside the source.
pub proof fn lemma_first_scalar_fits(b: Seq<u8>, s: nat)
    requires
        valid_utf8(b),
        is_char_boundary(b, s as int),
        s < b.len(),
    ensures
        valid_first_scalar(b.subrange(s as int, b.len() as int)),
        1 <= length_of_first_scalar(b.subrange(s as int, b.len() as int)) <= b.len() - s,
{
    vstd::utf8::valid_utf8_split(b, s as int);
    let rest = b.subrange(s as int, b.len() as int);
    assert(valid_utf8(rest));
}

/// A boundary of `b` at or after `s` is a boundary of the part of `b` from `s` on.
pub proof fn lemma_boundary_in_suffix(b: Seq<u8>, s: nat, i: nat)
    requires
        valid_utf8(b),
        is_char_boundary(b, s as int),
        is_char_boundary(b, i as int),
        s <= i <= b.len(),
    ensures
        valid_utf8(b.subrange(s as int, b.len() as int)),
        is_char_boundary(b.subrange(s as int, b.len() as int), i - s),
{
    vstd::utf8::valid_utf8_split(b, s as int);
    let rest = b.subrange(s as int, b.len() as int);
    vstd::utf8::is_char_boundary_start_end_of_seq(rest);
    if i < b.len() && i > s {
        vstd::utf8::is_char_boundary_iff_not_is_continuation_byte(b, i as int);
        vstd::utf8::is_char_boundary_iff_not_is_continuation_byte(rest, i - s);
        assert(rest[i - s] == b[i as int]);
    }
}

// ---------------------------------------------------------------------------
// Spans
// ---------------------------------------------------------------------------

/// The smallest range that covers both ranges: from the lower start to the
/// higher end.
pub open spec fn cover(a: (int, int), b: (int, int)) -> (int, int) {
    (if a.0 <= b.0 { a.0 } else { b.0 }, if a.1 >= b.1 { a.1 } else { b.1 })
}

/// Covering ranges does not depend on their order or grouping, covering a
/// range with itself gives it back, and the cover holds both ranges.
pub proof fn law_cover(a: (int, int), b: (int, int), c: (int, int))
    ensures
        cover(a, b) == cover(b, a),
        cover(cover(a, b), c) == cover(a, cover(b, c)),
        cover(a, a) == a,
        cover(a, b).0 <= a.0 && a.1 <= cover(a, b).1,
        cover(a, b).0 <= b.0 && b.1 <= cover(a, b).1,
{
}

impl View for Span {
    type V = (int, int);

    closed spec fn view(&self) -> (int, int) {
        (self.start as int, self.end as int)
    }
}

impl Span {
    /// The span with the given bounds (meant for bounds that fit in `u32`).
    pub closed spec fn at(start: int, end: int) -> Span {
        Span { start: start as u32, end: end as u32 }
    }

    /// A span is its two bounds: spans with the same bounds are equal, and
    /// `Span::at` builds the span with the given bounds.
    pub proof fn lemma_view(self, start: int, end: int)
        requires
            0 <= start <= u32::MAX,
            0 <= end <= u32::MAX,
        ensures
            Span::at(start, end)@ == (start, end),
            self@ == (start, end) <==> self == Span::at(start, end),
            0 <= self@.0 <= u32::MAX,
            0 <= self@.1 <= u32::MAX,
    {
    }

    /// The bounds of a span fit in `u32`.
    pub proof fn lemma_fits(self)
        ensures
            0 <= self@.0 <= u32::MAX,
            0 <= self@.1 <= u32::MAX,
    {
    }

    pub fn new(start: usize, end: usize) -> (r: Self)
        requires
            start <= end,
            end <= u32::MAX,
        ensures
            r@ == (start as int, end as int),
            r == Span::at(start as int, end as int),
    {
        Span { start: start as u32, end: end as u32 }
    }

    /// The part of `src` that the span covers.
    pub fn slice(self, src: &str) -> (r: &str)
        requires
            self@.0 <= self@.1 <= src.spec_bytes().len(),
            is_char_boundary(src.spec_bytes(), self@.0),
            is_char_boundary(src.spec_bytes(), self@.1),
        ensures
            r.spec_bytes() == src.spec_bytes().subrange(self@.0, self@.1),
            r@ == decode_utf8(src.spec_bytes().subrange(self@.0, self@.1)),
    {
        let b = Ghost(src.spec_bytes());
        let start = self.start as usize;
        let end = self.end as usize;
        let (_, tail) = src.split_at(start);
        proof {
            lemma_boundary_in_suffix(b@, start as nat, end as nat);
        }
        let (r, _) = tail.split_at(end - start);
        proof {
            assert(r.spec_bytes() =~= b@.subrange(start as int, end as int));
            vstd::utf8::encode_utf8_decode_utf8(r@);
        }
        r
    }

    /// The smallest span that covers both spans.
    pub fn merge(self, other: Span) -> (r: Span)
        ensures
            r@ == cover(self@, other@),
    {
        Span {
            start: if self.start <= other.start { self.start } else { other.start },
            end: if self.end >= other.end { self.end } else { other.end },
        }
    }
}

impl<K> Spanned<K> {
    pub fn new(kind: K, span: Span) -> (r: Self)
        ensures
            r.kind == kind,
            r.span == span,
    {
        Self { kind, span }
    }

    /// The same span around the kind that `f` makes of this one.
    pub fn map<U>(self, f: impl FnOnce(K) -> U) -> (r: Spanned<U>)
        requires
            call_requires(f, (self.kind,)),
        ensures
            call_ensures(f, (self.kind,), r.kind),
            r.span == self.span,
    {
        Spanned { kind: f(self.kind), span: self.span }
    }
}

// ---------------------------------------------------------------------------
// The lexer
// ---------------------------------------------------------------------------

/// `u8::is_ascii_whitespace`.
fn byte_is_blank(x: u8) -> (r: bool)
    ensures
        r == is_blank(x),
{
    x == 0x20 || x == 0x09 || x == 0x0a || x == 0x0c || x == 0x0d
}

/// `u8::is_ascii_digit`.
fn byte_is_digit(x: u8) -> (r: bool)
    ensures
        r == is_digit(x),
{
    0x30 <= x && x <= 0x39
}

/// The length of the UTF-8 encoding that a leading byte announces.
fn leading_byte_width(x: u8) -> (w: usize)
    ensures
        forall|s: Seq<u8>| s.len() > 0 && s[0] == x ==> w == #[trigger] length_of_first_codepoint(s),
{
    if x <= 0x7f {
        1
    } else if 0xc0 <= x && x <= 0xdf {
        2
    } else if 0xe0 <= x && x <= 0xef {
        3
    } else {
        4
    }
}

impl<'src> Lexer<'src> {
    /// The bytes of the source text.
    pub open spec fn source(&self) -> Seq<u8> {
        self.text().spec_bytes()
    }

    /// The source text itself.
    pub closed spec fn text(&self) -> &'src str {
        self.src
    }

    /// The byte position the next step starts from.
    pub closed spec fn pos(&self) -> nat {
        self.position as nat
    }

    /// The position lies in the source, on a character boundary.
    pub closed spec fn wf(&self) -> bool {
        &&& self.position <= self.src.spec_bytes().len()
        &&& is_char_boundary(self.src.spec_bytes(), self.position as int)
    }

    /// A well-formed lexer stands inside its source, on a character
    /// boundary, and its next step reads no further than the end of the
    /// source: with a source whose length fits in `u32`, `next_token` can
    /// always be called again.
    pub proof fn lemma_wf(&self)
        requires
            self.wf(),
        ensures
            valid_utf8(self.source()),
            self.pos() <= self.source().len(),
            is_char_boundary(self.source(), self.pos() as int),
            reach(lex(self.source(), self.pos())) <= self.source().len(),
    {
        lemma_lex_bounds(self.source(), self.pos());
    }

    pub fn new(src: &'src str) -> (r: Self)
        ensures
            r.wf(),
            r.text() == src,
            r.source() == src.spec_bytes(),
            r.pos() == 0,
    {
        proof {
            vstd::utf8::is_char_boundary_start_end_of_seq(src.spec_bytes());
        }
        Self { src, position: 0 }
    }

    /// Reads the next token, or the lexical error found where it should start.
    pub fn next_token(&mut self) -> (r: Result<Token, LexError<'src>>)
        requires
            old(self).wf(),
            reach(lex(old(self).source(), old(self).pos())) <= u32::MAX,
        ensures
            final(self).wf(),
            final(self).text() == old(self).text(),
            final(self).pos() == resume(lex(old(self).source(), old(self).pos())),
            lex_outcome_is(r, lex(old(self).source(), old(self).pos()), old(self).source()),
    {
        let ghost b = self.src.spec_bytes();
        let ghost q = self.position as nat;
        proof {
            lemma_lex_bounds(b, q);
            lemma_skip_blanks_bounds(b, q);
        }
        self.skip_whitespaces();
        let start = self.position;
        let bytes = self.src.as_bytes();

        if start >= bytes.len() {
            return Ok(Spanned::new(TokenKind::Eof, Span::new(start, start)));
        }
        let c = bytes[start];
        let punct = if byte_is_digit(c) {
            return self.number(start);
        } else if c == 0x2b {
            Punct::Plus
        } else if c == 0x2d {
            Punct::Minus
        } else if c == 0x2a {
            Punct::Star
        } else if c == 0x2f {
            Punct::Slash
        } else if c == 0x28 {
            Punct::OpenParen
        } else if c == 0x29 {
            Punct::CloseParen
        } else {
            return Err(self.unexpected_char(start));
        };

        proof {
            lemma_ascii_step_boundary(b, start as nat);
        }
        self.position = start + 1;
        Ok(Spanned::new(TokenKind::Punct(punct), Span::new(start, self.position)))
    }

    /// The error for the character that starts at `start`, which no token
    /// starts with.
    fn unexpected_char(&self, start: usize) -> (e: LexError<'src>)
        requires
            self.wf(),
            start < self.source().len(),
            is_char_boundary(self.source(), start as int),
            start + length_of_first_scalar(
                self.source().subrange(start as int, self.source().len() as int),
            ) <= u32::MAX,
        ensures
            ({
                let rest = self.source().subrange(start as int, self.source().len() as int);
                lex_error_is(
                    e,
                    Lexeme::UnexpectedChar(
                        decode_first_scalar(rest) as char,
                        start as nat,
                        (start + length_of_first_scalar(rest)) as nat,
                    ),
                    self.source(),
                )
            }),
    {
        let ghost b = self.src.spec_bytes();
        let bytes = self.src.as_bytes();
        let (_, rest) = self.src.split_at(start);
        let ghost rb = b.subrange(start as int, b.len() as int);
        proof {
            assert(rest.spec_bytes() =~= rb);
            lemma_first_scalar_fits(b, start as nat);
            assert(rest@.len() > 0);
            vstd::utf8::encode_utf8_first_scalar(rest@);
            vstd::utf8::char_u32_cast(rest@[0], decode_first_scalar(rb));
        }
        let width = leading_byte_width(bytes[start]);
        assert(rb[0] == bytes@[start as int]);
        let mut chars = rest.chars();
        match chars.next() {
            Some(c) => {
                Spanned::new(LexErrorKind::UnexpectedChar(c), Span::new(start, start + width))
            },
            None => {
                proof {
                    assert(false);
                }
                Spanned::new(LexErrorKind::UnexpectedChar(' '), Span::new(start, start))
            },
        }
    }

    /// Reads the integer literal whose first digit is at `start`.
    fn number(&mut self, start: usize) -> (r: Result<Token, LexError<'src>>)
        requires
            old(self).wf(),
            digits_end(old(self).source(), start as nat) <= u32::MAX,
            start < old(self).source().len(),
            is_digit(old(self).source()[start as int]),
            is_char_boundary(old(self).source(), start as int),
        ensures
            final(self).wf(),
            final(self).text() == old(self).text(),
            final(self).pos() == digits_end(old(self).source(), start as nat),
            ({
                let b = old(self).source();
                let e = digits_end(b, start as nat);
                let v = decimal_value(b.subrange(start as int, e as int));
                if v <= i64::MAX {
                    r == Ok::<Token, LexError<'src>>(
                        Spanned { kind: TokenKind::Integer(v as i64), span: Span::at(start as int, e as int) },
                    )
                } else {
                    lex_error_is(r->Err_0, Lexeme::InvalidInteger(start as nat, e), b) && r is Err
                }
            }),
    {
        let ghost b = self.src.spec_bytes();
        let bytes = self.src.as_bytes();
        proof {
            lemma_digits_end_bounds(b, start as nat);
        }
        let mut end = start;
        while end < bytes.len() && byte_is_digit(bytes[end])
            invariant
                start <= end <= bytes@.len(),
                bytes@ == b,
                digits_end(b, end as nat) == digits_end(b, start as nat),
            decreases bytes@.len() - end,
        {
            end = end + 1;
        }
        let ghost e = digits_end(b, start as nat);
        assert(end == e);
        proof {
            lemma_ascii_run_boundary(b, start as nat, e);
        }
        self.position = end;
        let span = Span::new(start, end);
        let ghost digits = b.subrange(start as int, end as int);

        let mut value: i64 = 0;
        let mut i = start;
        while i < end
            invariant
                start <= i <= end,
                end <= bytes@.len(),
                bytes@ == b,
                digits == b.subrange(start as int, end as int),
                forall|j: int| start <= j < end ==> is_digit(#[trigger] b[j]),
                value as int == decimal_value(digits.take(i - start)),
                self.wf(),
                self.src.spec_bytes() == b,
                self.src == old(self).src,
                self.position == end,
                end == digits_end(b, start as nat),
                span@ == (start as int, end as int),
                is_char_boundary(b, start as int),
                is_char_boundary(b, end as int),
            decreases end - i,
        {
            let d = (bytes[i] - 0x30) as i64;
            proof {
                assert(digits.take(i + 1 - start).drop_last() =~= digits.take(i - start));
                assert(digits.take(i + 1 - start).last() == b[i as int]);
            }
            assert(0 <= d <= 9);
            if value > (i64::MAX - d) / 10 {
                proof {
                    assert(value * 10 + d > i64::MAX) by (nonlinear_arith)
                        requires
                            value > (i64::MAX - d) / 10,
                            0 <= d <= 9,
                    ;
                    lemma_decimal_value_monotone(digits, i + 1 - start);
                }
                let slice = span.slice(self.src);
                return Err(Spanned::new(LexErrorKind::InvalidInteger(slice), span));
            }
            assert(value * 10 + d <= i64::MAX) by (nonlinear_arith)
                requires
                    value <= (i64::MAX - d) / 10,
                    0 <= d <= 9,
                    0 <= value,
            ;
            value = value * 10 + d;
            i = i + 1;
        }
        proof {
            assert(digits.take(end - start) =~= digits);
        }
        Ok(Spanned::new(TokenKind::Integer(value), span))
    }

    /// Moves past the ASCII whitespace at the current position.
    fn skip_whitespaces(&mut self)
        requires
            old(self).wf(),
        ensures
            final(self).wf(),
            final(self).text() == old(self).text(),
            final(self).pos() == skip_blanks(old(self).source(), old(self).pos()),
    {
        let ghost b = self.src.spec_bytes();
        let bytes = self.src.as_bytes();
        let mut i = self.position;
        proof {
            lemma_skip_blanks_bounds(b, i as nat);
        }
        while i < bytes.len() && byte_is_blank(bytes[i])
            invariant
                old(self).position <= i <= bytes@.len(),
                bytes@ == b,
                skip_blanks(b, i as nat) == skip_blanks(b, old(self).position as nat),
            decreases bytes@.len() - i,
        {
            i = i + 1;
        }
        proof {
            lemma_ascii_run_boundary(b, self.position as nat, i as nat);
        }
        self.position = i;
    }
}

/// A run reads at least as far as its first step, and, from a character
/// boundary inside the source, no further than the end of the source: a
/// source whose length fits in `u32` meets what `tokenize` requires.
pub proof fn lemma_run_reach(b: Seq<u8>, q: nat)
    ensures
        reach(lex(b, q)) <= run_reach(b, q),
        valid_utf8(b) && q <= b.len() && is_char_boundary(b, q as int) ==> run_reach(b, q) <= b.len(),
    decreases b.len() - q,
{
    lemma_token_progress(b, q);
    if valid_utf8(b) && q <= b.len() && is_char_boundary(b, q as int) {
        lemma_lex_bounds(b, q);
    }
    if let Lexeme::Token(t) = lex(b, q) {
        if t.kind != TokenKind::Eof {
            lemma_run_reach(b, t.end);
            lemma_skip_blanks_bounds(b, t.end);
            let s = skip_blanks(b, t.end);
            if s < b.len() && is_digit(b[s as int]) {
                lemma_digits_end_bounds(b, s);
            }
        }
    }
}

/// Lexes a whole source text: every token up to and including the end of
/// the input, or the first lexical error met on the way.
pub fn tokenize<'src>(src: &'src str) -> (r: Result<Vec<Token>, LexError<'src>>)
    requires
        run_reach(src.spec_bytes(), 0) <= u32::MAX,
    ensures
        match lex_all(src.spec_bytes(), 0) {
            Ok(ts) => r matches Ok(v) && v@.len() == ts.len() && forall|i: int|
                0 <= i < ts.len() ==> token_is(#[trigger] v@[i], ts[i]),
            Err(l) => r matches Err(e) && lex_error_is(e, l, src.spec_bytes()),
        },
{
    let ghost b = src.spec_bytes();
    let mut lexer = Lexer::new(src);
    let mut tokens: Vec<Token> = Vec::new();
    let ghost mut seen: Seq<Lexed> = seq![];
    proof {
        if let Ok(rest) = lex_all(b, 0) {
            assert(seen + rest =~= rest);
        }
    }
    loop
        invariant
            lexer.wf(),
            lexer.text() == src,
            b == src.spec_bytes(),
            run_reach(b, lexer.pos()) == run_reach(b, 0),
            run_reach(b, 0) <= u32::MAX,
            tokens@.len() == seen.len(),
            forall|i: int| 0 <= i < seen.len() ==> token_is(#[trigger] tokens@[i], seen[i]),
            lex_all(b, lexer.pos()) matches Ok(rest) ==> lex_all(b, 0) == Ok::<Seq<Lexed>, Lexeme>(
                seen + rest,
            ),
            lex_all(b, lexer.pos()) matches Err(l) ==> lex_all(b, 0) == Err::<Seq<Lexed>, Lexeme>(l),
        decreases b.len() - lexer.pos(),
    {
        let ghost q = lexer.pos();
        proof {
            lexer.lemma_wf();
            lemma_token_progress(b, q);
            lemma_run_reach(b, q);
        }
        match lexer.next_token() {
            Ok(token) => {
                let ghost t = lex(b, q)->Token_0;
                let eof = match token.kind {
                    TokenKind::Eof => true,
                    _ => false,
                };
                tokens.push(token);
                proof {
                    if let Ok(rest) = lex_all(b, t.end) {
                        if !eof {
                            assert(seen + (seq![t] + rest) =~= seen.push(t) + rest);
                        }
                    }
                    if eof {
                        assert(seen + seq![t] =~= seen.push(t));
                    }
                    seen = seen.push(t);
                }
                if eof {
                    return Ok(tokens);
                }
            },
            Err(e) => return Err(e),
        }
    }
}

// ---------------------------------------------------------------------------
// Conversions and text
// ---------------------------------------------------------------------------

/// The character a punctuation mark is written with.
pub open spec fn punct_char(p: Punct) -> char {
    match p {
        Punct::Plus => '+',
        Punct::Minus => '-',
        Punct::Star => '*',
        Punct::Slash => '/',
        Punct::OpenParen => '(',
        Punct::CloseParen => ')',
    }
}

/// The name of a punctuation mark, as its `Debug` form spells it.
pub open spec fn punct_name(p: Punct) -> Seq<char> {
    match p {
        Punct::Plus => "Plus"@,
        Punct::Minus => "Minus"@,
        Punct::Star => "Star"@,
        Punct::Slash => "Slash"@,
        Punct::OpenParen => "OpenParen"@,
        Punct::CloseParen => "CloseParen"@,
    }
}

impl From<Punct> for char {
    fn from(punct: Punct) -> (c: char)
        ensures
            c == punct_char(punct),
    {
        match punct {
            Punct::Plus => '+',
            Punct::Minus => '-',
            Punct::Star => '*',
            Punct::Slash => '/',
            Punct::OpenParen => '(',
            Punct::CloseParen => ')',
        }
    }
}

impl vstd::std_specs::convert::FromSpecImpl<Punct> for char {
    open spec fn obeys_from_spec() -> bool {
        true
    }

    open spec fn from_spec(v: Punct) -> char {
        punct_char(v)
    }
}

impl From<Punct> for TokenKind {
    fn from(value: Punct) -> (k: TokenKind)
        ensures
            k == TokenKind::Punct(value),
    {
        Self::Punct(value)
    }
}

impl vstd::std_specs::convert::FromSpecImpl<Punct> for TokenKind {
    open spec fn obeys_from_spec() -> bool {
        true
    }

    open spec fn from_spec(v: Punct) -> TokenKind {
        TokenKind::Punct(v)
    }
}

impl From<i64> for TokenKind {
    fn from(value: i64) -> (k: TokenKind)
        ensures
            k == TokenKind::Integer(value),
    {
        Self::Integer(value)
    }
}

impl vstd::std_specs::convert::FromSpecImpl<i64> for TokenKind {
    open spec fn obeys_from_spec() -> bool {
        true
    }

    open spec fn from_spec(v: i64) -> TokenKind {
        TokenKind::Integer(v)
    }
}

/// The text of a token: its kind, how it is written and where it starts,
/// e.g. `<Plus, '+', 4>`, `<Integer, '33', 1>`, `<Eof, 17>`.
pub open spec fn token_text(t: Token) -> Seq<char> {
    let position = decimal_text(t.span@.0 as nat);
    match t.kind {
        TokenKind::Integer(n) => "<Integer, '"@ + signed_text(n as int) + "', "@ + position + ">"@,
        TokenKind::Punct(p) => "<"@ + punct_name(p) + ", '"@ + seq![punct_char(p)] + "', "@
            + position + ">"@,
        TokenKind::Eof => "<Eof, "@ + position + ">"@,
    }
}

/// The text of a token kind alone, without a position, e.g. `<Plus, '+'>`.
pub open spec fn token_kind_text(k: TokenKind) -> Seq<char> {
    match k {
        TokenKind::Integer(n) => "<Integer, '"@ + signed_text(n as int) + "'>"@,
        TokenKind::Punct(p) => "<"@ + punct_name(p) + ", '"@ + seq![punct_char(p)] + "'>"@,
        TokenKind::Eof => "<Eof>"@,
    }
}

/// What went wrong, in words.
pub open spec fn lex_error_kind_text(k: LexErrorKind) -> Seq<char> {
    match k {
        LexErrorKind::UnexpectedChar(c) => "unexpected character '"@ + seq![c] + "'"@,
        LexErrorKind::InvalidInteger(text) => "integer '"@ + text@ + "' doesn't fit in 64 bits"@,
    }
}

/// The text of a lexical error: where it happened and what went wrong.
pub open spec fn lex_error_text(e: LexError) -> Seq<char> {
    "lexical error at "@ + decimal_text(e.span@.0 as nat) + ": "@ + lex_error_kind_text(e.kind)
}

/// Appends the name and the character of a punctuation mark: `<Plus, '+`.
fn push_punct(s: &mut String, punct: Punct)
    ensures
        final(s)@ == old(s)@ + "<"@ + punct_name(punct) + ", '"@ + seq![punct_char(punct)],
{
    s.append("<");
    match punct {
        Punct::Plus => s.append("Plus"),
        Punct::Minus => s.append("Minus"),
        Punct::Star => s.append("Star"),
        Punct::Slash => s.append("Slash"),
        Punct::OpenParen => s.append("OpenParen"),
        Punct::CloseParen => s.append("CloseParen"),
    }
    s.append(", '");
    push_char(s, char::from(punct));
    proof {
        assert(s@ =~= old(s)@ + "<"@ + punct_name(punct) + ", '"@ + seq![punct_char(punct)]);
    }
}

impl Spanned<TokenKind> {
    /// The text of the token, as `token_text` spells it.
    pub fn to_string(&self) -> (r: String)
        ensures
            r@ == token_text(*self),
    {
        let position = self.span.start;
        let mut s = String::new();
        match self.kind {
            TokenKind::Integer(value) => {
                s.append("<Integer, '");
                push_signed(&mut s, value);
                s.append("', ");
                push_decimal(&mut s, position as u64);
                s.append(">");
            },
            TokenKind::Punct(punct) => {
                push_punct(&mut s, punct);
                s.append("', ");
                push_decimal(&mut s, position as u64);
                s.append(">");
            },
            TokenKind::Eof => {
                s.append("<Eof, ");
                push_decimal(&mut s, position as u64);
                s.append(">");
            },
        }
        proof {
            assert(s@ =~= token_text(*self));
        }
        s
    }
}

impl TokenKind {
    /// The text of the token kind, as `token_kind_text` spells it.
    pub fn describe(&self) -> (r: String)
        ensures
            r@ == token_kind_text(*self),
    {
        let mut s = String::new();
        match *self {
            TokenKind::Integer(value) => {
                s.append("<Integer, '");
                push_signed(&mut s, value);
                s.append("'>");
            },
            TokenKind::Punct(punct) => {
                push_punct(&mut s, punct);
                s.append("'>");
            },
            TokenKind::Eof => {
                s.append("<Eof>");
            },
        }
        proof {
            assert(s@ =~= token_kind_text(*self));
        }
        s
    }
}

impl<'src> LexErrorKind<'src> {
    /// What went wrong, as `lex_error_kind_text` spells it.
    pub fn message(&self) -> (r: String)
        ensures
            r@ == lex_error_kind_text(*self),
    {
        let mut s = String::new();
        match *self {
            LexErrorKind::UnexpectedChar(c) => {
                s.append("unexpected character '");
                push_char(&mut s, c);
                s.append("'");
            },
            LexErrorKind::InvalidInteger(text) => {
                s.append("integer '");
                s.append(text);
                s.append("' doesn't fit in 64 bits");
            },
        }
        proof {
            assert(s@ =~= lex_error_kind_text(*self));
        }
        s
    }
}

impl<'src> Spanned<LexErrorKind<'src>> {
    /// The text of the error, as `lex_error_text` spells it.
    pub fn to_string(&self) -> (r: String)
        ensures
            r@ == lex_error_text(*self),
    {
        let mut s = String::new();
        s.append("lexical error at ");
        push_decimal(&mut s, self.span.start as u64);
        s.append(": ");
        let message = self.kind.message();
        s.append(message.as_str());
        proof {
            assert(s@ =~= lex_error_text(*self));
        }
        s
    }
}

// ---------------------------------------------------------------------------
// Laws of lexing
// ---------------------------------------------------------------------------

/// Only ASCII whitespace stands between the position a step starts from and
/// what it reads, and the step after a token starts no earlier than the
/// token's end: tokens come in order and never overlap.
pub proof fn law_tokens_in_order(b: Seq<u8>, q: nat)
    ensures
        match lex(b, q) {
            Lexeme::Token(t) => forall|i: int| q <= i < t.start ==> is_blank(#[trigger] b[i]),
            Lexeme::UnexpectedChar(_, s, _) => forall|i: int| q <= i < s ==> is_blank(#[trigger] b[i]),
            Lexeme::InvalidInteger(s, _) => forall|i: int| q <= i < s ==> is_blank(#[trigger] b[i]),
        },
        lex(b, q) matches Lexeme::Token(t) ==> match lex(b, t.end) {
            Lexeme::Token(u) => t.end <= u.start,
            Lexeme::UnexpectedChar(_, s, _) => t.end <= s,
            Lexeme::InvalidInteger(s, _) => t.end <= s,
        },
{
    lemma_skip_blanks_bounds(b, q);
    if let Lexeme::Token(t) = lex(b, q) {
        lemma_skip_blanks_bounds(b, t.end);
    }
}

/// An integer token is spelled by the ASCII digits of its span, and its
/// value is theirs; an integer that does not fit is spelled the same way,
/// with a value above `i64::MAX`.
pub proof fn law_integer_spelling(b: Seq<u8>, q: nat)
    ensures
        lex(b, q) matches Lexeme::Token(t) ==> (t.kind matches TokenKind::Integer(v) ==> {
            &&& t.start < t.end <= b.len()
            &&& forall|i: int| t.start <= i < t.end ==> is_digit(#[trigger] b[i])
            &&& decimal_value(b.subrange(t.start as int, t.end as int)) == v
        }),
        lex(b, q) matches Lexeme::InvalidInteger(s, e) ==> {
            &&& s < e <= b.len()
            &&& forall|i: int| s <= i < e ==> is_digit(#[trigger] b[i])
            &&& e < b.len() ==> !is_digit(b[e as int])
            &&& decimal_value(b.subrange(s as int, e as int)) > i64::MAX
        },
{
    lemma_skip_blanks_bounds(b, q);
    let s = skip_blanks(b, q);
    if s < b.len() && is_digit(b[s as int]) {
        lemma_digits_end_bounds(b, s);
    }
}

/// At the end of the input the lexer stays there: the end of input is an
/// empty token at the source's length, and the step after it is the end of
/// input again, at the same place.
pub proof fn law_end_of_input_repeats(b: Seq<u8>, q: nat)
    requires
        q <= b.len(),
    ensures
        lex(b, q) matches Lexeme::Token(t) ==> (t.kind == TokenKind::Eof ==> t.start == b.len()
            && t.end == b.len()),
        lex(b, q) matches Lexeme::Token(t) && t.kind == TokenKind::Eof ==> lex(b, resume(lex(b, q)))
            == lex(b, q),
{
    lemma_skip_blanks_bounds(b, q);
}

/// A character that no token starts with stops the lexer on it: the next
/// step meets the same character at the same place.
pub proof fn law_unexpected_char_repeats(b: Seq<u8>, q: nat)
    ensures
        lex(b, q) is UnexpectedChar ==> lex(b, resume(lex(b, q))) == lex(b, q),
{
    lemma_skip_blanks_bounds(b, q);
}

/// Every token is spelled in the source as `spelled` says: a maximal run
/// of digits for an integer, its one byte for a punctuation mark, nothing at
/// the source's length for the end of the input.
pub proof fn law_token_spelling(b: Seq<u8>, q: nat)
    requires
        q <= b.len(),
    ensures
        lex(b, q) matches Lexeme::Token(t) ==> spelled(b, t),
{
    lemma_skip_blanks_bounds(b, q);
    let s = skip_blanks(b, q);
    if s < b.len() && is_digit(b[s as int]) {
        lemma_digits_end_bounds(b, s);
    }
}

/// A whole run of the lexer from `q` that meets no error covers the source
/// in order: the first token is what a step from `q` gives and each next one
/// what a step from the end of the one before gives, as successive calls of
/// `next_token` do; each token is spelled there, each but the last covers at
/// least one byte and is not the end of the input, no two overlap, only
/// ASCII whitespace stands before the first and between two of them, and the
/// last is the end of the input at the source's length. There are no more
/// tokens before the end of the input than bytes.
pub proof fn law_run_covers_source(b: Seq<u8>, q: nat)
    requires
        q <= b.len(),
    ensures
        lex_all(b, q) matches Ok(ts) ==> {
            &&& ts.len() >= 1
            &&& ts.last().kind == TokenKind::Eof
            &&& ts.last().start == b.len()
            &&& forall|i: int| 0 <= i < ts.len() ==> spelled(b, #[trigger] ts[i])
            &&& forall|i: int| 0 <= i < ts.len() - 1 ==> (#[trigger] ts[i]).kind != TokenKind::Eof
                && ts[i].start < ts[i].end
            &&& lex(b, q) == Lexeme::Token(ts[0])
            &&& forall|i: int, k: int|
                #![trigger ts[i], ts[k]]
                0 <= i && k == i + 1 && k < ts.len() ==> lex(b, ts[i].end) == Lexeme::Token(ts[k])
            &&& q <= ts[0].start
            &&& forall|j: int| q <= j < ts[0].start ==> is_blank(#[trigger] b[j])
            &&& forall|i: int, k: int|
                #![trigger ts[i], ts[k]]
                0 <= i && k == i + 1 && k < ts.len() ==> ts[i].end <= ts[k].start
            &&& forall|i: int, k: int, j: int|
                #![trigger ts[i], ts[k], b[j]]
                0 <= i && k == i + 1 && k < ts.len() && ts[i].end <= j < ts[k].start ==> is_blank(
                    b[j],
                )
            &&& ts.len() - 1 <= b.len() - q
        },
    decreases b.len() - q,
{
    lemma_skip_blanks_bounds(b, q);
    lemma_token_progress(b, q);
    law_token_spelling(b, q);
    if let Lexeme::Token(t) = lex(b, q) {
        if t.kind != TokenKind::Eof {
            law_run_covers_source(b, t.end);
            if let Ok(rest) = lex_all(b, t.end) {
                let ts = seq![t] + rest;
                assert(lex_all(b, q) == Ok::<Seq<Lexed>, Lexeme>(ts));
                assert(ts[0] == t);
                assert forall|i: int| 0 <= i < rest.len() implies ts[i + 1] == rest[i] by {}
                assert(ts.last() == rest.last());
                assert forall|i: int| 0 <= i < ts.len() implies spelled(b, #[trigger] ts[i]) by {
                    if i > 0 {
                        assert(ts[i] == rest[i - 1]);
                    }
                }
                assert forall|i: int| 0 <= i < ts.len() - 1 implies (#[trigger] ts[i]).kind
                    != TokenKind::Eof && ts[i].start < ts[i].end by {
                    if i > 0 {
                        assert(ts[i] == rest[i - 1]);
                    }
                }
                assert forall|i: int, k: int|
                    #![trigger ts[i], ts[k]]
                    0 <= i && k == i + 1 && k < ts.len() implies ts[i].end <= ts[k].start && lex(
                        b,
                        ts[i].end,
                    ) == Lexeme::Token(ts[k]) by {
                    assert(ts[k] == rest[k - 1]);
                    if i > 0 {
                        assert(ts[i] == rest[i - 1]);
                        assert(rest[i - 1].end <= rest[k - 1].start);
                        assert(lex(b, rest[i - 1].end) == Lexeme::Token(rest[k - 1]));
                    }
                }
                assert forall|i: int, k: int, j: int|
                    #![trigger ts[i], ts[k], b[j]]
                    0 <= i && k == i + 1 && k < ts.len() && ts[i].end <= j < ts[k].start implies is_blank(
                        b[j],
                    ) by {
                    assert(ts[k] == rest[k - 1]);
                    if i > 0 {
                        assert(ts[i] == rest[i - 1]);
                        assert(is_blank(b[j]));
                    } else {
                        assert(is_blank(b[j]));
                    }
                }
            }
        } else {
            assert(lex_all(b, q) == Ok::<Seq<Lexed>, Lexeme>(seq![t]));
        }
    }
}

/// What a step meets is decided by the first byte after the ASCII whitespace
/// (space, tab, line feed, form feed, carriage return): a
/// digit starts an integer (or an integer too large for `i64`), each of
/// `+ - * / ( )` is that punctuation mark alone, and only any other
/// character is unexpected; past the end of the source lies the end of the
/// input.
pub proof fn law_step_by_first_byte(b: Seq<u8>, q: nat, s: nat)
    requires
        q <= s <= b.len(),
        forall|j: int|
            q <= j < s ==> (#[trigger] b[j] == 0x20 || b[j] == 0x09 || b[j] == 0x0a || b[j] == 0x0c
                || b[j] == 0x0d),
        s < b.len() ==> !(b[s as int] == 0x20 || b[s as int] == 0x09 || b[s as int] == 0x0a
            || b[s as int] == 0x0c || b[s as int] == 0x0d),
    ensures
        s == b.len() ==> lex(b, q) == Lexeme::Token(Lexed { kind: TokenKind::Eof, start: s, end: s }),
        s < b.len() && 0x30 <= b[s as int] <= 0x39 ==> (lex(b, q) matches Lexeme::Token(t) && t.kind
            is Integer && t.start == s) || (lex(b, q) matches Lexeme::InvalidInteger(st, _) && st == s),
        s < b.len() && b[s as int] == 0x2b ==> lex(b, q) == Lexeme::Token(
            Lexed { kind: TokenKind::Punct(Punct::Plus), start: s, end: s + 1 },
        ),
        s < b.len() && b[s as int] == 0x2d ==> lex(b, q) == Lexeme::Token(
            Lexed { kind: TokenKind::Punct(Punct::Minus), start: s, end: s + 1 },
        ),
        s < b.len() && b[s as int] == 0x2a ==> lex(b, q) == Lexeme::Token(
            Lexed { kind: TokenKind::Punct(Punct::Star), start: s, end: s + 1 },
        ),
        s < b.len() && b[s as int] == 0x2f ==> lex(b, q) == Lexeme::Token(
            Lexed { kind: TokenKind::Punct(Punct::Slash), start: s, end: s + 1 },
        ),
        s < b.len() && b[s as int] == 0x28 ==> lex(b, q) == Lexeme::Token(
            Lexed { kind: TokenKind::Punct(Punct::OpenParen), start: s, end: s + 1 },
        ),
        s < b.len() && b[s as int] == 0x29 ==> lex(b, q) == Lexeme::Token(
            Lexed { kind: TokenKind::Punct(Punct::CloseParen), start: s, end: s + 1 },
        ),
        lex(b, q) matches Lexeme::UnexpectedChar(_, st, _) ==> st == s && s < b.len() && !(0x30
            <= b[s as int] <= 0x39) && b[s as int] != 0x2b && b[s as int] != 0x2d && b[s as int]
            != 0x2a && b[s as int] != 0x2f && b[s as int] != 0x28 && b[s as int] != 0x29,
    decreases s - q,
{
    if q < s {
        law_step_by_first_byte(b, q + 1, s);
        assert(lex(b, q) == lex(b, q + 1));
    }
}

/// The text of a token ends with its full start offset in decimal, after
/// `, ` and before the closing `>`; an integer's text begins with its full
/// value, and a punctuation mark's with its character.
pub proof fn law_token_text_position(t: Token)
    ensures
        ({
            let x = token_text(t);
            let tail = ", "@ + decimal_text(t.span@.0 as nat) + ">"@;
            &&& x.len() >= tail.len()
            &&& x.subrange(x.len() - tail.len(), x.len() as int) == tail
        }),
        t.kind matches TokenKind::Integer(n) ==> token_text(t).take(
            (11 + signed_text(n as int).len()) as int,
        ) == "<Integer, '"@ + signed_text(n as int),
        t.kind matches TokenKind::Punct(p) ==> token_text(t).take((4 + punct_name(p).len()) as int)
            == "<"@ + punct_name(p) + ", '"@ && token_text(t)[(4 + punct_name(p).len()) as int]
            == punct_char(p),
{
    let x = token_text(t);
    let tail = ", "@ + decimal_text(t.span@.0 as nat) + ">"@;
    reveal_strlit(", ");
    reveal_strlit(">");
    reveal_strlit("<Integer, '");
    reveal_strlit("', ");
    reveal_strlit("<");
    reveal_strlit(", '");
    reveal_strlit("<Eof");
    match t.kind {
        TokenKind::Integer(n) => {
            let head = "<Integer, '"@ + signed_text(n as int) + "'"@;
            reveal_strlit("'");
            assert("', "@ =~= "'"@ + ", "@);
            assert(x =~= head + tail);
            assert(x.take((11 + signed_text(n as int).len()) as int) =~= "<Integer, '"@ + signed_text(n as int));
        },
        TokenKind::Punct(p) => {
            let head = "<"@ + punct_name(p) + ", '"@ + seq![punct_char(p)] + "'"@;
            reveal_strlit("'");
            assert("', "@ =~= "'"@ + ", "@);
            assert(x =~= head + tail);
            assert(x.take((4 + punct_name(p).len()) as int) =~= "<"@ + punct_name(p) + ", '"@);
        },
        TokenKind::Eof => {
            reveal_strlit("<Eof, ");
            assert("<Eof, "@ =~= "<Eof"@ + ", "@);
            assert(x =~= "<Eof"@ + tail);
        },
    }
    assert(x.subrange(x.len() - tail.len(), x.len() as int) =~= tail);
}

} // verus!
