//! The parser: reads fully parenthesised arithmetic expressions,
//! `expr ::= integer | '(' expr operator expr ')'`, from the lexer's tokens.
//!
//! The model states the parse over the source bytes and the byte position
//! (the cursor) that the current lookahead token was lexed from.
use vstd::prelude::*;
use vstd::string::*;

use crate::lexer::{
    lex, lex_error_is, lex_error_kind_text, reach, token_is, token_kind_text, LexError,
    LexErrorKind, Lexed, Lexeme, Lexer, Punct, Span, Spanned, Token, TokenKind,
};

verus! {

broadcast use vstd::utf8::encode_utf8_valid_utf8;

pub struct Parser<'src> {
    lexer: Lexer<'src>,
    /// the next token we have from the current [lexer](Self::lexer)
    lookahead: Token,
    /// the position the lookahead was lexed from
    cursor: Ghost<nat>,
}

pub type Expression = Spanned<ExpressionKind>;

pub type ParseError<'src> = Spanned<ParseErrorKind<'src>>;

#[derive(Debug, PartialEq)]
pub enum ExpressionKind {
    Integer(i64),
    Binary { left: Box<Expression>, operator: BinaryOperator, right: Box<Expression> },
}

#[derive(Debug, PartialEq, Eq, Clone, Copy, Structural)]
pub enum BinaryOperator {
    Add,
    Sub,
    Mul,
    Div,
}

#[derive(Debug, PartialEq)]
pub enum ParseErrorKind<'src> {
    Lex(LexErrorKind<'src>),
    Expected { found: TokenKind, expected: TokenKind },
    ExpectedExpression { found: TokenKind },
    ExpectedOperator { found: TokenKind },
}

// ---------------------------------------------------------------------------
// The model of a parse
// ---------------------------------------------------------------------------

/// Why a parse stops: a lexical error met while moving to the next token, or
/// a token that the grammar does not allow where it stands (with its range).
pub enum ParseFault {
    Lex(Lexeme),
    Expected(TokenKind, TokenKind, nat, nat),
    ExpectedExpression(TokenKind, nat, nat),
    ExpectedOperator(TokenKind, nat, nat),
}

/// The operator a token stands for, if any.
pub open spec fn operator_of(k: TokenKind) -> Option<BinaryOperator> {
    match k {
        TokenKind::Punct(Punct::Plus) => Some(BinaryOperator::Add),
        TokenKind::Punct(Punct::Minus) => Some(BinaryOperator::Sub),
        TokenKind::Punct(Punct::Star) => Some(BinaryOperator::Mul),
        TokenKind::Punct(Punct::Slash) => Some(BinaryOperator::Div),
        _ => None,
    }
}

/// Moving past the token `t`: the position of the next token, or the
/// lexical error met there.
pub open spec fn step_past(b: Seq<u8>, t: Lexed) -> Result<nat, ParseFault> {
    match lex(b, t.end) {
        Lexeme::Token(_) => Ok(t.end),
        fault => Err(ParseFault::Lex(fault)),
    }
}

/// An operator at position `c`: the operator and the position of the token
/// after it.
pub open spec fn parse_operator_at(b: Seq<u8>, c: nat) -> Result<(BinaryOperator, nat), ParseFault> {
    match lex(b, c) {
        Lexeme::Token(t) => match operator_of(t.kind) {
            Some(op) => match step_past(b, t) {
                Ok(next) => Ok((op, next)),
                Err(f) => Err(f),
            },
            None => Err(ParseFault::ExpectedOperator(t.kind, t.start, t.end)),
        },
        fault => Err(ParseFault::Lex(fault)),
    }
}

/// The given punctuation at position `c`: its token and the position of the
/// token after it.
pub open spec fn expect_punct_at(b: Seq<u8>, c: nat, p: Punct) -> Result<(Lexed, nat), ParseFault> {
    match lex(b, c) {
        Lexeme::Token(t) => if t.kind == TokenKind::Punct(p) {
            match step_past(b, t) {
                Ok(next) => Ok((t, next)),
                Err(f) => Err(f),
            }
        } else {
            Err(ParseFault::Expected(t.kind, TokenKind::Punct(p), t.start, t.end))
        },
        fault => Err(ParseFault::Lex(fault)),
    }
}

/// The token can start an expression: an integer or an opening parenthesis.
pub open spec fn starts_expression(k: TokenKind) -> bool {
    k is Integer || k == TokenKind::Punct(Punct::OpenParen)
}

/// The span of a token.
pub open spec fn span_of(t: Lexed) -> Span {
    Span::at(t.start as int, t.end as int)
}

/// The expression that starts at position `c` of `b`: how many bytes it
/// takes up to the token after it, and the expression with its spans; or why
/// there is none.
pub open spec fn parse_expr(b: Seq<u8>, c: nat) -> Result<(nat, Expression), ParseFault>
    decreases b.len() - c,
{
    match lex(b, c) {
        Lexeme::Token(t) => match t.kind {
            TokenKind::Integer(n) => match step_past(b, t) {
                Ok(next) => Ok(
                    ((next - c) as nat, Spanned { kind: ExpressionKind::Integer(n), span: span_of(t) }),
                ),
                Err(f) => Err(f),
            },
            TokenKind::Punct(Punct::OpenParen) => {
                proof {
                    crate::lexer::lemma_token_progress(b, c);
                }
                match parse_expr(b, t.end) {
                    Err(f) => Err(f),
                    Ok((k1, left)) => {
                        let c2 = t.end + k1;
                        match parse_operator_at(b, c2) {
                            Err(f) => Err(f),
                            Ok((operator, c3)) => {
                                proof {
                                    lemma_operator_progress(b, c2);
                                }
                                match parse_expr(b, c3) {
                                    Err(f) => Err(f),
                                    Ok((k3, right)) => match expect_punct_at(
                                        b,
                                        c3 + k3,
                                        Punct::CloseParen,
                                    ) {
                                        Err(f) => Err(f),
                                        Ok((close, next)) => Ok(
                                            (
                                                (next - c) as nat,
                                                Spanned {
                                                    kind: ExpressionKind::Binary {
                                                        left: Box::new(left),
                                                        operator,
                                                        right: Box::new(right),
                                                    },
                                                    span: Span::at(t.start as int, close.end as int),
                                                },
                                            ),
                                        ),
                                    },
                                }
                            },
                        }
                    },
                }
            },
            found => Err(ParseFault::ExpectedExpression(found, t.start, t.end)),
        },
        fault => Err(ParseFault::Lex(fault)),
    }
}

/// A whole source text holds one expression and nothing after it.
pub open spec fn parse_source(b: Seq<u8>) -> Result<Expression, ParseFault> {
    match parse_expr(b, 0) {
        Err(f) => Err(f),
        Ok((k, e)) => match lex(b, k) {
            Lexeme::Token(t) => if t.kind == TokenKind::Eof {
                Ok(e)
            } else {
                Err(ParseFault::Expected(t.kind, TokenKind::Eof, t.start, t.end))
            },
            fault => Err(ParseFault::Lex(fault)),
        },
    }
}

/// The error `e` is the fault `f` met in the source `b`.
pub open spec fn fault_is(e: ParseError, f: ParseFault, b: Seq<u8>) -> bool {
    match f {
        ParseFault::Lex(l) => {
            &&& e.kind matches ParseErrorKind::Lex(k)
            &&& lex_error_is(Spanned { kind: k, span: e.span }, l, b)
        },
        ParseFault::Expected(found, expected, s, en) => {
            &&& e.kind == ParseErrorKind::Expected { found, expected }
            &&& e.span@ == (s as int, en as int)
        },
        ParseFault::ExpectedExpression(found, s, en) => {
            &&& e.kind == ParseErrorKind::ExpectedExpression { found }
            &&& e.span@ == (s as int, en as int)
        },
        ParseFault::ExpectedOperator(found, s, en) => {
            &&& e.kind == ParseErrorKind::ExpectedOperator { found }
            &&& e.span@ == (s as int, en as int)
        },
    }
}

/// The outcome `r` of a parse is the model's outcome `m`.
pub open spec fn outcome_is<T>(r: Result<T, ParseError>, m: Result<T, ParseFault>, b: Seq<u8>) -> bool {
    match m {
        Ok(v) => r matches Ok(x) && x == v,
        Err(f) => r matches Err(e) && fault_is(e, f, b),
    }
}

/// An operator is followed by a token further on, inside the source.
pub proof fn lemma_operator_progress(b: Seq<u8>, c: nat)
    ensures
        parse_operator_at(b, c) matches Ok((_, next)) ==> c < next <= b.len(),
{
    crate::lexer::lemma_token_progress(b, c);
}

/// How far into the source a fault reaches.
pub open spec fn fault_reach(f: ParseFault) -> nat {
    match f {
        ParseFault::Lex(l) => reach(l),
        ParseFault::Expected(_, _, _, e) => e,
        ParseFault::ExpectedExpression(_, _, e) => e,
        ParseFault::ExpectedOperator(_, _, e) => e,
    }
}

/// How far into the source the lexer reads while an expression is parsed
/// from `c`: to the end of the token after the expression, or to the end of
/// what stopped the parse.
pub open spec fn expr_reach(b: Seq<u8>, c: nat) -> nat {
    match parse_expr(b, c) {
        Ok((k, _)) => reach(lex(b, c + k)),
        Err(f) => fault_reach(f),
    }
}

/// How far into the source the lexer reads while an operator is parsed from `c`.
pub open spec fn operator_reach(b: Seq<u8>, c: nat) -> nat {
    match parse_operator_at(b, c) {
        Ok((_, next)) => reach(lex(b, next)),
        Err(f) => fault_reach(f),
    }
}

/// How far into the source the lexer reads while a closing parenthesis is
/// expected at `c`.
pub open spec fn close_reach(b: Seq<u8>, c: nat) -> nat {
    match expect_punct_at(b, c, Punct::CloseParen) {
        Ok((_, next)) => reach(lex(b, next)),
        Err(f) => fault_reach(f),
    }
}

/// A step reaches at least as far as the position it starts from.
pub proof fn lemma_reach_from(b: Seq<u8>, q: nat)
    ensures
        q <= reach(lex(b, q)),
{
    crate::lexer::lemma_skip_blanks_bounds(b, q);
    let s = crate::lexer::skip_blanks(b, q);
    if s < b.len() && crate::lexer::is_digit(b[s as int]) {
        crate::lexer::lemma_digits_end_bounds(b, s);
    }
}

/// A parse reaches at least as far as its first token.
pub proof fn lemma_expr_reach(b: Seq<u8>, c: nat)
    ensures
        reach(lex(b, c)) <= expr_reach(b, c),
    decreases b.len() - c, 1nat,
{
    crate::lexer::lemma_token_progress(b, c);
    if let Lexeme::Token(t) = lex(b, c) {
        lemma_reach_from(b, t.end);
        if t.kind == TokenKind::Punct(Punct::OpenParen) {
            lemma_paren_stages_reach(b, c);
            lemma_expr_reach(b, t.end);
        }
    }
}

/// An operator reaches at least as far as its token.
proof fn lemma_operator_reach(b: Seq<u8>, c: nat)
    ensures
        reach(lex(b, c)) <= operator_reach(b, c),
{
    crate::lexer::lemma_token_progress(b, c);
    if let Lexeme::Token(t) = lex(b, c) {
        lemma_reach_from(b, t.end);
    }
}

/// A closing parenthesis reaches at least as far as its token.
proof fn lemma_close_reach(b: Seq<u8>, c: nat)
    ensures
        reach(lex(b, c)) <= close_reach(b, c),
{
    crate::lexer::lemma_token_progress(b, c);
    if let Lexeme::Token(t) = lex(b, c) {
        lemma_reach_from(b, t.end);
    }
}

/// Each stage of a parenthesised operation reaches no further than the
/// whole parse.
#[verifier::rlimit(40)]
pub proof fn lemma_paren_stages_reach(b: Seq<u8>, c: nat)
    requires
        lex(b, c) matches Lexeme::Token(t) && t.kind == TokenKind::Punct(Punct::OpenParen),
    ensures
        ({
            let c1 = lex(b, c)->Token_0.end;
            &&& expr_reach(b, c1) <= expr_reach(b, c)
            &&& parse_expr(b, c1) matches Ok((k1, _)) ==> {
                &&& operator_reach(b, c1 + k1) <= expr_reach(b, c)
                &&& parse_operator_at(b, c1 + k1) matches Ok((_, c3)) ==> {
                    &&& expr_reach(b, c3) <= expr_reach(b, c)
                    &&& parse_expr(b, c3) matches Ok((k3, _)) ==> close_reach(b, c3 + k3)
                        <= expr_reach(b, c)
                }
            }
        }),
    decreases b.len() - c, 0nat,
{
    crate::lexer::lemma_token_progress(b, c);
    let t = lex(b, c)->Token_0;
    let c1 = t.end;
    match parse_expr(b, c1) {
        Err(f) => {
            assert(parse_expr(b, c) == Err::<(nat, Expression), ParseFault>(f));
        },
        Ok((k1, _)) => {
            let c2 = c1 + k1;
            lemma_operator_reach(b, c2);
            lemma_operator_progress(b, c2);
            match parse_operator_at(b, c2) {
                Err(f) => {
                    assert(parse_expr(b, c) == Err::<(nat, Expression), ParseFault>(f));
                },
                Ok((_, c3)) => {
                    lemma_expr_reach(b, c3);
                    match parse_expr(b, c3) {
                        Err(f) => {
                            assert(parse_expr(b, c) == Err::<(nat, Expression), ParseFault>(f));
                        },
                        Ok((k3, _)) => {
                            let c4 = c3 + k3;
                            lemma_close_reach(b, c4);
                            crate::lexer::lemma_token_progress(b, c4);
                            match expect_punct_at(b, c4, Punct::CloseParen) {
                                Err(f) => {
                                    assert(parse_expr(b, c) == Err::<(nat, Expression), ParseFault>(
                                        f,
                                    ));
                                },
                                Ok((_, next)) => {
                                    assert(parse_expr(b, c)->Ok_0.0 == (next - c) as nat);
                                },
                            }
                        },
                    }
                },
            }
        },
    }
}

/// An operator or a closing parenthesis read from a character boundary
/// inside the source leaves the parser on a boundary inside it, and the
/// lexer reads no further than the end.
proof fn lemma_token_in_source(b: Seq<u8>, c: nat)
    requires
        vstd::utf8::valid_utf8(b),
        c <= b.len(),
        vstd::utf8::is_char_boundary(b, c as int),
    ensures
        operator_reach(b, c) <= b.len(),
        parse_operator_at(b, c) matches Ok((_, next)) ==> next <= b.len()
            && vstd::utf8::is_char_boundary(b, next as int),
        close_reach(b, c) <= b.len(),
        expect_punct_at(b, c, Punct::CloseParen) matches Ok((_, next)) ==> next <= b.len()
            && vstd::utf8::is_char_boundary(b, next as int),
        reach(lex(b, c)) <= b.len(),
{
    crate::lexer::lemma_lex_bounds(b, c);
    if let Lexeme::Token(t) = lex(b, c) {
        crate::lexer::lemma_lex_bounds(b, t.end);
    }
}

/// A parse that starts on a character boundary inside the source stays in
/// it: the position after an expression is a boundary inside the source, and
/// the lexer never reads past the end, whether the parse succeeds or not.
#[verifier::spinoff_prover]
#[verifier::rlimit(60)]
pub proof fn lemma_parse_in_source(b: Seq<u8>, c: nat)
    requires
        vstd::utf8::valid_utf8(b),
        c <= b.len(),
        vstd::utf8::is_char_boundary(b, c as int),
    ensures
        parse_expr(b, c) matches Ok((k, _)) ==> c + k <= b.len() && vstd::utf8::is_char_boundary(
            b,
            (c + k) as int,
        ),
        expr_reach(b, c) <= b.len(),
    decreases b.len() - c,
{
    crate::lexer::lemma_lex_bounds(b, c);
    let l = lex(b, c);
    if let Lexeme::Token(t) = l {
        crate::lexer::lemma_lex_bounds(b, t.end);
        if t.kind == TokenKind::Punct(Punct::OpenParen) {
            lemma_paren_stages_reach(b, c);
            lemma_parse_in_source(b, t.end);
            if let Ok((k1, _)) = parse_expr(b, t.end) {
                let c2 = t.end + k1;
                lemma_token_in_source(b, c2);
                lemma_operator_progress(b, c2);
                if let Ok((_, c3)) = parse_operator_at(b, c2) {
                    lemma_parse_in_source(b, c3);
                    if let Ok((k3, _)) = parse_expr(b, c3) {
                        let c4 = c3 + k3;
                        lemma_token_in_source(b, c4);
                        crate::lexer::lemma_token_progress(b, c4);
                        if let Ok((_, next)) = expect_punct_at(b, c4, Punct::CloseParen) {
                            assert(parse_expr(b, c)->Ok_0.0 == (next - c) as nat);
                        }
                    }
                }
            }
        }
    }
}

/// A source text never makes the parser read past its end, so one whose
/// length fits in `u32` meets what `parse` requires.
pub proof fn lemma_source_reach(b: Seq<u8>)
    requires
        vstd::utf8::valid_utf8(b),
    ensures
        expr_reach(b, 0) <= b.len(),
{
    vstd::utf8::is_char_boundary_start_end_of_seq(b);
    lemma_parse_in_source(b, 0);
}

// ---------------------------------------------------------------------------
// The parser
// ---------------------------------------------------------------------------

pub trait Parsable<'src>: Sized {
    /// `r` is what parsing `Self` from `before` gives, and `after` is the
    /// parser that it leaves.
    spec fn parsed(before: Parser<'src>, after: Parser<'src>, r: Result<Self, ParseError<'src>>) -> bool;

    /// Every span that parsing `Self` from `parser` makes fits in `u32`.
    spec fn spans_fit(parser: Parser<'src>) -> bool;

    fn parse(parser: &mut Parser<'src>) -> (r: Result<Self, ParseError<'src>>)
        requires
            old(parser).wf(),
            Self::spans_fit(*old(parser)),
        ensures
            Self::parsed(*old(parser), *final(parser), r),
    ;
}

impl<'src> Parser<'src> {
    /// The source text.
    pub closed spec fn text(&self) -> &'src str {
        self.lexer.text()
    }

    /// The bytes of the source text.
    pub open spec fn source(&self) -> Seq<u8> {
        self.text().spec_bytes()
    }

    /// The position that the lookahead token was lexed from.
    pub closed spec fn cursor(&self) -> nat {
        self.cursor@
    }

    /// The lookahead is the token that lexing from the cursor gives, and the
    /// lexer stands right after it.
    pub closed spec fn wf(&self) -> bool {
        &&& self.lexer.wf()
        &&& self.cursor@ <= self.source().len()
        &&& vstd::utf8::is_char_boundary(self.source(), self.cursor@ as int)
        &&& lex(self.source(), self.cursor@) matches Lexeme::Token(t)
        &&& token_is(self.lookahead, t)
        &&& self.lexer.pos() == t.end
    }

    /// A well-formed parser stands on a character boundary inside its
    /// source, and what it reads next, an expression or an operator, lies
    /// inside the source too: with a source whose length fits in `u32`, every
    /// `Parsable` here can be parsed from it.
    pub proof fn lemma_wf(&self)
        requires
            self.wf(),
        ensures
            vstd::utf8::valid_utf8(self.source()),
            self.cursor() <= self.source().len(),
            vstd::utf8::is_char_boundary(self.source(), self.cursor() as int),
            expr_reach(self.source(), self.cursor()) <= self.source().len(),
            operator_reach(self.source(), self.cursor()) <= self.source().len(),
    {
        lemma_parse_in_source(self.source(), self.cursor@);
        lemma_token_in_source(self.source(), self.cursor@);
    }

    /// The token at the cursor.
    pub closed spec fn current(&self) -> Lexed {
        lex(self.source(), self.cursor@)->Token_0
    }

    pub fn new(src: &'src str) -> (r: Result<Self, ParseError<'src>>)
        requires
            reach(lex(src.spec_bytes(), 0)) <= u32::MAX,
        ensures
            match lex(src.spec_bytes(), 0) {
                Lexeme::Token(_) => r matches Ok(p) && p.wf() && p.text() == src && p.cursor() == 0,
                fault => r matches Err(e) && fault_is(e, ParseFault::Lex(fault), src.spec_bytes()),
            },
    {
        let mut lexer = Lexer::new(src);
        proof {
            crate::lexer::lemma_lex_bounds(src.spec_bytes(), 0);
            vstd::utf8::is_char_boundary_start_end_of_seq(src.spec_bytes());
        }
        match lexer.next_token() {
            Ok(lookahead) => Ok(Self { lexer, lookahead, cursor: Ghost(0) }),
            Err(e) => Err(ParseError::from(e)),
        }
    }

    /// Parses a `T` from the current position.
    pub fn parse_node<T: Parsable<'src>>(&mut self) -> (r: Result<T, ParseError<'src>>)
        requires
            old(self).wf(),
            T::spans_fit(*old(self)),
        ensures
            T::parsed(*old(self), *final(self), r),
    {
        T::parse(self)
    }

    /// The lookahead token.
    fn peek(&self) -> (t: Token)
        requires
            self.wf(),
        ensures
            token_is(t, self.current()),
    {
        self.lookahead
    }

    /// Moves to the token after the lookahead.
    fn advance(&mut self) -> (r: Result<(), ParseError<'src>>)
        requires
            old(self).wf(),
            reach(lex(old(self).source(), old(self).current().end)) <= u32::MAX,
        ensures
            final(self).text() == old(self).text(),
            match step_past(old(self).source(), old(self).current()) {
                Ok(next) => r is Ok && final(self).wf() && final(self).cursor() == next,
                Err(f) => r matches Err(e) && fault_is(e, f, old(self).source()),
            },
    {
        let ghost b = self.source();
        let ghost next = self.current().end;
        proof {
            crate::lexer::lemma_lex_bounds(b, self.cursor@);
            crate::lexer::lemma_lex_bounds(b, next);
        }
        match self.lexer.next_token() {
            Ok(token) => {
                self.lookahead = token;
                self.cursor = Ghost(next);
                Ok(())
            },
            Err(e) => Err(ParseError::from(e)),
        }
    }

    /// Moves past the lookahead if it is the given punctuation, and gives
    /// its span.
    fn expect_punct(&mut self, punct: Punct) -> (r: Result<Span, ParseError<'src>>)
        requires
            old(self).wf(),
            old(self).current().kind == TokenKind::Punct(punct) ==> reach(
                lex(old(self).source(), old(self).current().end),
            ) <= u32::MAX,
        ensures
            final(self).text() == old(self).text(),
            match expect_punct_at(old(self).source(), old(self).cursor(), punct) {
                Ok((t, next)) => r == Ok::<Span, ParseError<'src>>(span_of(t)) && final(self).wf()
                    && final(self).cursor() == next,
                Err(f) => r matches Err(e) && fault_is(e, f, old(self).source()),
            },
            old(self).current().kind != TokenKind::Punct(punct) ==> *final(self) == *old(self),
    {
        proof {
            crate::lexer::lemma_lex_bounds(self.source(), self.cursor@);
            self.lookahead.span.lemma_fits();
            self.lookahead.span.lemma_view(self.current().start as int, self.current().end as int);
        }
        let found = self.lookahead.kind;
        if found == TokenKind::Punct(punct) {
            let span = self.lookahead.span;
            match self.advance() {
                Ok(()) => Ok(span),
                Err(e) => Err(e),
            }
        } else {
            Err(self.error(ParseErrorKind::Expected { found, expected: TokenKind::Punct(punct) }))
        }
    }

    /// Succeeds when the lookahead is the end of the input.
    fn expect_eof(&mut self) -> (r: Result<(), ParseError<'src>>)
        requires
            old(self).wf(),
        ensures
            *final(self) == *old(self),
            old(self).current().kind == TokenKind::Eof ==> r is Ok,
            old(self).current().kind != TokenKind::Eof ==> (r matches Err(e) && fault_is(
                e,
                ParseFault::Expected(
                    old(self).current().kind,
                    TokenKind::Eof,
                    old(self).current().start,
                    old(self).current().end,
                ),
                old(self).source(),
            )),
    {
        match self.lookahead.kind {
            TokenKind::Eof => Ok(()),
            found => Err(self.error(ParseErrorKind::Expected { found, expected: TokenKind::Eof })),
        }
    }

    /// An error of the given kind at the lookahead.
    fn error(&self, kind: ParseErrorKind<'src>) -> (e: ParseError<'src>)
        requires
            self.wf(),
        ensures
            e.kind == kind,
            e.span@ == (self.current().start as int, self.current().end as int),
    {
        Spanned::new(kind, self.lookahead.span)
    }
}

/// Reads an expression at the parser's position.
#[verifier::spinoff_prover]
#[verifier::rlimit(40)]
fn parse_expression<'src>(parser: &mut Parser<'src>) -> (r: Result<Expression, ParseError<'src>>)
    requires
        old(parser).wf(),
        expr_reach(old(parser).source(), old(parser).cursor()) <= u32::MAX,
    ensures
        final(parser).text() == old(parser).text(),
        outcome_is(
            r,
            match parse_expr(old(parser).source(), old(parser).cursor()) {
                Ok((_, e)) => Ok(e),
                Err(f) => Err(f),
            },
            old(parser).source(),
        ),
        parse_expr(old(parser).source(), old(parser).cursor()) matches Ok((k, _))
            ==> final(parser).wf() && final(parser).cursor() == old(parser).cursor() + k,
        !starts_expression(old(parser).current().kind) ==> *final(parser) == *old(parser),
    decreases old(parser).source().len() - old(parser).cursor(),
{
    let ghost b = parser.source();
    let ghost c = parser.cursor();
    let ghost t = parser.current();
    proof {
        crate::lexer::lemma_lex_bounds(b, c);
        crate::lexer::lemma_token_progress(b, c);
    }
    let token = parser.peek();
    proof {
        token.span.lemma_fits();
        token.span.lemma_view(t.start as int, t.end as int);
        if t.kind == TokenKind::Punct(Punct::OpenParen) {
            lemma_paren_stages_reach(b, c);
            lemma_expr_reach(b, t.end);
        }
    }
    match token.kind {
        TokenKind::Integer(value) => {
            match parser.advance() {
                Ok(()) => {},
                Err(e) => return Err(e),
            }
            Ok(Spanned::new(ExpressionKind::Integer(value), token.span))
        },
        TokenKind::Punct(Punct::OpenParen) => {
            match parser.advance() {
                Ok(()) => {},
                Err(e) => {
                    assert(parse_expr(b, t.end) == Err::<(nat, Expression), ParseFault>(
                        ParseFault::Lex(lex(b, t.end)),
                    ));
                    return Err(e);
                },
            }
            let left = match parse_expression(parser) {
                Ok(left) => left,
                Err(e) => return Err(e),
            };
            let ghost c2 = parser.cursor();
            let operator = match parser.parse_node::<BinaryOperator>() {
                Ok(operator) => operator,
                Err(e) => return Err(e),
            };
            proof {
                lemma_operator_progress(b, c2);
            }
            let right = match parse_expression(parser) {
                Ok(right) => right,
                Err(e) => return Err(e),
            };
            let ghost c4 = parser.cursor();
            let close = match parser.expect_punct(Punct::CloseParen) {
                Ok(close) => close,
                Err(e) => return Err(e),
            };
            proof {
                crate::lexer::lemma_token_progress(b, c4);
                let ct = lex(b, c4)->Token_0;
                close.lemma_fits();
                close.lemma_view(ct.start as int, ct.end as int);
            }
            let kind = ExpressionKind::Binary {
                operator,
                left: Box::new(left),
                right: Box::new(right),
            };
            let span = token.span.merge(close);
            proof {
                let ct = lex(b, c4)->Token_0;
                span.lemma_view(t.start as int, ct.end as int);
            }
            Ok(Spanned::new(kind, span))
        },
        found => Err(parser.error(ParseErrorKind::ExpectedExpression { found })),
    }
}

/// Reads an operator at the parser's position.
fn parse_operator<'src>(parser: &mut Parser<'src>) -> (r: Result<BinaryOperator, ParseError<'src>>)
    requires
        old(parser).wf(),
        operator_reach(old(parser).source(), old(parser).cursor()) <= u32::MAX,
    ensures
        final(parser).text() == old(parser).text(),
        outcome_is(
            r,
            match parse_operator_at(old(parser).source(), old(parser).cursor()) {
                Ok((op, _)) => Ok(op),
                Err(f) => Err(f),
            },
            old(parser).source(),
        ),
        parse_operator_at(old(parser).source(), old(parser).cursor()) matches Ok((_, next))
            ==> final(parser).wf() && final(parser).cursor() == next,
        operator_of(old(parser).current().kind) is None ==> *final(parser) == *old(parser),
{
    let operator = match parser.peek().kind {
        TokenKind::Punct(Punct::Plus) => BinaryOperator::Add,
        TokenKind::Punct(Punct::Minus) => BinaryOperator::Sub,
        TokenKind::Punct(Punct::Star) => BinaryOperator::Mul,
        TokenKind::Punct(Punct::Slash) => BinaryOperator::Div,
        found => return Err(parser.error(ParseErrorKind::ExpectedOperator { found })),
    };
    match parser.advance() {
        Ok(()) => Ok(operator),
        Err(e) => Err(e),
    }
}

impl<'src> Parsable<'src> for Expression {
    open spec fn parsed(before: Parser<'src>, after: Parser<'src>, r: Result<Self, ParseError<'src>>) -> bool {
        &&& after.text() == before.text()
        &&& match parse_expr(before.source(), before.cursor()) {
            Ok((k, e)) => r == Ok::<Self, ParseError<'src>>(e) && after.wf() && after.cursor()
                == before.cursor() + k,
            Err(f) => r matches Err(e) && fault_is(e, f, before.source()),
        }
        &&& !starts_expression(before.current().kind) ==> after == before
    }

    open spec fn spans_fit(parser: Parser<'src>) -> bool {
        expr_reach(parser.source(), parser.cursor()) <= u32::MAX
    }

    fn parse(parser: &mut Parser<'src>) -> (r: Result<Self, ParseError<'src>>) {
        parse_expression(parser)
    }
}

impl<'src> Parsable<'src> for BinaryOperator {
    open spec fn parsed(before: Parser<'src>, after: Parser<'src>, r: Result<Self, ParseError<'src>>) -> bool {
        &&& after.text() == before.text()
        &&& match parse_operator_at(before.source(), before.cursor()) {
            Ok((op, next)) => r == Ok::<Self, ParseError<'src>>(op) && after.wf() && after.cursor()
                == next,
            Err(f) => r matches Err(e) && fault_is(e, f, before.source()),
        }
        &&& operator_of(before.current().kind) is None ==> after == before
    }

    open spec fn spans_fit(parser: Parser<'src>) -> bool {
        operator_reach(parser.source(), parser.cursor()) <= u32::MAX
    }

    fn parse(parser: &mut Parser<'src>) -> (r: Result<Self, ParseError<'src>>) {
        parse_operator(parser)
    }
}

impl<'src> From<LexError<'src>> for ParseError<'src> {
    fn from(error: LexError<'src>) -> (r: Self)
        ensures
            r.kind == ParseErrorKind::Lex(error.kind),
            r.span == error.span,
    {
        error.map(lex_error_kind)
    }
}

/// Wraps the kind of a lexical error as the kind of a parse error.
fn lex_error_kind<'src>(kind: LexErrorKind<'src>) -> (r: ParseErrorKind<'src>)
    ensures
        r == ParseErrorKind::Lex(kind),
{
    ParseErrorKind::Lex(kind)
}

impl<'src> vstd::std_specs::convert::FromSpecImpl<LexError<'src>> for ParseError<'src> {
    open spec fn obeys_from_spec() -> bool {
        true
    }

    open spec fn from_spec(v: LexError<'src>) -> ParseError<'src> {
        Spanned { kind: ParseErrorKind::Lex(v.kind), span: v.span }
    }
}

/// Parses a whole source text: one expression followed by the end of the input.
pub fn parse<'src>(src: &'src str) -> (r: Result<Expression, ParseError<'src>>)
    requires
        expr_reach(src.spec_bytes(), 0) <= u32::MAX,
    ensures
        outcome_is(r, parse_source(src.spec_bytes()), src.spec_bytes()),
{
    proof {
        lemma_expr_reach(src.spec_bytes(), 0);
    }
    let mut parser = match Parser::new(src) {
        Ok(parser) => parser,
        Err(e) => return Err(e),
    };
    let expr = match parser.parse_node::<Expression>() {
        Ok(expr) => expr,
        Err(e) => return Err(e),
    };
    match parser.expect_eof() {
        Ok(()) => Ok(expr),
        Err(e) => Err(e),
    }
}

// ---------------------------------------------------------------------------
// Text
// ---------------------------------------------------------------------------

/// What a parse error says, in words.
pub open spec fn parse_error_kind_text(k: ParseErrorKind) -> Seq<char> {
    match k {
        ParseErrorKind::Lex(lex) => lex_error_kind_text(lex),
        ParseErrorKind::Expected { found, expected } => "expected "@ + token_kind_text(expected)
            + " but found "@ + token_kind_text(found),
        ParseErrorKind::ExpectedExpression { found } => "expected a number or '(', but found "@
            + token_kind_text(found),
        ParseErrorKind::ExpectedOperator { found } => "expected an operator, but found "@
            + token_kind_text(found),
    }
}

impl<'src> ParseErrorKind<'src> {
    /// The text of the error, as `parse_error_kind_text` spells it.
    pub fn to_string(&self) -> (r: String)
        ensures
            r@ == parse_error_kind_text(*self),
    {
        let mut s = String::new();
        match self {
            ParseErrorKind::Lex(lex) => {
                let message = lex.message();
                s.append(message.as_str());
            },
            ParseErrorKind::Expected { found, expected } => {
                s.append("expected ");
                let e = expected.describe();
                s.append(e.as_str());
                s.append(" but found ");
                let f = found.describe();
                s.append(f.as_str());
            },
            ParseErrorKind::ExpectedExpression { found } => {
                s.append("expected a number or '(', but found ");
                let f = found.describe();
                s.append(f.as_str());
            },
            ParseErrorKind::ExpectedOperator { found } => {
                s.append("expected an operator, but found ");
                let f = found.describe();
                s.append(f.as_str());
            },
        }
        proof {
            assert(s@ =~= parse_error_kind_text(*self));
        }
        s
    }
}

/// The character an operator is written with.
pub open spec fn operator_char(operator: BinaryOperator) -> char {
    match operator {
        BinaryOperator::Add => '+',
        BinaryOperator::Sub => '-',
        BinaryOperator::Mul => '*',
        BinaryOperator::Div => '/',
    }
}

impl From<BinaryOperator> for char {
    fn from(operator: BinaryOperator) -> (c: char)
        ensures
            c == operator_char(operator),
    {
        match operator {
            BinaryOperator::Add => '+',
            BinaryOperator::Sub => '-',
            BinaryOperator::Mul => '*',
            BinaryOperator::Div => '/',
        }
    }
}

impl vstd::std_specs::convert::FromSpecImpl<BinaryOperator> for char {
    open spec fn obeys_from_spec() -> bool {
        true
    }

    open spec fn from_spec(v: BinaryOperator) -> char {
        operator_char(v)
    }
}

// ---------------------------------------------------------------------------
// The grammar that the parser accepts
// ---------------------------------------------------------------------------

/// The token an operator is written with.
pub open spec fn operator_token(operator: BinaryOperator) -> TokenKind {
    match operator {
        BinaryOperator::Add => TokenKind::Punct(Punct::Plus),
        BinaryOperator::Sub => TokenKind::Punct(Punct::Minus),
        BinaryOperator::Mul => TokenKind::Punct(Punct::Star),
        BinaryOperator::Div => TokenKind::Punct(Punct::Slash),
    }
}

/// The tokens that spell an expression: an integer, or a parenthesised
/// operation.
pub open spec fn spell(e: Expression) -> Seq<TokenKind>
    decreases e,
{
    match e.kind {
        ExpressionKind::Integer(n) => seq![TokenKind::Integer(n)],
        ExpressionKind::Binary { left, operator, right } => seq![TokenKind::Punct(Punct::OpenParen)]
            + spell(*left) + seq![operator_token(operator)] + spell(*right) + seq![
            TokenKind::Punct(Punct::CloseParen)],
    }
}

/// The kinds of the `n` tokens lexed one after the other from position `c`,
/// and the position after them; `None` if a lexical error comes first.
pub open spec fn tokens_from(b: Seq<u8>, c: nat, n: nat) -> Option<(Seq<TokenKind>, nat)>
    decreases n,
{
    if n == 0 {
        Some((seq![], c))
    } else {
        match lex(b, c) {
            Lexeme::Token(t) => match tokens_from(b, t.end, (n - 1) as nat) {
                Some((ks, end)) => Some((seq![t.kind] + ks, end)),
                None => None,
            },
            _ => None,
        }
    }
}

/// Lexing `n + m` tokens is lexing `n` tokens and then `m` more.
pub proof fn lemma_tokens_from_split(b: Seq<u8>, c: nat, n: nat, m: nat)
    ensures
        tokens_from(b, c, n + m) == match tokens_from(b, c, n) {
            Some((ks1, p)) => match tokens_from(b, p, m) {
                Some((ks2, q)) => Some((ks1 + ks2, q)),
                None => None,
            },
            None => None,
        },
    decreases n,
{
    if n == 0 {
        assert(tokens_from(b, c, 0) == Some::<(Seq<TokenKind>, nat)>((seq![], c)));
        if let Some((ks2, q)) = tokens_from(b, c, m) {
            assert(Seq::<TokenKind>::empty() + ks2 =~= ks2);
        }
    } else {
        if let Lexeme::Token(t) = lex(b, c) {
            lemma_tokens_from_split(b, t.end, (n - 1) as nat, m);
            assert((n + m - 1) as nat == (n - 1) as nat + m);
            if let Some((ks1, p)) = tokens_from(b, t.end, (n - 1) as nat) {
                if let Some((ks2, q)) = tokens_from(b, p, m) {
                    assert(seq![t.kind] + (ks1 + ks2) =~= (seq![t.kind] + ks1) + ks2);
                }
            }
        }
    }
}

/// One token more: its kind and where the tokens after it start.
proof fn lemma_tokens_from_one(b: Seq<u8>, c: nat)
    ensures
        tokens_from(b, c, 1) == match lex(b, c) {
            Lexeme::Token(t) => Some((seq![t.kind], t.end)),
            _ => None::<(Seq<TokenKind>, nat)>,
        },
{
    if let Lexeme::Token(t) = lex(b, c) {
        assert(tokens_from(b, t.end, 0) == Some::<(Seq<TokenKind>, nat)>((seq![], t.end)));
        assert(seq![t.kind] + Seq::<TokenKind>::empty() =~= seq![t.kind]);
    }
}

/// A parse from `c` reads exactly the tokens that spell the expression it
/// gives, stops right after them, and the token after them lexes.
pub proof fn law_parse_reads_spelling(b: Seq<u8>, c: nat)
    ensures
        parse_expr(b, c) matches Ok((k, e)) ==> {
            &&& tokens_from(b, c, spell(e).len()) == Some((spell(e), c + k))
            &&& lex(b, c + k) is Token
        },
    decreases b.len() - c,
{
    if let Ok((k, e)) = parse_expr(b, c) {
        crate::lexer::lemma_token_progress(b, c);
        lemma_tokens_from_one(b, c);
        let t = lex(b, c)->Token_0;
        match t.kind {
            TokenKind::Integer(n) => {
                assert(spell(e) == seq![TokenKind::Integer(n)]);
            },
            _ => {
                let c1 = t.end;
                let (k1, left) = parse_expr(b, c1)->Ok_0;
                law_parse_reads_spelling(b, c1);
                let c2 = c1 + k1;
                let (operator, c3) = parse_operator_at(b, c2)->Ok_0;
                lemma_operator_progress(b, c2);
                law_parse_reads_spelling(b, c3);
                let (k3, right) = parse_expr(b, c3)->Ok_0;
                let c4 = c3 + k3;
                crate::lexer::lemma_token_progress(b, c4);
                lemma_tokens_from_one(b, c2);
                lemma_tokens_from_one(b, c4);
                let (close, next) = expect_punct_at(b, c4, Punct::CloseParen)->Ok_0;
                let sl = spell(left);
                let sr = spell(right);
                lemma_tokens_from_split(b, c, 1, sl.len());
                lemma_tokens_from_split(b, c, 1 + sl.len(), 1);
                lemma_tokens_from_split(b, c, 1 + sl.len() + 1, sr.len());
                lemma_tokens_from_split(b, c, 1 + sl.len() + 1 + sr.len(), 1);
                assert(spell(e) =~= seq![TokenKind::Punct(Punct::OpenParen)] + sl + seq![
                    operator_token(operator)] + sr + seq![TokenKind::Punct(Punct::CloseParen)]);
                assert(spell(e).len() == 1 + sl.len() + 1 + sr.len() + 1);
            },
        }
    }
}

/// Lexing `n` tokens gives `n` kinds.
proof fn lemma_tokens_from_len(b: Seq<u8>, c: nat, n: nat)
    ensures
        tokens_from(b, c, n) matches Some((ks, _)) ==> ks.len() == n,
    decreases n,
{
    if n > 0 {
        if let Lexeme::Token(t) = lex(b, c) {
            lemma_tokens_from_len(b, t.end, (n - 1) as nat);
        }
    }
}

/// Two expressions have the same shape: the same integers and operators in
/// the same places, whatever their spans.
pub open spec fn same_shape(a: Expression, b: Expression) -> bool
    decreases a,
{
    match a.kind {
        ExpressionKind::Integer(x) => b.kind == ExpressionKind::Integer(x),
        ExpressionKind::Binary { left, operator, right } => match b.kind {
            ExpressionKind::Binary { left: l2, operator: o2, right: r2 } => operator == o2
                && same_shape(*left, *l2) && same_shape(*right, *r2),
            _ => false,
        },
    }
}

/// Tokens that lex as `x + y` lex as `x`, and then as `y` from where `x` ends.
proof fn lemma_tokens_from_parts(
    b: Seq<u8>,
    c: nat,
    x: Seq<TokenKind>,
    y: Seq<TokenKind>,
    q: nat,
)
    requires
        tokens_from(b, c, x.len() + y.len()) == Some((x + y, q)),
    ensures
        tokens_from(b, c, x.len()) matches Some((kx, p)) && kx == x && tokens_from(b, p, y.len())
            == Some((y, q)),
{
    lemma_tokens_from_split(b, c, x.len(), y.len());
    lemma_tokens_from_len(b, c, x.len());
    if let Some((kx, p)) = tokens_from(b, c, x.len()) {
        lemma_tokens_from_len(b, p, y.len());
        let (ky, q2) = tokens_from(b, p, y.len())->Some_0;
        assert(kx + ky == x + y);
        assert(kx =~= (kx + ky).take(x.len() as int));
        assert(x =~= (x + y).take(x.len() as int));
        assert(ky =~= (kx + ky).skip(x.len() as int));
        assert(y =~= (x + y).skip(x.len() as int));
    }
}

/// Tokens that spell an expression, followed by a token that lexes, are
/// parsed from `c`: the parse stops right after them and gives an expression
/// with the same spelling and the same shape.
pub proof fn law_parse_accepts_spelling(b: Seq<u8>, c: nat, e: Expression)
    requires
        tokens_from(b, c, spell(e).len()) matches Some((ks, p)) && ks == spell(e) && lex(
            b,
            p,
        ) is Token,
    ensures
        parse_expr(b, c) matches Ok((k, e2)) && spell(e2) == spell(e) && same_shape(e2, e) && c + k
            == tokens_from(b, c, spell(e).len())->Some_0.1,
    decreases e, 1nat,
{
    match e.kind {
        ExpressionKind::Integer(n) => {
            crate::lexer::lemma_token_progress(b, c);
            lemma_tokens_from_one(b, c);
            assert(spell(e) == seq![TokenKind::Integer(n)]);
            let t = lex(b, c)->Token_0;
            assert(seq![t.kind][0] == spell(e)[0]);
        },
        ExpressionKind::Binary { .. } => {
            lemma_accepts_operation(b, c, e);
        },
    }
}

/// The case of `law_parse_accepts_spelling` for a parenthesised operation.
#[verifier::rlimit(40)]
proof fn lemma_accepts_operation(b: Seq<u8>, c: nat, e: Expression)
    requires
        e.kind is Binary,
        tokens_from(b, c, spell(e).len()) matches Some((ks, p)) && ks == spell(e) && lex(
            b,
            p,
        ) is Token,
    ensures
        parse_expr(b, c) matches Ok((k, e2)) && spell(e2) == spell(e) && same_shape(e2, e) && c + k
            == tokens_from(b, c, spell(e).len())->Some_0.1,
    decreases e, 0nat,
{
    let p = tokens_from(b, c, spell(e).len())->Some_0.1;
    if let ExpressionKind::Binary { left, operator, right } = e.kind {
        let sl = spell(*left);
        let sr = spell(*right);
        let open = seq![TokenKind::Punct(Punct::OpenParen)];
        let op = seq![operator_token(operator)];
        let close = seq![TokenKind::Punct(Punct::CloseParen)];
        assert(spell(e) == open + sl + op + sr + close);
        lemma_tokens_from_parts(b, c, open + sl + op + sr, close, p);
        let p3 = tokens_from(b, c, (open + sl + op + sr).len())->Some_0.1;
        lemma_tokens_from_parts(b, c, open + sl + op, sr, p3);
        let p2 = tokens_from(b, c, (open + sl + op).len())->Some_0.1;
        lemma_tokens_from_parts(b, c, open + sl, op, p2);
        let p1 = tokens_from(b, c, (open + sl).len())->Some_0.1;
        lemma_tokens_from_parts(b, c, open, sl, p1);
        let c1 = tokens_from(b, c, 1)->Some_0.1;
        lemma_tokens_from_one(b, c);
        lemma_tokens_from_one(b, p1);
        lemma_tokens_from_one(b, p3);
        crate::lexer::lemma_token_progress(b, c);
        crate::lexer::lemma_token_progress(b, p3);
        crate::lexer::lemma_token_progress(b, p1);
        let t = lex(b, c)->Token_0;
        assert(seq![t.kind][0] == open[0]);
        let ot = lex(b, p1)->Token_0;
        assert(seq![ot.kind][0] == op[0]);
        let ct = lex(b, p3)->Token_0;
        assert(seq![ct.kind][0] == close[0]);
        lemma_spell_nonempty(*right);
        lemma_tokens_from_split(b, p2, 1, (sr.len() - 1) as nat);
        lemma_tokens_from_one(b, p2);
        law_parse_accepts_spelling(b, c1, *left);
        law_parse_accepts_spelling(b, p2, *right);
        let (k1, l2) = parse_expr(b, c1)->Ok_0;
        let (k3, r2) = parse_expr(b, p2)->Ok_0;
        assert(c1 + k1 == p1);
        assert(p2 + k3 == p3);
        assert(parse_operator_at(b, p1) == Ok::<(BinaryOperator, nat), ParseFault>((operator, p2)));
        assert(expect_punct_at(b, p3, Punct::CloseParen) == Ok::<(Lexed, nat), ParseFault>((ct, p)));
        let e2 = parse_expr(b, c)->Ok_0.1;
        assert(spell(e2) =~= open + spell(l2) + op + spell(r2) + close);
        assert(same_shape(e2, e));
    }
}

/// Every expression is spelled by at least one token.
pub proof fn lemma_spell_nonempty(e: Expression)
    ensures
        spell(e).len() >= 1,
{
    match e.kind {
        ExpressionKind::Integer(_) => {},
        ExpressionKind::Binary { .. } => {},
    }
}

/// A whole source that parses is spelled by the expression it gives,
/// followed by the end of the input.
pub proof fn law_parse_source_reads_spelling(b: Seq<u8>)
    ensures
        parse_source(b) matches Ok(e) ==> tokens_from(b, 0, spell(e).len() + 1) matches Some((ks, _))
            && ks == spell(e).push(TokenKind::Eof),
{
    if let Ok(e) = parse_source(b) {
        law_parse_reads_spelling(b, 0);
        let (k, _) = parse_expr(b, 0)->Ok_0;
        lemma_tokens_from_split(b, 0, spell(e).len(), 1);
        lemma_tokens_from_one(b, k);
    }
}

/// A whole source spelled by an expression followed by the end of the input
/// parses, to an expression with the same spelling and the same shape.
pub proof fn law_parse_source_accepts_spelling(b: Seq<u8>, e: Expression)
    requires
        tokens_from(b, 0, spell(e).len() + 1) matches Some((ks, _)) && ks == spell(e).push(
            TokenKind::Eof,
        ),
    ensures
        parse_source(b) matches Ok(e2) && spell(e2) == spell(e) && same_shape(e2, e),
{
    lemma_tokens_from_split(b, 0, spell(e).len(), 1);
    let (ks1, p) = tokens_from(b, 0, spell(e).len())->Some_0;
    lemma_tokens_from_one(b, p);
    lemma_tokens_from_len(b, 0, spell(e).len());
    let (ks2, q) = tokens_from(b, p, 1)->Some_0;
    assert(ks1 + ks2 == spell(e).push(TokenKind::Eof));
    assert(ks1 =~= (ks1 + ks2).take(spell(e).len() as int));
    assert(ks1 =~= spell(e));
    assert(ks2[0] == (ks1 + ks2)[spell(e).len() as int]);
    law_parse_accepts_spelling(b, 0, e);
}

// ---------------------------------------------------------------------------
// Spans of parsed expressions
// ---------------------------------------------------------------------------

/// Every span covers at least one byte, and the spans of an operation's
/// operands lie inside its own, the left one wholly before the right one.
pub open spec fn well_spanned(e: Expression) -> bool
    decreases e,
{
    &&& e.span@.0 < e.span@.1
    &&& match e.kind {
        ExpressionKind::Integer(_) => true,
        ExpressionKind::Binary { left, right, .. } => {
            &&& e.span@.0 < left.span@.0
            &&& left.span@.1 < right.span@.0
            &&& right.span@.1 < e.span@.1
            &&& well_spanned(*left)
            &&& well_spanned(*right)
        },
    }
}

/// A parsed expression is well spanned, and its span lies within the bytes
/// that the parse took up.
pub proof fn law_parse_spans_nest(b: Seq<u8>, c: nat)
    requires
        expr_reach(b, c) <= u32::MAX,
    ensures
        parse_expr(b, c) matches Ok((k, e)) ==> well_spanned(e) && c <= e.span@.0 && e.span@.1
            <= c + k,
    decreases b.len() - c,
{
    if let Ok((k, e)) = parse_expr(b, c) {
        crate::lexer::lemma_token_progress(b, c);
        lemma_reach_from(b, c + k);
        let t = lex(b, c)->Token_0;
        match t.kind {
            TokenKind::Integer(_) => {
                e.span.lemma_view(t.start as int, t.end as int);
            },
            _ => {
                lemma_paren_stages_reach(b, c);
                let c1 = t.end;
                law_parse_spans_nest(b, c1);
                let (k1, left) = parse_expr(b, c1)->Ok_0;
                let c2 = c1 + k1;
                lemma_operator_progress(b, c2);
                let (_, c3) = parse_operator_at(b, c2)->Ok_0;
                law_parse_spans_nest(b, c3);
                let (k3, right) = parse_expr(b, c3)->Ok_0;
                let c4 = c3 + k3;
                crate::lexer::lemma_token_progress(b, c4);
                let close = lex(b, c4)->Token_0;
                e.span.lemma_view(t.start as int, close.end as int);
            },
        }
    }
}

// ---------------------------------------------------------------------------
// Written-out expressions
// ---------------------------------------------------------------------------

/// The ASCII decimal digits of `n`, most significant first.
pub open spec fn decimal_bytes(n: nat) -> Seq<u8>
    decreases n,
{
    if n < 10 {
        seq![(48 + n) as u8]
    } else {
        decimal_bytes(n / 10).push((48 + n % 10) as u8)
    }
}

/// The byte an operator is written with.
pub open spec fn operator_byte(operator: BinaryOperator) -> u8 {
    match operator {
        BinaryOperator::Add => 0x2b,
        BinaryOperator::Sub => 0x2d,
        BinaryOperator::Mul => 0x2a,
        BinaryOperator::Div => 0x2f,
    }
}

/// Every integer in the expression is non-negative, so that it is written
/// without a sign.
pub open spec fn unsigned(e: Expression) -> bool
    decreases e,
{
    match e.kind {
        ExpressionKind::Integer(n) => n >= 0,
        ExpressionKind::Binary { left, right, .. } => unsigned(*left) && unsigned(*right),
    }
}

/// An expression written out: an integer in decimal, an operation as
/// `(left op right)` with one space around the operator.
pub open spec fn written(e: Expression) -> Seq<u8>
    decreases e,
{
    match e.kind {
        ExpressionKind::Integer(n) => decimal_bytes(n as nat),
        ExpressionKind::Binary { left, operator, right } => seq![0x28u8] + written(*left) + seq![
            0x20u8,
            operator_byte(operator),
            0x20u8,
        ] + written(*right) + seq![0x29u8],
    }
}

/// The decimal digits of `n` are ASCII digits whose value is `n`.
proof fn lemma_decimal_bytes(n: nat)
    ensures
        decimal_bytes(n).len() >= 1,
        forall|i: int| 0 <= i < decimal_bytes(n).len() ==> crate::lexer::is_digit(
            #[trigger] decimal_bytes(n)[i],
        ),
        crate::lexer::decimal_value(decimal_bytes(n)) == n,
    decreases n,
{
    if n >= 10 {
        lemma_decimal_bytes(n / 10);
        assert(decimal_bytes(n).drop_last() =~= decimal_bytes(n / 10));
        assert(n == 10 * (n / 10) + n % 10);
        assert(decimal_bytes(n).last() == (48 + n % 10) as u8);
        assert(((48 + n % 10) as u8) - 48 == n % 10);
        let d = decimal_bytes(n);
        assert(crate::lexer::decimal_value(d) == 10 * crate::lexer::decimal_value(d.drop_last())
            + (d.last() - 48) as nat);
    } else {
        assert(decimal_bytes(n).drop_last() =~= Seq::<u8>::empty());
        assert(decimal_bytes(n).last() == (48 + n) as u8);
        assert(((48 + n) as u8) - 48 == n);
        assert(crate::lexer::decimal_value(Seq::<u8>::empty()) == 0);
        let d = decimal_bytes(n);
        assert(crate::lexer::decimal_value(d) == 10 * crate::lexer::decimal_value(d.drop_last())
            + (d.last() - 48) as nat);
    }
}

/// Whitespace up to `s`, and something else at `s`: skipping whitespace
/// from `c` stops at `s`.
proof fn lemma_skip_blanks_to(b: Seq<u8>, c: nat, s: nat)
    requires
        c <= s < b.len(),
        forall|j: int| c <= j < s ==> crate::lexer::is_blank(#[trigger] b[j]),
        !crate::lexer::is_blank(b[s as int]),
    ensures
        crate::lexer::skip_blanks(b, c) == s,
    decreases s - c,
{
    if c < s {
        lemma_skip_blanks_to(b, c + 1, s);
    }
}

/// Digits up to `e`, and no digit at `e`: the digit run from `s` ends at `e`.
proof fn lemma_digits_end_at(b: Seq<u8>, s: nat, e: nat)
    requires
        s <= e <= b.len(),
        forall|j: int| s <= j < e ==> crate::lexer::is_digit(#[trigger] b[j]),
        e < b.len() ==> !crate::lexer::is_digit(b[e as int]),
    ensures
        crate::lexer::digits_end(b, s) == e,
    decreases e - s,
{
    if s < e {
        lemma_digits_end_at(b, s + 1, e);
    }
}

/// A written-out expression starts with a digit or an opening parenthesis.
proof fn lemma_written_first(e: Expression)
    requires
        unsigned(e),
    ensures
        written(e).len() >= 1,
        crate::lexer::is_digit(written(e)[0]) || written(e)[0] == 0x28u8,
{
    match e.kind {
        ExpressionKind::Integer(n) => {
            lemma_decimal_bytes(n as nat);
        },
        ExpressionKind::Binary { .. } => {},
    }
}

/// A written-out integer lexes as that integer, up to its last digit.
proof fn lemma_lex_written_integer(b: Seq<u8>, c: nat, s: nat, n: i64)
    requires
        n >= 0,
        c <= s,
        s + decimal_bytes(n as nat).len() <= b.len(),
        b.subrange(s as int, (s + decimal_bytes(n as nat).len()) as int) == decimal_bytes(n as nat),
        forall|j: int| c <= j < s ==> crate::lexer::is_blank(#[trigger] b[j]),
        s + decimal_bytes(n as nat).len() < b.len() ==> !crate::lexer::is_digit(
            b[(s + decimal_bytes(n as nat).len()) as int],
        ),
    ensures
        lex(b, c) == Lexeme::Token(
            Lexed {
                kind: TokenKind::Integer(n),
                start: s,
                end: s + decimal_bytes(n as nat).len(),
            },
        ),
{
    let d = decimal_bytes(n as nat);
    let e = s + d.len();
    lemma_decimal_bytes(n as nat);
    assert(b[s as int] == d[0]);
    lemma_skip_blanks_to(b, c, s);
    assert forall|j: int| s <= j < e implies crate::lexer::is_digit(#[trigger] b[j]) by {
        assert(b[j] == d[j - s]);
    }
    lemma_digits_end_at(b, s, e);
}

/// An expression written out at `s`, after whitespace from `c` and before
/// something that is not a digit, lexes from `c` as the tokens that spell
/// it, which end where the written expression ends.
#[verifier::rlimit(60)]
proof fn lemma_tokens_of_written(b: Seq<u8>, c: nat, s: nat, e: Expression)
    requires
        unsigned(e),
        c <= s,
        s + written(e).len() <= b.len(),
        b.subrange(s as int, (s + written(e).len()) as int) == written(e),
        forall|j: int| c <= j < s ==> crate::lexer::is_blank(#[trigger] b[j]),
        s + written(e).len() < b.len() ==> !crate::lexer::is_digit(b[(s + written(e).len()) as int]),
    ensures
        tokens_from(b, c, spell(e).len()) == Some((spell(e), s + written(e).len())),
    decreases e,
{
    lemma_tokens_from_one(b, c);
    match e.kind {
        ExpressionKind::Integer(n) => {
            lemma_lex_written_integer(b, c, s, n);
        },
        ExpressionKind::Binary { left, operator, right } => {
            let rl = written(*left);
            let rr = written(*right);
            let whole = written(e);
            assert(whole == seq![0x28u8] + rl + seq![0x20u8, operator_byte(operator), 0x20u8] + rr
                + seq![0x29u8]);
            let s1 = s + 1;
            let p = s1 + rl.len();
            let s3 = p + 3;
            let p4 = s3 + rr.len();
            assert(whole.len() == rl.len() + rr.len() + 5);
            assert forall|i: int| 0 <= i < whole.len() implies b[s + i] == #[trigger] whole[i] by {
                assert(b.subrange(s as int, (s + whole.len()) as int)[i] == whole[i]);
            }
            // the opening parenthesis
            assert(b[s as int] == whole[0]);
            lemma_skip_blanks_to(b, c, s);
            assert(lex(b, c) == Lexeme::Token(
                Lexed { kind: TokenKind::Punct(Punct::OpenParen), start: s, end: s1 },
            ));
            // the left operand
            lemma_written_first(*left);
            assert(b.subrange(s1 as int, p as int) =~= rl) by {
                assert forall|i: int| 0 <= i < rl.len() implies b.subrange(s1 as int, p as int)[i]
                    == rl[i] by {
                    assert(whole[1 + i] == rl[i]);
                }
            }
            assert(whole[(1 + rl.len()) as int] == 0x20u8);
            lemma_tokens_of_written(b, s1, s1, *left);
            // the operator, after one space
            assert(whole[(2 + rl.len()) as int] == operator_byte(operator));
            assert(whole[(3 + rl.len()) as int] == 0x20u8);
            lemma_tokens_from_one(b, p);
            lemma_skip_blanks_to(b, p, p + 1);
            assert(lex(b, p) == Lexeme::Token(
                Lexed { kind: operator_token(operator), start: p + 1, end: p + 2 },
            ));
            // the right operand, after one space
            lemma_written_first(*right);
            assert(b.subrange(s3 as int, p4 as int) =~= rr) by {
                assert forall|i: int| 0 <= i < rr.len() implies b.subrange(s3 as int, p4 as int)[i]
                    == rr[i] by {
                    assert(whole[4 + rl.len() + i] == rr[i]);
                }
            }
            assert(whole[(4 + rl.len() + rr.len()) as int] == 0x29u8);
            lemma_tokens_of_written(b, (p + 2) as nat, s3, *right);
            // the closing parenthesis
            lemma_tokens_from_one(b, p4);
            lemma_skip_blanks_to(b, p4, p4);
            assert(lex(b, p4) == Lexeme::Token(
                Lexed { kind: TokenKind::Punct(Punct::CloseParen), start: p4, end: p4 + 1 },
            ));
            let sl = spell(*left);
            let sr = spell(*right);
            lemma_tokens_from_split(b, c, 1, sl.len());
            lemma_tokens_from_split(b, c, 1 + sl.len(), 1);
            lemma_tokens_from_split(b, c, 1 + sl.len() + 1, sr.len());
            lemma_tokens_from_split(b, c, 1 + sl.len() + 1 + sr.len(), 1);
            assert(spell(e) =~= seq![TokenKind::Punct(Punct::OpenParen)] + sl + seq![
                operator_token(operator)] + sr + seq![TokenKind::Punct(Punct::CloseParen)]);
        },
    }
}

/// The span of a parsed expression runs from its first token to the end of
/// the bytes the parse took up.
proof fn lemma_parse_span(b: Seq<u8>, c: nat)
    ensures
        parse_expr(b, c) matches Ok((k, e)) ==> e.span == Span::at(
            crate::lexer::skip_blanks(b, c) as int,
            (c + k) as int,
        ),
{
    crate::lexer::lemma_token_progress(b, c);
    if let Ok((k, e)) = parse_expr(b, c) {
        let t = lex(b, c)->Token_0;
        if t.kind == TokenKind::Punct(Punct::OpenParen) {
            let (k1, _) = parse_expr(b, t.end)->Ok_0;
            let c2 = t.end + k1;
            lemma_operator_progress(b, c2);
            let (_, c3) = parse_operator_at(b, c2)->Ok_0;
            let (k3, _) = parse_expr(b, c3)->Ok_0;
            crate::lexer::lemma_token_progress(b, c3 + k3);
        }
    }
}

/// An expression with non-negative integers, written out as `written` spells it,
/// parses back to an expression of the same shape, with the same operators
/// and integers, whose span is the whole text.
pub proof fn law_parse_reads_written(e: Expression)
    requires
        unsigned(e),
        written(e).len() <= u32::MAX,
    ensures
        parse_source(written(e)) matches Ok(e2) && same_shape(e2, e) && e2.span@ == (
            0int,
            written(e).len() as int,
        ),
{
    let b = written(e);
    assert(b.subrange(0, b.len() as int) =~= b);
    lemma_tokens_of_written(b, 0, 0, e);
    lemma_tokens_from_split(b, 0, spell(e).len(), 1);
    lemma_tokens_from_one(b, b.len());
    crate::lexer::lemma_skip_blanks_bounds(b, b.len());
    assert(spell(e) + seq![TokenKind::Eof] =~= spell(e).push(TokenKind::Eof));
    law_parse_source_accepts_spelling(b, e);
    law_parse_accepts_spelling(b, 0, e);
    lemma_parse_span(b, 0);
    lemma_written_first(e);
    lemma_skip_blanks_to(b, 0, 0);
    let (k, e2) = parse_expr(b, 0)->Ok_0;
    e2.span.lemma_view(0, b.len() as int);
}

} // verus!
