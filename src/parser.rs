//! The parser: tokens to syntax tree, by recursive descent.
use vstd::prelude::*;
use vstd::string::*;

use crate::ast::{
    File, IntSize, IntType, ItemModel, Message, MessageModel, Payload, PayloadItem, Protocol, Role,
    Sequence, Sequences, Stmt, StmtModel, Struct, Type, TypeModel, type_view,
};
use crate::text::decimal;
use crate::token::{keyword_text, symbol_char};
use crate::lexer::{
    lemma_token_len_bound_at, token_end, token_start, Lexer, Position, MAX_SOURCE_LEN,
};
use crate::token::{Keyword, Symbol, Token, TokenType};

verus! {

/// The stretch of source between two positions.
#[derive(Debug, Clone, Copy, PartialEq, Eq, Structural)]
pub struct RawSpan {
    pub start: Position,
    pub end: Position,
}

/// A value with the stretch of source it was parsed from.
#[derive(Debug)]
pub struct Span<T> {
    pub span: RawSpan,
    pub inner: T,
}

impl<T> Span<T> {
    /// The span with `f` applied to its value.
    pub fn map<T1, F: FnOnce(T) -> T1>(self, f: F) -> (r: Span<T1>)
        requires
            f.requires((self.inner,)),
        ensures
            r.span == self.span,
            f.ensures((self.inner,), r.inner),
    {
        Span { span: self.span, inner: f(self.inner) }
    }

    /// The span with a reference to its value.
    pub fn as_ref(&self) -> (r: Span<&T>)
        ensures
            r.span == self.span,
            *r.inner == self.inner,
    {
        Span { span: self.span, inner: &self.inner }
    }
}

/// Why parsing failed: the token found, where, and the kinds of token that
/// would have been accepted there.
#[derive(Debug)]
pub struct ParseError<'a> {
    pub token: Token<'a>,
    pub expected_tokens: Vec<TokenType>,
    pub pos: Position,
}

pub type ParseResult<'a, T> = Result<T, ParseError<'a>>;

/// Recursive-descent parser over the tokens of a source.
pub struct Parser<'a> {
    lexer: Lexer<'a>,
    token: Token<'a>,
    pos: Position,
    expected_tokens: Vec<TokenType>,
    cursor: Ghost<nat>,
}

/// A syntax tree node that can be parsed.
pub trait Parse: Sized {
    /// `x` is a way of writing `v`.
    spec fn written(x: Seq<Tok>, v: Self) -> bool;

    /// The tokens that `v` is written as, canonically.
    spec fn tokens_of(v: Self) -> Seq<Tok>;

    /// `v` can be written: every `choice` and `par` in it has a branch.
    spec fn shape_ok(v: Self) -> bool;

    fn parse<'a>(parser: &mut Parser<'a>) -> (r: ParseResult<'a, Self>)
        requires
            old(parser).wf(),
        ensures
            final(parser).wf(),
            final(parser).text() == old(parser).text(),
            final(parser).cursor() >= old(parser).cursor(),
            r matches Ok(v) ==> tail_of(old(parser).rest(), final(parser).rest()) && Self::written(
                ate(old(parser).rest(), final(parser).rest()),
                v,
            ),
            (exists|v: Self| old(parser).rest() == Self::tokens_of(v) && Self::shape_ok(v)) ==> r is Ok
                && final(parser).rest().len() == 0,
    ;
}

impl<'a> Parser<'a> {
    /// The source text.
    pub closed spec fn text(&self) -> Seq<char> {
        self.lexer.text()
    }

    /// Index of the first character of the current token; the length of the
    /// text at the end.
    pub closed spec fn cursor(&self) -> nat {
        self.cursor@
    }

    /// The current token.
    pub closed spec fn current(&self) -> Token<'a> {
        self.token
    }

    /// The end of the last token consumed; the start of the source before
    /// any.
    pub closed spec fn pos(&self) -> Position {
        self.pos
    }

    /// The token kinds tried since the last token was consumed.
    pub closed spec fn expected(&self) -> Seq<TokenType> {
        self.expected_tokens@
    }

    pub closed spec fn wf(&self) -> bool {
        let s = self.lexer.text();
        &&& self.lexer.wf()
        &&& self.cursor@ <= s.len()
        &&& self.cursor@ <= self.lexer.index()
        &&& (self.token.ty == TokenType::End <==> self.cursor@ == s.len())
        &&& self.token.ty == TokenType::End ==> self.lexer.index() == s.len()
        &&& self.token.ty != TokenType::End ==> self.cursor@ < self.lexer.index()
        &&& self.token.start == crate::lexer::position_at(s, self.cursor@)
        &&& self.token.ty == crate::lexer::token_type(s.skip(self.cursor@ as int))
        &&& self.token.contents@ == s.subrange(self.cursor@ as int, self.lexer.index() as int)
        &&& token_start(s, self.cursor@) == self.cursor@
        &&& self.lexer.index() == token_end(s, self.cursor@)
    }

    /// The tokens from the current one on, before the end.
    pub closed spec fn rest(&self) -> Seq<(TokenType, Seq<char>)> {
        crate::lexer::lex(self.lexer.text().skip(self.cursor@ as int))
    }

    /// The text of an identifier token reads as an identifier.
    pub proof fn lemma_ident_token(&self)
        requires
            self.wf(),
            self.current().ty == TokenType::Ident,
        ensures
            crate::lexer::is_ident_text(self.current().contents@),
    {
        self.lexer.lemma_wf();
        let s = self.lexer.text();
        crate::lexer::lemma_token_len_bound_at(s, self.cursor@);
        let t = s.skip(self.cursor@ as int);
        crate::lexer::lemma_ident_run_bound(t.skip(1));
        let c = self.token.contents@;
        assert(c =~= t.take(crate::lexer::token_len(t) as int));
        assert forall|k: int| 0 <= k < c.len() implies crate::lexer::is_ident_char(#[trigger] c[k]) by {
            if k > 0 {
                assert(c[k] == t.skip(1)[k - 1]);
            }
        }
    }

    /// The current token heads the rest.
    pub proof fn lemma_rest(&self)
        requires
            self.wf(),
        ensures
            self.rest().len() == 0 <==> self.current().ty == TokenType::End,
            self.rest().len() > 0 ==> self.rest()[0] == (self.current().ty, self.current().contents@),
            self.current().ty matches TokenType::Keyword(k) ==> self.current().contents@ == keyword_text(k),
            self.current().ty matches TokenType::Symbol(sy) ==> self.current().contents@ == seq![symbol_char(sy)],
    {
        self.lexer.lemma_wf();
        let s = self.lexer.text();
        crate::lexer::lemma_lex_step(s, self.cursor@);
        crate::lexer::lemma_token_len_bound_at(s, self.cursor@);
        if self.cursor@ < s.len() {
            let t = s.skip(self.cursor@ as int);
            let c = self.token.contents@;
            assert(c =~= t.take(crate::lexer::token_len(t) as int));
            crate::token::lemma_find_keyword(crate::token::all_keywords(), c);
            crate::token::lemma_symbol_of(t[0]);
            if !crate::lexer::is_ident_start(t[0]) && !crate::lexer::is_digit(t[0]) {
                assert(c =~= seq![t[0]]);
            }
        }
    }

    /// A parser at the first token of `source`.
    pub fn new(source: &'a str) -> (r: Parser<'a>)
        requires
            source@.len() <= MAX_SOURCE_LEN,
        ensures
            r.wf(),
            r.text() == source@,
            r.expected().len() == 0,
            r.rest() == crate::lexer::lex(source@),
            r.pos() == (Position { line: 1, column: 1, offset: 0 }),
    {
        let mut lexer = Lexer::new(source);
        let ghost s = lexer.text();
        let token = lexer.next_token();
        proof {
            lexer.lemma_wf();
            lemma_token_len_bound_at(s, 0);
            crate::lexer::lemma_token_start_idem(s, 0);
            assert(s.skip(token_start(s, 0) as int).skip(0) =~= s.skip(token_start(s, 0) as int));
            crate::lexer::lemma_lex_step(s, 0);
            crate::lexer::lemma_lex_step(s, token_start(s, 0));
            assert(s.skip(0) =~= s);
        }
        Parser {
            lexer,
            token,
            expected_tokens: Vec::new(),
            pos: Position::start(),
            cursor: Ghost(token_start(s, 0)),
        }
    }

    /// Consumes the current token and returns its text.
    pub fn next_token(&mut self) -> (r: &'a str)
        requires
            old(self).wf(),
        ensures
            final(self).wf(),
            final(self).text() == old(self).text(),
            r@ == old(self).current().contents@,
            final(self).expected().len() == 0,
            final(self).cursor() >= old(self).cursor(),
            old(self).current().ty != TokenType::End ==> final(self).cursor() > old(self).cursor(),
            old(self).current().ty != TokenType::End ==> final(self).rest() == old(self).rest().skip(1),
            final(self).pos() == old(self).current().end,
    {
        self.expected_tokens.truncate(0);
        let old_token = self.token;
        self.pos = old_token.end;
        let ghost s = self.lexer.text();
        let ghost i = self.lexer.index();
        proof {
            self.lexer.lemma_wf();
        }
        self.token = self.lexer.next_token();
        proof {
            lemma_token_len_bound_at(s, i);
            crate::lexer::lemma_token_start_idem(s, i);
            crate::lexer::lemma_lex_step(s, old(self).cursor@);
            self.cursor = Ghost(token_start(s, i));
            crate::lexer::lemma_lex_step(s, i);
            assert(s.skip(token_start(s, i) as int).skip(0) =~= s.skip(token_start(s, i) as int));
            crate::lexer::lemma_lex_step(s, token_start(s, i));
        }
        assert(self.expected_tokens@ =~= Seq::<TokenType>::empty());
        old_token.contents
    }

    /// Consumes the current token if it is of kind `token`; otherwise notes
    /// that `token` was expected here.
    pub fn eat_token(&mut self, token: TokenType) -> (r: Option<&'a str>)
        requires
            old(self).wf(),
        ensures
            final(self).wf(),
            final(self).text() == old(self).text(),
            r is Some <==> old(self).current().ty == token,
            r matches Some(t) ==> t@ == old(self).current().contents@ && final(self).expected().len() == 0,
            r is None ==> final(self).cursor() == old(self).cursor() && final(self).current() == old(self).current()
                && final(self).expected() == old(self).expected().push(token),
            final(self).cursor() >= old(self).cursor(),
            r is Some && token != TokenType::End ==> final(self).cursor() > old(self).cursor(),
            r is Some && token != TokenType::End ==> final(self).rest() == old(self).rest().skip(1),
            r is None ==> final(self).rest() == old(self).rest(),
    {
        if self.token.ty == token {
            Some(self.next_token())
        } else {
            self.expected_tokens.push(token);
            None
        }
    }

    /// Consumes the current token if it is of kind `token`; fails otherwise.
    pub fn expect_token(&mut self, token: TokenType) -> (r: ParseResult<'a, &'a str>)
        requires
            old(self).wf(),
        ensures
            final(self).wf(),
            final(self).text() == old(self).text(),
            r is Ok <==> old(self).current().ty == token,
            r matches Ok(t) ==> t@ == old(self).current().contents@,
            r matches Err(e) ==> e.token == old(self).current() && e.expected_tokens@ == old(self).expected().push(token)
                && final(self).cursor() == old(self).cursor(),
            final(self).cursor() >= old(self).cursor(),
            r is Ok && token != TokenType::End ==> final(self).cursor() > old(self).cursor(),
            r is Ok && token != TokenType::End ==> final(self).rest() == old(self).rest().skip(1),
    {
        if let Some(source) = self.eat_token(token) {
            return Ok(source);
        }
        Err(self.invalid_token())
    }

    /// The error for the current token, with the kinds tried there.
    pub fn invalid_token(&mut self) -> (r: ParseError<'a>)
        requires
            old(self).wf(),
        ensures
            final(self).wf(),
            final(self).text() == old(self).text(),
            final(self).cursor() == old(self).cursor(),
            final(self).current() == old(self).current(),
            final(self).expected().len() == 0,
            r.token == old(self).current(),
            r.pos == old(self).current().start,
            r.expected_tokens@ == old(self).expected(),
    {
        let mut expected: Vec<TokenType> = Vec::new();
        let mut i: usize = 0;
        while i < self.expected_tokens.len()
            invariant
                i <= self.expected_tokens@.len(),
                expected@ == self.expected_tokens@.take(i as int),
            decreases self.expected_tokens@.len() - i,
        {
            expected.push(self.expected_tokens[i]);
            i = i + 1;
            assert(expected@ =~= self.expected_tokens@.take(i as int));
        }
        assert(expected@ =~= self.expected_tokens@);
        self.expected_tokens.truncate(0);
        assert(self.expected_tokens@ =~= Seq::<TokenType>::empty());
        ParseError { expected_tokens: expected, pos: self.token.start, token: self.token }
    }

    /// Parses a `T`.
    pub fn parse<T: Parse>(&mut self) -> (r: ParseResult<'a, T>)
        requires
            old(self).wf(),
        ensures
            final(self).wf(),
            final(self).text() == old(self).text(),
            final(self).cursor() >= old(self).cursor(),
            r matches Ok(v) ==> tail_of(old(self).rest(), final(self).rest()) && T::written(
                ate(old(self).rest(), final(self).rest()),
                v,
            ),
            (exists|v: T| old(self).rest() == T::tokens_of(v) && T::shape_ok(v)) ==> r is Ok && final(self).rest().len() == 0,
    {
        T::parse(self)
    }

    /// Parses a `T`, or nothing when it fails before consuming a token.
    pub fn parse_maybe<T: Parse>(&mut self) -> (r: ParseResult<'a, Option<T>>)
        requires
            old(self).wf(),
        ensures
            final(self).wf(),
            final(self).text() == old(self).text(),
            final(self).cursor() >= old(self).cursor(),
            r matches Ok(None) ==> final(self).cursor() == old(self).cursor() && final(self).rest() == old(self).rest()
                && !(exists|v: T| old(self).rest() == T::tokens_of(v) && T::shape_ok(v)),
            r matches Ok(Some(v)) ==> tail_of(old(self).rest(), final(self).rest()) && T::written(
                ate(old(self).rest(), final(self).rest()),
                v,
            ),
            r is Err ==> final(self).cursor() > old(self).cursor(),
    {
        let ghost start = self.cursor@;
        proof {
            self.lexer.lemma_wf();
            crate::lexer::lemma_position_fits(self.text(), start);
        }
        let offset = self.token.start.offset;
        let res = T::parse(self);
        match res {
            Ok(res) => Ok(Some(res)),
            Err(err) => {
                if self.at_offset(offset, Ghost(start)) {
                    Ok(None)
                } else {
                    Err(err)
                }
            },
        }
    }

    /// Whether no token has been consumed since the cursor stood at `start`,
    /// whose byte offset is `offset`.
    fn at_offset(&self, offset: usize, start: Ghost<nat>) -> (r: bool)
        requires
            self.wf(),
            start@ <= self.cursor(),
            offset == crate::lexer::offset_at(self.text(), start@),
        ensures
            r == (self.cursor() == start@),
    {
        proof {
            self.lexer.lemma_wf();
            crate::lexer::lemma_offset_increasing(self.text(), start@, self.cursor@);
            crate::lexer::lemma_position_fits(self.text(), self.cursor@);
        }
        self.token.start.offset == offset
    }
}

/// Value of a decimal digit.
pub open spec fn digit_of(c: char) -> nat {
    if crate::lexer::is_digit(c) {
        (c as u32 - 0x30) as nat
    } else {
        0
    }
}

/// Value of a string of decimal digits.
pub open spec fn digits_value(s: Seq<char>) -> nat
    decreases s.len(),
{
    if s.len() == 0 {
        0
    } else {
        digits_value(s.drop_last()) * 10 + digit_of(s.last())
    }
}

pub open spec fn all_digits(s: Seq<char>) -> bool {
    forall|i: int| 0 <= i < s.len() ==> crate::lexer::is_digit(#[trigger] s[i])
}

/// A token: its kind and its text.
pub type Tok = (TokenType, Seq<char>);

pub open spec fn kw(k: Keyword) -> Tok {
    (TokenType::Keyword(k), keyword_text(k))
}

pub open spec fn sym(s: Symbol) -> Tok {
    (TokenType::Symbol(s), seq![symbol_char(s)])
}

pub open spec fn ident(x: Seq<char>) -> Tok {
    (TokenType::Ident, x)
}

/// The keyword of an integer type.
pub open spec fn int_keyword(i: IntType) -> Keyword {
    match (i.signed, i.size) {
        (false, IntSize::B64) => Keyword::U64,
        (false, IntSize::B32) => Keyword::U32,
        (false, IntSize::B16) => Keyword::U16,
        (false, IntSize::B8) => Keyword::U8,
        (true, IntSize::B64) => Keyword::I64,
        (true, IntSize::B32) => Keyword::I32,
        (true, IntSize::B16) => Keyword::I16,
        (true, IntSize::B8) => Keyword::I8,
    }
}

/// The innermost element type of `t`.
pub open spec fn base(t: TypeModel) -> TypeModel
    decreases t,
{
    match t {
        TypeModel::Array(b, _) => base(*b),
        _ => t,
    }
}

/// The array sizes around the base of `t`, innermost first.
pub open spec fn layers(t: TypeModel) -> Seq<Option<u64>>
    decreases t,
{
    match t {
        TypeModel::Array(b, n) => layers(*b).push(n),
        _ => Seq::empty(),
    }
}

/// `b` inside arrays of the sizes `ls`, innermost first.
pub open spec fn wrap(b: TypeModel, ls: Seq<Option<u64>>) -> TypeModel
    decreases ls.len(),
{
    if ls.len() == 0 {
        b
    } else {
        TypeModel::Array(Box::new(wrap(b, ls.drop_last())), ls.last())
    }
}

/// The tokens of a base type.
pub open spec fn base_tokens(t: TypeModel) -> Seq<Tok> {
    match t {
        TypeModel::Bool => seq![kw(Keyword::Bool)],
        TypeModel::Int(i) => seq![kw(int_keyword(i))],
        TypeModel::Struct(n) => seq![kw(Keyword::Struct), ident(n)],
        TypeModel::Array(_, _) => Seq::empty(),
    }
}

/// The tokens of one array suffix.
pub open spec fn layer_tokens(n: Option<u64>) -> Seq<Tok> {
    match n {
        Some(n) => seq![sym(Symbol::OpenSquareBrace), (TokenType::Integer, decimal(n as nat)), sym(Symbol::CloseSquareBrace)],
        None => seq![sym(Symbol::OpenSquareBrace), sym(Symbol::CloseSquareBrace)],
    }
}

/// The tokens of the array suffixes from the `i`-th on.
pub open spec fn layers_tokens(ls: Seq<Option<u64>>, i: nat) -> Seq<Tok>
    decreases ls.len() - i,
{
    if i >= ls.len() {
        Seq::empty()
    } else {
        layer_tokens(ls[i as int]) + layers_tokens(ls, i + 1)
    }
}

/// The tokens of a type as it is written.
pub open spec fn type_tokens(t: TypeModel) -> Seq<Tok> {
    base_tokens(base(t)) + layers_tokens(layers(t), 0)
}

/// The tokens of a payload item as it is written.
pub open spec fn item_tokens(it: ItemModel) -> Seq<Tok> {
    match it.name {
        Some(n) => seq![ident(n), sym(Symbol::Colon)] + type_tokens(it.ty),
        None => type_tokens(it.ty),
    }
}

/// The tokens of the payload items from the `i`-th on, comma separated.
pub open spec fn items_tokens(items: Seq<ItemModel>, i: nat) -> Seq<Tok>
    decreases items.len() - i,
{
    if i >= items.len() {
        Seq::empty()
    } else if i + 1 == items.len() {
        item_tokens(items[i as int])
    } else {
        item_tokens(items[i as int]) + seq![sym(Symbol::Comma)] + items_tokens(items, i + 1)
    }
}

/// The tokens of a statement as it is written.
pub open spec fn stmt_tokens(st: StmtModel) -> Seq<Tok>
    decreases st, 0int,
{
    match st {
        StmtModel::Message(_, m) => message_tokens(m),
        StmtModel::Choice(bs) => seq![kw(Keyword::Choice)] + branches_tokens(bs, Keyword::Or),
        StmtModel::Par(bs) => seq![kw(Keyword::Par)] + branches_tokens(bs, Keyword::And),
        StmtModel::Fin(b) => seq![kw(Keyword::Fin)] + seq_tokens(b),
        StmtModel::Inf(b) => seq![kw(Keyword::Inf)] + seq_tokens(b),
    }
}

/// The tokens of branches: the first, then `sep` before each further one.
pub open spec fn branches_tokens(bs: Seq<Seq<StmtModel>>, sep: Keyword) -> Seq<Tok>
    decreases bs, 1int,
{
    if bs.len() == 0 {
        Seq::empty()
    } else {
        seq_tokens(bs[0]) + more_branches_tokens(bs.subrange(1, bs.len() as int), sep)
    }
}

/// The tokens of further branches, each after `sep`.
pub open spec fn more_branches_tokens(bs: Seq<Seq<StmtModel>>, sep: Keyword) -> Seq<Tok>
    decreases bs, 0int,
{
    if bs.len() == 0 {
        Seq::empty()
    } else {
        seq![kw(sep)] + seq_tokens(bs[0]) + more_branches_tokens(bs.subrange(1, bs.len() as int), sep)
    }
}

/// The tokens of a block as it is written.
pub open spec fn seq_tokens(s: Seq<StmtModel>) -> Seq<Tok>
    decreases s, 1int,
{
    seq![sym(Symbol::OpenCurlyBrace)] + stmts_tokens(s) + seq![sym(Symbol::CloseCurlyBrace)]
}

/// The tokens of statements, one after another.
pub open spec fn stmts_tokens(s: Seq<StmtModel>) -> Seq<Tok>
    decreases s, 0int,
{
    if s.len() == 0 {
        Seq::empty()
    } else {
        stmt_tokens(s[0]) + stmts_tokens(s.subrange(1, s.len() as int))
    }
}

/// Every `choice` and `par` in the statement has a branch.
pub open spec fn stmt_shape_ok(st: StmtModel) -> bool
    decreases st, 0int,
{
    match st {
        StmtModel::Message(_, _) => true,
        StmtModel::Choice(bs) => bs.len() > 0 && forall|i: int| #![trigger bs[i]] 0 <= i < bs.len() ==> seq_shape_ok(bs[i]),
        StmtModel::Par(bs) => bs.len() > 0 && forall|i: int| #![trigger bs[i]] 0 <= i < bs.len() ==> seq_shape_ok(bs[i]),
        StmtModel::Fin(b) => seq_shape_ok(b),
        StmtModel::Inf(b) => seq_shape_ok(b),
    }
}

/// Every `choice` and `par` in the block has a branch.
pub open spec fn seq_shape_ok(s: Seq<StmtModel>) -> bool
    decreases s, 1int,
{
    forall|i: int| #![trigger s[i]] 0 <= i < s.len() ==> stmt_shape_ok(s[i])
}

/// A token list that cannot continue a `choice` or a `par`.
pub open spec fn ends_branches(more: Seq<Tok>) -> bool {
    more.len() == 0 || (more[0].0 != TokenType::Keyword(Keyword::Or) && more[0].0 != TokenType::Keyword(Keyword::And))
}

proof fn lemma_stmt_tokens_start(st: StmtModel)
    requires
        stmt_shape_ok(st),
    ensures
        stmt_tokens(st).len() > 0,
        stmt_tokens(st)[0].0 != TokenType::Keyword(Keyword::Or),
        stmt_tokens(st)[0].0 != TokenType::Keyword(Keyword::And),
        stmt_tokens(st)[0].0 != TokenType::Symbol(Symbol::CloseCurlyBrace),
        stmt_tokens(st)[0].0 == TokenType::Ident <==> st is Message,
{
}

proof fn lemma_stmt_first(st: StmtModel)
    ensures
        stmt_tokens(st).len() > 0,
        stmt_tokens(st)[0].0 == match st {
            StmtModel::Message(_, _) => TokenType::Ident,
            StmtModel::Choice(_) => TokenType::Keyword(Keyword::Choice),
            StmtModel::Par(_) => TokenType::Keyword(Keyword::Par),
            StmtModel::Fin(_) => TokenType::Keyword(Keyword::Fin),
            StmtModel::Inf(_) => TokenType::Keyword(Keyword::Inf),
        },
{
}

proof fn lemma_stmts_congruent(x: Seq<StmtModel>, y: Seq<StmtModel>)
    requires
        x.len() == y.len(),
        forall|i: int| 0 <= i < x.len() ==> stmt_tokens(#[trigger] x[i]) == stmt_tokens(y[i]),
    ensures
        stmts_tokens(x) == stmts_tokens(y),
    decreases x.len(),
{
    if x.len() > 0 {
        let x1 = x.subrange(1, x.len() as int);
        let y1 = y.subrange(1, y.len() as int);
        assert forall|i: int| 0 <= i < x1.len() implies stmt_tokens(#[trigger] x1[i]) == stmt_tokens(y1[i]) by {
            assert(x1[i] == x[i + 1] && y1[i] == y[i + 1]);
        }
        lemma_stmts_congruent(x1, y1);
    }
}

proof fn lemma_more_branches_congruent(x: Seq<Seq<StmtModel>>, y: Seq<Seq<StmtModel>>, sep: Keyword)
    requires
        x.len() == y.len(),
        forall|i: int| 0 <= i < x.len() ==> seq_tokens(#[trigger] x[i]) == seq_tokens(y[i]),
    ensures
        more_branches_tokens(x, sep) == more_branches_tokens(y, sep),
    decreases x.len(),
{
    if x.len() > 0 {
        let x1 = x.subrange(1, x.len() as int);
        let y1 = y.subrange(1, y.len() as int);
        assert forall|i: int| 0 <= i < x1.len() implies seq_tokens(#[trigger] x1[i]) == seq_tokens(y1[i]) by {
            assert(x1[i] == x[i + 1] && y1[i] == y[i + 1]);
        }
        lemma_more_branches_congruent(x1, y1, sep);
    }
}

/// The tokens of role declarations from the `i`-th on, comma separated.
pub open spec fn roles_tokens(rs: Seq<Seq<char>>, i: nat) -> Seq<Tok>
    decreases rs.len() - i,
{
    if i >= rs.len() {
        Seq::empty()
    } else if i + 1 == rs.len() {
        seq![kw(Keyword::Role), ident(rs[i as int])]
    } else {
        seq![kw(Keyword::Role), ident(rs[i as int]), sym(Symbol::Comma)] + roles_tokens(rs, i + 1)
    }
}

/// The tokens of a protocol definition as it is written.
pub open spec fn protocol_tokens(name: Seq<char>, roles: Option<Seq<Seq<char>>>, body: Seq<StmtModel>) -> Seq<Tok> {
    seq![kw(Keyword::Protocol), ident(name)] + match roles {
        Some(rs) => seq![sym(Symbol::OpenBrace)] + roles_tokens(rs, 0) + seq![sym(Symbol::CloseBrace)],
        None => Seq::empty(),
    } + seq_tokens(body)
}

pub open spec fn items_view(v: Seq<PayloadItem>) -> Seq<ItemModel> {
    v.map_values(|it: PayloadItem| crate::ast::item_view(it))
}

proof fn lemma_items_snoc(pre: Seq<Tok>, x: Seq<Tok>, iv0: Seq<ItemModel>, itv: ItemModel)
    requires
        iv0.len() == 0 ==> pre.len() == 0,
        iv0.len() > 0 ==> pre.len() > 0 && pre.last() == sym(Symbol::Comma) && items_written(pre.drop_last(), iv0),
        item_written(x, itv),
    ensures
        items_written(pre + x, iv0.push(itv)),
{
    if iv0.len() == 0 {
        assert(pre + x =~= x);
        assert(iv0.push(itv)[0] == itv);
    } else {
        let k = pre.len() - 1;
        let ww = pre + x;
        assert(ww.take(k) =~= pre.drop_last());
        assert(ww[k] == sym(Symbol::Comma));
        assert(ww.skip(k + 1) =~= x);
        assert(iv0.push(itv).drop_last() =~= iv0);
    }
}

/// `x` is a way of writing the statement `st`.
pub open spec fn stmt_written(x: Seq<Tok>, st: StmtModel) -> bool
    decreases st, 0int,
{
    match st {
        StmtModel::Message(_, m) => message_written(x, m),
        StmtModel::Choice(bs) => x.len() > 0 && x[0] == kw(Keyword::Choice) && branches_written(x.skip(1), bs, Keyword::Or),
        StmtModel::Par(bs) => x.len() > 0 && x[0] == kw(Keyword::Par) && branches_written(x.skip(1), bs, Keyword::And),
        StmtModel::Fin(b) => x.len() > 0 && x[0] == kw(Keyword::Fin) && seq_written(x.skip(1), b),
        StmtModel::Inf(b) => x.len() > 0 && x[0] == kw(Keyword::Inf) && seq_written(x.skip(1), b),
    }
}

/// `x` is a way of writing the branches `bs`, `sep` between each two.
pub open spec fn branches_written(x: Seq<Tok>, bs: Seq<Seq<StmtModel>>, sep: Keyword) -> bool
    decreases bs, 1int,
{
    if bs.len() == 0 {
        false
    } else if bs.len() == 1 {
        seq_written(x, bs[0])
    } else {
        exists|k: int|
            #![trigger x.take(k)]
            0 <= k < x.len() && branches_written(x.take(k), bs.subrange(0, bs.len() - 1), sep) && x[k] == kw(sep)
                && seq_written(x.skip(k + 1), bs[bs.len() - 1])
    }
}

/// `x` is a way of writing the block `s`.
pub open spec fn seq_written(x: Seq<Tok>, s: Seq<StmtModel>) -> bool
    decreases s, 2int,
{
    x.len() >= 2 && x[0] == sym(Symbol::OpenCurlyBrace) && x[x.len() - 1] == sym(Symbol::CloseCurlyBrace)
        && stmts_written(x.subrange(1, x.len() - 1), s)
}

/// `y` is a way of writing the statements `s`, one after another.
pub open spec fn stmts_written(y: Seq<Tok>, s: Seq<StmtModel>) -> bool
    decreases s, 1int,
{
    if s.len() == 0 {
        y.len() == 0
    } else {
        exists|k: int|
            #![trigger y.take(k)]
            0 <= k <= y.len() && stmts_written(y.take(k), s.subrange(0, s.len() - 1)) && stmt_written(
                y.skip(k),
                s[s.len() - 1],
            )
    }
}

proof fn lemma_keyword_step(r0: Seq<Tok>, r1: Seq<Tok>, r2: Seq<Tok>, k: Tok)
    requires
        r0 == seq![k] + r1,
        tail_of(r1, r2),
    ensures
        tail_of(r0, r2),
        ate(r0, r2) == seq![k] + ate(r1, r2),
        ate(r0, r2).len() > 0 && ate(r0, r2)[0] == k && ate(r0, r2).skip(1) == ate(r1, r2),
{
    assert(r0 =~= (seq![k] + ate(r1, r2)) + r2);
    lemma_ate(r0, r2, seq![k] + ate(r1, r2));
    assert((seq![k] + ate(r1, r2)).skip(1) =~= ate(r1, r2));
}

/// `x` is a way of writing the struct field `f`.
pub open spec fn field_written(x: Seq<Tok>, f: (Seq<char>, TypeModel)) -> bool {
    x.len() >= 2 && x[0] == ident(f.0) && x[1] == sym(Symbol::Colon) && type_written(x.skip(2), f.1)
}

/// `y` is a way of writing the fields, comma separated.
pub open spec fn fields_written(y: Seq<Tok>, fs: Seq<(Seq<char>, TypeModel)>) -> bool
    decreases fs.len(),
{
    if fs.len() == 0 {
        y.len() == 0
    } else if fs.len() == 1 {
        field_written(y, fs[0])
    } else {
        exists|k: int|
            #![trigger y.take(k)]
            0 <= k < y.len() && fields_written(y.take(k), fs.drop_last()) && y[k] == sym(Symbol::Comma)
                && field_written(y.skip(k + 1), fs.last())
    }
}

/// `x` is a way of writing the struct `name` with fields `fs`: a comma may
/// follow the last field.
pub open spec fn struct_written(x: Seq<Tok>, name: Seq<char>, fs: Seq<(Seq<char>, TypeModel)>) -> bool {
    let n = x.len();
    &&& n >= 4
    &&& x[0] == kw(Keyword::Struct)
    &&& x[1] == ident(name)
    &&& x[2] == sym(Symbol::OpenCurlyBrace)
    &&& x[n - 1] == sym(Symbol::CloseCurlyBrace)
    &&& {
        let y = x.subrange(3, n - 1);
        fields_written(y, fs) || (fs.len() > 0 && y.len() > 0 && y.last() == sym(Symbol::Comma) && fields_written(
            y.drop_last(),
            fs,
        ))
    }
}

proof fn lemma_fields_snoc(pre: Seq<Tok>, x: Seq<Tok>, f0: Seq<(Seq<char>, TypeModel)>, f: (Seq<char>, TypeModel))
    requires
        f0.len() == 0 ==> pre.len() == 0,
        f0.len() > 0 ==> pre.len() > 0 && pre.last() == sym(Symbol::Comma) && fields_written(pre.drop_last(), f0),
        field_written(x, f),
    ensures
        fields_written(pre + x, f0.push(f)),
{
    if f0.len() == 0 {
        assert(pre + x =~= x);
        assert(f0.push(f)[0] == f);
    } else {
        let k = pre.len() - 1;
        let ww = pre + x;
        assert(ww.take(k) =~= pre.drop_last());
        assert(ww[k] == sym(Symbol::Comma));
        assert(ww.skip(k + 1) =~= x);
        assert(f0.push(f).drop_last() =~= f0);
    }
}

/// `y` is a way of writing the role declarations `rs`, comma separated.
pub open spec fn roles_written(y: Seq<Tok>, rs: Seq<Seq<char>>) -> bool
    decreases rs.len(),
{
    let n = y.len();
    if rs.len() == 0 {
        n == 0
    } else if rs.len() == 1 {
        y == seq![kw(Keyword::Role), ident(rs[0])]
    } else {
        n >= 3 && roles_written(y.take(n - 3), rs.drop_last()) && y[n - 3] == sym(Symbol::Comma) && y.skip(n - 2)
            == seq![kw(Keyword::Role), ident(rs.last())]
    }
}

/// `x` is a way of writing a protocol: its name, its roles if declared (a
/// comma may follow the last), and its body.
pub open spec fn protocol_written(x: Seq<Tok>, name: Seq<char>, roles: Option<Seq<Seq<char>>>, body: Seq<StmtModel>) -> bool {
    &&& x.len() >= 2
    &&& x[0] == kw(Keyword::Protocol)
    &&& x[1] == ident(name)
    &&& match roles {
        None => seq_written(x.skip(2), body),
        Some(rs) => exists|k: int|
            #![trigger x.take(k)]
            4 <= k <= x.len() && x[2] == sym(Symbol::OpenBrace) && x[k - 1] == sym(Symbol::CloseBrace) && (roles_written(
                x.subrange(3, k - 1),
                rs,
            ) || (rs.len() > 0 && k >= 5 && x[k - 2] == sym(Symbol::Comma) && roles_written(x.subrange(3, k - 2), rs)))
                && seq_written(x.skip(k), body),
    }
}

proof fn lemma_roles_snoc(pre: Seq<Tok>, r0: Seq<Seq<char>>, r: Seq<char>)
    requires
        r0.len() == 0 ==> pre.len() == 0,
        r0.len() > 0 ==> pre.len() > 0 && pre.last() == sym(Symbol::Comma) && roles_written(pre.drop_last(), r0),
    ensures
        roles_written(pre + seq![kw(Keyword::Role), ident(r)], r0.push(r)),
{
    let y = pre + seq![kw(Keyword::Role), ident(r)];
    if r0.len() == 0 {
        assert(y =~= seq![kw(Keyword::Role), ident(r)]);
        assert(r0.push(r)[0] == r);
    } else {
        let n = y.len();
        assert(y.take(n - 3) =~= pre.drop_last());
        assert(y.skip(n - 2) =~= seq![kw(Keyword::Role), ident(r)]);
        assert(r0.push(r).drop_last() =~= r0);
    }
}

/// The declared role names, if any.
pub open spec fn roles_opt_view(r: Option<Vec<Role>>) -> Option<Seq<Seq<char>>> {
    match r {
        Some(v) => Some(crate::compile::roles_view(v@)),
        None => None,
    }
}

/// `x` is a way of writing the protocols `ps` and the structs `ss`, the
/// definitions of each kind in order, interleaved in some way.
pub open spec fn file_written(x: Seq<Tok>, ps: Seq<Span<Protocol>>, ss: Seq<Span<Struct>>) -> bool
    decreases ps.len() + ss.len(),
{
    if ps.len() == 0 && ss.len() == 0 {
        x.len() == 0
    } else {
        ||| ps.len() > 0 && exists|k: int|
            #![trigger x.take(k)]
            0 <= k <= x.len() && file_written(x.take(k), ps.drop_last(), ss) && protocol_written(
                x.skip(k),
                ps.last().inner.name@,
                roles_opt_view(ps.last().inner.roles),
                ps.last().inner.seq@,
            )
        ||| ss.len() > 0 && exists|k: int|
            #![trigger x.take(k)]
            0 <= k <= x.len() && file_written(x.take(k), ps, ss.drop_last()) && struct_written(
                x.skip(k),
                ss.last().inner.name@,
                crate::validate::fields_view(ss.last().inner.fields@),
            )
    }
}

/// A definition of a file: a protocol or a struct.
pub enum DefModel {
    Protocol(Seq<char>, Option<Seq<Seq<char>>>, Seq<StmtModel>),
    Struct(Seq<char>, Seq<(Seq<char>, TypeModel)>),
}

pub open spec fn def_tokens(d: DefModel) -> Seq<Tok> {
    match d {
        DefModel::Protocol(n, r, b) => protocol_tokens(n, r, b),
        DefModel::Struct(n, f) => struct_tokens(n, f),
    }
}

/// The tokens of definitions from the `i`-th on.
pub open spec fn defs_tokens(ds: Seq<DefModel>, i: nat) -> Seq<Tok>
    decreases ds.len() - i,
{
    if i >= ds.len() {
        Seq::empty()
    } else {
        def_tokens(ds[i as int]) + defs_tokens(ds, i + 1)
    }
}

pub open spec fn defs_ok(ds: Seq<DefModel>) -> bool {
    forall|i: int| 0 <= i < ds.len() ==> (#[trigger] ds[i] matches DefModel::Protocol(_, _, b) ==> seq_shape_ok(b))
}

/// A file's definitions as written canonically: its structs, then its
/// protocols.
pub open spec fn file_defs(ss: Seq<Span<Struct>>, ps: Seq<Span<Protocol>>) -> Seq<DefModel> {
    ss.map_values(|d: Span<Struct>| DefModel::Struct(d.inner.name@, crate::validate::fields_view(d.inner.fields@)))
        + ps.map_values(|d: Span<Protocol>| DefModel::Protocol(d.inner.name@, roles_opt_view(d.inner.roles), d.inner.seq@))
}

pub open spec fn file_tokens(ss: Seq<Span<Struct>>, ps: Seq<Span<Protocol>>) -> Seq<Tok> {
    defs_tokens(file_defs(ss, ps), 0)
}

/// What a parse took from the tokens ahead: `before` less what is `after`.
pub open spec fn ate(before: Seq<Tok>, after: Seq<Tok>) -> Seq<Tok> {
    before.take(before.len() - after.len())
}

/// `after` is what is left of `before` once its front has been taken.
pub open spec fn tail_of(before: Seq<Tok>, after: Seq<Tok>) -> bool {
    after.len() <= before.len() && before == ate(before, after) + after
}

proof fn lemma_ate(a: Seq<Tok>, b: Seq<Tok>, c: Seq<Tok>)
    requires
        a == c + b,
    ensures
        tail_of(a, b),
        ate(a, b) == c,
{
    assert(a.take(a.len() - b.len()) =~= c);
}

/// Array suffixes written as tokens: sizes in decimal, innermost first.
pub open spec fn layers_written(y: Seq<Tok>, ls: Seq<Option<u64>>) -> bool
    decreases ls.len(),
{
    if ls.len() == 0 {
        y.len() == 0
    } else {
        let n = y.len();
        match ls.last() {
            Some(v) => n >= 3 && layers_written(y.take(n - 3), ls.drop_last()) && y[n - 3] == sym(Symbol::OpenSquareBrace)
                && y[n - 2].0 == TokenType::Integer && all_digits(y[n - 2].1) && digits_value(y[n - 2].1) == v
                && y[n - 1] == sym(Symbol::CloseSquareBrace),
            None => n >= 2 && layers_written(y.take(n - 2), ls.drop_last()) && y[n - 2] == sym(Symbol::OpenSquareBrace)
                && y[n - 1] == sym(Symbol::CloseSquareBrace),
        }
    }
}

/// `x` is a way of writing the type `t`.
pub open spec fn type_written(x: Seq<Tok>, t: TypeModel) -> bool {
    let b = base_tokens(base(t));
    x.len() >= b.len() && x.take(b.len() as int) == b && layers_written(x.skip(b.len() as int), layers(t))
}

/// `x` is a way of writing the payload item `it`.
pub open spec fn item_written(x: Seq<Tok>, it: ItemModel) -> bool {
    match it.name {
        Some(n) => x.len() >= 2 && x[0] == ident(n) && x[1] == sym(Symbol::Colon) && type_written(x.skip(2), it.ty),
        None => type_written(x, it.ty),
    }
}

/// `y` is a way of writing the items, comma separated.
pub open spec fn items_written(y: Seq<Tok>, items: Seq<ItemModel>) -> bool
    decreases items.len(),
{
    if items.len() == 0 {
        y.len() == 0
    } else if items.len() == 1 {
        item_written(y, items[0])
    } else {
        exists|k: int|
            #![trigger y.take(k)]
            0 <= k < y.len() && items_written(y.take(k), items.drop_last()) && y[k] == sym(Symbol::Comma)
                && item_written(y.skip(k + 1), items.last())
    }
}

/// `x` is a way of writing payload items and the closing `)`: a comma may
/// follow the last item.
pub open spec fn payload_written(x: Seq<Tok>, items: Seq<ItemModel>) -> bool {
    x.len() >= 1 && x.last() == sym(Symbol::CloseBrace) && (items_written(x.drop_last(), items) || (items.len() > 0
        && x.len() >= 2 && x[x.len() - 2] == sym(Symbol::Comma) && items_written(x.drop_last().drop_last(), items)))
}

/// `x` is a way of writing the message `m`: an empty payload may be
/// written `()` or left out.
pub open spec fn message_written(x: Seq<Tok>, m: MessageModel) -> bool {
    let n = x.len();
    &&& n >= 6
    &&& x[0] == ident(m.label)
    &&& x.skip(n - 5) == seq![kw(Keyword::From), ident(m.from), kw(Keyword::To), ident(m.to), sym(Symbol::Semicolon)]
    &&& {
        let mid = x.subrange(1, n - 5);
        (mid.len() == 0 && m.payload.len() == 0) || (mid.len() > 0 && mid[0] == sym(Symbol::OpenBrace) && payload_written(
            mid.skip(1),
            m.payload,
        ))
    }
}

/// The tokens of a struct field as it is written.
pub open spec fn field_tokens(f: (Seq<char>, TypeModel)) -> Seq<Tok> {
    seq![ident(f.0), sym(Symbol::Colon)] + type_tokens(f.1)
}

/// The tokens of the fields from the `i`-th on, comma separated.
pub open spec fn fields_tokens(fs: Seq<(Seq<char>, TypeModel)>, i: nat) -> Seq<Tok>
    decreases fs.len() - i,
{
    if i >= fs.len() {
        Seq::empty()
    } else if i + 1 == fs.len() {
        field_tokens(fs[i as int])
    } else {
        field_tokens(fs[i as int]) + seq![sym(Symbol::Comma)] + fields_tokens(fs, i + 1)
    }
}

/// The tokens of a struct definition as it is written.
pub open spec fn struct_tokens(name: Seq<char>, fs: Seq<(Seq<char>, TypeModel)>) -> Seq<Tok> {
    seq![kw(Keyword::Struct), ident(name), sym(Symbol::OpenCurlyBrace)] + fields_tokens(fs, 0) + seq![
        sym(Symbol::CloseCurlyBrace),
    ]
}

/// The tokens of a message as it is written.
pub open spec fn message_tokens(m: MessageModel) -> Seq<Tok> {
    seq![ident(m.label)] + (if m.payload.len() > 0 {
        seq![sym(Symbol::OpenBrace)] + items_tokens(m.payload, 0) + seq![sym(Symbol::CloseBrace)]
    } else {
        Seq::empty()
    }) + seq![kw(Keyword::From), ident(m.from), kw(Keyword::To), ident(m.to), sym(Symbol::Semicolon)]
}

pub proof fn lemma_wrap(t: TypeModel)
    ensures
        wrap(base(t), layers(t)) == t,
        !(base(t) is Array),
    decreases t,
{
    match t {
        TypeModel::Array(b, n) => {
            lemma_wrap(*b);
            assert(layers(t).drop_last() =~= layers(*b));
        },
        _ => {},
    }
}

proof fn lemma_digit(d: nat)
    requires
        d < 10,
    ensures
        digit_of(crate::text::digit(d)) == d,
        crate::lexer::is_digit(crate::text::digit(d)),
{
    if d == 0 {
    } else if d == 1 {
    } else if d == 2 {
    } else if d == 3 {
    } else if d == 4 {
    } else if d == 5 {
    } else if d == 6 {
    } else if d == 7 {
    } else if d == 8 {
    } else {
        assert(d == 9);
    }
}

pub proof fn lemma_digits_of_decimal(n: nat)
    ensures
        all_digits(decimal(n)),
        digits_value(decimal(n)) == n,
        decimal(n).len() > 0,
    decreases n,
{
    lemma_digit(n % 10);
    if n >= 10 {
        lemma_digits_of_decimal(n / 10);
        vstd::arithmetic::div_mod::lemma_fundamental_div_mod(n as int, 10);
        let d = decimal(n);
        assert(d.drop_last() =~= decimal(n / 10));
        assert(d.last() == crate::text::digit(n % 10));
        assert(digits_value(d) == digits_value(decimal(n / 10)) * 10 + digit_of(d.last()));
        assert forall|i: int| 0 <= i < d.len() implies crate::lexer::is_digit(#[trigger] d[i]) by {
            if i < d.len() - 1 {
                assert(d[i] == decimal(n / 10)[i]);
            }
        }
    } else {
        assert(decimal(n).drop_last() =~= Seq::<char>::empty());
        lemma_digit(n);
        assert(decimal(n).last() == crate::text::digit(n));
        assert(digits_value(decimal(n)) == digits_value(Seq::<char>::empty()) * 10 + digit_of(decimal(n).last()));
    }
}

/// The value of the decimal digits `text`, if it fits in 64 bits.
pub fn parse_u64(text: &str) -> (r: Option<u64>)
    ensures
        r matches Some(v) ==> all_digits(text@) && v == digits_value(text@),
        r is None ==> !(all_digits(text@) && digits_value(text@) <= u64::MAX),
{
    let n = text.unicode_len();
    let mut v: u64 = 0;
    let mut i: usize = 0;
    while i < n
        invariant
            n == text@.len(),
            i <= n,
            all_digits(text@.take(i as int)),
            v == digits_value(text@.take(i as int)),
        decreases n - i,
    {
        let c = text.get_char(i);
        assert(text@.take(i + 1).drop_last() =~= text@.take(i as int));
        if !(0x30 <= c as u32 && c as u32 <= 0x39) {
            assert(!all_digits(text@)) by {
                assert(!crate::lexer::is_digit(text@[i as int]));
            }
            return None;
        }
        let d = (c as u32 - 0x30) as u64;
        if v > (u64::MAX - d) / 10 {
            proof {
                assert(v * 10 + d > u64::MAX) by (nonlinear_arith)
                    requires
                        v > (u64::MAX - d) / 10,
                        d <= 9,
                ;
                assert(digits_value(text@.take(i + 1)) == v * 10 + d);
                if all_digits(text@) {
                    lemma_digits_value_grows(text@, (i + 1) as nat);
                }
            }
            return None;
        }
        v = v * 10 + d;
        i = i + 1;
    }
    assert(text@.take(n as int) =~= text@);
    Some(v)
}

proof fn lemma_digits_value_grows(s: Seq<char>, k: nat)
    requires
        k <= s.len(),
        all_digits(s),
    ensures
        digits_value(s.take(k as int)) <= digits_value(s),
    decreases s.len() - k,
{
    if k < s.len() {
        lemma_digits_value_grows(s, k + 1);
        assert(s.take((k + 1) as int).drop_last() =~= s.take(k as int));
    } else {
        assert(s.take(k as int) =~= s);
    }
}

impl<'a> Parser<'a> {
    /// `role := Ident`
    pub fn parse_role(&mut self) -> (r: ParseResult<'a, Role>)
        requires
            old(self).wf(),
        ensures
            final(self).wf(),
            final(self).text() == old(self).text(),
            final(self).cursor() >= old(self).cursor(),
            r is Ok ==> final(self).cursor() > old(self).cursor(),
            r matches Ok(role) ==> old(self).current().ty == TokenType::Ident && role.0@ == old(self).current().contents@,
            r is Ok ==> final(self).rest() == old(self).rest().skip(1),
            r is Ok <==> old(self).current().ty == TokenType::Ident,
            r matches Ok(role) ==> crate::lexer::is_ident_text(role.0@),
    {
        proof {
            if self.token.ty == TokenType::Ident {
                self.lemma_ident_token();
            }
        }
        let name = self.expect_token(TokenType::Ident)?;
        Ok(Role(String::from_str(name)))
    }

    /// `base := 'bool' | int keyword | 'struct' Ident`
    #[verifier::rlimit(100)]
    fn parse_base_type(&mut self, expect: Ghost<Option<(TypeModel, Seq<Tok>)>>) -> (r: ParseResult<'a, Type>)
        requires
            old(self).wf(),
            expect@ matches Some((t, more)) ==> old(self).rest() == base_tokens(t) + more && !(t is Array),
        ensures
            final(self).wf(),
            final(self).text() == old(self).text(),
            final(self).cursor() >= old(self).cursor(),
            r is Ok ==> final(self).cursor() > old(self).cursor(),
            expect@ matches Some((t, more)) ==> r is Ok && type_view(r->Ok_0) == t && final(self).rest() == more,
            r matches Ok(v) ==> crate::roundtrip::type_names_ok(type_view(v)) && !(type_view(v) is Array)
                && old(self).rest() == base_tokens(type_view(v)) + final(self).rest(),
    {
        proof {
            self.lemma_rest();
        }
        let ty = if self.eat_token(TokenType::Keyword(Keyword::Bool)).is_some() {
            Type::Bool
        } else if self.eat_token(TokenType::Keyword(Keyword::U64)).is_some() {
            Type::Int(IntType { signed: false, size: IntSize::B64 })
        } else if self.eat_token(TokenType::Keyword(Keyword::U32)).is_some() {
            Type::Int(IntType { signed: false, size: IntSize::B32 })
        } else if self.eat_token(TokenType::Keyword(Keyword::U16)).is_some() {
            Type::Int(IntType { signed: false, size: IntSize::B16 })
        } else if self.eat_token(TokenType::Keyword(Keyword::U8)).is_some() {
            Type::Int(IntType { signed: false, size: IntSize::B8 })
        } else if self.eat_token(TokenType::Keyword(Keyword::I64)).is_some() {
            Type::Int(IntType { signed: true, size: IntSize::B64 })
        } else if self.eat_token(TokenType::Keyword(Keyword::I32)).is_some() {
            Type::Int(IntType { signed: true, size: IntSize::B32 })
        } else if self.eat_token(TokenType::Keyword(Keyword::I16)).is_some() {
            Type::Int(IntType { signed: true, size: IntSize::B16 })
        } else if self.eat_token(TokenType::Keyword(Keyword::I8)).is_some() {
            Type::Int(IntType { signed: true, size: IntSize::B8 })
        } else if self.eat_token(TokenType::Keyword(Keyword::Struct)).is_some() {
            proof {
                self.lemma_rest();
                if self.token.ty == TokenType::Ident {
                    self.lemma_ident_token();
                }
            }
            let name = self.expect_token(TokenType::Ident)?;
            Type::Struct(String::from_str(name))
        } else {
            return Err(self.invalid_token());
        };
        Ok(ty)
    }

    /// `type := ('bool' | int keyword | 'struct' Ident) { '[' [Integer] ']' }`
    pub fn parse_type(&mut self) -> (r: ParseResult<'a, Type>)
        requires
            old(self).wf(),
        ensures
            final(self).wf(),
            final(self).text() == old(self).text(),
            final(self).cursor() >= old(self).cursor(),
            r is Ok ==> final(self).cursor() > old(self).cursor(),
            r matches Ok(v) ==> tail_of(old(self).rest(), final(self).rest()) && type_written(ate(old(self).rest(), final(self).rest()), type_view(v)),
            (exists|t: TypeModel, more: Seq<Tok>| old(self).rest() == type_tokens(t) + more && (more.len() == 0 || more[0].0 != TokenType::Symbol(Symbol::OpenSquareBrace))) ==> r is Ok && (exists|t: TypeModel, more: Seq<Tok>|
                old(self).rest() == type_tokens(t) + more && (more.len() == 0 || more[0].0 != TokenType::Symbol(Symbol::OpenSquareBrace)) && type_view(r->Ok_0) == t && final(self).rest() == more),
    {
        let ghost e = if exists|t: TypeModel, more: Seq<Tok>| self.rest() == type_tokens(t) + more && (more.len() == 0 || more[0].0 != TokenType::Symbol(Symbol::OpenSquareBrace)) {
            Some(choose|t: TypeModel, more: Seq<Tok>| self.rest() == type_tokens(t) + more && (more.len() == 0 || more[0].0 != TokenType::Symbol(Symbol::OpenSquareBrace)))
        } else {
            None
        };
        self.parse_type_expecting(Ghost(e))
    }

    /// Parses a type; where the tokens ahead are those of the type `t`
    /// followed by `more`, that does not start with `[`, the result is `t`
    /// and `more` remains.
    #[verifier::rlimit(100)]
    #[verifier::spinoff_prover]
    pub fn parse_type_expecting(&mut self, expect: Ghost<Option<(TypeModel, Seq<Tok>)>>) -> (r: ParseResult<'a, Type>)
        requires
            old(self).wf(),
            expect@ matches Some((t, more)) ==> old(self).rest() == type_tokens(t) + more && (more.len() == 0
                || more[0].0 != TokenType::Symbol(Symbol::OpenSquareBrace)),
        ensures
            final(self).wf(),
            final(self).text() == old(self).text(),
            final(self).cursor() >= old(self).cursor(),
            r is Ok ==> final(self).cursor() > old(self).cursor(),
            expect@ matches Some((t, more)) ==> r is Ok && type_view(r->Ok_0) == t && final(self).rest() == more,
            r matches Ok(v) ==> crate::roundtrip::type_names_ok(type_view(v)),
            r matches Ok(v) ==> tail_of(old(self).rest(), final(self).rest()) && type_written(
                ate(old(self).rest(), final(self).rest()),
                type_view(v),
            ),
    {
        let ghost r0 = self.rest();
        let ghost t = match expect@ {
            Some(e) => e.0,
            None => TypeModel::Bool,
        };
        let ghost more = match expect@ {
            Some(e) => e.1,
            None => Seq::empty(),
        };
        let ghost ls = layers(t);
        proof {
            self.lemma_rest();
            lemma_wrap(t);
            if expect@ is Some {
                assert(self.rest() == base_tokens(base(t)) + layers_tokens(ls, 0) + more);
                assert(self.rest() =~= base_tokens(base(t)) + (layers_tokens(ls, 0) + more));
            }
        }
        let mut ty = self.parse_base_type(Ghost(
            if expect@ is Some {
                Some((base(t), layers_tokens(ls, 0) + more))
            } else {
                None
            },
        ))?;
        let ghost entry = old(self).cursor();
        let ghost mut li: nat = 0;
        let ghost mut lw: Seq<Tok> = Seq::empty();
        proof {
            let b = base_tokens(base(type_view(ty)));
            assert(base(type_view(ty)) == type_view(ty));
            assert(r0 =~= b + lw + self.rest());
            assert(layers(type_view(ty)) =~= Seq::<Option<u64>>::empty());
        }
        proof {
            if expect@ is Some {
                assert(base_tokens(base(t)).len() >= 1);
                assert(type_view(ty) == base(t));
                assert(self.rest() =~= layers_tokens(ls, 0) + more);
                assert(ls.take(0) =~= Seq::<Option<u64>>::empty());
            }
            self.lemma_rest();
        }
        while self.eat_token(TokenType::Symbol(Symbol::OpenSquareBrace)).is_some()
            invariant
                self.wf(),
                self.text() == old(self).text(),
                entry == old(self).cursor(),
                self.cursor() > entry,
                ls == layers(t),
                expect@ matches Some(e) ==> e.0 == t && e.1 == more,
                expect@ is Some ==> li <= ls.len() && type_view(ty) == wrap(base(t), ls.take(li as int))
                    && self.rest() == layers_tokens(ls, li) + more && (more.len() == 0 || more[0].0
                    != TokenType::Symbol(Symbol::OpenSquareBrace)),
                self.rest().len() == 0 <==> self.current().ty == TokenType::End,
                self.rest().len() > 0 ==> self.rest()[0] == (self.current().ty, self.current().contents@),
                crate::roundtrip::type_names_ok(type_view(ty)),
                r0 == old(self).rest(),
                r0 == base_tokens(base(type_view(ty))) + lw + self.rest(),
                layers_written(lw, layers(type_view(ty))),
                self.current().ty matches TokenType::Symbol(sy) ==> self.current().contents@ == seq![symbol_char(sy)],
                !(base(type_view(ty)) is Array),
            decreases self.text().len() + 1 - self.cursor(),
        {
            let ghost open_tok = sym(Symbol::OpenSquareBrace);
            proof {
                self.lemma_rest();
                if expect@ is Some {
                    if li >= ls.len() {
                        assert(false);
                    }
                }
            }
            let ghost mid = self.rest();
            let ghost mut layer: Seq<Tok> = seq![open_tok];
            assert(r0 =~= base_tokens(base(type_view(ty))) + lw + layer + self.rest());
            let size = if self.token.ty == TokenType::Integer {
                proof {
                    if expect@ is Some {
                        if let Some(n) = ls[li as int] {
                            lemma_digits_of_decimal(n as nat);
                        }
                    }
                }
                match parse_u64(self.token.contents) {
                    Some(v) => {
                        proof {
                            self.lemma_rest();
                            layer = layer.push(self.rest()[0]);
                        }
                        self.next_token();
                        assert(r0 =~= base_tokens(base(type_view(ty))) + lw + layer + self.rest());
                        Some(v)
                    },
                    None => {
                        self.expected_tokens.push(TokenType::Symbol(Symbol::CloseSquareBrace));
                        return Err(self.invalid_token());
                    },
                }
            } else {
                self.expected_tokens.push(TokenType::Integer);
                None
            };
            proof {
                self.lemma_rest();
            }
            let ghost before_close = self.rest();
            self.expect_token(TokenType::Symbol(Symbol::CloseSquareBrace))?;
            assert(before_close[0] == sym(Symbol::CloseSquareBrace));
            assert(r0 =~= base_tokens(base(type_view(ty))) + lw + layer.push(sym(Symbol::CloseSquareBrace)) + self.rest());
            let ghost prev_ty = type_view(ty);
            ty = Type::Array(Box::new(ty), size);
            proof {
                layer = layer.push(sym(Symbol::CloseSquareBrace));
                let lw2 = lw + layer;
                assert(layers(type_view(ty)) == layers(prev_ty).push(size));
                assert(base(type_view(ty)) == base(prev_ty));
                assert(lw2.take(lw2.len() - layer.len()) =~= lw);
                assert(r0 =~= base_tokens(base(type_view(ty))) + lw2 + self.rest());
                assert(layers(type_view(ty)).drop_last() =~= layers(prev_ty));
                lw = lw2;
            }
            proof {
                self.lemma_rest();
                if expect@ is Some {
                    assert(ls.take((li + 1) as int).drop_last() =~= ls.take(li as int));
                    li = li + 1;
                }
            }
        }
        proof {
            let b = base_tokens(base(type_view(ty)));
            lemma_ate(r0, self.rest(), b + lw);
            assert((b + lw).take(b.len() as int) =~= b);
            assert((b + lw).skip(b.len() as int) =~= lw);
        }
        proof {
            self.lemma_rest();
            if expect@ is Some {
                assert(li == ls.len());
                assert(ls.take(li as int) =~= ls);
            }
        }
        Ok(ty)
    }

    /// Parses one payload item; where the tokens ahead are those of `it`
    /// followed by `more`, that does not start with `[`, the result is `it`.
    #[verifier::rlimit(80)]
    fn parse_item_expecting(&mut self, expect: Ghost<Option<(ItemModel, Seq<Tok>)>>) -> (r: ParseResult<'a, PayloadItem>)
        requires
            old(self).wf(),
            expect@ matches Some((it, more)) ==> old(self).rest() == item_tokens(it) + more && (more.len() == 0
                || more[0].0 != TokenType::Symbol(Symbol::OpenSquareBrace)),
        ensures
            final(self).wf(),
            final(self).text() == old(self).text(),
            final(self).cursor() >= old(self).cursor(),
            r is Ok ==> final(self).cursor() > old(self).cursor(),
            expect@ matches Some((it, more)) ==> r is Ok && crate::ast::item_view(r->Ok_0) == it && final(self).rest()
                == more,
            r matches Ok(v) ==> crate::roundtrip::item_names_ok(crate::ast::item_view(v)),
            r matches Ok(v) ==> tail_of(old(self).rest(), final(self).rest()) && item_written(
                ate(old(self).rest(), final(self).rest()),
                crate::ast::item_view(v),
            ),
    {
        let ghost r0 = self.rest();
        let ghost it = match expect@ {
            Some(e) => e.0,
            None => ItemModel { name: None, ty: TypeModel::Bool },
        };
        let ghost more = match expect@ {
            Some(e) => e.1,
            None => Seq::empty(),
        };
        proof {
            self.lemma_rest();
            lemma_wrap(it.ty);
            if self.token.ty == TokenType::Ident {
                self.lemma_ident_token();
            }
        }
        let ghost mut head: Seq<Tok> = Seq::empty();
        let name = if let Some(token) = self.eat_token(TokenType::Ident) {
            proof {
                self.lemma_rest();
            }
            let ghost r1 = self.rest();
            self.expect_token(TokenType::Symbol(Symbol::Colon))?;
            proof {
                head = seq![ident(token@), sym(Symbol::Colon)];
                assert(r0 =~= head + self.rest());
                assert(head.len() == 2);
            }
            Some(String::from_str(token))
        } else {
            assert(r0 =~= head + self.rest());
            None
        };
        proof {
            self.lemma_rest();
            if expect@ is Some {
                assert(self.rest() =~= type_tokens(it.ty) + more);
            }
        }
        let ghost r2 = self.rest();
        assert(r0 == head + r2);
        let ty = self.parse_type_expecting(Ghost(
            if expect@ is Some {
                Some((it.ty, more))
            } else {
                None
            },
        ))?;
        let r = PayloadItem { name, ty };
        proof {
            let x = ate(r2, self.rest());
            assert(r0 =~= (head + x) + self.rest());
            lemma_ate(r0, self.rest(), head + x);
            if head.len() == 2 {
                assert((head + x).skip(2) =~= x);
            } else {
                assert(head + x =~= x);
            }
        }
        Ok(r)
    }

    /// The items of a payload whose `(` has been read, through its `)`.
    pub fn parse_payload(&mut self) -> (r: ParseResult<'a, Payload>)
        requires
            old(self).wf(),
        ensures
            final(self).wf(),
            final(self).text() == old(self).text(),
            final(self).cursor() >= old(self).cursor(),
            r is Ok ==> final(self).cursor() > old(self).cursor(),
            r matches Ok(v) ==> tail_of(old(self).rest(), final(self).rest()) && payload_written(ate(old(self).rest(), final(self).rest()), items_view(v.items@)),
            (exists|items: Seq<ItemModel>, more: Seq<Tok>| old(self).rest() == items_tokens(items, 0) + seq![sym(Symbol::CloseBrace)] + more) ==> r is Ok && (exists|items: Seq<ItemModel>, more: Seq<Tok>|
                old(self).rest() == items_tokens(items, 0) + seq![sym(Symbol::CloseBrace)] + more && items_view(r->Ok_0.items@) == items && final(self).rest() == more),
    {
        let ghost e = if exists|items: Seq<ItemModel>, more: Seq<Tok>| self.rest() == items_tokens(items, 0) + seq![sym(Symbol::CloseBrace)] + more {
            Some(choose|items: Seq<ItemModel>, more: Seq<Tok>| self.rest() == items_tokens(items, 0) + seq![sym(Symbol::CloseBrace)] + more)
        } else {
            None
        };
        self.parse_payload_expecting(Ghost(e))
    }

    /// Parses payload items; where the tokens ahead are those of `items`,
    /// then `)`, then `more`, the result is `items` and `more` remains.
    #[verifier::rlimit(100)]
    #[verifier::spinoff_prover]
    pub fn parse_payload_expecting(&mut self, expect: Ghost<Option<(Seq<ItemModel>, Seq<Tok>)>>) -> (r: ParseResult<'a, Payload>)
        requires
            old(self).wf(),
            expect@ matches Some((items, more)) ==> old(self).rest() == items_tokens(items, 0) + seq![
                sym(Symbol::CloseBrace),
            ] + more,
        ensures
            final(self).wf(),
            final(self).text() == old(self).text(),
            final(self).cursor() >= old(self).cursor(),
            r is Ok ==> final(self).cursor() > old(self).cursor(),
            expect@ matches Some((items, more)) ==> r is Ok && r->Ok_0.items@.map_values(
                |it: PayloadItem| crate::ast::item_view(it),
            ) == items && final(self).rest() == more,
            r matches Ok(p) ==> forall|i: int|
                0 <= i < p.items@.len() ==> crate::roundtrip::item_names_ok(crate::ast::item_view(#[trigger] p.items@[i])),
            r matches Ok(p) ==> tail_of(old(self).rest(), final(self).rest()) && payload_written(
                ate(old(self).rest(), final(self).rest()),
                items_view(p.items@),
            ),
    {
        let ghost r0 = self.rest();
        let ghost mut pre: Seq<Tok> = Seq::empty();
        let ghost items = match expect@ {
            Some(e) => e.0,
            None => Seq::empty(),
        };
        let ghost more = match expect@ {
            Some(e) => e.1,
            None => Seq::empty(),
        };
        let ghost close = seq![sym(Symbol::CloseBrace)];
        let mut out: Vec<PayloadItem> = Vec::new();
        let ghost entry = self.cursor();
        let ghost mut ii: nat = 0;
        proof {
            self.lemma_rest();
            assert(r0 =~= pre + self.rest());
        }
        while self.eat_token(TokenType::Symbol(Symbol::CloseBrace)).is_none()
            invariant
                self.wf(),
                self.text() == old(self).text(),
                entry == old(self).cursor(),
                self.cursor() >= entry,
                ii > 0 ==> self.cursor() > entry,
                expect@ matches Some(e) ==> e.0 == items && e.1 == more,
                close == seq![sym(Symbol::CloseBrace)],
                expect@ is Some ==> ii <= items.len() && out@.map_values(|it: PayloadItem| crate::ast::item_view(it))
                    == items.take(ii as int) && self.rest() == items_tokens(items, ii) + close + more,
                expect@ is Some && ii == items.len() ==> ii == 0,
                forall|i: int|
                    0 <= i < out@.len() ==> crate::roundtrip::item_names_ok(crate::ast::item_view(#[trigger] out@[i])),
                self.rest().len() == 0 <==> self.current().ty == TokenType::End,
                self.rest().len() > 0 ==> self.rest()[0] == (self.current().ty, self.current().contents@),
                self.current().ty matches TokenType::Symbol(sy) ==> self.current().contents@ == seq![symbol_char(sy)],
                r0 == old(self).rest(),
                r0 == pre + self.rest(),
                out@.len() == 0 ==> pre.len() == 0,
                out@.len() > 0 ==> pre.len() > 0 && pre.last() == sym(Symbol::Comma) && items_written(
                    pre.drop_last(),
                    items_view(out@),
                ),
            decreases self.text().len() + 1 - self.cursor(),
        {
            let ghost it = items[ii as int];
            let ghost tail = if ii + 1 < items.len() {
                seq![sym(Symbol::Comma)] + items_tokens(items, ii + 1)
            } else {
                Seq::empty()
            };
            proof {
                self.lemma_rest();
                if expect@ is Some {
                    if ii >= items.len() {
                        assert(items_tokens(items, ii) =~= Seq::<Tok>::empty());
                        assert(false);
                    }
                    assert(items_tokens(items, ii) =~= item_tokens(it) + tail);
                    assert(self.rest() =~= item_tokens(it) + (tail + close + more));
                }
            }
            let ghost before_item = self.rest();
            assert(r0 == pre + before_item);
            let item = self.parse_item_expecting(Ghost(
                if expect@ is Some {
                    Some((it, tail + close + more))
                } else {
                    None
                },
            ))?;
            let ghost iv0 = items_view(out@);
            out.push(item);
            let ghost w = pre + ate(before_item, self.rest());
            proof {
                let x = ate(before_item, self.rest());
                assert(items_view(out@) =~= iv0.push(crate::ast::item_view(item)));
                lemma_items_snoc(pre, x, iv0, crate::ast::item_view(item));
                assert(r0 =~= w + self.rest());
            }
            proof {
                self.lemma_rest();
                if expect@ is Some {
                    assert(out@.map_values(|it: PayloadItem| crate::ast::item_view(it)) =~= items.take((ii + 1) as int));
                }
            }
            if self.eat_token(TokenType::Symbol(Symbol::Comma)).is_none() {
                proof {
                    self.lemma_rest();
                }
                let ghost before_close = self.rest();
                self.expect_token(TokenType::Symbol(Symbol::CloseBrace))?;
                proof {
                    let c = w + seq![sym(Symbol::CloseBrace)];
                    assert(r0 =~= c + self.rest());
                    lemma_ate(r0, self.rest(), c);
                    assert(c.drop_last() =~= w);
                }
                proof {
                    if expect@ is Some {
                        assert(items.take((ii + 1) as int) =~= items);
                        assert(self.rest() =~= more);
                    }
                }
                return Ok(Payload { items: out });
            }
            proof {
                self.lemma_rest();
                if expect@ is Some {
                    assert(self.rest() =~= items_tokens(items, ii + 1) + close + more);
                }
                ii = ii + 1;
                pre = w + seq![sym(Symbol::Comma)];
                assert(r0 =~= pre + self.rest());
                assert(pre.drop_last() =~= w);
            }
        }
        proof {
            if expect@ is Some {
                assert(items.take(0) =~= items);
                assert(self.rest() =~= more);
            }
            let c = pre + seq![sym(Symbol::CloseBrace)];
            assert(r0 =~= c + self.rest());
            lemma_ate(r0, self.rest(), c);
            assert(c.drop_last() =~= pre);
            if out@.len() > 0 {
                assert(c[c.len() - 2] == sym(Symbol::Comma));
                assert(c.drop_last().drop_last() =~= pre.drop_last());
            }
        }
        Ok(Payload { items: out })
    }

    /// `message := Ident [ '(' payload ')' ] 'from' role 'to' role ';'`
    pub fn parse_message(&mut self) -> (r: ParseResult<'a, Message>)
        requires
            old(self).wf(),
        ensures
            final(self).wf(),
            final(self).text() == old(self).text(),
            final(self).cursor() >= old(self).cursor(),
            r is Ok ==> final(self).cursor() > old(self).cursor(),
            r is Err && old(self).current().ty != TokenType::Ident ==> final(self).cursor() == old(self).cursor(),
            r matches Ok(v) ==> tail_of(old(self).rest(), final(self).rest()) && message_written(ate(old(self).rest(), final(self).rest()), v@),
            (exists|m: MessageModel, more: Seq<Tok>| old(self).rest() == message_tokens(m) + more) ==> r is Ok && (exists|m: MessageModel, more: Seq<Tok>|
                old(self).rest() == message_tokens(m) + more && r->Ok_0@ == m && final(self).rest() == more),
    {
        let ghost e = if exists|m: MessageModel, more: Seq<Tok>| self.rest() == message_tokens(m) + more {
            Some(choose|m: MessageModel, more: Seq<Tok>| self.rest() == message_tokens(m) + more)
        } else {
            None
        };
        self.parse_message_expecting(Ghost(e))
    }

    /// Parses a message; where the tokens ahead are those of `m` followed
    /// by `more`, the result is `m` and `more` remains.
    #[verifier::rlimit(80)]
    #[verifier::spinoff_prover]
    pub fn parse_message_expecting(&mut self, expect: Ghost<Option<(MessageModel, Seq<Tok>)>>) -> (r: ParseResult<'a, Message>)
        requires
            old(self).wf(),
            expect@ matches Some((m, more)) ==> old(self).rest() == message_tokens(m) + more,
        ensures
            final(self).wf(),
            final(self).text() == old(self).text(),
            final(self).cursor() >= old(self).cursor(),
            r is Ok ==> final(self).cursor() > old(self).cursor(),
            r is Err && old(self).current().ty != TokenType::Ident ==> final(self).cursor() == old(self).cursor(),
            expect@ matches Some((m, more)) ==> r is Ok && r->Ok_0@ == m && final(self).rest() == more,
            r matches Ok(v) ==> crate::roundtrip::message_names_ok(v@),
            r matches Ok(v) ==> tail_of(old(self).rest(), final(self).rest()) && message_written(
                ate(old(self).rest(), final(self).rest()),
                v@,
            ),
    {
        let ghost r0 = self.rest();
        let ghost m = match expect@ {
            Some(e) => e.0,
            None => MessageModel { label: Seq::empty(), payload: Seq::empty(), from: Seq::empty(), to: Seq::empty() },
        };
        let ghost more = match expect@ {
            Some(e) => e.1,
            None => Seq::empty(),
        };
        let ghost tail = seq![kw(Keyword::From), ident(m.from), kw(Keyword::To), ident(m.to), sym(Symbol::Semicolon)] + more;
        proof {
            self.lemma_rest();
            if self.token.ty == TokenType::Ident {
                self.lemma_ident_token();
            }
        }
        if let Some(label) = self.eat_token(TokenType::Ident) {
            proof {
                self.lemma_rest();
            }
            let ghost r1 = self.rest();
            assert(r0 =~= seq![ident(label@)] + r1);
            let ghost mut mid: Seq<Tok> = Seq::empty();
            let payload = if self.eat_token(TokenType::Symbol(Symbol::OpenBrace)).is_some() {
                let ghost r2 = self.rest();
                assert(r1[0] == sym(Symbol::OpenBrace));
                assert(r1 =~= seq![sym(Symbol::OpenBrace)] + r2);
                proof {
                    if expect@ is Some {
                        assert(self.rest() =~= items_tokens(m.payload, 0) + seq![sym(Symbol::CloseBrace)] + tail);
                    }
                }
                let p = self.parse_payload_expecting(Ghost(
                    if expect@ is Some {
                        Some((m.payload, tail))
                    } else {
                        None
                    },
                ))?;
                proof {
                    mid = seq![sym(Symbol::OpenBrace)] + ate(r2, self.rest());
                    assert(r2 == ate(r2, self.rest()) + self.rest());
                    assert(r1 =~= mid + self.rest());
                    assert(mid.skip(1) =~= ate(r2, self.rest()));
                }
                p
            } else {
                proof {
                    if expect@ is Some {
                        assert(m.payload.len() == 0);
                    }
                }
                assert(r1 =~= mid + self.rest());
                Payload::empty()
            };
            let ghost r3 = self.rest();
            proof {
                self.lemma_rest();
                if expect@ is Some {
                    assert(self.rest() =~= tail);
                }
            }
            self.expect_token(TokenType::Keyword(Keyword::From))?;
            proof {
                self.lemma_rest();
            }
            let from = self.parse_role()?;
            proof {
                self.lemma_rest();
            }
            self.expect_token(TokenType::Keyword(Keyword::To))?;
            proof {
                self.lemma_rest();
            }
            let to = self.parse_role()?;
            proof {
                self.lemma_rest();
            }
            self.expect_token(TokenType::Symbol(Symbol::Semicolon))?;
            let r = Message { label: String::from_str(label), payload, from, to };
            proof {
                let t5 = seq![kw(Keyword::From), ident(r@.from), kw(Keyword::To), ident(r@.to), sym(Symbol::Semicolon)];
                assert(r3 =~= t5 + self.rest());
                let x = seq![ident(label@)] + mid + t5;
                assert(r0 =~= x + self.rest());
                lemma_ate(r0, self.rest(), x);
                assert(x.skip(x.len() - 5) =~= t5);
                assert(x.subrange(1, x.len() - 5) =~= mid);
                assert(r@.payload == items_view(payload.items@));
            }
            proof {
                if expect@ is Some {
                    assert(r@.payload =~= m.payload);
                    assert(self.rest() =~= more);
                }
            }
            Ok(r)
        } else {
            Err(self.invalid_token())
        }
    }

    /// A message with its span.
    pub fn parse_message_span(&mut self) -> (r: ParseResult<'a, Span<Message>>)
        requires
            old(self).wf(),
        ensures
            final(self).wf(),
            final(self).text() == old(self).text(),
            final(self).cursor() >= old(self).cursor(),
            r is Ok ==> final(self).cursor() > old(self).cursor(),
            r is Err && old(self).current().ty != TokenType::Ident ==> final(self).cursor() == old(self).cursor(),
            r matches Ok(v) ==> tail_of(old(self).rest(), final(self).rest()) && message_written(ate(old(self).rest(), final(self).rest()), v.inner@),
            (exists|m: MessageModel, more: Seq<Tok>| old(self).rest() == message_tokens(m) + more) ==> r is Ok && (exists|m: MessageModel, more: Seq<Tok>|
                old(self).rest() == message_tokens(m) + more && r->Ok_0.inner@ == m && final(self).rest() == more),
    {
        let ghost e = if exists|m: MessageModel, more: Seq<Tok>| self.rest() == message_tokens(m) + more {
            Some(choose|m: MessageModel, more: Seq<Tok>| self.rest() == message_tokens(m) + more)
        } else {
            None
        };
        self.parse_message_span_expecting(Ghost(e))
    }

    /// A message with its span; as `parse_message_expecting`.
    pub fn parse_message_span_expecting(&mut self, expect: Ghost<Option<(MessageModel, Seq<Tok>)>>) -> (r: ParseResult<'a, Span<Message>>)
        requires
            old(self).wf(),
            expect@ matches Some((m, more)) ==> old(self).rest() == message_tokens(m) + more,
        ensures
            final(self).wf(),
            final(self).text() == old(self).text(),
            final(self).cursor() >= old(self).cursor(),
            r is Ok ==> final(self).cursor() > old(self).cursor(),
            r is Err && old(self).current().ty != TokenType::Ident ==> final(self).cursor() == old(self).cursor(),
            expect@ matches Some((m, more)) ==> r is Ok && r->Ok_0.inner@ == m && final(self).rest() == more,
            r matches Ok(v) ==> tail_of(old(self).rest(), final(self).rest()) && message_written(
                ate(old(self).rest(), final(self).rest()),
                v.inner@,
            ),
    {
        let start = self.token.start;
        let inner = self.parse_message_expecting(expect)?;
        Ok(Span { span: RawSpan { start, end: self.pos }, inner })
    }

    /// `stmt := message | 'choice' seq {'or' seq} | 'par' seq {'and' seq}
    /// | 'fin' seq | 'inf' seq`
    pub fn parse_stmt(&mut self) -> (r: ParseResult<'a, Stmt>)
        requires
            old(self).wf(),
        ensures
            final(self).wf(),
            final(self).text() == old(self).text(),
            final(self).cursor() >= old(self).cursor(),
            r is Ok ==> final(self).cursor() > old(self).cursor(),
            r matches Ok(v) ==> tail_of(old(self).rest(), final(self).rest()) && stmt_written(ate(old(self).rest(), final(self).rest()), crate::ast::stmt_view(v)),
            (exists|st: StmtModel, more: Seq<Tok>| old(self).rest() == stmt_tokens(st) + more && stmt_shape_ok(st) && ends_branches(more)) ==> r is Ok && (exists|st: StmtModel, more: Seq<Tok>|
                old(self).rest() == stmt_tokens(st) + more && stmt_shape_ok(st) && ends_branches(more) && stmt_tokens(crate::ast::stmt_view(r->Ok_0)) == stmt_tokens(st) && final(self).rest() == more),
    {
        let ghost e = if exists|st: StmtModel, more: Seq<Tok>| self.rest() == stmt_tokens(st) + more && stmt_shape_ok(st) && ends_branches(more) {
            Some(choose|st: StmtModel, more: Seq<Tok>| self.rest() == stmt_tokens(st) + more && stmt_shape_ok(st) && ends_branches(more))
        } else {
            None
        };
        self.parse_stmt_expecting(Ghost(e))
    }

    /// Parses a statement; where the tokens ahead are those of `st`
    /// followed by `more`, that cannot continue a `choice` or a `par`, the
    /// result is written as `st` is and `more` remains.
    #[verifier::rlimit(80)]
    #[verifier::spinoff_prover]
    pub fn parse_stmt_expecting(&mut self, expect: Ghost<Option<(StmtModel, Seq<Tok>)>>) -> (r: ParseResult<'a, Stmt>)
        requires
            old(self).wf(),
            expect@ matches Some((st, more)) ==> old(self).rest() == stmt_tokens(st) + more && stmt_shape_ok(st)
                && ends_branches(more),
        ensures
            final(self).wf(),
            final(self).text() == old(self).text(),
            final(self).cursor() >= old(self).cursor(),
            r is Ok ==> final(self).cursor() > old(self).cursor(),
            expect@ matches Some((st, more)) ==> r is Ok && stmt_tokens(crate::ast::stmt_view(r->Ok_0)) == stmt_tokens(st)
                && final(self).rest() == more,
            r matches Ok(v) ==> tail_of(old(self).rest(), final(self).rest()) && stmt_written(
                ate(old(self).rest(), final(self).rest()),
                crate::ast::stmt_view(v),
            ),
        decreases old(self).text().len() + 1 - old(self).cursor(), 1nat,
    {
        let ghost r0 = self.rest();
        let ghost st = match expect@ {
            Some(e) => e.0,
            None => StmtModel::Fin(Seq::empty()),
        };
        let ghost more = match expect@ {
            Some(e) => e.1,
            None => Seq::empty(),
        };
        proof {
            self.lemma_rest();
            if expect@ is Some {
                lemma_stmt_tokens_start(st);
                lemma_stmt_first(st);
            }
        }
        let ghost rest0 = self.rest();
        if self.token.ty == TokenType::Ident {
            let ghost m = st->Message_1;
            let msg = self.parse_message_span_expecting(Ghost(
                if expect@ is Some {
                    Some((m, more))
                } else {
                    None
                },
            ))?;
            Ok(Stmt::Message(msg))
        } else if self.eat_token(TokenType::Keyword(Keyword::Choice)).is_some() {
            let ghost r1 = self.rest();
            assert(r0 =~= seq![kw(Keyword::Choice)] + r1);
            let ghost bs = st->Choice_0;
            proof {
                if expect@ is Some {
                    assert(st is Choice);
                    assert(self.rest() =~= branches_tokens(bs, Keyword::Or) + more);
                }
            }
            let blocks = self.parse_branches_expecting(Keyword::Or, Ghost(
                if expect@ is Some {
                    Some((bs, more))
                } else {
                    None
                },
            ))?;
            proof {
                lemma_keyword_step(r0, r1, self.rest(), kw(Keyword::Choice));
            }
            Ok(Stmt::Choice(blocks))
        } else if self.eat_token(TokenType::Keyword(Keyword::Par)).is_some() {
            let ghost r1 = self.rest();
            assert(r0 =~= seq![kw(Keyword::Par)] + r1);
            let ghost bs = st->Par_0;
            proof {
                if expect@ is Some {
                    assert(st is Par);
                    assert(self.rest() =~= branches_tokens(bs, Keyword::And) + more);
                }
            }
            let blocks = self.parse_branches_expecting(Keyword::And, Ghost(
                if expect@ is Some {
                    Some((bs, more))
                } else {
                    None
                },
            ))?;
            proof {
                lemma_keyword_step(r0, r1, self.rest(), kw(Keyword::Par));
            }
            Ok(Stmt::Par(blocks))
        } else if self.eat_token(TokenType::Keyword(Keyword::Fin)).is_some() {
            let ghost r1 = self.rest();
            assert(r0 =~= seq![kw(Keyword::Fin)] + r1);
            let ghost b = st->Fin_0;
            proof {
                if expect@ is Some {
                    assert(st is Fin);
                    assert(self.rest() =~= seq_tokens(b) + more);
                }
            }
            let body = self.parse_sequence_expecting(Ghost(
                if expect@ is Some {
                    Some((b, more))
                } else {
                    None
                },
            ))?;
            proof {
                lemma_keyword_step(r0, r1, self.rest(), kw(Keyword::Fin));
            }
            Ok(Stmt::Fin(body))
        } else if self.eat_token(TokenType::Keyword(Keyword::Inf)).is_some() {
            let ghost r1 = self.rest();
            assert(r0 =~= seq![kw(Keyword::Inf)] + r1);
            let ghost b = st->Inf_0;
            proof {
                if expect@ is Some {
                    assert(st is Inf);
                    assert(self.rest() =~= seq_tokens(b) + more);
                }
            }
            let body = self.parse_sequence_expecting(Ghost(
                if expect@ is Some {
                    Some((b, more))
                } else {
                    None
                },
            ))?;
            proof {
                lemma_keyword_step(r0, r1, self.rest(), kw(Keyword::Inf));
            }
            Ok(Stmt::Inf(body))
        } else {
            self.expected_tokens.push(TokenType::Ident);
            Err(self.invalid_token())
        }
    }

    /// Parses `seq {sep seq}`; where the tokens ahead are those of the
    /// branches `bs` followed by `more`, that cannot continue them, the
    /// result is written as `bs` are and `more` remains.
    #[verifier::rlimit(80)]
    #[verifier::spinoff_prover]
    pub fn parse_branches_expecting(&mut self, sep: Keyword, expect: Ghost<Option<(Seq<Seq<StmtModel>>, Seq<Tok>)>>) -> (r: ParseResult<'a, Sequences>)
        requires
            old(self).wf(),
            sep == Keyword::Or || sep == Keyword::And,
            expect@ matches Some((bs, more)) ==> old(self).rest() == branches_tokens(bs, sep) + more && bs.len() > 0
                && (forall|i: int| #![trigger bs[i]] 0 <= i < bs.len() ==> seq_shape_ok(bs[i])) && ends_branches(more),
        ensures
            final(self).wf(),
            final(self).text() == old(self).text(),
            final(self).cursor() >= old(self).cursor(),
            r is Ok ==> final(self).cursor() > old(self).cursor(),
            expect@ matches Some((bs, more)) ==> r is Ok && branches_tokens(r->Ok_0@, sep) == branches_tokens(bs, sep)
                && final(self).rest() == more,
            r matches Ok(v) ==> tail_of(old(self).rest(), final(self).rest()) && branches_written(
                ate(old(self).rest(), final(self).rest()),
                v@,
                sep,
            ),
        decreases old(self).text().len() + 1 - old(self).cursor(), 3nat,
    {
        let ghost r0 = self.rest();
        let ghost bs = match expect@ {
            Some(e) => e.0,
            None => Seq::empty(),
        };
        let ghost more = match expect@ {
            Some(e) => e.1,
            None => Seq::empty(),
        };
        let ghost entry = self.cursor();
        let mut blocks: Vec<Sequence> = Vec::new();
        proof {
            if expect@ is Some {
                assert(self.rest() == seq_tokens(bs[0]) + (more_branches_tokens(bs.subrange(1, bs.len() as int), sep) + more));
            }
        }
        let first = self.parse_sequence_expecting(Ghost(
            if expect@ is Some {
                Some((bs[0], more_branches_tokens(bs.subrange(1, bs.len() as int), sep) + more))
            } else {
                None
            },
        ))?;
        let ghost mut pre: Seq<Tok> = ate(r0, self.rest());
        let ghost v0 = first@;
        blocks.push(first);
        proof {
            crate::ast::lemma_seqs_view(blocks@);
            assert(crate::ast::seqs_view(blocks@).len() == 1);
            assert(crate::ast::seqs_view(blocks@)[0] == v0);
        }
        let ghost mut bi: nat = 1;
        proof {
            self.lemma_rest();
            if expect@ is Some {
                crate::ast::lemma_seqs_view(blocks@);
            }
        }
        while self.eat_token(TokenType::Keyword(sep)).is_some()
            invariant
                self.wf(),
                self.text() == old(self).text(),
                entry == old(self).cursor(),
                self.cursor() > entry,
                expect@ matches Some(e) ==> e.0 == bs && e.1 == more,
                expect@ is Some ==> 1 <= bi <= bs.len() && blocks@.len() == bi && (forall|i: int| #![trigger bs[i]] 0 <= i < bs.len() ==> seq_shape_ok(bs[i]))
                    && (forall|k: int| 0 <= k < bi ==> seq_tokens(#[trigger] blocks@[k]@) == seq_tokens(bs[k]))
                    && self.rest() == more_branches_tokens(bs.subrange(bi as int, bs.len() as int), sep) + more
                    && ends_branches(more),
                sep == Keyword::Or || sep == Keyword::And,
                self.rest().len() == 0 <==> self.current().ty == TokenType::End,
                self.rest().len() > 0 ==> self.rest()[0] == (self.current().ty, self.current().contents@),
                self.current().ty matches TokenType::Keyword(k) ==> self.current().contents@ == keyword_text(k),
                r0 == old(self).rest(),
                r0 == pre + self.rest(),
                branches_written(pre, crate::ast::seqs_view(blocks@), sep),
            decreases self.text().len() + 1 - self.cursor(),
        {
            proof {
                if expect@ is Some {
                    if bi >= bs.len() {
                        assert(bs.subrange(bi as int, bs.len() as int).len() == 0);
                        assert(false);
                    }
                    let rest_bs = bs.subrange(bi as int, bs.len() as int);
                    assert(rest_bs.subrange(1, rest_bs.len() as int) =~= bs.subrange((bi + 1) as int, bs.len() as int));
                    assert(rest_bs[0] == bs[bi as int]);
                    assert(self.rest() =~= seq_tokens(bs[bi as int]) + (more_branches_tokens(bs.subrange((bi + 1) as int, bs.len() as int), sep) + more));
                }
            }
            let ghost r1 = self.rest();
            assert(r0 =~= pre + seq![kw(sep)] + r1);
            let next = self.parse_sequence_expecting(Ghost(
                if expect@ is Some {
                    Some((bs[bi as int], more_branches_tokens(bs.subrange((bi + 1) as int, bs.len() as int), sep) + more))
                } else {
                    None
                },
            ))?;
            let ghost old_view = crate::ast::seqs_view(blocks@);
            let ghost old_blocks = blocks@;
            let ghost nv = next@;
            blocks.push(next);
            proof {
                let x = ate(r1, self.rest());
                let p2 = pre + seq![kw(sep)] + x;
                let k = pre.len() as int;
                assert(p2.take(k) =~= pre);
                assert(p2.skip(k + 1) =~= x);
                let nview = crate::ast::seqs_view(blocks@);
                assert(blocks@.subrange(0, blocks@.len() - 1) =~= old_blocks);
                assert(nview == old_view.push(nv));
                assert(nview.subrange(0, nview.len() - 1) =~= old_view);
                assert(branches_written(p2, nview, sep));
                pre = p2;
                assert(r0 =~= pre + self.rest());
            }
            proof {
                self.lemma_rest();
                if expect@ is Some {
                    bi = bi + 1;
                }
            }
        }
        proof {
            if expect@ is Some {
                if bi < bs.len() {
                    let rest_bs = bs.subrange(bi as int, bs.len() as int);
                    assert(self.rest()[0].0 == TokenType::Keyword(sep));
                    assert(false);
                }
                assert(bs.subrange(bi as int, bs.len() as int).len() == 0);
                assert(self.rest() =~= more);
                crate::ast::lemma_seqs_view(blocks@);
                let got = crate::ast::seqs_view(blocks@);
                let g1 = got.subrange(1, got.len() as int);
                let b1 = bs.subrange(1, bs.len() as int);
                assert forall|i: int| 0 <= i < g1.len() implies seq_tokens(#[trigger] g1[i]) == seq_tokens(b1[i]) by {
                    assert(g1[i] == got[i + 1]);
                    assert(got[i + 1] == blocks@[i + 1]@);
                    assert(b1[i] == bs[i + 1]);
                }
                lemma_more_branches_congruent(g1, b1, sep);
                assert(got[0] == blocks@[0]@);
            }
            lemma_ate(r0, self.rest(), pre);
        }
        Ok(Sequences(blocks))
    }

    /// `seq := '{' { stmt } '}'`
    pub fn parse_sequence(&mut self) -> (r: ParseResult<'a, Sequence>)
        requires
            old(self).wf(),
        ensures
            final(self).wf(),
            final(self).text() == old(self).text(),
            final(self).cursor() >= old(self).cursor(),
            r is Ok ==> final(self).cursor() > old(self).cursor(),
            r matches Ok(v) ==> tail_of(old(self).rest(), final(self).rest()) && seq_written(ate(old(self).rest(), final(self).rest()), v@),
            (exists|b: Seq<StmtModel>, more: Seq<Tok>| old(self).rest() == seq_tokens(b) + more && seq_shape_ok(b)) ==> r is Ok && (exists|b: Seq<StmtModel>, more: Seq<Tok>|
                old(self).rest() == seq_tokens(b) + more && seq_shape_ok(b) && seq_tokens(r->Ok_0@) == seq_tokens(b) && final(self).rest() == more),
    {
        let ghost e = if exists|b: Seq<StmtModel>, more: Seq<Tok>| self.rest() == seq_tokens(b) + more && seq_shape_ok(b) {
            Some(choose|b: Seq<StmtModel>, more: Seq<Tok>| self.rest() == seq_tokens(b) + more && seq_shape_ok(b))
        } else {
            None
        };
        self.parse_sequence_expecting(Ghost(e))
    }

    /// Parses a block; where the tokens ahead are those of the block `s`
    /// followed by `more`, the result is written as `s` is and `more`
    /// remains.
    #[verifier::rlimit(80)]
    #[verifier::spinoff_prover]
    pub fn parse_sequence_expecting(&mut self, expect: Ghost<Option<(Seq<StmtModel>, Seq<Tok>)>>) -> (r: ParseResult<'a, Sequence>)
        requires
            old(self).wf(),
            expect@ matches Some((s, more)) ==> old(self).rest() == seq_tokens(s) + more && seq_shape_ok(s),
        ensures
            final(self).wf(),
            final(self).text() == old(self).text(),
            final(self).cursor() >= old(self).cursor(),
            r is Ok ==> final(self).cursor() > old(self).cursor(),
            expect@ matches Some((s, more)) ==> r is Ok && seq_tokens(r->Ok_0@) == seq_tokens(s) && final(self).rest()
                == more,
            r matches Ok(v) ==> tail_of(old(self).rest(), final(self).rest()) && seq_written(
                ate(old(self).rest(), final(self).rest()),
                v@,
            ),
        decreases old(self).text().len() + 1 - old(self).cursor(), 2nat,
    {
        let ghost r0 = self.rest();
        let ghost s = match expect@ {
            Some(e) => e.0,
            None => Seq::empty(),
        };
        let ghost more = match expect@ {
            Some(e) => e.1,
            None => Seq::empty(),
        };
        let ghost close = seq![sym(Symbol::CloseCurlyBrace)];
        let ghost entry = self.cursor();
        proof {
            self.lemma_rest();
        }
        self.expect_token(TokenType::Symbol(Symbol::OpenCurlyBrace))?;
        let mut stmts: Vec<Stmt> = Vec::new();
        let ghost mut si: nat = 0;
        let ghost mut pre: Seq<Tok> = Seq::empty();
        let ghost open = seq![sym(Symbol::OpenCurlyBrace)];
        assert(r0 =~= open + pre + self.rest());
        assert(crate::ast::stmts_view(stmts@) =~= Seq::<StmtModel>::empty());
        proof {
            self.lemma_rest();
            if expect@ is Some {
                assert(s.subrange(0, s.len() as int) =~= s);
                assert(self.rest() =~= stmts_tokens(s.subrange(0, s.len() as int)) + close + more);
            }
        }
        while self.eat_token(TokenType::Symbol(Symbol::CloseCurlyBrace)).is_none()
            invariant
                self.wf(),
                self.text() == old(self).text(),
                entry == old(self).cursor(),
                self.cursor() > entry,
                close == seq![sym(Symbol::CloseCurlyBrace)],
                expect@ matches Some(e) ==> e.0 == s && e.1 == more,
                expect@ is Some ==> si <= s.len() && stmts@.len() == si && seq_shape_ok(s)
                    && (forall|k: int| 0 <= k < si ==> stmt_tokens(crate::ast::stmt_view(#[trigger] stmts@[k])) == stmt_tokens(s[k]))
                    && self.rest() == stmts_tokens(s.subrange(si as int, s.len() as int)) + close + more,
                self.rest().len() == 0 <==> self.current().ty == TokenType::End,
                self.rest().len() > 0 ==> self.rest()[0] == (self.current().ty, self.current().contents@),
                self.current().ty matches TokenType::Symbol(sy) ==> self.current().contents@ == seq![symbol_char(sy)],
                r0 == old(self).rest(),
                open == seq![sym(Symbol::OpenCurlyBrace)],
                r0 == open + pre + self.rest(),
                stmts_written(pre, crate::ast::stmts_view(stmts@)),
            decreases self.text().len() + 1 - self.cursor(),
        {
            proof {
                if expect@ is Some {
                    if si >= s.len() {
                        assert(s.subrange(si as int, s.len() as int).len() == 0);
                        assert(false);
                    }
                    let rest_s = s.subrange(si as int, s.len() as int);
                    assert(rest_s.subrange(1, rest_s.len() as int) =~= s.subrange((si + 1) as int, s.len() as int));
                    assert(rest_s[0] == s[si as int]);
                    assert(stmt_shape_ok(s[si as int]));
                    let after = stmts_tokens(s.subrange((si + 1) as int, s.len() as int)) + close + more;
                    assert(self.rest() =~= stmt_tokens(s[si as int]) + after);
                    if si + 1 < s.len() {
                        assert(s.subrange((si + 1) as int, s.len() as int)[0] == s[(si + 1) as int]);
                        lemma_stmt_tokens_start(s[(si + 1) as int]);
                    }
                    assert(ends_branches(after));
                }
            }
            let ghost r1 = self.rest();
            let st = self.parse_stmt_expecting(Ghost(
                if expect@ is Some {
                    Some((s[si as int], stmts_tokens(s.subrange((si + 1) as int, s.len() as int)) + close + more))
                } else {
                    None
                },
            ))?;
            let ghost old_stmts = stmts@;
            let ghost sv = crate::ast::stmt_view(st);
            stmts.push(st);
            proof {
                let x = ate(r1, self.rest());
                let p2 = pre + x;
                let k = pre.len() as int;
                assert(p2.take(k) =~= pre);
                assert(p2.skip(k) =~= x);
                assert(stmts@.subrange(0, stmts@.len() - 1) =~= old_stmts);
                let nview = crate::ast::stmts_view(stmts@);
                assert(nview == crate::ast::stmts_view(old_stmts).push(sv));
                assert(nview.subrange(0, nview.len() - 1) =~= crate::ast::stmts_view(old_stmts));
                assert(stmts_written(p2, nview));
                pre = p2;
                assert(r0 =~= open + pre + self.rest());
            }
            proof {
                self.lemma_rest();
                if expect@ is Some {
                    si = si + 1;
                }
            }
        }
        proof {
            if expect@ is Some {
                if si < s.len() {
                    let rest_s = s.subrange(si as int, s.len() as int);
                    assert(rest_s[0] == s[si as int]);
                    lemma_stmt_tokens_start(s[si as int]);
                    assert(false);
                }
                assert(s.subrange(si as int, s.len() as int).len() == 0);
                assert(self.rest() =~= more);
                crate::ast::lemma_stmts_view(stmts@);
                lemma_stmts_congruent(crate::ast::stmts_view(stmts@), s);
            }
            let x = open + pre + seq![sym(Symbol::CloseCurlyBrace)];
            assert(r0 =~= x + self.rest());
            lemma_ate(r0, self.rest(), x);
            assert(x.subrange(1, x.len() - 1) =~= pre);
        }
        Ok(Sequence(stmts))
    }

    /// `struct := 'struct' Ident '{' [ field { ',' field } [','] ] '}'`
    pub fn parse_struct(&mut self) -> (r: ParseResult<'a, Struct>)
        requires
            old(self).wf(),
        ensures
            final(self).wf(),
            final(self).text() == old(self).text(),
            final(self).cursor() >= old(self).cursor(),
            r is Ok ==> final(self).cursor() > old(self).cursor(),
            r is Err && old(self).current().ty != TokenType::Keyword(Keyword::Struct) ==> final(self).cursor()
                == old(self).cursor(),
            r matches Ok(v) ==> tail_of(old(self).rest(), final(self).rest()) && struct_written(ate(old(self).rest(), final(self).rest()), v.name@, crate::validate::fields_view(v.fields@)),
            (exists|name: Seq<char>, fs: Seq<(Seq<char>, TypeModel)>, more: Seq<Tok>| old(self).rest() == struct_tokens(name, fs) + more) ==> r is Ok && (exists|name: Seq<char>, fs: Seq<(Seq<char>, TypeModel)>, more: Seq<Tok>|
                old(self).rest() == struct_tokens(name, fs) + more && r->Ok_0.name@ == name && crate::validate::fields_view(r->Ok_0.fields@) == fs && final(self).rest() == more),
    {
        let ghost e = if exists|name: Seq<char>, fs: Seq<(Seq<char>, TypeModel)>, more: Seq<Tok>| self.rest() == struct_tokens(name, fs) + more {
            Some(choose|name: Seq<char>, fs: Seq<(Seq<char>, TypeModel)>, more: Seq<Tok>| self.rest() == struct_tokens(name, fs) + more)
        } else {
            None
        };
        self.parse_struct_expecting(Ghost(e))
    }

    /// Parses a struct definition; where the tokens ahead are those of the
    /// struct `name` with fields `fs`, followed by `more`, the result is that
    /// struct and `more` remains.
    #[verifier::rlimit(80)]
    #[verifier::spinoff_prover]
    pub fn parse_struct_expecting(
        &mut self,
        expect: Ghost<Option<(Seq<char>, Seq<(Seq<char>, TypeModel)>, Seq<Tok>)>>,
    ) -> (r: ParseResult<'a, Struct>)
        requires
            old(self).wf(),
            expect@ matches Some((name, fs, more)) ==> old(self).rest() == struct_tokens(name, fs) + more,
        ensures
            final(self).wf(),
            final(self).text() == old(self).text(),
            final(self).cursor() >= old(self).cursor(),
            r is Ok ==> final(self).cursor() > old(self).cursor(),
            r is Err && old(self).current().ty != TokenType::Keyword(Keyword::Struct) ==> final(self).cursor()
                == old(self).cursor(),
            expect@ matches Some((name, fs, more)) ==> r is Ok && r->Ok_0.name@ == name
                && crate::validate::fields_view(r->Ok_0.fields@) == fs && final(self).rest() == more,
            r matches Ok(v) ==> tail_of(old(self).rest(), final(self).rest()) && struct_written(
                ate(old(self).rest(), final(self).rest()),
                v.name@,
                crate::validate::fields_view(v.fields@),
            ),
    {
        let ghost r0 = self.rest();
        let ghost name0 = match expect@ {
            Some(e) => e.0,
            None => Seq::empty(),
        };
        let ghost fs = match expect@ {
            Some(e) => e.1,
            None => Seq::empty(),
        };
        let ghost more = match expect@ {
            Some(e) => e.2,
            None => Seq::empty(),
        };
        let ghost close = seq![sym(Symbol::CloseCurlyBrace)];
        proof {
            self.lemma_rest();
        }
        self.expect_token(TokenType::Keyword(Keyword::Struct))?;
        let ghost entry = old(self).cursor();
        proof {
            self.lemma_rest();
        }
        let name = String::from_str(self.expect_token(TokenType::Ident)?);
        proof {
            self.lemma_rest();
        }
        self.expect_token(TokenType::Symbol(Symbol::OpenCurlyBrace))?;
        let ghost head = seq![kw(Keyword::Struct), ident(name@), sym(Symbol::OpenCurlyBrace)];
        let ghost mut pre: Seq<Tok> = Seq::empty();
        assert(r0 =~= head + pre + self.rest());
        let mut fields: Vec<(String, Type)> = Vec::new();
        let ghost mut fi: nat = 0;
        proof {
            self.lemma_rest();
            if expect@ is Some {
                assert(self.rest() =~= fields_tokens(fs, 0) + close + more);
                assert(fs.take(0) =~= Seq::<(Seq<char>, TypeModel)>::empty());
                assert(crate::validate::fields_view(fields@) =~= fs.take(0));
            }
        }
        while self.eat_token(TokenType::Symbol(Symbol::CloseCurlyBrace)).is_none()
            invariant
                self.wf(),
                self.text() == old(self).text(),
                old(self).current().ty == TokenType::Keyword(Keyword::Struct),
                entry == old(self).cursor(),
                self.cursor() > entry,
                close == seq![sym(Symbol::CloseCurlyBrace)],
                expect@ matches Some(e) ==> e.0 == name0 && e.1 == fs && e.2 == more,
                expect@ is Some ==> name@ == name0 && fi <= fs.len() && crate::validate::fields_view(fields@)
                    == fs.take(fi as int) && self.rest() == fields_tokens(fs, fi) + close + more,
                expect@ is Some && fi == fs.len() ==> fi == 0,
                self.rest().len() == 0 <==> self.current().ty == TokenType::End,
                self.rest().len() > 0 ==> self.rest()[0] == (self.current().ty, self.current().contents@),
                self.current().ty matches TokenType::Symbol(sy) ==> self.current().contents@ == seq![symbol_char(sy)],
                r0 == old(self).rest(),
                head == seq![kw(Keyword::Struct), ident(name@), sym(Symbol::OpenCurlyBrace)],
                r0 == head + pre + self.rest(),
                fields@.len() == 0 ==> pre.len() == 0,
                fields@.len() > 0 ==> pre.len() > 0 && pre.last() == sym(Symbol::Comma) && fields_written(
                    pre.drop_last(),
                    crate::validate::fields_view(fields@),
                ),
            decreases self.text().len() + 1 - self.cursor(),
        {
            let ghost f = fs[fi as int];
            let ghost tail = if fi + 1 < fs.len() {
                seq![sym(Symbol::Comma)] + fields_tokens(fs, fi + 1)
            } else {
                Seq::empty()
            };
            proof {
                self.lemma_rest();
                if expect@ is Some {
                    if fi >= fs.len() {
                        assert(fields_tokens(fs, fi) =~= Seq::<Tok>::empty());
                        assert(false);
                    }
                    assert(fields_tokens(fs, fi) =~= field_tokens(f) + tail);
                    assert(self.rest() =~= seq![ident(f.0), sym(Symbol::Colon)] + type_tokens(f.1) + (tail + close
                        + more));
                }
            }
            let ghost rf = self.rest();
            let field_name = String::from_str(self.expect_token(TokenType::Ident)?);
            proof {
                self.lemma_rest();
            }
            self.expect_token(TokenType::Symbol(Symbol::Colon))?;
            proof {
                self.lemma_rest();
                if expect@ is Some {
                    assert(self.rest() =~= type_tokens(f.1) + (tail + close + more));
                }
            }
            let ghost rt = self.rest();
            assert(rf =~= seq![ident(field_name@), sym(Symbol::Colon)] + rt);
            let ty = self.parse_type_expecting(Ghost(
                if expect@ is Some {
                    Some((f.1, tail + close + more))
                } else {
                    None
                },
            ))?;
            let ghost f0 = crate::validate::fields_view(fields@);
            let ghost fv = (field_name@, type_view(ty));
            let ghost x = seq![ident(field_name@), sym(Symbol::Colon)] + ate(rt, self.rest());
            proof {
                assert(x.skip(2) =~= ate(rt, self.rest()));
                assert(field_written(x, fv));
                lemma_fields_snoc(pre, x, f0, fv);
            }
            fields.push((field_name, ty));
            let ghost w = pre + x;
            proof {
                assert(crate::validate::fields_view(fields@) =~= f0.push(fv));
                assert(r0 =~= head + w + self.rest());
            }
            proof {
                self.lemma_rest();
                if expect@ is Some {
                    assert(crate::validate::fields_view(fields@) =~= fs.take((fi + 1) as int));
                }
            }
            if self.eat_token(TokenType::Symbol(Symbol::Comma)).is_none() {
                proof {
                    self.lemma_rest();
                }
                self.expect_token(TokenType::Symbol(Symbol::CloseCurlyBrace))?;
                proof {
                    if expect@ is Some {
                        assert(fs.take((fi + 1) as int) =~= fs);
                        assert(self.rest() =~= more);
                    }
                    let c = head + w + seq![sym(Symbol::CloseCurlyBrace)];
                    assert(r0 =~= c + self.rest());
                    lemma_ate(r0, self.rest(), c);
                    assert(c.subrange(3, c.len() - 1) =~= w);
                }
                return Ok(Struct { name, fields });
            }
            proof {
                self.lemma_rest();
                if expect@ is Some {
                    assert(self.rest() =~= fields_tokens(fs, fi + 1) + close + more);
                }
                fi = fi + 1;
                pre = w + seq![sym(Symbol::Comma)];
                assert(r0 =~= head + pre + self.rest());
                assert(pre.drop_last() =~= w);
            }
        }
        proof {
            if expect@ is Some {
                assert(fs.take(0) =~= fs);
                assert(self.rest() =~= more);
            }
            let c = head + pre + seq![sym(Symbol::CloseCurlyBrace)];
            assert(r0 =~= c + self.rest());
            lemma_ate(r0, self.rest(), c);
            assert(c.subrange(3, c.len() - 1) =~= pre);
            if fields@.len() > 0 {
                assert(pre.drop_last() + seq![sym(Symbol::Comma)] =~= pre);
            }
        }
        Ok(Struct { name, fields })
    }

    /// The role declarations of a protocol whose `(` has been read, through
    /// the `)`; where the tokens ahead are those of `rs`, `)` and `more`, the
    /// result is `rs` and `more` remains.
    #[verifier::rlimit(100)]
    #[verifier::spinoff_prover]
    fn parse_role_list(&mut self, expect: Ghost<Option<(Seq<Seq<char>>, Seq<Tok>)>>) -> (r: ParseResult<'a, Vec<Role>>)
        requires
            old(self).wf(),
            expect@ matches Some((rs, more)) ==> old(self).rest() == roles_tokens(rs, 0) + seq![sym(Symbol::CloseBrace)] + more,
        ensures
            final(self).wf(),
            final(self).text() == old(self).text(),
            final(self).cursor() >= old(self).cursor(),
            r is Ok ==> final(self).cursor() > old(self).cursor(),
            expect@ matches Some((rs, more)) ==> r is Ok && crate::compile::roles_view(r->Ok_0@) == rs && final(self).rest() == more,
            r matches Ok(v) ==> tail_of(old(self).rest(), final(self).rest()) && ({
                let y = ate(old(self).rest(), final(self).rest());
                let rv = crate::compile::roles_view(v@);
                &&& y.len() >= 1
                &&& y.last() == sym(Symbol::CloseBrace)
                &&& (roles_written(y.drop_last(), rv) || (rv.len() > 0 && y.len() >= 2 && y[y.len() - 2] == sym(Symbol::Comma)
                    && roles_written(y.drop_last().drop_last(), rv)))
            }),
    {
        let ghost r0 = self.rest();
        let ghost rs = match expect@ {
            Some(e) => e.0,
            None => Seq::empty(),
        };
        let ghost more = match expect@ {
            Some(e) => e.1,
            None => Seq::empty(),
        };
        let ghost after = seq![sym(Symbol::CloseBrace)] + more;
        let ghost entry = self.cursor();
        let ghost mut pre: Seq<Tok> = Seq::empty();
        let ghost mut w: Seq<Tok> = Seq::empty();
        let mut roles: Vec<Role> = Vec::new();
        let ghost mut ri: nat = 0;
        let mut finished = false;
        proof {
            self.lemma_rest();
            if expect@ is Some {
                assert(self.rest() =~= roles_tokens(rs, 0) + after);
                assert(crate::compile::roles_view(roles@) =~= rs.take(0));
            }
            assert(r0 =~= pre + self.rest());
        }
        while !finished && self.eat_token(TokenType::Symbol(Symbol::CloseBrace)).is_none()
            invariant
                self.wf(),
                self.text() == old(self).text(),
                entry == old(self).cursor(),
                self.cursor() >= entry,
                finished ==> self.cursor() > entry,
                expect@ matches Some(e) ==> e.0 == rs && e.1 == more,
                after == seq![sym(Symbol::CloseBrace)] + more,
                expect@ is Some && !finished ==> ri <= rs.len() && crate::compile::roles_view(roles@) == rs.take(ri as int)
                    && self.rest() == roles_tokens(rs, ri) + after,
                expect@ is Some && !finished && ri == rs.len() ==> ri == 0,
                expect@ is Some && finished ==> crate::compile::roles_view(roles@) == rs && self.rest() == more,
                self.rest().len() == 0 <==> self.current().ty == TokenType::End,
                self.rest().len() > 0 ==> self.rest()[0] == (self.current().ty, self.current().contents@),
                self.current().ty matches TokenType::Symbol(sy) ==> self.current().contents@ == seq![symbol_char(sy)],
                self.current().ty matches TokenType::Keyword(k) ==> self.current().contents@ == keyword_text(k),
                r0 == old(self).rest(),
                !finished ==> r0 == pre + self.rest(),
                !finished && roles@.len() == 0 ==> pre.len() == 0,
                !finished && roles@.len() > 0 ==> pre.len() > 0 && pre.last() == sym(Symbol::Comma) && roles_written(
                    pre.drop_last(),
                    crate::compile::roles_view(roles@),
                ),
                finished ==> r0 == w + seq![sym(Symbol::CloseBrace)] + self.rest() && roles_written(
                    w,
                    crate::compile::roles_view(roles@),
                ),
            decreases self.text().len() + 1 - self.cursor(),
        {
            proof {
                self.lemma_rest();
                if expect@ is Some {
                    if ri >= rs.len() {
                        assert(roles_tokens(rs, ri) =~= Seq::<Tok>::empty());
                        assert(false);
                    }
                }
            }
            self.expect_token(TokenType::Keyword(Keyword::Role))?;
            proof {
                self.lemma_rest();
            }
            let role = self.parse_role()?;
            proof {
                lemma_roles_snoc(pre, crate::compile::roles_view(roles@), role.0@);
            }
            let ghost rv0 = crate::compile::roles_view(roles@);
            let ghost rname = role.0@;
            roles.push(role);
            proof {
                assert(crate::compile::roles_view(roles@) =~= rv0.push(rname));
                w = pre + seq![kw(Keyword::Role), ident(rname)];
                assert(r0 =~= w + self.rest());
                self.lemma_rest();
                if expect@ is Some {
                    assert(crate::compile::roles_view(roles@) =~= rs.take((ri + 1) as int));
                }
            }
            if self.eat_token(TokenType::Symbol(Symbol::Comma)).is_none() {
                proof {
                    self.lemma_rest();
                }
                self.expect_token(TokenType::Symbol(Symbol::CloseBrace))?;
                proof {
                    assert(r0 =~= w + seq![sym(Symbol::CloseBrace)] + self.rest());
                    self.lemma_rest();
                    if expect@ is Some {
                        assert(rs.take((ri + 1) as int) =~= rs);
                        assert(self.rest() =~= more);
                    }
                }
                finished = true;
            } else {
                proof {
                    self.lemma_rest();
                    if expect@ is Some {
                        assert(self.rest() =~= roles_tokens(rs, ri + 1) + after);
                    }
                    ri = ri + 1;
                    pre = w + seq![sym(Symbol::Comma)];
                    assert(r0 =~= pre + self.rest());
                    assert(pre.drop_last() =~= w);
                }
            }
        }
        proof {
            let rv = crate::compile::roles_view(roles@);
            if finished {
                let y = w + seq![sym(Symbol::CloseBrace)];
                lemma_ate(r0, self.rest(), y);
                assert(y.drop_last() =~= w);
            } else {
                if expect@ is Some {
                    assert(ri == 0);
                    assert(rs.take(0) =~= rs);
                    assert(self.rest() =~= more);
                }
                let y = pre + seq![sym(Symbol::CloseBrace)];
                assert(r0 =~= y + self.rest());
                lemma_ate(r0, self.rest(), y);
                assert(y.drop_last() =~= pre);
                if rv.len() > 0 {
                    assert(y[y.len() - 2] == sym(Symbol::Comma));
                    assert(y.drop_last().drop_last() =~= pre.drop_last());
                }
            }
        }
        Ok(roles)
    }

    /// `protocol := 'protocol' Ident [ '(' role-decl {',' role-decl} [','] ')' ] seq`
    pub fn parse_protocol(&mut self) -> (r: ParseResult<'a, Protocol>)
        requires
            old(self).wf(),
        ensures
            final(self).wf(),
            final(self).text() == old(self).text(),
            final(self).cursor() >= old(self).cursor(),
            r is Ok ==> final(self).cursor() > old(self).cursor(),
            r is Err && old(self).current().ty != TokenType::Keyword(Keyword::Protocol) ==> final(self).cursor()
                == old(self).cursor(),
            r matches Ok(v) ==> tail_of(old(self).rest(), final(self).rest()) && protocol_written(ate(old(self).rest(), final(self).rest()), v.name@, roles_opt_view(v.roles), v.seq@),
            (exists|name: Seq<char>, roles: Option<Seq<Seq<char>>>, body: Seq<StmtModel>, more: Seq<Tok>| old(self).rest() == protocol_tokens(name, roles, body) + more && seq_shape_ok(body)) ==> r is Ok && (exists|name: Seq<char>, roles: Option<Seq<Seq<char>>>, body: Seq<StmtModel>, more: Seq<Tok>|
                old(self).rest() == protocol_tokens(name, roles, body) + more && seq_shape_ok(body) && r->Ok_0.name@ == name && roles_opt_view(r->Ok_0.roles) == roles && seq_tokens(r->Ok_0.seq@) == seq_tokens(body) && final(self).rest() == more),
    {
        let ghost e = if exists|name: Seq<char>, roles: Option<Seq<Seq<char>>>, body: Seq<StmtModel>, more: Seq<Tok>| self.rest() == protocol_tokens(name, roles, body) + more && seq_shape_ok(body) {
            Some(choose|name: Seq<char>, roles: Option<Seq<Seq<char>>>, body: Seq<StmtModel>, more: Seq<Tok>| self.rest() == protocol_tokens(name, roles, body) + more && seq_shape_ok(body))
        } else {
            None
        };
        self.parse_protocol_expecting(Ghost(e))
    }

    /// Parses a protocol definition; where the tokens ahead are those of
    /// the protocol `name` with roles `roles` and body `body`, followed by
    /// `more`, the result is written as that protocol is and `more` remains.
    #[verifier::rlimit(100)]
    #[verifier::spinoff_prover]
    pub fn parse_protocol_expecting(
        &mut self,
        expect: Ghost<Option<(Seq<char>, Option<Seq<Seq<char>>>, Seq<StmtModel>, Seq<Tok>)>>,
    ) -> (r: ParseResult<'a, Protocol>)
        requires
            old(self).wf(),
            expect@ matches Some((name, roles, body, more)) ==> old(self).rest() == protocol_tokens(name, roles, body)
                + more && seq_shape_ok(body),
        ensures
            final(self).wf(),
            final(self).text() == old(self).text(),
            final(self).cursor() >= old(self).cursor(),
            r is Ok ==> final(self).cursor() > old(self).cursor(),
            r is Err && old(self).current().ty != TokenType::Keyword(Keyword::Protocol) ==> final(self).cursor()
                == old(self).cursor(),
            expect@ matches Some((name, roles, body, more)) ==> r is Ok && r->Ok_0.name@ == name && match roles {
                Some(rs) => r->Ok_0.roles matches Some(v) && crate::compile::roles_view(v@) == rs,
                None => r->Ok_0.roles is None,
            } && seq_tokens(r->Ok_0.seq@) == seq_tokens(body) && final(self).rest() == more,
            r matches Ok(v) ==> tail_of(old(self).rest(), final(self).rest()) && protocol_written(
                ate(old(self).rest(), final(self).rest()),
                v.name@,
                roles_opt_view(v.roles),
                v.seq@,
            ),
    {
        let ghost r0 = self.rest();
        let ghost name0 = match expect@ {
            Some(e) => e.0,
            None => Seq::empty(),
        };
        let ghost roles0 = match expect@ {
            Some(e) => e.1,
            None => None,
        };
        let ghost body = match expect@ {
            Some(e) => e.2,
            None => Seq::empty(),
        };
        let ghost more = match expect@ {
            Some(e) => e.3,
            None => Seq::empty(),
        };
        let ghost rs = match roles0 {
            Some(v) => v,
            None => Seq::empty(),
        };
        let ghost after = seq![sym(Symbol::CloseBrace)] + seq_tokens(body) + more;
        proof {
            self.lemma_rest();
        }
        self.expect_token(TokenType::Keyword(Keyword::Protocol))?;
        let ghost entry = old(self).cursor();
        proof {
            self.lemma_rest();
        }
        let name = String::from_str(self.expect_token(TokenType::Ident)?);
        proof {
            self.lemma_rest();
        }
        let ghost head = seq![kw(Keyword::Protocol), ident(name@)];
        let ghost rh = self.rest();
        assert(r0 =~= head + rh);
        let ghost mut hx: Seq<Tok> = Seq::empty();
        let roles = if self.eat_token(TokenType::Symbol(Symbol::OpenBrace)).is_some() {
            let ghost r2 = self.rest();
            proof {
                assert(rh =~= seq![sym(Symbol::OpenBrace)] + r2);
                if expect@ is Some {
                    assert(roles0 is Some);
                    assert(r2 =~= roles_tokens(rs, 0) + seq![sym(Symbol::CloseBrace)] + (seq_tokens(body) + more));
                }
            }
            let v = self.parse_role_list(Ghost(
                if expect@ is Some {
                    Some((rs, seq_tokens(body) + more))
                } else {
                    None
                },
            ))?;
            proof {
                let y = ate(r2, self.rest());
                hx = seq![sym(Symbol::OpenBrace)] + y;
                assert(rh =~= hx + self.rest());
                assert(hx.subrange(1, hx.len() - 1) =~= y.drop_last());
                if y.len() >= 2 {
                    assert(hx.subrange(1, hx.len() - 2) =~= y.drop_last().drop_last());
                }
            }
            Some(v)
        } else {
            proof {
                if expect@ is Some {
                    assert(roles0 is None);
                    assert(self.rest() =~= seq_tokens(body) + more);
                }
                assert(rh =~= hx + self.rest());
            }
            None
        };
        let ghost rb = self.rest();
        assert(rh =~= hx + rb);
        let seq = self.parse_sequence_expecting(Ghost(
            if expect@ is Some {
                Some((body, more))
            } else {
                None
            },
        ))?;
        let r = Protocol { name, roles, seq };
        proof {
            let x = head + hx + ate(rb, self.rest());
            assert(r0 =~= x + self.rest());
            lemma_ate(r0, self.rest(), x);
            let k = 2 + hx.len();
            assert(x.skip(k as int) =~= ate(rb, self.rest()));
            assert(x.take(k as int) =~= head + hx);
            if hx.len() > 0 {
                assert(x.subrange(3, k - 1) =~= hx.subrange(1, hx.len() - 1));
                if k >= 5 {
                    assert(x.subrange(3, k - 2) =~= hx.subrange(1, hx.len() - 2));
                }
            } else {
                assert(x.skip(2) =~= ate(rb, self.rest()));
            }
        }
        Ok(r)
    }

    /// `file := { protocol | struct } End`, each definition with its span.
    #[verifier::rlimit(80)]
    pub fn parse_file(&mut self) -> (r: ParseResult<'a, File>)
        requires
            old(self).wf(),
        ensures
            final(self).wf(),
            final(self).text() == old(self).text(),
            final(self).cursor() >= old(self).cursor(),
            r matches Ok(f) ==> final(self).rest().len() == 0 && file_written(old(self).rest(), f.protocols@, f.structs@),
            (exists|ds: Seq<DefModel>| old(self).rest() == defs_tokens(ds, 0) && defs_ok(ds)) ==> r is Ok,
    {
        let ghost has = exists|ds: Seq<DefModel>| self.rest() == defs_tokens(ds, 0) && defs_ok(ds);
        let ghost ds = if has {
            choose|ds: Seq<DefModel>| self.rest() == defs_tokens(ds, 0) && defs_ok(ds)
        } else {
            Seq::empty()
        };
        let ghost mut di: nat = 0;
        proof {
            self.lemma_rest();
        }
        let ghost r0 = self.rest();
        let ghost mut pre: Seq<Tok> = Seq::empty();
        let mut protocols: Vec<Span<Protocol>> = Vec::new();
        let mut structs: Vec<Span<Struct>> = Vec::new();
        let ghost entry = self.cursor();
        while self.eat_token(TokenType::End).is_none()
            invariant
                self.wf(),
                self.text() == old(self).text(),
                entry == old(self).cursor(),
                self.cursor() >= entry,
                r0 == old(self).rest(),
                r0 == pre + self.rest(),
                file_written(pre, protocols@, structs@),
                has ==> di <= ds.len() && defs_ok(ds) && self.rest() == defs_tokens(ds, di),
                has == (exists|ds: Seq<DefModel>| r0 == defs_tokens(ds, 0) && defs_ok(ds)),
                self.rest().len() == 0 <==> self.current().ty == TokenType::End,
                self.rest().len() > 0 ==> self.rest()[0] == (self.current().ty, self.current().contents@),
            decreases self.text().len() + 1 - self.cursor(),
        {
            let start = self.token.start;
            proof {
                self.lemma_rest();
                if has {
                    if di >= ds.len() {
                        assert(defs_tokens(ds, di) =~= Seq::<Tok>::empty());
                        assert(false);
                    }
                    assert(self.rest() == def_tokens(ds[di as int]) + defs_tokens(ds, di + 1));
                    let d = ds[di as int];
                    assert(def_tokens(d).len() > 0);
                    assert(self.rest()[0] == def_tokens(d)[0]);
                    match d {
                        DefModel::Protocol(_, _, _) => {
                            assert(self.current().ty == TokenType::Keyword(Keyword::Protocol));
                        },
                        DefModel::Struct(_, _) => {
                            assert(self.current().ty == TokenType::Keyword(Keyword::Struct));
                        },
                    }
                }
            }
            if self.token.ty == TokenType::Keyword(Keyword::Protocol) {
                let ghost r1 = self.rest();
                let ghost e = if has {
                    match ds[di as int] {
                        DefModel::Protocol(n, ro, b) => Some((n, ro, b, defs_tokens(ds, di + 1))),
                        DefModel::Struct(_, _) => None,
                    }
                } else {
                    None
                };
                proof {
                    if has {
                        assert(ds[di as int] is Protocol);
                    }
                }
                let inner = self.parse_protocol_expecting(Ghost(e))?;
                let ghost old_ps = protocols@;
                let sp = Span { span: RawSpan { start, end: self.pos }, inner };
                let ghost spv = sp;
                protocols.push(sp);
                proof {
                    let x = ate(r1, self.rest());
                    let p2 = pre + x;
                    let k = pre.len() as int;
                    assert(p2.take(k) =~= pre);
                    assert(p2.skip(k) =~= x);
                    assert(protocols@.drop_last() =~= old_ps);
                    assert(protocols@.last() == spv);
                    assert(file_written(p2, protocols@, structs@));
                    pre = p2;
                    assert(r0 =~= pre + self.rest());
                    self.lemma_rest();
                    if has {
                        di = di + 1;
                    }
                }
            } else if self.token.ty == TokenType::Keyword(Keyword::Struct) {
                let ghost r1 = self.rest();
                let ghost e = if has {
                    match ds[di as int] {
                        DefModel::Struct(n, f) => Some((n, f, defs_tokens(ds, di + 1))),
                        DefModel::Protocol(_, _, _) => None,
                    }
                } else {
                    None
                };
                proof {
                    if has {
                        assert(ds[di as int] is Struct);
                    }
                }
                let inner = self.parse_struct_expecting(Ghost(e))?;
                let ghost old_ss = structs@;
                let sp = Span { span: RawSpan { start, end: self.pos }, inner };
                let ghost spv = sp;
                structs.push(sp);
                proof {
                    let x = ate(r1, self.rest());
                    let p2 = pre + x;
                    let k = pre.len() as int;
                    assert(p2.take(k) =~= pre);
                    assert(p2.skip(k) =~= x);
                    assert(structs@.drop_last() =~= old_ss);
                    assert(structs@.last() == spv);
                    assert(file_written(p2, protocols@, structs@));
                    pre = p2;
                    assert(r0 =~= pre + self.rest());
                    self.lemma_rest();
                    if has {
                        di = di + 1;
                    }
                }
            } else {
                proof {
                    if has {
                        assert(false);
                    }
                }
                self.expected_tokens.push(TokenType::Keyword(Keyword::Protocol));
                self.expected_tokens.push(TokenType::Keyword(Keyword::Struct));
                return Err(self.invalid_token());
            }
        }
        proof {
            self.lemma_rest();
            assert(pre + self.rest() =~= pre);
        }
        Ok(File { protocols, structs })
    }
}


impl Parse for Role {
    open spec fn written(x: Seq<Tok>, v: Self) -> bool {
        x == seq![ident(v.0@)]
    }

    open spec fn tokens_of(v: Self) -> Seq<Tok> {
        seq![ident(v.0@)]
    }

    open spec fn shape_ok(v: Self) -> bool {
        true
    }

    fn parse<'a>(parser: &mut Parser<'a>) -> (r: ParseResult<'a, Self>) {
        proof {
            parser.lemma_rest();
        }
        let ghost r0 = parser.rest();
        let r = parser.parse_role();
        proof {
            if r is Ok {
                assert(r0 =~= seq![r0[0]] + parser.rest());
                lemma_ate(r0, parser.rest(), seq![r0[0]]);
            }
        }
        r
    }
}

impl Parse for Payload {
    open spec fn written(x: Seq<Tok>, v: Self) -> bool {
        payload_written(x, items_view(v.items@))
    }

    open spec fn tokens_of(v: Self) -> Seq<Tok> {
        items_tokens(items_view(v.items@), 0) + seq![sym(Symbol::CloseBrace)]
    }

    open spec fn shape_ok(v: Self) -> bool {
        true
    }

    fn parse<'a>(parser: &mut Parser<'a>) -> (r: ParseResult<'a, Self>) {
        let ghost e = if exists|v: Self| parser.rest() == Self::tokens_of(v) && Self::shape_ok(v) {
            let v = choose|v: Self| parser.rest() == Self::tokens_of(v) && Self::shape_ok(v);
            Some((items_view(v.items@), Seq::<Tok>::empty()))
        } else {
            None
        };
        proof {
            if e is Some {
                let ee = e->0;
                assert(parser.rest() =~= items_tokens(ee.0, 0) + seq![sym(Symbol::CloseBrace)] + ee.1);
            }
        }
        parser.parse_payload_expecting(Ghost(e))
    }
}

impl Parse for Message {
    open spec fn written(x: Seq<Tok>, v: Self) -> bool {
        message_written(x, v@)
    }

    open spec fn tokens_of(v: Self) -> Seq<Tok> {
        message_tokens(v@)
    }

    open spec fn shape_ok(v: Self) -> bool {
        true
    }

    fn parse<'a>(parser: &mut Parser<'a>) -> (r: ParseResult<'a, Self>) {
        let ghost e = if exists|v: Self| parser.rest() == Self::tokens_of(v) && Self::shape_ok(v) {
            let v = choose|v: Self| parser.rest() == Self::tokens_of(v) && Self::shape_ok(v);
            Some((v@, Seq::<Tok>::empty()))
        } else {
            None
        };
        proof {
            if e is Some {
                let ee = e->0;
                assert(parser.rest() =~= message_tokens(ee.0) + ee.1);
            }
        }
        parser.parse_message_expecting(Ghost(e))
    }
}

impl Parse for Type {
    open spec fn written(x: Seq<Tok>, v: Self) -> bool {
        type_written(x, type_view(v))
    }

    open spec fn tokens_of(v: Self) -> Seq<Tok> {
        type_tokens(type_view(v))
    }

    open spec fn shape_ok(v: Self) -> bool {
        true
    }

    fn parse<'a>(parser: &mut Parser<'a>) -> (r: ParseResult<'a, Self>) {
        let ghost e = if exists|v: Self| parser.rest() == Self::tokens_of(v) && Self::shape_ok(v) {
            let v = choose|v: Self| parser.rest() == Self::tokens_of(v) && Self::shape_ok(v);
            Some((type_view(v), Seq::<Tok>::empty()))
        } else {
            None
        };
        proof {
            if e is Some {
                let ee = e->0;
                assert(parser.rest() =~= type_tokens(ee.0) + ee.1);
            }
        }
        parser.parse_type_expecting(Ghost(e))
    }
}

impl Parse for Stmt {
    open spec fn written(x: Seq<Tok>, v: Self) -> bool {
        stmt_written(x, crate::ast::stmt_view(v))
    }

    open spec fn tokens_of(v: Self) -> Seq<Tok> {
        stmt_tokens(crate::ast::stmt_view(v))
    }

    open spec fn shape_ok(v: Self) -> bool {
        stmt_shape_ok(crate::ast::stmt_view(v))
    }

    fn parse<'a>(parser: &mut Parser<'a>) -> (r: ParseResult<'a, Self>) {
        let ghost e = if exists|v: Self| parser.rest() == Self::tokens_of(v) && Self::shape_ok(v) {
            let v = choose|v: Self| parser.rest() == Self::tokens_of(v) && Self::shape_ok(v);
            Some((crate::ast::stmt_view(v), Seq::<Tok>::empty()))
        } else {
            None
        };
        proof {
            if e is Some {
                let ee = e->0;
                assert(parser.rest() =~= stmt_tokens(ee.0) + ee.1);
            }
        }
        parser.parse_stmt_expecting(Ghost(e))
    }
}

impl Parse for Sequence {
    open spec fn written(x: Seq<Tok>, v: Self) -> bool {
        seq_written(x, v@)
    }

    open spec fn tokens_of(v: Self) -> Seq<Tok> {
        seq_tokens(v@)
    }

    open spec fn shape_ok(v: Self) -> bool {
        seq_shape_ok(v@)
    }

    fn parse<'a>(parser: &mut Parser<'a>) -> (r: ParseResult<'a, Self>) {
        let ghost e = if exists|v: Self| parser.rest() == Self::tokens_of(v) && Self::shape_ok(v) {
            let v = choose|v: Self| parser.rest() == Self::tokens_of(v) && Self::shape_ok(v);
            Some((v@, Seq::<Tok>::empty()))
        } else {
            None
        };
        proof {
            if e is Some {
                let ee = e->0;
                assert(parser.rest() =~= seq_tokens(ee.0) + ee.1);
            }
        }
        parser.parse_sequence_expecting(Ghost(e))
    }
}

impl Parse for Struct {
    open spec fn written(x: Seq<Tok>, v: Self) -> bool {
        struct_written(x, v.name@, crate::validate::fields_view(v.fields@))
    }

    open spec fn tokens_of(v: Self) -> Seq<Tok> {
        struct_tokens(v.name@, crate::validate::fields_view(v.fields@))
    }

    open spec fn shape_ok(v: Self) -> bool {
        true
    }

    fn parse<'a>(parser: &mut Parser<'a>) -> (r: ParseResult<'a, Self>) {
        let ghost e = if exists|v: Self| parser.rest() == Self::tokens_of(v) && Self::shape_ok(v) {
            let v = choose|v: Self| parser.rest() == Self::tokens_of(v) && Self::shape_ok(v);
            Some((v.name@, crate::validate::fields_view(v.fields@), Seq::<Tok>::empty()))
        } else {
            None
        };
        proof {
            if e is Some {
                let ee = e->0;
                assert(parser.rest() =~= struct_tokens(ee.0, ee.1) + ee.2);
            }
        }
        parser.parse_struct_expecting(Ghost(e))
    }
}

impl Parse for Protocol {
    open spec fn written(x: Seq<Tok>, v: Self) -> bool {
        protocol_written(x, v.name@, roles_opt_view(v.roles), v.seq@)
    }

    open spec fn tokens_of(v: Self) -> Seq<Tok> {
        protocol_tokens(v.name@, roles_opt_view(v.roles), v.seq@)
    }

    open spec fn shape_ok(v: Self) -> bool {
        seq_shape_ok(v.seq@)
    }

    fn parse<'a>(parser: &mut Parser<'a>) -> (r: ParseResult<'a, Self>) {
        let ghost e = if exists|v: Self| parser.rest() == Self::tokens_of(v) && Self::shape_ok(v) {
            let v = choose|v: Self| parser.rest() == Self::tokens_of(v) && Self::shape_ok(v);
            Some((v.name@, roles_opt_view(v.roles), v.seq@, Seq::<Tok>::empty()))
        } else {
            None
        };
        proof {
            if e is Some {
                let ee = e->0;
                assert(parser.rest() =~= protocol_tokens(ee.0, ee.1, ee.2) + ee.3);
            }
        }
        parser.parse_protocol_expecting(Ghost(e))
    }
}

impl Parse for File {
    open spec fn written(x: Seq<Tok>, v: Self) -> bool {
        file_written(x, v.protocols@, v.structs@)
    }

    open spec fn tokens_of(v: Self) -> Seq<Tok> {
        file_tokens(v.structs@, v.protocols@)
    }

    open spec fn shape_ok(v: Self) -> bool {
        forall|i: int| 0 <= i < v.protocols@.len() ==> seq_shape_ok((#[trigger] v.protocols@[i]).inner.seq@)
    }

    fn parse<'a>(parser: &mut Parser<'a>) -> (r: ParseResult<'a, Self>) {
        let ghost r0 = parser.rest();
        proof {
            if exists|v: Self| parser.rest() == Self::tokens_of(v) && Self::shape_ok(v) {
                let v = choose|v: Self| parser.rest() == Self::tokens_of(v) && Self::shape_ok(v);
                let ds = file_defs(v.structs@, v.protocols@);
                assert forall|i: int| 0 <= i < ds.len() implies (#[trigger] ds[i] matches DefModel::Protocol(_, _, b) ==> seq_shape_ok(b)) by {
                    if i >= v.structs@.len() {
                        assert(ds[i] == DefModel::Protocol(v.protocols@[i - v.structs@.len()].inner.name@, roles_opt_view(v.protocols@[i - v.structs@.len()].inner.roles), v.protocols@[i - v.structs@.len()].inner.seq@));
                    }
                }
                assert(defs_ok(ds));
            }
        }
        let r = parser.parse_file();
        proof {
            if r is Ok {
                lemma_ate(r0, parser.rest(), r0);
                assert(r0 + parser.rest() =~= r0);
            }
        }
        r
    }
}

impl<T: Parse> Parse for Span<T> {
    open spec fn written(x: Seq<Tok>, v: Self) -> bool {
        T::written(x, v.inner)
    }

    open spec fn tokens_of(v: Self) -> Seq<Tok> {
        T::tokens_of(v.inner)
    }

    open spec fn shape_ok(v: Self) -> bool {
        T::shape_ok(v.inner)
    }

    fn parse<'a>(parser: &mut Parser<'a>) -> (r: ParseResult<'a, Self>) {
        proof {
            if exists|v: Self| parser.rest() == Self::tokens_of(v) && Self::shape_ok(v) {
                let v = choose|v: Self| parser.rest() == Self::tokens_of(v) && Self::shape_ok(v);
                assert(parser.rest() == T::tokens_of(v.inner) && T::shape_ok(v.inner));
            }
        }
        let start = parser.token.start;
        let inner = T::parse(parser)?;
        Ok(Span { span: RawSpan { start, end: parser.pos }, inner })
    }
}

/// Parses the whole of `source` as a `T`: on success the tokens of the
/// source are a way of writing the result, and a source written as some `T`
/// is parsed.
pub fn parse<'a, T: Parse>(source: &'a str) -> (r: ParseResult<'a, T>)
    requires
        source@.len() <= MAX_SOURCE_LEN,
    ensures
        r matches Ok(v) ==> T::written(crate::lexer::lex(source@), v),
        (exists|v: T| crate::lexer::lex(source@) == T::tokens_of(v) && T::shape_ok(v)) ==> r is Ok,
{
    let mut parser = Parser::new(source);
    let ghost r0 = parser.rest();
    let res = T::parse(&mut parser)?;
    proof {
        parser.lemma_rest();
    }
    parser.expect_token(TokenType::End)?;
    proof {
        assert(r0.take(r0.len() as int) =~= r0);
    }
    Ok(res)
}

} // verus!
