//! The lexer: source text to tokens, with positions.
use vstd::prelude::*;
use vstd::string::*;

use crate::token::{all_keywords, keyword_of, keyword_text, symbol_char, symbol_of, Keyword, Symbol, Token, TokenType};

verus! {

/// Longest source, in characters, that the lexer accepts: every position then
/// fits in 32 bits.
pub const MAX_SOURCE_LEN: usize = 0x3fff_fff0;

/// A place in the source text.
#[derive(Debug, Clone, Copy, PartialEq, Eq, Structural)]
pub struct Position {
    pub line: u32,
    pub column: u32,
    pub offset: usize,
}

impl Position {
    /// The first character of a source: line 1, column 1, byte offset 0.
    pub fn start() -> (r: Position)
        ensures
            r == position_at(Seq::empty(), 0),
    {
        Position { line: 1, column: 1, offset: 0 }
    }
}

pub open spec fn is_ident_start(c: char) -> bool {
    (0x61 <= c as u32 <= 0x7a) || (0x41 <= c as u32 <= 0x5a) || c == '_'
}

pub open spec fn is_digit(c: char) -> bool {
    0x30 <= c as u32 <= 0x39
}

pub open spec fn is_ident_char(c: char) -> bool {
    is_ident_start(c) || is_digit(c)
}

/// The characters with the Unicode White_Space property.
pub open spec fn is_space(c: char) -> bool {
    let u = c as u32;
    (0x09 <= u <= 0x0d) || u == 0x20 || u == 0x85 || u == 0xa0 || u == 0x1680 || (0x2000 <= u
        <= 0x200a) || u == 0x2028 || u == 0x2029 || u == 0x202f || u == 0x205f || u == 0x3000
}

/// Bytes that `c` takes in UTF-8.
pub open spec fn utf8_len(c: char) -> nat {
    let u = c as u32;
    if u < 0x80 {
        1
    } else if u < 0x800 {
        2
    } else if u < 0x10000 {
        3
    } else {
        4
    }
}

pub open spec fn starts2(s: Seq<char>, a: char, b: char) -> bool {
    s.len() >= 2 && s[0] == a && s[1] == b
}

/// Number of leading identifier characters.
pub open spec fn ident_run(s: Seq<char>) -> nat
    decreases s.len(),
{
    if s.len() > 0 && is_ident_char(s[0]) {
        1 + ident_run(s.skip(1))
    } else {
        0
    }
}

/// Number of leading decimal digits.
pub open spec fn digit_run(s: Seq<char>) -> nat
    decreases s.len(),
{
    if s.len() > 0 && is_digit(s[0]) {
        1 + digit_run(s.skip(1))
    } else {
        0
    }
}

/// Number of characters before the next line break (or the end).
pub open spec fn line_run(s: Seq<char>) -> nat
    decreases s.len(),
{
    if s.len() > 0 && s[0] != '\n' {
        1 + line_run(s.skip(1))
    } else {
        0
    }
}

/// Number of characters that a block comment still consumes when `depth`
/// comments are open; an unterminated comment runs to the end.
pub open spec fn comment_len(s: Seq<char>, depth: nat) -> nat
    decreases s.len(),
{
    if s.len() == 0 {
        0
    } else if starts2(s, '(', '*') {
        2 + comment_len(s.skip(2), depth + 1)
    } else if starts2(s, '*', ')') {
        if depth <= 1 {
            2
        } else {
            2 + comment_len(s.skip(2), (depth - 1) as nat)
        }
    } else {
        1 + comment_len(s.skip(1), depth)
    }
}

/// Number of leading characters that are whitespace or comments.
pub open spec fn trivia_len(s: Seq<char>) -> nat
    decreases s.len(),
{
    if s.len() == 0 {
        0
    } else if is_space(s[0]) {
        1 + trivia_len(s.skip(1))
    } else if s.len() >= 3 && s[0] == '(' && s[1] == '*' && s[2] == ')' {
        let k = 3 + line_run(s.skip(3));
        if k <= s.len() {
            k + trivia_len(s.skip(k as int))
        } else {
            s.len()
        }
    } else if starts2(s, '(', '*') {
        let k = 2 + comment_len(s.skip(2), 1);
        if k <= s.len() {
            k + trivia_len(s.skip(k as int))
        } else {
            s.len()
        }
    } else {
        0
    }
}

/// Length of the token at the front of a non-empty `s`.
pub open spec fn token_len(s: Seq<char>) -> nat {
    if s.len() > 0 && is_ident_start(s[0]) {
        1 + ident_run(s.skip(1))
    } else if s.len() > 0 && is_digit(s[0]) {
        1 + digit_run(s.skip(1))
    } else {
        1
    }
}

/// Kind of the token at the front of `s`, which trivia does not start.
pub open spec fn token_type(s: Seq<char>) -> TokenType {
    if s.len() == 0 {
        TokenType::End
    } else if is_ident_start(s[0]) {
        match keyword_of(s.take(token_len(s) as int)) {
            Some(k) => TokenType::Keyword(k),
            None => TokenType::Ident,
        }
    } else if is_digit(s[0]) {
        TokenType::Integer
    } else {
        match symbol_of(s[0]) {
            Some(sym) => TokenType::Symbol(sym),
            None => TokenType::Invalid,
        }
    }
}

/// The tokens of `s` before its end: kind and text of each.
#[verifier::opaque]
pub open spec fn lex(s: Seq<char>) -> Seq<(TokenType, Seq<char>)>
    decreases s.len(),
{
    let k = trivia_len(s);
    if k < s.len() {
        let t = s.skip(k as int);
        let n = token_len(t);
        if 1 <= n <= t.len() {
            seq![(token_type(t), t.take(n as int))] + lex(t.skip(n as int))
        } else {
            seq![]
        }
    } else {
        seq![]
    }
}

/// Line of the character at index `i`.
pub open spec fn line_at(s: Seq<char>, i: nat) -> nat
    decreases i,
{
    if i == 0 {
        1
    } else if s[i - 1] == '\n' {
        line_at(s, (i - 1) as nat) + 1
    } else {
        line_at(s, (i - 1) as nat)
    }
}

/// Column of the character at index `i`.
pub open spec fn column_at(s: Seq<char>, i: nat) -> nat
    decreases i,
{
    if i == 0 {
        1
    } else if s[i - 1] == '\n' {
        1
    } else {
        column_at(s, (i - 1) as nat) + 1
    }
}

/// Byte offset of the character at index `i`.
pub open spec fn offset_at(s: Seq<char>, i: nat) -> nat
    decreases i,
{
    if i == 0 {
        0
    } else {
        offset_at(s, (i - 1) as nat) + utf8_len(s[i - 1])
    }
}

pub open spec fn position_at(s: Seq<char>, i: nat) -> Position {
    Position {
        line: line_at(s, i) as u32,
        column: column_at(s, i) as u32,
        offset: offset_at(s, i) as usize,
    }
}

/// Index where the next token starts, from index `i`.
pub open spec fn token_start(s: Seq<char>, i: nat) -> nat {
    i + trivia_len(s.skip(i as int))
}

/// Index just past the next token, from index `i`.
pub open spec fn token_end(s: Seq<char>, i: nat) -> nat {
    let j = token_start(s, i);
    if j < s.len() {
        j + token_len(s.skip(j as int))
    } else {
        j
    }
}

/// Offsets grow with the index.
pub proof fn lemma_offset_increasing(s: Seq<char>, a: nat, b: nat)
    requires
        a <= b,
    ensures
        a < b ==> offset_at(s, a) < offset_at(s, b),
        offset_at(s, a) <= offset_at(s, b),
    decreases b - a,
{
    if a < b {
        lemma_offset_increasing(s, a, (b - 1) as nat);
    }
}

/// The position at index `i` fits its fields.
pub proof fn lemma_position_fits(s: Seq<char>, i: nat)
    requires
        i <= MAX_SOURCE_LEN,
    ensures
        position_at(s, i).offset == offset_at(s, i),
        position_at(s, i).line == line_at(s, i),
        position_at(s, i).column == column_at(s, i),
{
    lemma_position_bounds(s, i);
}

/// Where the next token starts and ends, from index `i`.
pub proof fn lemma_token_len_bound_at(s: Seq<char>, i: nat)
    requires
        i <= s.len(),
    ensures
        i <= token_start(s, i) <= token_end(s, i) <= s.len(),
        token_start(s, i) < s.len() ==> token_start(s, i) < token_end(s, i),
        token_start(s, i) >= s.len() ==> token_end(s, i) == s.len(),
        token_type(s.skip(token_start(s, i) as int)) == TokenType::End <==> token_start(s, i) >= s.len(),
{
    lemma_trivia_len_bound(s.skip(i as int));
    let j = token_start(s, i);
    if j < s.len() {
        lemma_token_len_bound(s.skip(j as int));
    }
}

/// The tokens' texts, each followed by a space.
pub open spec fn spaced(toks: Seq<(TokenType, Seq<char>)>) -> Seq<char>
    decreases toks.len(),
{
    if toks.len() == 0 {
        Seq::empty()
    } else {
        toks[0].1 + seq![' '] + spaced(toks.skip(1))
    }
}

proof fn lemma_trivia_maximal(s: Seq<char>)
    ensures
        trivia_len(s) <= s.len(),
        trivia_len(s) < s.len() ==> {
            let t = s.skip(trivia_len(s) as int);
            &&& !is_space(t[0])
            &&& !starts2(t, '(', '*')
        },
    decreases s.len(),
{
    lemma_trivia_len_bound(s);
    if s.len() == 0 {
    } else if is_space(s[0]) {
        lemma_trivia_maximal(s.skip(1));
        assert(s.skip(1).skip(trivia_len(s.skip(1)) as int) =~= s.skip(trivia_len(s) as int));
    } else if s.len() >= 3 && s[0] == '(' && s[1] == '*' && s[2] == ')' {
        lemma_line_run_bound(s.skip(3));
        let k = 3 + line_run(s.skip(3));
        lemma_trivia_maximal(s.skip(k as int));
        assert(s.skip(k as int).skip(trivia_len(s.skip(k as int)) as int) =~= s.skip(trivia_len(s) as int));
    } else if starts2(s, '(', '*') {
        lemma_comment_len_bound(s.skip(2), 1);
        let k = 2 + comment_len(s.skip(2), 1);
        lemma_trivia_maximal(s.skip(k as int));
        assert(s.skip(k as int).skip(trivia_len(s.skip(k as int)) as int) =~= s.skip(trivia_len(s) as int));
    } else {
        assert(s.skip(0) =~= s);
    }
}

proof fn lemma_ident_run_concat(x: Seq<char>, y: Seq<char>)
    requires
        forall|k: int| 0 <= k < x.len() ==> is_ident_char(#[trigger] x[k]),
        y.len() == 0 || !is_ident_char(y[0]),
    ensures
        ident_run(x + y) == x.len(),
    decreases x.len(),
{
    if x.len() == 0 {
        assert(x + y =~= y);
    } else {
        assert((x + y).skip(1) =~= x.skip(1) + y);
        assert forall|k: int| 0 <= k < x.skip(1).len() implies is_ident_char(#[trigger] x.skip(1)[k]) by {
            assert(x.skip(1)[k] == x[k + 1]);
        }
        lemma_ident_run_concat(x.skip(1), y);
    }
}

proof fn lemma_digit_run_concat(x: Seq<char>, y: Seq<char>)
    requires
        forall|k: int| 0 <= k < x.len() ==> is_digit(#[trigger] x[k]),
        y.len() == 0 || !is_digit(y[0]),
    ensures
        digit_run(x + y) == x.len(),
    decreases x.len(),
{
    if x.len() == 0 {
        assert(x + y =~= y);
    } else {
        assert((x + y).skip(1) =~= x.skip(1) + y);
        assert forall|k: int| 0 <= k < x.skip(1).len() implies is_digit(#[trigger] x.skip(1)[k]) by {
            assert(x.skip(1)[k] == x[k + 1]);
        }
        lemma_digit_run_concat(x.skip(1), y);
    }
}

pub proof fn lemma_lex_space(w: Seq<char>)
    ensures
        lex(seq![' '] + w) == lex(w),
{
    reveal(lex);
    let u = seq![' '] + w;
    assert(is_space(u[0]));
    assert(u.skip(1) =~= w);
    lemma_trivia_len_bound(w);
    assert(u.skip(trivia_len(u) as int) =~= w.skip(trivia_len(w) as int));
}

/// The token at the front of `t`, followed by a space and anything, is read
/// back as the same token.
proof fn lemma_token_then_space(t: Seq<char>, w: Seq<char>)
    requires
        t.len() > 0,
        !is_space(t[0]),
        !starts2(t, '(', '*'),
    ensures
        ({
            let n = token_len(t);
            let c = t.take(n as int);
            let u = c + seq![' '] + w;
            &&& lex(u) == seq![(token_type(t), c)] + lex(w)
        }),
{
    reveal(lex);
    let n = token_len(t);
    lemma_token_len_bound(t);
    let c = t.take(n as int);
    let u = c + seq![' '] + w;
    assert(u[0] == t[0]);
    if is_ident_start(t[0]) {
        lemma_ident_run_bound(t.skip(1));
        assert forall|k: int| 0 <= k < c.skip(1).len() implies is_ident_char(#[trigger] c.skip(1)[k]) by {
            assert(c.skip(1)[k] == t.skip(1)[k]);
        }
        assert(u.skip(1) =~= c.skip(1) + (seq![' '] + w));
        lemma_ident_run_concat(c.skip(1), seq![' '] + w);
    } else if is_digit(t[0]) {
        lemma_digit_run_bound(t.skip(1));
        assert forall|k: int| 0 <= k < c.skip(1).len() implies is_digit(#[trigger] c.skip(1)[k]) by {
            assert(c.skip(1)[k] == t.skip(1)[k]);
        }
        assert(u.skip(1) =~= c.skip(1) + (seq![' '] + w));
        lemma_digit_run_concat(c.skip(1), seq![' '] + w);
    } else {
        assert(u[1] == ' ');
    }
    assert(token_len(u) == n);
    assert(u.take(n as int) =~= c);
    assert(c.take(n as int) =~= c);
    assert(token_type(u) == token_type(t));
    assert(trivia_len(u) == 0);
    assert(u.skip(0) =~= u);
    assert(u.skip(n as int) =~= seq![' '] + w);
    lemma_lex_space(w);
}

/// Re-lexing the texts of the tokens of any source, each followed by a
/// space, gives back the same tokens: the same kinds with the same texts.
pub proof fn relex_is_identity(s: Seq<char>)
    ensures
        lex(spaced(lex(s))) == lex(s),
    decreases s.len(),
{
    reveal(lex);
    lemma_trivia_maximal(s);
    let k = trivia_len(s);
    if k < s.len() {
        let t = s.skip(k as int);
        let n = token_len(t);
        lemma_token_len_bound(t);
        let rest = t.skip(n as int);
        relex_is_identity(rest);
        let toks = lex(s);
        assert(toks == seq![(token_type(t), t.take(n as int))] + lex(rest));
        assert(toks.skip(1) =~= lex(rest));
        let w = spaced(lex(rest));
        assert(spaced(toks) == t.take(n as int) + seq![' '] + w);
        lemma_token_then_space(t, w);
    } else {
        assert(lex(s) == Seq::<(TokenType, Seq<char>)>::empty());
        assert(spaced(lex(s)) == Seq::<char>::empty());
    }
}

proof fn lemma_position_bounds(s: Seq<char>, i: nat)
    ensures
        line_at(s, i) <= i + 1,
        1 <= column_at(s, i) <= i + 1,
        offset_at(s, i) <= 4 * i,
    decreases i,
{
    if i > 0 {
        lemma_position_bounds(s, (i - 1) as nat);
    }
}

pub proof fn lemma_ident_run_bound(s: Seq<char>)
    ensures
        ident_run(s) <= s.len(),
        forall|k: int| 0 <= k < ident_run(s) ==> is_ident_char(#[trigger] s[k]),
        ident_run(s) < s.len() ==> !is_ident_char(s[ident_run(s) as int]),
    decreases s.len(),
{
    if s.len() > 0 && is_ident_char(s[0]) {
        lemma_ident_run_bound(s.skip(1));
        assert forall|k: int| 0 <= k < ident_run(s) implies is_ident_char(#[trigger] s[k]) by {
            if k > 0 {
                assert(s[k] == s.skip(1)[k - 1]);
            }
        }
        if ident_run(s) < s.len() {
            assert(s[ident_run(s) as int] == s.skip(1)[ident_run(s.skip(1)) as int]);
        }
    }
}

proof fn lemma_digit_run_bound(s: Seq<char>)
    ensures
        digit_run(s) <= s.len(),
        forall|k: int| 0 <= k < digit_run(s) ==> is_digit(#[trigger] s[k]),
        digit_run(s) < s.len() ==> !is_digit(s[digit_run(s) as int]),
    decreases s.len(),
{
    if s.len() > 0 && is_digit(s[0]) {
        lemma_digit_run_bound(s.skip(1));
        assert forall|k: int| 0 <= k < digit_run(s) implies is_digit(#[trigger] s[k]) by {
            if k > 0 {
                assert(s[k] == s.skip(1)[k - 1]);
            }
        }
        if digit_run(s) < s.len() {
            assert(s[digit_run(s) as int] == s.skip(1)[digit_run(s.skip(1)) as int]);
        }
    }
}

proof fn lemma_line_run_bound(s: Seq<char>)
    ensures
        line_run(s) <= s.len(),
    decreases s.len(),
{
    if s.len() > 0 && s[0] != '\n' {
        lemma_line_run_bound(s.skip(1));
    }
}

proof fn lemma_comment_len_bound(s: Seq<char>, depth: nat)
    ensures
        comment_len(s, depth) <= s.len(),
    decreases s.len(),
{
    if s.len() == 0 {
    } else if starts2(s, '(', '*') {
        lemma_comment_len_bound(s.skip(2), depth + 1);
    } else if starts2(s, '*', ')') {
        if depth > 1 {
            lemma_comment_len_bound(s.skip(2), (depth - 1) as nat);
        }
    } else {
        lemma_comment_len_bound(s.skip(1), depth);
    }
}

proof fn lemma_trivia_len_bound(s: Seq<char>)
    ensures
        trivia_len(s) <= s.len(),
    decreases s.len(),
{
    if s.len() == 0 {
    } else if is_space(s[0]) {
        lemma_trivia_len_bound(s.skip(1));
    } else if s.len() >= 3 && s[0] == '(' && s[1] == '*' && s[2] == ')' {
        lemma_line_run_bound(s.skip(3));
        let k = 3 + line_run(s.skip(3));
        lemma_trivia_len_bound(s.skip(k as int));
    } else if starts2(s, '(', '*') {
        lemma_comment_len_bound(s.skip(2), 1);
        let k = 2 + comment_len(s.skip(2), 1);
        lemma_trivia_len_bound(s.skip(k as int));
    }
}

proof fn lemma_token_len_bound(s: Seq<char>)
    requires
        s.len() > 0,
    ensures
        1 <= token_len(s) <= s.len(),
{
    lemma_ident_run_bound(s.skip(1));
    lemma_digit_run_bound(s.skip(1));
}

/// Turns source text into tokens, one at a time.
pub struct Lexer<'a> {
    source: &'a str,
    chars: Vec<char>,
    index: usize,
    pos: Position,
}

fn char_is_space(c: char) -> (r: bool)
    ensures
        r == is_space(c),
{
    let u = c as u32;
    (0x09 <= u && u <= 0x0d) || u == 0x20 || u == 0x85 || u == 0xa0 || u == 0x1680 || (0x2000
        <= u && u <= 0x200a) || u == 0x2028 || u == 0x2029 || u == 0x202f || u == 0x205f || u
        == 0x3000
}

fn char_is_ident_start(c: char) -> (r: bool)
    ensures
        r == is_ident_start(c),
{
    let u = c as u32;
    (0x61 <= u && u <= 0x7a) || (0x41 <= u && u <= 0x5a) || c == '_'
}

fn char_is_digit(c: char) -> (r: bool)
    ensures
        r == is_digit(c),
{
    let u = c as u32;
    0x30 <= u && u <= 0x39
}

fn char_utf8_len(c: char) -> (r: usize)
    ensures
        r == utf8_len(c),
{
    let u = c as u32;
    if u < 0x80 {
        1
    } else if u < 0x800 {
        2
    } else if u < 0x10000 {
        3
    } else {
        4
    }
}

fn symbol_for(c: char) -> (r: Option<Symbol>)
    ensures
        r == symbol_of(c),
{
    if c == '(' {
        Some(Symbol::OpenBrace)
    } else if c == ')' {
        Some(Symbol::CloseBrace)
    } else if c == '{' {
        Some(Symbol::OpenCurlyBrace)
    } else if c == '}' {
        Some(Symbol::CloseCurlyBrace)
    } else if c == ';' {
        Some(Symbol::Semicolon)
    } else if c == ':' {
        Some(Symbol::Colon)
    } else if c == ',' {
        Some(Symbol::Comma)
    } else if c == '[' {
        Some(Symbol::OpenSquareBrace)
    } else if c == ']' {
        Some(Symbol::CloseSquareBrace)
    } else {
        None
    }
}

impl<'a> Lexer<'a> {
    pub closed spec fn text(&self) -> Seq<char> {
        self.chars@
    }

    pub closed spec fn index(&self) -> nat {
        self.index as nat
    }

    pub closed spec fn source(&self) -> &'a str {
        self.source
    }

    pub closed spec fn wf(&self) -> bool {
        &&& self.chars@ == self.source@
        &&& self.chars@.len() <= MAX_SOURCE_LEN
        &&& self.index <= self.chars@.len()
        &&& self.pos == position_at(self.chars@, self.index as nat)
    }

    /// What a well-formed lexer guarantees.
    pub proof fn lemma_wf(&self)
        requires
            self.wf(),
        ensures
            self.index() <= self.text().len(),
            self.text().len() <= MAX_SOURCE_LEN,
            self.text() == self.source()@,
    {
    }

    /// A lexer at the start of `source`.
    pub fn new(source: &'a str) -> (r: Lexer<'a>)
        requires
            source@.len() <= MAX_SOURCE_LEN,
        ensures
            r.wf(),
            r.source() == source,
            r.text() == source@,
            r.index() == 0,
    {
        let n = source.unicode_len();
        let mut chars: Vec<char> = Vec::new();
        let mut i: usize = 0;
        while i < n
            invariant
                n == source@.len(),
                i <= n,
                chars@ == source@.take(i as int),
            decreases n - i,
        {
            chars.push(source.get_char(i));
            i = i + 1;
            assert(chars@ =~= source@.take(i as int));
        }
        assert(chars@ =~= source@);
        Lexer { source, chars, index: 0, pos: Position::start() }
    }

    /// Moves past one character.
    fn next_char(&mut self)
        requires
            old(self).wf(),
            old(self).index < old(self).chars@.len(),
        ensures
            final(self).wf(),
            final(self).source == old(self).source,
            final(self).chars == old(self).chars,
            final(self).index == old(self).index + 1,
    {
        let c = self.chars[self.index];
        proof {
            lemma_position_bounds(self.chars@, self.index as nat);
            lemma_position_bounds(self.chars@, (self.index + 1) as nat);
        }
        let w = char_utf8_len(c);
        self.pos.offset = self.pos.offset + w;
        if c == '\n' {
            self.pos.line = self.pos.line + 1;
            self.pos.column = 1;
        } else {
            self.pos.column = self.pos.column + 1;
        }
        self.index = self.index + 1;
    }

    /// Whether the two characters at the current index are `a` and `b`.
    fn at2(&self, a: char, b: char) -> (r: bool)
        requires
            self.wf(),
        ensures
            r == starts2(self.chars@.skip(self.index as int), a, b),
    {
        self.index + 1 < self.chars.len() && self.chars[self.index] == a && self.chars[self.index
            + 1] == b
    }

    /// Moves past the rest of a block comment whose opening has been read.
    fn lex_comment(&mut self)
        requires
            old(self).wf(),
        ensures
            final(self).wf(),
            final(self).source == old(self).source,
            final(self).chars == old(self).chars,
            final(self).index == old(self).index + comment_len(
                old(self).chars@.skip(old(self).index as int),
                1,
            ),
    {
        let ghost s = self.chars@;
        let ghost i0 = self.index as nat;
        let mut depth: usize = 1;
        loop
            invariant
                self.wf(),
                self.source == old(self).source,
                self.chars == old(self).chars,
                s == self.chars@,
                i0 == old(self).index,
                i0 <= self.index,
                1 <= depth <= self.index + 1,
                comment_len(s.skip(i0 as int), 1) == (self.index - i0) + comment_len(
                    s.skip(self.index as int),
                    depth as nat,
                ),
            decreases s.len() - self.index,
        {
            let ghost r = s.skip(self.index as int);
            if self.index >= self.chars.len() {
                assert(comment_len(r, depth as nat) == 0);
                return;
            }
            if self.at2('(', '*') {
                assert(r.skip(2) =~= s.skip(self.index + 2));
                self.next_char();
                self.next_char();
                depth = depth + 1;
            } else if self.at2('*', ')') {
                assert(r.skip(2) =~= s.skip(self.index + 2));
                assert(depth <= 1 ==> comment_len(r, depth as nat) == 2);
                self.next_char();
                self.next_char();
                if depth <= 1 {
                    return;
                }
                depth = depth - 1;
            } else {
                assert(r.skip(1) =~= s.skip(self.index + 1));
                self.next_char();
            }
        }
    }

    /// The next token; at the end of the source, a token of kind `End` with
    /// empty contents, as often as it is asked for.
    #[verifier::rlimit(80)]
    pub fn next_token(&mut self) -> (r: Token<'a>)
        requires
            old(self).wf(),
        ensures
            final(self).wf(),
            final(self).source() == old(self).source(),
            final(self).text() == old(self).text(),
            ({
                let s = old(self).text();
                let j = token_start(s, old(self).index());
                &&& final(self).index() == token_end(s, old(self).index())
                &&& r.ty == token_type(s.skip(j as int))
                &&& r.contents@ == s.subrange(j as int, final(self).index() as int)
                &&& r.start == position_at(s, j)
                &&& r.end == position_at(s, final(self).index())
            }),
    {
        let ghost s = self.chars@;
        let ghost i0 = self.index as nat;
        loop
            invariant
                self.wf(),
                self.source == old(self).source,
                self.chars == old(self).chars,
                s == self.chars@,
                i0 == old(self).index,
                i0 <= self.index,
                token_start(s, i0) == token_start(s, self.index as nat),
            decreases s.len() - self.index,
        {
            let ghost r = s.skip(self.index as int);
            if self.index >= self.chars.len() {
                assert(r.len() == 0);
                assert(s.subrange(self.index as int, self.index as int) =~= Seq::<char>::empty());
                return Token {
                    ty: TokenType::End,
                    contents: self.source.substring_char(self.index, self.index),
                    start: self.pos,
                    end: self.pos,
                };
            }
            let c = self.chars[self.index];
            if char_is_space(c) {
                assert(r.skip(1) =~= s.skip(self.index + 1));
                self.next_char();
                continue;
            }
            if self.index + 2 < self.chars.len() && c == '(' && self.chars[self.index + 1] == '*'
                && self.chars[self.index + 2] == ')' {
                let ghost i1 = self.index;
                assert(r.skip(3) =~= s.skip(self.index + 3));
                self.next_char();
                self.next_char();
                self.next_char();
                while self.index < self.chars.len() && self.chars[self.index] != '\n'
                    invariant
                        self.wf(),
                        self.source == old(self).source,
                        self.chars == old(self).chars,
                        s == self.chars@,
                        i1 + 3 <= self.index,
                        line_run(s.skip(i1 + 3)) == (self.index - (i1 + 3)) + line_run(
                            s.skip(self.index as int),
                        ),
                    decreases s.len() - self.index,
                {
                    assert(s.skip(self.index as int).skip(1) =~= s.skip(self.index + 1));
                    self.next_char();
                }
                assert(line_run(s.skip(self.index as int)) == 0);
                assert(r.skip((self.index - i1) as int) =~= s.skip(self.index as int));
                continue;
            }
            if self.at2('(', '*') {
                let ghost i1 = self.index;
                assert(r.skip(2) =~= s.skip(self.index + 2));
                self.next_char();
                self.next_char();
                self.lex_comment();
                proof {
                    lemma_comment_len_bound(s.skip(i1 + 2), 1);
                }
                assert(r.skip((self.index - i1) as int) =~= s.skip(self.index as int));
                continue;
            }
            assert(trivia_len(r) == 0);
            assert(r.skip(0) =~= r);
            let start = self.pos;
            let start_index = self.index;
            let ty = self.lex_token(c);
            let end = self.pos;
            return Token {
                ty,
                contents: self.source.substring_char(start_index, self.index),
                start,
                end,
            };
        }
    }

    /// Reads the token that starts at the current index, whose first character
    /// is `c`.
    #[verifier::rlimit(80)]
    fn lex_token(&mut self, c: char) -> (r: TokenType)
        requires
            old(self).wf(),
            old(self).index < old(self).chars@.len(),
            c == old(self).chars@[old(self).index as int],
        ensures
            final(self).wf(),
            final(self).source == old(self).source,
            final(self).chars == old(self).chars,
            final(self).index == old(self).index + token_len(
                old(self).chars@.skip(old(self).index as int),
            ),
            r == token_type(old(self).chars@.skip(old(self).index as int)),
    {
        let ghost s = self.chars@;
        let ghost t = s.skip(self.index as int);
        let i0 = self.index;
        if char_is_ident_start(c) {
            self.next_char();
            while self.index < self.chars.len() && (char_is_ident_start(self.chars[self.index])
                || char_is_digit(self.chars[self.index]))
                invariant
                    self.wf(),
                    self.source == old(self).source,
                    self.chars == old(self).chars,
                    s == self.chars@,
                    i0 + 1 <= self.index,
                    ident_run(s.skip(i0 + 1)) == (self.index - (i0 + 1)) + ident_run(
                        s.skip(self.index as int),
                    ),
                decreases s.len() - self.index,
            {
                assert(s.skip(self.index as int).skip(1) =~= s.skip(self.index + 1));
                self.next_char();
            }
            assert(t.skip(1) =~= s.skip(i0 + 1));
            assert(t.take(token_len(t) as int) =~= s.subrange(i0 as int, self.index as int));
            return match self.keyword_at(i0, self.index) {
                Some(k) => TokenType::Keyword(k),
                None => TokenType::Ident,
            };
        }
        if char_is_digit(c) {
            self.next_char();
            while self.index < self.chars.len() && char_is_digit(self.chars[self.index])
                invariant
                    self.wf(),
                    self.source == old(self).source,
                    self.chars == old(self).chars,
                    s == self.chars@,
                    i0 + 1 <= self.index,
                    digit_run(s.skip(i0 + 1)) == (self.index - (i0 + 1)) + digit_run(
                        s.skip(self.index as int),
                    ),
                decreases s.len() - self.index,
            {
                assert(s.skip(self.index as int).skip(1) =~= s.skip(self.index + 1));
                self.next_char();
            }
            assert(t.skip(1) =~= s.skip(i0 + 1));
            return TokenType::Integer;
        }
        self.next_char();
        match symbol_for(c) {
            Some(sym) => TokenType::Symbol(sym),
            None => TokenType::Invalid,
        }
    }

    /// The keyword spelled by the characters from `from` to `to`, if any.
    fn keyword_at(&self, from: usize, to: usize) -> (r: Option<Keyword>)
        requires
            self.wf(),
            from <= to <= self.chars@.len(),
        ensures
            r == keyword_of(self.chars@.subrange(from as int, to as int)),
    {
        let ghost text = self.chars@.subrange(from as int, to as int);
        let keywords = Keyword::all();
        let mut i: usize = 0;
        assert(keywords@.skip(0) =~= keywords@);
        while i < keywords.len()
            invariant
                self.wf(),
                from <= to <= self.chars@.len(),
                text == self.chars@.subrange(from as int, to as int),
                keywords@ == all_keywords(),
                i <= keywords@.len(),
                keyword_of(text) == crate::token::find_keyword(keywords@.skip(i as int), text),
            decreases keywords@.len() - i,
        {
            let k = keywords[i];
            let spelled = k.as_str();
            let n = spelled.unicode_len();
            let mut same = n == to - from;
            let mut j: usize = 0;
            while same && j < n
                invariant
                    self.wf(),
                    from <= to <= self.chars@.len(),
                    text == self.chars@.subrange(from as int, to as int),
                    n == spelled@.len(),
                    spelled@ == keyword_text(k),
                    j <= n,
                    same ==> n == to - from,
                    same ==> spelled@.take(j as int) =~= text.take(j as int),
                    !same ==> spelled@ != text,
                decreases n - j + (if same { 1int } else { 0int }),
            {
                if spelled.get_char(j) != self.chars[from + j] {
                    same = false;
                } else {
                    j = j + 1;
                }
            }
            assert(keywords@.skip(i as int).skip(1) =~= keywords@.skip(i + 1));
            if same {
                assert(spelled@.take(n as int) =~= spelled@);
                assert(text.take(n as int) =~= text);
                assert(spelled@ =~= text);
                return Some(k);
            }
            i = i + 1;
        }
        None
    }
}

pub open spec fn tokens_view<'a>(v: Seq<Token<'a>>) -> Seq<(TokenType, Seq<char>)> {
    v.map_values(|t: Token<'a>| (t.ty, t.contents@))
}

/// A token start needs no further skipping.
pub proof fn lemma_token_start_idem(s: Seq<char>, i: nat)
    requires
        i <= s.len(),
    ensures
        token_start(s, token_start(s, i)) == token_start(s, i),
{
    let r = s.skip(i as int);
    lemma_trivia_maximal(r);
    let j = token_start(s, i);
    assert(r.skip(trivia_len(r) as int) =~= s.skip(j as int));
    let t = s.skip(j as int);
    if t.len() > 0 {
        assert(trivia_len(t) == 0);
    }
}

pub proof fn lemma_lex_step(s: Seq<char>, i: nat)
    requires
        i <= s.len(),
    ensures
        token_start(s, i) < s.len() ==> lex(s.skip(i as int)) == seq![
            (token_type(s.skip(token_start(s, i) as int)), s.subrange(token_start(s, i) as int, token_end(s, i) as int)),
        ] + lex(s.skip(token_end(s, i) as int)),
        token_start(s, i) >= s.len() ==> lex(s.skip(i as int)) == Seq::<(TokenType, Seq<char>)>::empty(),
{
    reveal(lex);
    lemma_token_len_bound_at(s, i);
    let r = s.skip(i as int);
    let j = token_start(s, i);
    assert(r.skip(trivia_len(r) as int) =~= s.skip(j as int));
    if j < s.len() {
        let t = s.skip(j as int);
        lemma_token_len_bound(t);
        assert(t.take(token_len(t) as int) =~= s.subrange(j as int, token_end(s, i) as int));
        assert(t.skip(token_len(t) as int) =~= s.skip(token_end(s, i) as int));
    }
}

/// All the tokens of `source` before its end.
#[verifier::rlimit(80)]
pub fn tokenize<'a>(source: &'a str) -> (r: Vec<Token<'a>>)
    requires
        source@.len() <= MAX_SOURCE_LEN,
    ensures
        tokens_view(r@) == lex(source@),
{
    let mut lexer = Lexer::new(source);
    let mut out: Vec<Token<'a>> = Vec::new();
    proof {
        assert(source@.skip(0) =~= source@);
    }
    loop
        invariant
            lexer.wf(),
            lexer.text() == source@,
            lex(source@) == tokens_view(out@) + lex(source@.skip(lexer.index() as int)),
        decreases source@.len() - lexer.index(),
    {
        let ghost i = lexer.index();
        proof {
            lexer.lemma_wf();
            lemma_lex_step(source@, i);
            lemma_token_len_bound_at(source@, i);
        }
        let t = lexer.next_token();
        if t.ty == TokenType::End {
            assert(tokens_view(out@) + Seq::<(TokenType, Seq<char>)>::empty() =~= tokens_view(out@));
            return out;
        }
        let ghost before = out@;
        out.push(t);
        assert(tokens_view(out@) =~= tokens_view(before).push((t.ty, t.contents@)));
        assert(lex(source@) =~= tokens_view(out@) + lex(source@.skip(lexer.index() as int)));
    }
}

/// A text that the lexer reads as an identifier.
pub open spec fn is_ident_text(x: Seq<char>) -> bool {
    &&& x.len() > 0
    &&& is_ident_start(x[0])
    &&& forall|k: int| 0 <= k < x.len() ==> is_ident_char(#[trigger] x[k])
    &&& keyword_of(x) is None
}

/// A token `c` at the front of `c + w` is read as kind `ty`, and the rest is
/// read from `w`.
pub proof fn lemma_lex_token(c: Seq<char>, w: Seq<char>, ty: TokenType)
    requires
        c.len() > 0,
        !is_space(c[0]),
        !starts2(c + w, '(', '*'),
        token_len(c + w) == c.len(),
        token_type(c + w) == ty,
    ensures
        lex(c + w) == seq![(ty, c)] + lex(w),
{
    reveal(lex);
    let u = c + w;
    assert(u[0] == c[0]);
    assert(trivia_len(u) == 0);
    assert(u.skip(0) =~= u);
    assert(u.take(c.len() as int) =~= c);
    assert(u.skip(c.len() as int) =~= w);
}

/// A word (identifier or keyword) followed by a character that cannot
/// continue it.
pub proof fn lemma_lex_word(x: Seq<char>, w: Seq<char>)
    requires
        x.len() > 0,
        is_ident_start(x[0]),
        forall|k: int| 0 <= k < x.len() ==> is_ident_char(#[trigger] x[k]),
        w.len() == 0 || !is_ident_char(w[0]),
    ensures
        lex(x + w) == seq![(match keyword_of(x) {
            Some(k) => TokenType::Keyword(k),
            None => TokenType::Ident,
        }, x)] + lex(w),
{
    let u = x + w;
    assert(u[0] == x[0]);
    assert(u.skip(1) =~= x.skip(1) + w);
    assert forall|k: int| 0 <= k < x.skip(1).len() implies is_ident_char(#[trigger] x.skip(1)[k]) by {
        assert(x.skip(1)[k] == x[k + 1]);
    }
    lemma_ident_run_concat(x.skip(1), w);
    assert(u.take(x.len() as int) =~= x);
    lemma_lex_token(x, w, token_type(u));
}

/// A symbol, not a comment opening.
pub proof fn lemma_lex_symbol(sym: Symbol, w: Seq<char>)
    requires
        !(sym == Symbol::OpenBrace && w.len() > 0 && w[0] == '*'),
    ensures
        lex(seq![symbol_char(sym)] + w) == seq![(TokenType::Symbol(sym), seq![symbol_char(sym)])] + lex(w),
{
    let c = seq![symbol_char(sym)];
    let u = c + w;
    assert(u[0] == symbol_char(sym));
    assert(symbol_of(symbol_char(sym)) == Some(sym)) by {
        match sym {
            Symbol::OpenBrace => {},
            Symbol::CloseBrace => {},
            Symbol::OpenCurlyBrace => {},
            Symbol::CloseCurlyBrace => {},
            Symbol::Semicolon => {},
            Symbol::Colon => {},
            Symbol::Comma => {},
            Symbol::OpenSquareBrace => {},
            Symbol::CloseSquareBrace => {},
        }
    }
    if sym == Symbol::OpenBrace && w.len() > 0 {
        assert(u[1] == w[0]);
    }
    lemma_lex_token(c, w, TokenType::Symbol(sym));
}

/// A run of digits followed by a non-digit.
pub proof fn lemma_lex_digits(d: Seq<char>, w: Seq<char>)
    requires
        d.len() > 0,
        forall|k: int| 0 <= k < d.len() ==> is_digit(#[trigger] d[k]),
        w.len() == 0 || !is_digit(w[0]),
    ensures
        lex(d + w) == seq![(TokenType::Integer, d)] + lex(w),
{
    let u = d + w;
    assert(u[0] == d[0]);
    assert(is_digit(d[0]));
    assert(u.skip(1) =~= d.skip(1) + w);
    assert forall|k: int| 0 <= k < d.skip(1).len() implies is_digit(#[trigger] d.skip(1)[k]) by {
        assert(d.skip(1)[k] == d[k + 1]);
    }
    lemma_digit_run_concat(d.skip(1), w);
    lemma_lex_token(d, w, TokenType::Integer);
}

/// Nothing to read, no tokens.
pub proof fn lemma_lex_empty()
    ensures
        lex(Seq::empty()) == Seq::<(TokenType, Seq<char>)>::empty(),
{
    reveal(lex);
}

} // verus!
