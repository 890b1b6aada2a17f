//! Rendering of parse and validation errors for people.
use vstd::prelude::*;
use vstd::string::*;

use crate::lexer::utf8_len;
use crate::ast;
use crate::parser::{ParseError, RawSpan, Span};
use crate::validate::{Error, ProtocolError, StructError};
use crate::text::{decimal, push_char, push_decimal, push_str, push_string};
use crate::token::{keyword_text, symbol_char, Token, TokenType};

verus! {

/// `n` right-aligned in three columns.
pub open spec fn pad3(n: nat) -> Seq<char> {
    let d = decimal(n);
    if d.len() >= 3 {
        d
    } else if d.len() == 2 {
        seq![' '] + d
    } else {
        seq![' ', ' '] + d
    }
}

/// The gutter before a source line: its number, then ` | `.
pub open spec fn gutter(n: nat) -> Seq<char> {
    pad3(n) + " | "@
}

/// Index of the first line break in `t`, or its length.
pub open spec fn line_len(t: Seq<char>) -> nat
    decreases t.len(),
{
    if t.len() == 0 || t[0] == '\n' {
        0
    } else {
        1 + line_len(t.skip(1))
    }
}

/// A line without a final carriage return.
pub open spec fn strip_cr(l: Seq<char>) -> Seq<char> {
    if l.len() > 0 && l.last() == '\r' {
        l.drop_last()
    } else {
        l
    }
}

/// The lines of `t`, as `str::lines` gives them.
pub open spec fn lines_of(t: Seq<char>) -> Seq<Seq<char>>
    decreases t.len(),
{
    if t.len() == 0 {
        Seq::empty()
    } else {
        let k = line_len(t);
        if k < t.len() {
            seq![strip_cr(t.take(k as int))] + lines_of(t.skip((k + 1) as int))
        } else {
            seq![strip_cr(t)]
        }
    }
}

/// Each line, with its gutter, numbered from `n`.
pub open spec fn rest_lines_text(ls: Seq<Seq<char>>, n: nat) -> Seq<char>
    decreases ls.len(),
{
    if ls.len() == 0 {
        Seq::empty()
    } else {
        rest_lines_text(ls.drop_last(), n) + gutter((n + ls.len() - 1) as nat) + ls.last() + "\n"@
    }
}

/// The source text `t` that a span covers, starting on line `line` at
/// column `column`: each line under a gutter, the first indented to its
/// column.
pub open spec fn span_text(t: Seq<char>, line: nat, column: nat) -> Seq<char> {
    let ls = lines_of(t);
    if ls.len() == 0 {
        Seq::empty()
    } else {
        gutter(line) + Seq::new((if column > 0 { column - 1 } else { 0 }) as nat, |_i: int| ' ') + ls[0] + "\n"@
            + rest_lines_text(ls.skip(1), line + 1)
    }
}

/// Character index of byte offset `offset` in `s`, counting from index `i`
/// at byte offset `at`.
pub open spec fn index_of_offset(s: Seq<char>, offset: nat, i: nat, at: nat) -> nat
    decreases s.len() - i,
{
    if i >= s.len() || at >= offset {
        i
    } else {
        index_of_offset(s, offset, i + 1, at + utf8_len(s[i as int]))
    }
}

/// The characters of `s` between two byte offsets.
pub open spec fn span_chars(s: Seq<char>, span: RawSpan) -> Seq<char> {
    let a = index_of_offset(s, span.start.offset as nat, 0, 0);
    let b = index_of_offset(s, span.end.offset as nat, 0, 0);
    if a <= b {
        s.subrange(a as int, b as int)
    } else {
        Seq::empty()
    }
}

/// The rendering of `span` of the source `s`.
pub open spec fn pretty_span_text(s: Seq<char>, span: RawSpan) -> Seq<char> {
    span_text(span_chars(s, span), span.start.line as nat, span.start.column as nat)
}

fn push_pad3(out: &mut String, n: u64)
    ensures
        final(out)@ == old(out)@ + pad3(n as nat),
{
    let ghost start = out@;
    if n < 10 {
        push_str(out, "  ");
    } else if n < 100 {
        push_str(out, " ");
    }
    push_decimal(out, n);
    proof {
        lemma_decimal_len(n as nat);
        reveal_strlit("  ");
        reveal_strlit(" ");
    }
    assert(out@ =~= start + pad3(n as nat));
}

proof fn lemma_decimal_len(n: nat)
    ensures
        n < 10 ==> decimal(n).len() == 1,
        10 <= n < 100 ==> decimal(n).len() == 2,
        n >= 100 ==> decimal(n).len() >= 3,
    decreases n,
{
    if n >= 10 {
        lemma_decimal_len(n / 10);
    }
}

/// Character index of byte offset `offset`.
fn index_of(chars: &Vec<char>, offset: usize) -> (r: usize)
    ensures
        r == index_of_offset(chars@, offset as nat, 0, 0),
        r <= chars@.len(),
{
    let mut i: usize = 0;
    let mut at: u128 = 0;
    while i < chars.len() && at < offset as u128
        invariant
            i <= chars@.len(),
            at <= offset + 4,
            index_of_offset(chars@, offset as nat, 0, 0) == index_of_offset(chars@, offset as nat, i as nat, at as nat),
        decreases chars@.len() - i,
    {
        let c = chars[i];
        let u = c as u32;
        let w: u128 = if u < 0x80 {
            1
        } else if u < 0x800 {
            2
        } else if u < 0x10000 {
            3
        } else {
            4
        };
        assert(w == utf8_len(c));
        at = at + w;
        i = i + 1;
    }
    i
}

pub open spec fn lines_view(v: Seq<Vec<char>>) -> Seq<Seq<char>> {
    v.map_values(|l: Vec<char>| l@)
}

/// The lines of the characters from `a` to `b`.
#[verifier::rlimit(80)]
fn split_lines(chars: &Vec<char>, a: usize, b: usize) -> (r: Vec<Vec<char>>)
    requires
        a <= b <= chars@.len(),
    ensures
        lines_view(r@) == lines_of(chars@.subrange(a as int, b as int)),
{
    let mut out: Vec<Vec<char>> = Vec::new();
    let mut i: usize = a;
    while i < b
        invariant
            a <= i <= b <= chars@.len(),
            lines_of(chars@.subrange(a as int, b as int)) == lines_view(out@) + lines_of(chars@.subrange(i as int, b as int)),
        decreases b - i,
    {
        let ghost rest = chars@.subrange(i as int, b as int);
        let mut j: usize = i;
        while j < b && chars[j] != '\n'
            invariant
                i <= j <= b <= chars@.len(),
                line_len(rest) == (j - i) + line_len(chars@.subrange(j as int, b as int)),
                rest == chars@.subrange(i as int, b as int),
            decreases b - j,
        {
            assert(chars@.subrange(j as int, b as int).skip(1) =~= chars@.subrange(j + 1, b as int));
            j = j + 1;
        }
        assert(line_len(chars@.subrange(j as int, b as int)) == 0);
        let mut end = j;
        if end > i && chars[end - 1] == '\r' {
            end = end - 1;
        }
        let mut line: Vec<char> = Vec::new();
        let mut x: usize = i;
        while x < end
            invariant
                i <= x <= end <= b <= chars@.len(),
                line@ == chars@.subrange(i as int, x as int),
            decreases end - x,
        {
            line.push(chars[x]);
            x = x + 1;
            assert(line@ =~= chars@.subrange(i as int, x as int));
        }
        assert(rest.take((j - i) as int) =~= chars@.subrange(i as int, j as int));
        assert(line@ == strip_cr(chars@.subrange(i as int, j as int))) by {
            let l = chars@.subrange(i as int, j as int);
            if l.len() > 0 && l.last() == '\r' {
                assert(l.drop_last() =~= line@);
            } else {
                assert(l =~= line@);
            }
        }
        let ghost before = out@;
        out.push(line);
        assert(lines_view(out@) =~= lines_view(before).push(strip_cr(chars@.subrange(i as int, j as int))));
        if j < b {
            assert(rest.skip((j - i) + 1) =~= chars@.subrange(j + 1, b as int));
            i = j + 1;
        } else {
            assert(rest =~= chars@.subrange(i as int, j as int));
            assert(chars@.subrange(j as int, b as int) =~= Seq::<char>::empty());
            i = j;
        }
        assert(lines_of(chars@.subrange(a as int, b as int)) =~= lines_view(out@) + lines_of(chars@.subrange(i as int, b as int)));
    }
    assert(chars@.subrange(i as int, b as int) =~= Seq::<char>::empty());
    assert(lines_view(out@) + Seq::<Seq<char>>::empty() =~= lines_view(out@));
    out
}

/// Appends the rendering of `span` of the source whose characters are
/// `chars`.
#[verifier::rlimit(80)]
pub fn push_span(out: &mut String, chars: &Vec<char>, span: RawSpan)
    requires
        chars@.len() <= crate::lexer::MAX_SOURCE_LEN,
    ensures
        final(out)@ == old(out)@ + pretty_span_text(chars@, span),
{
    let ghost start = out@;
    let a = index_of(chars, span.start.offset);
    let b = index_of(chars, span.end.offset);
    let ghost t = span_chars(chars@, span);
    let b = if a <= b {
        b
    } else {
        a
    };
    assert(t =~= chars@.subrange(a as int, b as int));
    let lines = split_lines(chars, a, b);
    let ghost ls = lines_of(t);
    proof {
        lemma_lines_len(t);
    }
    if lines.len() == 0 {
        assert(out@ =~= start + pretty_span_text(chars@, span));
        return;
    }
    push_pad3(out, span.start.line as u64);
    push_str(out, " | ");
    let mut k: u32 = 1;
    while k < span.start.column
        invariant
            1 <= k,
            k <= span.start.column || k == 1,
            out@ == start + gutter(span.start.line as nat) + Seq::new((k - 1) as nat, |_i: int| ' '),
        decreases span.start.column - k,
    {
        push_char(out, ' ');
        assert(Seq::new(k as nat, |_i: int| ' ') =~= Seq::new((k - 1) as nat, |_i: int| ' ').push(' '));
        k = k + 1;
    }
    let ghost indent = Seq::new((if span.start.column > 0 { span.start.column - 1 } else { 0 }) as nat, |_i: int| ' ');
    assert(Seq::new((k - 1) as nat, |_i: int| ' ') =~= indent);
    push_line(out, &lines[0]);
    push_str(out, "\n");
    let ghost p1 = out@;
    assert(p1 =~= start + gutter(span.start.line as nat) + indent + ls[0] + "\n"@);
    let mut i: usize = 1;
    let mut line: u64 = span.start.line as u64 + 1;
    while i < lines.len()
        invariant
            1 <= i <= lines@.len(),
            lines_view(lines@) == ls,
            line == span.start.line + i,
            lines@.len() <= crate::lexer::MAX_SOURCE_LEN,
            out@ == p1 + rest_lines_text(ls.skip(1).take(i - 1), (span.start.line + 1) as nat),
        decreases lines@.len() - i,
    {
        push_pad3(out, line);
        push_str(out, " | ");
        push_line(out, &lines[i]);
        push_str(out, "\n");
        assert(ls.skip(1).take(i as int).drop_last() =~= ls.skip(1).take(i - 1));
        assert(ls.skip(1).take(i as int).last() == lines_view(lines@)[i as int]);
        i = i + 1;
        line = line + 1;
    }
    assert(ls.skip(1).take(i - 1) =~= ls.skip(1));
    assert(out@ =~= start + pretty_span_text(chars@, span));
}

proof fn lemma_lines_len(t: Seq<char>)
    ensures
        lines_of(t).len() <= t.len(),
    decreases t.len(),
{
    if t.len() > 0 {
        let k = line_len(t);
        if k < t.len() {
            lemma_lines_len(t.skip((k + 1) as int));
        }
    }
}

fn push_line(out: &mut String, l: &Vec<char>)
    ensures
        final(out)@ == old(out)@ + l@,
{
    let ghost start = out@;
    let mut x: usize = 0;
    while x < l.len()
        invariant
            x <= l@.len(),
            out@ == start + l@.take(x as int),
        decreases l@.len() - x,
    {
        push_char(out, l[x]);
        assert(l@.take(x + 1) =~= l@.take(x as int).push(l@[x as int]));
        x = x + 1;
    }
    assert(l@.take(l@.len() as int) =~= l@);
}

/// The control sequence that ends a colour.
pub open spec fn reset_seq() -> Seq<char> {
    seq!['\x1B', '[', '0', 'm']
}

/// Relies on `colored::Colorize::red` and the `Display` of the
/// `ColoredString` it returns: the text itself, or the text between a colour
/// sequence and the reset sequence, as the environment asks.
#[verifier::external_body]
fn red(s: &str) -> (r: String)
    requires
        !s@.contains('\x1B'),
    ensures
        r@ == s@ || exists|style: Seq<char>| r@ == style + s@ + reset_seq(),
{
    colored::Colorize::red(s).to_string()
}

/// How a kind of token is named in messages.
pub open spec fn token_type_name(t: TokenType) -> Seq<char> {
    match t {
        TokenType::Ident => "an identifier"@,
        TokenType::Keyword(k) => "the keyword '"@ + keyword_text(k) + "'"@,
        TokenType::Symbol(s) => "the symbol '"@ + seq![symbol_char(s)] + "'"@,
        TokenType::End => "the end of the input"@,
        TokenType::Invalid => "an invalid character"@,
        TokenType::Integer => "an integer"@,
    }
}

/// How a token is named in messages.
pub open spec fn token_name(t: Token) -> Seq<char> {
    match t.ty {
        TokenType::Ident => "the identifier '"@ + t.contents@ + "'"@,
        TokenType::Keyword(k) => "the keyword '"@ + keyword_text(k) + "'"@,
        TokenType::Symbol(s) => "the symbol '"@ + seq![symbol_char(s)] + "'"@,
        TokenType::Invalid => "the invalid character '"@ + t.contents@ + "'"@,
        TokenType::End => "the end of the input"@,
        TokenType::Integer => "the integer '"@ + t.contents@ + "'"@,
    }
}

pub open spec fn expected_list_text(ts: Seq<TokenType>) -> Seq<char>
    decreases ts.len(),
{
    if ts.len() == 0 {
        Seq::empty()
    } else {
        expected_list_text(ts.drop_last()) + "\n"@ + "    - "@ + token_type_name(ts.last())
    }
}

/// A parse error, after the label `label`.
pub open spec fn parse_error_text(e: ParseError, label: Seq<char>) -> Seq<char> {
    label + ": line "@ + decimal(e.pos.line as nat) + ", column "@ + decimal(e.pos.column as nat) + "\n"@
        + "  Found "@ + token_name(e.token) + "\n"@ + "  Expected one of the following:"@ + expected_list_text(
        e.expected_tokens@,
    )
}

fn push_token_type_name(out: &mut String, t: TokenType)
    ensures
        final(out)@ == old(out)@ + token_type_name(t),
{
    let ghost start = out@;
    match t {
        TokenType::Ident => push_str(out, "an identifier"),
        TokenType::Keyword(k) => {
            push_str(out, "the keyword '");
            push_str(out, k.as_str());
            push_str(out, "'");
        },
        TokenType::Symbol(s) => {
            push_str(out, "the symbol '");
            push_char(out, s.as_char());
            push_str(out, "'");
        },
        TokenType::End => push_str(out, "the end of the input"),
        TokenType::Invalid => push_str(out, "an invalid character"),
        TokenType::Integer => push_str(out, "an integer"),
    }
    assert(out@ =~= start + token_type_name(t));
}

fn push_token_name(out: &mut String, t: Token)
    ensures
        final(out)@ == old(out)@ + token_name(t),
{
    let ghost start = out@;
    match t.ty {
        TokenType::Ident => {
            push_str(out, "the identifier '");
            push_str(out, t.contents);
            push_str(out, "'");
        },
        TokenType::Keyword(k) => {
            push_str(out, "the keyword '");
            push_str(out, k.as_str());
            push_str(out, "'");
        },
        TokenType::Symbol(s) => {
            push_str(out, "the symbol '");
            push_char(out, s.as_char());
            push_str(out, "'");
        },
        TokenType::Invalid => {
            push_str(out, "the invalid character '");
            push_str(out, t.contents);
            push_str(out, "'");
        },
        TokenType::End => push_str(out, "the end of the input"),
        TokenType::Integer => {
            push_str(out, "the integer '");
            push_str(out, t.contents);
            push_str(out, "'");
        },
    }
    assert(out@ =~= start + token_name(t));
}

/// Appends the text of a parse error after the label `label`.
#[verifier::rlimit(80)]
pub fn push_parse_error(out: &mut String, e: &ParseError, label: &String)
    ensures
        final(out)@ == old(out)@ + parse_error_text(*e, label@),
{
    let ghost start = out@;
    push_string(out, label);
    push_str(out, ": line ");
    push_decimal(out, e.pos.line as u64);
    push_str(out, ", column ");
    push_decimal(out, e.pos.column as u64);
    push_str(out, "\n");
    push_str(out, "  Found ");
    push_token_name(out, e.token);
    push_str(out, "\n");
    push_str(out, "  Expected one of the following:");
    let ghost p1 = out@;
    let mut i: usize = 0;
    while i < e.expected_tokens.len()
        invariant
            i <= e.expected_tokens@.len(),
            out@ == p1 + expected_list_text(e.expected_tokens@.take(i as int)),
        decreases e.expected_tokens@.len() - i,
    {
        push_str(out, "\n");
        push_str(out, "    - ");
        push_token_type_name(out, e.expected_tokens[i]);
        assert(e.expected_tokens@.take(i + 1).drop_last() =~= e.expected_tokens@.take(i as int));
        i = i + 1;
    }
    assert(e.expected_tokens@.take(e.expected_tokens@.len() as int) =~= e.expected_tokens@);
    assert(out@ =~= start + parse_error_text(*e, label@));
}

impl<'a> ParseError<'a> {
    /// The error as text: where, what was found, and what was expected.
    pub fn pretty(&self) -> (r: String)
        ensures
            exists|label: Seq<char>|
                (label == "SYNTAX ERROR"@ || exists|style: Seq<char>| label == style + "SYNTAX ERROR"@ + reset_seq())
                    && r@ == parse_error_text(*self, label),
    {
        proof {
            reveal_strlit("SYNTAX ERROR");
        }
        let label = red("SYNTAX ERROR");
        let mut out = String::new();
        push_parse_error(&mut out, self, &label);
        assert(out@ =~= parse_error_text(*self, label@));
        out
    }
}

/// Each message's span, rendered.
pub open spec fn spans_text(s: Seq<char>, ms: Seq<Span<ast::Message>>) -> Seq<char>
    decreases ms.len(),
{
    if ms.len() == 0 {
        Seq::empty()
    } else {
        spans_text(s, ms.drop_last()) + pretty_span_text(s, ms.last().span)
    }
}

/// The advice for a struct named `n` that is not defined.
pub open spec fn undefined_text(n: Seq<char>) -> Seq<char> {
    "info: the struct '"@ + n + "' is not defined anywhere in the file\n"@
        + "info: either define this struct or change the type to a struct that exists\n"@
}

/// The explanation of a protocol error.
pub open spec fn protocol_info_text(s: Seq<char>, err: ProtocolError, role_count: nat) -> Seq<char> {
    match err {
        ProtocolError::IncorrectNumberOfRoles => "info: the protocol defined above has "@ + decimal(role_count)
            + " role(s) but it is required to have 2\n"@,
        ProtocolError::InvalidDirection(m) => "info: the following message is to '"@ + m.inner.to.0@
            + "' and from '"@ + m.inner.from.0@ + "'\n"@ + pretty_span_text(s, m.span)
            + "info: modify the messages so the sender and receiver are not the same role\n"@,
        ProtocolError::MixedDirections(ms) =>
            "info: the following messages are part of the same decision state but have different directions:\n"@
            + spans_text(s, ms@) + "info: make sure all the messages have the same roles in the 'from' and 'to' section\n"@,
        ProtocolError::RepeatedLabel(ms) =>
            "info: the following messages are part of the same decision state but have the same label:\n"@
            + spans_text(s, ms@) + "info: rename the message labels so they are unique\n"@,
        ProtocolError::UndefinedStruct(n) => undefined_text(n@),
        ProtocolError::TooManyBranches(ms) =>
            "info: the following messages leave one decision state, which can have at most 256:\n"@
            + spans_text(s, ms@) + "info: split the decision into smaller ones\n"@,
    }
}

/// A validation error over the source `s`, after the label `label`.
pub open spec fn validation_error_text(e: Error, s: Seq<char>, label: Seq<char>) -> Seq<char> {
    label + ": "@ + match e {
        Error::ProtocolError { name, span, role_count, err } => "error in protocol '"@ + name@ + "'\n"@
            + pretty_span_text(s, span) + protocol_info_text(s, err, role_count as nat),
        Error::StructError { name, span, err } => "error in struct definition '"@ + name@ + "'\n"@
            + pretty_span_text(s, span) + match err {
            StructError::RecursiveStruct(_) => "info: the struct below contains a recursive definition\n"@
                + "info: remove the recursive definition\n"@,
            StructError::UndefinedStruct(n) => undefined_text(n@),
        },
    }
}

fn push_spans(out: &mut String, chars: &Vec<char>, ms: &Vec<Span<ast::Message>>)
    requires
        chars@.len() <= crate::lexer::MAX_SOURCE_LEN,
    ensures
        final(out)@ == old(out)@ + spans_text(chars@, ms@),
{
    let ghost start = out@;
    let mut i: usize = 0;
    while i < ms.len()
        invariant
            i <= ms@.len(),
            chars@.len() <= crate::lexer::MAX_SOURCE_LEN,
            out@ == start + spans_text(chars@, ms@.take(i as int)),
        decreases ms@.len() - i,
    {
        push_span(out, chars, ms[i].span);
        assert(ms@.take(i + 1).drop_last() =~= ms@.take(i as int));
        i = i + 1;
    }
    assert(ms@.take(ms@.len() as int) =~= ms@);
}

fn push_undefined(out: &mut String, n: &String)
    ensures
        final(out)@ == old(out)@ + undefined_text(n@),
{
    let ghost start = out@;
    push_str(out, "info: the struct '");
    push_string(out, n);
    push_str(out, "' is not defined anywhere in the file\n");
    push_str(out, "info: either define this struct or change the type to a struct that exists\n");
    assert(out@ =~= start + undefined_text(n@));
}

#[verifier::rlimit(80)]
fn push_protocol_info(out: &mut String, chars: &Vec<char>, err: &ProtocolError, role_count: usize)
    requires
        chars@.len() <= crate::lexer::MAX_SOURCE_LEN,
    ensures
        final(out)@ == old(out)@ + protocol_info_text(chars@, *err, role_count as nat),
{
    let ghost start = out@;
    match err {
        ProtocolError::IncorrectNumberOfRoles => {
            push_str(out, "info: the protocol defined above has ");
            push_decimal(out, role_count as u64);
            push_str(out, " role(s) but it is required to have 2\n");
        },
        ProtocolError::InvalidDirection(m) => {
            push_str(out, "info: the following message is to '");
            push_string(out, &m.inner.to.0);
            push_str(out, "' and from '");
            push_string(out, &m.inner.from.0);
            push_str(out, "'\n");
            push_span(out, chars, m.span);
            push_str(out, "info: modify the messages so the sender and receiver are not the same role\n");
        },
        ProtocolError::MixedDirections(ms) => {
            push_str(out, "info: the following messages are part of the same decision state but have different directions:\n");
            push_spans(out, chars, ms);
            push_str(out, "info: make sure all the messages have the same roles in the 'from' and 'to' section\n");
        },
        ProtocolError::RepeatedLabel(ms) => {
            push_str(out, "info: the following messages are part of the same decision state but have the same label:\n");
            push_spans(out, chars, ms);
            push_str(out, "info: rename the message labels so they are unique\n");
        },
        ProtocolError::UndefinedStruct(n) => push_undefined(out, n),
        ProtocolError::TooManyBranches(ms) => {
            push_str(out, "info: the following messages leave one decision state, which can have at most 256:\n");
            push_spans(out, chars, ms);
            push_str(out, "info: split the decision into smaller ones\n");
        },
    }
    assert(out@ =~= start + protocol_info_text(chars@, *err, role_count as nat));
}

/// Appends the text of a validation error over the source whose characters
/// are `chars`, after the label `label`.
#[verifier::rlimit(80)]
pub fn push_validation_error(out: &mut String, e: &Error, chars: &Vec<char>, label: &String)
    requires
        chars@.len() <= crate::lexer::MAX_SOURCE_LEN,
    ensures
        final(out)@ == old(out)@ + validation_error_text(*e, chars@, label@),
{
    let ghost start = out@;
    push_string(out, label);
    push_str(out, ": ");
    match e {
        Error::ProtocolError { name, span, role_count, err } => {
            push_str(out, "error in protocol '");
            push_string(out, name);
            push_str(out, "'\n");
            push_span(out, chars, *span);
            push_protocol_info(out, chars, err, *role_count);
        },
        Error::StructError { name, span, err } => {
            push_str(out, "error in struct definition '");
            push_string(out, name);
            push_str(out, "'\n");
            push_span(out, chars, *span);
            match err {
                StructError::RecursiveStruct(_) => {
                    push_str(out, "info: the struct below contains a recursive definition\n");
                    push_str(out, "info: remove the recursive definition\n");
                },
                StructError::UndefinedStruct(n) => push_undefined(out, n),
            }
        },
    }
    assert(out@ =~= start + validation_error_text(*e, chars@, label@));
}

/// The characters of `s`.
pub fn chars_of(s: &str) -> (r: Vec<char>)
    ensures
        r@ == s@,
{
    let n = s.unicode_len();
    let mut r: Vec<char> = Vec::new();
    let mut i: usize = 0;
    while i < n
        invariant
            n == s@.len(),
            i <= n,
            r@ == s@.take(i as int),
        decreases n - i,
    {
        r.push(s.get_char(i));
        i = i + 1;
        assert(r@ =~= s@.take(i as int));
    }
    assert(r@ =~= s@);
    r
}

impl Error {
    /// The error as text over its source: the definition it is in, the
    /// offending source under a gutter, and advice.
    pub fn pretty_print(&self, source: &str) -> (r: String)
        requires
            source@.len() <= crate::lexer::MAX_SOURCE_LEN,
        ensures
            exists|label: Seq<char>|
                (label == "validation error"@ || exists|style: Seq<char>| label == style + "validation error"@
                    + reset_seq()) && r@ == validation_error_text(*self, source@, label),
    {
        proof {
            reveal_strlit("validation error");
        }
        let label = red("validation error");
        let chars = chars_of(source);
        let mut out = String::new();
        push_validation_error(&mut out, self, &chars, &label);
        assert(out@ =~= validation_error_text(*self, source@, label@));
        out
    }
}

impl<T> Span<T> {
    /// The source that the span covers, each line under a gutter.
    pub fn pretty_print(&self, source: &str) -> (r: String)
        requires
            source@.len() <= crate::lexer::MAX_SOURCE_LEN,
        ensures
            r@ == pretty_span_text(source@, self.span),
    {
        let chars = chars_of(source);
        let mut out = String::new();
        push_span(&mut out, &chars, self.span);
        assert(out@ =~= pretty_span_text(source@, self.span));
        out
    }
}

} // verus!
