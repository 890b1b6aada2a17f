//! Token kinds produced by the lexer.
use vstd::prelude::*;

use crate::lexer::Position;

verus! {

/// Reserved words of the protocol language.
#[derive(Debug, Clone, Copy, PartialEq, Eq, Structural)]
pub enum Keyword {
    Protocol,
    Role,
    From,
    To,
    Choice,
    Or,
    Par,
    And,
    Fin,
    Inf,
    Struct,
    Bool,
    U8,
    U16,
    U32,
    U64,
    I8,
    I16,
    I32,
    I64,
}

/// Punctuation of the protocol language.
#[derive(Debug, Clone, Copy, PartialEq, Eq, Structural)]
pub enum Symbol {
    OpenBrace,
    CloseBrace,
    OpenCurlyBrace,
    CloseCurlyBrace,
    Semicolon,
    Colon,
    Comma,
    OpenSquareBrace,
    CloseSquareBrace,
}

/// The kind of a token.
#[derive(Debug, Clone, Copy, PartialEq, Eq, Structural)]
pub enum TokenType {
    Ident,
    Integer,
    Keyword(Keyword),
    Symbol(Symbol),
    Invalid,
    End,
}

/// Every keyword, in the order in which the lexer tries them.
pub open spec fn all_keywords() -> Seq<Keyword> {
    seq![
        Keyword::Protocol, Keyword::Role, Keyword::From, Keyword::To, Keyword::Choice,
        Keyword::Or, Keyword::Par, Keyword::And, Keyword::Fin, Keyword::Inf,
        Keyword::Struct, Keyword::Bool, Keyword::U8, Keyword::U16, Keyword::U32,
        Keyword::U64, Keyword::I8, Keyword::I16, Keyword::I32, Keyword::I64,
    ]
}

/// The text of a keyword.
pub open spec fn keyword_text(k: Keyword) -> Seq<char> {
    match k {
        Keyword::Protocol => seq!['p', 'r', 'o', 't', 'o', 'c', 'o', 'l'],
        Keyword::Role => seq!['r', 'o', 'l', 'e'],
        Keyword::From => seq!['f', 'r', 'o', 'm'],
        Keyword::To => seq!['t', 'o'],
        Keyword::Choice => seq!['c', 'h', 'o', 'i', 'c', 'e'],
        Keyword::Or => seq!['o', 'r'],
        Keyword::Par => seq!['p', 'a', 'r'],
        Keyword::And => seq!['a', 'n', 'd'],
        Keyword::Fin => seq!['f', 'i', 'n'],
        Keyword::Inf => seq!['i', 'n', 'f'],
        Keyword::Struct => seq!['s', 't', 'r', 'u', 'c', 't'],
        Keyword::Bool => seq!['b', 'o', 'o', 'l'],
        Keyword::U8 => seq!['u', '8'],
        Keyword::U16 => seq!['u', '1', '6'],
        Keyword::U32 => seq!['u', '3', '2'],
        Keyword::U64 => seq!['u', '6', '4'],
        Keyword::I8 => seq!['i', '8'],
        Keyword::I16 => seq!['i', '1', '6'],
        Keyword::I32 => seq!['i', '3', '2'],
        Keyword::I64 => seq!['i', '6', '4'],
    }
}

/// The character of a symbol.
pub open spec fn symbol_char(s: Symbol) -> char {
    match s {
        Symbol::OpenBrace => '(',
        Symbol::CloseBrace => ')',
        Symbol::OpenCurlyBrace => '{',
        Symbol::CloseCurlyBrace => '}',
        Symbol::Semicolon => ';',
        Symbol::Colon => ':',
        Symbol::Comma => ',',
        Symbol::OpenSquareBrace => '[',
        Symbol::CloseSquareBrace => ']',
    }
}

/// The symbol written as `c`, if any.
pub open spec fn symbol_of(c: char) -> Option<Symbol> {
    if c == '(' {
        Some(Symbol::OpenBrace)
    } else if c == ')' {
        Some(Symbol::CloseBrace)
    } else if c == '{' {
        Some(Symbol::OpenCurlyBrace)
    } else if c == '}' {
        Some(Symbol::CloseCurlyBrace)
    } else if c == ';' {
        Some(Symbol::Semicolon)
    } else if c == ':' {
        Some(Symbol::Colon)
    } else if c == ',' {
        Some(Symbol::Comma)
    } else if c == '[' {
        Some(Symbol::OpenSquareBrace)
    } else if c == ']' {
        Some(Symbol::CloseSquareBrace)
    } else {
        None
    }
}

/// The first keyword of `ks` spelled `text`, if any.
pub open spec fn find_keyword(ks: Seq<Keyword>, text: Seq<char>) -> Option<Keyword>
    decreases ks.len(),
{
    if ks.len() == 0 {
        None
    } else if keyword_text(ks[0]) == text {
        Some(ks[0])
    } else {
        find_keyword(ks.skip(1), text)
    }
}

/// The keyword spelled `text`, if any.
pub open spec fn keyword_of(text: Seq<char>) -> Option<Keyword> {
    find_keyword(all_keywords(), text)
}

/// A token: its kind, its text and where it stands in the source.
#[derive(Debug, Clone, Copy)]
pub struct Token<'a> {
    pub ty: TokenType,
    pub contents: &'a str,
    pub start: Position,
    pub end: Position,
}

impl Keyword {
    /// Every keyword, in the order of `all_keywords`.
    pub fn all() -> (r: Vec<Keyword>)
        ensures
            r@ == all_keywords(),
    {
        let r = vec![
            Keyword::Protocol, Keyword::Role, Keyword::From, Keyword::To, Keyword::Choice,
            Keyword::Or, Keyword::Par, Keyword::And, Keyword::Fin, Keyword::Inf,
            Keyword::Struct, Keyword::Bool, Keyword::U8, Keyword::U16, Keyword::U32,
            Keyword::U64, Keyword::I8, Keyword::I16, Keyword::I32, Keyword::I64,
        ];
        assert(r@ =~= all_keywords());
        r
    }

    /// The text of the keyword.
    pub fn as_str(&self) -> (r: &'static str)
        ensures
            r@ == keyword_text(*self),
    {
        let r = match self {
            Keyword::Protocol => "protocol",
            Keyword::Role => "role",
            Keyword::From => "from",
            Keyword::To => "to",
            Keyword::Choice => "choice",
            Keyword::Or => "or",
            Keyword::Par => "par",
            Keyword::And => "and",
            Keyword::Fin => "fin",
            Keyword::Inf => "inf",
            Keyword::Struct => "struct",
            Keyword::Bool => "bool",
            Keyword::U8 => "u8",
            Keyword::U16 => "u16",
            Keyword::U32 => "u32",
            Keyword::U64 => "u64",
            Keyword::I8 => "i8",
            Keyword::I16 => "i16",
            Keyword::I32 => "i32",
            Keyword::I64 => "i64",
        };
        proof {
            reveal_strlit("protocol");
            reveal_strlit("role");
            reveal_strlit("from");
            reveal_strlit("to");
            reveal_strlit("choice");
            reveal_strlit("or");
            reveal_strlit("par");
            reveal_strlit("and");
            reveal_strlit("fin");
            reveal_strlit("inf");
            reveal_strlit("struct");
            reveal_strlit("bool");
            reveal_strlit("u8");
            reveal_strlit("u16");
            reveal_strlit("u32");
            reveal_strlit("u64");
            reveal_strlit("i8");
            reveal_strlit("i16");
            reveal_strlit("i32");
            reveal_strlit("i64");
        }
        assert(r@ =~= keyword_text(*self));
        r
    }
}

impl Symbol {
    /// The character of the symbol.
    pub fn as_char(&self) -> (r: char)
        ensures
            r == symbol_char(*self),
            symbol_of(r) == Some(*self),
    {
        match self {
            Symbol::OpenBrace => '(',
            Symbol::CloseBrace => ')',
            Symbol::OpenCurlyBrace => '{',
            Symbol::CloseCurlyBrace => '}',
            Symbol::Semicolon => ';',
            Symbol::Colon => ':',
            Symbol::Comma => ',',
            Symbol::OpenSquareBrace => '[',
            Symbol::CloseSquareBrace => ']',
        }
    }
}

/// Each keyword is read back from its own text.
pub proof fn lemma_keyword_of_text(k: Keyword)
    ensures
        keyword_of(keyword_text(k)) == Some(k),
{
    reveal_with_fuel(find_keyword, 21);
    let ks = all_keywords();
    assert forall|i: int, j: int| 0 <= i < 20 && 0 <= j < 20 && i != j implies keyword_text(ks[i]) != keyword_text(ks[j]) by {
        if keyword_text(ks[i]) == keyword_text(ks[j]) {
            let a = keyword_text(ks[i]);
            let b = keyword_text(ks[j]);
            assert(a.len() == b.len());
            assert(a[0] == b[0]);
            assert(a[1] == b[1]);
            if a.len() > 2 {
                assert(a[2] == b[2]);
            }
        }
    }
    assert(ks.skip(0) =~= ks);
    assert(ks.skip(1) =~= ks.subrange(1, 20));
}

/// A keyword found for a text is spelled by it.
pub proof fn lemma_find_keyword(ks: Seq<Keyword>, text: Seq<char>)
    ensures
        find_keyword(ks, text) matches Some(k) ==> keyword_text(k) == text,
    decreases ks.len(),
{
    if ks.len() > 0 && keyword_text(ks[0]) != text {
        lemma_find_keyword(ks.skip(1), text);
    }
}

/// A symbol found for a character is written with it.
pub proof fn lemma_symbol_of(c: char)
    ensures
        symbol_of(c) matches Some(s) ==> symbol_char(s) == c,
{
}

} // verus!
