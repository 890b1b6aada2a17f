//! Printing a message and reading it back.
use vstd::prelude::*;
use vstd::string::*;

use crate::ast::{item_source, message_source, type_source, ItemModel, Message, MessageModel, TypeModel};
use crate::generate::int_text;
use crate::lexer::{
    is_ident_char, is_ident_start, is_ident_text, lemma_lex_digits, lemma_lex_space, lemma_lex_symbol,
    lemma_lex_word, lex, MAX_SOURCE_LEN,
};
use crate::parser::{
    ident, int_keyword, item_tokens, items_tokens, kw, layer_tokens, layers, layers_tokens,
    lemma_digits_of_decimal, message_tokens, sym, type_tokens, Parser,
};
use crate::text::{decimal, joined};
use crate::token::{keyword_text, lemma_keyword_of_text, symbol_char, Keyword, Symbol, TokenType};

verus! {

/// Every struct name in `t` reads as an identifier.
pub open spec fn type_names_ok(t: TypeModel) -> bool
    decreases t,
{
    match t {
        TypeModel::Array(b, _) => type_names_ok(*b),
        TypeModel::Struct(n) => is_ident_text(n),
        _ => true,
    }
}

pub open spec fn item_names_ok(it: ItemModel) -> bool {
    &&& it.name matches Some(n) ==> is_ident_text(n)
    &&& type_names_ok(it.ty)
}

/// Every name in `m` reads as an identifier.
pub open spec fn message_names_ok(m: MessageModel) -> bool {
    &&& is_ident_text(m.label)
    &&& is_ident_text(m.from)
    &&& is_ident_text(m.to)
    &&& forall|i: int| 0 <= i < m.payload.len() ==> item_names_ok(#[trigger] m.payload[i])
}

proof fn lemma_keyword_word(k: Keyword, w: Seq<char>)
    requires
        w.len() == 0 || !is_ident_char(w[0]),
    ensures
        lex(keyword_text(k) + w) == seq![kw(k)] + lex(w),
{
    let x = keyword_text(k);
    assert(x.len() > 0 && is_ident_start(x[0]) && forall|i: int| 0 <= i < x.len() ==> is_ident_char(#[trigger] x[i])) by {
        match k {
            Keyword::Protocol => {},
            Keyword::Role => {},
            Keyword::From => {},
            Keyword::To => {},
            Keyword::Choice => {},
            Keyword::Or => {},
            Keyword::Par => {},
            Keyword::And => {},
            Keyword::Fin => {},
            Keyword::Inf => {},
            Keyword::Struct => {},
            Keyword::Bool => {},
            Keyword::U8 => {},
            Keyword::U16 => {},
            Keyword::U32 => {},
            Keyword::U64 => {},
            Keyword::I8 => {},
            Keyword::I16 => {},
            Keyword::I32 => {},
            Keyword::I64 => {},
        }
    }
    lemma_keyword_of_text(k);
    lemma_lex_word(x, w);
}

proof fn lemma_ident_word(x: Seq<char>, w: Seq<char>)
    requires
        is_ident_text(x),
        w.len() == 0 || !is_ident_char(w[0]),
    ensures
        lex(x + w) == seq![ident(x)] + lex(w),
{
    lemma_lex_word(x, w);
}

proof fn lemma_int_text(i: crate::ast::IntType)
    ensures
        int_text(i) == keyword_text(int_keyword(i)),
{
    reveal_strlit("i");
    reveal_strlit("u");
    reveal_strlit("64");
    reveal_strlit("32");
    reveal_strlit("16");
    reveal_strlit("8");
    assert(int_text(i) =~= keyword_text(int_keyword(i)));
}

proof fn lemma_layers_push(ls: Seq<Option<u64>>, x: Option<u64>, i: nat)
    requires
        i <= ls.len(),
    ensures
        layers_tokens(ls.push(x), i) == layers_tokens(ls, i) + layer_tokens(x),
    decreases ls.len() - i,
{
    if i < ls.len() {
        lemma_layers_push(ls, x, i + 1);
        assert(ls.push(x)[i as int] == ls[i as int]);
        assert(layers_tokens(ls.push(x), i) =~= layers_tokens(ls, i) + layer_tokens(x));
    } else {
        assert(ls.push(x)[i as int] == x);
        assert(layers_tokens(ls.push(x), i + 1) =~= Seq::<crate::parser::Tok>::empty());
        assert(layers_tokens(ls.push(x), i) =~= layers_tokens(ls, i) + layer_tokens(x));
    }
}

/// The text of a type is read back as the type's tokens.
proof fn lemma_lex_type(t: TypeModel, w: Seq<char>)
    requires
        type_names_ok(t),
        w.len() > 0,
        !is_ident_char(w[0]),
    ensures
        lex(type_source(t) + w) == type_tokens(t) + lex(w),
    decreases t,
{
    reveal_strlit("bool");
    reveal_strlit("struct ");
    reveal_strlit("[");
    reveal_strlit("]");
    reveal_strlit("[]");
    match t {
        TypeModel::Bool => {
            assert(type_source(t) =~= keyword_text(Keyword::Bool));
            lemma_keyword_word(Keyword::Bool, w);
            assert(type_tokens(t) =~= seq![kw(Keyword::Bool)]);
        },
        TypeModel::Int(i) => {
            lemma_int_text(i);
            lemma_keyword_word(int_keyword(i), w);
            assert(type_tokens(t) =~= seq![kw(int_keyword(i))]);
        },
        TypeModel::Struct(n) => {
            let w1 = seq![' '] + (n + w);
            assert(type_source(t) + w =~= keyword_text(Keyword::Struct) + w1);
            lemma_keyword_word(Keyword::Struct, w1);
            lemma_lex_space(n + w);
            assert(n[0] == (n + w)[0]);
            lemma_ident_word(n, w);
            assert(type_tokens(t) =~= seq![kw(Keyword::Struct), ident(n)]);
            assert(lex(type_source(t) + w) =~= type_tokens(t) + lex(w));
        },
        TypeModel::Array(b, size) => {
            let close = seq![symbol_char(Symbol::CloseSquareBrace)] + w;
            lemma_lex_symbol(Symbol::CloseSquareBrace, w);
            let mid = match size {
                Some(n) => {
                    lemma_digits_of_decimal(n as nat);
                    lemma_lex_digits(decimal(n as nat), close);
                    decimal(n as nat) + close
                },
                None => close,
            };
            let w1 = seq![symbol_char(Symbol::OpenSquareBrace)] + mid;
            assert(mid.len() > 0);
            match size {
                Some(n) => {
                    assert(mid[0] == decimal(n as nat)[0]);
                },
                None => {},
            }
            lemma_lex_symbol(Symbol::OpenSquareBrace, mid);
            lemma_lex_type(*b, w1);
            assert(type_source(t) + w =~= type_source(*b) + w1);
            assert(lex(w1) =~= layer_tokens(size) + lex(w));
            lemma_layers_push(layers(*b), size, 0);
            assert(type_tokens(t) =~= type_tokens(*b) + layer_tokens(size));
            assert(lex(type_source(t) + w) =~= type_tokens(t) + lex(w));
        },
    }
}

proof fn lemma_lex_item(it: ItemModel, w: Seq<char>)
    requires
        item_names_ok(it),
        w.len() > 0,
        !is_ident_char(w[0]),
    ensures
        lex(item_source(it) + w) == item_tokens(it) + lex(w),
{
    reveal_strlit(": ");
    lemma_lex_type(it.ty, w);
    match it.name {
        Some(n) => {
            let w2 = seq![' '] + (type_source(it.ty) + w);
            let w1 = seq![symbol_char(Symbol::Colon)] + w2;
            assert(item_source(it) + w =~= n + w1);
            lemma_ident_word(n, w1);
            lemma_lex_symbol(Symbol::Colon, w2);
            lemma_lex_space(type_source(it.ty) + w);
            assert(lex(item_source(it) + w) =~= item_tokens(it) + lex(w));
        },
        None => {},
    }
}

proof fn lemma_joined_front(xs: Seq<Seq<char>>, sep: Seq<char>)
    requires
        xs.len() >= 2,
    ensures
        joined(xs, sep) == xs[0] + sep + joined(xs.skip(1), sep),
    decreases xs.len(),
{
    if xs.len() == 2 {
        assert(xs.drop_last().len() == 1);
        assert(xs.skip(1).len() == 1);
        assert(joined(xs.drop_last(), sep) == xs.drop_last()[0]);
        assert(joined(xs.skip(1), sep) == xs.skip(1)[0]);
        assert(xs.drop_last()[0] == xs[0]);
        assert(xs.skip(1)[0] == xs.last());
        assert(joined(xs, sep) == joined(xs.drop_last(), sep) + sep + xs.last());
        assert(joined(xs, sep) =~= xs[0] + sep + joined(xs.skip(1), sep));
    } else {
        let d = xs.drop_last();
        let t = xs.skip(1);
        lemma_joined_front(d, sep);
        assert(t.drop_last() =~= d.skip(1));
        assert(d[0] == xs[0]);
        assert(t.last() == xs.last());
        let j1 = joined(d.skip(1), sep);
        assert(joined(xs, sep) == joined(d, sep) + sep + xs.last());
        assert(joined(d, sep) == xs[0] + sep + j1);
        assert(joined(t, sep) == joined(t.drop_last(), sep) + sep + t.last());
        assert(joined(t, sep) == j1 + sep + xs.last());
        assert(joined(xs, sep) =~= xs[0] + sep + joined(t, sep));
    }
}

pub open spec fn item_sources(items: Seq<ItemModel>) -> Seq<Seq<char>> {
    items.map_values(|it: ItemModel| item_source(it))
}

proof fn lemma_lex_items(items: Seq<ItemModel>, i: nat, w: Seq<char>)
    requires
        i < items.len(),
        forall|k: int| 0 <= k < items.len() ==> item_names_ok(#[trigger] items[k]),
        w.len() > 0,
        w[0] == ')',
    ensures
        lex(joined(item_sources(items).skip(i as int), ", "@) + w) == items_tokens(items, i) + lex(w),
    decreases items.len() - i,
{
    reveal_strlit(", ");
    let xs = item_sources(items).skip(i as int);
    if i + 1 == items.len() {
        assert(xs.len() == 1);
        assert(joined(xs, ", "@) == item_source(items[i as int]));
        lemma_lex_item(items[i as int], w);
    } else {
        lemma_joined_front(xs, ", "@);
        assert(xs.skip(1) =~= item_sources(items).skip((i + 1) as int));
        let rest = joined(item_sources(items).skip((i + 1) as int), ", "@) + w;
        let w2 = seq![' '] + rest;
        let w1 = seq![symbol_char(Symbol::Comma)] + w2;
        assert(joined(xs, ", "@) + w =~= item_source(items[i as int]) + w1);
        lemma_lex_item(items[i as int], w1);
        lemma_lex_symbol(Symbol::Comma, w2);
        lemma_lex_space(rest);
        lemma_lex_items(items, i + 1, w);
        assert(lex(joined(xs, ", "@) + w) =~= items_tokens(items, i) + lex(w));
    }
}

pub open spec fn tail_source(m: MessageModel) -> Seq<char> {
    " from "@ + m.from + " to "@ + m.to + ";"@
}

pub open spec fn tail_tokens(m: MessageModel) -> Seq<crate::parser::Tok> {
    seq![kw(Keyword::From), ident(m.from), kw(Keyword::To), ident(m.to), sym(Symbol::Semicolon)]
}

proof fn lemma_lex_tail(m: MessageModel)
    requires
        is_ident_text(m.from),
        is_ident_text(m.to),
    ensures
        lex(tail_source(m)) == tail_tokens(m),
        tail_source(m).len() > 0,
        tail_source(m)[0] == ' ',
{
    reveal_strlit(" from ");
    reveal_strlit(" to ");
    reveal_strlit(";");
    let e = Seq::<char>::empty();
    lemma_lex_symbol(Symbol::Semicolon, e);
    crate::lexer::lemma_lex_empty();
    let semi = seq![symbol_char(Symbol::Semicolon)];
    assert(semi + e =~= semi);
    lemma_ident_word(m.to, semi);
    let to_part = seq![' '] + (m.to + semi);
    lemma_lex_space(m.to + semi);
    lemma_keyword_word(Keyword::To, to_part);
    let to_kw = seq![' '] + (keyword_text(Keyword::To) + to_part);
    lemma_lex_space(keyword_text(Keyword::To) + to_part);
    lemma_ident_word(m.from, to_kw);
    let from_part = seq![' '] + (m.from + to_kw);
    lemma_lex_space(m.from + to_kw);
    lemma_keyword_word(Keyword::From, from_part);
    let tail = seq![' '] + (keyword_text(Keyword::From) + from_part);
    lemma_lex_space(keyword_text(Keyword::From) + from_part);
    assert(tail_source(m) =~= tail);
    assert(lex(tail) =~= tail_tokens(m));
}

/// The text of a message whose names are identifiers is read back as the
/// message's tokens.
pub proof fn printed_message_lexes_to_its_tokens(m: MessageModel)
    requires
        message_names_ok(m),
    ensures
        lex(message_source(m)) == message_tokens(m),
{
    reveal_strlit(" from ");
    reveal_strlit(" to ");
    reveal_strlit(";");
    reveal_strlit("(");
    reveal_strlit(")");
    lemma_lex_tail(m);
    let tail = tail_source(m);
    if m.payload.len() > 0 {
        let close = seq![symbol_char(Symbol::CloseBrace)] + tail;
        lemma_lex_symbol(Symbol::CloseBrace, tail);
        lemma_lex_items(m.payload, 0, close);
        assert(item_sources(m.payload).skip(0) =~= m.payload.map_values(|it: ItemModel| item_source(it)));
        let xs = m.payload.map_values(|it: ItemModel| item_source(it));
        let inner = joined(xs, ", "@);
        let open_rest = inner + close;
        let first = m.payload[0];
        assert(open_rest.len() > 0 && open_rest[0] != '*') by {
            if xs.len() >= 2 {
                lemma_joined_front(xs, ", "@);
            }
            lemma_item_source_start(first);
            assert(inner.len() > 0 && inner[0] == item_source(first)[0]);
        }
        lemma_lex_symbol(Symbol::OpenBrace, open_rest);
        let after_label = seq![symbol_char(Symbol::OpenBrace)] + open_rest;
        lemma_ident_word(m.label, after_label);
        assert(message_source(m) =~= m.label + after_label);
        assert(lex(message_source(m)) =~= message_tokens(m));
    } else {
        lemma_ident_word(m.label, tail);
        assert(message_source(m) =~= m.label + tail);
        assert(lex(message_source(m)) =~= message_tokens(m));
    }
}

proof fn lemma_item_source_start(it: ItemModel)
    requires
        item_names_ok(it),
    ensures
        item_source(it).len() > 0,
        item_source(it)[0] != '*',
{
    reveal_strlit(": ");
    lemma_type_source_start(it.ty);
}

proof fn lemma_type_source_start(t: TypeModel)
    requires
        type_names_ok(t),
    ensures
        type_source(t).len() > 0,
        is_ident_start(type_source(t)[0]),
    decreases t,
{
    reveal_strlit("bool");
    reveal_strlit("struct ");
    reveal_strlit("[");
    reveal_strlit("]");
    reveal_strlit("[]");
    reveal_strlit("i");
    reveal_strlit("u");
    match t {
        TypeModel::Array(b, _) => lemma_type_source_start(*b),
        _ => {},
    }
}

/// Printing a message whose names read as identifiers (as those of every
/// parsed message do) and parsing the text as a whole gives back the same
/// message: label, payload and roles.
pub fn print_then_parse(m: &Message) -> (r: Option<Message>)
    requires
        message_names_ok(m@),
        message_source(m@).len() <= MAX_SOURCE_LEN,
    ensures
        r matches Some(p) && p@ == m@,
{
    let text = m.to_source();
    proof {
        printed_message_lexes_to_its_tokens(m@);
    }
    let mut parser = Parser::new(text.as_str());
    proof {
        assert(parser.rest() =~= message_tokens(m@) + Seq::<crate::parser::Tok>::empty());
    }
    match parser.parse_message_expecting(Ghost(Some((m@, Seq::empty())))) {
        Ok(p) => {
            proof {
                parser.lemma_rest();
            }
            match parser.expect_token(TokenType::End) {
                Ok(_) => Some(p),
                Err(_) => None,
            }
        },
        Err(_) => None,
    }
}

} // verus!
