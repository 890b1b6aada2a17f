use obbidl::lexer::{tokenize, Lexer};
use obbidl::token::{Keyword, Symbol, TokenType};

#[test]
fn test_lex_ident() {
    let mut lexer = Lexer::new("something");
    assert_eq!(lexer.next_token().ty, TokenType::Ident);
    assert_eq!(lexer.next_token().ty, TokenType::End);
}

#[test]
fn test_lex_keyword() {
    let mut lexer = Lexer::new("protocol");
    assert_eq!(lexer.next_token().ty, TokenType::Keyword(Keyword::Protocol));
    assert_eq!(lexer.next_token().ty, TokenType::End);
}

#[test]
fn test_lex_whitespace() {
    let mut lexer = Lexer::new("         ");
    assert_eq!(lexer.next_token().ty, TokenType::End);
}

#[test]
fn test_lex_symbol() {
    let mut lexer = Lexer::new("{ }");
    assert_eq!(lexer.next_token().ty, TokenType::Symbol(Symbol::OpenCurlyBrace));
    assert_eq!(lexer.next_token().ty, TokenType::Symbol(Symbol::CloseCurlyBrace));
    assert_eq!(lexer.next_token().ty, TokenType::End);
}

#[test]
fn text_lex_line_comment() {
    let mut lexer = Lexer::new("(*) line comment");
    assert_eq!(lexer.next_token().ty, TokenType::End);
}

#[test]
fn text_lex_multi_line_comment() {
    let mut lexer = Lexer::new("(* multi \n line \n comment *)");
    assert_eq!(lexer.next_token().ty, TokenType::End);
}

#[test]
fn text_lex_nested_comments() {
    let mut lexer = Lexer::new("(* (* something *) *)");
    assert_eq!(lexer.next_token().ty, TokenType::End);
}

#[test]
fn test_lex_invalid() {
    let mut lexer = Lexer::new(".");
    assert_eq!(lexer.next_token().ty, TokenType::Invalid);
    assert_eq!(lexer.next_token().ty, TokenType::End);
}

#[test]
fn lex_positions_advance_by_column_and_line() {
    let mut lexer = Lexer::new("a\n  bc");
    let a = lexer.next_token();
    assert_eq!((a.start.line, a.start.column, a.start.offset), (1, 1, 0));
    let bc = lexer.next_token();
    assert_eq!(bc.contents, "bc");
    assert_eq!((bc.start.line, bc.start.column, bc.start.offset), (2, 3, 4));
    assert_eq!((bc.end.line, bc.end.column, bc.end.offset), (2, 5, 6));
}

#[test]
fn lex_unterminated_comment_runs_to_end() {
    let mut lexer = Lexer::new("X (* never closed");
    assert_eq!(lexer.next_token().ty, TokenType::Ident);
    assert_eq!(lexer.next_token().ty, TokenType::End);
}

#[test]
fn lex_integer_and_keywords() {
    let mut lexer = Lexer::new("u8[16] struct string");
    assert_eq!(lexer.next_token().ty, TokenType::Keyword(Keyword::U8));
    assert_eq!(lexer.next_token().ty, TokenType::Symbol(Symbol::OpenSquareBrace));
    let n = lexer.next_token();
    assert_eq!(n.ty, TokenType::Integer);
    assert_eq!(n.contents, "16");
    assert_eq!(lexer.next_token().ty, TokenType::Symbol(Symbol::CloseSquareBrace));
    assert_eq!(lexer.next_token().ty, TokenType::Keyword(Keyword::Struct));
    assert_eq!(lexer.next_token().ty, TokenType::Ident);
    assert_eq!(lexer.next_token().ty, TokenType::End);
}

#[test]
fn lex_relexing_contents_gives_same_tokens() {
    let source = "protocol P(role C,role S){X(a:u8[3])from C to S;}(* c *)#\n(*) note\nfin";
    let tokens = tokenize(source);
    let mut joined = String::new();
    for t in &tokens {
        joined.push_str(t.contents);
        joined.push(' ');
    }
    let again = tokenize(&joined);
    assert_eq!(again.len(), tokens.len());
    for (a, b) in again.iter().zip(tokens.iter()) {
        assert_eq!((a.ty, a.contents), (b.ty, b.contents));
    }
    assert_eq!(tokens.last().unwrap().ty, TokenType::Keyword(Keyword::Fin));
}
