//! Unit tests of the lexer, over small inputs.

use pfrs::error::Error;
use pfrs::lexer::Lexer;
use pfrs::token::Token;

fn chars(s: &str) -> Vec<char> {
    s.chars().collect()
}

fn val(s: &str) -> Token {
    Token::Val(chars(s))
}

fn lex(s: &str) -> Vec<Token> {
    Lexer::from_str(String::from(s)).tokenize().unwrap()
}

#[test]
fn lex_keywords_and_values() {
    assert_eq!(
        lex("block from sip to dip"),
        vec![Token::Block, Token::From, val("sip"), Token::To, val("dip")]
    );
}

#[test]
fn lex_with_proto() {
    assert_eq!(
        lex("block proto udp from sip to dip"),
        vec![
            Token::Block,
            Token::Proto,
            val("udp"),
            Token::From,
            val("sip"),
            Token::To,
            val("dip")
        ]
    );
}

#[test]
fn lex_list_literal() {
    assert_eq!(
        lex("block from { a b } to ip"),
        vec![
            Token::Block,
            Token::From,
            Token::List(vec![chars("a"), chars("b")]),
            Token::To,
            val("ip")
        ]
    );
    assert_eq!(lex("{b}"), vec![Token::List(vec![chars("b")])]);
    assert_eq!(lex("{a  b}"), vec![Token::List(vec![chars("a"), chars("b")])]);
}

#[test]
fn lex_identifier_references() {
    assert_eq!(
        lex("block proto $var1 from $var2 to $var3"),
        vec![
            Token::Block,
            Token::Proto,
            Token::Ident(chars("var1")),
            Token::From,
            Token::Ident(chars("var2")),
            Token::To,
            Token::Ident(chars("var3"))
        ]
    );
    assert_eq!(lex("$var"), vec![Token::Ident(chars("var"))]);
}

#[test]
fn lex_definition_head() {
    assert_eq!(
        lex("var = val"),
        vec![Token::Def(chars("var")), Token::Assign, val("val")]
    );
    // a word glued to `=` is one plain value
    assert_eq!(lex("var=val"), vec![val("var=val")]);
}

#[test]
fn lex_single_tokens() {
    assert_eq!(lex("="), vec![Token::Assign]);
    assert_eq!(lex("\n"), vec![Token::Nl]);
    assert_eq!(lex("pass"), vec![Token::Pass]);
    assert_eq!(lex("all"), vec![Token::All]);
    assert_eq!(lex("on"), vec![Token::On]);
    assert_eq!(lex("port"), vec![Token::Port]);
}

#[test]
fn lex_collapses_newline_runs() {
    assert_eq!(
        lex("\n\n block proto a from b to c \n\n\n block proto d from e to f \n\n\n"),
        vec![
            Token::Nl,
            Token::Block,
            Token::Proto,
            val("a"),
            Token::From,
            val("b"),
            Token::To,
            val("c"),
            Token::Nl,
            Token::Block,
            Token::Proto,
            val("d"),
            Token::From,
            val("e"),
            Token::To,
            val("f"),
            Token::Nl,
        ]
    );
}

#[test]
fn lex_dollar_reaches_across_newlines() {
    // `$` takes the next word, even after blank space and newlines
    assert_eq!(lex("$ var"), vec![Token::Ident(chars("var"))]);
    assert_eq!(lex("$\nvar"), vec![Token::Ident(chars("var"))]);
}

#[test]
fn lex_error_messages_name_the_fault() {
    match Lexer::from_str(String::from("{ a \n b }")).tokenize() {
        Err(Error::Lex(m)) => assert_eq!(m, "unexpected newline in list"),
        other => panic!("expected a lex error, got {:?}", other.is_ok()),
    }
    match Lexer::from_str(String::from("{}")).tokenize() {
        Err(Error::Lex(m)) => assert_eq!(m, "no tokens inside list"),
        other => panic!("expected a lex error, got {:?}", other.is_ok()),
    }
    match Lexer::from_str(String::from("$")).tokenize() {
        Err(Error::Lex(m)) => assert_eq!(m, "invalid token `$`"),
        other => panic!("expected a lex error, got {:?}", other.is_ok()),
    }
}
