use toycc::passes::lexing::{lex, try_lex};
use toycc::shared::tokens::Token;

#[test]
fn lex_function_header() {
    let toks = lex("fun main() {");
    assert_eq!(
        toks,
        vec![
            Token::Function,
            Token::Identifier("main".to_string()),
            Token::LeftParen,
            Token::RightParen,
            Token::LeftBrace,
            Token::EOF,
        ]
    );
}

#[test]
fn lex_assignment_and_equality() {
    let toks = lex("x = a == 12;");
    assert_eq!(
        toks,
        vec![
            Token::Identifier("x".to_string()),
            Token::Assign,
            Token::Identifier("a".to_string()),
            Token::Equals,
            Token::IntLiteral(12),
            Token::Semicolon,
            Token::EOF,
        ]
    );
}

#[test]
fn lex_keywords_and_operators() {
    let toks = lex("if else while break continue return print + - * < % , ( ) { }");
    assert_eq!(
        toks,
        vec![
            Token::If,
            Token::Else,
            Token::While,
            Token::Break,
            Token::Continue,
            Token::Return,
            Token::Print,
            Token::Plus,
            Token::Minus,
            Token::Multiply,
            Token::Less,
            Token::Modulo,
            Token::Comma,
            Token::LeftParen,
            Token::RightParen,
            Token::LeftBrace,
            Token::RightBrace,
            Token::EOF,
        ]
    );
}

#[test]
fn lex_words_extend_as_far_as_they_can() {
    let toks = lex("iffy fun_2 x1y 007 2147483647");
    assert_eq!(
        toks,
        vec![
            Token::Identifier("iffy".to_string()),
            Token::Identifier("fun_2".to_string()),
            Token::Identifier("x1y".to_string()),
            Token::IntLiteral(7),
            Token::IntLiteral(2147483647),
            Token::EOF,
        ]
    );
}

#[test]
fn lex_number_then_word() {
    assert_eq!(lex("12ab"), vec![Token::IntLiteral(12), Token::Identifier("ab".to_string()), Token::EOF]);
}

#[test]
fn lex_white_space() {
    assert_eq!(lex(" \t\n\r\u{a0}\u{3000}"), vec![Token::EOF]);
    assert_eq!(lex(""), vec![Token::EOF]);
    assert_eq!(lex("a\u{2003}b"), vec![Token::Identifier("a".to_string()), Token::Identifier("b".to_string()), Token::EOF]);
}

#[test]
fn lex_assign_at_end() {
    assert_eq!(lex("="), vec![Token::Assign, Token::EOF]);
    assert_eq!(lex("==="), vec![Token::Equals, Token::Assign, Token::EOF]);
}

#[test]
fn try_lex_refuses_bad_input() {

    assert!(try_lex("x = 99999999999;").is_none());
    assert!(try_lex("x = 1 # 2;").is_none());
    assert_eq!(try_lex("x = 2147483647;").unwrap()[2], Token::IntLiteral(2147483647));
}

#[test]
fn one_eof_at_the_end_and_space_runs_do_not_matter() {
    let a = lex("fun main() { print(1 == 2); }");
    let b = lex("   fun    main()\n\t{ print(1   ==   2) ;   }   ");
    assert_eq!(a, b);
    assert_eq!(a.last(), Some(&Token::EOF));
    assert_eq!(a.iter().filter(|t| **t == Token::EOF).count(), 1);
}
