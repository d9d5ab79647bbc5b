use vstd::prelude::*;

use crate::shared::binops::BinaryOperator;

verus! {

#[derive(Debug, Clone, PartialEq)]
pub enum Token {
    // Operators
    Assign,
    Plus,
    Minus,
    Multiply,
    Equals,
    Less,
    Modulo,
    // Delimiters
    Semicolon,
    LeftParen,
    RightParen,
    LeftBrace,
    RightBrace,
    LeftSqBracket,
    RightSqBracket,
    Comma,
    Colon,
    Dot,
    // Values
    Identifier(String),
    // Literals
    True,
    False,
    IntLiteral(i32),
    // Keywords
    Print,
    If,
    Else,
    While,
    Break,
    Continue,
    Function,
    Return,
    Let,
    Struct,
    // Type stuff
    Int,
    Bool,
    RightArrow,
    Ref,
    Deref,
    /// The end of the input.
    EOF,
}

/// Mathematical model of a token: an identifier by its characters, any other token as it is.
pub enum TokenV {
    Ident(Seq<char>),
    Other(Token),
}

impl View for Token {
    type V = TokenV;

    open spec fn view(&self) -> TokenV {
        match self {
            Token::Identifier(s) => TokenV::Ident(s@),
            _ => TokenV::Other(*self),
        }
    }
}

pub open spec fn tokens_view(ts: Seq<Token>) -> Seq<TokenV> {
    ts.map_values(|t: Token| t@)
}

/// The tokens that connect two operands: the binary operators and the field access dot.
pub open spec fn is_connector(t: Token) -> bool {
    match t {
        Token::Dot | Token::Multiply | Token::Modulo | Token::Plus | Token::Minus | Token::Equals | Token::Less => true,
        _ => false,
    }
}

/// The tokens that stand for a binary operator.
pub open spec fn is_binop_token(t: Token) -> bool {
    match t {
        Token::Plus | Token::Minus | Token::Multiply | Token::Equals | Token::Less | Token::Modulo => true,
        _ => false,
    }
}

/// How tightly a connector binds: higher binds tighter.
pub open spec fn connector_precedence(t: Token) -> usize {
    match t {
        Token::Dot => 3,
        Token::Multiply | Token::Modulo => 2,
        Token::Plus | Token::Minus => 1,
        _ => 0,
    }
}

pub open spec fn binop_of_token(t: Token) -> BinaryOperator {
    match t {
        Token::Plus => BinaryOperator::Add,
        Token::Minus => BinaryOperator::Sub,
        Token::Multiply => BinaryOperator::Mul,
        Token::Equals => BinaryOperator::Equals,
        Token::Less => BinaryOperator::Less,
        _ => BinaryOperator::Modulo,
    }
}

pub fn get_connector_precedence(op_token: &Token) -> (r: usize)
    requires
        is_connector(*op_token),
    ensures
        r == connector_precedence(*op_token),
{
    match *op_token {
        Token::Dot => 3,
        Token::Multiply | Token::Modulo => 2,
        Token::Plus | Token::Minus => 1,
        _ => 0,
    }
}

pub fn map_binop_token(op_token: &Token) -> (r: BinaryOperator)
    requires
        is_binop_token(*op_token),
    ensures
        r == binop_of_token(*op_token),
{
    match *op_token {
        Token::Plus => BinaryOperator::Add,
        Token::Minus => BinaryOperator::Sub,
        Token::Multiply => BinaryOperator::Mul,
        Token::Equals => BinaryOperator::Equals,
        Token::Less => BinaryOperator::Less,
        _ => BinaryOperator::Modulo,
    }
}

} // verus!
