use toycc::passes::cmir_to_lir::lower_cmir;
use toycc::passes::concretize_mir::concretize_mir;
use toycc::passes::hir_to_mir::MIRBuilder;
use toycc::passes::lexing::lex;
use toycc::passes::make_hir::{lower_ast, try_lower_ast};
use toycc::passes::parse::Parser;
use toycc::shared::definitions::{BinaryOperator, NewtypeId};
use toycc::shared::tables::GenericShape;
use toycc::shared::tokens::Token;
use toycc::shared::typing::{GenericType, PrimType};
use toycc::stages::ast::{ASTExpression, ASTLValue, ASTStatement};

fn id(s: &str) -> Token {
    Token::Identifier(s.to_string())
}

fn name_of(e: &ASTExpression) -> &str {
    match e {
        ASTExpression::Variable(n) => n.as_str(),
        other => panic!("not a variable: {:?}", other),
    }
}

/// struct Point { y: int, x: int, }
/// fun main() { let p: Point = Point { x: 1, y: 2, }; p.x = p.y + 3 * 4; print(p.x); }
fn point_program() -> Vec<Token> {
    vec![
        Token::Struct, id("Point"), Token::LeftBrace,
        id("y"), Token::Colon, Token::Int, Token::Comma,
        id("x"), Token::Colon, Token::Int, Token::Comma,
        Token::RightBrace,
        Token::Function, id("main"), Token::LeftParen, Token::RightParen, Token::LeftBrace,
        Token::Let, id("p"), Token::Colon, id("Point"), Token::Assign,
        id("Point"), Token::LeftBrace, id("x"), Token::Colon, Token::IntLiteral(1), Token::Comma,
        id("y"), Token::Colon, Token::IntLiteral(2), Token::Comma, Token::RightBrace, Token::Semicolon,
        id("p"), Token::Dot, id("x"), Token::Assign,
        id("p"), Token::Dot, id("y"), Token::Plus, Token::IntLiteral(3), Token::Multiply, Token::IntLiteral(4), Token::Semicolon,
        Token::Print, Token::LeftParen, id("p"), Token::Dot, id("x"), Token::RightParen, Token::Semicolon,
        Token::RightBrace,
    ]
}

#[test]
fn parse_struct_definition_sorts_fields() {
    let program = Parser::parse_program(point_program());
    assert_eq!(program.typetable.defs.len(), 1);
    let (name, def) = &program.typetable.defs[0];
    assert_eq!(*name, NewtypeId("Point".to_string()));
    assert!(def.type_params.is_empty());
    match &def.defn {
        GenericShape::Struct { fields } => {
            let names: Vec<&str> = fields.iter().map(|f| f.0.as_str()).collect();
            assert_eq!(names, vec!["x", "y"]);
            assert_eq!(fields[0].1, GenericType::Prim(PrimType::Integer));
        }
        other => panic!("unexpected shape {:?}", other),
    }
}

#[test]
fn parse_function_body() {
    let program = Parser::parse_program(point_program());
    assert_eq!(program.functions.len(), 1);
    let (sig, main) = &program.functions[0];
    assert_eq!(sig.name, "main");
    assert!(sig.argtypes.is_empty());
    assert_eq!(main.ret_type, GenericType::Prim(PrimType::Unit));
    assert_eq!(main.body.len(), 3);
    match &main.body[0] {
        ASTStatement::Let { var, value } => {
            assert_eq!(var.name, "p");
            assert_eq!(var.typ, GenericType::NewType(NewtypeId("Point".to_string()), vec![]));
            match value {
                ASTExpression::StructLiteral { typ, fields } => {
                    assert_eq!(*typ, GenericType::NewType(NewtypeId("Point".to_string()), vec![]));
                    assert_eq!(fields.len(), 2);
                    assert_eq!(fields[0].0, "x");
                    assert!(matches!(fields[0].1, ASTExpression::IntLiteral(1)));
                }
                other => panic!("unexpected value {:?}", other),
            }
        }
        other => panic!("unexpected statement {:?}", other),
    }
    match &main.body[1] {
        ASTStatement::Assign { target, value } => {
            match target {
                ASTLValue::FieldAccess { of, field } => {
                    assert_eq!(field, "x");
                    assert!(matches!(**of, ASTLValue::Variable(ref n) if n == "p"));
                }
                other => panic!("unexpected target {:?}", other),
            }
            // p.y + (3 * 4): multiplication binds tighter
            match value {
                ASTExpression::BinOp { op, left, right } => {
                    assert_eq!(*op, BinaryOperator::Add);
                    assert!(matches!(**left, ASTExpression::FieldAccess { .. }));
                    match &**right {
                        ASTExpression::BinOp { op, .. } => assert_eq!(*op, BinaryOperator::Mul),
                        other => panic!("unexpected operand {:?}", other),
                    }
                }
                other => panic!("unexpected value {:?}", other),
            }
        }
        other => panic!("unexpected statement {:?}", other),
    }
    assert!(matches!(main.body[2], ASTStatement::Print(ASTExpression::FieldAccess { .. })));
}

#[test]
fn parse_binary_operators_associate_to_the_left() {
    // fun f(a: int, b: int, c: int) -> int { return a - b - c; }
    let toks = vec![
        Token::Function, id("f"), Token::LeftParen,
        id("a"), Token::Colon, Token::Int, Token::Comma,
        id("b"), Token::Colon, Token::Int, Token::Comma,
        id("c"), Token::Colon, Token::Int,
        Token::RightParen, Token::RightArrow, Token::Int, Token::LeftBrace,
        Token::Return, id("a"), Token::Minus, id("b"), Token::Minus, id("c"), Token::Semicolon,
        Token::RightBrace,
    ];
    let program = Parser::parse_program(toks);
    let (sig, f) = &program.functions[0];
    assert_eq!(sig.argtypes.len(), 3);
    assert_eq!(f.ret_type, GenericType::Prim(PrimType::Integer));
    let names: Vec<&str> = f.args.iter().map(|a| a.0.as_str()).collect();
    assert_eq!(names, vec!["a", "b", "c"]);
    match &f.body[0] {
        ASTStatement::Return(ASTExpression::BinOp { op, left, right }) => {
            assert_eq!(*op, BinaryOperator::Sub);
            assert_eq!(name_of(right), "c");
            match &**left {
                ASTExpression::BinOp { op, left, right } => {
                    assert_eq!(*op, BinaryOperator::Sub);
                    assert_eq!(name_of(left), "a");
                    assert_eq!(name_of(right), "b");
                }
                other => panic!("unexpected operand {:?}", other),
            }
        }
        other => panic!("unexpected statement {:?}", other),
    }
}

#[test]
fn parse_control_flow_and_references() {
    // fun g(r: &int) { while ^r < 3 { if true { break; } else { continue; } } r ^ r = 1; }
    // (the second statement stores 1 through the reference r)
    let toks = vec![
        Token::Function, id("g"), Token::LeftParen, id("r"), Token::Colon, Token::Ref, Token::Int, Token::RightParen,
        Token::LeftBrace,
        Token::While, Token::Deref, id("r"), Token::Less, Token::IntLiteral(3), Token::LeftBrace,
        Token::If, Token::True, Token::LeftBrace, Token::Break, Token::Semicolon, Token::RightBrace,
        Token::Else, Token::LeftBrace, Token::Continue, Token::Semicolon, Token::RightBrace,
        Token::RightBrace,
        id("r"), Token::Deref, id("r"), Token::Assign, Token::IntLiteral(1), Token::Semicolon,
        Token::RightBrace,
    ];
    let program = Parser::parse_program(toks);
    let (_, g) = &program.functions[0];
    assert_eq!(g.args[0].1, GenericType::Reference(Box::new(GenericType::Prim(PrimType::Integer))));
    match &g.body[0] {
        ASTStatement::While { condition, body } => {
            match condition {
                ASTExpression::BinOp { op, left, .. } => {
                    assert_eq!(*op, BinaryOperator::Less);
                    assert!(matches!(**left, ASTExpression::Dereference(_)));
                }
                other => panic!("unexpected condition {:?}", other),
            }
            match &body[0] {
                ASTStatement::If { condition, if_body, else_body } => {
                    assert!(matches!(condition, ASTExpression::BoolTrue));
                    assert!(matches!(if_body[0], ASTStatement::Break));
                    assert!(matches!(else_body.as_ref().unwrap()[0], ASTStatement::Continue));
                }
                other => panic!("unexpected statement {:?}", other),
            }
        }
        other => panic!("unexpected statement {:?}", other),
    }
    match &g.body[1] {
        ASTStatement::Assign { target: ASTLValue::Deref(e), value } => {
            assert_eq!(name_of(e), "r");
            assert!(matches!(value, ASTExpression::IntLiteral(1)));
        }
        other => panic!("unexpected statement {:?}", other),
    }
}

#[test]
fn parse_rejects_malformed_programs() {
    // a missing semicolon
    let toks = vec![
        Token::Function, id("main"), Token::LeftParen, Token::RightParen, Token::LeftBrace,
        Token::Print, Token::LeftParen, Token::IntLiteral(1), Token::RightParen,
        Token::RightBrace,
    ];
    assert!(Parser::try_parse_program(toks).is_none());
    // a top-level item that is neither a struct nor a function
    assert!(Parser::try_parse_program(vec![Token::Let]).is_none());
    // a struct literal of an undefined struct is a variable, followed by a stray brace
    let toks = vec![
        Token::Function, id("main"), Token::LeftParen, Token::RightParen, Token::LeftBrace,
        Token::Let, id("p"), Token::Colon, Token::Int, Token::Assign,
        id("Q"), Token::LeftBrace, Token::RightBrace, Token::Semicolon,
        Token::RightBrace,
    ];
    assert!(Parser::try_parse_program(toks).is_none());
    // running out of tokens
    assert!(Parser::try_parse_program(vec![Token::Function, id("main")]).is_none());
    // the empty program
    let empty = Parser::try_parse_program(vec![]).unwrap();
    assert!(empty.functions.is_empty());
}

#[test]
fn parse_replaces_a_function_with_the_same_signature() {
    // fun f() { print(1); } fun f() { print(2); }
    let mut toks = Vec::new();
    for n in [1, 2] {
        toks.extend(vec![
            Token::Function, id("f"), Token::LeftParen, Token::RightParen, Token::LeftBrace,
            Token::Print, Token::LeftParen, Token::IntLiteral(n), Token::RightParen, Token::Semicolon,
            Token::RightBrace,
        ]);
    }
    let program = Parser::parse_program(toks);
    assert_eq!(program.functions.len(), 1);
    assert!(matches!(program.functions[0].1.body[0], ASTStatement::Print(ASTExpression::IntLiteral(2))));
}

#[test]
fn parse_lexed_text() {
    let mut toks = lex("fun main() { print(1 + 2 * 3); }");
    assert_eq!(toks.pop(), Some(Token::EOF));
    let program = Parser::parse_program(toks);
    assert_eq!(program.functions.len(), 1);
    assert_eq!(program.functions[0].1.name, "main");
}

#[test]
fn text_goes_through_every_pass() {
    let mut toks = lex("fun main() { print(1 + 2 * 3); }");
    toks.pop();
    let ast = Parser::parse_program(toks);
    let hir = lower_ast(ast);
    let mir = MIRBuilder::lower_hir(hir);
    let cmir = concretize_mir(mir).unwrap();
    let lir = lower_cmir(cmir);
    assert_eq!(lir.functions.len(), 1);
}

#[test]
fn struct_literal_may_precede_its_definition() {
    // fun main() { let p: P = P { x: 1, }; } struct P { x: int, }
    let toks = vec![
        Token::Function, id("main"), Token::LeftParen, Token::RightParen, Token::LeftBrace,
        Token::Let, id("p"), Token::Colon, id("P"), Token::Assign,
        id("P"), Token::LeftBrace, id("x"), Token::Colon, Token::IntLiteral(1), Token::Comma, Token::RightBrace,
        Token::Semicolon,
        Token::RightBrace,
        Token::Struct, id("P"), Token::LeftBrace, id("x"), Token::Colon, Token::Int, Token::Comma, Token::RightBrace,
    ];
    let program = Parser::try_parse_program(toks).unwrap();
    let main = &program.functions[0].1;
    assert_eq!(main.body.len(), 1);
    let p_type = GenericType::NewType(NewtypeId("P".to_string()), vec![]);
    match &main.body[0] {
        ASTStatement::Let { var, value } => {
            assert_eq!(var.name, "p");
            assert_eq!(var.typ, p_type);
            match value {
                ASTExpression::StructLiteral { typ, fields } => {
                    assert_eq!(*typ, p_type);
                    assert_eq!(fields.len(), 1);
                    assert_eq!(fields[0].0, "x");
                    assert!(matches!(fields[0].1, ASTExpression::IntLiteral(1)));
                }
                other => panic!("unexpected value {:?}", other),
            }
        }
        other => panic!("unexpected statement {:?}", other),
    }
}

#[test]
fn struct_literal_without_trailing_comma() {
    // struct P { x: int, y: int, } fun main() { let p: P = P { x: 1, y: 2 }; }
    let toks = vec![
        Token::Struct, id("P"), Token::LeftBrace,
        id("x"), Token::Colon, Token::Int, Token::Comma,
        id("y"), Token::Colon, Token::Int, Token::Comma, Token::RightBrace,
        Token::Function, id("main"), Token::LeftParen, Token::RightParen, Token::LeftBrace,
        Token::Let, id("p"), Token::Colon, id("P"), Token::Assign,
        id("P"), Token::LeftBrace, id("x"), Token::Colon, Token::IntLiteral(1), Token::Comma,
        id("y"), Token::Colon, Token::IntLiteral(2), Token::RightBrace, Token::Semicolon,
        Token::RightBrace,
    ];
    let program = Parser::try_parse_program(toks).unwrap();
    match &program.functions[0].1.body[0] {
        ASTStatement::Let { value: ASTExpression::StructLiteral { fields, .. }, .. } => {
            assert_eq!(fields.len(), 2);
            assert_eq!(fields[0].0, "x");
            assert!(matches!(fields[0].1, ASTExpression::IntLiteral(1)));
            assert_eq!(fields[1].0, "y");
            assert!(matches!(fields[1].1, ASTExpression::IntLiteral(2)));
        }
        other => panic!("unexpected statement {:?}", other),
    }
    // a single field with no comma, and two fields with no comma between them
    let single = vec![
        Token::Struct, id("P"), Token::LeftBrace, id("x"), Token::Colon, Token::Int, Token::Comma, Token::RightBrace,
        Token::Function, id("main"), Token::LeftParen, Token::RightParen, Token::LeftBrace,
        Token::Let, id("p"), Token::Colon, id("P"), Token::Assign,
        id("P"), Token::LeftBrace, id("x"), Token::Colon, Token::IntLiteral(1), Token::RightBrace, Token::Semicolon,
        Token::RightBrace,
    ];
    assert!(Parser::try_parse_program(single).is_some());
    let missing = vec![
        Token::Struct, id("P"), Token::LeftBrace, id("x"), Token::Colon, Token::Int, Token::Comma, Token::RightBrace,
        Token::Function, id("main"), Token::LeftParen, Token::RightParen, Token::LeftBrace,
        Token::Let, id("p"), Token::Colon, id("P"), Token::Assign,
        id("P"), Token::LeftBrace, id("x"), Token::Colon, Token::IntLiteral(1),
        id("y"), Token::Colon, Token::IntLiteral(2), Token::RightBrace, Token::Semicolon,
        Token::RightBrace,
    ];
    assert!(Parser::try_parse_program(missing).is_none());
}

#[test]
fn void_call_statement() {
    // fun f() { print(1); } fun main() { f(); }
    let toks = vec![
        Token::Function, id("f"), Token::LeftParen, Token::RightParen, Token::LeftBrace,
        Token::Print, Token::LeftParen, Token::IntLiteral(1), Token::RightParen, Token::Semicolon,
        Token::RightBrace,
        Token::Function, id("main"), Token::LeftParen, Token::RightParen, Token::LeftBrace,
        id("f"), Token::LeftParen, Token::RightParen, Token::Semicolon,
        Token::RightBrace,
    ];
    let program = Parser::try_parse_program(toks).unwrap();
    let main = &program.functions[1].1;
    assert_eq!(main.name, "main");
    assert_eq!(main.body.len(), 1);
    match &main.body[0] {
        ASTStatement::Call(ASTExpression::FuncCall { funcname, type_params, args }) => {
            assert_eq!(funcname, "f");
            assert!(type_params.is_empty());
            assert!(args.is_empty());
        }
        other => panic!("unexpected statement {:?}", other),
    }
}

#[test]
fn void_call_goes_through_every_pass() {
    let mut toks = lex("fun f() { print(1); } fun main() { f(); }");
    assert_eq!(toks.pop(), Some(Token::EOF));
    let ast = Parser::try_parse_program(toks).unwrap();
    let hir = lower_ast(ast);
    let mir = MIRBuilder::lower_hir(hir);
    let cmir = concretize_mir(mir).unwrap();
    let lir = lower_cmir(cmir);
    assert_eq!(lir.functions.len(), 2);
}

/// The tokens of a program written with a space between any two tokens.
fn words(text: &str) -> Vec<Token> {
    text.split_whitespace()
        .map(|w| match w {
            "fun" => Token::Function,
            "struct" => Token::Struct,
            "let" => Token::Let,
            "int" => Token::Int,
            "bool" => Token::Bool,
            "true" => Token::True,
            "false" => Token::False,
            "print" => Token::Print,
            "if" => Token::If,
            "else" => Token::Else,
            "while" => Token::While,
            "break" => Token::Break,
            "return" => Token::Return,
            "->" => Token::RightArrow,
            "(" => Token::LeftParen,
            ")" => Token::RightParen,
            "{" => Token::LeftBrace,
            "}" => Token::RightBrace,
            ":" => Token::Colon,
            ";" => Token::Semicolon,
            "," => Token::Comma,
            "." => Token::Dot,
            "=" => Token::Assign,
            "==" => Token::Equals,
            "<" => Token::Less,
            "+" => Token::Plus,
            "*" => Token::Multiply,
            _ => match w.parse::<i32>() {
                Ok(n) => Token::IntLiteral(n),
                Err(_) => id(w),
            },
        })
        .collect()
}

fn typecheck(text: &str) -> bool {
    let ast = Parser::try_parse_program(words(text)).expect("the text parses");
    try_lower_ast(ast).is_some()
}

#[test]
fn type_checking_accepts_well_typed_programs() {
    assert!(typecheck("fun main ( ) { print ( 1 + 2 * 3 ) ; }"));
    assert!(typecheck("struct P { x : int , } fun main ( ) { let p : P = P { x : 1 } ; print ( p . x == 1 ) ; }"));
    assert!(typecheck("fun f ( a : int ) -> int { return a + 1 ; } fun main ( ) { let b : int = f ( 2 ) ; while b < 10 { b = b + 1 ; } }"));
    let ast = Parser::try_parse_program(words("fun f ( ) { print ( 1 ) ; } fun main ( ) { f ( ) ; }")).unwrap();
    let hir = try_lower_ast(ast).unwrap();
    assert_eq!(hir.functions.len(), 2);
    assert_eq!(hir.entry, hir.functions[1].0);
}

#[test]
fn type_checking_rejects_ill_typed_programs() {
    // a value of the wrong type for its variable
    assert!(!typecheck("fun main ( ) { let x : int = true ; }"));
    // == on two structs
    assert!(!typecheck("struct P { x : int , } fun main ( ) { let p : P = P { x : 1 } ; print ( p == p ) ; }"));
    // a name that is not in scope
    assert!(!typecheck("fun main ( ) { print ( y ) ; }"));
    // a break outside any loop
    assert!(!typecheck("fun main ( ) { break ; }"));
    // a return of the wrong type
    assert!(!typecheck("fun f ( ) -> int { return true ; } fun main ( ) { print ( f ( ) ) ; }"));
    // a call of a function that does not exist
    assert!(!typecheck("fun main ( ) { g ( ) ; }"));
    // a struct literal that leaves a field out
    assert!(!typecheck("struct P { x : int , y : int , } fun main ( ) { let p : P = P { x : 1 } ; }"));
    // no main function
    assert!(!typecheck("fun f ( ) { print ( 1 ) ; }"));
}

#[test]
fn cyclic_struct_definitions_are_refused() {
    // struct A { b: B, } struct B { a: A, } fun main() { print(1); }
    assert!(Parser::try_parse_program(words("struct A { b : B , } struct B { a : A , } fun main ( ) { print ( 1 ) ; }")).is_none());
    // a struct holding itself
    assert!(Parser::try_parse_program(words("struct A { a : A , } fun main ( ) { print ( 1 ) ; }")).is_none());
    // a chain without a cycle is fine
    assert!(Parser::try_parse_program(words("struct A { b : B , } struct B { x : int , } fun main ( ) { print ( 1 ) ; }")).is_some());
}
