use vstd::prelude::*;
use vstd::string::StrSliceExecFns;

use crate::shared::depgraph::{definitions_acyclic, dep_table, graph_acyclic, graph_edges};
use crate::shared::definitions::{BinaryOperator, FuncSignature, GenTypeVariable, GenericFuncSignature, NewtypeId};
use crate::shared::tables::{fields_view, table_view, DefV, GenericShape, GenericTypeDef, GenericTypetable, ShapeV, TableV};
use crate::shared::tokens::{binop_of_token, connector_precedence, is_binop_token, tokens_view, Token, TokenV};
use crate::shared::typing::{generic_eq, generic_views, lemma_generic_views, GType, GenericType, PrimType};
use crate::stages::ast::{ASTExpression, ASTFunction, ASTLValue, ASTProgram, ASTStatement};

verus! {

// ---------------------------------------------------------------------------------------------
// A mathematical view of the syntax tree.

pub enum ExprA {
    Int(i32),
    Var(Seq<char>),
    BinOp(BinaryOperator, Box<ExprA>, Box<ExprA>),
    Call(Seq<char>, Seq<GType>, Seq<ExprA>),
    True,
    False,
    Field(Box<ExprA>, Seq<char>),
    Struct(GType, Seq<(Seq<char>, ExprA)>),
    Ref(Box<ExprA>),
    Deref(Box<ExprA>),
}

pub enum LValA {
    Var(Seq<char>),
    Field(Box<LValA>, Seq<char>),
    Deref(ExprA),
}

pub enum StmtA {
    Let(Seq<char>, GType, ExprA),
    Assign(LValA, ExprA),
    If(ExprA, Seq<StmtA>, Option<Seq<StmtA>>),
    While(ExprA, Seq<StmtA>),
    Break,
    Continue,
    Return(ExprA),
    Print(ExprA),
    Call(ExprA),
}

pub struct FuncA {
    pub name: Seq<char>,
    pub typvars: Seq<Seq<char>>,
    pub args: Seq<(Seq<char>, GType)>,
    pub body: Seq<StmtA>,
    pub ret: GType,
}

pub open spec fn expr_a(e: ASTExpression) -> ExprA
    decreases e, 1nat, 0nat,
{
    match e {
        ASTExpression::IntLiteral(n) => ExprA::Int(n),
        ASTExpression::Variable(name) => ExprA::Var(name@),
        ASTExpression::BinOp { op, left, right } => ExprA::BinOp(op, Box::new(expr_a(*left)), Box::new(expr_a(*right))),
        ASTExpression::FuncCall { funcname, type_params, args } => ExprA::Call(
            funcname@,
            generic_views(type_params@),
            args_a(e, args@.len() as int),
        ),
        ASTExpression::BoolTrue => ExprA::True,
        ASTExpression::BoolFalse => ExprA::False,
        ASTExpression::FieldAccess { expr, field } => ExprA::Field(Box::new(expr_a(*expr)), field@),
        ASTExpression::StructLiteral { typ, fields } => ExprA::Struct(typ@, lit_fields_a(e, fields@.len() as int)),
        ASTExpression::Reference(x) => ExprA::Ref(Box::new(expr_a(*x))),
        ASTExpression::Dereference(x) => ExprA::Deref(Box::new(expr_a(*x))),
    }
}

pub open spec fn args_a(e: ASTExpression, n: int) -> Seq<ExprA>
    decreases e, 0nat, n,
{
    if n <= 0 || !(e is FuncCall) || n > e->FuncCall_args@.len() {
        Seq::empty()
    } else {
        let args = e->FuncCall_args@;
        proof {
            assert(decreases_to!(e => e->FuncCall_args));
            assert(decreases_to!(e->FuncCall_args => args));
            assert(decreases_to!(args => args[n - 1]));
        }
        args_a(e, n - 1).push(expr_a(args[n - 1]))
    }
}

pub open spec fn lit_fields_a(e: ASTExpression, n: int) -> Seq<(Seq<char>, ExprA)>
    decreases e, 0nat, n,
{
    if n <= 0 || !(e is StructLiteral) || n > e->StructLiteral_fields@.len() {
        Seq::empty()
    } else {
        let fs = e->StructLiteral_fields@;
        proof {
            assert(decreases_to!(e => e->StructLiteral_fields));
            assert(decreases_to!(e->StructLiteral_fields => fs));
            assert(decreases_to!(fs => fs[n - 1]));
            assert(decreases_to!(fs[n - 1] => fs[n - 1].1));
        }
        lit_fields_a(e, n - 1).push((fs[n - 1].0@, expr_a(fs[n - 1].1)))
    }
}

pub open spec fn lval_a(l: ASTLValue) -> LValA
    decreases l,
{
    match l {
        ASTLValue::Variable(name) => LValA::Var(name@),
        ASTLValue::FieldAccess { of, field } => LValA::Field(Box::new(lval_a(*of)), field@),
        ASTLValue::Deref(e) => LValA::Deref(expr_a(e)),
    }
}

pub open spec fn stmt_a(s: ASTStatement) -> StmtA
    decreases s, 0nat,
{
    match s {
        ASTStatement::Let { var, value } => StmtA::Let(var.name@, var.typ@, expr_a(value)),
        ASTStatement::Assign { target, value } => StmtA::Assign(lval_a(target), expr_a(value)),
        ASTStatement::If { condition, if_body, else_body } => StmtA::If(
            expr_a(condition),
            block_a(if_body),
            match else_body {
                Some(b) => Some(block_a(b)),
                None => None,
            },
        ),
        ASTStatement::While { condition, body } => StmtA::While(expr_a(condition), block_a(body)),
        ASTStatement::Break => StmtA::Break,
        ASTStatement::Continue => StmtA::Continue,
        ASTStatement::Return(e) => StmtA::Return(expr_a(e)),
        ASTStatement::Print(e) => StmtA::Print(expr_a(e)),
        ASTStatement::Call(e) => StmtA::Call(expr_a(e)),
    }
}

pub open spec fn block_a(b: Vec<ASTStatement>) -> Seq<StmtA>
    decreases b, b@.len() + 1,
{
    stmts_a(b, b@.len() as int)
}

pub open spec fn stmts_a(b: Vec<ASTStatement>, n: int) -> Seq<StmtA>
    decreases b, n,
{
    if n <= 0 || n > b@.len() {
        Seq::empty()
    } else {
        proof {
            assert(decreases_to!(b => b@));
            assert(decreases_to!(b@ => b@[n - 1]));
        }
        stmts_a(b, n - 1).push(stmt_a(b@[n - 1]))
    }
}

pub open spec fn arg_list_a(args: Seq<(String, GenericType)>) -> Seq<(Seq<char>, GType)> {
    args.map_values(|a: (String, GenericType)| (a.0@, a.1@))
}

pub open spec fn func_a(f: ASTFunction) -> FuncA {
    FuncA {
        name: f.name@,
        typvars: f.typvars@.map_values(|v: String| v@),
        args: arg_list_a(f.args@),
        body: block_a(f.body),
        ret: f.ret_type@,
    }
}

// ---------------------------------------------------------------------------------------------
// The grammar.

/// The number of tokens from position `i` on.
pub open spec fn left(t: Seq<TokenV>, i: int) -> nat {
    if i >= t.len() { 0 } else { (t.len() - i) as nat }
}

/// Token `i` is the token `k`.
pub open spec fn is_tok(t: Seq<TokenV>, i: int, k: Token) -> bool {
    0 <= i < t.len() && t[i] == TokenV::Other(k)
}

/// `k` at `i`: the position after it.
pub open spec fn p_expect(t: Seq<TokenV>, i: int, k: Token) -> Option<int> {
    if is_tok(t, i, k) { Some(i + 1) } else { None }
}

/// An identifier at `i`.
pub open spec fn p_ident(t: Seq<TokenV>, i: int) -> Option<(Seq<char>, int)> {
    if 0 <= i < t.len() && t[i] is Ident { Some((t[i]->Ident_0, i + 1)) } else { None }
}

/// A type: `int`, `bool`, a struct's name, or a reference to a type.
pub open spec fn p_type(t: Seq<TokenV>, i: int) -> Option<(GType, int)>
    decreases left(t, i),
{
    if !(0 <= i < t.len()) {
        None
    } else {
        match t[i] {
            TokenV::Ident(name) => Some((GType::NewType(name, Seq::empty()), i + 1)),
            TokenV::Other(Token::Int) => Some((GType::Prim(PrimType::Integer), i + 1)),
            TokenV::Other(Token::Bool) => Some((GType::Prim(PrimType::Bool), i + 1)),
            TokenV::Other(Token::Ref) => match p_type(t, i + 1) {
                Some((x, j)) => Some((GType::Reference(Box::new(x)), j)),
                None => None,
            },
            _ => None,
        }
    }
}

/// Binary operator token at `j`.
pub open spec fn binop_at(t: Seq<TokenV>, j: int) -> bool {
    0 <= j < t.len() && t[j] is Other && is_binop_token(t[j]->Other_0)
}

/// The first position from `k` on that holds `name`, or -1.
pub open spec fn name_index<V>(fs: Seq<(Seq<char>, V)>, name: Seq<char>, k: int) -> int
    decreases fs.len() - k,
{
    if k < 0 || k >= fs.len() {
        -1
    } else if fs[k].0 == name {
        k
    } else {
        name_index(fs, name, k + 1)
    }
}

/// Sets the entry for `name`: a later value replaces the earlier one in place.
pub open spec fn set_field<V>(fs: Seq<(Seq<char>, V)>, name: Seq<char>, v: V) -> Seq<(Seq<char>, V)> {
    let k = name_index(fs, name, 0);
    if k >= 0 { fs.update(k, (name, v)) } else { fs.push((name, v)) }
}

/// An expression whose operators bind at least as tightly as `level`; `known` holds the names
/// of the structs the program defines, which decide whether `name {` starts a struct literal.
pub open spec fn p_expr(t: Seq<TokenV>, known: Seq<Seq<char>>, i: int, level: nat) -> Option<(ExprA, int)>
    decreases left(t, i), 3nat,
{
    if !(0 <= i < t.len()) {
        None
    } else {
        match p_unary(t, known, i) {
            Some((e, j)) => if j <= i { None } else { p_binloop(t, known, j, level, e) },
            None => None,
        }
    }
}

/// Binary operators binding at least as tightly as `level`, applied left to right to `lhs`.
pub open spec fn p_binloop(t: Seq<TokenV>, known: Seq<Seq<char>>, j: int, level: nat, lhs: ExprA) -> Option<(ExprA, int)>
    decreases left(t, j), 4nat,
{
    if !(0 <= j < t.len()) {
        None
    } else if binop_at(t, j) && connector_precedence(t[j]->Other_0) >= level {
        let tok = t[j]->Other_0;
        match p_expr(t, known, j + 1, (connector_precedence(tok) + 1) as nat) {
            Some((rhs, m)) => if m <= j {
                None
            } else {
                p_binloop(t, known, m, level, ExprA::BinOp(binop_of_token(tok), Box::new(lhs), Box::new(rhs)))
            },
            None => None,
        }
    } else {
        Some((lhs, j))
    }
}

/// `&` and `^` prefixes, then a postfix expression.
pub open spec fn p_unary(t: Seq<TokenV>, known: Seq<Seq<char>>, i: int) -> Option<(ExprA, int)>
    decreases left(t, i), 2nat,
{
    if !(0 <= i < t.len()) {
        None
    } else if t[i] == TokenV::Other(Token::Ref) {
        match p_unary(t, known, i + 1) {
            Some((e, j)) => Some((ExprA::Ref(Box::new(e)), j)),
            None => None,
        }
    } else if t[i] == TokenV::Other(Token::Deref) {
        match p_unary(t, known, i + 1) {
            Some((e, j)) => Some((ExprA::Deref(Box::new(e)), j)),
            None => None,
        }
    } else {
        match p_atom(t, known, i) {
            Some((e, j)) => p_dots(t, j, e),
            None => None,
        }
    }
}

/// Field accesses `.name` applied to `e`.
pub open spec fn p_dots(t: Seq<TokenV>, j: int, e: ExprA) -> Option<(ExprA, int)>
    decreases left(t, j),
{
    if !(0 <= j < t.len()) {
        None
    } else if t[j] == TokenV::Other(Token::Dot) {
        match p_ident(t, j + 1) {
            Some((field, m)) => p_dots(t, m, ExprA::Field(Box::new(e), field)),
            None => None,
        }
    } else {
        Some((e, j))
    }
}

/// A literal, a variable, a call, a struct literal, or an expression in parentheses.
pub open spec fn p_atom(t: Seq<TokenV>, known: Seq<Seq<char>>, i: int) -> Option<(ExprA, int)>
    decreases left(t, i), 0nat,
{
    if !(0 <= i < t.len()) {
        None
    } else {
        match t[i] {
            TokenV::Other(Token::IntLiteral(n)) => Some((ExprA::Int(n), i + 1)),
            TokenV::Other(Token::True) => Some((ExprA::True, i + 1)),
            TokenV::Other(Token::False) => Some((ExprA::False, i + 1)),
            TokenV::Other(Token::LeftParen) => match p_expr(t, known, i + 1, 0) {
                Some((e, j)) => match p_expect(t, j, Token::RightParen) {
                    Some(m) => Some((e, m)),
                    None => None,
                },
                None => None,
            },
            TokenV::Ident(name) => if !(i + 1 < t.len()) {
                None
            } else if t[i + 1] == TokenV::Other(Token::LeftParen) {
                match p_call_args(t, known, i + 2) {
                    Some((args, j)) => match p_expect(t, j, Token::RightParen) {
                        Some(m) => Some((ExprA::Call(name, Seq::empty(), args), m)),
                        None => None,
                    },
                    None => None,
                }
            } else if t[i + 1] == TokenV::Other(Token::LeftBrace) && known.contains(name) {
                match p_expect(t, i + 1, Token::LeftBrace) {
                    Some(j) => match p_lit_fields(t, known, j, Seq::empty()) {
                        Some((fs, m)) => Some((ExprA::Struct(GType::NewType(name, Seq::empty()), fs), m)),
                        None => None,
                    },
                    None => None,
                }
            } else {
                Some((ExprA::Var(name), i + 1))
            },
            _ => None,
        }
    }
}

/// The arguments of a call, up to (not including) the closing parenthesis.
pub open spec fn p_call_args(t: Seq<TokenV>, known: Seq<Seq<char>>, i: int) -> Option<(Seq<ExprA>, int)>
    decreases left(t, i), 4nat,
{
    if !(0 <= i < t.len()) {
        None
    } else if t[i] == TokenV::Other(Token::RightParen) {
        Some((Seq::empty(), i))
    } else {
        match p_expr(t, known, i, 0) {
            Some((e, j)) => if j <= i { None } else { p_more_args(t, known, j, seq![e]) },
            None => None,
        }
    }
}

pub open spec fn p_more_args(t: Seq<TokenV>, known: Seq<Seq<char>>, j: int, acc: Seq<ExprA>) -> Option<(Seq<ExprA>, int)>
    decreases left(t, j), 4nat,
{
    if !(0 <= j < t.len()) {
        None
    } else if t[j] == TokenV::Other(Token::Comma) {
        match p_expr(t, known, j + 1, 0) {
            Some((e, m)) => if m <= j { None } else { p_more_args(t, known, m, acc.push(e)) },
            None => None,
        }
    } else {
        Some((acc, j))
    }
}

/// The fields `name: value` of a struct literal, separated by commas, with an optional comma
/// after the last one, up to and including the closing brace.
pub open spec fn p_lit_fields(t: Seq<TokenV>, known: Seq<Seq<char>>, j: int, acc: Seq<(Seq<char>, ExprA)>) -> Option<(Seq<(Seq<char>, ExprA)>, int)>
    decreases left(t, j), 4nat,
{
    if is_tok(t, j, Token::RightBrace) {
        Some((acc, j + 1))
    } else {
        match p_ident(t, j) {
            Some((name, j1)) => match p_expect(t, j1, Token::Colon) {
                Some(j2) => match p_expr(t, known, j2, 0) {
                    Some((v, m)) => if is_tok(t, m, Token::Comma) {
                        if m + 1 <= j { None } else { p_lit_fields(t, known, m + 1, set_field(acc, name, v)) }
                    } else if is_tok(t, m, Token::RightBrace) {
                        Some((set_field(acc, name, v), m + 1))
                    } else {
                        None
                    },
                    None => None,
                },
                None => None,
            },
            None => None,
        }
    }
}

/// An assignment target: a variable followed by field accesses, or `name ^ expression`,
/// which stores through the reference the expression yields.
pub open spec fn p_lvalue(t: Seq<TokenV>, known: Seq<Seq<char>>, i: int) -> Option<(LValA, int)> {
    match p_ident(t, i) {
        Some((root, j)) => if !(j < t.len()) {
            None
        } else if t[j] == TokenV::Other(Token::Deref) {
            match p_expr(t, known, j + 1, 0) {
                Some((e, m)) => Some((LValA::Deref(e), m)),
                None => None,
            }
        } else {
            p_ldots(t, j, LValA::Var(root))
        },
        None => None,
    }
}

pub open spec fn p_ldots(t: Seq<TokenV>, j: int, l: LValA) -> Option<(LValA, int)>
    decreases left(t, j),
{
    if !(0 <= j < t.len()) {
        None
    } else if t[j] == TokenV::Other(Token::Dot) {
        match p_ident(t, j + 1) {
            Some((field, m)) => p_ldots(t, m, LValA::Field(Box::new(l), field)),
            None => None,
        }
    } else {
        Some((l, j))
    }
}

/// A statement.
pub open spec fn p_stmt(t: Seq<TokenV>, known: Seq<Seq<char>>, i: int) -> Option<(StmtA, int)>
    decreases left(t, i), 2nat,
{
    if !(0 <= i < t.len()) {
        None
    } else {
        match t[i] {
            TokenV::Other(Token::Let) => match p_ident(t, i + 1) {
                Some((name, j1)) => match p_expect(t, j1, Token::Colon) {
                    Some(j2) => match p_type(t, j2) {
                        Some((ty, j3)) => match p_expect(t, j3, Token::Assign) {
                            Some(j4) => match p_expr(t, known, j4, 0) {
                                Some((v, j5)) => match p_expect(t, j5, Token::Semicolon) {
                                    Some(j6) => Some((StmtA::Let(name, ty, v), j6)),
                                    None => None,
                                },
                                None => None,
                            },
                            None => None,
                        },
                        None => None,
                    },
                    None => None,
                },
                None => None,
            },
            TokenV::Ident(_) => if is_tok(t, i + 1, Token::LeftParen) {
                match p_atom(t, known, i) {
                    Some((e, j1)) => match p_expect(t, j1, Token::Semicolon) {
                        Some(j2) => Some((StmtA::Call(e), j2)),
                        None => None,
                    },
                    None => None,
                }
            } else {
                match p_lvalue(t, known, i) {
                    Some((target, j1)) => match p_expect(t, j1, Token::Assign) {
                        Some(j2) => match p_expr(t, known, j2, 0) {
                            Some((v, j3)) => match p_expect(t, j3, Token::Semicolon) {
                                Some(j4) => Some((StmtA::Assign(target, v), j4)),
                                None => None,
                            },
                            None => None,
                        },
                        None => None,
                    },
                    None => None,
                }
            },
            TokenV::Other(Token::If) => match p_expr(t, known, i + 1, 0) {
                Some((c, j1)) => if j1 <= i { None } else {
                    match p_block(t, known, j1) {
                        Some((b, j2)) => if is_tok(t, j2, Token::Else) {
                            if j2 + 1 <= i { None } else {
                                match p_block(t, known, j2 + 1) {
                                    Some((eb, j3)) => Some((StmtA::If(c, b, Some(eb)), j3)),
                                    None => None,
                                }
                            }
                        } else {
                            Some((StmtA::If(c, b, None), j2))
                        },
                        None => None,
                    }
                },
                None => None,
            },
            TokenV::Other(Token::While) => match p_expr(t, known, i + 1, 0) {
                Some((c, j1)) => if j1 <= i { None } else {
                    match p_block(t, known, j1) {
                        Some((b, j2)) => Some((StmtA::While(c, b), j2)),
                        None => None,
                    }
                },
                None => None,
            },
            TokenV::Other(Token::Break) => match p_expect(t, i + 1, Token::Semicolon) {
                Some(j) => Some((StmtA::Break, j)),
                None => None,
            },
            TokenV::Other(Token::Continue) => match p_expect(t, i + 1, Token::Semicolon) {
                Some(j) => Some((StmtA::Continue, j)),
                None => None,
            },
            TokenV::Other(Token::Return) => match p_expr(t, known, i + 1, 0) {
                Some((e, j1)) => match p_expect(t, j1, Token::Semicolon) {
                    Some(j2) => Some((StmtA::Return(e), j2)),
                    None => None,
                },
                None => None,
            },
            TokenV::Other(Token::Print) => match p_expect(t, i + 1, Token::LeftParen) {
                Some(j1) => match p_expr(t, known, j1, 0) {
                    Some((e, j2)) => match p_expect(t, j2, Token::RightParen) {
                        Some(j3) => match p_expect(t, j3, Token::Semicolon) {
                            Some(j4) => Some((StmtA::Print(e), j4)),
                            None => None,
                        },
                        None => None,
                    },
                    None => None,
                },
                None => None,
            },
            _ => None,
        }
    }
}

/// A block: statements in braces.
pub open spec fn p_block(t: Seq<TokenV>, known: Seq<Seq<char>>, i: int) -> Option<(Seq<StmtA>, int)>
    decreases left(t, i), 1nat,
{
    if !(0 <= i < t.len()) {
        None
    } else {
        match p_expect(t, i, Token::LeftBrace) {
            Some(j) => p_stmts(t, known, j, Seq::empty()),
            None => None,
        }
    }
}

/// Statements up to and including the closing brace.
pub open spec fn p_stmts(t: Seq<TokenV>, known: Seq<Seq<char>>, j: int, acc: Seq<StmtA>) -> Option<(Seq<StmtA>, int)>
    decreases left(t, j), 3nat,
{
    if !(0 <= j < t.len()) {
        None
    } else if t[j] == TokenV::Other(Token::RightBrace) {
        Some((acc, j + 1))
    } else {
        match p_stmt(t, known, j) {
            Some((st, m)) => if m <= j { None } else { p_stmts(t, known, m, acc.push(st)) },
            None => None,
        }
    }
}

/// The field `name` gets type `ty`; fields are kept in order of their names, and a later
/// declaration of a field replaces the earlier one.
pub open spec fn insert_field(fs: Seq<(Seq<char>, GType)>, name: Seq<char>, ty: GType) -> Seq<(Seq<char>, GType)> {
    let k = name_index(fs, name, 0);
    if k >= 0 {
        fs.update(k, (name, ty))
    } else {
        fs.insert(insert_position(fs, name, 0), (name, ty))
    }
}

/// The first position from `k` on whose name is greater than `name`, or the end.
pub open spec fn insert_position(fs: Seq<(Seq<char>, GType)>, name: Seq<char>, k: int) -> int
    decreases fs.len() - k,
{
    if k >= fs.len() || k < 0 {
        fs.len() as int
    } else if seq_less(name, fs[k].0) {
        k
    } else {
        insert_position(fs, name, k + 1)
    }
}

/// `a` comes before `b` in the order of characters.
pub open spec fn seq_less(a: Seq<char>, b: Seq<char>) -> bool
    decreases a.len(),
{
    if b.len() == 0 {
        false
    } else if a.len() == 0 {
        true
    } else if a[0] != b[0] {
        (a[0] as u32) < (b[0] as u32)
    } else {
        seq_less(a.drop_first(), b.drop_first())
    }
}

/// The fields `name: type,` of a struct definition, up to and including the closing brace.
pub open spec fn p_struct_fields(t: Seq<TokenV>, j: int, acc: Seq<(Seq<char>, GType)>) -> Option<(Seq<(Seq<char>, GType)>, int)>
    decreases left(t, j),
{
    if is_tok(t, j, Token::RightBrace) {
        Some((acc, j + 1))
    } else {
        match p_ident(t, j) {
            Some((name, j1)) => match p_expect(t, j1, Token::Colon) {
                Some(j2) => match p_type(t, j2) {
                    Some((ty, m)) => match p_expect(t, m, Token::Comma) {
                        Some(m1) => if m1 <= j { None } else { p_struct_fields(t, m1, insert_field(acc, name, ty)) },
                        None => None,
                    },
                    None => None,
                },
                None => None,
            },
            None => None,
        }
    }
}

/// `struct Name { fields }`: the name and the fields.
pub open spec fn p_struct(t: Seq<TokenV>, i: int) -> Option<(Seq<char>, Seq<(Seq<char>, GType)>, int)> {
    match p_expect(t, i, Token::Struct) {
        Some(j1) => match p_ident(t, j1) {
            Some((name, j2)) => match p_expect(t, j2, Token::LeftBrace) {
                Some(j3) => match p_struct_fields(t, j3, Seq::empty()) {
                    Some((fs, j4)) => Some((name, fs, j4)),
                    None => None,
                },
                None => None,
            },
            None => None,
        },
        None => None,
    }
}

/// Sets argument `name`: a later argument of the same name replaces the earlier one.
pub open spec fn set_arg(args: Seq<(Seq<char>, GType)>, name: Seq<char>, ty: GType) -> Seq<(Seq<char>, GType)> {
    set_field(args, name, ty)
}

/// The further arguments `, name: type` of a function.
pub open spec fn p_more_params(t: Seq<TokenV>, j: int, acc: Seq<(Seq<char>, GType)>) -> Option<(Seq<(Seq<char>, GType)>, int)>
    decreases left(t, j),
{
    if !(0 <= j < t.len()) {
        None
    } else if t[j] == TokenV::Other(Token::Comma) {
        match p_ident(t, j + 1) {
            Some((name, j1)) => match p_expect(t, j1, Token::Colon) {
                Some(j2) => match p_type(t, j2) {
                    Some((ty, m)) => if m <= j { None } else { p_more_params(t, m, set_arg(acc, name, ty)) },
                    None => None,
                },
                None => None,
            },
            None => None,
        }
    } else {
        Some((acc, j))
    }
}

/// The arguments of a function, up to (not including) the closing parenthesis.
pub open spec fn p_params(t: Seq<TokenV>, i: int) -> Option<(Seq<(Seq<char>, GType)>, int)> {
    if !(0 <= i < t.len()) {
        None
    } else if t[i] == TokenV::Other(Token::RightParen) {
        Some((Seq::empty(), i))
    } else if t[i] is Ident {
        match p_ident(t, i) {
            Some((name, j1)) => match p_expect(t, j1, Token::Colon) {
                Some(j2) => match p_type(t, j2) {
                    Some((ty, m)) => p_more_params(t, m, set_arg(Seq::empty(), name, ty)),
                    None => None,
                },
                None => None,
            },
            None => None,
        }
    } else {
        None
    }
}

/// `fn name(args) -> type { body }`; without an arrow the function returns nothing.
pub open spec fn p_func(t: Seq<TokenV>, known: Seq<Seq<char>>, i: int) -> Option<(FuncA, int)> {
    match p_expect(t, i, Token::Function) {
        Some(j1) => match p_ident(t, j1) {
            Some((name, j2)) => match p_expect(t, j2, Token::LeftParen) {
                Some(j3) => match p_params(t, j3) {
                    Some((args, j4)) => match p_expect(t, j4, Token::RightParen) {
                        Some(j5) => {
                            let ret = if is_tok(t, j5, Token::RightArrow) {
                                p_type(t, j5 + 1)
                            } else if j5 < t.len() {
                                Some((GType::Prim(PrimType::Unit), j5))
                            } else {
                                None
                            };
                            match ret {
                                Some((rt, j6)) => match p_block(t, known, j6) {
                                    Some((body, j7)) => Some((
                                        FuncA { name, typvars: Seq::empty(), args, body, ret: rt },
                                        j7,
                                    )),
                                    None => None,
                                },
                                None => None,
                            }
                        },
                        None => None,
                    },
                    None => None,
                },
                None => None,
            },
            None => None,
        },
        None => None,
    }
}

/// A function's signature: its name, type variables and argument types.
pub open spec fn sig_a(f: FuncA) -> (Seq<char>, Seq<Seq<char>>, Seq<GType>) {
    (f.name, f.typvars, f.args.map_values(|a: (Seq<char>, GType)| a.1))
}

/// The first position from `k` on that holds a function with signature `sg`, or -1.
pub open spec fn sig_index(fs: Seq<FuncA>, sg: (Seq<char>, Seq<Seq<char>>, Seq<GType>), k: int) -> int
    decreases fs.len() - k,
{
    if k < 0 || k >= fs.len() {
        -1
    } else if sig_a(fs[k]) == sg {
        k
    } else {
        sig_index(fs, sg, k + 1)
    }
}

/// Adds a function: one with the same signature as an earlier one replaces it in place.
pub open spec fn add_func(fs: Seq<FuncA>, f: FuncA) -> Seq<FuncA> {
    let k = sig_index(fs, sig_a(f), 0);
    if k >= 0 { fs.update(k, f) } else { fs.push(f) }
}

/// The definition a struct gives the type table.
pub open spec fn struct_def(fs: Seq<(Seq<char>, GType)>) -> DefV<GType> {
    DefV { params: Seq::empty(), shape: ShapeV::Struct(fs) }
}

/// The struct definitions and functions from position `i` on, added to those before it.
pub open spec fn p_items(t: Seq<TokenV>, i: int, types: TableV, funcs: Seq<FuncA>) -> Option<(TableV, Seq<FuncA>)>
    decreases left(t, i),
{
    if !(0 <= i < t.len()) {
        Some((types, funcs))
    } else if t[i] == TokenV::Other(Token::Struct) {
        match p_struct(t, i) {
            Some((name, fs, j)) => if j <= i { None } else { p_items(t, j, types.push((name, struct_def(fs))), funcs) },
            None => None,
        }
    } else if t[i] == TokenV::Other(Token::Function) {
        match p_func(t, declared_structs(t, 0), i) {
            Some((f, j)) => if j <= i { None } else { p_items(t, j, types, add_func(funcs, f)) },
            None => None,
        }
    } else {
        None
    }
}

/// The names of the structs the tokens from `i` on define, in order: a literal may name a struct
/// defined anywhere in the program.
pub open spec fn declared_structs(t: Seq<TokenV>, i: int) -> Seq<Seq<char>>
    decreases left(t, i),
{
    if !(0 <= i < t.len()) {
        Seq::empty()
    } else if t[i] == TokenV::Other(Token::Struct) && i + 1 < t.len() && t[i + 1] is Ident {
        seq![t[i + 1]->Ident_0] + declared_structs(t, i + 1)
    } else {
        declared_structs(t, i + 1)
    }
}

/// A program: struct definitions and functions, in any order.
pub open spec fn p_program(t: Seq<TokenV>) -> Option<(TableV, Seq<FuncA>)> {
    p_items(t, 0, Seq::empty(), Seq::empty())
}

pub open spec fn exprs_a(s: Seq<ASTExpression>) -> Seq<ExprA> {
    s.map_values(|e: ASTExpression| expr_a(e))
}

pub open spec fn lits_a(s: Seq<(String, ASTExpression)>) -> Seq<(Seq<char>, ExprA)> {
    s.map_values(|f: (String, ASTExpression)| (f.0@, expr_a(f.1)))
}

pub open spec fn stmts_seq_a(s: Seq<ASTStatement>) -> Seq<StmtA> {
    s.map_values(|x: ASTStatement| stmt_a(x))
}

pub proof fn lemma_args_a(e: ASTExpression, n: int)
    requires
        e is FuncCall,
        0 <= n <= e->FuncCall_args@.len(),
    ensures
        args_a(e, n) == exprs_a(e->FuncCall_args@.subrange(0, n)),
    decreases n,
{
    if n > 0 {
        lemma_args_a(e, n - 1);
        let a = e->FuncCall_args@;
        assert(exprs_a(a.subrange(0, n)) =~= exprs_a(a.subrange(0, n - 1)).push(expr_a(a[n - 1])));
    } else {
        assert(exprs_a(e->FuncCall_args@.subrange(0, 0)) =~= Seq::empty());
    }
}

pub proof fn lemma_lit_fields_a(e: ASTExpression, n: int)
    requires
        e is StructLiteral,
        0 <= n <= e->StructLiteral_fields@.len(),
    ensures
        lit_fields_a(e, n) == lits_a(e->StructLiteral_fields@.subrange(0, n)),
    decreases n,
{
    if n > 0 {
        lemma_lit_fields_a(e, n - 1);
        let a = e->StructLiteral_fields@;
        assert(lits_a(a.subrange(0, n)) =~= lits_a(a.subrange(0, n - 1)).push((a[n - 1].0@, expr_a(a[n - 1].1))));
    } else {
        assert(lits_a(e->StructLiteral_fields@.subrange(0, 0)) =~= Seq::empty());
    }
}

pub proof fn lemma_stmts_a(b: Vec<ASTStatement>, n: int)
    requires
        0 <= n <= b@.len(),
    ensures
        stmts_a(b, n) == stmts_seq_a(b@.subrange(0, n)),
    decreases n,
{
    if n > 0 {
        lemma_stmts_a(b, n - 1);
        assert(stmts_seq_a(b@.subrange(0, n)) =~= stmts_seq_a(b@.subrange(0, n - 1)).push(stmt_a(b@[n - 1])));
    } else {
        assert(stmts_seq_a(b@.subrange(0, 0)) =~= Seq::empty());
    }
}

/// Positions before `i` from `k` on do not hold `name`.
pub proof fn lemma_name_index_skip<V>(fs: Seq<(Seq<char>, V)>, name: Seq<char>, k: int, i: int)
    requires
        0 <= k <= i <= fs.len(),
        forall|j: int| k <= j < i ==> fs[j].0 != name,
    ensures
        name_index(fs, name, k) == name_index(fs, name, i),
    decreases i - k,
{
    if k < i {
        lemma_name_index_skip(fs, name, k + 1, i);
    }
}

// ---------------------------------------------------------------------------------------------
// The parser.

/// A number for each kind of token.
pub open spec fn tok_code(t: Token) -> u8 {
    match t {
        Token::Assign => 0,
        Token::Plus => 1,
        Token::Minus => 2,
        Token::Multiply => 3,
        Token::Equals => 4,
        Token::Less => 5,
        Token::Modulo => 6,
        Token::Semicolon => 7,
        Token::LeftParen => 8,
        Token::RightParen => 9,
        Token::LeftBrace => 10,
        Token::RightBrace => 11,
        Token::LeftSqBracket => 12,
        Token::RightSqBracket => 13,
        Token::Comma => 14,
        Token::Colon => 15,
        Token::Dot => 16,
        Token::Identifier(_) => 17,
        Token::True => 18,
        Token::False => 19,
        Token::IntLiteral(_) => 20,
        Token::Print => 21,
        Token::If => 22,
        Token::Else => 23,
        Token::While => 24,
        Token::Break => 25,
        Token::Continue => 26,
        Token::Function => 27,
        Token::Return => 28,
        Token::Let => 29,
        Token::Struct => 30,
        Token::Int => 31,
        Token::Bool => 32,
        Token::RightArrow => 33,
        Token::Ref => 34,
        Token::Deref => 35,
        Token::EOF => 36,
    }
}

fn token_code(t: &Token) -> (r: u8)
    ensures
        r == tok_code(*t),
{
    match t {
        Token::Assign => 0,
        Token::Plus => 1,
        Token::Minus => 2,
        Token::Multiply => 3,
        Token::Equals => 4,
        Token::Less => 5,
        Token::Modulo => 6,
        Token::Semicolon => 7,
        Token::LeftParen => 8,
        Token::RightParen => 9,
        Token::LeftBrace => 10,
        Token::RightBrace => 11,
        Token::LeftSqBracket => 12,
        Token::RightSqBracket => 13,
        Token::Comma => 14,
        Token::Colon => 15,
        Token::Dot => 16,
        Token::Identifier(_) => 17,
        Token::True => 18,
        Token::False => 19,
        Token::IntLiteral(_) => 20,
        Token::Print => 21,
        Token::If => 22,
        Token::Else => 23,
        Token::While => 24,
        Token::Break => 25,
        Token::Continue => 26,
        Token::Function => 27,
        Token::Return => 28,
        Token::Let => 29,
        Token::Struct => 30,
        Token::Int => 31,
        Token::Bool => 32,
        Token::RightArrow => 33,
        Token::Ref => 34,
        Token::Deref => 35,
        Token::EOF => 36,
    }
}

/// A token that carries no value.
pub open spec fn plain_token(k: Token) -> bool {
    !(k is Identifier) && !(k is IntLiteral)
}

/// Whether `a` is the plain token `k`.
fn same_token(a: &Token, k: &Token) -> (r: bool)
    requires
        plain_token(*k),
    ensures
        r == (a@ == TokenV::Other(*k)),
{
    let r = token_code(a) == token_code(k);
    proof {
        if r {
            assert(*a == *k);
        }
    }
    r
}

/// Parses a token sequence into a program.
pub struct Parser {
    tokens: Vec<Token>,
    pos: usize,
    new_types: Vec<(NewtypeId, GenericTypeDef)>,
    functions: Vec<(GenericFuncSignature, ASTFunction)>,
    struct_names: Vec<String>,
}

impl Parser {
    pub closed spec fn t(&self) -> Seq<TokenV> {
        tokens_view(self.tokens@)
    }

    pub closed spec fn at(&self) -> int {
        self.pos as int
    }

    /// The names of the structs the program defines.
    pub closed spec fn known(&self) -> Seq<Seq<char>> {
        self.struct_names@.map_values(|n: String| n@)
    }

    pub closed spec fn wf(&self) -> bool {
        self.pos <= self.tokens@.len()
    }

    /// The struct definitions and functions read so far.
    pub closed spec fn items(&self) -> (Seq<(NewtypeId, GenericTypeDef)>, Seq<(GenericFuncSignature, ASTFunction)>, Seq<String>) {
        (self.new_types@, self.functions@, self.struct_names@)
    }

    /// Whether the next token is the plain token `k`.
    fn peek_is(&self, k: &Token) -> (r: bool)
        requires
            plain_token(*k),
        ensures
            r == is_tok(self.t(), self.at(), *k),
    {
        self.pos < self.tokens.len() && same_token(&self.tokens[self.pos], k)
    }

    /// Whether the next token is the plain token `k`, and if so, takes it.
    fn expect_unparametric_token(&mut self, expected_token: &Token) -> (r: bool)
        requires
            old(self).wf(),
            plain_token(*expected_token),
        ensures
            final(self).wf(),
            final(self).t() == old(self).t(),
            final(self).items() == old(self).items(),
            r == p_expect(old(self).t(), old(self).at(), *expected_token) is Some,
            r ==> final(self).at() == p_expect(old(self).t(), old(self).at(), *expected_token)->Some_0,
            !r ==> final(self).at() == old(self).at(),
    {
        if self.peek_is(expected_token) {
            let n = self.tokens.len();
            assert(self.t().len() == n);
            self.pos = self.pos + 1;
            true
        } else {
            false
        }
    }

    /// The next token, an identifier, taken.
    fn expect_identifier(&mut self) -> (r: Option<String>)
        requires
            old(self).wf(),
        ensures
            final(self).wf(),
            final(self).t() == old(self).t(),
            final(self).items() == old(self).items(),
            match p_ident(old(self).t(), old(self).at()) {
                Some((name, j)) => r is Some && r->Some_0@ == name && final(self).at() == j,
                None => r is None,
            },
    {
        if self.pos < self.tokens.len() {
            match &self.tokens[self.pos] {
                Token::Identifier(name) => {
                    let name = name.clone();
                    self.pos = self.pos + 1;
                    Some(name)
                },
                _ => None,
            }
        } else {
            None
        }
    }

    /// A type annotation.
    fn expect_type(&mut self) -> (r: Option<GenericType>)
        requires
            old(self).wf(),
        ensures
            final(self).wf(),
            final(self).t() == old(self).t(),
            final(self).items() == old(self).items(),
            match p_type(old(self).t(), old(self).at()) {
                Some((ty, j)) => r is Some && r->Some_0@ == ty && final(self).at() == j,
                None => r is None,
            },
            r is Some ==> final(self).at() > old(self).at(),
        decreases left(old(self).t(), old(self).at()),
    {
        if self.pos >= self.tokens.len() {
            return None;
        }
        let p = self.pos;
        match &self.tokens[p] {
            Token::Int => {
                self.pos = p + 1;
                Some(GenericType::Prim(PrimType::Integer))
            },
            Token::Bool => {
                self.pos = p + 1;
                Some(GenericType::Prim(PrimType::Bool))
            },
            Token::Identifier(type_id) => {
                let name = type_id.clone();
                self.pos = p + 1;
                let r = GenericType::NewType(NewtypeId(name), Vec::new());
                proof {
                    crate::shared::typing::lemma_generic_views(Seq::<GenericType>::empty());
                }
                assert(r@ == GType::NewType(type_id@, Seq::empty()));
                Some(r)
            },
            Token::Ref => {
                self.pos = p + 1;
                match self.expect_type() {
                    Some(refd_type) => Some(GenericType::Reference(Box::new(refd_type))),
                    None => None,
                }
            },
            _ => None,
        }
    }

    /// Whether the program defines a struct of this name.
    fn is_known(&self, name: &String) -> (r: bool)
        ensures
            r == self.known().contains(name@),
    {
        let mut i: usize = 0;
        while i < self.struct_names.len()
            invariant
                i <= self.struct_names@.len(),
                forall|j: int| 0 <= j < i ==> self.known()[j] != name@,
            decreases self.struct_names.len() - i,
        {
            if self.struct_names[i] == *name {
                assert(self.known()[i as int] == name@);
                return true;
            }
            i = i + 1;
        }
        false
    }

    /// An expression whose operators bind at least as tightly as `current_level`.
    fn parse_expression_with_precedence(&mut self, current_level: usize) -> (r: Option<ASTExpression>)
        requires
            old(self).wf(),
        ensures
            final(self).wf(),
            final(self).t() == old(self).t(),
            final(self).items() == old(self).items(),
            match p_expr(old(self).t(), old(self).known(), old(self).at(), current_level as nat) {
                Some((e, j)) => r is Some && expr_a(r->Some_0) == e && final(self).at() == j,
                None => r is None,
            },
            r is Some ==> final(self).at() > old(self).at(),
        decreases left(old(self).t(), old(self).at()), 4nat,
    {
        let ghost t = self.t();
        let ghost known = self.known();
        let ghost start = self.at();
        if self.pos >= self.tokens.len() {
            return None;
        }
        let mut current_expr = match self.parse_unary() {
            Some(e) => e,
            None => return None,
        };
        loop
            invariant
                self.wf(),
                t == old(self).t(),
                known == old(self).known(),
                start == old(self).at(),
                self.t() == t,
                self.items() == old(self).items(),
                self.known() == known,
                self.at() > start,
                0 <= start < t.len(),
                p_expr(t, known, start, current_level as nat) == p_binloop(t, known, self.at(), current_level as nat, expr_a(current_expr)),
            decreases self.tokens@.len() - self.pos,
        {
            let n = self.tokens.len();
            assert(t.len() == n);
            if self.pos >= n {
                return None;
            }
            let p = self.pos;
            let tok = &self.tokens[p];
            let binop = match tok {
                Token::Plus | Token::Minus | Token::Multiply | Token::Equals | Token::Less | Token::Modulo => true,
                _ => false,
            };
            assert(binop == binop_at(t, p as int));
            if !binop {
                return Some(current_expr);
            }
            let prec = crate::shared::tokens::get_connector_precedence(tok);
            if prec < current_level {
                return Some(current_expr);
            }
            let op = crate::shared::tokens::map_binop_token(tok);
            self.pos = p + 1;
            match self.parse_expression_with_precedence(prec + 1) {
                Some(next_expr) => {
                    current_expr = ASTExpression::BinOp { op, left: Box::new(current_expr), right: Box::new(next_expr) };
                },
                None => return None,
            }
        }
    }

    fn parse_expression(&mut self) -> (r: Option<ASTExpression>)
        requires
            old(self).wf(),
        ensures
            final(self).wf(),
            final(self).t() == old(self).t(),
            final(self).items() == old(self).items(),
            match p_expr(old(self).t(), old(self).known(), old(self).at(), 0) {
                Some((e, j)) => r is Some && expr_a(r->Some_0) == e && final(self).at() == j,
                None => r is None,
            },
            r is Some ==> final(self).at() > old(self).at(),
        decreases left(old(self).t(), old(self).at()), 5nat,
    {
        self.parse_expression_with_precedence(0)
    }

    /// Reference and dereference prefixes, then a postfix expression.
    fn parse_unary(&mut self) -> (r: Option<ASTExpression>)
        requires
            old(self).wf(),
        ensures
            final(self).wf(),
            final(self).t() == old(self).t(),
            final(self).items() == old(self).items(),
            match p_unary(old(self).t(), old(self).known(), old(self).at()) {
                Some((e, j)) => r is Some && expr_a(r->Some_0) == e && final(self).at() == j,
                None => r is None,
            },
            r is Some ==> final(self).at() > old(self).at(),
        decreases left(old(self).t(), old(self).at()), 3nat,
    {
        let n = self.tokens.len();
        assert(self.t().len() == n);
        if self.pos >= n {
            return None;
        }
        let p = self.pos;
        if same_token(&self.tokens[p], &Token::Ref) {
            self.pos = p + 1;
            match self.parse_unary() {
                Some(refd) => Some(ASTExpression::Reference(Box::new(refd))),
                None => None,
            }
        } else if same_token(&self.tokens[p], &Token::Deref) {
            self.pos = p + 1;
            match self.parse_unary() {
                Some(derefd) => Some(ASTExpression::Dereference(Box::new(derefd))),
                None => None,
            }
        } else {
            self.parse_postfix()
        }
    }

    /// An atom followed by field accesses.
    fn parse_postfix(&mut self) -> (r: Option<ASTExpression>)
        requires
            old(self).wf(),
        ensures
            final(self).wf(),
            final(self).t() == old(self).t(),
            final(self).items() == old(self).items(),
            match p_atom(old(self).t(), old(self).known(), old(self).at()) {
                Some((e, j)) => match p_dots(old(self).t(), j, e) {
                    Some((d, m)) => r is Some && expr_a(r->Some_0) == d && final(self).at() == m,
                    None => r is None,
                },
                None => r is None,
            },
            r is Some ==> final(self).at() > old(self).at(),
        decreases left(old(self).t(), old(self).at()), 2nat,
    {
        let ghost t = self.t();
        let ghost start = self.at();
        let mut curr_expr = match self.parse_expression_atom() {
            Some(e) => e,
            None => return None,
        };
        let ghost j0 = self.at();
        let ghost e0 = expr_a(curr_expr);
        loop
            invariant
                self.wf(),
                t == old(self).t(),
                start == old(self).at(),
                self.t() == t,
                self.items() == old(self).items(),
                self.at() > start,
                p_atom(t, old(self).known(), start) == Some((e0, j0)),
                p_dots(t, j0, e0) == p_dots(t, self.at(), expr_a(curr_expr)),
            decreases self.tokens@.len() - self.pos,
        {
            let n = self.tokens.len();
            assert(t.len() == n);
            if self.pos >= n {
                return None;
            }
            if !same_token(&self.tokens[self.pos], &Token::Dot) {
                return Some(curr_expr);
            }
            self.pos = self.pos + 1;
            match self.expect_identifier() {
                Some(field) => {
                    curr_expr = ASTExpression::FieldAccess { expr: Box::new(curr_expr), field };
                },
                None => return None,
            }
        }
    }

    /// A literal, a variable, a call, a struct literal, or an expression in parentheses.
    fn parse_expression_atom(&mut self) -> (r: Option<ASTExpression>)
        requires
            old(self).wf(),
        ensures
            final(self).wf(),
            final(self).t() == old(self).t(),
            final(self).items() == old(self).items(),
            match p_atom(old(self).t(), old(self).known(), old(self).at()) {
                Some((e, j)) => r is Some && expr_a(r->Some_0) == e && final(self).at() == j,
                None => r is None,
            },
            r is Some ==> final(self).at() > old(self).at(),
        decreases left(old(self).t(), old(self).at()), 1nat,
    {
        let ghost t = self.t();
        let n = self.tokens.len();
        assert(t.len() == n);
        if self.pos >= n {
            return None;
        }
        let p = self.pos;
        match &self.tokens[p] {
            Token::IntLiteral(num) => {
                let num = *num;
                self.pos = p + 1;
                Some(ASTExpression::IntLiteral(num))
            },
            Token::True => {
                self.pos = p + 1;
                Some(ASTExpression::BoolTrue)
            },
            Token::False => {
                self.pos = p + 1;
                Some(ASTExpression::BoolFalse)
            },
            Token::LeftParen => {
                self.pos = p + 1;
                match self.parse_expression() {
                    Some(paren_expr) => if self.expect_unparametric_token(&Token::RightParen) { Some(paren_expr) } else { None },
                    None => None,
                }
            },
            Token::Identifier(_) => self.parse_name_atom(),
            _ => None,
        }
    }

    /// An atom that starts with a name: a call, a struct literal or a variable.
    fn parse_name_atom(&mut self) -> (r: Option<ASTExpression>)
        requires
            old(self).wf(),
            old(self).at() < old(self).t().len(),
            old(self).t()[old(self).at()] is Ident,
        ensures
            final(self).wf(),
            final(self).t() == old(self).t(),
            final(self).items() == old(self).items(),
            match p_atom(old(self).t(), old(self).known(), old(self).at()) {
                Some((e, j)) => r is Some && expr_a(r->Some_0) == e && final(self).at() == j,
                None => r is None,
            },
            r is Some ==> final(self).at() > old(self).at(),
        decreases left(old(self).t(), old(self).at()), 0nat,
    {
        let ghost t = self.t();
        let n = self.tokens.len();
        assert(t.len() == n);
        let p = self.pos;
        let name = match &self.tokens[p] {
            Token::Identifier(name) => name.clone(),
            _ => unreached(),
        };
        if p + 1 >= n {
            return None;
        }
        if same_token(&self.tokens[p + 1], &Token::LeftParen) {
            self.pos = p + 2;
            match self.parse_funccall_args() {
                Some(args) => if self.expect_unparametric_token(&Token::RightParen) {
                    let r = ASTExpression::FuncCall { funcname: name, type_params: Vec::new(), args };
                    proof {
                        lemma_args_a(r, r->FuncCall_args@.len() as int);
                        assert(r->FuncCall_args@.subrange(0, r->FuncCall_args@.len() as int) =~= r->FuncCall_args@);
                        assert(generic_views(Seq::<GenericType>::empty()) =~= Seq::<GType>::empty()) by {
                            crate::shared::typing::lemma_generic_views(Seq::<GenericType>::empty());
                        }
                    }
                    Some(r)
                } else {
                    None
                },
                None => None,
            }
        } else if same_token(&self.tokens[p + 1], &Token::LeftBrace) && self.is_known(&name) {
            self.pos = p + 1;
            match self.parse_struct_literal_internals() {
                Some(fields) => {
                    let typ = GenericType::NewType(NewtypeId(name), Vec::new());
                    let r = ASTExpression::StructLiteral { typ, fields };
                    proof {
                        crate::shared::typing::lemma_generic_views(Seq::<GenericType>::empty());
                        lemma_lit_fields_a(r, r->StructLiteral_fields@.len() as int);
                        assert(r->StructLiteral_fields@.subrange(0, r->StructLiteral_fields@.len() as int)
                            =~= r->StructLiteral_fields@);
                    }
                    Some(r)
                },
                None => None,
            }
        } else {
            self.pos = p + 1;
            Some(ASTExpression::Variable(name))
        }
    }

    /// The arguments of a call, up to (not including) the closing parenthesis.
    fn parse_funccall_args(&mut self) -> (r: Option<Vec<ASTExpression>>)
        requires
            old(self).wf(),
        ensures
            final(self).wf(),
            final(self).t() == old(self).t(),
            final(self).items() == old(self).items(),
            match p_call_args(old(self).t(), old(self).known(), old(self).at()) {
                Some((args, j)) => r is Some && exprs_a(r->Some_0@) == args && final(self).at() == j,
                None => r is None,
            },
            r is Some ==> final(self).at() >= old(self).at(),
        decreases left(old(self).t(), old(self).at()), 6nat,
    {
        let ghost t = self.t();
        let ghost known = self.known();
        let ghost start = self.at();
        let n = self.tokens.len();
        assert(t.len() == n);
        if self.pos >= n {
            return None;
        }
        if same_token(&self.tokens[self.pos], &Token::RightParen) {
            let none: Vec<ASTExpression> = Vec::new();
            assert(exprs_a(none@) =~= Seq::empty());
            return Some(none);
        }
        let first = match self.parse_expression() {
            Some(e) => e,
            None => return None,
        };
        let mut collected_args: Vec<ASTExpression> = Vec::new();
        collected_args.push(first);
        assert(exprs_a(collected_args@) =~= seq![expr_a(first)]);
        loop
            invariant
                self.wf(),
                t == old(self).t(),
                known == old(self).known(),
                start == old(self).at(),
                self.t() == t,
                self.items() == old(self).items(),
                self.known() == known,
                0 <= start < t.len(),
                self.at() > start,
                p_call_args(t, known, start) == p_more_args(t, known, self.at(), exprs_a(collected_args@)),
            decreases self.tokens@.len() - self.pos,
        {
            let n = self.tokens.len();
            if self.pos >= n {
                return None;
            }
            if !same_token(&self.tokens[self.pos], &Token::Comma) {
                return Some(collected_args);
            }
            self.pos = self.pos + 1;
            match self.parse_expression() {
                Some(e) => {
                    let ghost before = collected_args@;
                    collected_args.push(e);
                    assert(exprs_a(collected_args@) =~= exprs_a(before).push(expr_a(e)));
                },
                None => return None,
            }
        }
    }

    /// The fields of a struct literal, from the opening brace to the closing one.
    fn parse_struct_literal_internals(&mut self) -> (r: Option<Vec<(String, ASTExpression)>>)
        requires
            old(self).wf(),
        ensures
            final(self).wf(),
            final(self).t() == old(self).t(),
            final(self).items() == old(self).items(),
            match p_expect(old(self).t(), old(self).at(), Token::LeftBrace) {
                Some(j) => match p_lit_fields(old(self).t(), old(self).known(), j, Seq::empty()) {
                    Some((fs, m)) => r is Some && lits_a(r->Some_0@) == fs && final(self).at() == m,
                    None => r is None,
                },
                None => r is None,
            },
            r is Some ==> final(self).at() > old(self).at(),
        decreases left(old(self).t(), old(self).at()), 6nat,
    {
        let ghost t = self.t();
        let ghost known = self.known();
        if !self.expect_unparametric_token(&Token::LeftBrace) {
            return None;
        }
        let ghost j0 = self.at();
        let mut fields: Vec<(String, ASTExpression)> = Vec::new();
        assert(lits_a(fields@) =~= Seq::empty());
        loop
            invariant
                self.wf(),
                t == old(self).t(),
                known == old(self).known(),
                self.t() == t,
                self.items() == old(self).items(),
                self.known() == known,
                self.at() >= j0,
                j0 > old(self).at(),
                p_expect(t, old(self).at(), Token::LeftBrace) == Some(j0),
                p_lit_fields(t, known, j0, Seq::empty()) == p_lit_fields(t, known, self.at(), lits_a(fields@)),
            decreases self.tokens@.len() - self.pos,
        {
            let ghost j = self.at();
            let n = self.tokens.len();
            assert(t.len() == n);
            if self.peek_is(&Token::RightBrace) {
                self.pos = self.pos + 1;
                return Some(fields);
            }
            let field_name = match self.expect_identifier() {
                Some(name) => name,
                None => return None,
            };
            if !self.expect_unparametric_token(&Token::Colon) {
                return None;
            }
            let field_value = match self.parse_expression() {
                Some(v) => v,
                None => return None,
            };
            let ghost before = lits_a(fields@);
            let ghost fv = expr_a(field_value);
            if self.expect_unparametric_token(&Token::Comma) {
                set_lit_field(&mut fields, field_name, field_value);
                assert(lits_a(fields@) == set_field(before, field_name@, fv));
            } else if self.expect_unparametric_token(&Token::RightBrace) {
                let ghost m = (self.at() - 1) as int;
                assert(is_tok(t, m, Token::RightBrace));
                assert(!is_tok(t, m, Token::Comma));
                set_lit_field(&mut fields, field_name, field_value);
                assert(lits_a(fields@) == set_field(before, field_name@, fv));
                assert(p_lit_fields(t, known, j, before) == Some((lits_a(fields@), self.at())));
                return Some(fields);
            } else {
                return None;
            }
            let n = self.tokens.len();
            assert(t.len() == n);
        }
    }

    fn parse_let(&mut self) -> (r: Option<ASTStatement>)
        requires
            old(self).wf(),
            is_tok(old(self).t(), old(self).at(), Token::Let),
        ensures
            final(self).wf(),
            final(self).t() == old(self).t(),
            final(self).items() == old(self).items(),
            match p_stmt(old(self).t(), old(self).known(), old(self).at()) {
                Some((x, j)) => r is Some && stmt_a(r->Some_0) == x && final(self).at() == j,
                None => r is None,
            },
            r is Some ==> final(self).at() > old(self).at(),
        decreases left(old(self).t(), old(self).at()), 0nat,
    {
        let n = self.tokens.len();
        assert(self.t().len() == n);
        self.pos = self.pos + 1;
        let var_name = match self.expect_identifier() {
            Some(name) => name,
            None => return None,
        };
        if !self.expect_unparametric_token(&Token::Colon) {
            return None;
        }
        let var_type = match self.expect_type() {
            Some(ty) => ty,
            None => return None,
        };
        if !self.expect_unparametric_token(&Token::Assign) {
            return None;
        }
        let value = match self.parse_expression() {
            Some(v) => v,
            None => return None,
        };
        if !self.expect_unparametric_token(&Token::Semicolon) {
            return None;
        }
        Some(ASTStatement::Let { var: GenTypeVariable { name: var_name, typ: var_type }, value })
    }

    /// `name(args);`: a call made for its effect.
    fn parse_call_statement(&mut self) -> (r: Option<ASTStatement>)
        requires
            old(self).wf(),
            old(self).at() < old(self).t().len(),
            old(self).t()[old(self).at()] is Ident,
            is_tok(old(self).t(), old(self).at() + 1, Token::LeftParen),
        ensures
            final(self).wf(),
            final(self).t() == old(self).t(),
            final(self).items() == old(self).items(),
            match p_stmt(old(self).t(), old(self).known(), old(self).at()) {
                Some((x, j)) => r is Some && stmt_a(r->Some_0) == x && final(self).at() == j,
                None => r is None,
            },
            r is Some ==> final(self).at() > old(self).at(),
        decreases left(old(self).t(), old(self).at()), 0nat,
    {
        let call = match self.parse_name_atom() {
            Some(e) => e,
            None => return None,
        };
        if self.expect_unparametric_token(&Token::Semicolon) { Some(ASTStatement::Call(call)) } else { None }
    }

    fn parse_assign(&mut self) -> (r: Option<ASTStatement>)
        requires
            old(self).wf(),
            old(self).at() < old(self).t().len(),
            old(self).t()[old(self).at()] is Ident,
            !is_tok(old(self).t(), old(self).at() + 1, Token::LeftParen),
        ensures
            final(self).wf(),
            final(self).t() == old(self).t(),
            final(self).items() == old(self).items(),
            match p_stmt(old(self).t(), old(self).known(), old(self).at()) {
                Some((x, j)) => r is Some && stmt_a(r->Some_0) == x && final(self).at() == j,
                None => r is None,
            },
            r is Some ==> final(self).at() > old(self).at(),
        decreases left(old(self).t(), old(self).at()), 0nat,
    {
        let target = match self.parse_lvalue() {
            Some(l) => l,
            None => return None,
        };
        if !self.expect_unparametric_token(&Token::Assign) {
            return None;
        }
        let assign_value = match self.parse_expression() {
            Some(v) => v,
            None => return None,
        };
        if !self.expect_unparametric_token(&Token::Semicolon) {
            return None;
        }
        Some(ASTStatement::Assign { target, value: assign_value })
    }

    fn parse_if(&mut self) -> (r: Option<ASTStatement>)
        requires
            old(self).wf(),
            is_tok(old(self).t(), old(self).at(), Token::If),
        ensures
            final(self).wf(),
            final(self).t() == old(self).t(),
            final(self).items() == old(self).items(),
            match p_stmt(old(self).t(), old(self).known(), old(self).at()) {
                Some((x, j)) => r is Some && stmt_a(r->Some_0) == x && final(self).at() == j,
                None => r is None,
            },
            r is Some ==> final(self).at() > old(self).at(),
        decreases left(old(self).t(), old(self).at()), 0nat,
    {
        let n = self.tokens.len();
        assert(self.t().len() == n);
        self.pos = self.pos + 1;
        let condition = match self.parse_expression() {
            Some(c) => c,
            None => return None,
        };
        let if_body = match self.parse_statement_block() {
            Some(b) => b,
            None => return None,
        };
        let n = self.tokens.len();
        assert(self.t().len() == n);
        let else_body = if self.peek_is(&Token::Else) {
            self.pos = self.pos + 1;
            match self.parse_statement_block() {
                Some(b) => Some(b),
                None => return None,
            }
        } else {
            None
        };
        Some(ASTStatement::If { condition, if_body, else_body })
    }

    fn parse_while(&mut self) -> (r: Option<ASTStatement>)
        requires
            old(self).wf(),
            is_tok(old(self).t(), old(self).at(), Token::While),
        ensures
            final(self).wf(),
            final(self).t() == old(self).t(),
            final(self).items() == old(self).items(),
            match p_stmt(old(self).t(), old(self).known(), old(self).at()) {
                Some((x, j)) => r is Some && stmt_a(r->Some_0) == x && final(self).at() == j,
                None => r is None,
            },
            r is Some ==> final(self).at() > old(self).at(),
        decreases left(old(self).t(), old(self).at()), 0nat,
    {
        let n = self.tokens.len();
        assert(self.t().len() == n);
        self.pos = self.pos + 1;
        let cond = match self.parse_expression() {
            Some(c) => c,
            None => return None,
        };
        let body = match self.parse_statement_block() {
            Some(b) => b,
            None => return None,
        };
        Some(ASTStatement::While { condition: cond, body })
    }

    fn parse_statement(&mut self) -> (r: Option<ASTStatement>)
        requires
            old(self).wf(),
        ensures
            final(self).wf(),
            final(self).t() == old(self).t(),
            final(self).items() == old(self).items(),
            match p_stmt(old(self).t(), old(self).known(), old(self).at()) {
                Some((x, j)) => r is Some && stmt_a(r->Some_0) == x && final(self).at() == j,
                None => r is None,
            },
            r is Some ==> final(self).at() > old(self).at(),
        decreases left(old(self).t(), old(self).at()), 1nat,
    {
        let n = self.tokens.len();
        assert(self.t().len() == n);
        if self.pos >= n {
            return None;
        }
        let p = self.pos;
        match &self.tokens[p] {
            Token::Let => self.parse_let(),
            Token::Identifier(_) => {
                if p + 1 < n && same_token(&self.tokens[p + 1], &Token::LeftParen) {
                    self.parse_call_statement()
                } else {
                    self.parse_assign()
                }
            },
            Token::If => self.parse_if(),
            Token::While => self.parse_while(),
            Token::Break => {
                self.pos = p + 1;
                if self.expect_unparametric_token(&Token::Semicolon) { Some(ASTStatement::Break) } else { None }
            },
            Token::Continue => {
                self.pos = p + 1;
                if self.expect_unparametric_token(&Token::Semicolon) { Some(ASTStatement::Continue) } else { None }
            },
            Token::Return => {
                self.pos = p + 1;
                let return_expr = match self.parse_expression() {
                    Some(e) => e,
                    None => return None,
                };
                if self.expect_unparametric_token(&Token::Semicolon) { Some(ASTStatement::Return(return_expr)) } else { None }
            },
            Token::Print => {
                self.pos = p + 1;
                if !self.expect_unparametric_token(&Token::LeftParen) {
                    return None;
                }
                let expr = match self.parse_expression() {
                    Some(e) => e,
                    None => return None,
                };
                if !self.expect_unparametric_token(&Token::RightParen) {
                    return None;
                }
                if self.expect_unparametric_token(&Token::Semicolon) { Some(ASTStatement::Print(expr)) } else { None }
            },
            _ => None,
        }
    }

    fn parse_statement_block(&mut self) -> (r: Option<Vec<ASTStatement>>)
        requires
            old(self).wf(),
        ensures
            final(self).wf(),
            final(self).t() == old(self).t(),
            final(self).items() == old(self).items(),
            match p_block(old(self).t(), old(self).known(), old(self).at()) {
                Some((x, j)) => r is Some && block_a(r->Some_0) == x && final(self).at() == j,
                None => r is None,
            },
            r is Some ==> final(self).at() > old(self).at(),
        decreases left(old(self).t(), old(self).at()), 0nat,
    {
        let ghost t = self.t();
        let ghost known = self.known();
        let ghost start = self.at();
        let n = self.tokens.len();
        assert(t.len() == n);
        if self.pos >= n {
            return None;
        }
        if !self.expect_unparametric_token(&Token::LeftBrace) {
            return None;
        }
        let mut statements: Vec<ASTStatement> = Vec::new();
        assert(stmts_seq_a(statements@) =~= Seq::empty());
        loop
            invariant
                self.wf(),
                t == old(self).t(),
                known == old(self).known(),
                start == old(self).at(),
                self.t() == t,
                self.items() == old(self).items(),
                self.known() == known,
                0 <= start < t.len(),
                self.at() > start,
                p_block(t, known, start) == p_stmts(t, known, self.at(), stmts_seq_a(statements@)),
            decreases self.tokens@.len() - self.pos,
        {
            let n = self.tokens.len();
            if self.pos >= n {
                return None;
            }
            if same_token(&self.tokens[self.pos], &Token::RightBrace) {
                self.pos = self.pos + 1;
                proof {
                    lemma_stmts_a(statements, statements@.len() as int);
                    assert(statements@.subrange(0, statements@.len() as int) =~= statements@);
                }
                return Some(statements);
            }
            match self.parse_statement() {
                Some(st) => {
                    let ghost before = statements@;
                    statements.push(st);
                    assert(stmts_seq_a(statements@) =~= stmts_seq_a(before).push(stmt_a(st)));
                },
                None => return None,
            }
        }
    }

    /// An assignment target.
    fn parse_lvalue(&mut self) -> (r: Option<ASTLValue>)
        requires
            old(self).wf(),
        ensures
            final(self).wf(),
            final(self).t() == old(self).t(),
            final(self).items() == old(self).items(),
            match p_lvalue(old(self).t(), old(self).known(), old(self).at()) {
                Some((x, j)) => r is Some && lval_a(r->Some_0) == x && final(self).at() == j,
                None => r is None,
            },
            r is Some ==> final(self).at() > old(self).at(),
    {
        let ghost t = self.t();
        let root = match self.expect_identifier() {
            Some(name) => name,
            None => return None,
        };
        let n = self.tokens.len();
        assert(t.len() == n);
        if self.pos >= n {
            return None;
        }
        if same_token(&self.tokens[self.pos], &Token::Deref) {
            self.pos = self.pos + 1;
            return match self.parse_expression() {
                Some(refd_expr) => Some(ASTLValue::Deref(refd_expr)),
                None => None,
            };
        }
        let ghost j0 = self.at();
        let mut curr_lvalue = ASTLValue::Variable(root);
        loop
            invariant
                self.wf(),
                t == old(self).t(),
                self.t() == t,
                self.items() == old(self).items(),
                self.at() >= j0,
                j0 > old(self).at(),
                match p_lvalue(t, old(self).known(), old(self).at()) {
                    Some((x, j)) => p_ldots(t, self.at(), lval_a(curr_lvalue)) == Some((x, j)),
                    None => p_ldots(t, self.at(), lval_a(curr_lvalue)) is None,
                },
            decreases self.tokens@.len() - self.pos,
        {
            let n = self.tokens.len();
            if self.pos >= n {
                return None;
            }
            if !same_token(&self.tokens[self.pos], &Token::Dot) {
                return Some(curr_lvalue);
            }
            self.pos = self.pos + 1;
            match self.expect_identifier() {
                Some(curr_field) => {
                    curr_lvalue = ASTLValue::FieldAccess { of: Box::new(curr_lvalue), field: curr_field };
                },
                None => return None,
            }
        }
    }

    /// `struct Name { fields }`, added to the type definitions.
    fn process_struct_typedef(&mut self) -> (r: bool)
        requires
            old(self).wf(),
        ensures
            final(self).wf(),
            final(self).t() == old(self).t(),
            final(self).functions@ == old(self).functions@,
            match p_struct(old(self).t(), old(self).at()) {
                Some((name, fs, j)) => r && final(self).at() == j
                    && table_view(final(self).new_types@) == table_view(old(self).new_types@).push((name, struct_def(fs)))
                    && final(self).known() == old(self).known(),
                None => !r,
            },
            r ==> final(self).at() > old(self).at(),
    {
        let ghost t = self.t();
        if !self.expect_unparametric_token(&Token::Struct) {
            return false;
        }
        let struct_identifier = match self.expect_identifier() {
            Some(name) => name,
            None => return false,
        };
        if !self.expect_unparametric_token(&Token::LeftBrace) {
            return false;
        }
        let ghost j0 = self.at();
        let mut fields: Vec<(String, GenericType)> = Vec::new();
        assert(fields_view(fields@) =~= Seq::<(Seq<char>, GType)>::empty());
        loop
            invariant
                self.wf(),
                t == old(self).t(),
                self.t() == t,
                self.new_types@ == old(self).new_types@,
                self.functions@ == old(self).functions@,
                self.struct_names@ == old(self).struct_names@,
                self.at() >= j0,
                j0 > old(self).at(),
                match p_struct(t, old(self).at()) {
                    Some((name, fs, j)) => name == struct_identifier@
                        && p_struct_fields(t, self.at(), fields_view(fields@)) == Some((fs, j)),
                    None => p_struct_fields(t, self.at(), fields_view(fields@)) is None,
                },
            decreases self.tokens@.len() - self.pos,
        {
            let n = self.tokens.len();
            assert(t.len() == n);
            if self.peek_is(&Token::RightBrace) {
                self.pos = self.pos + 1;
                return self.finish_struct(struct_identifier, fields);
            }
            let field_name = match self.expect_identifier() {
                Some(name) => name,
                None => return false,
            };
            if !self.expect_unparametric_token(&Token::Colon) {
                return false;
            }
            let field_type = match self.expect_type() {
                Some(ty) => ty,
                None => return false,
            };
            if !self.expect_unparametric_token(&Token::Comma) {
                return false;
            }
            insert_struct_field(&mut fields, field_name, field_type);
        }
    }

    /// Adds a struct definition.
    fn finish_struct(&mut self, struct_identifier: String, fields: Vec<(String, GenericType)>) -> (r: bool)
        ensures
            r,
            final(self).wf() == old(self).wf(),
            final(self).t() == old(self).t(),
            final(self).at() == old(self).at(),
            final(self).functions@ == old(self).functions@,
            table_view(final(self).new_types@) == table_view(old(self).new_types@).push((struct_identifier@, struct_def(fields_view(fields@)))),
            final(self).known() == old(self).known(),
    {
        let ghost fv = fields_view(fields@);
        let def = GenericTypeDef { type_params: Vec::new(), defn: GenericShape::Struct { fields } };
        let ghost before = self.new_types@;
        let ghost name = struct_identifier@;
        self.new_types.push((NewtypeId(struct_identifier), def));
        proof {
            assert(def@.params =~= Seq::<Seq<char>>::empty());
            assert(table_view(self.new_types@) =~= table_view(before).push((name, struct_def(fv))));
        }
        true
    }

    /// The arguments of a function definition, up to (not including) the closing parenthesis.
    fn parse_params(&mut self) -> (r: Option<Vec<(String, GenericType)>>)
        requires
            old(self).wf(),
        ensures
            final(self).wf(),
            final(self).t() == old(self).t(),
            final(self).items() == old(self).items(),
            match p_params(old(self).t(), old(self).at()) {
                Some((args, j)) => r is Some && fields_view(r->Some_0@) == args && final(self).at() == j,
                None => r is None,
            },
            r is Some ==> final(self).at() >= old(self).at(),
    {
        let ghost t = self.t();
        let n = self.tokens.len();
        assert(t.len() == n);
        if self.pos >= n {
            return None;
        }
        if same_token(&self.tokens[self.pos], &Token::RightParen) {
            let none: Vec<(String, GenericType)> = Vec::new();
            assert(fields_view(none@) =~= Seq::<(Seq<char>, GType)>::empty());
            return Some(none);
        }
        let is_name = match &self.tokens[self.pos] {
            Token::Identifier(_) => true,
            _ => false,
        };
        if !is_name {
            return None;
        }
        let name1 = match self.expect_identifier() {
            Some(name) => name,
            None => return None,
        };
        if !self.expect_unparametric_token(&Token::Colon) {
            return None;
        }
        let typ1 = match self.expect_type() {
            Some(ty) => ty,
            None => return None,
        };
        let mut args: Vec<(String, GenericType)> = Vec::new();
        assert(fields_view(args@) =~= Seq::<(Seq<char>, GType)>::empty());
        set_arg_exec(&mut args, name1, typ1);
        let ghost j0 = self.at();
        let ghost a0 = fields_view(args@);
        loop
            invariant
                self.wf(),
                t == old(self).t(),
                self.t() == t,
                self.items() == old(self).items(),
                self.at() >= j0,
                j0 > old(self).at(),
                p_params(t, old(self).at()) == p_more_params(t, self.at(), fields_view(args@)),
            decreases self.tokens@.len() - self.pos,
        {
            let n = self.tokens.len();
            if self.pos >= n {
                return None;
            }
            if !same_token(&self.tokens[self.pos], &Token::Comma) {
                return Some(args);
            }
            self.pos = self.pos + 1;
            let arg_name = match self.expect_identifier() {
                Some(name) => name,
                None => return None,
            };
            if !self.expect_unparametric_token(&Token::Colon) {
                return None;
            }
            let arg_type = match self.expect_type() {
                Some(ty) => ty,
                None => return None,
            };
            set_arg_exec(&mut args, arg_name, arg_type);
        }
    }

    /// `fn name(args) -> type { body }`.
    fn parse_function_definition(&mut self) -> (r: Option<ASTFunction>)
        requires
            old(self).wf(),
        ensures
            final(self).wf(),
            final(self).t() == old(self).t(),
            final(self).items() == old(self).items(),
            final(self).functions@ == old(self).functions@,
            final(self).new_types@ == old(self).new_types@,
            match p_func(old(self).t(), old(self).known(), old(self).at()) {
                Some((f, j)) => r is Some && func_a(r->Some_0) == f && final(self).at() == j,
                None => r is None,
            },
            r is Some ==> final(self).at() > old(self).at(),
    {
        let ghost t = self.t();
        if !self.expect_unparametric_token(&Token::Function) {
            return None;
        }
        let funcname = match self.expect_identifier() {
            Some(name) => name,
            None => return None,
        };
        if !self.expect_unparametric_token(&Token::LeftParen) {
            return None;
        }
        let args = match self.parse_params() {
            Some(a) => a,
            None => return None,
        };
        if !self.expect_unparametric_token(&Token::RightParen) {
            return None;
        }
        let n = self.tokens.len();
        assert(t.len() == n);
        let ret_type_id = if self.peek_is(&Token::RightArrow) {
            self.pos = self.pos + 1;
            match self.expect_type() {
                Some(ty) => ty,
                None => return None,
            }
        } else if self.pos < n {
            GenericType::Prim(PrimType::Unit)
        } else {
            return None;
        };
        let body = match self.parse_statement_block() {
            Some(b) => b,
            None => return None,
        };
        let typvars: Vec<String> = Vec::new();
        let func = ASTFunction { name: funcname, typvars, args, body, ret_type: ret_type_id };
        assert(func_a(func).typvars =~= Seq::<Seq<char>>::empty());
        Some(func)
    }

    /// Adds a function; it replaces an earlier one with the same signature.
    fn add_function(&mut self, func: ASTFunction)
        ensures
            final(self).wf() == old(self).wf(),
            final(self).t() == old(self).t(),
            final(self).at() == old(self).at(),
            final(self).known() == old(self).known(),
            final(self).new_types@ == old(self).new_types@,
            funcs_a(final(self).functions@) == add_func(funcs_a(old(self).functions@), func_a(func)),
            sigs_ok(old(self).functions@) ==> sigs_ok(final(self).functions@),
    {
        let sgn = func.get_signature();
        proof {
            lemma_generic_views(sgn.argtypes@);
            let st = crate::stages::ast::sig_types(sgn.argtypes@);
            let at = crate::stages::ast::arg_types(func.args@);
            assert(st.len() == at.len());
            assert forall|k: int| 0 <= k < sgn.argtypes@.len() implies
                #[trigger] generic_views(sgn.argtypes@)[k] == sig_a(func_a(func)).2[k] by {
                assert(st[k] == at[k]);
            }
            assert(sig_a(func_a(func)).2 =~= generic_views(sgn.argtypes@));
            assert(sig_a(func_a(func)).1 =~= sgn.typevars@.map_values(|v: String| v@));
        }
        let ghost fs = funcs_a(self.functions@);
        let ghost sg = sig_a(func_a(func));
        let mut i: usize = 0;
        while i < self.functions.len()
            invariant
                i <= self.functions@.len(),
                fs == funcs_a(self.functions@),
                self.functions@ == old(self).functions@,
                self.new_types@ == old(self).new_types@,
                self.struct_names@ == old(self).struct_names@,
                self.tokens@ == old(self).tokens@,
                self.pos == old(self).pos,
                sg == sig_a(func_a(func)),
                sg == (sgn.name@, sgn.typevars@.map_values(|v: String| v@), generic_views(sgn.argtypes@)),
                forall|j: int| 0 <= j < i ==> sig_a(fs[j]) != sg,
            decreases self.functions.len() - i,
        {
            if same_signature(&self.functions[i].1, &func) {
                proof {
                    lemma_sig_index_skip(fs, sg, 0, i as int);
                }
                let ghost fa = func_a(func);
                let ghost before = self.functions@;
                self.functions.set(i, (sgn, func));
                assert(funcs_a(self.functions@) =~= fs.update(i as int, fa));
                assert(sigs_ok(before) ==> sigs_ok(self.functions@)) by {
                    if sigs_ok(before) {
                        assert forall|j: int| 0 <= j < self.functions@.len() implies sig_a(func_a(#[trigger] self.functions@[j].1)) == (
                            self.functions@[j].0.name@,
                            self.functions@[j].0.typevars@.map_values(|v: String| v@),
                            generic_views(self.functions@[j].0.argtypes@),
                        ) by {
                            if j != i {
                                assert(self.functions@[j] == before[j]);
                            }
                        }
                    }
                }
                return;
            }
            i = i + 1;
        }
        proof {
            lemma_sig_index_skip(fs, sg, 0, i as int);
        }
        let ghost fa = func_a(func);
        let ghost before = self.functions@;
        self.functions.push((sgn, func));
        assert(funcs_a(self.functions@) =~= fs.push(fa));
        assert(sigs_ok(before) ==> sigs_ok(self.functions@)) by {
            if sigs_ok(before) {
                assert forall|j: int| 0 <= j < self.functions@.len() implies sig_a(func_a(#[trigger] self.functions@[j].1)) == (
                    self.functions@[j].0.name@,
                    self.functions@[j].0.typevars@.map_values(|v: String| v@),
                    generic_views(self.functions@[j].0.argtypes@),
                ) by {
                    if j < before.len() {
                        assert(self.functions@[j] == before[j]);
                    }
                }
            }
        }
    }

    /// Parses a program; `None` where the tokens do not form one, or where its struct
    /// definitions refer to one another in a cycle.
    pub fn try_parse_program(tokens: Vec<Token>) -> (r: Option<ASTProgram>)
        ensures
            match p_program(tokens_view(tokens@)) {
                Some((types, funcs)) => if structs_acyclic(types) {
                    r is Some && parsed_as(r->Some_0, types, funcs)
                } else {
                    r is None
                },
                None => r is None,
            },
    {
        let ghost t = tokens_view(tokens@);
        let struct_names = declared_struct_names(&tokens);
        let mut parser = Parser { tokens, pos: 0, new_types: Vec::new(), functions: Vec::new(), struct_names };
        assert(table_view(parser.new_types@) =~= Seq::<(Seq<char>, DefV<GType>)>::empty());
        assert(funcs_a(parser.functions@) =~= Seq::<FuncA>::empty());
        loop
            invariant
                parser.wf(),
                t == tokens_view(tokens@),
                parser.t() == t,
                sigs_ok(parser.functions@),
                parser.known() == declared_structs(t, 0),
                p_program(t) == p_items(t, parser.at(), table_view(parser.new_types@), funcs_a(parser.functions@)),
            decreases parser.tokens@.len() - parser.pos,
        {
            let n = parser.tokens.len();
            assert(t.len() == n);
            if parser.pos >= n {
                match definitions_acyclic(&parser.new_types) {
                    Some(true) => {},
                    _ => return None,
                }
                let typetable = GenericTypetable::new(parser.new_types);
                return Some(ASTProgram { typetable, functions: parser.functions });
            }
            if !parser.parse_item() {
                return None;
            }
        }
    }

    /// One struct definition or function.
    fn parse_item(&mut self) -> (r: bool)
        requires
            old(self).wf(),
            old(self).at() < old(self).t().len(),
            sigs_ok(old(self).functions@),
            old(self).known() == declared_structs(old(self).t(), 0),
        ensures
            final(self).t() == old(self).t(),
            r ==> {
                &&& final(self).wf()
                &&& sigs_ok(final(self).functions@)
                &&& final(self).known() == old(self).known()
                &&& final(self).at() > old(self).at()
                &&& p_items(old(self).t(), old(self).at(), table_view(old(self).new_types@), funcs_a(old(self).functions@))
                    == p_items(final(self).t(), final(self).at(), table_view(final(self).new_types@), funcs_a(final(self).functions@))
            },
            !r ==> p_items(old(self).t(), old(self).at(), table_view(old(self).new_types@), funcs_a(old(self).functions@)) is None,
    {
        let n = self.tokens.len();
        assert(self.t().len() == n);
        if same_token(&self.tokens[self.pos], &Token::Struct) {
            self.process_struct_typedef()
        } else if same_token(&self.tokens[self.pos], &Token::Function) {
            match self.parse_function_definition() {
                Some(func) => {
                    self.add_function(func);
                    true
                },
                None => false,
            }
        } else {
            false
        }
    }

    /// Parses a program: struct definitions and functions, in any order.
    pub fn parse_program(tokens: Vec<Token>) -> (r: ASTProgram)
        requires
            p_program(tokens_view(tokens@)) is Some,
            structs_acyclic(p_program(tokens_view(tokens@))->Some_0.0),
        ensures
            parsed_as(r, p_program(tokens_view(tokens@))->Some_0.0, p_program(tokens_view(tokens@))->Some_0.1),
    {
        match Parser::try_parse_program(tokens) {
            Some(program) => program,
            None => unreached(),
        }
    }
}

/// The names of the structs the tokens define: each identifier that follows `struct`.
fn declared_struct_names(tokens: &Vec<Token>) -> (r: Vec<String>)
    ensures
        r@.map_values(|n: String| n@) == declared_structs(tokens_view(tokens@), 0),
{
    let ghost t = tokens_view(tokens@);
    let n = tokens.len();
    assert(t.len() == n);
    let mut names: Vec<String> = Vec::new();
    let mut i: usize = 0;
    assert(names@.map_values(|n: String| n@) + declared_structs(t, 0) =~= declared_structs(t, 0));
    while i < n
        invariant
            n == tokens@.len(),
            t == tokens_view(tokens@),
            t.len() == n,
            i <= n,
            names@.map_values(|n: String| n@) + declared_structs(t, i as int) == declared_structs(t, 0),
        decreases n - i,
    {
        let ghost before = names@.map_values(|n: String| n@);
        if i + 1 < n && same_token(&tokens[i], &Token::Struct) {
            match &tokens[i + 1] {
                Token::Identifier(name) => {
                    names.push(name.clone());
                    assert(names@.map_values(|n: String| n@) =~= before.push(name@));
                    assert(t[i + 1 as int] is Ident && t[i + 1 as int]->Ident_0 == name@);
                    assert(before.push(name@) + declared_structs(t, i + 1) =~= before + (seq![name@] + declared_structs(t, i + 1)));
                },
                _ => {
                    assert(!(t[i + 1 as int] is Ident));
                },
            }
        }
        i = i + 1;
    }
    assert(names@.map_values(|n: String| n@) + declared_structs(t, n as int) =~= names@.map_values(|n: String| n@));
    names
}

/// Sets a field of a struct literal; a later value replaces the earlier one in place.
fn set_lit_field(fields: &mut Vec<(String, ASTExpression)>, name: String, value: ASTExpression)
    ensures
        lits_a(final(fields)@) == set_field(lits_a(old(fields)@), name@, expr_a(value)),
{
    let ghost fs = lits_a(fields@);
    let mut i: usize = 0;
    while i < fields.len()
        invariant
            i <= fields@.len(),
            fs == lits_a(fields@),
            fields@ == old(fields)@,
            forall|j: int| 0 <= j < i ==> fs[j].0 != name@,
        decreases fields.len() - i,
    {
        if fields[i].0 == name {
            proof {
                lemma_name_index_skip(fs, name@, 0, i as int);
            }
            let ghost nv = expr_a(value);
            fields.set(i, (name, value));
            assert(lits_a(fields@) =~= fs.update(i as int, (fs[i as int].0, nv)));
            return;
        }
        i = i + 1;
    }
    proof {
        lemma_name_index_skip(fs, name@, 0, i as int);
    }
    let ghost nv = expr_a(value);
    let ghost nm = name@;
    fields.push((name, value));
    assert(lits_a(fields@) =~= fs.push((nm, nv)));
}

/// The lowered forms of a program's functions.
pub open spec fn funcs_a(fs: Seq<(GenericFuncSignature, ASTFunction)>) -> Seq<FuncA> {
    fs.map_values(|p: (GenericFuncSignature, ASTFunction)| func_a(p.1))
}

/// Each function is stored under its own signature.
pub open spec fn sigs_ok(fs: Seq<(GenericFuncSignature, ASTFunction)>) -> bool {
    forall|i: int| 0 <= i < fs.len() ==> sig_a(func_a(#[trigger] fs[i].1)) == (
        fs[i].0.name@,
        fs[i].0.typevars@.map_values(|v: String| v@),
        generic_views(fs[i].0.argtypes@),
    )
}

pub proof fn lemma_sig_index_skip(fs: Seq<FuncA>, sg: (Seq<char>, Seq<Seq<char>>, Seq<GType>), k: int, i: int)
    requires
        0 <= k <= i <= fs.len(),
        forall|j: int| k <= j < i ==> sig_a(fs[j]) != sg,
    ensures
        sig_index(fs, sg, k) == sig_index(fs, sg, i),
    decreases i - k,
{
    if k < i {
        lemma_sig_index_skip(fs, sg, k + 1, i);
    }
}

/// Whether two functions have the same signature.
fn same_signature(a: &ASTFunction, b: &ASTFunction) -> (r: bool)
    ensures
        r == (sig_a(func_a(*a)) == sig_a(func_a(*b))),
{
    let ghost sa = sig_a(func_a(*a));
    let ghost sb = sig_a(func_a(*b));
    if a.name != b.name {
        return false;
    }
    if a.typvars.len() != b.typvars.len() {
        assert(sa.1.len() != sb.1.len());
        return false;
    }
    let mut i: usize = 0;
    while i < a.typvars.len()
        invariant
            i <= a.typvars@.len(),
            sa == sig_a(func_a(*a)),
            sb == sig_a(func_a(*b)),
            a.typvars@.len() == b.typvars@.len(),
            forall|j: int| 0 <= j < i ==> a.typvars@[j]@ == b.typvars@[j]@,
        decreases a.typvars.len() - i,
    {
        if a.typvars[i] != b.typvars[i] {
            assert(sa.1[i as int] != sb.1[i as int]);
            return false;
        }
        i = i + 1;
    }
    assert(sa.1 =~= sb.1);
    if a.args.len() != b.args.len() {
        assert(sa.2.len() != sb.2.len());
        return false;
    }
    let mut k: usize = 0;
    while k < a.args.len()
        invariant
            k <= a.args@.len(),
            sa == sig_a(func_a(*a)),
            sb == sig_a(func_a(*b)),
            a.args@.len() == b.args@.len(),
            forall|j: int| 0 <= j < k ==> a.args@[j].1@ == b.args@[j].1@,
        decreases a.args.len() - k,
    {
        if !generic_eq(&a.args[k].1, &b.args[k].1) {
            assert(sa.2[k as int] != sb.2[k as int]);
            return false;
        }
        k = k + 1;
    }
    assert(sa.2 =~= sb.2);
    true
}

/// Sets an argument of a function definition; a later one of the same name replaces it in place.
fn set_arg_exec(args: &mut Vec<(String, GenericType)>, name: String, ty: GenericType)
    ensures
        fields_view(final(args)@) == set_arg(fields_view(old(args)@), name@, ty@),
{
    let ghost fs = fields_view(args@);
    let mut i: usize = 0;
    while i < args.len()
        invariant
            i <= args@.len(),
            fs == fields_view(args@),
            args@ == old(args)@,
            forall|j: int| 0 <= j < i ==> fs[j].0 != name@,
        decreases args.len() - i,
    {
        if args[i].0 == name {
            proof {
                lemma_name_index_skip(fs, name@, 0, i as int);
            }
            let ghost nv = ty@;
            args.set(i, (name, ty));
            assert(fields_view(args@) =~= fs.update(i as int, (fs[i as int].0, nv)));
            return;
        }
        i = i + 1;
    }
    proof {
        lemma_name_index_skip(fs, name@, 0, i as int);
    }
    let ghost nv = ty@;
    let ghost nm = name@;
    args.push((name, ty));
    assert(fields_view(args@) =~= fs.push((nm, nv)));
}

/// Whether `a` comes before `b` in the order of characters.
fn str_less(a: &String, b: &String) -> (r: bool)
    ensures
        r == seq_less(a@, b@),
{
    let sa = a.as_str();
    let sb = b.as_str();
    let la = sa.unicode_len();
    let lb = sb.unicode_len();
    let mut i: usize = 0;
    assert(a@.skip(0) =~= a@);
    assert(b@.skip(0) =~= b@);
    while i < la && i < lb
        invariant
            i <= la,
            i <= lb,
            la == a@.len(),
            lb == b@.len(),
            sa@ == a@,
            sb@ == b@,
            seq_less(a@, b@) == seq_less(a@.skip(i as int), b@.skip(i as int)),
        decreases la - i,
    {
        let ca = sa.get_char(i);
        let cb = sb.get_char(i);
        if ca != cb {
            return (ca as u32) < (cb as u32);
        }
        assert(a@.skip(i as int).drop_first() =~= a@.skip(i + 1));
        assert(b@.skip(i as int).drop_first() =~= b@.skip(i + 1));
        i = i + 1;
    }
    i < lb
}

/// Adds field `name` of type `ty` to the fields of a struct definition, which are kept in
/// order of their names; a later declaration of a field replaces the earlier one.
fn insert_struct_field(fields: &mut Vec<(String, GenericType)>, name: String, ty: GenericType)
    ensures
        fields_view(final(fields)@) == insert_field(fields_view(old(fields)@), name@, ty@),
{
    let ghost fs = fields_view(fields@);
    let mut i: usize = 0;
    while i < fields.len()
        invariant
            i <= fields@.len(),
            fs == fields_view(fields@),
            fields@ == old(fields)@,
            forall|j: int| 0 <= j < i ==> fs[j].0 != name@,
        decreases fields.len() - i,
    {
        if fields[i].0 == name {
            proof {
                lemma_name_index_skip(fs, name@, 0, i as int);
            }
            let ghost nv = ty@;
            fields.set(i, (name, ty));
            assert(fields_view(fields@) =~= fs.update(i as int, (fs[i as int].0, nv)));
            return;
        }
        i = i + 1;
    }
    proof {
        lemma_name_index_skip(fs, name@, 0, i as int);
    }
    let mut k: usize = 0;
    while k < fields.len() && !str_less(&name, &fields[k].0)
        invariant
            k <= fields@.len(),
            fs == fields_view(fields@),
            insert_position(fs, name@, 0) == insert_position(fs, name@, k as int),
        decreases fields.len() - k,
    {
        k = k + 1;
    }
    let ghost nv = ty@;
    let ghost nm = name@;
    fields.insert(k, (name, ty));
    assert(fields_view(fields@) =~= fs.insert(k as int, (nm, nv)));
}

/// `p` holds the given type definitions and functions, each function under its signature.
/// The struct definitions refer to one another without a cycle, and mention fewer types than a
/// `usize` counts.
pub open spec fn structs_acyclic(types: TableV) -> bool {
    &&& graph_acyclic(dep_table(types))
    &&& graph_edges(dep_table(types), dep_table(types).len() as int) < usize::MAX
}

pub open spec fn parsed_as(p: ASTProgram, types: TableV, funcs: Seq<FuncA>) -> bool {
    &&& p.typetable@ == types
    &&& funcs_a(p.functions@) == funcs
    &&& sigs_ok(p.functions@)
}

// ---------------------------------------------------------------------------------------------
// The fields of a parsed struct are in ascending name order.

/// Each field's name comes before the next one's: the names are distinct and ascending.
pub open spec fn fields_sorted<V>(fs: Seq<(Seq<char>, V)>) -> bool {
    forall|i: int, j: int| 0 <= i < j < fs.len() ==> seq_less(#[trigger] fs[i].0, #[trigger] fs[j].0)
}

/// Every struct definition of the table has its fields in ascending name order.
pub open spec fn table_fields_sorted(types: TableV) -> bool {
    forall|k: int| 0 <= k < types.len() ==> match (#[trigger] types[k]).1.shape {
        ShapeV::Struct(fs) => fields_sorted(fs),
        ShapeV::Enum(_) => true,
    }
}

pub proof fn lemma_seq_less_irrefl(a: Seq<char>)
    ensures
        !seq_less(a, a),
    decreases a.len(),
{
    if a.len() > 0 {
        lemma_seq_less_irrefl(a.drop_first());
    }
}

pub proof fn lemma_seq_less_trans(a: Seq<char>, b: Seq<char>, c: Seq<char>)
    requires
        seq_less(a, b),
        seq_less(b, c),
    ensures
        seq_less(a, c),
    decreases a.len(),
{
    if a.len() > 0 && b.len() > 0 && c.len() > 0 && a[0] == b[0] && b[0] == c[0] {
        lemma_seq_less_trans(a.drop_first(), b.drop_first(), c.drop_first());
    }
}

pub proof fn lemma_seq_less_total(a: Seq<char>, b: Seq<char>)
    requires
        a != b,
    ensures
        seq_less(a, b) || seq_less(b, a),
    decreases a.len(),
{
    if a.len() > 0 && b.len() > 0 && a[0] == b[0] {
        if a.drop_first() == b.drop_first() {
            assert(a =~= seq![a[0]] + a.drop_first());
            assert(b =~= seq![b[0]] + b.drop_first());
        }
        lemma_seq_less_total(a.drop_first(), b.drop_first());
    } else if a.len() > 0 && b.len() > 0 {
        let x = a[0];
        let y = b[0];
        vstd::utf8::char_u32_cast(x, x as u32);
        vstd::utf8::char_u32_cast(y, y as u32);
        assert((x as u32) != (y as u32));
    } else if a.len() == 0 && b.len() == 0 {
        assert(a =~= b);
    }
}

pub proof fn lemma_name_index(fs: Seq<(Seq<char>, GType)>, name: Seq<char>, k: int)
    requires
        0 <= k,
    ensures
        name_index(fs, name, k) < 0 ==> forall|i: int| k <= i < fs.len() ==> fs[i].0 != name,
        name_index(fs, name, k) >= 0 ==> k <= name_index(fs, name, k) < fs.len() && fs[name_index(fs, name, k)].0 == name,
    decreases fs.len() - k,
{
    if k < fs.len() && fs[k].0 != name {
        lemma_name_index(fs, name, k + 1);
    }
}

pub proof fn lemma_insert_position(fs: Seq<(Seq<char>, GType)>, name: Seq<char>, k: int)
    requires
        0 <= k <= fs.len(),
    ensures
        k <= insert_position(fs, name, k) <= fs.len(),
        forall|i: int| k <= i < insert_position(fs, name, k) ==> !seq_less(name, #[trigger] fs[i].0),
        insert_position(fs, name, k) < fs.len() ==> seq_less(name, fs[insert_position(fs, name, k)].0),
    decreases fs.len() - k,
{
    if k < fs.len() && !seq_less(name, fs[k].0) {
        lemma_insert_position(fs, name, k + 1);
    }
}

/// Adding a field keeps the fields in ascending name order.
pub proof fn lemma_insert_field_sorted(fs: Seq<(Seq<char>, GType)>, name: Seq<char>, ty: GType)
    requires
        fields_sorted(fs),
    ensures
        fields_sorted(insert_field(fs, name, ty)),
{
    lemma_name_index(fs, name, 0);
    let r = insert_field(fs, name, ty);
    if name_index(fs, name, 0) >= 0 {
        let k = name_index(fs, name, 0);
        assert forall|i: int, j: int| 0 <= i < j < r.len() implies seq_less(#[trigger] r[i].0, #[trigger] r[j].0) by {
            assert(r[i].0 == fs[i].0 && r[j].0 == fs[j].0);
        }
    } else {
        let p = insert_position(fs, name, 0);
        lemma_insert_position(fs, name, 0);
        assert forall|i: int| 0 <= i < p implies seq_less(#[trigger] fs[i].0, name) by {
            assert(fs[i].0 != name);
            lemma_seq_less_total(fs[i].0, name);
        }
        assert forall|i: int| p <= i < fs.len() implies seq_less(name, #[trigger] fs[i].0) by {
            if i > p {
                lemma_seq_less_trans(name, fs[p].0, fs[i].0);
            }
        }
        assert forall|i: int, j: int| 0 <= i < j < r.len() implies seq_less(#[trigger] r[i].0, #[trigger] r[j].0) by {
            if j < p {
                assert(r[i] == fs[i] && r[j] == fs[j]);
            } else if j == p {
                assert(r[i] == fs[i] && r[j].0 == name);
            } else if i < p {
                assert(r[i] == fs[i] && r[j] == fs[j - 1]);
                lemma_seq_less_trans(fs[i].0, name, fs[j - 1].0);
            } else if i == p {
                assert(r[i].0 == name && r[j] == fs[j - 1]);
            } else {
                assert(r[i] == fs[i - 1] && r[j] == fs[j - 1]);
            }
        }
    }
}

pub proof fn lemma_struct_fields_sorted(t: Seq<TokenV>, j: int, acc: Seq<(Seq<char>, GType)>)
    requires
        fields_sorted(acc),
        p_struct_fields(t, j, acc) is Some,
    ensures
        fields_sorted(p_struct_fields(t, j, acc)->Some_0.0),
    decreases left(t, j),
{
    if !is_tok(t, j, Token::RightBrace) {
        let (name, j1) = p_ident(t, j)->Some_0;
        let j2 = p_expect(t, j1, Token::Colon)->Some_0;
        let (ty, m) = p_type(t, j2)->Some_0;
        let m1 = p_expect(t, m, Token::Comma)->Some_0;
        lemma_insert_field_sorted(acc, name, ty);
        lemma_struct_fields_sorted(t, m1, insert_field(acc, name, ty));
    }
}

pub proof fn lemma_items_fields_sorted(t: Seq<TokenV>, i: int, types: TableV, funcs: Seq<FuncA>)
    requires
        table_fields_sorted(types),
        p_items(t, i, types, funcs) is Some,
    ensures
        table_fields_sorted(p_items(t, i, types, funcs)->Some_0.0),
    decreases left(t, i),
{
    if 0 <= i < t.len() {
        if t[i] == TokenV::Other(Token::Struct) {
            let (name, fs, j) = p_struct(t, i)->Some_0;
            let j3 = p_expect(t, p_ident(t, p_expect(t, i, Token::Struct)->Some_0)->Some_0.1, Token::LeftBrace)->Some_0;
            lemma_struct_fields_sorted(t, j3, Seq::empty());
            let types1 = types.push((name, struct_def(fs)));
            assert forall|k: int| 0 <= k < types1.len() implies match (#[trigger] types1[k]).1.shape {
                ShapeV::Struct(fs) => fields_sorted(fs),
                ShapeV::Enum(_) => true,
            } by {
                if k < types.len() {
                    assert(types1[k] == types[k]);
                }
            }
            lemma_items_fields_sorted(t, j, types1, funcs);
        } else if t[i] == TokenV::Other(Token::Function) {
            let (f, j) = p_func(t, declared_structs(t, 0), i)->Some_0;
            lemma_items_fields_sorted(t, j, types, add_func(funcs, f));
        }
    }
}

/// Every struct of a parsed program has its fields in ascending name order, each name once.
pub proof fn law_parsed_fields_sorted(t: Seq<TokenV>)
    requires
        p_program(t) is Some,
    ensures
        table_fields_sorted(p_program(t)->Some_0.0),
{
    lemma_items_fields_sorted(t, 0, Seq::empty(), Seq::empty());
}

// ---------------------------------------------------------------------------------------------
// Operator precedence.

/// `*` and `%` bind equally tightly, and more tightly than `+` and `-`, which bind equally.
pub proof fn law_precedence_order()
    ensures
        connector_precedence(Token::Modulo) == connector_precedence(Token::Multiply),
        connector_precedence(Token::Plus) == connector_precedence(Token::Minus),
        connector_precedence(Token::Multiply) > connector_precedence(Token::Plus),
{
}

/// In `x o1 y o2 z`, with `o1` one of `+ -` and `o2` one of `* %`, the multiplicative operation is
/// the right operand of the additive one: the expression parses as `x o1 (y o2 z)`.
pub proof fn law_multiplicative_binds_tighter(
    t: Seq<TokenV>,
    known: Seq<Seq<char>>,
    i: int,
    x: Seq<char>,
    y: Seq<char>,
    z: Seq<char>,
    o1: Token,
    b1: BinaryOperator,
    o2: Token,
    b2: BinaryOperator,
)
    requires
        (o1 == Token::Plus && b1 == BinaryOperator::Add) || (o1 == Token::Minus && b1 == BinaryOperator::Sub),
        (o2 == Token::Multiply && b2 == BinaryOperator::Mul) || (o2 == Token::Modulo && b2 == BinaryOperator::Modulo),
        0 <= i,
        i + 5 < t.len(),
        t[i] == TokenV::Ident(x),
        t[i + 1] == TokenV::Other(o1),
        t[i + 2] == TokenV::Ident(y),
        t[i + 3] == TokenV::Other(o2),
        t[i + 4] == TokenV::Ident(z),
        !binop_at(t, i + 5),
        t[i + 5] != TokenV::Other(Token::Dot),
        t[i + 5] != TokenV::Other(Token::LeftParen),
        t[i + 5] != TokenV::Other(Token::LeftBrace),
    ensures
        p_expr(t, known, i, 0) == Some((
            ExprA::BinOp(b1, Box::new(ExprA::Var(x)), Box::new(ExprA::BinOp(b2, Box::new(ExprA::Var(y)), Box::new(ExprA::Var(z))))),
            i + 5,
        )),
{
    let vx = ExprA::Var(x);
    let vy = ExprA::Var(y);
    let vz = ExprA::Var(z);
    assert(p_atom(t, known, i) == Some((vx, i + 1)));
    assert(p_dots(t, i + 1, vx) == Some((vx, i + 1)));
    assert(p_unary(t, known, i) == Some((vx, i + 1)));
    assert(p_atom(t, known, i + 2) == Some((vy, i + 3)));
    assert(p_dots(t, i + 3, vy) == Some((vy, i + 3)));
    assert(p_unary(t, known, i + 2) == Some((vy, i + 3)));
    assert(p_atom(t, known, i + 4) == Some((vz, i + 5)));
    assert(p_dots(t, i + 5, vz) == Some((vz, i + 5)));
    assert(p_unary(t, known, i + 4) == Some((vz, i + 5)));
    assert(p_binloop(t, known, i + 5, 3, vz) == Some((vz, i + 5)));
    assert(p_expr(t, known, i + 4, 3) == Some((vz, i + 5)));
    let yz = ExprA::BinOp(b2, Box::new(vy), Box::new(vz));
    assert(binop_at(t, i + 3) && connector_precedence(o2) == 2 && binop_of_token(o2) == b2);
    assert(p_binloop(t, known, i + 5, 2, yz) == Some((yz, i + 5)));
    assert(p_binloop(t, known, i + 3, 2, vy) == Some((yz, i + 5)));
    assert(p_expr(t, known, i + 2, 2) == Some((yz, i + 5)));
    let all = ExprA::BinOp(b1, Box::new(vx), Box::new(yz));
    assert(binop_at(t, i + 1) && connector_precedence(o1) == 1 && binop_of_token(o1) == b1);
    assert(p_binloop(t, known, i + 5, 0, all) == Some((all, i + 5)));
    assert(p_binloop(t, known, i + 1, 0, vx) == Some((all, i + 5)));
}

/// Operators that bind equally tightly group to the left: in `x o1 y o2 z`, with `o1` and `o2`
/// both among `+ -`, both among `* %`, or both among `== <`, the expression parses as
/// `(x o1 y) o2 z`.
pub proof fn law_same_level_groups_left(
    t: Seq<TokenV>,
    known: Seq<Seq<char>>,
    i: int,
    x: Seq<char>,
    y: Seq<char>,
    z: Seq<char>,
    o1: Token,
    b1: BinaryOperator,
    o2: Token,
    b2: BinaryOperator,
)
    requires
        ({
            let additive = |o: Token, b: BinaryOperator|
                (o == Token::Plus && b == BinaryOperator::Add) || (o == Token::Minus && b == BinaryOperator::Sub);
            let multiplicative = |o: Token, b: BinaryOperator|
                (o == Token::Multiply && b == BinaryOperator::Mul) || (o == Token::Modulo && b == BinaryOperator::Modulo);
            let comparison = |o: Token, b: BinaryOperator|
                (o == Token::Equals && b == BinaryOperator::Equals) || (o == Token::Less && b == BinaryOperator::Less);
            (additive(o1, b1) && additive(o2, b2)) || (multiplicative(o1, b1) && multiplicative(o2, b2))
                || (comparison(o1, b1) && comparison(o2, b2))
        }),
        0 <= i,
        i + 5 < t.len(),
        t[i] == TokenV::Ident(x),
        t[i + 1] == TokenV::Other(o1),
        t[i + 2] == TokenV::Ident(y),
        t[i + 3] == TokenV::Other(o2),
        t[i + 4] == TokenV::Ident(z),
        !binop_at(t, i + 5),
        t[i + 5] != TokenV::Other(Token::Dot),
        t[i + 5] != TokenV::Other(Token::LeftParen),
        t[i + 5] != TokenV::Other(Token::LeftBrace),
    ensures
        p_expr(t, known, i, 0) == Some((
            ExprA::BinOp(b2, Box::new(ExprA::BinOp(b1, Box::new(ExprA::Var(x)), Box::new(ExprA::Var(y)))), Box::new(ExprA::Var(z))),
            i + 5,
        )),
{
    let vx = ExprA::Var(x);
    let vy = ExprA::Var(y);
    let vz = ExprA::Var(z);
    let p: nat = connector_precedence(o1) as nat;
    assert(connector_precedence(o2) == p);
    assert(binop_at(t, i + 1) && binop_at(t, i + 3));
    assert(binop_of_token(o1) == b1 && binop_of_token(o2) == b2);
    assert(p_atom(t, known, i) == Some((vx, i + 1)));
    assert(p_dots(t, i + 1, vx) == Some((vx, i + 1)));
    assert(p_unary(t, known, i) == Some((vx, i + 1)));
    assert(p_atom(t, known, i + 2) == Some((vy, i + 3)));
    assert(p_dots(t, i + 3, vy) == Some((vy, i + 3)));
    assert(p_unary(t, known, i + 2) == Some((vy, i + 3)));
    assert(p_atom(t, known, i + 4) == Some((vz, i + 5)));
    assert(p_dots(t, i + 5, vz) == Some((vz, i + 5)));
    assert(p_unary(t, known, i + 4) == Some((vz, i + 5)));
    assert(p_binloop(t, known, i + 3, p + 1, vy) == Some((vy, i + 3)));
    assert(p_expr(t, known, i + 2, p + 1) == Some((vy, i + 3)));
    assert(p_binloop(t, known, i + 5, p + 1, vz) == Some((vz, i + 5)));
    assert(p_expr(t, known, i + 4, p + 1) == Some((vz, i + 5)));
    let xy = ExprA::BinOp(b1, Box::new(vx), Box::new(vy));
    let all = ExprA::BinOp(b2, Box::new(xy), Box::new(vz));
    assert(p_binloop(t, known, i + 5, 0, all) == Some((all, i + 5)));
    assert(p_binloop(t, known, i + 3, 0, xy) == Some((all, i + 5)));
    assert(p_binloop(t, known, i + 1, 0, vx) == Some((all, i + 5)));
}

} // verus!
