use vstd::prelude::*;

use crate::shared::callgraph::CallGraph;
use crate::shared::definitions::{BinaryOperator, FuncId, GenTypeVariable, TypevarId, VarId};
use crate::shared::tables::GenericTypetable;
use crate::shared::typing::GenericType;

verus! {

/// A program after name resolution and type checking.
#[derive(Debug)]
pub struct HIRProgram {
    pub typetable: GenericTypetable,
    pub call_graph: CallGraph,
    pub functions: Vec<(FuncId, HIRFunction)>,
    pub entry: FuncId,
}

#[derive(Debug)]
pub struct HIRFunction {
    pub name: String,
    pub typvars: Vec<TypevarId>,
    pub args: Vec<VarId>,
    pub variables: Vec<(VarId, GenTypeVariable)>,
    pub body: Vec<HIRStatement>,
    pub ret_type: GenericType,
}

#[derive(Debug)]
pub enum HIRStatement {
    Let { var: VarId, value: HIRExpression },
    Assign { target: Place, value: HIRExpression },
    If { condition: HIRExpression, if_body: Vec<HIRStatement>, else_body: Option<Vec<HIRStatement>> },
    While { condition: HIRExpression, body: Vec<HIRStatement> },
    Break,
    Continue,
    Return(Option<HIRExpression>),
    Print(HIRExpression),
    /// An expression evaluated for its effect; its value is dropped.
    Call(HIRExpression),
}

/// An expression together with its type.
#[derive(Debug)]
pub struct HIRExpression {
    pub typ: GenericType,
    pub expr: HIRExpressionKind,
}

#[derive(Debug)]
pub enum HIRExpressionKind {
    IntLiteral(i32),
    Variable(VarId),
    BinOp { op: BinaryOperator, left: Box<HIRExpression>, right: Box<HIRExpression> },
    FuncCall { id: FuncId, type_params: Vec<GenericType>, args: Vec<HIRExpression> },
    BoolTrue,
    BoolFalse,
    FieldAccess { expr: Box<HIRExpression>, field: String },
    StructLiteral { fields: Vec<(String, HIRExpression)> },
    Reference(Box<HIRExpression>),
    Dereference(Box<HIRExpression>),
}

/// An assignable location together with its type.
#[derive(Debug)]
pub struct Place {
    pub typ: GenericType,
    pub place: PlaceKind,
}

#[derive(Debug)]
pub enum PlaceKind {
    Variable(VarId),
    StructField { of: Box<Place>, field: String },
    Deref(HIRExpression),
}

} // verus!
