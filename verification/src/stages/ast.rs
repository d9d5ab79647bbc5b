use vstd::prelude::*;

use crate::shared::definitions::{BinaryOperator, FuncSignature, GenTypeVariable, GenericFuncSignature, TypevarId};
use crate::shared::tables::{clone_params, GenericTypetable};
use crate::shared::typing::{clone_generic, GType, GenericType};

verus! {

/// A parsed program: its type definitions and its functions, keyed by signature.
#[derive(Debug)]
pub struct ASTProgram {
    pub typetable: GenericTypetable,
    pub functions: Vec<(GenericFuncSignature, ASTFunction)>,
}

#[derive(Debug)]
pub struct ASTFunction {
    pub name: String,
    pub typvars: Vec<TypevarId>,
    /// The arguments with their declared types, in declaration order.
    pub args: Vec<(String, GenericType)>,
    pub body: Vec<ASTStatement>,
    pub ret_type: GenericType,
}

/// The declared types of the arguments, in order.
pub open spec fn arg_types(args: Seq<(String, GenericType)>) -> Seq<GType> {
    args.map_values(|a: (String, GenericType)| a.1@)
}

/// The types of a signature's arguments.
pub open spec fn sig_types(ts: Seq<GenericType>) -> Seq<GType> {
    ts.map_values(|t: GenericType| t@)
}

impl ASTFunction {
    /// The signature of the function: its name, type variables and argument types.
    pub fn get_signature(&self) -> (r: GenericFuncSignature)
        ensures
            r.name@ == self.name@,
            r.typevars@ == self.typvars@,
            sig_types(r.argtypes@) == arg_types(self.args@),
    {
        let mut argtypes: Vec<GenericType> = Vec::new();
        let mut i: usize = 0;
        while i < self.args.len()
            invariant
                i <= self.args.len(),
                argtypes.len() == i,
                forall|j: int| 0 <= j < i ==> (#[trigger] argtypes@[j])@ == self.args@[j].1@,
            decreases self.args.len() - i,
        {
            argtypes.push(clone_generic(&self.args[i].1));
            i = i + 1;
        }
        let r = FuncSignature { name: self.name.clone(), typevars: clone_params(&self.typvars), argtypes };
        assert(sig_types(r.argtypes@) =~= arg_types(self.args@));
        r
    }
}

#[derive(Debug)]
pub enum ASTStatement {
    Let { var: GenTypeVariable, value: ASTExpression },
    Assign { target: ASTLValue, value: ASTExpression },
    If { condition: ASTExpression, if_body: Vec<ASTStatement>, else_body: Option<Vec<ASTStatement>> },
    While { condition: ASTExpression, body: Vec<ASTStatement> },
    Break,
    Continue,
    Return(ASTExpression),
    Print(ASTExpression),
    /// A call made for its effect; its value, if any, is dropped.
    Call(ASTExpression),
}

/// The target of an assignment.
#[derive(Debug)]
pub enum ASTLValue {
    Variable(String),
    FieldAccess { of: Box<ASTLValue>, field: String },
    Deref(ASTExpression),
}

#[derive(Debug)]
pub enum ASTExpression {
    IntLiteral(i32),
    Variable(String),
    BinOp { op: BinaryOperator, left: Box<ASTExpression>, right: Box<ASTExpression> },
    FuncCall { funcname: String, type_params: Vec<GenericType>, args: Vec<ASTExpression> },
    BoolTrue,
    BoolFalse,
    FieldAccess { expr: Box<ASTExpression>, field: String },
    StructLiteral { typ: GenericType, fields: Vec<(String, ASTExpression)> },
    Reference(Box<ASTExpression>),
    Dereference(Box<ASTExpression>),
}

/// A struct literal: the struct's type and the value of each field.
#[derive(Debug)]
pub struct ASTStructLiteral {
    pub typ: GenericType,
    pub fields: Vec<(String, ASTExpression)>,
}

} // verus!
