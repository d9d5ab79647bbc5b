use vstd::prelude::*;

use crate::shared::definitions::{BinaryOperator, BlockId, CellId, FuncId, NewtypeId};
use crate::shared::tables::GenericTypetable;
use crate::shared::typing::ConcreteType;

verus! {

/// A program after monomorphization: every type is concrete.
#[derive(Debug)]
pub struct CMIRProgram {
    pub functions: Vec<(FuncId, CMIRFunction)>,
    pub entry: FuncId,
    /// The struct instances the program's values use.
    pub newtype_monomorphs: Vec<(NewtypeId, Vec<ConcreteType>)>,
    pub typetable: GenericTypetable,
}

#[derive(Debug)]
pub struct CMIRFunction {
    pub name: String,
    pub args: Vec<CellId>,
    pub cells: Vec<(CellId, ConcreteType)>,
    pub blocks: Vec<(BlockId, CMIRBlock)>,
    pub entry: BlockId,
    pub ret_type: ConcreteType,
}

#[derive(Debug)]
pub struct CMIRBlock {
    pub statements: Vec<CMIRStatement>,
    pub terminator: CMIRTerminator,
}

#[derive(Debug)]
pub enum CMIRStatement {
    Assign { target: CMIRPlace, value: CMIRValue },
    BinOp { target: CMIRPlace, op: BinaryOperator, left: CMIRValue, right: CMIRValue },
    Call { target: CMIRPlace, func: FuncId, args: Vec<CMIRValue> },
    Print(CMIRValue),
}

#[derive(Debug)]
pub enum CMIRTerminator {
    Goto(BlockId),
    Branch { condition: CMIRValue, then_: BlockId, else_: BlockId },
    Return(Option<CMIRValue>),
}

/// A value together with its type.
#[derive(Debug)]
pub struct CMIRValue {
    pub typ: ConcreteType,
    pub value: CMIRValueKind,
}

#[derive(Debug)]
pub enum CMIRValueKind {
    Place(CMIRPlace),
    IntLiteral(i32),
    BoolTrue,
    BoolFalse,
    StructLiteral { fields: Vec<(String, CMIRValue)> },
    Reference(CMIRPlace),
}

#[derive(Debug)]
pub struct CMIRPlace {
    pub typ: ConcreteType,
    pub base: CMIRPlaceBase,
    pub fieldchain: Vec<String>,
}

#[derive(Debug, Clone, Copy, PartialEq, Eq, Structural)]
pub enum CMIRPlaceBase {
    Cell(CellId),
    Deref(CellId),
}

} // verus!
