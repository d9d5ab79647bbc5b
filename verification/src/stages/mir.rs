use vstd::prelude::*;

use crate::shared::callgraph::CallGraph;
use crate::shared::definitions::{BinaryOperator, BlockId, CellId, FuncId, TypevarId};
use crate::shared::tables::GenericTypetable;
use crate::shared::typing::GenericType;

verus! {

/// A program as a control-flow graph of generic functions.
#[derive(Debug)]
pub struct MIRProgram {
    pub typetable: GenericTypetable,
    pub call_graph: CallGraph,
    pub functions: Vec<(FuncId, MIRFunction)>,
    pub entry: FuncId,
}

#[derive(Debug)]
pub struct MIRFunction {
    pub name: String,
    pub typvars: Vec<TypevarId>,
    pub args: Vec<CellId>,
    pub cells: Vec<(CellId, GenericType)>,
    pub blocks: Vec<(BlockId, MIRBlock)>,
    pub entry: BlockId,
    pub ret_type: GenericType,
}

#[derive(Debug)]
pub struct MIRBlock {
    pub statements: Vec<MIRStatement>,
    pub terminator: MIRTerminator,
}

#[derive(Debug)]
pub enum MIRStatement {
    Assign { target: MIRPlace, value: MIRValue },
    BinOp { target: MIRPlace, op: BinaryOperator, left: MIRValue, right: MIRValue },
    Call { target: MIRPlace, func: FuncId, type_params: Vec<GenericType>, args: Vec<MIRValue> },
    Print(MIRValue),
}

#[derive(Debug)]
pub enum MIRTerminator {
    Goto(BlockId),
    Branch { condition: MIRValue, then_: BlockId, else_: BlockId },
    Return(Option<MIRValue>),
}

/// A value together with its type.
#[derive(Debug)]
pub struct MIRValue {
    pub typ: GenericType,
    pub value: MIRValueKind,
}

#[derive(Debug)]
pub enum MIRValueKind {
    Place(MIRPlace),
    IntLiteral(i32),
    BoolTrue,
    BoolFalse,
    StructLiteral { fields: Vec<(String, MIRValue)> },
    Reference(MIRPlace),
}

/// A cell, or the memory a cell points to, followed by a chain of field accesses.
#[derive(Debug)]
pub struct MIRPlace {
    pub typ: GenericType,
    pub base: MIRPlaceBase,
    pub fieldchain: Vec<String>,
}

#[derive(Debug, Clone, Copy, PartialEq, Eq, Structural)]
pub enum MIRPlaceBase {
    Cell(CellId),
    Deref(CellId),
}

} // verus!
