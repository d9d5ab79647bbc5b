use vstd::prelude::*;

use std::hash::Hash;

use crate::shared::typing::{clone_generic, generic_eq, GType, GenericType, PrimType};

verus! {

pub type GenericFuncSignature = FuncSignature<GenericType>;

/// A function is identified by its name, its type variables and its argument types.
#[derive(Clone, Debug, PartialEq, Eq, Hash)]
pub struct FuncSignature<T> {
    pub name: String,
    pub typevars: Vec<TypevarId>,
    pub argtypes: Vec<T>,
}

#[derive(Debug)]
pub struct GenTypeVariable {
    pub name: String,
    pub typ: GenericType,
}

impl Clone for GenTypeVariable {
    fn clone(&self) -> (r: Self)
        ensures
            r.name == self.name,
            r.typ@ == self.typ@,
    {
        GenTypeVariable { name: self.name.clone(), typ: clone_generic(&self.typ) }
    }
}

/// The name of a user-defined type.
#[derive(Debug, PartialEq, Eq, Hash)]
pub struct NewtypeId(pub String);

impl Clone for NewtypeId {
    fn clone(&self) -> (r: Self)
        ensures
            r == *self,
    {
        NewtypeId(self.0.clone())
    }
}

/// The name of a type variable.
pub type TypevarId = String;

/// Errors of the compiler's passes.
#[derive(Debug)]
pub enum CompileError {
    /// A binary operator was applied to operands of types it does not accept.
    BinopTypecheck,
    /// A type variable has no binding among the type parameters.
    TypeVarNotFound(TypevarId),
    /// A call refers to a function instance that was not generated.
    FunctionNotFound(FuncId),
    /// Monomorphizing the named function failed.
    FunctionMonomorphization(String, Box<CompileError>),
    /// A function instance calls, directly or not, the same function with more generic type
    /// arguments: instantiating the program would not end.
    MonomorphizationCycle,
    /// The program needs more cells or blocks than identifiers can number.
    TooLarge,
}

#[derive(Debug, Clone, Copy, PartialEq, Eq, Structural)]
pub enum BinaryOperator {
    Add,
    Sub,
    Mul,
    Equals,
    Less,
    Modulo,
}

pub open spec fn int_type() -> GType {
    GType::Prim(PrimType::Integer)
}

pub open spec fn bool_type() -> GType {
    GType::Prim(PrimType::Bool)
}

/// The type of `left op right`, if the operator accepts these operand types. `==` compares two
/// values of one type that is not a struct: equality is not defined on structs.
pub open spec fn binop_result(op: BinaryOperator, left: GType, right: GType) -> Option<GType> {
    match op {
        BinaryOperator::Add | BinaryOperator::Sub | BinaryOperator::Mul | BinaryOperator::Modulo => {
            if left == int_type() && right == int_type() {
                Some(int_type())
            } else {
                None
            }
        },
        BinaryOperator::Equals => {
            if left == right && !(left is NewType) {
                Some(bool_type())
            } else {
                None
            }
        },
        BinaryOperator::Less => {
            if left == int_type() && right == int_type() {
                Some(bool_type())
            } else {
                None
            }
        },
    }
}

impl BinaryOperator {
    pub fn type_result(&self, left: &GenericType, right: &GenericType) -> (r: Result<GenericType, CompileError>)
        ensures
            match binop_result(*self, left@, right@) {
                Some(t) => r is Ok && r->Ok_0@ == t,
                None => r matches Err(CompileError::BinopTypecheck),
            },
    {
        let int_type = GenericType::Prim(PrimType::Integer);
        let bool_type = GenericType::Prim(PrimType::Bool);
        match self {
            BinaryOperator::Add | BinaryOperator::Sub | BinaryOperator::Mul | BinaryOperator::Modulo => {
                if generic_eq(left, &int_type) && generic_eq(right, &int_type) {
                    return Ok(int_type);
                }
            },
            BinaryOperator::Equals => {
                if generic_eq(left, right) && !matches!(left, GenericType::NewType(..)) {
                    return Ok(bool_type);
                }
            },
            BinaryOperator::Less => {
                if generic_eq(left, &int_type) && generic_eq(right, &int_type) {
                    return Ok(bool_type);
                }
            },
        }
        Err(CompileError::BinopTypecheck)
    }
}

/// An identifier made from a raw number.
pub trait Id: Copy + Eq + Hash + Sized {
    spec fn raw_id(self) -> usize;

    fn from_raw(id: usize) -> (r: Self)
        ensures
            r.raw_id() == id,
    ;

    fn raw(self) -> (r: usize)
        ensures
            r == self.raw_id(),
    ;
}

#[derive(Debug, Clone, Copy, PartialEq, Eq, Hash, Ord, PartialOrd, Structural)]
pub struct FuncId(pub usize);

#[derive(Debug, Clone, Copy, PartialEq, Eq, Hash, Ord, PartialOrd, Structural)]
pub struct BlockId(pub usize);

#[derive(Debug, Clone, Copy, PartialEq, Eq, Hash, Ord, PartialOrd, Structural)]
pub struct CellId(pub usize);

#[derive(Debug, Clone, Copy, PartialEq, Eq, Hash, Ord, PartialOrd, Structural)]
pub struct VarId(pub usize);

impl Id for FuncId {
    open spec fn raw_id(self) -> usize {
        self.0
    }

    fn from_raw(id: usize) -> (r: Self) {
        FuncId(id)
    }

    fn raw(self) -> (r: usize) {
        self.0
    }
}

impl Id for BlockId {
    open spec fn raw_id(self) -> usize {
        self.0
    }

    fn from_raw(id: usize) -> (r: Self) {
        BlockId(id)
    }

    fn raw(self) -> (r: usize) {
        self.0
    }
}

impl Id for CellId {
    open spec fn raw_id(self) -> usize {
        self.0
    }

    fn from_raw(id: usize) -> (r: Self) {
        CellId(id)
    }

    fn raw(self) -> (r: usize) {
        self.0
    }
}

impl Id for VarId {
    open spec fn raw_id(self) -> usize {
        self.0
    }

    fn from_raw(id: usize) -> (r: Self) {
        VarId(id)
    }

    fn raw(self) -> (r: usize) {
        self.0
    }
}

/// Hands out identifiers with consecutive raw numbers, starting from zero.
#[derive(Debug)]
pub struct IdFactory<I: Id> {
    counter: usize,
    _marker: std::marker::PhantomData<I>,
}

impl<I: Id> View for IdFactory<I> {
    /// The raw number of the next identifier.
    type V = usize;

    closed spec fn view(&self) -> usize {
        self.counter
    }
}

impl<I: Id> Clone for IdFactory<I> {
    fn clone(&self) -> (r: Self)
        ensures
            r@ == self@,
    {
        IdFactory { counter: self.counter, _marker: std::marker::PhantomData }
    }
}

impl<I: Id> IdFactory<I> {
    pub fn new() -> (r: Self)
        ensures
            r@ == 0,
    {
        Self { counter: 0, _marker: std::marker::PhantomData }
    }

    /// The raw number of the next identifier.
    pub fn peek(&self) -> (r: usize)
        ensures
            r == self@,
    {
        self.counter
    }

    /// A factory whose first identifier has raw number `start`.
    pub fn new_from(start: usize) -> (r: Self)
        ensures
            r@ == start,
    {
        Self { counter: start, _marker: std::marker::PhantomData }
    }

    pub fn next_id(&mut self) -> (r: I)
        requires
            old(self)@ < usize::MAX,
        ensures
            r.raw_id() == old(self)@,
            final(self)@ == old(self)@ + 1,
    {
        let id = I::from_raw(self.counter);
        self.counter += 1;
        id
    }
}

/// Identifiers drawn one after the other from a factory are distinct.
pub proof fn law_next_ids_distinct<I: Id>(f0: IdFactory<I>, a: I, f1: IdFactory<I>, b: I, f2: IdFactory<I>)
    requires
        a.raw_id() == f0@,
        f1@ == f0@ + 1,
        f1@ <= b.raw_id() < f2@,
    ensures
        a.raw_id() != b.raw_id(),
{
}

} // verus!
