use vstd::prelude::*;

use crate::shared::typing::{generic_eq, GenericType, PrimType};

pub use crate::shared::definitions::{binop_result, BinaryOperator};

verus! {

/// The type of `left op right`, if the operator accepts these operand types.
pub fn binop_typecheck(op: &BinaryOperator, left_type: &GenericType, right_type: &GenericType) -> (r: Option<GenericType>)
    ensures
        match binop_result(*op, left_type@, right_type@) {
            Some(t) => r is Some && r->0@ == t,
            None => r is None,
        },
{
    match op {
        BinaryOperator::Add | BinaryOperator::Sub | BinaryOperator::Mul | BinaryOperator::Modulo => {
            if generic_eq(left_type, &GenericType::Prim(PrimType::Integer)) && generic_eq(right_type, &GenericType::Prim(PrimType::Integer)) {
                Some(GenericType::Prim(PrimType::Integer))
            } else {
                None
            }
        },
        BinaryOperator::Equals => {
            if generic_eq(left_type, right_type) && !matches!(left_type, GenericType::NewType(..)) {
                Some(GenericType::Prim(PrimType::Bool))
            } else {
                None
            }
        },
        BinaryOperator::Less => {
            if generic_eq(left_type, &GenericType::Prim(PrimType::Integer)) && generic_eq(right_type, &GenericType::Prim(PrimType::Integer)) {
                Some(GenericType::Prim(PrimType::Bool))
            } else {
                None
            }
        },
    }
}

} // verus!
