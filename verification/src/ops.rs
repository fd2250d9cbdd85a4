//! Operators: their spelling in diagnostics and their families.

use vstd::prelude::*;
use crate::hir::BinOp;

verus! {

/// Which `Any` intrinsic a call is.
#[derive(Clone, Copy, Debug, PartialEq, Eq, Structural)]
pub enum AnyOp {
    /// `any_of(p)`: build an `Any` from a pointer, the payload type being the pointee.
    Of,
    /// `any_as(a, T)`: read an `Any` back as `T`, trapping unless its type matches.
    As,
}

/// The arithmetic operators, wrapping forms included. Bitwise, comparison and logical
/// operators are not arithmetic.
pub open spec fn spec_is_arithmetic(op: BinOp) -> bool {
    match op {
        BinOp::Add | BinOp::Sub | BinOp::Mul | BinOp::Div | BinOp::Rem | BinOp::WrapAdd
        | BinOp::WrapSub | BinOp::WrapMul => true,
        _ => false,
    }
}

/// Whether `op` is an arithmetic operator.
pub fn is_arithmetic(op: BinOp) -> (r: bool)
    ensures
        r == spec_is_arithmetic(op),
{
    match op {
        BinOp::Add
        | BinOp::Sub
        | BinOp::Mul
        | BinOp::Div
        | BinOp::Rem
        | BinOp::WrapAdd
        | BinOp::WrapSub
        | BinOp::WrapMul => true,
        BinOp::Eq
        | BinOp::Ne
        | BinOp::Lt
        | BinOp::Le
        | BinOp::Gt
        | BinOp::Ge
        | BinOp::And
        | BinOp::Or
        | BinOp::BitAnd
        | BinOp::BitOr
        | BinOp::BitXor
        | BinOp::Shl
        | BinOp::Shr => false,
    }
}

/// How a binary operator is written in the source.
pub open spec fn spec_bin_op_text(op: BinOp) -> Seq<char> {
    match op {
        BinOp::Add => "+"@,
        BinOp::Sub => "-"@,
        BinOp::Mul => "*"@,
        BinOp::Div => "/"@,
        BinOp::Rem => "%"@,
        BinOp::WrapAdd => "+%"@,
        BinOp::WrapSub => "-%"@,
        BinOp::WrapMul => "*%"@,
        BinOp::Eq => "=="@,
        BinOp::Ne => "!="@,
        BinOp::Lt => "<"@,
        BinOp::Le => "<="@,
        BinOp::Gt => ">"@,
        BinOp::Ge => ">="@,
        BinOp::And => "&&"@,
        BinOp::Or => "||"@,
        BinOp::BitAnd => "&"@,
        BinOp::BitOr => "|"@,
        BinOp::BitXor => "^"@,
        BinOp::Shl => "<<"@,
        BinOp::Shr => ">>"@,
    }
}

/// The source spelling of a binary operator, for diagnostics.
pub fn bin_op_text(op: BinOp) -> (r: &'static str)
    ensures
        r@ == spec_bin_op_text(op),
{
    match op {
        BinOp::Add => "+",
        BinOp::Sub => "-",
        BinOp::Mul => "*",
        BinOp::Div => "/",
        BinOp::Rem => "%",
        BinOp::WrapAdd => "+%",
        BinOp::WrapSub => "-%",
        BinOp::WrapMul => "*%",
        BinOp::Eq => "==",
        BinOp::Ne => "!=",
        BinOp::Lt => "<",
        BinOp::Le => "<=",
        BinOp::Gt => ">",
        BinOp::Ge => ">=",
        BinOp::And => "&&",
        BinOp::Or => "||",
        BinOp::BitAnd => "&",
        BinOp::BitOr => "|",
        BinOp::BitXor => "^",
        BinOp::Shl => "<<",
        BinOp::Shr => ">>",
    }
}

} // verus!
