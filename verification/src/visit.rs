//! Evaluation: the value that a program returns.

use vstd::prelude::*;
use crate::ir::{complement, value};
use crate::lexer::MiniDecafTokens;
use crate::parser::{Expression, Function, Program, Statement, Unary};

verus! {

/// The complement of every bit of a 32-bit integer in two's complement is
/// its negation less one.
pub proof fn lemma_complement_is_bitwise_not(v: i32)
    ensures
        !v == complement(v),
{
    assert(!v == (-v - 1) as i32) by (bit_vector);
}

/// What each operator makes of the value of its operand: logical not gives
/// 1 for zero and 0 for every other value, bitwise not complements every
/// bit, and minus negates in two's complement, where only the least value
/// is its own negation.
pub proof fn lemma_operator_values(operator: MiniDecafTokens, operand: Unary)
    ensures
        operator == MiniDecafTokens::LogicalNot ==> value(
            Unary::SubUnary { operator, sub_unary: Box::new(operand) },
        ) == (if value(operand) == 0 {
            1i32
        } else {
            0i32
        }),
        operator == MiniDecafTokens::BitwiseNot ==> value(
            Unary::SubUnary { operator, sub_unary: Box::new(operand) },
        ) == !value(operand),
        operator == MiniDecafTokens::Minus && value(operand) != i32::MIN ==> value(
            Unary::SubUnary { operator, sub_unary: Box::new(operand) },
        ) == -value(operand),
        operator == MiniDecafTokens::Minus && value(operand) == i32::MIN ==> value(
            Unary::SubUnary { operator, sub_unary: Box::new(operand) },
        ) == i32::MIN,
{
    lemma_complement_is_bitwise_not(value(operand));
}

/// The value of a unary expression.
fn unary_visitor(unary: &Unary) -> (r: i32)
    requires
        unary.well_formed(),
    ensures
        r == value(*unary),
    decreases unary,
{
    match unary {
        Unary::Integer(v) => *v,
        Unary::SubUnary { operator, sub_unary } => {
            let operand: i32 = unary_visitor(sub_unary);
            match operator {
                MiniDecafTokens::Minus => if operand == i32::MIN {
                    i32::MIN
                } else {
                    -operand
                },
                MiniDecafTokens::LogicalNot => if operand == 0 {
                    1
                } else {
                    0
                },
                MiniDecafTokens::BitwiseNot => {
                    proof {
                        lemma_complement_is_bitwise_not(operand);
                    }
                    !operand
                },
                _ => vstd::pervasive::unreached(),
            }
        },
    }
}

/// The value that the program returns.
pub fn program_visitor(prog: &Program) -> (r: i32)
    requires
        prog.well_formed(),
    ensures
        r == value(prog.returned()),
{
    function_visitor(&prog.func)
}

/// The value that the function returns.
pub fn function_visitor(func: &Function) -> (r: i32)
    requires
        func.stmt.expr.unary.well_formed(),
    ensures
        r == value(func.stmt.expr.unary),
{
    statement_visitor(&func.stmt)
}

/// The value that the statement returns.
pub fn statement_visitor(stmt: &Statement) -> (r: i32)
    requires
        stmt.expr.unary.well_formed(),
    ensures
        r == value(stmt.expr.unary),
{
    expression_visitor(&stmt.expr)
}

/// The value of the expression.
pub fn expression_visitor(expr: &Expression) -> (r: i32)
    requires
        expr.unary.well_formed(),
    ensures
        r == value(expr.unary),
{
    unary_visitor(&expr.unary)
}

} // verus!
