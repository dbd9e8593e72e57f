//! The intermediate representation: operations of a stack machine with one
//! slot in use, how a syntax tree becomes a list of them, what the list
//! computes, and the RISC-V text of each operation.

use vstd::prelude::*;
use crate::lexer::{MiniDecafTokens, Token};
use crate::parser::{Expression, Function, Program, Statement, Unary, is_unary_operator};
use crate::text::{push_signed, signed_text};

verus! {

/// An operation of the stack machine.
#[derive(Debug, PartialEq, Eq)]
pub enum MiniDecafIR {
    /// Replaces the top of the stack by its negation.
    UnaryMinus,
    /// Replaces the top of the stack by 1 if it is zero, else by 0.
    LogicalNot,
    /// Replaces the top of the stack by its bitwise complement.
    BitwiseNot,
    /// Puts a value on the stack.
    Push(i32),
    /// Returns the top of the stack.
    Ret,
}

/// The operation that a prefix operator stands for.
pub open spec fn operation(operator: Token) -> MiniDecafIR
    recommends
        is_unary_operator(operator),
{
    match operator {
        Token::Minus => MiniDecafIR::UnaryMinus,
        Token::LogicalNot => MiniDecafIR::LogicalNot,
        _ => MiniDecafIR::BitwiseNot,
    }
}

/// The operations of a unary expression: those of the operand, then the
/// operator's own.
pub open spec fn unary_ir(unary: Unary) -> Seq<MiniDecafIR>
    decreases unary,
{
    match unary {
        Unary::Integer(v) => seq![MiniDecafIR::Push(v)],
        Unary::SubUnary { operator, sub_unary } => unary_ir(*sub_unary).push(
            operation(operator@),
        ),
    }
}

/// The operations of a program: those of the expression it returns, then
/// the return.
pub open spec fn program_ir(program: Program) -> Seq<MiniDecafIR> {
    unary_ir(program.returned()).push(MiniDecafIR::Ret)
}

/// Negation in two's complement: the negation of `i32::MIN` is `i32::MIN`.
pub open spec fn negation(v: i32) -> i32 {
    if v == i32::MIN {
        i32::MIN
    } else {
        (-v) as i32
    }
}

/// The complement of every bit, which in two's complement is `-v - 1`.
pub open spec fn complement(v: i32) -> i32 {
    (-v - 1) as i32
}

/// 1 for zero, 0 for every other value.
pub open spec fn logical_negation(v: i32) -> i32 {
    if v == 0 {
        1
    } else {
        0
    }
}

/// What an operation other than `Push` and `Ret` makes of the top of the
/// stack.
pub open spec fn applied(op: MiniDecafIR, v: i32) -> i32 {
    match op {
        MiniDecafIR::UnaryMinus => negation(v),
        MiniDecafIR::LogicalNot => logical_negation(v),
        MiniDecafIR::BitwiseNot => complement(v),
        _ => v,
    }
}

/// The value of a unary expression.
pub open spec fn value(unary: Unary) -> i32
    decreases unary,
{
    match unary {
        Unary::Integer(v) => v,
        Unary::SubUnary { operator, sub_unary } => applied(operation(operator@), value(*sub_unary)),
    }
}

/// The stack after the operations `ops`, none of which returns, have run on
/// `stack` in order; `None` if one of them found the stack empty or was a
/// return.
pub open spec fn run(ops: Seq<MiniDecafIR>, stack: Seq<i32>) -> Option<Seq<i32>>
    decreases ops.len(),
{
    if ops.len() == 0 {
        Some(stack)
    } else {
        match run(ops.drop_last(), stack) {
            None => None,
            Some(before) => match ops.last() {
                MiniDecafIR::Push(v) => Some(before.push(v)),
                MiniDecafIR::Ret => None,
                op => if before.len() > 0 {
                    Some(before.drop_last().push(applied(op, before.last())))
                } else {
                    None
                },
            },
        }
    }
}

/// What a list of operations returns when it runs on an empty stack: the
/// only value on the stack when its last operation, the only return, is
/// reached.
pub open spec fn returned_value(ir: Seq<MiniDecafIR>) -> Option<i32> {
    if ir.len() > 0 && ir.last() == MiniDecafIR::Ret {
        match run(ir.drop_last(), Seq::empty()) {
            Some(stack) => if stack.len() == 1 {
                Some(stack[0])
            } else {
                None
            },
            None => None,
        }
    } else {
        None
    }
}

/// The operations of a list of operators that is written outermost first:
/// the innermost operator's comes first.
pub open spec fn operations_of(operators: Seq<Token>) -> Seq<MiniDecafIR> {
    Seq::new(operators.len(), |i: int| operation(operators[operators.len() - 1 - i]))
}

/// An expression has one operation for its literal and one for each of its
/// operators: the push comes first, and the operators follow from the
/// innermost outwards.
pub proof fn lemma_unary_ir_shape(unary: Unary)
    ensures
        unary_ir(unary).len() == unary.depth() + 1,
        unary.operators().len() == unary.depth(),
        unary_ir(unary) == seq![MiniDecafIR::Push(unary.literal())] + operations_of(
            unary.operators(),
        ),
    decreases unary,
{
    match unary {
        Unary::Integer(v) => {
            assert(unary_ir(unary) =~= seq![MiniDecafIR::Push(unary.literal())] + operations_of(
                unary.operators(),
            ));
        },
        Unary::SubUnary { operator, sub_unary } => {
            lemma_unary_ir_shape(*sub_unary);
            let inner = sub_unary.operators();
            let outer = unary.operators();
            assert(outer =~= seq![operator@] + inner);
            assert(operations_of(outer) =~= operations_of(inner).push(operation(operator@))) by {
                assert forall|i: int| 0 <= i < inner.len() implies operations_of(outer)[i]
                    == operations_of(inner)[i] by {
                    assert(outer[outer.len() - 1 - i] == inner[inner.len() - 1 - i]);
                }
            }
            assert(unary_ir(unary) =~= seq![MiniDecafIR::Push(unary.literal())] + operations_of(
                outer,
            ));
        },
    }
}

/// The list of a program is as long as the expression is deep, and two
/// more: it starts with the one push, ends with the one return, and every
/// operation between them works on the top of the stack.
pub proof fn lemma_program_ir_shape(program: Program)
    requires
        program.well_formed(),
    ensures
        program_ir(program).len() == program.returned().depth() + 2,
        program_ir(program).first() == MiniDecafIR::Push(program.returned().literal()),
        program_ir(program).last() == MiniDecafIR::Ret,
        forall|i: int|
            1 <= i < program_ir(program).len() - 1 ==> {
                let op = #[trigger] program_ir(program)[i];
                op == MiniDecafIR::UnaryMinus || op == MiniDecafIR::LogicalNot || op
                    == MiniDecafIR::BitwiseNot
            },
{
    let unary = program.returned();
    lemma_unary_ir_shape(unary);
    let ir = program_ir(program);
    assert forall|i: int| 1 <= i < ir.len() - 1 implies {
        let op = #[trigger] ir[i];
        op == MiniDecafIR::UnaryMinus || op == MiniDecafIR::LogicalNot || op
            == MiniDecafIR::BitwiseNot
    } by {
        assert(ir[i] == operations_of(unary.operators())[i - 1]);
    }
}

/// Running the operations of an expression puts the value of the expression
/// on the stack and leaves what was below it.
pub proof fn lemma_unary_ir_runs(unary: Unary, stack: Seq<i32>)
    requires
        unary.well_formed(),
    ensures
        run(unary_ir(unary), stack) == Some(stack.push(value(unary))),
    decreases unary,
{
    match unary {
        Unary::Integer(v) => {
            let ops = unary_ir(unary);
            assert(ops.drop_last() =~= Seq::<MiniDecafIR>::empty());
            assert(run(ops.drop_last(), stack) == Some(stack));
        },
        Unary::SubUnary { operator, sub_unary } => {
            lemma_unary_ir_runs(*sub_unary, stack);
            let ops = unary_ir(unary);
            assert(ops.drop_last() =~= unary_ir(*sub_unary));
            let before = stack.push(value(*sub_unary));
            assert(before.drop_last() =~= stack);
        },
    }
}

/// The operations of a program return the value of the expression that the
/// program returns.
pub proof fn lemma_program_ir_returns(program: Program)
    requires
        program.well_formed(),
    ensures
        returned_value(program_ir(program)) == Some(value(program.returned())),
{
    let ir = program_ir(program);
    assert(ir.drop_last() =~= unary_ir(program.returned()));
    lemma_unary_ir_runs(program.returned(), Seq::empty());
}

/// The RISC-V text of one operation. The stack is the machine's own, one
/// word to a slot, and `t1` is the scratch register.
pub open spec fn riscv32_text(op: MiniDecafIR) -> Seq<char> {
    match op {
        MiniDecafIR::Push(v) => "\taddi sp,sp,-4;\n\tli t1,"@ + signed_text(v as int)
            + ";\n\tsw t1,0(sp);\n"@,
        MiniDecafIR::Ret => "\tlw a0,0(sp);\n\taddi sp,sp, 4;\n\tjr ra;"@,
        MiniDecafIR::LogicalNot => "\tlw t1,0(sp);\n\tseqz t1,t1;\n\tsw t1, 0(sp);\n"@,
        MiniDecafIR::BitwiseNot => "\tlw t1,0(sp);\n\tnot t1,t1;\n\tsw t1,0(sp);\n"@,
        MiniDecafIR::UnaryMinus => "\tlw t1,0(sp);\n\tneg t1,t1\n\tsw t1,0(sp);\n"@,
    }
}

/// The text before the first operation: the text section, the global
/// symbol and the label of the function.
pub open spec fn prologue() -> Seq<char> {
    "    .text\n    .globl main\nmain:\n"@
}

/// The texts of the operations of `ir`, one after the other.
pub open spec fn body_text(ir: Seq<MiniDecafIR>) -> Seq<char>
    decreases ir.len(),
{
    if ir.len() == 0 {
        Seq::empty()
    } else {
        body_text(ir.drop_last()) + riscv32_text(ir.last())
    }
}

/// The assembly text of a list of operations: the prologue, then the text
/// of each operation in order.
pub open spec fn assembly_text(ir: Seq<MiniDecafIR>) -> Seq<char> {
    prologue() + body_text(ir)
}

impl MiniDecafIR {
    /// The RISC-V text of the operation.
    pub fn to_riscv32(&self) -> (text: String)
        ensures
            text@ == riscv32_text(*self),
    {
        match self {
            MiniDecafIR::Push(val) => {
                let mut text = "\taddi sp,sp,-4;\n\tli t1,".to_owned();
                push_signed(&mut text, *val);
                text.append(";\n\tsw t1,0(sp);\n");
                text
            },
            MiniDecafIR::Ret => "\tlw a0,0(sp);\n\taddi sp,sp, 4;\n\tjr ra;".to_owned(),
            MiniDecafIR::LogicalNot => "\tlw t1,0(sp);\n\tseqz t1,t1;\n\tsw t1, 0(sp);\n".to_owned(),
            MiniDecafIR::BitwiseNot => "\tlw t1,0(sp);\n\tnot t1,t1;\n\tsw t1,0(sp);\n".to_owned(),
            MiniDecafIR::UnaryMinus => "\tlw t1,0(sp);\n\tneg t1,t1\n\tsw t1,0(sp);\n".to_owned(),
        }
    }
}

/// The assembly text of `ir`: the prologue, then the text of each operation
/// in order.
pub fn to_assembly(ir: &Vec<MiniDecafIR>) -> (text: String)
    ensures
        text@ == assembly_text(ir@),
{
    let mut text = "    .text\n    .globl main\nmain:\n".to_owned();
    let mut done: usize = 0;
    proof {
        assert(ir@.take(0) =~= Seq::<MiniDecafIR>::empty());
        assert(text@ =~= prologue() + body_text(ir@.take(0)));
    }
    while done < ir.len()
        invariant
            done <= ir.len(),
            text@ == prologue() + body_text(ir@.take(done as int)),
        decreases ir.len() - done,
    {
        let part = ir[done].to_riscv32();
        text.append(part.as_str());
        proof {
            let read = ir@.take(done + 1);
            assert(read.drop_last() =~= ir@.take(done as int));
            assert(read.last() == ir@[done as int]);
            assert(text@ =~= prologue() + body_text(read));
        }
        done += 1;
    }
    proof {
        assert(ir@.take(ir.len() as int) =~= ir@);
    }
    text
}

/// Turns a syntax tree into a list of operations.
pub struct MiniDecafIRGenerator {
    ir: Vec<MiniDecafIR>,
}

impl MiniDecafIRGenerator {
    /// The operations generated so far.
    pub closed spec fn generated(&self) -> Seq<MiniDecafIR> {
        self.ir@
    }

    /// A generator that has generated nothing yet.
    pub fn new() -> (generator: MiniDecafIRGenerator)
        ensures
            generator.generated() == Seq::<MiniDecafIR>::empty(),
    {
        MiniDecafIRGenerator { ir: Vec::new() }
    }

    /// The operations of `prog`, behind those generated before: the push of
    /// the literal, the operators from the innermost outwards, and the
    /// return.
    pub fn to_ir(self, prog: &Program) -> (ir: Vec<MiniDecafIR>)
        requires
            prog.well_formed(),
        ensures
            ir@ == self.generated() + program_ir(*prog),
            ir@.len() == self.generated().len() + prog.returned().depth() + 2,
    {
        proof {
            lemma_program_ir_shape(*prog);
        }
        let mut generator = self;
        generator.parse_program(prog);
        generator.ir
    }

    fn parse_program(&mut self, prog: &Program)
        requires
            prog.well_formed(),
        ensures
            final(self).generated() == old(self).generated() + program_ir(*prog),
    {
        self.parse_function(&prog.func)
    }

    fn parse_function(&mut self, func: &Function)
        requires
            func.stmt.expr.unary.well_formed(),
        ensures
            final(self).generated() == old(self).generated() + unary_ir(func.stmt.expr.unary).push(
                MiniDecafIR::Ret,
            ),
    {
        self.parse_statement(&func.stmt)
    }

    fn parse_statement(&mut self, stmt: &Statement)
        requires
            stmt.expr.unary.well_formed(),
        ensures
            final(self).generated() == old(self).generated() + unary_ir(stmt.expr.unary).push(
                MiniDecafIR::Ret,
            ),
    {
        self.parse_expression(&stmt.expr);
        self.ir.push(MiniDecafIR::Ret);
        assert(self.ir@ =~= old(self).ir@ + unary_ir(stmt.expr.unary).push(MiniDecafIR::Ret));
    }

    fn parse_expression(&mut self, expr: &Expression)
        requires
            expr.unary.well_formed(),
        ensures
            final(self).generated() == old(self).generated() + unary_ir(expr.unary),
    {
        self.parse_unary(&expr.unary)
    }

    fn parse_unary(&mut self, expr: &Unary)
        requires
            expr.well_formed(),
        ensures
            final(self).generated() == old(self).generated() + unary_ir(*expr),
        decreases expr,
    {
        match expr {
            Unary::Integer(val) => {
                self.ir.push(MiniDecafIR::Push(*val));
                assert(self.ir@ =~= old(self).ir@ + unary_ir(*expr));
            },
            Unary::SubUnary { operator, sub_unary } => {
                self.parse_unary(sub_unary);
                match operator {
                    MiniDecafTokens::BitwiseNot => {
                        self.ir.push(MiniDecafIR::BitwiseNot);
                    },
                    MiniDecafTokens::LogicalNot => {
                        self.ir.push(MiniDecafIR::LogicalNot);
                    },
                    MiniDecafTokens::Minus => {
                        self.ir.push(MiniDecafIR::UnaryMinus);
                    },
                    _ => vstd::pervasive::unreached(),
                }
                assert(self.ir@ =~= old(self).ir@ + unary_ir(*expr));
            },
        }
    }
}

} // verus!
