use roselia::ir::MiniDecafIR::{BitwiseNot, LogicalNot, Push, Ret, UnaryMinus};
use roselia::ir::{to_assembly, MiniDecafIR, MiniDecafIRGenerator};
use roselia::lexer::{MiniDecafTokens, Scanner};
use roselia::parser::{Expression, Function, MiniDecafParser, Program, Statement, Unary};
use roselia::visit::{expression_visitor, function_visitor, program_visitor, statement_visitor};

fn parse(text: &str) -> Program {
    let tokens = Scanner::new(text.to_owned()).to_tokens().unwrap();
    MiniDecafParser::new(tokens).parse_program().unwrap()
}

fn ir_of(text: &str) -> Vec<MiniDecafIR> {
    MiniDecafIRGenerator::new().to_ir(&parse(text))
}

fn returning(expression: &str) -> String {
    format!("int main(){{return {};}}", expression)
}

fn value_of(expression: &str) -> i32 {
    program_visitor(&parse(&returning(expression)))
}

#[test]
fn a_negated_literal_is_pushed_and_then_negated() {
    let ir = ir_of("int main(){return -5;}");
    assert_eq!(ir, vec![Push(5), UnaryMinus, Ret]);
    let text = to_assembly(&ir);
    let load = text.find("li t1,5;").unwrap();
    let negate = text.find("neg t1,t1").unwrap();
    let back = text.find("lw a0,0(sp);").unwrap();
    let jump = text.find("jr ra;").unwrap();
    assert!(load < negate);
    assert!(negate < back);
    assert!(back < jump);
}

#[test]
fn a_literal_is_pushed_and_returned() {
    assert_eq!(ir_of("int main(){return 0;}"), vec![Push(0), Ret]);
    assert_eq!(
        ir_of("int main(){return 2147483647;}"),
        vec![Push(i32::MAX), Ret]
    );
}

#[test]
fn the_innermost_operator_comes_first() {
    assert_eq!(
        ir_of("int main(){return -!~7;}"),
        vec![Push(7), BitwiseNot, LogicalNot, UnaryMinus, Ret]
    );
    assert_eq!(
        ir_of("int main(){return ~-!1;}"),
        vec![Push(1), LogicalNot, UnaryMinus, BitwiseNot, Ret]
    );
    assert_eq!(
        ir_of("int main(){return ---5;}"),
        vec![Push(5), UnaryMinus, UnaryMinus, UnaryMinus, Ret]
    );
}

#[test]
fn the_list_is_two_longer_than_the_expression_is_deep() {
    for depth in 0..40usize {
        let mut expression = String::new();
        for level in 0..depth {
            expression.push(['-', '!', '~'][level % 3]);
        }
        expression.push_str("9");
        let ir = ir_of(&returning(&expression));
        assert_eq!(ir.len(), depth + 2);
        assert_eq!(ir[0], Push(9));
        assert_eq!(ir[depth + 1], Ret);
        assert_eq!(ir.iter().filter(|op| **op == Ret).count(), 1);
        assert_eq!(ir.iter().filter(|op| matches!(op, Push(_))).count(), 1);
    }
}

#[test]
fn a_tree_built_by_hand_gives_the_same_list() {
    let program = Program {
        func: Function {
            ty: MiniDecafTokens::Int,
            identifier: "main".to_owned(),
            stmt: Statement {
                expr: Expression {
                    unary: Unary::SubUnary {
                        operator: MiniDecafTokens::LogicalNot,
                        sub_unary: Box::new(Unary::Integer(-3)),
                    },
                },
            },
        },
    };
    assert!(program.is_well_formed());
    assert_eq!(
        MiniDecafIRGenerator::new().to_ir(&program),
        vec![Push(-3), LogicalNot, Ret]
    );
}

#[test]
fn each_operation_has_its_text() {
    assert_eq!(
        Push(5).to_riscv32(),
        "\taddi sp,sp,-4;\n\tli t1,5;\n\tsw t1,0(sp);\n"
    );
    assert_eq!(
        Ret.to_riscv32(),
        "\tlw a0,0(sp);\n\taddi sp,sp, 4;\n\tjr ra;"
    );
    assert_eq!(
        LogicalNot.to_riscv32(),
        "\tlw t1,0(sp);\n\tseqz t1,t1;\n\tsw t1, 0(sp);\n"
    );
    assert_eq!(
        BitwiseNot.to_riscv32(),
        "\tlw t1,0(sp);\n\tnot t1,t1;\n\tsw t1,0(sp);\n"
    );
    assert_eq!(
        UnaryMinus.to_riscv32(),
        "\tlw t1,0(sp);\n\tneg t1,t1\n\tsw t1,0(sp);\n"
    );
}

#[test]
fn a_push_writes_its_value_in_base_ten() {
    for value in [
        0,
        1,
        9,
        10,
        11,
        99,
        100,
        101,
        4096,
        1234567890,
        i32::MAX,
        -1,
        -9,
        -10,
        -100,
        -2147483647,
        i32::MIN,
    ] {
        assert_eq!(
            Push(value).to_riscv32(),
            format!("\taddi sp,sp,-4;\n\tli t1,{};\n\tsw t1,0(sp);\n", value)
        );
    }
    assert_eq!(
        Push(i32::MIN).to_riscv32(),
        "\taddi sp,sp,-4;\n\tli t1,-2147483648;\n\tsw t1,0(sp);\n"
    );
}

#[test]
fn the_assembly_starts_with_the_prologue() {
    assert_eq!(to_assembly(&vec![]), "    .text\n    .globl main\nmain:\n");
    assert_eq!(
        to_assembly(&vec![Push(0), Ret]),
        "    .text\n    .globl main\nmain:\n\
         \taddi sp,sp,-4;\n\tli t1,0;\n\tsw t1,0(sp);\n\
         \tlw a0,0(sp);\n\taddi sp,sp, 4;\n\tjr ra;"
    );
}

#[test]
fn the_assembly_holds_each_operation_in_order() {
    let ir = vec![Push(5), BitwiseNot, LogicalNot, UnaryMinus, Ret];
    let mut expected = "    .text\n    .globl main\nmain:\n".to_owned();
    for op in &ir {
        expected.push_str(&op.to_riscv32());
    }
    assert_eq!(to_assembly(&ir), expected);
    assert_eq!(
        to_assembly(&ir),
        "    .text\n    .globl main\nmain:\n\
         \taddi sp,sp,-4;\n\tli t1,5;\n\tsw t1,0(sp);\n\
         \tlw t1,0(sp);\n\tnot t1,t1;\n\tsw t1,0(sp);\n\
         \tlw t1,0(sp);\n\tseqz t1,t1;\n\tsw t1, 0(sp);\n\
         \tlw t1,0(sp);\n\tneg t1,t1\n\tsw t1,0(sp);\n\
         \tlw a0,0(sp);\n\taddi sp,sp, 4;\n\tjr ra;"
    );
}

#[test]
fn logical_not_tells_zero_from_the_rest() {
    assert_eq!(value_of("!0"), 1);
    assert_eq!(value_of("!1"), 0);
    assert_eq!(value_of("!5"), 0);
    assert_eq!(value_of("!2147483647"), 0);
    assert_eq!(value_of("!-1"), 0);
    assert_eq!(value_of("!!7"), 1);
    assert_eq!(value_of("!!0"), 0);
}

#[test]
fn bitwise_not_is_the_ones_complement() {
    assert_eq!(value_of("~0"), -1);
    assert_eq!(value_of("~1"), -2);
    assert_eq!(value_of("~2147483647"), i32::MIN);
    assert_eq!(value_of("~~12"), 12);
    assert_eq!(value_of("~-1"), 0);
    assert_eq!(value_of("~5"), !5);
}

#[test]
fn minus_is_the_twos_complement_negation() {
    assert_eq!(value_of("-0"), 0);
    assert_eq!(value_of("-5"), -5);
    assert_eq!(value_of("--5"), 5);
    assert_eq!(value_of("-2147483647"), -2147483647);
    assert_eq!(value_of("-~2147483647"), i32::MIN);
    assert_eq!(value_of("-~2147483647"), i32::MIN.wrapping_neg());
}

#[test]
fn operators_apply_from_the_literal_outwards() {
    assert_eq!(value_of("-!0"), -1);
    assert_eq!(value_of("!-0"), 1);
    assert_eq!(value_of("~!0"), -2);
    assert_eq!(value_of("!~0"), 0);
    assert_eq!(value_of("-~5"), 6);
    assert_eq!(value_of("~-5"), 4);
    assert_eq!(value_of("-!~7"), 0);
    assert_eq!(value_of("42"), 42);
}

fn run(ir: &[MiniDecafIR]) -> Option<i32> {
    let mut stack: Vec<i32> = vec![];
    for op in ir {
        match op {
            Push(v) => stack.push(*v),
            UnaryMinus => {
                let top = stack.pop()?;
                stack.push(top.wrapping_neg());
            }
            LogicalNot => {
                let top = stack.pop()?;
                stack.push(if top == 0 { 1 } else { 0 });
            }
            BitwiseNot => {
                let top = stack.pop()?;
                stack.push(!top);
            }
            Ret => return stack.pop(),
        }
    }
    None
}

#[test]
fn the_operations_compute_the_value_of_the_tree() {
    for expression in [
        "0",
        "7",
        "-7",
        "!7",
        "~7",
        "!0",
        "-!~7",
        "~-!1",
        "!!!0",
        "---2147483647",
        "-~2147483647",
        "~~~~~~~1",
        "-~-~-~-~3",
    ] {
        let program = parse(&returning(expression));
        let value = program_visitor(&program);
        let ir = MiniDecafIRGenerator::new().to_ir(&program);
        assert_eq!(run(&ir), Some(value), "for {}", expression);
    }
}

#[test]
fn every_level_of_the_tree_has_the_same_value() {
    let program = parse("int main(){return -~41;}");
    assert_eq!(program_visitor(&program), 42);
    assert_eq!(function_visitor(&program.func), 42);
    assert_eq!(statement_visitor(&program.func.stmt), 42);
    assert_eq!(expression_visitor(&program.func.stmt.expr), 42);
}
