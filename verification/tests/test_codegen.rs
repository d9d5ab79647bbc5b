use toycc::passes::cmir_to_lir::lower_cmir;
use toycc::passes::concretize_mir::concretize_mir;
use toycc::passes::hir_to_mir::MIRBuilder;
use toycc::passes::lexing::lex;
use toycc::passes::lir_codegen::{compile_lir, try_compile_lir};
use toycc::passes::make_hir::lower_ast;
use toycc::passes::parse::Parser;
use toycc::shared::definitions::{BinaryOperator, BlockId, CellId, FuncId};
use toycc::shared::tables::{ChunkLayout, LayoutKind};
use toycc::shared::typing::{ConcreteType, PrimType};
use toycc::stages::lir::{LIRBlock, LIRFunction, LIRPlace, LIRProgram, LIRStatement, LIRTerminator, LIRValue, StackFrame};

fn frame(cells: &[(usize, usize)]) -> StackFrame {
    let layouts: Vec<(CellId, ChunkLayout)> = cells
        .iter()
        .map(|(id, size)| {
            (
                CellId(*id),
                ChunkLayout { size: *size, typ: ConcreteType::Prim(PrimType::Integer), kind: LayoutKind::Atomic },
            )
        })
        .collect();
    StackFrame::from_layouts(&layouts)
}

fn local(base: usize, offset: usize) -> LIRPlace {
    LIRPlace::Local { base: CellId(base), offset }
}

fn program(func: LIRFunction) -> LIRProgram {
    LIRProgram { functions: vec![(FuncId(0), func)], entry: FuncId(0) }
}

const PROLOGUE: &str = ".global main\n.extern printf\n.align 8\n.data\nfmt: .asciz \"%d\\n\"\n.text\n";

const MAIN: &str = "main:\n    push {fp, lr}\n    mov fp, sp\n    sub sp, sp, #16\n    sub r12, fp, #8\n    bl func_0\n    ldr r0, [r12]\n    add sp, sp, #16\n    pop {fp, lr}\n    bx lr\n";

#[test]
fn compile_store_and_print() {
    let block = LIRBlock {
        statements: vec![
            LIRStatement::Store { dest: local(0, 0), value: LIRValue::IntLiteral(-5) },
            LIRStatement::Print(LIRValue::Place(local(0, 0))),
        ],
        terminator: LIRTerminator::Return(None),
    };
    let func = LIRFunction { blocks: vec![(BlockId(1), block)], entry: BlockId(1), chunks: frame(&[(0, 8)]), args: vec![] };
    let text = compile_lir(program(func));
    let expected = String::new()
        + PROLOGUE
        + "func_0:\n    push {fp, lr}\n    mov fp, sp\n    sub sp, sp, #8\n    b block_1\n"
        + "block_1:\n"
        + "     ldr r0, =-5\n    sub r1, fp, #8\n    str r0, [r1, #-0]]\n"
        + "    sub r1, fp, #8\n    ldr r0, [r1, #-0]]\n"
        + "    mov r1, r0\n    ldr r0, =fmt\n    push {r12}\n    bl printf\n    pop {r12}\n"
        + "    b ret_0\n"
        + "ret_0:\n    str r0, [r12]\n    add sp, sp, #8\n    pop {fp, lr}\n    bx lr\n"
        + MAIN;
    assert_eq!(text, expected);
}

#[test]
fn arguments_lie_above_the_frame_pointer() {
    // args 10 and 11; cell 12 is a local pointer, cell 13 a local int
    let block = LIRBlock {
        statements: vec![
            LIRStatement::BinOp {
                dest: local(13, 0),
                op: BinaryOperator::Modulo,
                left: LIRValue::Place(local(10, 0)),
                right: LIRValue::Place(local(11, 0)),
            },
            LIRStatement::Store { dest: LIRPlace::Deref { pointer: CellId(12), offset: 4 }, value: LIRValue::BoolTrue },
        ],
        terminator: LIRTerminator::Branch {
            condition: LIRValue::Place(local(13, 0)),
            then_block: BlockId(2),
            else_block: BlockId(3),
        },
    };
    let func = LIRFunction {
        blocks: vec![(BlockId(1), block)],
        entry: BlockId(1),
        chunks: frame(&[(10, 8), (11, 8), (12, 8), (13, 8)]),
        args: vec![CellId(10), CellId(11)],
    };
    let text = compile_lir(program(func));
    let body = String::new()
        + "block_1:\n"
        + "    add r1, fp, #16\n    ldr r0, [r1, #-0]]\n"
        + "    mov r1, r0\n"
        + "    add r1, fp, #8\n    ldr r0, [r1, #-0]]\n"
        + "    sdiv r2, r1, r0\n    mul r2, r0, r2\n    sub r0, r1, r2\n"
        + "    sub r1, fp, #32\n    str r0, [r1, #-0]]\n"
        + "    ldr r0, =1\n"
        + "    sub r1, fp, #24\n    ldr r1, [r1]\n    str r0, [r1, #-4]]\n"
        + "    sub r1, fp, #32\n    ldr r0, [r1, #-0]]\n"
        + "    cmp r0, #1\n    beq block_2\n    b block_3\n";
    assert!(text.contains(&body), "{}", text);
    assert!(text.contains("    sub sp, sp, #32\n"));
}

#[test]
fn calls_push_argument_addresses_last_first() {
    let block = LIRBlock {
        statements: vec![LIRStatement::Call { dest: local(2, 0), func: FuncId(3), args: vec![local(0, 0), local(1, 8)] }],
        terminator: LIRTerminator::Return(Some(LIRValue::Place(local(2, 0)))),
    };
    let func = LIRFunction {
        blocks: vec![(BlockId(7), block)],
        entry: BlockId(7),
        chunks: frame(&[(2, 8), (0, 8), (1, 16)]),
        args: vec![],
    };
    let text = compile_lir(program(func));
    let body = String::new()
        + "block_7:\n"
        + "    sub r1, fp, #24\n    sub r0, r1, #8\n     push {r0}\n"
        + "    sub r1, fp, #16\n    sub r0, r1, #0\n     push {r0}\n"
        + "    sub r1, fp, #8\n    sub r0, r1, #0\n     push {r0}\n"
        + "    bl func_3\n"
        + "    sub r1, fp, #8\n    ldr r0, [r1, #-0]]\n"
        + "    b ret_0\n";
    assert!(text.contains(&body), "{}", text);
    assert!(text.contains("    sub sp, sp, #32\n"));
}

#[test]
fn try_compile_refuses_a_place_outside_the_frame() {
    let block = LIRBlock {
        statements: vec![LIRStatement::Print(LIRValue::Place(local(5, 0)))],
        terminator: LIRTerminator::Goto { dest: BlockId(1) },
    };
    let func = LIRFunction { blocks: vec![(BlockId(1), block)], entry: BlockId(1), chunks: frame(&[(0, 8)]), args: vec![] };
    assert!(try_compile_lir(program(func)).is_none());
}

#[test]
fn try_compile_accepts_what_it_can_address() {
    let block = LIRBlock {
        statements: vec![LIRStatement::Print(LIRValue::Reference(local(4, 0)))],
        terminator: LIRTerminator::Goto { dest: BlockId(1) },
    };
    let func = LIRFunction { blocks: vec![(BlockId(1), block)], entry: BlockId(1), chunks: frame(&[]), args: vec![CellId(4)] };
    let text = try_compile_lir(program(func)).expect("argument 4 can be addressed");
    assert!(text.contains("block_1:\n    add r1, fp, #8\n    sub r0, r1, #0\n    mov r1, r0\n"));
    assert!(text.contains("    b block_1\n"));
    assert!(text.starts_with(PROLOGUE));
    assert!(text.ends_with(MAIN));
}

#[test]
fn source_text_compiles_to_assembly() {
    let mut toks = lex("fun main() { print(1 + 2 * 3); }");
    toks.pop();
    let lir = lower_cmir(concretize_mir(MIRBuilder::lower_hir(lower_ast(Parser::parse_program(toks)))).unwrap());
    let text = try_compile_lir(lir).expect("the lowered program can be compiled");
    assert!(text.starts_with(PROLOGUE));
    assert!(text.contains("func_0:\n"));
    assert!(text.contains("    mul r0, r1, r0\n"));
    assert!(text.contains("    add r0, r1, r0\n"));
    assert!(text.contains("    bl printf\n"));
    assert!(text.ends_with(MAIN));
}
