use toycc::passes::cmir_to_lir::lower_cmir;
use toycc::passes::concretize_mir::concretize_mir;
use toycc::passes::hir_to_mir::MIRBuilder;
use toycc::passes::make_hir::lower_ast;
use toycc::shared::definitions::{BlockId, CellId};
use toycc::stages::mir::{MIRPlaceBase, MIRStatement, MIRTerminator, MIRValueKind};
use toycc::shared::definitions::{BinaryOperator, FuncId, FuncSignature, GenTypeVariable, VarId};
use toycc::shared::tables::GenericTypetable;
use toycc::shared::typing::{GenericType, PrimType};
use toycc::stages::ast::{ASTExpression, ASTFunction, ASTLValue, ASTProgram, ASTStatement};
use toycc::stages::hir::{HIRExpressionKind, HIRStatement, PlaceKind};

fn int_t() -> GenericType {
    GenericType::Prim(PrimType::Integer)
}

fn unit_t() -> GenericType {
    GenericType::Prim(PrimType::Unit)
}

fn func(name: &str, args: Vec<(String, GenericType)>, body: Vec<ASTStatement>, ret: GenericType) -> (FuncSignature<GenericType>, ASTFunction) {
    let f = ASTFunction { name: name.to_string(), typvars: vec![], args, body, ret_type: ret };
    (f.get_signature(), f)
}

fn var(name: &str) -> ASTExpression {
    ASTExpression::Variable(name.to_string())
}

/// fn double(x: int) -> int { return x + x; }
/// fn main() { let y: int = double(21); y = y + 1; print(y); }
fn sample_program() -> ASTProgram {
    let double = func(
        "double",
        vec![("x".to_string(), int_t())],
        vec![ASTStatement::Return(ASTExpression::BinOp {
            op: BinaryOperator::Add,
            left: Box::new(var("x")),
            right: Box::new(var("x")),
        })],
        int_t(),
    );
    let main = func(
        "main",
        vec![],
        vec![
            ASTStatement::Let {
                var: GenTypeVariable { name: "y".to_string(), typ: int_t() },
                value: ASTExpression::FuncCall {
                    funcname: "double".to_string(),
                    type_params: vec![],
                    args: vec![ASTExpression::IntLiteral(21)],
                },
            },
            ASTStatement::Assign {
                target: ASTLValue::Variable("y".to_string()),
                value: ASTExpression::BinOp {
                    op: BinaryOperator::Add,
                    left: Box::new(var("y")),
                    right: Box::new(ASTExpression::IntLiteral(1)),
                },
            },
            ASTStatement::Print(var("y")),
        ],
        unit_t(),
    );
    ASTProgram { typetable: GenericTypetable::new(vec![]), functions: vec![double, main] }
}

#[test]
fn lower_ast_resolves_calls_and_variables() {
    let hir = lower_ast(sample_program());
    assert_eq!(hir.entry, FuncId(1));
    assert_eq!(hir.functions.len(), 2);

    let (id0, double) = &hir.functions[0];
    assert_eq!(*id0, FuncId(0));
    assert_eq!(double.args, vec![VarId(0)]);
    assert_eq!(double.body.len(), 1);
    match &double.body[0] {
        HIRStatement::Return(Some(e)) => {
            assert_eq!(e.typ, int_t());
            match &e.expr {
                HIRExpressionKind::BinOp { op, left, right } => {
                    assert_eq!(*op, BinaryOperator::Add);
                    assert!(matches!(left.expr, HIRExpressionKind::Variable(VarId(0))));
                    assert!(matches!(right.expr, HIRExpressionKind::Variable(VarId(0))));
                }
                other => panic!("unexpected expression {:?}", other),
            }
        }
        other => panic!("unexpected statement {:?}", other),
    }

    let (id1, main) = &hir.functions[1];
    assert_eq!(*id1, FuncId(1));
    assert!(main.args.is_empty());
    assert_eq!(main.variables.len(), 1);
    assert_eq!(main.variables[0].0, VarId(0));
    assert_eq!(main.variables[0].1.name, "y");
    // The unit function gets a trailing return.
    assert_eq!(main.body.len(), 4);
    match &main.body[0] {
        HIRStatement::Let { var, value } => {
            assert_eq!(*var, VarId(0));
            match &value.expr {
                HIRExpressionKind::FuncCall { id, type_params, args } => {
                    assert_eq!(*id, FuncId(0));
                    assert!(type_params.is_empty());
                    assert_eq!(args.len(), 1);
                    assert!(matches!(args[0].expr, HIRExpressionKind::IntLiteral(21)));
                }
                other => panic!("unexpected expression {:?}", other),
            }
        }
        other => panic!("unexpected statement {:?}", other),
    }
    match &main.body[1] {
        HIRStatement::Assign { target, .. } => {
            assert_eq!(target.typ, int_t());
            assert!(matches!(target.place, PlaceKind::Variable(VarId(0))));
        }
        other => panic!("unexpected statement {:?}", other),
    }
    assert!(matches!(main.body[2], HIRStatement::Print(_)));
    assert!(matches!(main.body[3], HIRStatement::Return(None)));
}

#[test]
fn lower_ast_records_calls_in_the_graph() {
    let hir = lower_ast(sample_program());
    let callees = hir.call_graph.get_concrete_callees(&FuncId(1), &vec![]);
    assert_eq!(callees.len(), 1);
    assert_eq!(callees[0].0, FuncId(0));
    assert!(hir.call_graph.get_concrete_callees(&FuncId(0), &vec![]).is_empty());
}

#[test]
fn lower_hir_builds_blocks_and_cells() {

    let mir = MIRBuilder::lower_hir(lower_ast(sample_program()));
    assert_eq!(mir.entry, FuncId(1));
    assert_eq!(mir.functions.len(), 2);

    // double: the argument in cell 0, the sum in cell 1, one block that returns it.
    let (id0, double) = &mir.functions[0];
    assert_eq!(*id0, FuncId(0));
    assert_eq!(double.args, vec![CellId(0)]);
    assert_eq!(double.cells.len(), 2);
    assert_eq!(double.cells[0].0, CellId(0));
    assert_eq!(double.cells[1].0, CellId(1));
    assert_eq!(double.entry, BlockId(1));
    assert_eq!(double.blocks.len(), 1);
    let (bid, block) = &double.blocks[0];
    assert_eq!(*bid, BlockId(1));
    assert_eq!(block.statements.len(), 1);
    match &block.statements[0] {
        MIRStatement::BinOp { target, op, .. } => {
            assert_eq!(target.base, MIRPlaceBase::Cell(CellId(1)));
            assert_eq!(*op, BinaryOperator::Add);
        }
        other => panic!("unexpected statement {:?}", other),
    }
    match &block.terminator {
        MIRTerminator::Return(Some(v)) => match &v.value {
            MIRValueKind::Place(p) => assert_eq!(p.base, MIRPlaceBase::Cell(CellId(1))),
            other => panic!("unexpected value {:?}", other),
        },
        other => panic!("unexpected terminator {:?}", other),
    }

    // main: cells continue from 2; blocks from 2.
    let (id1, main) = &mir.functions[1];
    assert_eq!(*id1, FuncId(1));
    assert!(main.args.is_empty());
    let cell_ids: Vec<CellId> = main.cells.iter().map(|c| c.0).collect();
    assert_eq!(cell_ids, vec![CellId(2), CellId(3), CellId(4)]);
    assert_eq!(main.entry, BlockId(2));
    assert_eq!(main.blocks.len(), 1);
    let block = &main.blocks[0].1;
    // call, store the result, add, store the sum, print
    assert_eq!(block.statements.len(), 5);
    match &block.statements[0] {
        MIRStatement::Call { target, func, args, .. } => {
            assert_eq!(target.base, MIRPlaceBase::Cell(CellId(3)));
            assert_eq!(*func, FuncId(0));
            assert_eq!(args.len(), 1);
            assert!(matches!(args[0].value, MIRValueKind::IntLiteral(21)));
        }
        other => panic!("unexpected statement {:?}", other),
    }
    match &block.statements[1] {
        MIRStatement::Assign { target, .. } => assert_eq!(target.base, MIRPlaceBase::Cell(CellId(2))),
        other => panic!("unexpected statement {:?}", other),
    }
    assert!(matches!(block.statements[2], MIRStatement::BinOp { .. }));
    assert!(matches!(block.statements[4], MIRStatement::Print(_)));
    assert!(matches!(block.terminator, MIRTerminator::Return(None)));
}

#[test]
fn lower_hir_splits_loops_into_blocks() {

    // fn main() { let i: int = 0; while i < 3 { i = i + 1; } print(i); }
    let main = func(
        "main",
        vec![],
        vec![
            ASTStatement::Let {
                var: GenTypeVariable { name: "i".to_string(), typ: int_t() },
                value: ASTExpression::IntLiteral(0),
            },
            ASTStatement::While {
                condition: ASTExpression::BinOp {
                    op: BinaryOperator::Less,
                    left: Box::new(var("i")),
                    right: Box::new(ASTExpression::IntLiteral(3)),
                },
                body: vec![ASTStatement::Assign {
                    target: ASTLValue::Variable("i".to_string()),
                    value: ASTExpression::BinOp {
                        op: BinaryOperator::Add,
                        left: Box::new(var("i")),
                        right: Box::new(ASTExpression::IntLiteral(1)),
                    },
                }],
            },
            ASTStatement::Print(var("i")),
        ],
        unit_t(),
    );
    let program = ASTProgram { typetable: GenericTypetable::new(vec![]), functions: vec![main] };
    let mir = MIRBuilder::lower_hir(lower_ast(program));
    let f = &mir.functions[0].1;
    // entry 1, loop head 2, after the loop 3, loop body 4
    assert_eq!(f.entry, BlockId(1));
    let find = |id: usize| f.blocks.iter().find(|b| b.0 == BlockId(id)).map(|b| &b.1);
    let entry = find(1).expect("entry block");
    assert!(matches!(entry.terminator, MIRTerminator::Goto(BlockId(2))));
    let head = find(2).expect("loop head");
    match &head.terminator {
        MIRTerminator::Branch { then_, else_, .. } => {
            assert_eq!(*then_, BlockId(4));
            assert_eq!(*else_, BlockId(3));
        }
        other => panic!("unexpected terminator {:?}", other),
    }
    let body = find(4).expect("loop body");
    assert!(matches!(body.terminator, MIRTerminator::Goto(BlockId(2))));
    let after = find(3).expect("after the loop");
    assert_eq!(after.statements.len(), 1);
    assert!(matches!(after.terminator, MIRTerminator::Return(None)));
    assert_eq!(f.blocks.len(), 4);
}

#[test]
fn whole_pipeline_runs_on_a_small_program() {

    let mir = MIRBuilder::lower_hir(lower_ast(sample_program()));
    let cmir = concretize_mir(mir).unwrap();
    assert_eq!(cmir.functions.len(), 2);
    let lir = lower_cmir(cmir);
    assert_eq!(lir.functions.len(), 2);
}

#[test]
fn lowered_blocks_have_distinct_ids() {

    // fn main() { let i: int = 0; while i < 3 { if i == 1 { print(i); } else { break; } i = i + 1; } }
    let body = vec![
        ASTStatement::If {
            condition: ASTExpression::BinOp {
                op: BinaryOperator::Equals,
                left: Box::new(var("i")),
                right: Box::new(ASTExpression::IntLiteral(1)),
            },
            if_body: vec![ASTStatement::Print(var("i"))],
            else_body: Some(vec![ASTStatement::Break]),
        },
        ASTStatement::Assign {
            target: ASTLValue::Variable("i".to_string()),
            value: ASTExpression::BinOp {
                op: BinaryOperator::Add,
                left: Box::new(var("i")),
                right: Box::new(ASTExpression::IntLiteral(1)),
            },
        },
    ];
    let main = func(
        "main",
        vec![],
        vec![
            ASTStatement::Let {
                var: GenTypeVariable { name: "i".to_string(), typ: int_t() },
                value: ASTExpression::IntLiteral(0),
            },
            ASTStatement::While {
                condition: ASTExpression::BinOp {
                    op: BinaryOperator::Less,
                    left: Box::new(var("i")),
                    right: Box::new(ASTExpression::IntLiteral(3)),
                },
                body,
            },
        ],
        unit_t(),
    );
    let program = ASTProgram { typetable: GenericTypetable::new(vec![]), functions: vec![main] };
    let mir = MIRBuilder::lower_hir(lower_ast(program));
    let f = &mir.functions[0].1;
    let ids: Vec<usize> = f.blocks.iter().map(|b| b.0 .0).collect();
    for i in 0..ids.len() {
        assert!(ids[i] >= 1);
        for j in (i + 1)..ids.len() {
            assert_ne!(ids[i], ids[j]);
        }
    }
    // every jump goes to a finished block
    for (_, b) in f.blocks.iter() {
        match &b.terminator {
            MIRTerminator::Goto(t) => assert!(ids.contains(&t.0)),
            MIRTerminator::Branch { then_, else_, .. } => {
                assert!(ids.contains(&then_.0));
                assert!(ids.contains(&else_.0));
            }
            MIRTerminator::Return(_) => {}
        }
    }
    // cells are numbered consecutively from 0
    for (k, c) in f.cells.iter().enumerate() {
        assert_eq!(c.0, CellId(k));
    }
}

#[test]
fn block_ids_are_unique_across_functions() {
    let mir = MIRBuilder::lower_hir(lower_ast(sample_program()));
    let mut ids: Vec<usize> = Vec::new();
    for (_, f) in mir.functions.iter() {
        for (b, _) in f.blocks.iter() {
            assert!(b.0 >= 1);
            assert!(!ids.contains(&b.0));
            ids.push(b.0);
        }
    }
    assert_eq!(ids.len(), 2);
}

#[test]
fn concrete_cell_tables_accumulate_across_instances() {
    let mir = MIRBuilder::lower_hir(lower_ast(sample_program()));
    let generic_cells: usize = mir.functions.iter().map(|f| f.1.cells.len()).sum();
    let cmir = concretize_mir(mir).unwrap();
    assert_eq!(cmir.functions.len(), 2);
    let first = &cmir.functions[0].1.cells;
    let second = &cmir.functions[1].1.cells;
    // each table holds the cells of every instance up to its own, numbered from 0
    assert!(first.len() <= second.len());
    assert_eq!(&second[..first.len()], &first[..]);
    assert_eq!(second.len(), generic_cells);
    for (k, c) in second.iter().enumerate() {
        assert_eq!(c.0, CellId(k));
    }
}
