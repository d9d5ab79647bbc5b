use toycc::passes::cmir_to_lir::lower_cmir;
use toycc::passes::concretize_mir::concretize_mir;
use toycc::shared::callgraph::CallGraph;
use toycc::shared::definitions::{BlockId, CellId, FuncId, NewtypeId};
use toycc::shared::tables::{GenericShape, GenericTypeDef, GenericTypetable};
use toycc::shared::typing::{ConcreteType, GenericType, PrimType};
use toycc::stages::cmir::{
    CMIRBlock, CMIRFunction, CMIRPlace, CMIRPlaceBase, CMIRProgram, CMIRStatement, CMIRTerminator, CMIRValue, CMIRValueKind,
};
use toycc::stages::lir::{LIRPlace, LIRStatement, LIRTerminator, LIRValue};
use toycc::stages::mir::{
    MIRBlock, MIRFunction, MIRPlace, MIRPlaceBase, MIRProgram, MIRStatement, MIRTerminator, MIRValue, MIRValueKind,
};

fn gint() -> GenericType {
    GenericType::Prim(PrimType::Integer)
}

fn cint() -> ConcreteType {
    ConcreteType::Prim(PrimType::Integer)
}

fn pair_table() -> GenericTypetable {
    GenericTypetable::new(vec![(
        NewtypeId("Pair".to_string()),
        GenericTypeDef {
            type_params: vec![],
            defn: GenericShape::Struct { fields: vec![("a".to_string(), gint()), ("b".to_string(), gint())] },
        },
    )])
}

fn pair() -> ConcreteType {
    ConcreteType::NewType(NewtypeId("Pair".to_string()), vec![])
}

fn mir_place(typ: GenericType, cell: usize) -> MIRPlace {
    MIRPlace { typ, base: MIRPlaceBase::Cell(CellId(cell)), fieldchain: vec![] }
}

#[test]
fn concretize_instantiates_a_generic_callee() {
    // main calls id<int>(3); id<T>(x: T) returns x.
    let mut g = CallGraph::new(&vec![(FuncId(0), vec![]), (FuncId(1), vec!["T".to_string()])]);
    g.add_callee(&FuncId(0), (FuncId(1), vec![gint()]));
    let main = MIRFunction {
        name: "main".to_string(),
        typvars: vec![],
        args: vec![],
        cells: vec![(CellId(0), gint())],
        blocks: vec![(
            BlockId(1),
            MIRBlock {
                statements: vec![MIRStatement::Call {
                    target: mir_place(gint(), 0),
                    func: FuncId(1),
                    type_params: vec![gint()],
                    args: vec![MIRValue { typ: gint(), value: MIRValueKind::IntLiteral(3) }],
                }],
                terminator: MIRTerminator::Return(None),
            },
        )],
        entry: BlockId(1),
        ret_type: GenericType::Prim(PrimType::Unit),
    };
    let tv = GenericType::TypeVar("T".to_string());
    let id = MIRFunction {
        name: "id".to_string(),
        typvars: vec!["T".to_string()],
        args: vec![CellId(0)],
        cells: vec![(CellId(0), tv.clone())],
        blocks: vec![(
            BlockId(1),
            MIRBlock {
                statements: vec![],
                terminator: MIRTerminator::Return(Some(MIRValue { typ: tv.clone(), value: MIRValueKind::Place(mir_place(tv.clone(), 0)) })),
            },
        )],
        entry: BlockId(1),
        ret_type: tv,
    };
    let program = MIRProgram {
        typetable: GenericTypetable::new(Vec::new()),
        call_graph: g,
        functions: vec![(FuncId(0), main), (FuncId(1), id)],
        entry: FuncId(0),
    };
    let cmir = concretize_mir(program).unwrap();
    assert_eq!(cmir.functions.len(), 2);
    let (entry_id, entry_fn) = cmir.functions.iter().find(|(_, f)| f.name == "main").unwrap();
    assert_eq!(*entry_id, cmir.entry);
    let (id_id, id_fn) = cmir.functions.iter().find(|(_, f)| f.name == "id").unwrap();
    assert_eq!(id_fn.ret_type, cint());
    assert!(id_fn.cells.iter().any(|(c, t)| *c == id_fn.args[0] && *t == cint()));
    match &entry_fn.blocks[0].1.statements[0] {
        CMIRStatement::Call { func, args, .. } => {
            assert_eq!(func, id_id);
            assert!(matches!(args[0].value, CMIRValueKind::IntLiteral(3)));
        },
        other => panic!("expected a call, found {:?}", other),
    }
}

#[test]
fn concretize_reports_an_unbound_type_variable() {
    let g = CallGraph::new(&vec![(FuncId(0), vec![])]);
    let main = MIRFunction {
        name: "main".to_string(),
        typvars: vec![],
        args: vec![],
        cells: vec![(CellId(0), GenericType::TypeVar("Q".to_string()))],
        blocks: vec![(BlockId(0), MIRBlock { statements: vec![], terminator: MIRTerminator::Return(None) })],
        entry: BlockId(0),
        ret_type: GenericType::Prim(PrimType::Unit),
    };
    let program = MIRProgram {
        typetable: GenericTypetable::new(Vec::new()),
        call_graph: g,
        functions: vec![(FuncId(0), main)],
        entry: FuncId(0),
    };
    let r = concretize_mir(program);
    assert!(matches!(r, Err(toycc::shared::definitions::CompileError::FunctionMonomorphization(_, _))));
}

fn cplace(typ: ConcreteType, cell: usize, chain: Vec<&str>) -> CMIRPlace {
    CMIRPlace { typ, base: CMIRPlaceBase::Cell(CellId(cell)), fieldchain: chain.into_iter().map(|s| s.to_string()).collect() }
}

#[test]
fn lowering_places_fields_at_their_offsets() {
    let literal = CMIRValue {
        typ: pair(),
        value: CMIRValueKind::StructLiteral {
            fields: vec![
                ("b".to_string(), CMIRValue { typ: cint(), value: CMIRValueKind::IntLiteral(2) }),
                ("a".to_string(), CMIRValue { typ: cint(), value: CMIRValueKind::IntLiteral(1) }),
            ],
        },
    };
    let func = CMIRFunction {
        name: "main".to_string(),
        args: vec![],
        cells: vec![(CellId(0), pair()), (CellId(1), cint())],
        blocks: vec![(
            BlockId(3),
            CMIRBlock {
                statements: vec![
                    CMIRStatement::Assign { target: cplace(pair(), 0, vec![]), value: literal },
                    CMIRStatement::Assign {
                        target: cplace(cint(), 1, vec![]),
                        value: CMIRValue { typ: cint(), value: CMIRValueKind::Place(cplace(cint(), 0, vec!["b"])) },
                    },
                ],
                terminator: CMIRTerminator::Goto(BlockId(3)),
            },
        )],
        entry: BlockId(3),
        ret_type: ConcreteType::Prim(PrimType::Unit),
    };
    let program = CMIRProgram {
        functions: vec![(FuncId(0), func)],
        entry: FuncId(0),
        newtype_monomorphs: vec![(NewtypeId("Pair".to_string()), vec![])],
        typetable: pair_table(),
    };
    let lir = lower_cmir(program);
    assert_eq!(lir.entry, FuncId(0));
    let (fid, f) = &lir.functions[0];
    assert_eq!(*fid, FuncId(0));
    assert_eq!(f.entry, BlockId(3));
    assert_eq!(f.chunks.size(), 24);
    let (bid, block) = &f.blocks[0];
    assert_eq!(*bid, BlockId(3));
    assert_eq!(block.statements.len(), 3);
    assert!(matches!(
        block.statements[0],
        LIRStatement::Store { dest: LIRPlace::Local { base: CellId(0), offset: 0 }, value: LIRValue::IntLiteral(1) }
    ));
    assert!(matches!(
        block.statements[1],
        LIRStatement::Store { dest: LIRPlace::Local { base: CellId(0), offset: 8 }, value: LIRValue::IntLiteral(2) }
    ));
    assert!(matches!(
        block.statements[2],
        LIRStatement::Store {
            dest: LIRPlace::Local { base: CellId(1), offset: 0 },
            value: LIRValue::Place(LIRPlace::Local { base: CellId(0), offset: 8 })
        }
    ));
    assert_eq!(block.terminator, LIRTerminator::Goto { dest: BlockId(3) });
}

#[test]
fn lowering_a_call_stores_arguments_in_fresh_chunks() {
    let func = CMIRFunction {
        name: "main".to_string(),
        args: vec![CellId(0)],
        cells: vec![(CellId(0), cint())],
        blocks: vec![(
            BlockId(0),
            CMIRBlock {
                statements: vec![CMIRStatement::Call {
                    target: cplace(cint(), 0, vec![]),
                    func: FuncId(0),
                    args: vec![CMIRValue { typ: cint(), value: CMIRValueKind::IntLiteral(4) }],
                }],
                terminator: CMIRTerminator::Return(Some(CMIRValue { typ: cint(), value: CMIRValueKind::Place(cplace(cint(), 0, vec![])) })),
            },
        )],
        entry: BlockId(0),
        ret_type: cint(),
    };
    let program = CMIRProgram {
        functions: vec![(FuncId(0), func)],
        entry: FuncId(0),
        newtype_monomorphs: vec![],
        typetable: GenericTypetable::new(Vec::new()),
    };
    let lir = lower_cmir(program);
    let f = &lir.functions[0].1;
    assert_eq!(f.args, vec![CellId(0)]);
    assert_eq!(f.chunks.size(), 16);
    let block = &f.blocks[0].1;
    assert!(matches!(
        block.statements[0],
        LIRStatement::Store { dest: LIRPlace::Local { base: CellId(1), offset: 0 }, value: LIRValue::IntLiteral(4) }
    ));
    match &block.statements[1] {
        LIRStatement::Call { dest, func, args } => {
            assert_eq!(*dest, LIRPlace::Local { base: CellId(0), offset: 0 });
            assert_eq!(*func, FuncId(0));
            assert_eq!(args, &vec![LIRPlace::Local { base: CellId(1), offset: 0 }]);
        },
        other => panic!("expected a call, found {:?}", other),
    }
    assert_eq!(block.terminator, LIRTerminator::Return(Some(LIRValue::Place(LIRPlace::Local { base: CellId(0), offset: 0 }))));
}

#[test]
fn lowering_a_struct_operand_takes_a_temporary_chunk() {
    let literal = CMIRValue {
        typ: pair(),
        value: CMIRValueKind::StructLiteral {
            fields: vec![
                ("a".to_string(), CMIRValue { typ: cint(), value: CMIRValueKind::IntLiteral(1) }),
                ("b".to_string(), CMIRValue { typ: cint(), value: CMIRValueKind::IntLiteral(2) }),
            ],
        },
    };
    let func = CMIRFunction {
        name: "main".to_string(),
        args: vec![],
        cells: vec![(CellId(0), cint())],
        blocks: vec![(
            BlockId(0),
            CMIRBlock { statements: vec![CMIRStatement::Print(literal)], terminator: CMIRTerminator::Return(None) },
        )],
        entry: BlockId(0),
        ret_type: ConcreteType::Prim(PrimType::Unit),
    };
    let program = CMIRProgram {
        functions: vec![(FuncId(0), func)],
        entry: FuncId(0),
        newtype_monomorphs: vec![(NewtypeId("Pair".to_string()), vec![])],
        typetable: pair_table(),
    };
    let lir = lower_cmir(program);
    let f = &lir.functions[0].1;
    // the cell's chunk, then the temporary the literal is stored in
    assert_eq!(f.chunks.size(), 24);
    assert_eq!(f.chunks.get_offset(&CellId(0)), Some(8));
    assert_eq!(f.chunks.get_offset(&CellId(1)), Some(16));
    let block = &f.blocks[0].1;
    assert_eq!(block.statements.len(), 3);
    assert!(matches!(
        block.statements[2],
        LIRStatement::Print(LIRValue::Place(LIRPlace::Local { base: CellId(1), offset: 0 }))
    ));
}
