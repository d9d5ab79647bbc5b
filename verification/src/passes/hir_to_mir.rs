use vstd::prelude::*;

use crate::passes::cmir_to_lir::chain_view;
use crate::passes::concretize_mir::clone_chain;
use crate::passes::make_hir::find_last;
use crate::shared::definitions::{BinaryOperator, BlockId, CellId, FuncId, GenTypeVariable, VarId};
use crate::shared::tables::{clone_generic_vec, clone_params};
use crate::shared::typing::{clone_generic, generic_views, GType, GenericType, PrimType};
use crate::stages::hir::{HIRExpression, HIRExpressionKind, HIRFunction, HIRProgram, HIRStatement, Place, PlaceKind};
use crate::stages::mir::{
    MIRBlock, MIRFunction, MIRPlace, MIRPlaceBase, MIRProgram, MIRStatement, MIRTerminator, MIRValue, MIRValueKind,
};

verus! {

// ---------------------------------------------------------------------------------------------
// A mathematical view of MIR.

pub struct PlaceV {
    pub typ: GType,
    pub base: MIRPlaceBase,
    pub chain: Seq<Seq<char>>,
}

pub enum ValKV {
    Place(PlaceV),
    Int(i32),
    True,
    False,
    Struct(Seq<(Seq<char>, ValV)>),
    Ref(PlaceV),
}

pub struct ValV {
    pub typ: GType,
    pub kind: ValKV,
}

pub enum StmtV {
    Assign(PlaceV, ValV),
    BinOp(PlaceV, BinaryOperator, ValV, ValV),
    Call(PlaceV, FuncId, Seq<GType>, Seq<ValV>),
    Print(ValV),
}

pub enum TermV {
    Goto(BlockId),
    Branch(ValV, BlockId, BlockId),
    Return(Option<ValV>),
}

pub struct BlockV {
    pub stmts: Seq<StmtV>,
    pub term: TermV,
}

pub open spec fn place_v(p: MIRPlace) -> PlaceV {
    PlaceV { typ: p.typ@, base: p.base, chain: chain_view(p.fieldchain@) }
}

pub open spec fn val_v(v: MIRValue) -> ValV
    decreases v, 1nat, 0nat,
{
    ValV {
        typ: v.typ@,
        kind: match v.value {
            MIRValueKind::Place(p) => ValKV::Place(place_v(p)),
            MIRValueKind::IntLiteral(n) => ValKV::Int(n),
            MIRValueKind::BoolTrue => ValKV::True,
            MIRValueKind::BoolFalse => ValKV::False,
            MIRValueKind::StructLiteral { fields } => ValKV::Struct(fields_v(v, fields@.len() as int)),
            MIRValueKind::Reference(p) => ValKV::Ref(place_v(p)),
        },
    }
}

/// The first `n` fields of a struct literal value.
pub open spec fn fields_v(v: MIRValue, n: int) -> Seq<(Seq<char>, ValV)>
    decreases v, 0nat, n,
{
    if n <= 0 || !(v.value is StructLiteral) || n > v.value->StructLiteral_fields@.len() {
        Seq::empty()
    } else {
        let fs = v.value->StructLiteral_fields@;
        proof {
            assert(decreases_to!(v => v.value));
            assert(decreases_to!(v.value => v.value->StructLiteral_fields));
            assert(decreases_to!(v.value->StructLiteral_fields => fs));
            assert(decreases_to!(fs => fs[n - 1]));
            assert(decreases_to!(fs[n - 1] => fs[n - 1].1));
        }
        fields_v(v, n - 1).push((fs[n - 1].0@, val_v(fs[n - 1].1)))
    }
}

pub open spec fn fseq_v(fs: Seq<(String, MIRValue)>) -> Seq<(Seq<char>, ValV)> {
    fs.map_values(|f: (String, MIRValue)| (f.0@, val_v(f.1)))
}

pub proof fn lemma_fields_v(v: MIRValue, n: int)
    requires
        v.value is StructLiteral,
        0 <= n <= v.value->StructLiteral_fields@.len(),
    ensures
        fields_v(v, n) == fseq_v(v.value->StructLiteral_fields@.subrange(0, n)),
    decreases n,
{
    if n > 0 {
        lemma_fields_v(v, n - 1);
        let fs = v.value->StructLiteral_fields@;
        assert(fseq_v(fs.subrange(0, n)) =~= fseq_v(fs.subrange(0, n - 1)).push((fs[n - 1].0@, val_v(fs[n - 1].1))));
    } else {
        assert(fseq_v(v.value->StructLiteral_fields@.subrange(0, 0)) =~= Seq::empty());
    }
}

pub open spec fn vals_v(s: Seq<MIRValue>) -> Seq<ValV> {
    s.map_values(|v: MIRValue| val_v(v))
}

pub open spec fn stmt_v(s: MIRStatement) -> StmtV {
    match s {
        MIRStatement::Assign { target, value } => StmtV::Assign(place_v(target), val_v(value)),
        MIRStatement::BinOp { target, op, left, right } => StmtV::BinOp(place_v(target), op, val_v(left), val_v(right)),
        MIRStatement::Call { target, func, type_params, args } => StmtV::Call(
            place_v(target),
            func,
            generic_views(type_params@),
            vals_v(args@),
        ),
        MIRStatement::Print(v) => StmtV::Print(val_v(v)),
    }
}

pub open spec fn stmts_v(s: Seq<MIRStatement>) -> Seq<StmtV> {
    s.map_values(|x: MIRStatement| stmt_v(x))
}

pub open spec fn term_v(t: MIRTerminator) -> TermV {
    match t {
        MIRTerminator::Goto(b) => TermV::Goto(b),
        MIRTerminator::Branch { condition, then_, else_ } => TermV::Branch(val_v(condition), then_, else_),
        MIRTerminator::Return(v) => TermV::Return(
            match v {
                Some(x) => Some(val_v(x)),
                None => None,
            },
        ),
    }
}

pub open spec fn block_v(b: MIRBlock) -> BlockV {
    BlockV { stmts: stmts_v(b.statements@), term: term_v(b.terminator) }
}

pub open spec fn blocks_v(bs: Seq<(BlockId, MIRBlock)>) -> Seq<(BlockId, BlockV)> {
    bs.map_values(|b: (BlockId, MIRBlock)| (b.0, block_v(b.1)))
}

pub open spec fn cells_v(cs: Seq<(CellId, GenericType)>) -> Seq<(CellId, GType)> {
    cs.map_values(|c: (CellId, GenericType)| (c.0, c.1@))
}

// ---------------------------------------------------------------------------------------------
// Lowering expressions.

pub open spec fn int_g() -> GType {
    GType::Prim(PrimType::Integer)
}

pub open spec fn bool_g() -> GType {
    GType::Prim(PrimType::Bool)
}

/// A whole cell of type `typ`.
pub open spec fn cell_place(typ: GType, c: nat) -> PlaceV {
    PlaceV { typ, base: MIRPlaceBase::Cell(CellId(c as usize)), chain: Seq::empty() }
}

/// What lowering an expression yields: its value, the statements that compute it, and the
/// types of the temporary cells it introduces, numbered on from the first free cell.
pub type LowE = (ValV, Seq<StmtV>, Seq<GType>);

/// Lowering `e` with `vm` mapping variables to cells and `c` the first free cell; `None` where
/// a variable has no cell, or a field access or reference is applied to something that is not
/// stored in memory.
pub open spec fn low_e(vm: Seq<(VarId, CellId)>, c: nat, e: HIRExpression) -> Option<LowE>
    decreases e, 1nat, 0nat,
{
    match e.expr {
        HIRExpressionKind::IntLiteral(n) => Some((ValV { typ: int_g(), kind: ValKV::Int(n) }, Seq::empty(), Seq::empty())),
        HIRExpressionKind::BoolTrue => Some((ValV { typ: bool_g(), kind: ValKV::True }, Seq::empty(), Seq::empty())),
        HIRExpressionKind::BoolFalse => Some((ValV { typ: bool_g(), kind: ValKV::False }, Seq::empty(), Seq::empty())),
        HIRExpressionKind::Variable(id) => match find_last(vm, id) {
            Some(cell) => Some((
                ValV {
                    typ: e.typ@,
                    kind: ValKV::Place(PlaceV { typ: e.typ@, base: MIRPlaceBase::Cell(cell), chain: Seq::empty() }),
                },
                Seq::empty(),
                Seq::empty(),
            )),
            None => None,
        },
        HIRExpressionKind::BinOp { op, left, right } => match low_e(vm, c, *left) {
            Some(l) => match low_e(vm, c + l.2.len(), *right) {
                Some(r) => {
                    let target = cell_place(e.typ@, c + l.2.len() + r.2.len());
                    Some((
                        ValV { typ: e.typ@, kind: ValKV::Place(target) },
                        l.1 + r.1 + seq![StmtV::BinOp(target, op, l.0, r.0)],
                        l.2 + r.2 + seq![e.typ@],
                    ))
                },
                None => None,
            },
            None => None,
        },
        HIRExpressionKind::FuncCall { id, type_params, args } => match low_args(vm, c, e, args@.len() as int) {
            Some(a) => {
                let target = cell_place(e.typ@, c + a.2.len());
                Some((
                    ValV { typ: e.typ@, kind: ValKV::Place(target) },
                    a.1 + seq![StmtV::Call(target, id, generic_views(type_params@), a.0)],
                    a.2 + seq![e.typ@],
                ))
            },
            None => None,
        },
        HIRExpressionKind::FieldAccess { expr, field } => match low_e(vm, c, *expr) {
            Some(b) => match b.0.kind {
                ValKV::Place(p) => Some((
                    ValV { typ: e.typ@, kind: ValKV::Place(PlaceV { typ: e.typ@, base: p.base, chain: p.chain.push(field@) }) },
                    b.1,
                    b.2,
                )),
                _ => None,
            },
            None => None,
        },
        HIRExpressionKind::StructLiteral { fields } => match low_fields(vm, c, e, fields@.len() as int) {
            Some(f) => Some((ValV { typ: e.typ@, kind: ValKV::Struct(f.0) }, f.1, f.2)),
            None => None,
        },
        HIRExpressionKind::Reference(x) => match low_e(vm, c, *x) {
            Some(r) => match r.0.kind {
                ValKV::Place(p) => Some((ValV { typ: GType::Reference(Box::new(r.0.typ)), kind: ValKV::Ref(p) }, r.1, r.2)),
                ValKV::Ref(_) => {
                    let t = cell_place(r.0.typ, c + r.2.len());
                    Some((
                        ValV { typ: e.typ@, kind: ValKV::Ref(t) },
                        r.1 + seq![StmtV::Assign(t, r.0)],
                        r.2 + seq![r.0.typ],
                    ))
                },
                _ => None,
            },
            None => None,
        },
        HIRExpressionKind::Dereference(x) => match low_e(vm, c, *x) {
            Some(r) => {
                let t = c + r.2.len();
                Some((
                    ValV {
                        typ: e.typ@,
                        kind: ValKV::Place(PlaceV { typ: e.typ@, base: MIRPlaceBase::Deref(CellId(t as usize)), chain: Seq::empty() }),
                    },
                    r.1 + seq![StmtV::Assign(cell_place(r.0.typ, t), r.0)],
                    r.2 + seq![r.0.typ],
                ))
            },
            None => None,
        },
    }
}

/// Lowering the first `n` arguments of a call, left to right.
pub open spec fn low_args(vm: Seq<(VarId, CellId)>, c: nat, e: HIRExpression, n: int) -> Option<(Seq<ValV>, Seq<StmtV>, Seq<GType>)>
    decreases e, 0nat, n,
{
    if n <= 0 || !(e.expr is FuncCall) || n > e.expr->FuncCall_args@.len() {
        Some((Seq::empty(), Seq::empty(), Seq::empty()))
    } else {
        let args = e.expr->FuncCall_args@;
        match low_args(vm, c, e, n - 1) {
            Some(p) => {
                proof {
                    assert(decreases_to!(e => e.expr));
                    assert(decreases_to!(e.expr => e.expr->FuncCall_args));
                    assert(decreases_to!(e.expr->FuncCall_args => args));
                    assert(decreases_to!(args => args[n - 1]));
                }
                match low_e(vm, c + p.2.len(), args[n - 1]) {
                    Some(a) => Some((p.0.push(a.0), p.1 + a.1, p.2 + a.2)),
                    None => None,
                }
            },
            None => None,
        }
    }
}

/// Lowering the first `n` fields of a struct literal, in order.
pub open spec fn low_fields(vm: Seq<(VarId, CellId)>, c: nat, e: HIRExpression, n: int) -> Option<(Seq<(Seq<char>, ValV)>, Seq<StmtV>, Seq<GType>)>
    decreases e, 0nat, n,
{
    if n <= 0 || !(e.expr is StructLiteral) || n > e.expr->StructLiteral_fields@.len() {
        Some((Seq::empty(), Seq::empty(), Seq::empty()))
    } else {
        let fs = e.expr->StructLiteral_fields@;
        match low_fields(vm, c, e, n - 1) {
            Some(p) => {
                proof {
                    assert(decreases_to!(e => e.expr));
                    assert(decreases_to!(e.expr => e.expr->StructLiteral_fields));
                    assert(decreases_to!(e.expr->StructLiteral_fields => fs));
                    assert(decreases_to!(fs => fs[n - 1]));
                    assert(decreases_to!(fs[n - 1] => fs[n - 1].1));
                }
                match low_e(vm, c + p.2.len(), fs[n - 1].1) {
                    Some(a) => Some((p.0.push((fs[n - 1].0@, a.0)), p.1 + a.1, p.2 + a.2)),
                    None => None,
                }
            },
            None => None,
        }
    }
}

/// A bound on the cells lowering an expression introduces: its number of nodes.
pub open spec fn size_e(e: HIRExpression) -> nat
    decreases e, 1nat, 0nat,
{
    1 + match e.expr {
        HIRExpressionKind::BinOp { left, right, .. } => size_e(*left) + size_e(*right),
        HIRExpressionKind::FuncCall { args, .. } => size_args(e, args@.len() as int),
        HIRExpressionKind::FieldAccess { expr, .. } => size_e(*expr),
        HIRExpressionKind::StructLiteral { fields } => size_fields(e, fields@.len() as int),
        HIRExpressionKind::Reference(x) => size_e(*x),
        HIRExpressionKind::Dereference(x) => size_e(*x),
        _ => 0,
    }
}

pub open spec fn size_args(e: HIRExpression, n: int) -> nat
    decreases e, 0nat, n,
{
    if n <= 0 || !(e.expr is FuncCall) || n > e.expr->FuncCall_args@.len() {
        0
    } else {
        let args = e.expr->FuncCall_args@;
        proof {
            assert(decreases_to!(e => e.expr));
            assert(decreases_to!(e.expr => e.expr->FuncCall_args));
            assert(decreases_to!(e.expr->FuncCall_args => args));
            assert(decreases_to!(args => args[n - 1]));
        }
        size_args(e, n - 1) + size_e(args[n - 1])
    }
}

pub open spec fn size_fields(e: HIRExpression, n: int) -> nat
    decreases e, 0nat, n,
{
    if n <= 0 || !(e.expr is StructLiteral) || n > e.expr->StructLiteral_fields@.len() {
        0
    } else {
        let fs = e.expr->StructLiteral_fields@;
        proof {
            assert(decreases_to!(e => e.expr));
            assert(decreases_to!(e.expr => e.expr->StructLiteral_fields));
            assert(decreases_to!(e.expr->StructLiteral_fields => fs));
            assert(decreases_to!(fs => fs[n - 1]));
            assert(decreases_to!(fs[n - 1] => fs[n - 1].1));
        }
        size_fields(e, n - 1) + size_e(fs[n - 1].1)
    }
}

/// Cells `c, c + 1, ...` with the given types.
pub open spec fn number_cells(c: nat, ts: Seq<GType>) -> Seq<(CellId, GType)> {
    Seq::new(ts.len(), |i: int| (CellId((c + i) as usize), ts[i]))
}

// ---------------------------------------------------------------------------------------------
// Lowering places, statements and blocks.

/// Lowering an assignment target with cells numbered from `c`: the place, the statements that
/// compute it, and the types of the cells it introduces.
pub open spec fn low_p(vm: Seq<(VarId, CellId)>, c: nat, p: Place) -> Option<(PlaceV, Seq<StmtV>, Seq<GType>)>
    decreases p,
{
    match p.place {
        PlaceKind::Variable(id) => match find_last(vm, id) {
            Some(cell) => Some((PlaceV { typ: p.typ@, base: MIRPlaceBase::Cell(cell), chain: Seq::empty() }, Seq::empty(), Seq::empty())),
            None => None,
        },
        PlaceKind::StructField { of, field } => match low_p(vm, c, *of) {
            Some(q) => Some((PlaceV { typ: p.typ@, base: q.0.base, chain: q.0.chain.push(field@) }, q.1, q.2)),
            None => None,
        },
        PlaceKind::Deref(r) => match low_e(vm, c, r) {
            Some(x) => {
                let t = c + x.2.len();
                Some((
                    PlaceV { typ: p.typ@, base: MIRPlaceBase::Deref(CellId(t as usize)), chain: Seq::empty() },
                    x.1 + seq![StmtV::Assign(cell_place(x.0.typ, t), x.0)],
                    x.2 + seq![x.0.typ],
                ))
            },
            None => None,
        },
    }
}

pub open spec fn size_p(p: Place) -> nat
    decreases p,
{
    1 + match p.place {
        PlaceKind::StructField { of, .. } => size_p(*of),
        PlaceKind::Deref(r) => size_e(r),
        _ => 0,
    }
}

/// What lowering a statement does to the block being filled: add statements to it, end it
/// (nothing after the statement in the same block is lowered), or end it and go on in a new
/// block.
pub enum LowV {
    Stmts(Seq<StmtV>),
    Term(Seq<StmtV>, TermV),
    Split(Seq<StmtV>, TermV, BlockId),
}

pub open spec fn push_block(s: BSt, id: BlockId, b: BlockV) -> BSt {
    BSt { blocks: s.blocks.push((id, b)), ..s }
}

/// The state after taking `n` fresh block identifiers.
pub open spec fn take_blocks(s: BSt, n: nat) -> BSt {
    BSt { bc: s.bc + n, ..s }
}

/// Lowering statement `st` in state `s`, inside the loops `loops` (innermost last: the block a
/// `continue` and a `break` go to). `None` where a variable has no cell, a `break` or
/// `continue` is outside any loop, or an expression cannot be lowered.
pub open spec fn low_s(vm: Seq<(VarId, CellId)>, loops: Seq<(BlockId, BlockId)>, s: BSt, st: HIRStatement) -> Option<(BSt, LowV)>
    decreases st, 0nat,
{
    match st {
        HIRStatement::Let { var, value } => match find_last(vm, var) {
            Some(cell) => match find_last(s.cells, cell) {
                Some(ty) => match low_e(vm, s.cc, value) {
                    Some(x) => Some((
                        add_cells(s, x.2),
                        LowV::Stmts(x.1.push(StmtV::Assign(PlaceV { typ: ty, base: MIRPlaceBase::Cell(cell), chain: Seq::empty() }, x.0))),
                    )),
                    None => None,
                },
                None => None,
            },
            None => None,
        },
        HIRStatement::Assign { target, value } => match low_e(vm, s.cc, value) {
            Some(x) => match low_p(vm, s.cc + x.2.len(), target) {
                Some(q) => Some((add_cells(s, x.2 + q.2), LowV::Stmts(x.1 + q.1 + seq![StmtV::Assign(q.0, x.0)]))),
                None => None,
            },
            None => None,
        },
        HIRStatement::If { condition, if_body, else_body } => match low_e(vm, s.cc, condition) {
            Some(x) => {
                let s1 = add_cells(s, x.2);
                let merge = BlockId(s1.bc as usize);
                match low_b(vm, loops, take_blocks(s1, 1), if_body, TermV::Goto(merge)) {
                    Some(t) => {
                        let e = match else_body {
                            Some(eb) => low_b(vm, loops, t.0, eb, TermV::Goto(merge)),
                            None => Some((t.0, merge)),
                        };
                        match e {
                            Some(e) => Some((e.0, LowV::Split(x.1, TermV::Branch(x.0, t.1, e.1), merge))),
                            None => None,
                        }
                    },
                    None => None,
                }
            },
            None => None,
        },
        HIRStatement::While { condition, body } => {
            let head = BlockId(s.bc as usize);
            let after = BlockId((s.bc + 1) as usize);
            match low_b(vm, loops.push((head, after)), take_blocks(s, 2), body, TermV::Goto(head)) {
                Some(b) => match low_e(vm, b.0.cc, condition) {
                    Some(x) => Some((
                        push_block(add_cells(b.0, x.2), head, BlockV { stmts: x.1, term: TermV::Branch(x.0, b.1, after) }),
                        LowV::Split(Seq::empty(), TermV::Goto(head), after),
                    )),
                    None => None,
                },
                None => None,
            }
        },
        HIRStatement::Break => if loops.len() > 0 {
            Some((s, LowV::Term(Seq::empty(), TermV::Goto(loops.last().1))))
        } else {
            None
        },
        HIRStatement::Continue => if loops.len() > 0 {
            Some((s, LowV::Term(Seq::empty(), TermV::Goto(loops.last().0))))
        } else {
            None
        },
        HIRStatement::Return(v) => match v {
            Some(e) => match low_e(vm, s.cc, e) {
                Some(x) => Some((add_cells(s, x.2), LowV::Term(x.1, TermV::Return(Some(x.0))))),
                None => None,
            },
            None => Some((s, LowV::Term(Seq::empty(), TermV::Return(None)))),
        },
        HIRStatement::Print(e) => match low_e(vm, s.cc, e) {
            Some(x) => Some((add_cells(s, x.2), LowV::Stmts(x.1.push(StmtV::Print(x.0))))),
            None => None,
        },
        HIRStatement::Call(e) => match low_e(vm, s.cc, e) {
            Some(x) => Some((add_cells(s, x.2), LowV::Stmts(x.1))),
            None => None,
        },
    }
}

/// Where lowering the statements of a block has got to: the state, the block being filled and
/// its statements so far, whether it holds any, and whether the block has ended.
pub struct Steps {
    pub st: BSt,
    pub cur: BlockId,
    pub acc: Seq<StmtV>,
    pub open: bool,
    pub done: bool,
}

/// Lowering a block into a new entry block; a block still being filled at the end, and holding
/// statements, ends with `tail`. Yields the state and the entry block.
pub open spec fn low_b(vm: Seq<(VarId, CellId)>, loops: Seq<(BlockId, BlockId)>, s: BSt, stmts: Vec<HIRStatement>, tail: TermV) -> Option<(BSt, BlockId)>
    decreases stmts, stmts@.len() + 1,
{
    let entry = BlockId(s.bc as usize);
    match low_steps(vm, loops, take_blocks(s, 1), entry, stmts, stmts@.len() as int) {
        Some(r) => Some((
            if !r.done && r.open { push_block(r.st, r.cur, BlockV { stmts: r.acc, term: tail }) } else { r.st },
            entry,
        )),
        None => None,
    }
}

/// Lowering the first `n` statements of a block that starts at `entry`.
pub open spec fn low_steps(
    vm: Seq<(VarId, CellId)>,
    loops: Seq<(BlockId, BlockId)>,
    s: BSt,
    entry: BlockId,
    stmts: Vec<HIRStatement>,
    n: int,
) -> Option<Steps>
    decreases stmts, n,
{
    if n <= 0 || n > stmts@.len() {
        if n <= 0 { Some(Steps { st: s, cur: entry, acc: Seq::empty(), open: false, done: false }) } else { None }
    } else {
        match low_steps(vm, loops, s, entry, stmts, n - 1) {
            Some(p) => if p.done {
                Some(p)
            } else {
                proof {
                    assert(decreases_to!(stmts => stmts@));
                    assert(decreases_to!(stmts@ => stmts@[n - 1]));
                }
                match low_s(vm, loops, p.st, stmts@[n - 1]) {
                    Some(r) => Some(match r.1 {
                        LowV::Stmts(ss) => Steps { st: r.0, cur: p.cur, acc: p.acc + ss, open: true, done: false },
                        LowV::Term(ss, t) => Steps {
                            st: push_block(r.0, p.cur, BlockV { stmts: p.acc + ss, term: t }),
                            cur: p.cur,
                            acc: Seq::empty(),
                            open: false,
                            done: true,
                        },
                        LowV::Split(pre, t, next) => Steps {
                            st: push_block(r.0, p.cur, BlockV { stmts: p.acc + pre, term: t }),
                            cur: next,
                            acc: Seq::empty(),
                            open: false,
                            done: false,
                        },
                    }),
                    None => None,
                }
            },
            None => None,
        }
    }
}

/// A bound on the cells and blocks lowering a statement takes.
pub open spec fn size_s(st: HIRStatement) -> nat
    decreases st, 0nat,
{
    2 + match st {
        HIRStatement::Let { value, .. } => size_e(value),
        HIRStatement::Assign { target, value } => size_e(value) + size_p(target),
        HIRStatement::If { condition, if_body, else_body } => size_e(condition) + size_b(if_body) + match else_body {
            Some(eb) => size_b(eb),
            None => 0,
        },
        HIRStatement::While { condition, body } => size_e(condition) + size_b(body),
        HIRStatement::Return(v) => match v {
            Some(e) => size_e(e),
            None => 0,
        },
        HIRStatement::Print(e) => size_e(e),
        HIRStatement::Call(e) => size_e(e),
        _ => 0,
    }
}

pub open spec fn size_b(stmts: Vec<HIRStatement>) -> nat
    decreases stmts, stmts@.len() + 1,
{
    1 + size_stmts(stmts, stmts@.len() as int)
}

pub open spec fn size_stmts(stmts: Vec<HIRStatement>, n: int) -> nat
    decreases stmts, n,
{
    if n <= 0 || n > stmts@.len() {
        0
    } else {
        proof {
            assert(decreases_to!(stmts => stmts@));
            assert(decreases_to!(stmts@ => stmts@[n - 1]));
        }
        size_stmts(stmts, n - 1) + size_s(stmts@[n - 1])
    }
}

// ---------------------------------------------------------------------------------------------
// Lowering functions and programs.

/// The cells of a function's variables, numbered from `c`.
pub open spec fn var_cells(c: nat, vars: Seq<(VarId, GenTypeVariable)>) -> Seq<(CellId, GType)> {
    Seq::new(vars.len(), |i: int| (CellId((c + i) as usize), vars[i].1.typ@))
}

/// Each variable mapped to its cell.
pub open spec fn var_entries(c: nat, vars: Seq<(VarId, GenTypeVariable)>) -> Seq<(VarId, CellId)> {
    Seq::new(vars.len(), |i: int| (vars[i].0, CellId((c + i) as usize)))
}

/// A lowered function, without what it copies unchanged from the HIR function (its name, type
/// variables and return type): its argument cells, its cells, its blocks in the order they were
/// finished, and its entry block.
pub struct FuncV {
    pub args: Seq<CellId>,
    pub cells: Seq<(CellId, GType)>,
    pub blocks: Seq<(BlockId, BlockV)>,
    pub entry: BlockId,
}

pub open spec fn func_v(f: MIRFunction) -> FuncV {
    FuncV { args: f.args@, cells: cells_v(f.cells@), blocks: blocks_v(f.blocks@), entry: f.entry }
}

/// Lowering function `f` with variable map `vm` and first free cell `c` and block `b`: each
/// variable gets a new cell, then the body becomes a block that returns at its end. Yields the
/// extended variable map, the next free cell and block, and the function.
pub open spec fn low_f(vm: Seq<(VarId, CellId)>, c: nat, b: nat, f: HIRFunction) -> Option<(Seq<(VarId, CellId)>, nat, nat, FuncV)> {
    let vars = f.variables@;
    let vm1 = vm + var_entries(c, vars);
    let s = BSt { cc: c + vars.len(), cells: var_cells(c, vars), bc: b, blocks: Seq::empty() };
    match low_b(vm1, Seq::empty(), s, f.body, TermV::Return(None)) {
        Some(r) => if forall|i: int| 0 <= i < f.args@.len() ==> (#[trigger] find_last(vm1, f.args@[i])) is Some {
            Some((
                vm1,
                r.0.cc,
                r.0.bc,
                FuncV {
                    args: f.args@.map_values(|a: VarId| find_last(vm1, a)->Some_0),
                    cells: r.0.cells,
                    blocks: r.0.blocks,
                    entry: r.1,
                },
            ))
        } else {
            None
        },
        None => None,
    }
}

/// Lowering the first `n` functions of a program, one after the other; cells are numbered
/// from 0 and blocks from 1 across the whole program.
pub open spec fn low_fs(fs: Seq<(FuncId, HIRFunction)>, n: int) -> Option<(Seq<(VarId, CellId)>, nat, nat, Seq<FuncV>)>
    decreases n,
{
    if n <= 0 {
        Some((Seq::empty(), 0, 1, Seq::empty()))
    } else {
        match low_fs(fs, n - 1) {
            Some(p) => match low_f(p.0, p.1, p.2, fs[n - 1].1) {
                Some(f) => Some((f.0, f.1, f.2, p.3.push(f.3))),
                None => None,
            },
            None => None,
        }
    }
}

/// A bound on the cells and blocks lowering the first `n` functions takes.
pub open spec fn size_fs(fs: Seq<(FuncId, HIRFunction)>, n: int) -> nat
    decreases n,
{
    if n <= 0 {
        0
    } else {
        size_fs(fs, n - 1) + fs[n - 1].1.variables@.len() + size_b(fs[n - 1].1.body)
    }
}

pub proof fn lemma_size_fs_prefix(fs: Seq<(FuncId, HIRFunction)>, m: int, n: int)
    requires
        0 <= m <= n,
    ensures
        size_fs(fs, m) <= size_fs(fs, n),
    decreases n - m,
{
    if m < n {
        lemma_size_fs_prefix(fs, m, n - 1);
    }
}

pub proof fn lemma_low_fs_prefix(fs: Seq<(FuncId, HIRFunction)>, m: int, n: int)
    requires
        0 <= m <= n,
        low_fs(fs, n) is Some,
    ensures
        low_fs(fs, m) is Some,
    decreases n - m,
{
    if m < n {
        lemma_low_fs_prefix(fs, m, n - 1);
    }
}

/// The program's functions can be lowered, within the machine's counters.
pub open spec fn lowerable(p: HIRProgram) -> bool {
    let fs = p.functions@;
    &&& low_fs(fs, fs.len() as int) is Some
    &&& size_fs(fs, fs.len() as int) + 1 <= usize::MAX
}

// ---------------------------------------------------------------------------------------------
// The builder.

/// What the builder has produced for the current function: the first free cell, the cells so
/// far, the first free block and the finished blocks, in the order they were finished.
pub struct BSt {
    pub cc: nat,
    pub cells: Seq<(CellId, GType)>,
    pub bc: nat,
    pub blocks: Seq<(BlockId, BlockV)>,
}

/// The state after introducing cells of the given types.
pub open spec fn add_cells(s: BSt, ts: Seq<GType>) -> BSt {
    BSt { cc: s.cc + ts.len(), cells: s.cells + number_cells(s.cc, ts), ..s }
}

/// Turns the functions of a program into control-flow graphs over numbered cells.
pub struct MIRBuilder {
    var_map: Vec<(VarId, CellId)>,
    current_cells: Vec<(CellId, GenericType)>,
    cell_counter: usize,
    block_counter: usize,
    loop_start_stack: Vec<BlockId>,
    loop_end_stack: Vec<BlockId>,
    curr_collected_blocks: Vec<(BlockId, MIRBlock)>,
}

/// What lowering a statement does to the block being filled (see `LowV`).
enum LoweredStatement {
    Statements(Vec<MIRStatement>),
    Termination(Vec<MIRStatement>, MIRTerminator),
    TabulaRasa(Vec<MIRStatement>, MIRTerminator, BlockId),
}

spec fn lowered_v(l: LoweredStatement) -> LowV {
    match l {
        LoweredStatement::Statements(ss) => LowV::Stmts(stmts_v(ss@)),
        LoweredStatement::Termination(ss, t) => LowV::Term(stmts_v(ss@), term_v(t)),
        LoweredStatement::TabulaRasa(ss, t, next) => LowV::Split(stmts_v(ss@), term_v(t), next),
    }
}

fn clone_place(p: &MIRPlace) -> (r: MIRPlace)
    ensures
        place_v(r) == place_v(*p),
{
    MIRPlace { typ: clone_generic(&p.typ), base: p.base, fieldchain: clone_chain(&p.fieldchain) }
}

fn cell_mplace(typ: GenericType, cell: CellId) -> (r: MIRPlace)
    ensures
        place_v(r) == cell_place(typ@, cell.0 as nat),
{
    let r = MIRPlace { typ, base: MIRPlaceBase::Cell(cell), fieldchain: Vec::new() };
    assert(chain_view(r.fieldchain@) =~= Seq::empty());
    r
}

impl MIRBuilder {
    pub closed spec fn st(&self) -> BSt {
        BSt {
            cc: self.cell_counter as nat,
            cells: cells_v(self.current_cells@),
            bc: self.block_counter as nat,
            blocks: blocks_v(self.curr_collected_blocks@),
        }
    }

    /// The cell of each variable; a later entry for a variable shadows earlier ones.
    pub closed spec fn vm(&self) -> Seq<(VarId, CellId)> {
        self.var_map@
    }

    /// The enclosing loops, innermost last: where a `continue` and a `break` go.
    pub closed spec fn loops(&self) -> Seq<(BlockId, BlockId)> {
        Seq::new(self.loop_start_stack@.len(), |i: int| (self.loop_start_stack@[i], self.loop_end_stack@[i]))
    }

    pub closed spec fn wf(&self) -> bool {
        self.loop_start_stack@.len() == self.loop_end_stack@.len()
    }

    fn add_cell(&mut self, typ: GenericType) -> (r: CellId)
        requires
            old(self).st().cc < usize::MAX,
        ensures
            r == CellId(old(self).st().cc as usize),
            final(self).st() == add_cells(old(self).st(), seq![typ@]),
            final(self).vm() == old(self).vm(),
            final(self).loops() == old(self).loops(),
            final(self).wf() == old(self).wf(),
    {
        let new_id = CellId(self.cell_counter);
        self.cell_counter = self.cell_counter + 1;
        self.current_cells.push((new_id, typ));
        proof {
            assert(cells_v(self.current_cells@) =~= cells_v(old(self).current_cells@) + number_cells(old(self).st().cc, seq![typ@]));
        }
        new_id
    }

    fn lookup_var(&self, id: &VarId) -> (r: CellId)
        requires
            find_last(self.vm(), *id) is Some,
        ensures
            r == find_last(self.vm(), *id)->Some_0,
    {
        let mut i: usize = self.var_map.len();
        assert(self.var_map@.subrange(0, i as int) =~= self.var_map@);
        while i > 0
            invariant
                i <= self.var_map@.len(),
                find_last(self.var_map@.subrange(0, i as int), *id) == find_last(self.vm(), *id),
            decreases i,
        {
            assert(self.var_map@.subrange(0, i as int).drop_last() =~= self.var_map@.subrange(0, i - 1));
            if self.var_map[i - 1].0 == *id {
                return self.var_map[i - 1].1;
            }
            i = i - 1;
        }
        assert(self.var_map@.subrange(0, 0) =~= Seq::<(VarId, CellId)>::empty());
        proof {
            assert(false);
        }
        CellId(0)
    }

    /// Extends the place a value is stored in by one field.
    fn lower_field_access(&self, of: MIRValue, field: String, typ: GenericType) -> (r: MIRValue)
        requires
            of.value is Place,
        ensures
            val_v(r) == (ValV {
                typ: typ@,
                kind: ValKV::Place(PlaceV {
                    typ: typ@,
                    base: place_v(of.value->Place_0).base,
                    chain: place_v(of.value->Place_0).chain.push(field@),
                }),
            }),
    {
        match of.value {
            MIRValueKind::Place(place) => {
                let mut fieldchain = place.fieldchain;
                let ghost before = fieldchain@;
                fieldchain.push(field);
                assert(chain_view(fieldchain@) =~= chain_view(before).push(field@));
                let access_place = MIRPlace { typ: clone_generic(&typ), base: place.base, fieldchain };
                MIRValue { typ, value: MIRValueKind::Place(access_place) }
            },
            _ => unreached(),
        }
    }

    #[verifier::spinoff_prover]
    fn lower_call(&mut self, expr: &HIRExpression) -> (r: (MIRValue, Vec<MIRStatement>))
        requires
            expr.expr is FuncCall,
            low_e(old(self).vm(), old(self).st().cc, *expr) is Some,
            old(self).st().cc + size_e(*expr) <= usize::MAX,
        ensures
            ({
                let x = low_e(old(self).vm(), old(self).st().cc, *expr)->Some_0;
                &&& val_v(r.0) == x.0
                &&& stmts_v(r.1@) == x.1
                &&& final(self).st() == add_cells(old(self).st(), x.2)
                &&& x.2.len() <= size_e(*expr)
            }),
            final(self).vm() == old(self).vm(),
            final(self).loops() == old(self).loops(),
            final(self).wf() == old(self).wf(),
        decreases *expr, 0nat,
    {
        let ghost vm = self.vm();
        let ghost s0 = self.st();
        let ghost c = s0.cc;
        let HIRExpressionKind::FuncCall { id, type_params, args } = &expr.expr else { unreached() };
        let mut arg_vals: Vec<MIRValue> = Vec::new();
        let mut stmts: Vec<MIRStatement> = Vec::new();
        let mut i: usize = 0;
        assert(add_cells(s0, Seq::empty()) =~= s0);
        while i < args.len()
            invariant
                i <= args@.len(),
                expr.expr is FuncCall,
                c == s0.cc,
                args@ == expr.expr->FuncCall_args@,
                low_args(vm, c, *expr, args@.len() as int) is Some,
                c + size_args(*expr, args@.len() as int) <= usize::MAX,
                self.vm() == vm,
                self.loops() == old(self).loops(),
                self.wf() == old(self).wf(),
                ({
                    let a = low_args(vm, c, *expr, i as int)->Some_0;
                    &&& low_args(vm, c, *expr, i as int) is Some
                    &&& vals_v(arg_vals@) == a.0
                    &&& stmts_v(stmts@) == a.1
                    &&& self.st() == add_cells(s0, a.2)
                    &&& a.2.len() <= size_args(*expr, i as int)
                }),
            decreases args.len() - i,
        {
            proof {
                lemma_low_args_prefix(vm, c, *expr, i + 1, args@.len() as int);
                lemma_size_args_prefix(*expr, i + 1, args@.len() as int);
                assert(size_args(*expr, i + 1) == size_args(*expr, i as int) + size_e(args@[i as int]));
                assert(decreases_to!(*expr => expr.expr));
                assert(decreases_to!(expr.expr => expr.expr->FuncCall_args));
                assert(decreases_to!(expr.expr->FuncCall_args => args@));
                assert(decreases_to!(args@ => args@[i as int]));
            }
            let ghost p = low_args(vm, c, *expr, i as int)->Some_0;
            assert(low_args(vm, c, *expr, i + 1) is Some);
            assert(low_e(vm, c + p.2.len(), args@[i as int]) is Some);
            let (v, mut vs) = self.lower_expr(&args[i]);
            let ghost vs0 = vs@;
            let ghost before = stmts@;
            let ghost vals_before = arg_vals@;
            stmts.append(&mut vs);
            arg_vals.push(v);
            proof {
                let a = low_e(vm, c + p.2.len(), args@[i as int])->Some_0;
                assert(vals_v(arg_vals@) =~= vals_v(vals_before).push(val_v(v)));
                assert(stmts@ =~= before + vs0);
                lemma_stmts_v_concat(before, vs0);
                lemma_add_cells(s0, p.2, a.2);
            }
            i = i + 1;
        }
        let ghost a = low_args(vm, c, *expr, args@.len() as int)->Some_0;
        let resc_id = self.add_cell(clone_generic(&expr.typ));
        let target = cell_mplace(clone_generic(&expr.typ), resc_id);
        let call_stmt = MIRStatement::Call {
            target: clone_place(&target),
            func: *id,
            type_params: clone_generic_vec(type_params),
            args: arg_vals,
        };
        let ghost before = stmts@;
        stmts.push(call_stmt);
        proof {
            assert(stmts_v(stmts@) =~= stmts_v(before).push(stmt_v(call_stmt)));
            lemma_add_cells(s0, a.2, seq![expr.typ@]);
        }
        (MIRValue { typ: clone_generic(&expr.typ), value: MIRValueKind::Place(target) }, stmts)
    }

    #[verifier::spinoff_prover]
    fn lower_struct_literal(&mut self, expr: &HIRExpression) -> (r: (MIRValue, Vec<MIRStatement>))
        requires
            expr.expr is StructLiteral,
            low_e(old(self).vm(), old(self).st().cc, *expr) is Some,
            old(self).st().cc + size_e(*expr) <= usize::MAX,
        ensures
            ({
                let x = low_e(old(self).vm(), old(self).st().cc, *expr)->Some_0;
                &&& val_v(r.0) == x.0
                &&& stmts_v(r.1@) == x.1
                &&& final(self).st() == add_cells(old(self).st(), x.2)
                &&& x.2.len() <= size_e(*expr)
            }),
            final(self).vm() == old(self).vm(),
            final(self).loops() == old(self).loops(),
            final(self).wf() == old(self).wf(),
        decreases *expr, 0nat,
    {
        let ghost vm = self.vm();
        let ghost s0 = self.st();
        let ghost c = s0.cc;
        let HIRExpressionKind::StructLiteral { fields } = &expr.expr else { unreached() };
        let mut out: Vec<(String, MIRValue)> = Vec::new();
        let mut stmts: Vec<MIRStatement> = Vec::new();
        let mut i: usize = 0;
        assert(add_cells(s0, Seq::empty()) =~= s0);
        assert(fseq_v(out@) =~= Seq::empty());
        while i < fields.len()
            invariant
                i <= fields@.len(),
                expr.expr is StructLiteral,
                c == s0.cc,
                fields@ == expr.expr->StructLiteral_fields@,
                low_fields(vm, c, *expr, fields@.len() as int) is Some,
                c + size_fields(*expr, fields@.len() as int) <= usize::MAX,
                self.vm() == vm,
                self.loops() == old(self).loops(),
                self.wf() == old(self).wf(),
                ({
                    let a = low_fields(vm, c, *expr, i as int)->Some_0;
                    &&& low_fields(vm, c, *expr, i as int) is Some
                    &&& fseq_v(out@) == a.0
                    &&& stmts_v(stmts@) == a.1
                    &&& self.st() == add_cells(s0, a.2)
                    &&& a.2.len() <= size_fields(*expr, i as int)
                }),
            decreases fields.len() - i,
        {
            proof {
                lemma_low_fields_prefix(vm, c, *expr, i + 1, fields@.len() as int);
                lemma_size_fields_prefix(*expr, i + 1, fields@.len() as int);
                assert(size_fields(*expr, i + 1) == size_fields(*expr, i as int) + size_e(fields@[i as int].1));
                assert(decreases_to!(*expr => expr.expr));
                assert(decreases_to!(expr.expr => expr.expr->StructLiteral_fields));
                assert(decreases_to!(expr.expr->StructLiteral_fields => fields@));
                assert(decreases_to!(fields@ => fields@[i as int]));
                assert(decreases_to!(fields@[i as int] => fields@[i as int].1));
            }
            let ghost p = low_fields(vm, c, *expr, i as int)->Some_0;
            assert(low_fields(vm, c, *expr, i + 1) is Some);
            assert(low_e(vm, c + p.2.len(), fields@[i as int].1) is Some);
            let (v, mut vs) = self.lower_expr(&fields[i].1);
            let ghost vs0 = vs@;
            let ghost before = stmts@;
            let ghost out_before = out@;
            stmts.append(&mut vs);
            out.push((fields[i].0.clone(), v));
            proof {
                let a = low_e(vm, c + p.2.len(), fields@[i as int].1)->Some_0;
                assert(fseq_v(out@) =~= fseq_v(out_before).push((fields@[i as int].0@, val_v(v))));
                assert(stmts@ =~= before + vs0);
                lemma_stmts_v_concat(before, vs0);
                lemma_add_cells(s0, p.2, a.2);
            }
            i = i + 1;
        }
        let r = MIRValue { typ: clone_generic(&expr.typ), value: MIRValueKind::StructLiteral { fields: out } };
        proof {
            lemma_fields_v(r, r.value->StructLiteral_fields@.len() as int);
            assert(r.value->StructLiteral_fields@.subrange(0, r.value->StructLiteral_fields@.len() as int)
                =~= r.value->StructLiteral_fields@);
        }
        (r, stmts)
    }

    /// Lowers an expression to a value and the statements that compute it.
    #[verifier::spinoff_prover]
    fn lower_expr(&mut self, expr: &HIRExpression) -> (r: (MIRValue, Vec<MIRStatement>))
        requires
            low_e(old(self).vm(), old(self).st().cc, *expr) is Some,
            old(self).st().cc + size_e(*expr) <= usize::MAX,
        ensures
            ({
                let x = low_e(old(self).vm(), old(self).st().cc, *expr)->Some_0;
                &&& val_v(r.0) == x.0
                &&& stmts_v(r.1@) == x.1
                &&& final(self).st() == add_cells(old(self).st(), x.2)
                &&& x.2.len() <= size_e(*expr)
            }),
            final(self).vm() == old(self).vm(),
            final(self).loops() == old(self).loops(),
            final(self).wf() == old(self).wf(),
        decreases *expr, 1nat,
    {
        let ghost vm = self.vm();
        let ghost s0 = self.st();
        let ghost c = s0.cc;
        match &expr.expr {
            HIRExpressionKind::IntLiteral(n) => {
                let no_stmts: Vec<MIRStatement> = Vec::new();
                assert(stmts_v(no_stmts@) =~= Seq::empty());
                assert(add_cells(s0, Seq::empty()) =~= s0);
                (MIRValue { typ: GenericType::Prim(PrimType::Integer), value: MIRValueKind::IntLiteral(*n) }, no_stmts)
            },
            HIRExpressionKind::BoolTrue => {
                let no_stmts: Vec<MIRStatement> = Vec::new();
                assert(stmts_v(no_stmts@) =~= Seq::empty());
                assert(add_cells(s0, Seq::empty()) =~= s0);
                (MIRValue { typ: GenericType::Prim(PrimType::Bool), value: MIRValueKind::BoolTrue }, no_stmts)
            },
            HIRExpressionKind::BoolFalse => {
                let no_stmts: Vec<MIRStatement> = Vec::new();
                assert(stmts_v(no_stmts@) =~= Seq::empty());
                assert(add_cells(s0, Seq::empty()) =~= s0);
                (MIRValue { typ: GenericType::Prim(PrimType::Bool), value: MIRValueKind::BoolFalse }, no_stmts)
            },
            HIRExpressionKind::Variable(var_id) => {
                let cell = self.lookup_var(var_id);
                let place = cell_mplace(clone_generic(&expr.typ), cell);
                let no_stmts: Vec<MIRStatement> = Vec::new();
                assert(stmts_v(no_stmts@) =~= Seq::empty());
                assert(add_cells(s0, Seq::empty()) =~= s0);
                (MIRValue { typ: clone_generic(&expr.typ), value: MIRValueKind::Place(place) }, no_stmts)
            },
            HIRExpressionKind::BinOp { op, left, right } => {
                let ghost l = low_e(vm, c, **left)->Some_0;
                let ghost rr = low_e(vm, c + l.2.len(), **right)->Some_0;
                let (l_val, mut l_stmts) = self.lower_expr(left);
                let (r_val, mut r_stmts) = self.lower_expr(right);
                let resc_id = self.add_cell(clone_generic(&expr.typ));
                let target = cell_mplace(clone_generic(&expr.typ), resc_id);
                let bin_stmt = MIRStatement::BinOp { target: clone_place(&target), op: *op, left: l_val, right: r_val };
                let ghost ls = l_stmts@;
                let ghost rs = r_stmts@;
                l_stmts.append(&mut r_stmts);
                l_stmts.push(bin_stmt);
                proof {
                    assert(l_stmts@ =~= ls + rs + seq![bin_stmt]);
                    assert(stmts_v(l_stmts@) =~= stmts_v(ls) + stmts_v(rs) + seq![stmt_v(bin_stmt)]);
                    lemma_add_cells(s0, l.2, rr.2);
                    lemma_add_cells(s0, l.2 + rr.2, seq![expr.typ@]);
                }
                (MIRValue { typ: clone_generic(&expr.typ), value: MIRValueKind::Place(target) }, l_stmts)
            },
            HIRExpressionKind::FuncCall { .. } => self.lower_call(expr),
            HIRExpressionKind::FieldAccess { expr: base_expr, field } => {
                let (expr_val, expr_stmts) = self.lower_expr(base_expr);
                let access_val = self.lower_field_access(expr_val, field.clone(), clone_generic(&expr.typ));
                (access_val, expr_stmts)
            },
            HIRExpressionKind::StructLiteral { .. } => self.lower_struct_literal(expr),
            HIRExpressionKind::Reference(refd) => {
                let (mir_refd, mut refd_stmts) = self.lower_expr(refd);
                let MIRValue { typ: refd_typ, value: refd_value } = mir_refd;
                match refd_value {
                    MIRValueKind::Place(refd_place) => {
                        (MIRValue { typ: GenericType::Reference(Box::new(refd_typ)), value: MIRValueKind::Reference(refd_place) }, refd_stmts)
                    },
                    MIRValueKind::Reference(refd_ref) => {
                        let ghost rr = low_e(vm, c, **refd)->Some_0;
                        let tempc = self.add_cell(clone_generic(&refd_typ));
                        let temp_place = cell_mplace(clone_generic(&refd_typ), tempc);
                        let assign_stmt = MIRStatement::Assign {
                            target: clone_place(&temp_place),
                            value: MIRValue { typ: refd_typ, value: MIRValueKind::Reference(refd_ref) },
                        };
                        let ghost before = refd_stmts@;
                        refd_stmts.push(assign_stmt);
                        proof {
                            assert(stmts_v(refd_stmts@) =~= stmts_v(before).push(stmt_v(assign_stmt)));
                            lemma_add_cells(s0, rr.2, seq![rr.0.typ]);
                        }
                        (MIRValue { typ: clone_generic(&expr.typ), value: MIRValueKind::Reference(temp_place) }, refd_stmts)
                    },
                    _ => unreached(),
                }
            },
            HIRExpressionKind::Dereference(reference) => {
                let ghost rr = low_e(vm, c, **reference)->Some_0;
                let (ref_val, mut ref_stmts) = self.lower_expr(reference);
                let ref_val_cell = self.add_cell(clone_generic(&ref_val.typ));
                let ref_assign_stmt = MIRStatement::Assign {
                    target: cell_mplace(clone_generic(&ref_val.typ), ref_val_cell),
                    value: ref_val,
                };
                let ghost before = ref_stmts@;
                ref_stmts.push(ref_assign_stmt);
                let place = MIRPlace { typ: clone_generic(&expr.typ), base: MIRPlaceBase::Deref(ref_val_cell), fieldchain: Vec::new() };
                proof {
                    assert(chain_view(place.fieldchain@) =~= Seq::empty());
                    assert(stmts_v(ref_stmts@) =~= stmts_v(before).push(stmt_v(ref_assign_stmt)));
                    lemma_add_cells(s0, rr.2, seq![rr.0.typ]);
                }
                (MIRValue { typ: clone_generic(&expr.typ), value: MIRValueKind::Place(place) }, ref_stmts)
            },
        }
    }

    fn cell_type(&self, cell: CellId) -> (r: GenericType)
        requires
            find_last(self.st().cells, cell) is Some,
        ensures
            r@ == find_last(self.st().cells, cell)->Some_0,
    {
        let ghost cs = cells_v(self.current_cells@);
        let mut i: usize = self.current_cells.len();
        assert(cells_v(self.current_cells@.subrange(0, i as int)) =~= cs);
        while i > 0
            invariant
                i <= self.current_cells@.len(),
                cs == cells_v(self.current_cells@),
                find_last(cells_v(self.current_cells@.subrange(0, i as int)), cell) == find_last(cs, cell),
            decreases i,
        {
            assert(cells_v(self.current_cells@.subrange(0, i as int)).drop_last()
                =~= cells_v(self.current_cells@.subrange(0, i - 1)));
            if self.current_cells[i - 1].0 == cell {
                return clone_generic(&self.current_cells[i - 1].1);
            }
            i = i - 1;
        }
        assert(cells_v(self.current_cells@.subrange(0, 0)) =~= Seq::<(CellId, GType)>::empty());
        unreached()
    }

    fn add_new_block(&mut self) -> (r: BlockId)
        requires
            old(self).st().bc < usize::MAX,
        ensures
            r == BlockId(old(self).st().bc as usize),
            final(self).st() == take_blocks(old(self).st(), 1),
            final(self).vm() == old(self).vm(),
            final(self).loops() == old(self).loops(),
            final(self).wf() == old(self).wf(),
    {
        let block_id = BlockId(self.block_counter);
        self.block_counter = self.block_counter + 1;
        block_id
    }

    /// Ends block `id` with the given statements and terminator.
    fn terminate_block(&mut self, id: BlockId, statements: Vec<MIRStatement>, terminator: MIRTerminator)
        ensures
            final(self).st() == push_block(old(self).st(), id, BlockV { stmts: stmts_v(statements@), term: term_v(terminator) }),
            final(self).vm() == old(self).vm(),
            final(self).loops() == old(self).loops(),
            final(self).wf() == old(self).wf(),
    {
        let block = MIRBlock { statements, terminator };
        self.curr_collected_blocks.push((id, block));
        assert(blocks_v(self.curr_collected_blocks@) =~= blocks_v(old(self).curr_collected_blocks@).push((id, block_v(block))));
    }

    /// Lowers an assignment target to a place and the statements that compute it.
    fn lower_place(&mut self, hir_place: &Place) -> (r: (MIRPlace, Vec<MIRStatement>))
        requires
            low_p(old(self).vm(), old(self).st().cc, *hir_place) is Some,
            old(self).st().cc + size_p(*hir_place) <= usize::MAX,
        ensures
            ({
                let q = low_p(old(self).vm(), old(self).st().cc, *hir_place)->Some_0;
                &&& place_v(r.0) == q.0
                &&& stmts_v(r.1@) == q.1
                &&& final(self).st() == add_cells(old(self).st(), q.2)
                &&& q.2.len() <= size_p(*hir_place)
            }),
            final(self).vm() == old(self).vm(),
            final(self).loops() == old(self).loops(),
            final(self).wf() == old(self).wf(),
        decreases *hir_place,
    {
        let ghost s0 = self.st();
        match &hir_place.place {
            PlaceKind::Variable(var_id) => {
                let cell = self.lookup_var(var_id);
                let no_stmts: Vec<MIRStatement> = Vec::new();
                assert(stmts_v(no_stmts@) =~= Seq::empty());
                assert(add_cells(s0, Seq::empty()) =~= s0);
                (cell_mplace(clone_generic(&hir_place.typ), cell), no_stmts)
            },
            PlaceKind::StructField { of, field } => {
                let (of_place, of_stmts) = self.lower_place(of);
                let mut fieldchain = of_place.fieldchain;
                let ghost before = fieldchain@;
                fieldchain.push(field.clone());
                assert(chain_view(fieldchain@) =~= chain_view(before).push(field@));
                (MIRPlace { typ: clone_generic(&hir_place.typ), base: of_place.base, fieldchain }, of_stmts)
            },
            PlaceKind::Deref(reference) => {
                let ghost x = low_e(self.vm(), s0.cc, *reference)->Some_0;
                let (ref_val, mut ref_stmts) = self.lower_expr(reference);
                let ref_val_cell = self.add_cell(clone_generic(&ref_val.typ));
                let ref_assign_stmt = MIRStatement::Assign {
                    target: cell_mplace(clone_generic(&ref_val.typ), ref_val_cell),
                    value: ref_val,
                };
                let ghost before = ref_stmts@;
                ref_stmts.push(ref_assign_stmt);
                let place = MIRPlace { typ: clone_generic(&hir_place.typ), base: MIRPlaceBase::Deref(ref_val_cell), fieldchain: Vec::new() };
                proof {
                    assert(chain_view(place.fieldchain@) =~= Seq::empty());
                    assert(stmts_v(ref_stmts@) =~= stmts_v(before).push(stmt_v(ref_assign_stmt)));
                    lemma_add_cells(s0, x.2, seq![x.0.typ]);
                }
                (place, ref_stmts)
            },
        }
    }

    #[verifier::spinoff_prover]
    fn lower_assign(&mut self, stmt: &HIRStatement) -> (r: LoweredStatement)
        requires
            stmt is Assign,
            old(self).wf(),
            low_s(old(self).vm(), old(self).loops(), old(self).st(), *stmt) is Some,
            old(self).st().cc + size_s(*stmt) <= usize::MAX,
            old(self).st().bc + size_s(*stmt) <= usize::MAX,
        ensures
            final(self).wf(),
            final(self).vm() == old(self).vm(),
            final(self).loops() == old(self).loops(),
            final(self).st() == low_s(old(self).vm(), old(self).loops(), old(self).st(), *stmt)->Some_0.0,
            lowered_v(r) == low_s(old(self).vm(), old(self).loops(), old(self).st(), *stmt)->Some_0.1,
            final(self).st().cc <= old(self).st().cc + size_s(*stmt),
            final(self).st().bc <= old(self).st().bc + size_s(*stmt),
        decreases *stmt, 0nat,
    {
        let ghost vm = self.vm();
        let ghost loops = self.loops();
        let ghost s0 = self.st();
        let HIRStatement::Assign { target, value } = stmt else { unreached() };
        let ghost x = low_e(vm, s0.cc, *value)->Some_0;
        let (mir_val, mut val_stmts) = self.lower_expr(value);
        let ghost q = low_p(vm, self.st().cc, *target)->Some_0;
        let (mir_target, mut target_stmts) = self.lower_place(target);
        let ghost vs = val_stmts@;
        let ghost ts = target_stmts@;
        val_stmts.append(&mut target_stmts);
        let assign = MIRStatement::Assign { target: mir_target, value: mir_val };
        val_stmts.push(assign);
        proof {
            assert(val_stmts@ =~= vs + ts + seq![assign]);
            assert(stmts_v(val_stmts@) =~= stmts_v(vs) + stmts_v(ts) + seq![stmt_v(assign)]);
            lemma_add_cells(s0, x.2, q.2);
        }
        LoweredStatement::Statements(val_stmts)
    }

    #[verifier::spinoff_prover]
    fn lower_if(&mut self, stmt: &HIRStatement) -> (r: LoweredStatement)
        requires
            stmt is If,
            old(self).wf(),
            low_s(old(self).vm(), old(self).loops(), old(self).st(), *stmt) is Some,
            old(self).st().cc + size_s(*stmt) <= usize::MAX,
            old(self).st().bc + size_s(*stmt) <= usize::MAX,
        ensures
            final(self).wf(),
            final(self).vm() == old(self).vm(),
            final(self).loops() == old(self).loops(),
            final(self).st() == low_s(old(self).vm(), old(self).loops(), old(self).st(), *stmt)->Some_0.0,
            lowered_v(r) == low_s(old(self).vm(), old(self).loops(), old(self).st(), *stmt)->Some_0.1,
            final(self).st().cc <= old(self).st().cc + size_s(*stmt),
            final(self).st().bc <= old(self).st().bc + size_s(*stmt),
        decreases *stmt, 0nat,
    {
        let ghost vm = self.vm();
        let ghost loops = self.loops();
        let ghost s0 = self.st();
        let HIRStatement::If { condition, if_body, else_body } = stmt else { unreached() };
        let (cond_val, cond_stmts) = self.lower_expr(condition);
        let merge_id = self.add_new_block();
        let then_id = self.lower_stmt_block(if_body, MIRTerminator::Goto(merge_id));
        let else_id = match else_body {
            Some(else_stmts) => self.lower_stmt_block(else_stmts, MIRTerminator::Goto(merge_id)),
            None => merge_id,
        };
        LoweredStatement::TabulaRasa(
            cond_stmts,
            MIRTerminator::Branch { condition: cond_val, then_: then_id, else_: else_id },
            merge_id,
        )
    }

    #[verifier::spinoff_prover]
    fn lower_while(&mut self, stmt: &HIRStatement) -> (r: LoweredStatement)
        requires
            stmt is While,
            old(self).wf(),
            low_s(old(self).vm(), old(self).loops(), old(self).st(), *stmt) is Some,
            old(self).st().cc + size_s(*stmt) <= usize::MAX,
            old(self).st().bc + size_s(*stmt) <= usize::MAX,
        ensures
            final(self).wf(),
            final(self).vm() == old(self).vm(),
            final(self).loops() == old(self).loops(),
            final(self).st() == low_s(old(self).vm(), old(self).loops(), old(self).st(), *stmt)->Some_0.0,
            lowered_v(r) == low_s(old(self).vm(), old(self).loops(), old(self).st(), *stmt)->Some_0.1,
            final(self).st().cc <= old(self).st().cc + size_s(*stmt),
            final(self).st().bc <= old(self).st().bc + size_s(*stmt),
        decreases *stmt, 0nat,
    {
        let ghost vm = self.vm();
        let ghost loops = self.loops();
        let ghost s0 = self.st();
        let HIRStatement::While { condition, body } = stmt else { unreached() };
        let head_id = self.add_new_block();
        let after_id = self.add_new_block();
        self.loop_start_stack.push(head_id);
        self.loop_end_stack.push(after_id);
        assert(self.loops() =~= loops.push((head_id, after_id)));
        let body_id = self.lower_stmt_block(body, MIRTerminator::Goto(head_id));
        let ghost starts = self.loop_start_stack@;
        let ghost ends = self.loop_end_stack@;
        let ghost l1 = self.loops();
        assert(l1.len() == loops.len() + 1);
        self.loop_start_stack.pop();
        self.loop_end_stack.pop();
        proof {
            assert(l1 =~= loops.push((head_id, after_id)));
            assert(self.loop_start_stack@ =~= starts.subrange(0, starts.len() - 1));
            assert(self.loop_end_stack@ =~= ends.subrange(0, ends.len() - 1));
            assert forall|k: int| 0 <= k < loops.len() implies #[trigger] self.loops()[k] == loops[k] by {
                assert(l1[k] == (starts[k], ends[k]));
            }
            assert(self.loops() =~= loops);
        }
        let (cond_val, cond_stmts) = self.lower_expr(condition);
        self.terminate_block(
            head_id,
            cond_stmts,
            MIRTerminator::Branch { condition: cond_val, then_: body_id, else_: after_id },
        );
        let no_stmts: Vec<MIRStatement> = Vec::new();
        assert(stmts_v(no_stmts@) =~= Seq::empty());
        LoweredStatement::TabulaRasa(no_stmts, MIRTerminator::Goto(head_id), after_id)
    }

    /// Lowers a statement, adding to the current function's cells and blocks.
    #[verifier::spinoff_prover]
    fn lower_stmt(&mut self, stmt: &HIRStatement) -> (r: LoweredStatement)
        requires
            old(self).wf(),
            low_s(old(self).vm(), old(self).loops(), old(self).st(), *stmt) is Some,
            old(self).st().cc + size_s(*stmt) <= usize::MAX,
            old(self).st().bc + size_s(*stmt) <= usize::MAX,
        ensures
            final(self).wf(),
            final(self).vm() == old(self).vm(),
            final(self).loops() == old(self).loops(),
            final(self).st() == low_s(old(self).vm(), old(self).loops(), old(self).st(), *stmt)->Some_0.0,
            lowered_v(r) == low_s(old(self).vm(), old(self).loops(), old(self).st(), *stmt)->Some_0.1,
            final(self).st().cc <= old(self).st().cc + size_s(*stmt),
            final(self).st().bc <= old(self).st().bc + size_s(*stmt),
        decreases *stmt, 1nat,
    {
        let ghost vm = self.vm();
        let ghost loops = self.loops();
        let ghost s0 = self.st();
        match stmt {
            HIRStatement::Let { var, value } => {
                let cell_id = self.lookup_var(var);
                let typ = self.cell_type(cell_id);
                let target = cell_mplace(typ, cell_id);
                let (mir_val, mut val_stmts) = self.lower_expr(value);
                let ghost before = val_stmts@;
                let assign = MIRStatement::Assign { target, value: mir_val };
                val_stmts.push(assign);
                assert(stmts_v(val_stmts@) =~= stmts_v(before).push(stmt_v(assign)));
                LoweredStatement::Statements(val_stmts)
            },
            HIRStatement::Assign { .. } => self.lower_assign(stmt),
            HIRStatement::If { .. } => self.lower_if(stmt),
            HIRStatement::While { .. } => self.lower_while(stmt),
            HIRStatement::Break => {
                let target = self.loop_end_stack[self.loop_end_stack.len() - 1];
                let no_stmts: Vec<MIRStatement> = Vec::new();
                assert(stmts_v(no_stmts@) =~= Seq::empty());
                LoweredStatement::Termination(no_stmts, MIRTerminator::Goto(target))
            },
            HIRStatement::Continue => {
                let target = self.loop_start_stack[self.loop_start_stack.len() - 1];
                let no_stmts: Vec<MIRStatement> = Vec::new();
                assert(stmts_v(no_stmts@) =~= Seq::empty());
                LoweredStatement::Termination(no_stmts, MIRTerminator::Goto(target))
            },
            HIRStatement::Return(ret_val) => {
                match ret_val {
                    Some(value) => {
                        let (mir_val, val_stmts) = self.lower_expr(value);
                        LoweredStatement::Termination(val_stmts, MIRTerminator::Return(Some(mir_val)))
                    },
                    None => {
                        let no_stmts: Vec<MIRStatement> = Vec::new();
                        assert(stmts_v(no_stmts@) =~= Seq::empty());
                        LoweredStatement::Termination(no_stmts, MIRTerminator::Return(None))
                    },
                }
            },
            HIRStatement::Print(expr) => {
                let (expr_val, mut expr_stmts) = self.lower_expr(expr);
                let ghost before = expr_stmts@;
                let print = MIRStatement::Print(expr_val);
                expr_stmts.push(print);
                assert(stmts_v(expr_stmts@) =~= stmts_v(before).push(stmt_v(print)));
                LoweredStatement::Statements(expr_stmts)
            },
            HIRStatement::Call(expr) => {
                let (_, expr_stmts) = self.lower_expr(expr);
                LoweredStatement::Statements(expr_stmts)
            },
        }
    }

    /// Lowers the statements of a block into a new entry block, which it returns. Where the
    /// statements leave a block unfinished that holds statements, `tail_termr` ends it.
    #[verifier::spinoff_prover]
    fn lower_stmt_block(&mut self, stmts: &Vec<HIRStatement>, tail_termr: MIRTerminator) -> (r: BlockId)
        requires
            old(self).wf(),
            low_b(old(self).vm(), old(self).loops(), old(self).st(), *stmts, term_v(tail_termr)) is Some,
            old(self).st().cc + size_b(*stmts) <= usize::MAX,
            old(self).st().bc + size_b(*stmts) <= usize::MAX,
        ensures
            final(self).wf(),
            final(self).vm() == old(self).vm(),
            final(self).loops() == old(self).loops(),
            (final(self).st(), r) == low_b(old(self).vm(), old(self).loops(), old(self).st(), *stmts, term_v(tail_termr))->Some_0,
            final(self).st().cc <= old(self).st().cc + size_b(*stmts),
            final(self).st().bc <= old(self).st().bc + size_b(*stmts),
        decreases *stmts, stmts@.len() + 1,
    {
        let ghost vm = self.vm();
        let ghost loops = self.loops();
        let ghost s = self.st();
        let ghost tl = term_v(tail_termr);
        let entry_id = self.add_new_block();
        let mut curr_top_id = entry_id;
        let mut acc: Vec<MIRStatement> = Vec::new();
        let mut has_unterminated = false;
        let mut i: usize = 0;
        assert(stmts_v(acc@) =~= Seq::empty());
        while i < stmts.len()
            invariant
                i <= stmts@.len(),
                vm == old(self).vm(),
                loops == old(self).loops(),
                s == old(self).st(),
                tl == term_v(tail_termr),
                self.wf(),
                self.vm() == vm,
                self.loops() == loops,
                entry_id == BlockId(s.bc as usize),
                low_steps(vm, loops, take_blocks(s, 1), entry_id, *stmts, stmts@.len() as int) is Some,
                low_steps(vm, loops, take_blocks(s, 1), entry_id, *stmts, i as int) == Some(Steps {
                    st: self.st(),
                    cur: curr_top_id,
                    acc: stmts_v(acc@),
                    open: has_unterminated,
                    done: false,
                }),
                self.st().cc <= s.cc + size_stmts(*stmts, i as int),
                self.st().bc <= s.bc + 1 + size_stmts(*stmts, i as int),
                s.cc + size_b(*stmts) <= usize::MAX,
                s.bc + size_b(*stmts) <= usize::MAX,
            decreases stmts.len() - i,
        {
            proof {
                lemma_low_steps_prefix(vm, loops, take_blocks(s, 1), entry_id, *stmts, i + 1, stmts@.len() as int);
                lemma_size_stmts_prefix(*stmts, i + 1, stmts@.len() as int);
                assert(decreases_to!(*stmts => stmts@));
                assert(decreases_to!(stmts@ => stmts@[i as int]));
            }
            let ghost p = low_steps(vm, loops, take_blocks(s, 1), entry_id, *stmts, i as int)->Some_0;
            let lowered = self.lower_stmt(&stmts[i]);
            match lowered {
                LoweredStatement::Statements(mut low_stmts) => {
                    let ghost before = acc@;
                    let ghost ls = low_stmts@;
                    acc.append(&mut low_stmts);
                    has_unterminated = true;
                    proof {
                        assert(acc@ =~= before + ls);
                        lemma_stmts_v_concat(before, ls);
                    }
                },
                LoweredStatement::Termination(mut low_stmts, term) => {
                    let ghost before = acc@;
                    let ghost ls = low_stmts@;
                    acc.append(&mut low_stmts);
                    proof {
                        assert(acc@ =~= before + ls);
                        lemma_stmts_v_concat(before, ls);
                    }
                    self.terminate_block(curr_top_id, acc, term);
                    proof {
                        lemma_low_steps_done(vm, loops, take_blocks(s, 1), entry_id, *stmts, i + 1, stmts@.len() as int);
                    }
                    return entry_id;
                },
                LoweredStatement::TabulaRasa(mut pre, term, next_id) => {
                    let ghost before = acc@;
                    let ghost ls = pre@;
                    acc.append(&mut pre);
                    proof {
                        assert(acc@ =~= before + ls);
                        lemma_stmts_v_concat(before, ls);
                    }
                    self.terminate_block(curr_top_id, acc, term);
                    acc = Vec::new();
                    assert(stmts_v(acc@) =~= Seq::empty());
                    curr_top_id = next_id;
                    has_unterminated = false;
                },
            }
            i = i + 1;
        }
        if has_unterminated {
            self.terminate_block(curr_top_id, acc, tail_termr);
        }
        entry_id
    }

    /// Lowers one function; its variables' cells and its blocks are numbered on from those
    /// of the functions lowered before.
    fn lower_function(&mut self, func: &HIRFunction) -> (r: MIRFunction)
        requires
            old(self).wf(),
            old(self).loops() == Seq::<(BlockId, BlockId)>::empty(),
            low_f(old(self).vm(), old(self).st().cc, old(self).st().bc, *func) is Some,
            old(self).st().cc + func.variables@.len() + size_b(func.body) <= usize::MAX,
            old(self).st().bc + size_b(func.body) <= usize::MAX,
        ensures
            final(self).wf(),
            final(self).loops() == Seq::<(BlockId, BlockId)>::empty(),
            ({
                let x = low_f(old(self).vm(), old(self).st().cc, old(self).st().bc, *func)->Some_0;
                &&& final(self).vm() == x.0
                &&& final(self).st().cc == x.1
                &&& final(self).st().bc == x.2
                &&& func_v(r) == x.3
            }),
            final(self).st().cc <= old(self).st().cc + func.variables@.len() + size_b(func.body),
            final(self).st().bc <= old(self).st().bc + size_b(func.body),
            r.name@ == func.name@,
            r.typvars@ == func.typvars@,
            r.ret_type@ == func.ret_type@,
    {
        let ghost vm0 = self.vm();
        let ghost c0 = self.st().cc;
        let ghost vars = func.variables@;
        self.curr_collected_blocks = Vec::new();
        self.current_cells = Vec::new();
        let mut i: usize = 0;
        assert(self.vm() =~= vm0 + var_entries(c0, vars.subrange(0, 0)));
        assert(self.st().cells =~= var_cells(c0, vars.subrange(0, 0)));
        while i < func.variables.len()
            invariant
                i <= vars.len(),
                vars == func.variables@,
                self.wf(),
                self.loops() == Seq::<(BlockId, BlockId)>::empty(),
                self.st().cc == c0 + i,
                c0 + vars.len() <= usize::MAX,
                self.st().bc == old(self).st().bc,
                self.st().blocks == Seq::<(BlockId, BlockV)>::empty(),
                self.st().cells == var_cells(c0, vars.subrange(0, i as int)),
                self.vm() == vm0 + var_entries(c0, vars.subrange(0, i as int)),
            decreases func.variables.len() - i,
        {
            let cell_id = self.add_cell(clone_generic(&func.variables[i].1.typ));
            self.var_map.push((func.variables[i].0, cell_id));
            proof {
                assert(self.st().cells =~= var_cells(c0, vars.subrange(0, i + 1)));
                assert(self.vm() =~= vm0 + var_entries(c0, vars.subrange(0, i + 1)));
            }
            i = i + 1;
        }
        assert(vars.subrange(0, vars.len() as int) =~= vars);
        let ghost vm1 = self.vm();
        let entry_id = self.lower_stmt_block(&func.body, MIRTerminator::Return(None));
        let ghost x = low_f(vm0, c0, old(self).st().bc, *func)->Some_0;
        let mut arg_cells: Vec<CellId> = Vec::new();
        let mut k: usize = 0;
        while k < func.args.len()
            invariant
                k <= func.args@.len(),
                self.vm() == vm1,
                forall|j: int| 0 <= j < func.args@.len() ==> (#[trigger] find_last(vm1, func.args@[j])) is Some,
                arg_cells@ == func.args@.subrange(0, k as int).map_values(|a: VarId| find_last(vm1, a)->Some_0),
            decreases func.args.len() - k,
        {
            let cell = self.lookup_var(&func.args[k]);
            arg_cells.push(cell);
            assert(arg_cells@ =~= func.args@.subrange(0, k + 1).map_values(|a: VarId| find_last(vm1, a)->Some_0));
            k = k + 1;
        }
        assert(func.args@.subrange(0, k as int) =~= func.args@);
        let mut cells: Vec<(CellId, GenericType)> = Vec::new();
        let mut blocks: Vec<(BlockId, MIRBlock)> = Vec::new();
        let ghost st = self.st();
        std::mem::swap(&mut cells, &mut self.current_cells);
        std::mem::swap(&mut blocks, &mut self.curr_collected_blocks);
        proof {
            assert(self.vm() == vm1);
            assert(self.st().cc == st.cc);
            assert(self.st().bc == st.bc);
        }
        MIRFunction {
            name: func.name.clone(),
            typvars: clone_params(&func.typvars),
            args: arg_cells,
            cells,
            blocks,
            entry: entry_id,
            ret_type: clone_generic(&func.ret_type),
        }
    }

    /// Lowers every function of a program to a control-flow graph.
    pub fn lower_hir(program: HIRProgram) -> (r: MIRProgram)
        requires
            lowerable(program),
        ensures
            ({
                let fs = program.functions@;
                let x = low_fs(fs, fs.len() as int)->Some_0;
                &&& r.functions@.len() == fs.len()
                &&& forall|i: int| 0 <= i < fs.len() ==> {
                    &&& (#[trigger] r.functions@[i]).0 == fs[i].0
                    &&& func_v(r.functions@[i].1) == x.3[i]
                    &&& r.functions@[i].1.name@ == fs[i].1.name@
                    &&& r.functions@[i].1.typvars@ == fs[i].1.typvars@
                    &&& r.functions@[i].1.ret_type@ == fs[i].1.ret_type@
                }
            }),
            r.entry == program.entry,
            r.typetable@ == program.typetable@,
            r.call_graph == program.call_graph,
    {
        let ghost fs = program.functions@;
        let mut builder = MIRBuilder {
            var_map: Vec::new(),
            current_cells: Vec::new(),
            cell_counter: 0,
            block_counter: 1,
            loop_start_stack: Vec::new(),
            loop_end_stack: Vec::new(),
            curr_collected_blocks: Vec::new(),
        };
        assert(builder.loops() =~= Seq::<(BlockId, BlockId)>::empty());
        let HIRProgram { typetable, call_graph, functions, entry } = program;
        let mut out: Vec<(FuncId, MIRFunction)> = Vec::new();
        let mut i: usize = 0;
        while i < functions.len()
            invariant
                i <= fs.len(),
                functions@ == fs,
                low_fs(fs, fs.len() as int) is Some,
                size_fs(fs, fs.len() as int) + 1 <= usize::MAX,
                builder.wf(),
                builder.loops() == Seq::<(BlockId, BlockId)>::empty(),
                low_fs(fs, i as int) is Some,
                builder.vm() == low_fs(fs, i as int)->Some_0.0,
                builder.st().cc == low_fs(fs, i as int)->Some_0.1,
                builder.st().bc == low_fs(fs, i as int)->Some_0.2,
                builder.st().cc <= size_fs(fs, i as int),
                builder.st().bc <= 1 + size_fs(fs, i as int),
                out@.len() == i,
                forall|j: int| 0 <= j < i ==> {
                    &&& (#[trigger] out@[j]).0 == fs[j].0
                    &&& func_v(out@[j].1) == low_fs(fs, i as int)->Some_0.3[j]
                    &&& out@[j].1.name@ == fs[j].1.name@
                    &&& out@[j].1.typvars@ == fs[j].1.typvars@
                    &&& out@[j].1.ret_type@ == fs[j].1.ret_type@
                },
                low_fs(fs, i as int)->Some_0.3.len() == i,
            decreases fs.len() - i,
        {
            proof {
                lemma_low_fs_prefix(fs, i + 1, fs.len() as int);
                lemma_size_fs_prefix(fs, i + 1, fs.len() as int);
            }
            let f = builder.lower_function(&functions[i].1);
            out.push((functions[i].0, f));
            i = i + 1;
        }
        MIRProgram { typetable, call_graph, functions: out, entry }
    }
}

pub proof fn lemma_low_args_prefix(vm: Seq<(VarId, CellId)>, c: nat, e: HIRExpression, m: int, n: int)
    requires
        0 <= m <= n,
        n <= e.expr->FuncCall_args@.len(),
        low_args(vm, c, e, n) is Some,
    ensures
        low_args(vm, c, e, m) is Some,
    decreases n - m,
{
    if m < n {
        lemma_low_args_prefix(vm, c, e, m, n - 1);
    }
}

pub proof fn lemma_low_fields_prefix(vm: Seq<(VarId, CellId)>, c: nat, e: HIRExpression, m: int, n: int)
    requires
        0 <= m <= n,
        n <= e.expr->StructLiteral_fields@.len(),
        low_fields(vm, c, e, n) is Some,
    ensures
        low_fields(vm, c, e, m) is Some,
    decreases n - m,
{
    if m < n {
        lemma_low_fields_prefix(vm, c, e, m, n - 1);
    }
}

pub proof fn lemma_size_args_prefix(e: HIRExpression, m: int, n: int)
    requires
        0 <= m <= n,
        n <= e.expr->FuncCall_args@.len(),
    ensures
        size_args(e, m) <= size_args(e, n),
    decreases n - m,
{
    if m < n {
        lemma_size_args_prefix(e, m, n - 1);
    }
}

pub proof fn lemma_size_fields_prefix(e: HIRExpression, m: int, n: int)
    requires
        0 <= m <= n,
        n <= e.expr->StructLiteral_fields@.len(),
    ensures
        size_fields(e, m) <= size_fields(e, n),
    decreases n - m,
{
    if m < n {
        lemma_size_fields_prefix(e, m, n - 1);
    }
}

pub proof fn lemma_add_cells(s: BSt, a: Seq<GType>, b: Seq<GType>)
    ensures
        add_cells(add_cells(s, a), b) == add_cells(s, a + b),
{
    assert(number_cells(s.cc, a) + number_cells(s.cc + a.len(), b) =~= number_cells(s.cc, a + b));
    assert((s.cells + number_cells(s.cc, a)) + number_cells(s.cc + a.len(), b)
        =~= s.cells + (number_cells(s.cc, a) + number_cells(s.cc + a.len(), b)));
    assert(add_cells(add_cells(s, a), b) =~= add_cells(s, a + b));
}

pub proof fn lemma_stmts_v_concat(a: Seq<MIRStatement>, b: Seq<MIRStatement>)
    ensures
        stmts_v(a + b) == stmts_v(a) + stmts_v(b),
{
    assert(stmts_v(a + b) =~= stmts_v(a) + stmts_v(b));
}

pub proof fn lemma_low_steps_prefix(
    vm: Seq<(VarId, CellId)>,
    loops: Seq<(BlockId, BlockId)>,
    s: BSt,
    entry: BlockId,
    stmts: Vec<HIRStatement>,
    m: int,
    n: int,
)
    requires
        0 <= m <= n <= stmts@.len(),
        low_steps(vm, loops, s, entry, stmts, n) is Some,
    ensures
        low_steps(vm, loops, s, entry, stmts, m) is Some,
    decreases n - m,
{
    if m < n {
        lemma_low_steps_prefix(vm, loops, s, entry, stmts, m, n - 1);
    }
}

/// Once a block has ended, the statements after it change nothing.
pub proof fn lemma_low_steps_done(
    vm: Seq<(VarId, CellId)>,
    loops: Seq<(BlockId, BlockId)>,
    s: BSt,
    entry: BlockId,
    stmts: Vec<HIRStatement>,
    m: int,
    n: int,
)
    requires
        0 <= m <= n <= stmts@.len(),
        low_steps(vm, loops, s, entry, stmts, m) is Some,
        low_steps(vm, loops, s, entry, stmts, m)->Some_0.done,
    ensures
        low_steps(vm, loops, s, entry, stmts, n) == low_steps(vm, loops, s, entry, stmts, m),
    decreases n - m,
{
    if m < n {
        lemma_low_steps_done(vm, loops, s, entry, stmts, m, n - 1);
    }
}

pub proof fn lemma_size_stmts_prefix(stmts: Vec<HIRStatement>, m: int, n: int)
    requires
        0 <= m <= n <= stmts@.len(),
    ensures
        size_stmts(stmts, m) <= size_stmts(stmts, n),
    decreases n - m,
{
    if m < n {
        lemma_size_stmts_prefix(stmts, m, n - 1);
    }
}

// ---------------------------------------------------------------------------------------------
// Cells are numbered consecutively.

/// The cells of `s` are numbered `c0, c0 + 1, ...` up to the first free cell.
pub open spec fn cells_from(s: BSt, c0: nat) -> bool {
    &&& s.cc == c0 + s.cells.len()
    &&& forall|k: int| 0 <= k < s.cells.len() ==> (#[trigger] s.cells[k]).0 == CellId((c0 + k) as usize)
}

pub proof fn lemma_add_cells_from(s: BSt, c0: nat, ts: Seq<GType>)
    requires
        cells_from(s, c0),
    ensures
        cells_from(add_cells(s, ts), c0),
{
    let t = add_cells(s, ts);
    assert forall|k: int| 0 <= k < t.cells.len() implies (#[trigger] t.cells[k]).0 == CellId((c0 + k) as usize) by {
        if k >= s.cells.len() {
            assert(t.cells[k] == number_cells(s.cc, ts)[k - s.cells.len()]);
        }
    }
}

pub proof fn lemma_low_s_cells(vm: Seq<(VarId, CellId)>, loops: Seq<(BlockId, BlockId)>, s: BSt, st: HIRStatement, c0: nat)
    requires
        cells_from(s, c0),
        low_s(vm, loops, s, st) is Some,
    ensures
        cells_from(low_s(vm, loops, s, st)->Some_0.0, c0),
    decreases st, 1nat,
{
    match st {
        HIRStatement::Let { var, value } => {
            let x = low_e(vm, s.cc, value)->Some_0;
            lemma_add_cells_from(s, c0, x.2);
        },
        HIRStatement::Assign { target, value } => {
            let x = low_e(vm, s.cc, value)->Some_0;
            let q = low_p(vm, s.cc + x.2.len(), target)->Some_0;
            lemma_add_cells_from(s, c0, x.2 + q.2);
        },
        HIRStatement::If { .. } => lemma_low_if_cells(vm, loops, s, st, c0),
        HIRStatement::While { .. } => lemma_low_while_cells(vm, loops, s, st, c0),
        HIRStatement::Return(v) => {
            match v {
                Some(e) => {
                    let x = low_e(vm, s.cc, e)->Some_0;
                    lemma_add_cells_from(s, c0, x.2);
                },
                None => {},
            }
        },
        HIRStatement::Print(e) => {
            let x = low_e(vm, s.cc, e)->Some_0;
            lemma_add_cells_from(s, c0, x.2);
        },
        HIRStatement::Call(e) => {
            let x = low_e(vm, s.cc, e)->Some_0;
            lemma_add_cells_from(s, c0, x.2);
        },
        _ => {},
    }
}

pub proof fn lemma_low_if_cells(vm: Seq<(VarId, CellId)>, loops: Seq<(BlockId, BlockId)>, s: BSt, st: HIRStatement, c0: nat)
    requires
        st is If,
        cells_from(s, c0),
        low_s(vm, loops, s, st) is Some,
    ensures
        cells_from(low_s(vm, loops, s, st)->Some_0.0, c0),
    decreases st, 0nat,
{
    match st {
        HIRStatement::If { condition, if_body, else_body } => {
            let x = low_e(vm, s.cc, condition)->Some_0;
            let s1 = add_cells(s, x.2);
            lemma_add_cells_from(s, c0, x.2);
            let merge = BlockId(s1.bc as usize);
            lemma_low_b_cells(vm, loops, take_blocks(s1, 1), if_body, TermV::Goto(merge), c0);
            let t = low_b(vm, loops, take_blocks(s1, 1), if_body, TermV::Goto(merge))->Some_0;
            match else_body {
                Some(eb) => {
                    lemma_low_b_cells(vm, loops, t.0, eb, TermV::Goto(merge), c0);
                },
                None => {},
            }
        },
        _ => {},
    }
}

pub proof fn lemma_low_while_cells(vm: Seq<(VarId, CellId)>, loops: Seq<(BlockId, BlockId)>, s: BSt, st: HIRStatement, c0: nat)
    requires
        st is While,
        cells_from(s, c0),
        low_s(vm, loops, s, st) is Some,
    ensures
        cells_from(low_s(vm, loops, s, st)->Some_0.0, c0),
    decreases st, 0nat,
{
    match st {
        HIRStatement::While { condition, body } => {
            let head = BlockId(s.bc as usize);
            let after = BlockId((s.bc + 1) as usize);
            lemma_low_b_cells(vm, loops.push((head, after)), take_blocks(s, 2), body, TermV::Goto(head), c0);
            let b = low_b(vm, loops.push((head, after)), take_blocks(s, 2), body, TermV::Goto(head))->Some_0;
            let x = low_e(vm, b.0.cc, condition)->Some_0;
            lemma_add_cells_from(b.0, c0, x.2);
        },
        _ => {},
    }
}

pub proof fn lemma_low_b_cells(vm: Seq<(VarId, CellId)>, loops: Seq<(BlockId, BlockId)>, s: BSt, stmts: Vec<HIRStatement>, tail: TermV, c0: nat)
    requires
        cells_from(s, c0),
        low_b(vm, loops, s, stmts, tail) is Some,
    ensures
        cells_from(low_b(vm, loops, s, stmts, tail)->Some_0.0, c0),
    decreases stmts, stmts@.len() + 1,
{
    lemma_low_steps_cells(vm, loops, take_blocks(s, 1), BlockId(s.bc as usize), stmts, stmts@.len() as int, c0);
}

pub proof fn lemma_low_steps_cells(
    vm: Seq<(VarId, CellId)>,
    loops: Seq<(BlockId, BlockId)>,
    s: BSt,
    entry: BlockId,
    stmts: Vec<HIRStatement>,
    n: int,
    c0: nat,
)
    requires
        cells_from(s, c0),
        low_steps(vm, loops, s, entry, stmts, n) is Some,
    ensures
        cells_from(low_steps(vm, loops, s, entry, stmts, n)->Some_0.st, c0),
    decreases stmts, n,
{
    if n > 0 && n <= stmts@.len() {
        lemma_low_steps_cells(vm, loops, s, entry, stmts, n - 1, c0);
        let p = low_steps(vm, loops, s, entry, stmts, n - 1)->Some_0;
        if !p.done {
            assert(decreases_to!(stmts => stmts@));
            assert(decreases_to!(stmts@ => stmts@[n - 1]));
            lemma_low_s_cells(vm, loops, p.st, stmts@[n - 1], c0);
        }
    }
}

/// The cells of a lowered function are numbered consecutively from the first free cell: the
/// variables' cells first, then the temporaries. In particular no two cells share an identifier.
pub proof fn law_function_cells_consecutive(vm: Seq<(VarId, CellId)>, c: nat, b: nat, f: HIRFunction)
    requires
        low_f(vm, c, b, f) is Some,
    ensures
        ({
            let x = low_f(vm, c, b, f)->Some_0;
            &&& x.1 == c + x.3.cells.len()
            &&& forall|k: int| 0 <= k < x.3.cells.len() ==> (#[trigger] x.3.cells[k]).0 == CellId((c + k) as usize)
        }),
{
    let vars = f.variables@;
    let vm1 = vm + var_entries(c, vars);
    let s = BSt { cc: c + vars.len(), cells: var_cells(c, vars), bc: b, blocks: Seq::empty() };
    lemma_low_b_cells(vm1, Seq::empty(), s, f.body, TermV::Return(None), c);
}

// ---------------------------------------------------------------------------------------------
// Every block is finished once.

/// The blocks finished going from `s` to `t`.
pub open spec fn new_blocks(s: BSt, t: BSt) -> Seq<(BlockId, BlockV)> {
    t.blocks.subrange(s.blocks.len() as int, t.blocks.len() as int)
}

/// `t` keeps the blocks of `s` and finishes blocks of distinct identifiers from `lo` up to its
/// first free block.
pub open spec fn extends_from(s: BSt, t: BSt, lo: nat) -> bool {
    &&& lo <= s.bc <= t.bc
    &&& s.blocks.len() <= t.blocks.len()
    &&& t.blocks.subrange(0, s.blocks.len() as int) == s.blocks
    &&& forall|i: int, j: int| 0 <= i < j < new_blocks(s, t).len() ==> new_blocks(s, t)[i].0 != new_blocks(s, t)[j].0
    &&& forall|i: int| 0 <= i < new_blocks(s, t).len() ==> lo <= (#[trigger] new_blocks(s, t)[i]).0.0 < t.bc
}

/// None of the blocks finished going from `s` to `t` is `id`.
pub open spec fn not_finished(s: BSt, t: BSt, id: BlockId) -> bool {
    forall|i: int| 0 <= i < new_blocks(s, t).len() ==> (#[trigger] new_blocks(s, t)[i]).0 != id
}

/// A statement that ends the block being filled and goes on in `next` took `next` fresh, and
/// did not finish it.
pub open spec fn split_fresh(s: BSt, t: BSt, l: LowV) -> bool {
    l is Split ==> {
        &&& s.bc <= l->Split_2.0 < t.bc
        &&& not_finished(s, t, l->Split_2)
    }
}

pub proof fn lemma_extends_refl(s: BSt, lo: nat)
    requires
        lo <= s.bc,
    ensures
        extends_from(s, s, lo),
{
    assert(s.blocks.subrange(0, s.blocks.len() as int) =~= s.blocks);
    assert(new_blocks(s, s) =~= Seq::<(BlockId, BlockV)>::empty());
}

/// The blocks finished in two steps are those of the first step, then those of the second.
pub proof fn lemma_new_blocks_concat(s: BSt, t: BSt, u: BSt)
    requires
        s.blocks.len() <= t.blocks.len() <= u.blocks.len(),
        t.blocks.subrange(0, s.blocks.len() as int) == s.blocks,
        u.blocks.subrange(0, t.blocks.len() as int) == t.blocks,
    ensures
        u.blocks.subrange(0, s.blocks.len() as int) == s.blocks,
        new_blocks(s, u) == new_blocks(s, t) + new_blocks(t, u),
{
    assert forall|k: int| 0 <= k < t.blocks.len() implies u.blocks[k] == t.blocks[k] by {
        assert(u.blocks.subrange(0, t.blocks.len() as int)[k] == t.blocks[k]);
    }
    assert(u.blocks.subrange(0, s.blocks.len() as int) =~= s.blocks) by {
        assert forall|k: int| 0 <= k < s.blocks.len() implies u.blocks[k] == s.blocks[k] by {
            assert(t.blocks.subrange(0, s.blocks.len() as int)[k] == s.blocks[k]);
        }
    }
    assert(new_blocks(s, u) =~= new_blocks(s, t) + new_blocks(t, u));
}

/// Finishing blocks in two steps, the second from where the first left off.
pub proof fn lemma_extends_trans(s: BSt, t: BSt, u: BSt, lo: nat)
    requires
        extends_from(s, t, lo),
        extends_from(t, u, t.bc),
    ensures
        extends_from(s, u, lo),
        new_blocks(s, u) == new_blocks(s, t) + new_blocks(t, u),
{
    lemma_new_blocks_concat(s, t, u);
    let a = new_blocks(s, t);
    let b = new_blocks(t, u);
    let ab = new_blocks(s, u);
    assert forall|i: int| 0 <= i < ab.len() implies lo <= (#[trigger] ab[i]).0.0 < u.bc by {
        if i < a.len() {
            assert(ab[i] == a[i]);
        } else {
            assert(ab[i] == b[i - a.len()]);
        }
    }
    assert forall|i: int, j: int| 0 <= i < j < ab.len() implies ab[i].0 != ab[j].0 by {
        if j < a.len() {
            assert(ab[i] == a[i] && ab[j] == a[j]);
        } else if i >= a.len() {
            assert(ab[i] == b[i - a.len()] && ab[j] == b[j - a.len()]);
        } else {
            assert(ab[i] == a[i] && ab[j] == b[j - a.len()]);
            assert(a[i].0.0 < t.bc);
            assert(b[j - a.len()].0.0 >= t.bc);
        }
    }
}

/// Finishing one block of a new identifier.
pub proof fn lemma_extends_push(s: BSt, t: BSt, lo: nat, id: BlockId, blk: BlockV)
    requires
        extends_from(s, t, lo),
        lo <= id.0 < t.bc,
        not_finished(s, t, id),
    ensures
        extends_from(s, push_block(t, id, blk), lo),
        new_blocks(s, push_block(t, id, blk)) == new_blocks(s, t).push((id, blk)),
{
    let u = push_block(t, id, blk);
    assert(u.blocks.subrange(0, s.blocks.len() as int) =~= t.blocks.subrange(0, s.blocks.len() as int));
    assert(new_blocks(s, u) =~= new_blocks(s, t).push((id, blk)));
}

/// Taking fresh identifiers or cells finishes no block.
pub proof fn lemma_extends_no_blocks(s: BSt, t: BSt, lo: nat)
    requires
        s.blocks == t.blocks,
        lo <= s.bc <= t.bc,
    ensures
        extends_from(s, t, lo),
        new_blocks(s, t) == Seq::<(BlockId, BlockV)>::empty(),
{
    assert(t.blocks.subrange(0, s.blocks.len() as int) =~= s.blocks);
    assert(new_blocks(s, t) =~= Seq::<(BlockId, BlockV)>::empty());
}

pub proof fn lemma_low_s_blocks(vm: Seq<(VarId, CellId)>, loops: Seq<(BlockId, BlockId)>, s: BSt, st: HIRStatement)
    requires
        low_s(vm, loops, s, st) is Some,
    ensures
        ({
            let r = low_s(vm, loops, s, st)->Some_0;
            &&& s.bc <= r.0.bc
            &&& r.0.bc <= usize::MAX ==> extends_from(s, r.0, s.bc) && split_fresh(s, r.0, r.1)
        }),
    decreases st, 1nat,
{
    match st {
        HIRStatement::If { .. } => lemma_low_if_blocks(vm, loops, s, st),
        HIRStatement::While { .. } => lemma_low_while_blocks(vm, loops, s, st),
        _ => {
            let r = low_s(vm, loops, s, st)->Some_0;
            assert(r.0.blocks == s.blocks);
            lemma_extends_no_blocks(s, r.0, s.bc);
        },
    }
}

pub proof fn lemma_low_if_blocks(vm: Seq<(VarId, CellId)>, loops: Seq<(BlockId, BlockId)>, s: BSt, st: HIRStatement)
    requires
        st is If,
        low_s(vm, loops, s, st) is Some,
    ensures
        ({
            let r = low_s(vm, loops, s, st)->Some_0;
            &&& s.bc <= r.0.bc
            &&& r.0.bc <= usize::MAX ==> extends_from(s, r.0, s.bc) && split_fresh(s, r.0, r.1)
        }),
    decreases st, 0nat,
{
    match st {
        HIRStatement::If { condition, if_body, else_body } => {
            let x = low_e(vm, s.cc, condition)->Some_0;
            let s1 = add_cells(s, x.2);
            let merge = BlockId(s1.bc as usize);
            let s2 = take_blocks(s1, 1);
            lemma_low_b_blocks(vm, loops, s2, if_body, TermV::Goto(merge));
            let t = low_b(vm, loops, s2, if_body, TermV::Goto(merge))->Some_0;
            let e = match else_body {
                Some(eb) => {
                    lemma_low_b_blocks(vm, loops, t.0, eb, TermV::Goto(merge));
                    low_b(vm, loops, t.0, eb, TermV::Goto(merge))->Some_0
                },
                None => (t.0, merge),
            };
            let r = low_s(vm, loops, s, st)->Some_0;
            assert(r.0 == e.0);
            if r.0.bc <= usize::MAX {
                lemma_extends_no_blocks(s, s2, s.bc);
                lemma_extends_trans(s, s2, t.0, s.bc);
                if else_body is Some {
                    lemma_extends_trans(s, t.0, e.0, s.bc);
                    lemma_extends_trans(s2, t.0, e.0, s2.bc);
                }
                assert(merge.0 == s.bc);
                assert(new_blocks(s, r.0) == new_blocks(s2, r.0));
                assert forall|i: int| 0 <= i < new_blocks(s, r.0).len() implies (#[trigger] new_blocks(s, r.0)[i]).0 != merge by {
                    assert(new_blocks(s2, r.0)[i].0.0 >= s2.bc);
                }
            }
        },
        _ => {},
    }
}

pub proof fn lemma_low_while_blocks(vm: Seq<(VarId, CellId)>, loops: Seq<(BlockId, BlockId)>, s: BSt, st: HIRStatement)
    requires
        st is While,
        low_s(vm, loops, s, st) is Some,
    ensures
        ({
            let r = low_s(vm, loops, s, st)->Some_0;
            &&& s.bc <= r.0.bc
            &&& r.0.bc <= usize::MAX ==> extends_from(s, r.0, s.bc) && split_fresh(s, r.0, r.1)
        }),
    decreases st, 0nat,
{
    match st {
        HIRStatement::While { condition, body } => {
            let head = BlockId(s.bc as usize);
            let after = BlockId((s.bc + 1) as usize);
            let s2 = take_blocks(s, 2);
            lemma_low_b_blocks(vm, loops.push((head, after)), s2, body, TermV::Goto(head));
            let b = low_b(vm, loops.push((head, after)), s2, body, TermV::Goto(head))->Some_0;
            let x = low_e(vm, b.0.cc, condition)->Some_0;
            let b1 = add_cells(b.0, x.2);
            let blk = BlockV { stmts: x.1, term: TermV::Branch(x.0, b.1, after) };
            let r = low_s(vm, loops, s, st)->Some_0;
            assert(r.0 == push_block(b1, head, blk));
            if r.0.bc <= usize::MAX {
                assert(head.0 == s.bc && after.0 == s.bc + 1);
                lemma_extends_no_blocks(s, s2, s.bc);
                lemma_extends_trans(s, s2, b.0, s.bc);
                lemma_extends_no_blocks(b.0, b1, b.0.bc);
                lemma_extends_trans(s, b.0, b1, s.bc);
                lemma_extends_trans(s2, b.0, b1, s2.bc);
                assert(new_blocks(s, b1) == new_blocks(s2, b1));
                assert forall|i: int| 0 <= i < new_blocks(s, b1).len() implies (#[trigger] new_blocks(s, b1)[i]).0 != head by {
                    assert(new_blocks(s2, b1)[i].0.0 >= s2.bc);
                }
                lemma_extends_push(s, b1, s.bc, head, blk);
                assert forall|i: int| 0 <= i < new_blocks(s, r.0).len() implies (#[trigger] new_blocks(s, r.0)[i]).0 != after by {
                    if i < new_blocks(s, b1).len() {
                        assert(new_blocks(s, r.0)[i] == new_blocks(s2, b1)[i]);
                        assert(new_blocks(s2, b1)[i].0.0 >= s2.bc);
                    }
                }
            }
        },
        _ => {},
    }
}

pub proof fn lemma_low_b_blocks(vm: Seq<(VarId, CellId)>, loops: Seq<(BlockId, BlockId)>, s: BSt, stmts: Vec<HIRStatement>, tail: TermV)
    requires
        low_b(vm, loops, s, stmts, tail) is Some,
    ensures
        ({
            let r = low_b(vm, loops, s, stmts, tail)->Some_0;
            &&& s.bc < r.0.bc
            &&& r.0.bc <= usize::MAX ==> extends_from(s, r.0, s.bc)
        }),
    decreases stmts, stmts@.len() + 1,
{
    let entry = BlockId(s.bc as usize);
    let s0 = take_blocks(s, 1);
    lemma_low_steps_blocks(vm, loops, s0, entry, stmts, stmts@.len() as int);
    let r = low_steps(vm, loops, s0, entry, stmts, stmts@.len() as int)->Some_0;
    let res = low_b(vm, loops, s, stmts, tail)->Some_0;
    if res.0.bc <= usize::MAX {
        assert(entry.0 == s.bc);
        assert(new_blocks(s, r.st) == new_blocks(s0, r.st));
        assert(extends_from(s, r.st, s.bc));
        if !r.done && r.open {
            lemma_extends_push(s, r.st, s.bc, r.cur, BlockV { stmts: r.acc, term: tail });
        }
    }
}

pub proof fn lemma_low_steps_blocks(
    vm: Seq<(VarId, CellId)>,
    loops: Seq<(BlockId, BlockId)>,
    s: BSt,
    entry: BlockId,
    stmts: Vec<HIRStatement>,
    n: int,
)
    requires
        s.bc >= 1,
        s.bc - 1 <= usize::MAX ==> entry.0 == s.bc - 1,
        low_steps(vm, loops, s, entry, stmts, n) is Some,
    ensures
        ({
            let r = low_steps(vm, loops, s, entry, stmts, n)->Some_0;
            &&& s.bc <= r.st.bc
            &&& r.st.bc <= usize::MAX ==> {
                &&& extends_from(s, r.st, entry.0 as nat)
                &&& !r.done ==> entry.0 <= r.cur.0 < r.st.bc && not_finished(s, r.st, r.cur)
            }
        }),
    decreases stmts, n,
{
    if n <= 0 || n > stmts@.len() {
        if s.bc <= usize::MAX {
            lemma_extends_refl(s, entry.0 as nat);
        }
    } else {
        lemma_low_steps_blocks(vm, loops, s, entry, stmts, n - 1);
        let p = low_steps(vm, loops, s, entry, stmts, n - 1)->Some_0;
        if !p.done {
            assert(decreases_to!(stmts => stmts@));
            assert(decreases_to!(stmts@ => stmts@[n - 1]));
            lemma_low_s_blocks(vm, loops, p.st, stmts@[n - 1]);
            let q = low_s(vm, loops, p.st, stmts@[n - 1])->Some_0;
            let r = low_steps(vm, loops, s, entry, stmts, n)->Some_0;
            if r.st.bc <= usize::MAX {
                lemma_steps_blocks_step(s, entry, p, q.0, q.1);
            }
        }
    }
}

/// One statement's step in `lemma_low_steps_blocks`.
pub proof fn lemma_steps_blocks_step(s: BSt, entry: BlockId, p: Steps, t: BSt, l: LowV)
    requires
        !p.done,
        t.bc <= usize::MAX,
        extends_from(s, p.st, entry.0 as nat),
        entry.0 <= p.cur.0 < p.st.bc,
        not_finished(s, p.st, p.cur),
        extends_from(p.st, t, p.st.bc),
        split_fresh(p.st, t, l),
    ensures
        ({
            let r = match l {
                LowV::Stmts(ss) => Steps { st: t, cur: p.cur, acc: p.acc + ss, open: true, done: false },
                LowV::Term(ss, tm) => Steps {
                    st: push_block(t, p.cur, BlockV { stmts: p.acc + ss, term: tm }),
                    cur: p.cur,
                    acc: Seq::empty(),
                    open: false,
                    done: true,
                },
                LowV::Split(pre, tm, next) => Steps {
                    st: push_block(t, p.cur, BlockV { stmts: p.acc + pre, term: tm }),
                    cur: next,
                    acc: Seq::empty(),
                    open: false,
                    done: false,
                },
            };
            &&& extends_from(s, r.st, entry.0 as nat)
            &&& !r.done ==> entry.0 <= r.cur.0 < r.st.bc && not_finished(s, r.st, r.cur)
        }),
{
    lemma_extends_trans(s, p.st, t, entry.0 as nat);
    let a = new_blocks(s, p.st);
    let b = new_blocks(p.st, t);
    assert forall|i: int| 0 <= i < new_blocks(s, t).len() implies (#[trigger] new_blocks(s, t)[i]).0 != p.cur by {
        if i >= a.len() {
            assert(new_blocks(s, t)[i] == b[i - a.len()]);
            assert(b[i - a.len()].0.0 >= p.st.bc);
        } else {
            assert(new_blocks(s, t)[i] == a[i]);
        }
    }
    match l {
        LowV::Stmts(_) => {},
        LowV::Term(ss, tm) => {
            lemma_extends_push(s, t, entry.0 as nat, p.cur, BlockV { stmts: p.acc + ss, term: tm });
        },
        LowV::Split(pre, tm, next) => {
            let blk = BlockV { stmts: p.acc + pre, term: tm };
            lemma_extends_push(s, t, entry.0 as nat, p.cur, blk);
            let u = push_block(t, p.cur, blk);
            assert forall|i: int| 0 <= i < new_blocks(s, u).len() implies (#[trigger] new_blocks(s, u)[i]).0 != next by {
                if i < a.len() {
                    assert(new_blocks(s, u)[i] == a[i]);
                    assert(a[i].0.0 < p.st.bc);
                } else if i < a.len() + b.len() {
                    assert(new_blocks(s, u)[i] == b[i - a.len()]);
                } else {
                    assert(new_blocks(s, u)[i] == (p.cur, blk));
                }
            }
        },
    }
}

/// No block of a lowered function is finished twice: the identifiers of its blocks are distinct,
/// and all were taken while lowering it. (Block identifiers are machine words: the law holds
/// where the function's blocks are numbered below `usize::MAX`.)
pub proof fn law_function_blocks_distinct(vm: Seq<(VarId, CellId)>, c: nat, b: nat, f: HIRFunction)
    requires
        low_f(vm, c, b, f) is Some,
        low_f(vm, c, b, f)->Some_0.2 <= usize::MAX,
    ensures
        ({
            let x = low_f(vm, c, b, f)->Some_0;
            &&& forall|i: int, j: int| 0 <= i < j < x.3.blocks.len() ==> x.3.blocks[i].0 != x.3.blocks[j].0
            &&& forall|i: int| 0 <= i < x.3.blocks.len() ==> b <= (#[trigger] x.3.blocks[i]).0.0 < x.2
        }),
{
    let vars = f.variables@;
    let vm1 = vm + var_entries(c, vars);
    let s = BSt { cc: c + vars.len(), cells: var_cells(c, vars), bc: b, blocks: Seq::empty() };
    lemma_low_b_blocks(vm1, Seq::empty(), s, f.body, TermV::Return(None));
    let r = low_b(vm1, Seq::empty(), s, f.body, TermV::Return(None))->Some_0;
    assert(new_blocks(s, r.0) =~= r.0.blocks);
}

/// Lowering a function takes at least one fresh block.
pub proof fn lemma_low_f_bc(vm: Seq<(VarId, CellId)>, c: nat, b: nat, f: HIRFunction)
    requires
        low_f(vm, c, b, f) is Some,
    ensures
        b < low_f(vm, c, b, f)->Some_0.2,
{
    let vars = f.variables@;
    let vm1 = vm + var_entries(c, vars);
    let s = BSt { cc: c + vars.len(), cells: var_cells(c, vars), bc: b, blocks: Seq::empty() };
    lemma_low_b_blocks(vm1, Seq::empty(), s, f.body, TermV::Return(None));
}

/// Every block of the functions is numbered from 1 up to, not including, `hi`.
pub open spec fn funcs_blocks_below(fv: Seq<FuncV>, hi: nat) -> bool {
    forall|i: int, j: int| 0 <= i < fv.len() && 0 <= j < fv[i].blocks.len() ==> 1 <= (#[trigger] fv[i].blocks[j]).0.0 < hi
}

/// No two blocks of the functions share an identifier.
pub open spec fn funcs_blocks_unique(fv: Seq<FuncV>) -> bool {
    forall|i1: int, j1: int, i2: int, j2: int|
        0 <= i1 < fv.len() && 0 <= j1 < fv[i1].blocks.len() && 0 <= i2 < fv.len() && 0 <= j2 < fv[i2].blocks.len()
            && (i1 != i2 || j1 != j2) ==> (#[trigger] fv[i1].blocks[j1]).0 != (#[trigger] fv[i2].blocks[j2]).0
}

/// Adding a function whose blocks are distinct and numbered from `lo` on keeps the blocks
/// of all functions distinct.
pub proof fn lemma_push_func_blocks(fv: Seq<FuncV>, lo: nat, f: FuncV, hi: nat)
    requires
        1 <= lo <= hi,
        funcs_blocks_below(fv, lo),
        funcs_blocks_unique(fv),
        forall|j: int| 0 <= j < f.blocks.len() ==> lo <= (#[trigger] f.blocks[j]).0.0 < hi,
        forall|j: int, k: int| 0 <= j < k < f.blocks.len() ==> f.blocks[j].0 != f.blocks[k].0,
    ensures
        funcs_blocks_below(fv.push(f), hi),
        funcs_blocks_unique(fv.push(f)),
{
    let x = fv.push(f);
    let m = fv.len();
    assert forall|i: int, j: int| 0 <= i < x.len() && 0 <= j < x[i].blocks.len() implies 1 <= (#[trigger] x[i].blocks[j]).0.0 < hi by {
        if i < m {
            assert(x[i] == fv[i]);
        } else {
            assert(x[i] == f);
        }
    }
    assert forall|i1: int, j1: int, i2: int, j2: int|
        0 <= i1 < x.len() && 0 <= j1 < x[i1].blocks.len() && 0 <= i2 < x.len() && 0 <= j2 < x[i2].blocks.len()
            && (i1 != i2 || j1 != j2) implies (#[trigger] x[i1].blocks[j1]).0 != (#[trigger] x[i2].blocks[j2]).0 by {
        if i1 < m && i2 < m {
            assert(x[i1] == fv[i1] && x[i2] == fv[i2]);
            assert(fv[i1].blocks[j1].0 != fv[i2].blocks[j2].0);
        } else if i1 < m {
            assert(x[i1] == fv[i1] && x[i2] == f);
            assert(fv[i1].blocks[j1].0.0 < lo);
            assert(f.blocks[j2].0.0 >= lo);
        } else if i2 < m {
            assert(x[i2] == fv[i2] && x[i1] == f);
            assert(fv[i2].blocks[j2].0.0 < lo);
            assert(f.blocks[j1].0.0 >= lo);
        } else {
            assert(x[i1] == f && x[i2] == f);
            if j1 < j2 {
                assert(f.blocks[j1].0 != f.blocks[j2].0);
            } else {
                assert(f.blocks[j2].0 != f.blocks[j1].0);
            }
        }
    }
}

/// Block identifiers are unique across a whole lowered program: each function's blocks are
/// numbered from where the previous function's left off, starting at 1, so the identifier of a
/// block alone tells it apart from every other block of the program. (Block identifiers are
/// machine words: the law holds where the program's blocks are numbered below `usize::MAX`.)
pub proof fn law_program_blocks_distinct(fs: Seq<(FuncId, HIRFunction)>, n: int)
    requires
        low_fs(fs, n) is Some,
        low_fs(fs, n)->Some_0.2 <= usize::MAX,
    ensures
        ({
            let x = low_fs(fs, n)->Some_0;
            &&& 1 <= x.2
            &&& funcs_blocks_below(x.3, x.2)
            &&& funcs_blocks_unique(x.3)
        }),
    decreases n,
{
    if n > 0 {
        let p = low_fs(fs, n - 1)->Some_0;
        let f = low_f(p.0, p.1, p.2, fs[n - 1].1)->Some_0;
        lemma_low_f_bc(p.0, p.1, p.2, fs[n - 1].1);
        law_program_blocks_distinct(fs, n - 1);
        law_function_blocks_distinct(p.0, p.1, p.2, fs[n - 1].1);
        lemma_push_func_blocks(p.3, p.2, f.3, f.2);
    } else {
        assert(low_fs(fs, n)->Some_0.3 =~= Seq::<FuncV>::empty());
    }
}

/// A `break` leaves its loop: lowering `while c { break; ... }` gives a statement that jumps to the
/// loop head and goes on in the block after the loop; the head branches on `c`, and the block it
/// enters when `c` holds jumps straight to the block it goes to when `c` fails, which is the block
/// after the loop.
pub proof fn law_break_leaves_loop(vm: Seq<(VarId, CellId)>, loops: Seq<(BlockId, BlockId)>, s: BSt, st: HIRStatement)
    requires
        st is While,
        st->While_body@.len() > 0,
        st->While_body@[0] is Break,
        low_s(vm, loops, s, st) is Some,
    ensures
        ({
            let r = low_s(vm, loops, s, st)->Some_0;
            let bs = r.0.blocks;
            &&& r.1 is Split
            &&& r.1->Split_1 is Goto
            &&& exists|i: int, j: int| {
                &&& 0 <= i < bs.len()
                &&& 0 <= j < bs.len()
                &&& bs[i].0 == r.1->Split_1->Goto_0
                &&& bs[i].1.term is Branch
                &&& bs[i].1.term->Branch_2 == r.1->Split_2
                &&& bs[j].0 == bs[i].1.term->Branch_1
                &&& bs[j].1.term == TermV::Goto(bs[i].1.term->Branch_2)
            }
        }),
{
    let body = st->While_body;
    let head = BlockId(s.bc as usize);
    let after = BlockId((s.bc + 1) as usize);
    let lp = loops.push((head, after));
    let s2 = take_blocks(s, 2);
    let entry = BlockId(s2.bc as usize);
    let s3 = take_blocks(s2, 1);
    let n = body@.len() as int;
    let p0 = low_steps(vm, lp, s3, entry, body, 0)->Some_0;
    assert(p0 == Steps { st: s3, cur: entry, acc: Seq::<StmtV>::empty(), open: false, done: false });
    assert(low_s(vm, lp, s3, body@[0]) == Some((s3, LowV::Term(Seq::<StmtV>::empty(), TermV::Goto(after)))));
    let one = low_steps(vm, lp, s3, entry, body, 1);
    assert(one is Some);
    assert(one->Some_0.done);
    assert(one->Some_0.st == push_block(s3, entry, BlockV { stmts: Seq::<StmtV>::empty() + Seq::<StmtV>::empty(), term: TermV::Goto(after) }));
    lemma_low_steps_done(vm, lp, s3, entry, body, 1, n);
    let b = low_b(vm, lp, s2, body, TermV::Goto(head))->Some_0;
    assert(b.0 == one->Some_0.st);
    assert(b.1 == entry);
    let x = low_e(vm, b.0.cc, st->While_condition)->Some_0;
    let r = low_s(vm, loops, s, st)->Some_0;
    let bs = r.0.blocks;
    let k = s.blocks.len() as int;
    assert(bs == s.blocks.push((entry, BlockV { stmts: Seq::<StmtV>::empty() + Seq::<StmtV>::empty(), term: TermV::Goto(after) }))
        .push((head, BlockV { stmts: x.1, term: TermV::Branch(x.0, entry, after) })));
    assert(bs[k + 1].0 == head && bs[k].0 == entry);
}

/// A `continue` goes back to its loop's test: lowering `while c { continue; ... }` gives a
/// statement that jumps to the loop head, which branches on `c`, and the block it enters when `c`
/// holds jumps straight back to that head.
pub proof fn law_continue_retests(vm: Seq<(VarId, CellId)>, loops: Seq<(BlockId, BlockId)>, s: BSt, st: HIRStatement)
    requires
        st is While,
        st->While_body@.len() > 0,
        st->While_body@[0] is Continue,
        low_s(vm, loops, s, st) is Some,
    ensures
        ({
            let r = low_s(vm, loops, s, st)->Some_0;
            let bs = r.0.blocks;
            &&& r.1 is Split
            &&& r.1->Split_1 is Goto
            &&& exists|i: int, j: int| {
                &&& 0 <= i < bs.len()
                &&& 0 <= j < bs.len()
                &&& bs[i].0 == r.1->Split_1->Goto_0
                &&& bs[i].1.term is Branch
                &&& bs[i].1.term->Branch_2 == r.1->Split_2
                &&& bs[j].0 == bs[i].1.term->Branch_1
                &&& bs[j].1.term == TermV::Goto(bs[i].0)
            }
        }),
{
    let body = st->While_body;
    let head = BlockId(s.bc as usize);
    let after = BlockId((s.bc + 1) as usize);
    let lp = loops.push((head, after));
    let s2 = take_blocks(s, 2);
    let entry = BlockId(s2.bc as usize);
    let s3 = take_blocks(s2, 1);
    let n = body@.len() as int;
    let p0 = low_steps(vm, lp, s3, entry, body, 0)->Some_0;
    assert(p0 == Steps { st: s3, cur: entry, acc: Seq::<StmtV>::empty(), open: false, done: false });
    assert(low_s(vm, lp, s3, body@[0]) == Some((s3, LowV::Term(Seq::<StmtV>::empty(), TermV::Goto(head)))));
    let one = low_steps(vm, lp, s3, entry, body, 1);
    assert(one is Some);
    assert(one->Some_0.done);
    assert(one->Some_0.st == push_block(s3, entry, BlockV { stmts: Seq::<StmtV>::empty() + Seq::<StmtV>::empty(), term: TermV::Goto(head) }));
    lemma_low_steps_done(vm, lp, s3, entry, body, 1, n);
    let b = low_b(vm, lp, s2, body, TermV::Goto(head))->Some_0;
    assert(b.0 == one->Some_0.st);
    assert(b.1 == entry);
    let x = low_e(vm, b.0.cc, st->While_condition)->Some_0;
    let r = low_s(vm, loops, s, st)->Some_0;
    let bs = r.0.blocks;
    let k = s.blocks.len() as int;
    assert(bs == s.blocks.push((entry, BlockV { stmts: Seq::<StmtV>::empty() + Seq::<StmtV>::empty(), term: TermV::Goto(head) }))
        .push((head, BlockV { stmts: x.1, term: TermV::Branch(x.0, entry, after) })));
    assert(bs[k + 1].0 == head && bs[k].0 == entry);
}

/// Lowering a binary expression keeps its operator and the order of its operands: its value is
/// read from the place that the last statement it becomes writes, a binary operation with the same
/// operator whose left operand is the value of the left expression and whose right operand that
/// of the right expression; an integer literal stays that literal on its side.
pub proof fn law_binop_expr_keeps_operands(vm: Seq<(VarId, CellId)>, c: nat, e: HIRExpression)
    requires
        e.expr is BinOp,
        low_e(vm, c, e) is Some,
    ensures
        ({
            let x = low_e(vm, c, e)->Some_0;
            let left = *e.expr->BinOp_left;
            let right = *e.expr->BinOp_right;
            &&& x.1.len() > 0
            &&& x.1.last() is BinOp
            &&& x.0.kind == ValKV::Place(x.1.last()->BinOp_0)
            &&& x.1.last()->BinOp_1 == e.expr->BinOp_op
            &&& x.1.last()->BinOp_2 == low_e(vm, c, left)->Some_0.0
            &&& left.expr is IntLiteral ==> x.1.last()->BinOp_2.kind == ValKV::Int(left.expr->IntLiteral_0)
            &&& right.expr is IntLiteral ==> x.1.last()->BinOp_3.kind == ValKV::Int(right.expr->IntLiteral_0)
        }),
{
    let left = *e.expr->BinOp_left;
    let right = *e.expr->BinOp_right;
    let l = low_e(vm, c, left)->Some_0;
    let r = low_e(vm, c + l.2.len(), right)->Some_0;
    let target = cell_place(e.typ@, c + l.2.len() + r.2.len());
    let x = low_e(vm, c, e)->Some_0;
    assert(x.1 == l.1 + r.1 + seq![StmtV::BinOp(target, e.expr->BinOp_op, l.0, r.0)]);
    assert(x.1.last() == StmtV::BinOp(target, e.expr->BinOp_op, l.0, r.0));
}

} // verus!
