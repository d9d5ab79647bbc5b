use vstd::prelude::*;

use crate::passes::cmir_to_lir::chain_view;
use crate::shared::callgraph::{
    clone_instance, get_monomorphizations, growing_recursion, inst_view, insts_view, instance_eq, finitely_instantiable, instances_well_formed, rank_overflow, too_many_instances,
    reachable,
};
use crate::shared::definitions::{BlockId, CellId, CompileError, FuncId, Id, IdFactory, NewtypeId, TypevarId};
use crate::shared::tables::{
    clone_concrete_vec, key_matches, key_view, keys_view, params_view, table_wf, zip_concrete, zip_env, GenericTypetable,
};
use crate::shared::typing::{
    cbind_view, clone_concrete, concrete_views, generic_views, lemma_concrete_views, monomorphize_all, mono_type,
    mono_types, CType, ConcreteType, GType, GenericType,
};
use crate::stages::cmir::{
    CMIRBlock, CMIRFunction, CMIRPlace, CMIRPlaceBase, CMIRProgram, CMIRStatement, CMIRTerminator, CMIRValue,
    CMIRValueKind,
};
use crate::stages::mir::{
    MIRBlock, MIRFunction, MIRPlace, MIRPlaceBase, MIRProgram, MIRStatement, MIRTerminator, MIRValue, MIRValueKind,
};

verus! {

// ---------------------------------------------------------------------------------------------
// The context of a function body: type bindings, cell renaming, function instances.

/// The value of the last entry for key `k`, as a map that each insertion overwrites would hold.
pub open spec fn find_last<K, V>(s: Seq<(K, V)>, k: K) -> Option<V>
    decreases s.len(),
{
    if s.len() == 0 {
        None
    } else if s.last().0 == k {
        Some(s.last().1)
    } else {
        find_last(s.drop_last(), k)
    }
}

/// What monomorphizing a function body depends on.
pub struct MonoCtx {
    /// The concrete type of each type variable.
    pub b: Seq<(Seq<char>, CType)>,
    /// The new identifier of each cell.
    pub cells: Seq<(CellId, CellId)>,
    /// The new identifier of each function instance.
    pub funcs: Seq<((usize, Seq<CType>), FuncId)>,
}

pub open spec fn base_cell(b: MIRPlaceBase) -> CellId {
    match b {
        MIRPlaceBase::Cell(c) => c,
        MIRPlaceBase::Deref(c) => c,
    }
}

pub open spec fn map_base(ctx: MonoCtx, b: MIRPlaceBase) -> CMIRPlaceBase {
    match b {
        MIRPlaceBase::Cell(c) => CMIRPlaceBase::Cell(find_last(ctx.cells, c)->Some_0),
        MIRPlaceBase::Deref(c) => CMIRPlaceBase::Deref(find_last(ctx.cells, c)->Some_0),
    }
}

/// The instance a call with type arguments `tps` refers to, under the body's bindings.
pub open spec fn call_key(ctx: MonoCtx, func: FuncId, tps: Seq<GType>) -> (usize, Seq<CType>) {
    (func.0, mono_types(tps, ctx.b)->Ok_0)
}

// ---------------------------------------------------------------------------------------------
// Places and values.

/// The place's cell has a new identifier.
pub open spec fn place_cells_ok(ctx: MonoCtx, p: MIRPlace) -> bool {
    find_last(ctx.cells, base_cell(p.base)) is Some
}

/// The place's type can be instantiated.
pub open spec fn place_types_ok(ctx: MonoCtx, p: MIRPlace) -> bool {
    mono_type(p.typ@, ctx.b) is Ok
}

/// `q` is the monomorphized `p`: instantiated type, renamed cell, same field chain.
pub open spec fn place_rel(ctx: MonoCtx, p: MIRPlace, q: CMIRPlace) -> bool {
    &&& q.typ@ == mono_type(p.typ@, ctx.b)->Ok_0
    &&& q.base == map_base(ctx, p.base)
    &&& chain_view(q.fieldchain@) == chain_view(p.fieldchain@)
}

/// Every cell a value mentions has a new identifier.
pub open spec fn value_cells_ok(ctx: MonoCtx, v: MIRValue) -> bool
    decreases v, 1nat, 0nat,
{
    match v.value {
        MIRValueKind::Place(p) => place_cells_ok(ctx, p),
        MIRValueKind::Reference(p) => place_cells_ok(ctx, p),
        MIRValueKind::StructLiteral { fields } => fields_cells_ok(ctx, v, fields@.len() as int),
        _ => true,
    }
}

pub open spec fn fields_cells_ok(ctx: MonoCtx, v: MIRValue, n: int) -> bool
    decreases v, 0nat, n,
{
    if n <= 0 {
        true
    } else if !(v.value is StructLiteral) || n > v.value->StructLiteral_fields@.len() {
        false
    } else {
        let fs = v.value->StructLiteral_fields@;
        &&& fields_cells_ok(ctx, v, n - 1)
        &&& {
            proof {
                assert(decreases_to!(v => v.value));
                assert(decreases_to!(v.value => v.value->StructLiteral_fields));
                assert(decreases_to!(v.value->StructLiteral_fields => fs));
                assert(decreases_to!(fs => fs[n - 1]));
                assert(decreases_to!(fs[n - 1] => fs[n - 1].1));
            }
            value_cells_ok(ctx, fs[n - 1].1)
        }
    }
}

/// Every type in a value can be instantiated.
pub open spec fn value_types_ok(ctx: MonoCtx, v: MIRValue) -> bool
    decreases v, 1nat, 0nat,
{
    &&& mono_type(v.typ@, ctx.b) is Ok
    &&& match v.value {
        MIRValueKind::Place(p) => place_types_ok(ctx, p),
        MIRValueKind::Reference(p) => place_types_ok(ctx, p),
        MIRValueKind::StructLiteral { fields } => fields_types_ok(ctx, v, fields@.len() as int),
        _ => true,
    }
}

pub open spec fn fields_types_ok(ctx: MonoCtx, v: MIRValue, n: int) -> bool
    decreases v, 0nat, n,
{
    if n <= 0 {
        true
    } else if !(v.value is StructLiteral) || n > v.value->StructLiteral_fields@.len() {
        false
    } else {
        let fs = v.value->StructLiteral_fields@;
        &&& fields_types_ok(ctx, v, n - 1)
        &&& {
            proof {
                assert(decreases_to!(v => v.value));
                assert(decreases_to!(v.value => v.value->StructLiteral_fields));
                assert(decreases_to!(v.value->StructLiteral_fields => fs));
                assert(decreases_to!(fs => fs[n - 1]));
                assert(decreases_to!(fs[n - 1] => fs[n - 1].1));
            }
            value_types_ok(ctx, fs[n - 1].1)
        }
    }
}

/// `c` is the monomorphized `g`: same shape, instantiated types, renamed cells.
pub open spec fn value_rel(ctx: MonoCtx, g: MIRValue, c: CMIRValue) -> bool
    decreases g, 1nat, 0nat,
{
    &&& c.typ@ == mono_type(g.typ@, ctx.b)->Ok_0
    &&& match g.value {
        MIRValueKind::Place(p) => c.value is Place && place_rel(ctx, p, c.value->Place_0),
        MIRValueKind::IntLiteral(n) => c.value is IntLiteral && c.value->IntLiteral_0 == n,
        MIRValueKind::BoolTrue => c.value is BoolTrue,
        MIRValueKind::BoolFalse => c.value is BoolFalse,
        MIRValueKind::StructLiteral { fields } => {
            &&& c.value is StructLiteral
            &&& c.value->StructLiteral_fields@.len() == fields@.len()
            &&& fields_rel(ctx, g, c, fields@.len() as int)
        },
        MIRValueKind::Reference(p) => c.value is Reference && place_rel(ctx, p, c.value->Reference_0),
    }
}

pub open spec fn fields_rel(ctx: MonoCtx, g: MIRValue, c: CMIRValue, n: int) -> bool
    decreases g, 0nat, n,
{
    if n <= 0 {
        true
    } else if !(g.value is StructLiteral) || !(c.value is StructLiteral) || n > g.value->StructLiteral_fields@.len()
        || n > c.value->StructLiteral_fields@.len() {
        false
    } else {
        let gs = g.value->StructLiteral_fields@;
        let cs = c.value->StructLiteral_fields@;
        &&& fields_rel(ctx, g, c, n - 1)
        &&& cs[n - 1].0@ == gs[n - 1].0@
        &&& {
            proof {
                assert(decreases_to!(g => g.value));
                assert(decreases_to!(g.value => g.value->StructLiteral_fields));
                assert(decreases_to!(g.value->StructLiteral_fields => gs));
                assert(decreases_to!(gs => gs[n - 1]));
                assert(decreases_to!(gs[n - 1] => gs[n - 1].1));
            }
            value_rel(ctx, gs[n - 1].1, cs[n - 1].1)
        }
    }
}

/// The struct instances that the values inside `v`, `v` included, have as types.
pub open spec fn value_newtypes(ctx: MonoCtx, v: MIRValue) -> Set<CType>
    decreases v, 1nat, 0nat,
{
    let own = if mono_type(v.typ@, ctx.b)->Ok_0 is NewType {
        set![mono_type(v.typ@, ctx.b)->Ok_0]
    } else {
        Set::empty()
    };
    match v.value {
        MIRValueKind::StructLiteral { fields } => fields_newtypes(ctx, v, fields@.len() as int) + own,
        _ => own,
    }
}

pub open spec fn fields_newtypes(ctx: MonoCtx, v: MIRValue, n: int) -> Set<CType>
    decreases v, 0nat, n,
{
    if n <= 0 || !(v.value is StructLiteral) || n > v.value->StructLiteral_fields@.len() {
        Set::empty()
    } else {
        let fs = v.value->StructLiteral_fields@;
        proof {
            assert(decreases_to!(v => v.value));
            assert(decreases_to!(v.value => v.value->StructLiteral_fields));
            assert(decreases_to!(v.value->StructLiteral_fields => fs));
            assert(decreases_to!(fs => fs[n - 1]));
            assert(decreases_to!(fs[n - 1] => fs[n - 1].1));
        }
        fields_newtypes(ctx, v, n - 1) + value_newtypes(ctx, fs[n - 1].1)
    }
}

pub proof fn lemma_fields_types_ok_prefix(ctx: MonoCtx, v: MIRValue, m: int, n: int)
    requires
        0 <= m <= n,
        fields_types_ok(ctx, v, n),
    ensures
        fields_types_ok(ctx, v, m),
    decreases n - m,
{
    if m < n {
        lemma_fields_types_ok_prefix(ctx, v, m, n - 1);
    }
}

pub proof fn lemma_fields_cells_ok_prefix(ctx: MonoCtx, v: MIRValue, m: int, n: int)
    requires
        0 <= m <= n,
        fields_cells_ok(ctx, v, n),
    ensures
        fields_cells_ok(ctx, v, m),
    decreases n - m,
{
    if m < n {
        lemma_fields_cells_ok_prefix(ctx, v, m, n - 1);
    }
}

pub open spec fn funcs_view(s: Seq<((FuncId, Vec<ConcreteType>), FuncId)>) -> Seq<((usize, Seq<CType>), FuncId)> {
    s.map_values(|e: ((FuncId, Vec<ConcreteType>), FuncId)| (inst_view(e.0), e.1))
}

/// Turns generic function bodies into concrete ones, renaming cells and blocks as it goes.
pub struct Monomorphizer {
    mono_func_map: Vec<((FuncId, Vec<ConcreteType>), FuncId)>,
    cell_id_factory: IdFactory<CellId>,
    block_id_factory: IdFactory<BlockId>,
    block_id_map: Vec<(BlockId, BlockId)>,
    /// Old cell identifier to new, over all functions so far.
    cell_id_map: Vec<(CellId, CellId)>,
    /// The types of the new cells, over all functions so far.
    cells: Vec<(CellId, ConcreteType)>,
    /// The struct instances the values so far have as types.
    newtype_monos: Vec<(NewtypeId, Vec<ConcreteType>)>,
}

impl Monomorphizer {
    pub closed spec fn ctx(&self, b: Seq<(Seq<char>, CType)>) -> MonoCtx {
        MonoCtx { b, cells: self.cell_id_map@, funcs: funcs_view(self.mono_func_map@) }
    }

    pub closed spec fn monos(&self) -> Set<CType> {
        keys_view(self.newtype_monos@).to_set()
    }

    /// No struct instance is recorded twice.
    pub closed spec fn monos_unique(&self) -> bool {
        keys_view(self.newtype_monos@).no_duplicates()
    }

    /// Everything but the recorded struct instances is as in `other`, and the record keeps each
    /// instance once where `other`'s did.
    pub closed spec fn same_but_monos(&self, other: &Monomorphizer) -> bool {
        &&& other.monos_unique() ==> self.monos_unique()
        &&& self.mono_func_map == other.mono_func_map
        &&& self.cell_id_factory == other.cell_id_factory
        &&& self.block_id_factory == other.block_id_factory
        &&& self.block_id_map == other.block_id_map
        &&& self.cell_id_map == other.cell_id_map
        &&& self.cells == other.cells
    }
}

fn lookup_cell(map: &Vec<(CellId, CellId)>, k: CellId) -> (r: Option<CellId>)
    ensures
        r == find_last(map@, k),
{
    let mut i: usize = map.len();
    assert(map@.subrange(0, map@.len() as int) =~= map@);
    while i > 0
        invariant
            i <= map.len(),
            find_last(map@, k) == find_last(map@.subrange(0, i as int), k),
        decreases i,
    {
        let ghost pre = map@.subrange(0, i as int);
        assert(pre.drop_last() =~= map@.subrange(0, i - 1));
        if map[i - 1].0 == k {
            return Some(map[i - 1].1);
        }
        i = i - 1;
    }
    assert(map@.subrange(0, 0) =~= Seq::<(CellId, CellId)>::empty());
    None
}

pub(crate) fn clone_chain(chain: &Vec<String>) -> (r: Vec<String>)
    ensures
        chain_view(r@) == chain_view(chain@),
{
    let mut out: Vec<String> = Vec::new();
    let mut i: usize = 0;
    while i < chain.len()
        invariant
            i <= chain.len(),
            out@.len() == i,
            forall|j: int| 0 <= j < i ==> (#[trigger] out@[j])@ == chain@[j]@,
        decreases chain.len() - i,
    {
        out.push(chain[i].clone());
        i = i + 1;
    }
    assert(chain_view(out@) =~= chain_view(chain@));
    out
}

impl Monomorphizer {
    fn monomorphize_place(&self, gen_place: &MIRPlace, bindings: &Vec<(TypevarId, ConcreteType)>) -> (r: Result<CMIRPlace, CompileError>)
        requires
            place_cells_ok(self.ctx(cbind_view(bindings@)), *gen_place),
        ensures
            r is Ok <==> place_types_ok(self.ctx(cbind_view(bindings@)), *gen_place),
            r is Ok ==> place_rel(self.ctx(cbind_view(bindings@)), *gen_place, r->Ok_0),
    {
        let base = match gen_place.base {
            MIRPlaceBase::Cell(id) => match lookup_cell(&self.cell_id_map, id) {
                Some(n) => CMIRPlaceBase::Cell(n),
                None => {
                    assert(false);
                    CMIRPlaceBase::Cell(id)
                },
            },
            MIRPlaceBase::Deref(id) => match lookup_cell(&self.cell_id_map, id) {
                Some(n) => CMIRPlaceBase::Deref(n),
                None => {
                    assert(false);
                    CMIRPlaceBase::Deref(id)
                },
            },
        };
        let typ = match gen_place.typ.monomorphize(bindings) {
            Ok(t) => t,
            Err(e) => {
                return Err(e);
            },
        };
        Ok(CMIRPlace { typ, base, fieldchain: clone_chain(&gen_place.fieldchain) })
    }

    /// Records `typ` as a struct instance the program's values have.
    fn record_newtype(&mut self, typ: &ConcreteType)
        ensures
            final(self).same_but_monos(old(self)),
            final(self).monos() == old(self).monos() + (if typ@ is NewType { set![typ@] } else { Set::empty() }),
    {
        if let ConcreteType::NewType(id, params) = typ {
            let mut i: usize = 0;
            while i < self.newtype_monos.len()
                invariant
                    i <= self.newtype_monos.len(),
                    forall|j: int| 0 <= j < i ==> keys_view(self.newtype_monos@)[j] != typ@,
                decreases self.newtype_monos.len() - i,
            {
                if key_matches(&self.newtype_monos[i].0, &self.newtype_monos[i].1, typ) {
                    proof {
                        assert(keys_view(self.newtype_monos@)[i as int] == typ@);
                        assert(self.monos() =~= self.monos() + set![typ@]);
                    }
                    return;
                }
                i = i + 1;
            }
            let ghost old_monos = self.newtype_monos@;
            self.newtype_monos.push((id.clone(), clone_concrete_vec(params)));
            proof {
                let ks = keys_view(old_monos);
                assert(keys_view(self.newtype_monos@) =~= ks.push(typ@));
                assert forall|a: int, b: int| 0 <= a < b < ks.push(typ@).len() && keys_view(old_monos).no_duplicates()
                    implies ks.push(typ@)[a] != ks.push(typ@)[b] by {
                    if b == ks.len() {
                        assert(ks[a] != typ@);
                    } else {
                        assert(ks[a] != ks[b]);
                    }
                }
                assert forall|y: CType| ks.push(typ@).contains(y) <==> (ks.contains(y) || y == typ@) by {
                    if ks.contains(y) {
                        let j = choose|j: int| 0 <= j < ks.len() && ks[j] == y;
                        assert(ks.push(typ@)[j] == y);
                    }
                    if y == typ@ {
                        assert(ks.push(typ@)[ks.len() as int] == y);
                    }
                    if ks.push(typ@).contains(y) && y != typ@ {
                        let j = choose|j: int| 0 <= j < ks.len() + 1 && ks.push(typ@)[j] == y;
                        assert(j < ks.len());
                        assert(ks[j] == y);
                    }
                }
                assert(self.monos() =~= ks.to_set() + set![typ@]);
            }
        } else {
            assert(self.monos() =~= self.monos() + Set::empty());
        }
    }

    fn monomorphize_value(&mut self, gen_val: &MIRValue, bindings: &Vec<(TypevarId, ConcreteType)>) -> (r: Result<CMIRValue, CompileError>)
        requires
            value_cells_ok(old(self).ctx(cbind_view(bindings@)), *gen_val),
        ensures
            final(self).same_but_monos(old(self)),
            r is Ok <==> value_types_ok(old(self).ctx(cbind_view(bindings@)), *gen_val),
            r is Ok ==> value_rel(old(self).ctx(cbind_view(bindings@)), *gen_val, r->Ok_0),
            r is Ok ==> final(self).monos() == old(self).monos() + value_newtypes(old(self).ctx(cbind_view(bindings@)), *gen_val),
        decreases *gen_val,
    {
        let ghost ctx = self.ctx(cbind_view(bindings@));
        let ghost m0 = self.monos();
        let kind = match &gen_val.value {
            MIRValueKind::Place(place) => match self.monomorphize_place(place, bindings) {
                Ok(p) => CMIRValueKind::Place(p),
                Err(e) => {
                    return Err(e);
                },
            },
            MIRValueKind::IntLiteral(num) => CMIRValueKind::IntLiteral(*num),
            MIRValueKind::BoolTrue => CMIRValueKind::BoolTrue,
            MIRValueKind::BoolFalse => CMIRValueKind::BoolFalse,
            MIRValueKind::StructLiteral { fields } => {
                let mut out: Vec<(String, CMIRValue)> = Vec::new();
                let mut i: usize = 0;
                while i < fields.len()
                    invariant
                        self.same_but_monos(old(self)),
                        self.ctx(cbind_view(bindings@)) == ctx,
                        gen_val.value is StructLiteral,
                        gen_val.value->StructLiteral_fields == *fields,
                        value_cells_ok(ctx, *gen_val),
                        i <= fields.len(),
                        out@.len() == i,
                        fields_types_ok(ctx, *gen_val, i as int),
                        forall|j: int| 0 <= j < i ==> (#[trigger] out@[j]).0@ == fields@[j].0@ && value_rel(ctx, fields@[j].1, out@[j].1),
                        self.monos() == m0 + fields_newtypes(ctx, *gen_val, i as int),
                    decreases fields.len() - i,
                {
                    proof {
                        lemma_fields_cells_ok_prefix(ctx, *gen_val, i + 1, fields@.len() as int);
                    }
                    assert(value_cells_ok(ctx, fields@[i as int].1));
                    match self.monomorphize_value(&fields[i].1, bindings) {
                        Ok(v) => {
                            out.push((fields[i].0.clone(), v));
                            proof {
                                assert(self.monos() =~= m0 + fields_newtypes(ctx, *gen_val, i + 1));
                            }
                        },
                        Err(e) => {
                            proof {
                                if value_types_ok(ctx, *gen_val) {
                                    lemma_fields_types_ok_prefix(ctx, *gen_val, i + 1, fields@.len() as int);
                                }
                            }
                            return Err(e);
                        },
                    }
                    i = i + 1;
                }
                proof {
                    lemma_fields_rel_build(ctx, *gen_val, out, fields@.len() as int);
                }
                CMIRValueKind::StructLiteral { fields: out }
            },
            MIRValueKind::Reference(place) => match self.monomorphize_place(place, bindings) {
                Ok(p) => CMIRValueKind::Reference(p),
                Err(e) => {
                    return Err(e);
                },
            },
        };
        let typ = match gen_val.typ.monomorphize(bindings) {
            Ok(t) => t,
            Err(e) => {
                return Err(e);
            },
        };
        let ghost m1 = self.monos();
        self.record_newtype(&typ);
        let r = CMIRValue { typ, value: kind };
        proof {
            if gen_val.value is StructLiteral {
                lemma_fields_rel_typ_n(ctx, *gen_val, r, gen_val.value->StructLiteral_fields@.len() as int);
            }
            assert(self.monos() =~= m0 + value_newtypes(ctx, *gen_val));
        }
        Ok(r)
    }
}

/// The relation of the first `n` fields holds for a literal whose fields relate one by one.
pub proof fn lemma_fields_rel_build(ctx: MonoCtx, g: MIRValue, out: Vec<(String, CMIRValue)>, n: int)
    requires
        g.value is StructLiteral,
        out@.len() == g.value->StructLiteral_fields@.len(),
        0 <= n <= out@.len(),
        forall|j: int| 0 <= j < out@.len() ==> (#[trigger] out@[j]).0@ == g.value->StructLiteral_fields@[j].0@
            && value_rel(ctx, g.value->StructLiteral_fields@[j].1, out@[j].1),
    ensures
        fields_rel(ctx, g, CMIRValue { typ: ConcreteType::Prim(crate::shared::typing::PrimType::Unit), value: CMIRValueKind::StructLiteral { fields: out } }, n),
    decreases n,
{
    if n > 0 {
        lemma_fields_rel_build(ctx, g, out, n - 1);
    }
}

/// The field relation does not depend on the literal's own type.
pub proof fn lemma_fields_rel_typ_n(ctx: MonoCtx, g: MIRValue, c: CMIRValue, n: int)
    ensures
        fields_rel(ctx, g, c, n) == fields_rel(ctx, g, CMIRValue { typ: ConcreteType::Prim(crate::shared::typing::PrimType::Unit), value: c.value }, n),
    decreases n,
{
    if n > 0 {
        lemma_fields_rel_typ_n(ctx, g, c, n - 1);
    }
}

// ---------------------------------------------------------------------------------------------
// Statements, terminators, blocks.

/// The new identifier of function instance `k`.
pub open spec fn lookup_func(fs: Seq<((usize, Seq<CType>), FuncId)>, k: (usize, Seq<CType>)) -> Option<FuncId>
    decreases fs.len(),
{
    if fs.len() == 0 {
        None
    } else if fs[0].0 == k {
        Some(fs[0].1)
    } else {
        lookup_func(fs.drop_first(), k)
    }
}

pub open spec fn args_cells_ok(ctx: MonoCtx, args: Seq<MIRValue>) -> bool {
    forall|i: int| 0 <= i < args.len() ==> value_cells_ok(ctx, #[trigger] args[i])
}

pub open spec fn args_types_ok(ctx: MonoCtx, args: Seq<MIRValue>) -> bool {
    forall|i: int| 0 <= i < args.len() ==> value_types_ok(ctx, #[trigger] args[i])
}

pub open spec fn args_rel(ctx: MonoCtx, g: Seq<MIRValue>, c: Seq<CMIRValue>) -> bool {
    &&& g.len() == c.len()
    &&& forall|i: int| 0 <= i < g.len() ==> value_rel(ctx, #[trigger] g[i], c[i])
}

pub open spec fn args_newtypes(ctx: MonoCtx, args: Seq<MIRValue>, n: int) -> Set<CType>
    decreases n,
{
    if n <= 0 || n > args.len() {
        Set::empty()
    } else {
        args_newtypes(ctx, args, n - 1) + value_newtypes(ctx, args[n - 1])
    }
}

pub open spec fn stmt_cells_ok(ctx: MonoCtx, st: MIRStatement) -> bool {
    match st {
        MIRStatement::Assign { target, value } => place_cells_ok(ctx, target) && value_cells_ok(ctx, value),
        MIRStatement::BinOp { target, left, right, .. } => {
            place_cells_ok(ctx, target) && value_cells_ok(ctx, left) && value_cells_ok(ctx, right)
        },
        MIRStatement::Call { target, args, .. } => place_cells_ok(ctx, target) && args_cells_ok(ctx, args@),
        MIRStatement::Print(v) => value_cells_ok(ctx, v),
    }
}

/// Every type of the statement can be instantiated, and a called instance has been generated.
pub open spec fn stmt_types_ok(ctx: MonoCtx, st: MIRStatement) -> bool {
    match st {
        MIRStatement::Assign { target, value } => place_types_ok(ctx, target) && value_types_ok(ctx, value),
        MIRStatement::BinOp { target, left, right, .. } => {
            place_types_ok(ctx, target) && value_types_ok(ctx, left) && value_types_ok(ctx, right)
        },
        MIRStatement::Call { target, func, type_params, args } => {
            &&& mono_types(generic_views(type_params@), ctx.b) is Ok
            &&& place_types_ok(ctx, target)
            &&& lookup_func(ctx.funcs, call_key(ctx, func, generic_views(type_params@))) is Some
            &&& args_types_ok(ctx, args@)
        },
        MIRStatement::Print(v) => value_types_ok(ctx, v),
    }
}

/// `c` is the monomorphized `g`; a call is to the new identifier of the called instance.
pub open spec fn stmt_rel(ctx: MonoCtx, g: MIRStatement, c: CMIRStatement) -> bool {
    match g {
        MIRStatement::Assign { target, value } => {
            &&& c is Assign
            &&& place_rel(ctx, target, c->Assign_target)
            &&& value_rel(ctx, value, c->Assign_value)
        },
        MIRStatement::BinOp { target, op, left, right } => {
            &&& c is BinOp
            &&& c->BinOp_op == op
            &&& place_rel(ctx, target, c->BinOp_target)
            &&& value_rel(ctx, left, c->BinOp_left)
            &&& value_rel(ctx, right, c->BinOp_right)
        },
        MIRStatement::Call { target, func, type_params, args } => {
            &&& c is Call
            &&& place_rel(ctx, target, c->Call_target)
            &&& c->Call_func == lookup_func(ctx.funcs, call_key(ctx, func, generic_views(type_params@)))->Some_0
            &&& args_rel(ctx, args@, c->Call_args@)
        },
        MIRStatement::Print(v) => c is Print && value_rel(ctx, v, c->Print_0),
    }
}

/// The struct instances the statement's values have as types.
pub open spec fn stmt_newtypes(ctx: MonoCtx, st: MIRStatement) -> Set<CType> {
    match st {
        MIRStatement::Assign { value, .. } => value_newtypes(ctx, value),
        MIRStatement::BinOp { left, right, .. } => value_newtypes(ctx, left) + value_newtypes(ctx, right),
        MIRStatement::Call { args, .. } => args_newtypes(ctx, args@, args@.len() as int),
        MIRStatement::Print(v) => value_newtypes(ctx, v),
    }
}

pub open spec fn term_blocks_ok(bmap: Seq<(BlockId, BlockId)>, t: MIRTerminator) -> bool {
    match t {
        MIRTerminator::Goto(id) => find_last(bmap, id) is Some,
        MIRTerminator::Branch { then_, else_, .. } => find_last(bmap, then_) is Some && find_last(bmap, else_) is Some,
        MIRTerminator::Return(_) => true,
    }
}

pub open spec fn term_cells_ok(ctx: MonoCtx, t: MIRTerminator) -> bool {
    match t {
        MIRTerminator::Goto(_) => true,
        MIRTerminator::Branch { condition, .. } => value_cells_ok(ctx, condition),
        MIRTerminator::Return(v) => match v {
            Some(v) => value_cells_ok(ctx, v),
            None => true,
        },
    }
}

pub open spec fn term_types_ok(ctx: MonoCtx, t: MIRTerminator) -> bool {
    match t {
        MIRTerminator::Goto(_) => true,
        MIRTerminator::Branch { condition, .. } => value_types_ok(ctx, condition),
        MIRTerminator::Return(v) => match v {
            Some(v) => value_types_ok(ctx, v),
            None => true,
        },
    }
}

/// `c` is the monomorphized `g`, with its target blocks renamed.
pub open spec fn term_rel(ctx: MonoCtx, bmap: Seq<(BlockId, BlockId)>, g: MIRTerminator, c: CMIRTerminator) -> bool {
    match g {
        MIRTerminator::Goto(id) => c == CMIRTerminator::Goto(find_last(bmap, id)->Some_0),
        MIRTerminator::Branch { condition, then_, else_ } => {
            &&& c is Branch
            &&& value_rel(ctx, condition, c->Branch_condition)
            &&& c->Branch_then_ == find_last(bmap, then_)->Some_0
            &&& c->Branch_else_ == find_last(bmap, else_)->Some_0
        },
        MIRTerminator::Return(v) => match v {
            Some(v) => c is Return && c->Return_0 is Some && value_rel(ctx, v, c->Return_0->Some_0),
            None => c is Return && c->Return_0 is None,
        },
    }
}

pub open spec fn term_newtypes(ctx: MonoCtx, t: MIRTerminator) -> Set<CType> {
    match t {
        MIRTerminator::Goto(_) => Set::empty(),
        MIRTerminator::Branch { condition, .. } => value_newtypes(ctx, condition),
        MIRTerminator::Return(v) => match v {
            Some(v) => value_newtypes(ctx, v),
            None => Set::empty(),
        },
    }
}

pub open spec fn block_cells_ok(ctx: MonoCtx, bmap: Seq<(BlockId, BlockId)>, b: MIRBlock) -> bool {
    &&& forall|i: int| 0 <= i < b.statements@.len() ==> stmt_cells_ok(ctx, #[trigger] b.statements@[i])
    &&& term_cells_ok(ctx, b.terminator)
    &&& term_blocks_ok(bmap, b.terminator)
}

pub open spec fn block_types_ok(ctx: MonoCtx, b: MIRBlock) -> bool {
    &&& forall|i: int| 0 <= i < b.statements@.len() ==> stmt_types_ok(ctx, #[trigger] b.statements@[i])
    &&& term_types_ok(ctx, b.terminator)
}

pub open spec fn block_rel(ctx: MonoCtx, bmap: Seq<(BlockId, BlockId)>, g: MIRBlock, c: CMIRBlock) -> bool {
    &&& c.statements@.len() == g.statements@.len()
    &&& forall|i: int| 0 <= i < g.statements@.len() ==> stmt_rel(ctx, #[trigger] g.statements@[i], c.statements@[i])
    &&& term_rel(ctx, bmap, g.terminator, c.terminator)
}

pub open spec fn stmts_newtypes(ctx: MonoCtx, ss: Seq<MIRStatement>, n: int) -> Set<CType>
    decreases n,
{
    if n <= 0 || n > ss.len() {
        Set::empty()
    } else {
        stmts_newtypes(ctx, ss, n - 1) + stmt_newtypes(ctx, ss[n - 1])
    }
}

pub open spec fn block_newtypes(ctx: MonoCtx, b: MIRBlock) -> Set<CType> {
    stmts_newtypes(ctx, b.statements@, b.statements@.len() as int) + term_newtypes(ctx, b.terminator)
}

fn lookup_block(map: &Vec<(BlockId, BlockId)>, k: BlockId) -> (r: Option<BlockId>)
    ensures
        r == find_last(map@, k),
{
    let mut i: usize = map.len();
    assert(map@.subrange(0, map@.len() as int) =~= map@);
    while i > 0
        invariant
            i <= map.len(),
            find_last(map@, k) == find_last(map@.subrange(0, i as int), k),
        decreases i,
    {
        let ghost pre = map@.subrange(0, i as int);
        assert(pre.drop_last() =~= map@.subrange(0, i - 1));
        if map[i - 1].0 == k {
            return Some(map[i - 1].1);
        }
        i = i - 1;
    }
    assert(map@.subrange(0, 0) =~= Seq::<(BlockId, BlockId)>::empty());
    None
}

fn lookup_func_id(map: &Vec<((FuncId, Vec<ConcreteType>), FuncId)>, key: &(FuncId, Vec<ConcreteType>)) -> (r: Option<FuncId>)
    ensures
        r == lookup_func(funcs_view(map@), inst_view(*key)),
{
    let mut i: usize = 0;
    assert(funcs_view(map@).subrange(0, funcs_view(map@).len() as int) =~= funcs_view(map@));
    while i < map.len()
        invariant
            i <= map.len(),
            funcs_view(map@).len() == map@.len(),
            lookup_func(funcs_view(map@), inst_view(*key)) == lookup_func(funcs_view(map@).subrange(i as int, map@.len() as int), inst_view(*key)),
        decreases map.len() - i,
    {
        let ghost rest = funcs_view(map@).subrange(i as int, map@.len() as int);
        assert(rest[0] == (inst_view(map@[i as int].0), map@[i as int].1));
        assert(rest.drop_first() =~= funcs_view(map@).subrange(i + 1, map@.len() as int));
        if instance_eq(&map[i].0, key) {
            return Some(map[i].1);
        }
        i = i + 1;
    }
    None
}

impl Monomorphizer {
    fn monomorphize_args(&mut self, args: &Vec<MIRValue>, bindings: &Vec<(TypevarId, ConcreteType)>) -> (r: Result<Vec<CMIRValue>, CompileError>)
        requires
            args_cells_ok(old(self).ctx(cbind_view(bindings@)), args@),
        ensures
            final(self).same_but_monos(old(self)),
            r is Ok <==> args_types_ok(old(self).ctx(cbind_view(bindings@)), args@),
            r is Ok ==> args_rel(old(self).ctx(cbind_view(bindings@)), args@, r->Ok_0@),
            r is Ok ==> final(self).monos() == old(self).monos() + args_newtypes(old(self).ctx(cbind_view(bindings@)), args@, args@.len() as int),
    {
        let ghost ctx = self.ctx(cbind_view(bindings@));
        let ghost m0 = self.monos();
        let mut out: Vec<CMIRValue> = Vec::new();
        let mut i: usize = 0;
        assert(m0 =~= m0 + Set::<CType>::empty());
        while i < args.len()
            invariant
                self.same_but_monos(old(self)),
                self.ctx(cbind_view(bindings@)) == ctx,
                ctx == old(self).ctx(cbind_view(bindings@)),
                m0 == old(self).monos(),
                args_cells_ok(ctx, args@),
                i <= args.len(),
                out@.len() == i,
                forall|j: int| 0 <= j < i ==> value_types_ok(ctx, #[trigger] args@[j]),
                forall|j: int| 0 <= j < i ==> value_rel(ctx, #[trigger] args@[j], out@[j]),
                self.monos() == m0 + args_newtypes(ctx, args@, i as int),
            decreases args.len() - i,
        {
            assert(value_cells_ok(ctx, args@[i as int]));
            match self.monomorphize_value(&args[i], bindings) {
                Ok(v) => {
                    out.push(v);
                    proof {
                        assert(self.monos() =~= m0 + args_newtypes(ctx, args@, i + 1));
                    }
                },
                Err(e) => {
                    return Err(e);
                },
            }
            i = i + 1;
        }
        Ok(out)
    }

    fn monomorphize_statement(&mut self, gen_stmt: &MIRStatement, bindings: &Vec<(TypevarId, ConcreteType)>) -> (r: Result<CMIRStatement, CompileError>)
        requires
            stmt_cells_ok(old(self).ctx(cbind_view(bindings@)), *gen_stmt),
        ensures
            final(self).same_but_monos(old(self)),
            r is Ok <==> stmt_types_ok(old(self).ctx(cbind_view(bindings@)), *gen_stmt),
            r is Ok ==> stmt_rel(old(self).ctx(cbind_view(bindings@)), *gen_stmt, r->Ok_0),
            r is Ok ==> final(self).monos() == old(self).monos() + stmt_newtypes(old(self).ctx(cbind_view(bindings@)), *gen_stmt),
    {
        let ghost ctx = self.ctx(cbind_view(bindings@));
        let ghost m0 = self.monos();
        match gen_stmt {
            MIRStatement::Assign { target, value } => {
                let t = match self.monomorphize_place(target, bindings) {
                    Ok(t) => t,
                    Err(e) => {
                        return Err(e);
                    },
                };
                let v = match self.monomorphize_value(value, bindings) {
                    Ok(v) => v,
                    Err(e) => {
                        return Err(e);
                    },
                };
                Ok(CMIRStatement::Assign { target: t, value: v })
            },
            MIRStatement::BinOp { target, op, left, right } => {
                let t = match self.monomorphize_place(target, bindings) {
                    Ok(t) => t,
                    Err(e) => {
                        return Err(e);
                    },
                };
                let l = match self.monomorphize_value(left, bindings) {
                    Ok(v) => v,
                    Err(e) => {
                        return Err(e);
                    },
                };
                let ghost m1 = self.monos();
                let rv = match self.monomorphize_value(right, bindings) {
                    Ok(v) => v,
                    Err(e) => {
                        return Err(e);
                    },
                };
                proof {
                    assert(self.monos() =~= m0 + stmt_newtypes(ctx, *gen_stmt));
                }
                Ok(CMIRStatement::BinOp { target: t, op: *op, left: l, right: rv })
            },
            MIRStatement::Call { target, func, type_params, args } => {
                let tps = match monomorphize_all(type_params, bindings) {
                    Ok(tps) => tps,
                    Err(e) => {
                        return Err(e);
                    },
                };
                let t = match self.monomorphize_place(target, bindings) {
                    Ok(t) => t,
                    Err(e) => {
                        return Err(e);
                    },
                };
                let sgn = (*func, tps);
                let id = match lookup_func_id(&self.mono_func_map, &sgn) {
                    Some(id) => id,
                    None => {
                        return Err(CompileError::FunctionNotFound(*func));
                    },
                };
                let a = match self.monomorphize_args(args, bindings) {
                    Ok(a) => a,
                    Err(e) => {
                        return Err(e);
                    },
                };
                Ok(CMIRStatement::Call { target: t, func: id, args: a })
            },
            MIRStatement::Print(value) => {
                let v = match self.monomorphize_value(value, bindings) {
                    Ok(v) => v,
                    Err(e) => {
                        return Err(e);
                    },
                };
                Ok(CMIRStatement::Print(v))
            },
        }
    }

    fn monomorphize_terminator(&mut self, gen_term: &MIRTerminator, bindings: &Vec<(TypevarId, ConcreteType)>) -> (r: Result<CMIRTerminator, CompileError>)
        requires
            term_cells_ok(old(self).ctx(cbind_view(bindings@)), *gen_term),
            term_blocks_ok(old(self).block_id_map@, *gen_term),
        ensures
            final(self).same_but_monos(old(self)),
            r is Ok <==> term_types_ok(old(self).ctx(cbind_view(bindings@)), *gen_term),
            r is Ok ==> term_rel(old(self).ctx(cbind_view(bindings@)), old(self).block_id_map@, *gen_term, r->Ok_0),
            r is Ok ==> final(self).monos() == old(self).monos() + term_newtypes(old(self).ctx(cbind_view(bindings@)), *gen_term),
    {
        match gen_term {
            MIRTerminator::Goto(id) => {
                let n = match lookup_block(&self.block_id_map, *id) {
                    Some(n) => n,
                    None => {
                        assert(false);
                        *id
                    },
                };
                assert(self.monos() =~= self.monos() + Set::<CType>::empty());
                Ok(CMIRTerminator::Goto(n))
            },
            MIRTerminator::Branch { condition, then_, else_ } => {
                let c = match self.monomorphize_value(condition, bindings) {
                    Ok(c) => c,
                    Err(e) => {
                        return Err(e);
                    },
                };
                let t = match lookup_block(&self.block_id_map, *then_) {
                    Some(n) => n,
                    None => {
                        assert(false);
                        *then_
                    },
                };
                let e = match lookup_block(&self.block_id_map, *else_) {
                    Some(n) => n,
                    None => {
                        assert(false);
                        *else_
                    },
                };
                Ok(CMIRTerminator::Branch { condition: c, then_: t, else_: e })
            },
            MIRTerminator::Return(val) => match val {
                Some(v) => match self.monomorphize_value(v, bindings) {
                    Ok(c) => Ok(CMIRTerminator::Return(Some(c))),
                    Err(e) => Err(e),
                },
                None => {
                    assert(self.monos() =~= self.monos() + Set::<CType>::empty());
                    Ok(CMIRTerminator::Return(None))
                },
            },
        }
    }

    fn monomorphize_block(&mut self, gen_block: &MIRBlock, bindings: &Vec<(TypevarId, ConcreteType)>) -> (r: Result<CMIRBlock, CompileError>)
        requires
            block_cells_ok(old(self).ctx(cbind_view(bindings@)), old(self).block_id_map@, *gen_block),
        ensures
            final(self).same_but_monos(old(self)),
            r is Ok <==> block_types_ok(old(self).ctx(cbind_view(bindings@)), *gen_block),
            r is Ok ==> block_rel(old(self).ctx(cbind_view(bindings@)), old(self).block_id_map@, *gen_block, r->Ok_0),
            r is Ok ==> final(self).monos() == old(self).monos() + block_newtypes(old(self).ctx(cbind_view(bindings@)), *gen_block),
    {
        let ghost ctx = self.ctx(cbind_view(bindings@));
        let ghost m0 = self.monos();
        let mut statements: Vec<CMIRStatement> = Vec::new();
        let mut i: usize = 0;
        assert(m0 =~= m0 + Set::<CType>::empty());
        while i < gen_block.statements.len()
            invariant
                self.same_but_monos(old(self)),
                self.ctx(cbind_view(bindings@)) == ctx,
                ctx == old(self).ctx(cbind_view(bindings@)),
                m0 == old(self).monos(),
                block_cells_ok(ctx, old(self).block_id_map@, *gen_block),
                i <= gen_block.statements.len(),
                statements@.len() == i,
                forall|j: int| 0 <= j < i ==> stmt_types_ok(ctx, #[trigger] gen_block.statements@[j]),
                forall|j: int| 0 <= j < i ==> stmt_rel(ctx, #[trigger] gen_block.statements@[j], statements@[j]),
                self.monos() == m0 + stmts_newtypes(ctx, gen_block.statements@, i as int),
            decreases gen_block.statements.len() - i,
        {
            assert(stmt_cells_ok(ctx, gen_block.statements@[i as int]));
            match self.monomorphize_statement(&gen_block.statements[i], bindings) {
                Ok(st) => {
                    statements.push(st);
                    proof {
                        assert(self.monos() =~= m0 + stmts_newtypes(ctx, gen_block.statements@, i + 1));
                    }
                },
                Err(e) => {
                    return Err(e);
                },
            }
            i = i + 1;
        }
        let terminator = match self.monomorphize_terminator(&gen_block.terminator, bindings) {
            Ok(t) => t,
            Err(e) => {
                return Err(e);
            },
        };
        proof {
            assert(self.monos() =~= m0 + block_newtypes(ctx, *gen_block));
        }
        Ok(CMIRBlock { statements, terminator })
    }
}

// ---------------------------------------------------------------------------------------------
// Functions.

pub open spec fn cells_view(s: Seq<(CellId, ConcreteType)>) -> Seq<(CellId, CType)> {
    s.map_values(|e: (CellId, ConcreteType)| (e.0, e.1@))
}

/// The new cell identifiers of a function's cells, numbered from `c0` on.
pub open spec fn new_cells(cells: Seq<(CellId, GenericType)>, c0: nat) -> Seq<(CellId, CellId)> {
    Seq::new(cells.len(), |i: int| (cells[i].0, CellId((c0 + i) as usize)))
}

/// The new block identifiers of a function's blocks, numbered from `b0` on.
pub open spec fn new_blocks(blocks: Seq<(BlockId, MIRBlock)>, b0: nat) -> Seq<(BlockId, BlockId)> {
    Seq::new(blocks.len(), |i: int| (blocks[i].0, BlockId((b0 + i) as usize)))
}

/// The context of the body of `f` instantiated with `tparams`.
pub open spec fn func_ctx(f: MIRFunction, tparams: Seq<CType>, cells0: Seq<(CellId, CellId)>, c0: nat, funcs: Seq<((usize, Seq<CType>), FuncId)>) -> MonoCtx {
    MonoCtx { b: zip_env(params_view(f.typvars@), tparams), cells: cells0 + new_cells(f.cells@, c0), funcs }
}

/// Every cell and block the function mentions is one of its own.
pub open spec fn func_cells_ok(ctx: MonoCtx, bmap: Seq<(BlockId, BlockId)>, f: MIRFunction) -> bool {
    &&& forall|i: int| 0 <= i < f.blocks@.len() ==> block_cells_ok(ctx, bmap, #[trigger] f.blocks@[i].1)
    &&& forall|i: int| 0 <= i < f.args@.len() ==> find_last(ctx.cells, #[trigger] f.args@[i]) is Some
    &&& find_last(bmap, f.entry) is Some
}

pub open spec fn func_types_ok(ctx: MonoCtx, f: MIRFunction) -> bool {
    &&& forall|i: int| 0 <= i < f.cells@.len() ==> mono_type(#[trigger] f.cells@[i].1@, ctx.b) is Ok
    &&& forall|i: int| 0 <= i < f.blocks@.len() ==> block_types_ok(ctx, #[trigger] f.blocks@[i].1)
    &&& mono_type(f.ret_type@, ctx.b) is Ok
}

pub open spec fn blocks_newtypes(ctx: MonoCtx, bs: Seq<(BlockId, MIRBlock)>, n: int) -> Set<CType>
    decreases n,
{
    if n <= 0 || n > bs.len() {
        Set::empty()
    } else {
        blocks_newtypes(ctx, bs, n - 1) + block_newtypes(ctx, bs[n - 1].1)
    }
}

/// The types of the new cells of `f`.
pub open spec fn new_cell_types(ctx: MonoCtx, f: MIRFunction, c0: nat) -> Seq<(CellId, CType)> {
    Seq::new(f.cells@.len(), |i: int| (CellId((c0 + i) as usize), mono_type(f.cells@[i].1@, ctx.b)->Ok_0))
}

/// `c` is `g` monomorphized in context `ctx`, with blocks renamed by `bmap`.
pub open spec fn func_rel(ctx: MonoCtx, bmap: Seq<(BlockId, BlockId)>, g: MIRFunction, c: CMIRFunction) -> bool {
    &&& c.name@ == g.name@
    &&& c.args@.len() == g.args@.len()
    &&& forall|i: int| 0 <= i < g.args@.len() ==> #[trigger] c.args@[i] == find_last(ctx.cells, g.args@[i])->Some_0
    &&& c.blocks@.len() == g.blocks@.len()
    &&& forall|i: int| 0 <= i < g.blocks@.len() ==> {
        &&& (#[trigger] c.blocks@[i]).0 == find_last(bmap, g.blocks@[i].0)->Some_0
        &&& block_rel(ctx, bmap, g.blocks@[i].1, c.blocks@[i].1)
    }
    &&& c.entry == find_last(bmap, g.entry)->Some_0
    &&& c.ret_type@ == mono_type(g.ret_type@, ctx.b)->Ok_0
}

fn clone_cells(cells: &Vec<(CellId, ConcreteType)>) -> (r: Vec<(CellId, ConcreteType)>)
    ensures
        cells_view(r@) == cells_view(cells@),
{
    let mut out: Vec<(CellId, ConcreteType)> = Vec::new();
    let mut i: usize = 0;
    while i < cells.len()
        invariant
            i <= cells.len(),
            out@.len() == i,
            forall|j: int| 0 <= j < i ==> (#[trigger] out@[j]).0 == cells@[j].0 && out@[j].1@ == cells@[j].1@,
        decreases cells.len() - i,
    {
        out.push((cells[i].0, clone_concrete(&cells[i].1)));
        i = i + 1;
    }
    assert(cells_view(out@) =~= cells_view(cells@));
    out
}

impl Monomorphizer {
    pub closed spec fn next_cell(&self) -> nat {
        self.cell_id_factory@ as nat
    }

    pub closed spec fn next_block(&self) -> nat {
        self.block_id_factory@ as nat
    }

    pub closed spec fn cell_map(&self) -> Seq<(CellId, CellId)> {
        self.cell_id_map@
    }

    pub closed spec fn funcs(&self) -> Seq<((usize, Seq<CType>), FuncId)> {
        funcs_view(self.mono_func_map@)
    }

    pub closed spec fn cell_types(&self) -> Seq<(CellId, CType)> {
        cells_view(self.cells@)
    }

    #[verifier::spinoff_prover]
    #[verifier::loop_isolation(false)]
    fn monomorphize_func(&mut self, gen_func: &MIRFunction, tparams: &Vec<ConcreteType>) -> (r: Result<CMIRFunction, CompileError>)
        requires
            old(self).next_cell() + gen_func.cells@.len() < usize::MAX,
            old(self).next_block() + gen_func.blocks@.len() < usize::MAX,
            func_cells_ok(
                func_ctx(*gen_func, concrete_views(tparams@), old(self).cell_map(), old(self).next_cell(), old(self).funcs()),
                new_blocks(gen_func.blocks@, old(self).next_block()),
                *gen_func,
            ),
        ensures
            ({
                let ctx = func_ctx(*gen_func, concrete_views(tparams@), old(self).cell_map(), old(self).next_cell(), old(self).funcs());
                let bmap = new_blocks(gen_func.blocks@, old(self).next_block());
                &&& r is Ok <==> func_types_ok(ctx, *gen_func)
                &&& r is Ok ==> {
                    &&& func_rel(ctx, bmap, *gen_func, r->Ok_0)
                    &&& final(self).funcs() == old(self).funcs()
                    &&& final(self).cell_map() == ctx.cells
                    &&& final(self).next_cell() == old(self).next_cell() + gen_func.cells@.len()
                    &&& final(self).next_block() == old(self).next_block() + gen_func.blocks@.len()
                    &&& final(self).cell_types() == old(self).cell_types() + new_cell_types(ctx, *gen_func, old(self).next_cell())
                    &&& cells_view(r->Ok_0.cells@) == final(self).cell_types()
                    &&& final(self).monos() == old(self).monos() + blocks_newtypes(ctx, gen_func.blocks@, gen_func.blocks@.len() as int)
                    &&& old(self).monos_unique() ==> final(self).monos_unique()
                }
            }),
    {
        let ghost c0 = self.next_cell();
        let ghost b0 = self.next_block();
        let ghost ctx = func_ctx(*gen_func, concrete_views(tparams@), self.cell_map(), c0, self.funcs());
        let ghost bmap = new_blocks(gen_func.blocks@, b0);
        let ghost cells0 = self.cell_map();
        let ghost types0 = self.cell_types();
        let ghost m0 = self.monos();
        let bindings = zip_concrete(&gen_func.typvars, tparams);
        assert(cbind_view(bindings@) == ctx.b);
        let mut i: usize = 0;
        while i < gen_func.cells.len()
            invariant
                i <= gen_func.cells.len(),
                self.cell_id_factory@ == c0 + i,
                self.block_id_factory@ == b0,
                c0 + gen_func.cells@.len() < usize::MAX,
                self.funcs() == ctx.funcs,
                self.monos() == m0,
                old(self).monos_unique() ==> self.monos_unique(),
                self.cell_id_map@ == cells0 + new_cells(gen_func.cells@, c0).subrange(0, i as int),
                self.cell_types() == types0 + new_cell_types(ctx, *gen_func, c0).subrange(0, i as int),
                forall|j: int| 0 <= j < i ==> mono_type(#[trigger] gen_func.cells@[j].1@, ctx.b) is Ok,
                cbind_view(bindings@) == ctx.b,
            decreases gen_func.cells.len() - i,
        {
            let new_id: CellId = self.cell_id_factory.next_id();
            self.cell_id_map.push((gen_func.cells[i].0, new_id));
            let typ = match gen_func.cells[i].1.monomorphize(&bindings) {
                Ok(t) => t,
                Err(e) => {
                    assert(!(mono_type(gen_func.cells@[i as int].1@, ctx.b) is Ok));
                    assert(!func_types_ok(ctx, *gen_func));
                    return Err(e);
                },
            };
            let ghost ct = self.cells@;
            self.cells.push((new_id, typ));
            proof {
                assert(new_cells(gen_func.cells@, c0).subrange(0, i + 1) =~= new_cells(gen_func.cells@, c0).subrange(0, i as int).push((gen_func.cells@[i as int].0, new_id)));
                assert(self.cell_id_map@ =~= cells0 + new_cells(gen_func.cells@, c0).subrange(0, i + 1));
                assert(cells_view(self.cells@) =~= cells_view(ct).push((new_id, typ@)));
                assert(new_cell_types(ctx, *gen_func, c0).subrange(0, i + 1) =~= new_cell_types(ctx, *gen_func, c0).subrange(0, i as int).push((new_id, typ@)));
                assert(self.cell_types() =~= types0 + new_cell_types(ctx, *gen_func, c0).subrange(0, i + 1));
            }
            i = i + 1;
        }
        proof {
            assert(new_cells(gen_func.cells@, c0).subrange(0, i as int) =~= new_cells(gen_func.cells@, c0));
            assert(new_cell_types(ctx, *gen_func, c0).subrange(0, i as int) =~= new_cell_types(ctx, *gen_func, c0));
        }
        assert(self.ctx(cbind_view(bindings@)) == ctx);
        let mut bmap_v: Vec<(BlockId, BlockId)> = Vec::new();
        let mut k: usize = 0;
        while k < gen_func.blocks.len()
            invariant
                k <= gen_func.blocks.len(),
                self.block_id_factory@ == b0 + k,
                b0 + gen_func.blocks@.len() < usize::MAX,
                bmap_v@ == bmap.subrange(0, k as int),
                bmap == new_blocks(gen_func.blocks@, b0),
                self.cell_id_map@ == ctx.cells,
                self.funcs() == ctx.funcs,
                self.monos() == m0,
                old(self).monos_unique() ==> self.monos_unique(),
                self.cell_types() == types0 + new_cell_types(ctx, *gen_func, c0),
                self.cell_id_factory@ == c0 + gen_func.cells@.len(),
                forall|j: int| 0 <= j < gen_func.cells@.len() ==> mono_type(#[trigger] gen_func.cells@[j].1@, ctx.b) is Ok,
            decreases gen_func.blocks.len() - k,
        {
            let id: BlockId = self.block_id_factory.next_id();
            bmap_v.push((gen_func.blocks[k].0, id));
            assert(bmap_v@ =~= bmap.subrange(0, k + 1));
            k = k + 1;
        }
        assert(bmap_v@ =~= bmap);
        self.block_id_map = bmap_v;
        let ghost me = *self;
        let mut blocks: Vec<(BlockId, CMIRBlock)> = Vec::new();
        let mut j: usize = 0;
        assert(m0 =~= m0 + Set::<CType>::empty());
        while j < gen_func.blocks.len()
            invariant
                self.same_but_monos(&me),
                me.ctx(ctx.b) == ctx,
                me.block_id_map@ == bmap,
                func_cells_ok(ctx, bmap, *gen_func),
                j <= gen_func.blocks.len(),
                blocks@.len() == j,
                forall|l: int| 0 <= l < j ==> block_types_ok(ctx, #[trigger] gen_func.blocks@[l].1),
                forall|l: int| 0 <= l < j ==> {
                    &&& (#[trigger] blocks@[l]).0 == find_last(bmap, gen_func.blocks@[l].0)->Some_0
                    &&& block_rel(ctx, bmap, gen_func.blocks@[l].1, blocks@[l].1)
                },
                self.monos() == m0 + blocks_newtypes(ctx, gen_func.blocks@, j as int),
                cbind_view(bindings@) == ctx.b,
                m0 == me.monos(),
            decreases gen_func.blocks.len() - j,
        {
            assert(block_cells_ok(ctx, bmap, gen_func.blocks@[j as int].1));
            let mb = match self.monomorphize_block(&gen_func.blocks[j].1, &bindings) {
                Ok(b) => b,
                Err(e) => {
                    assert(!block_types_ok(ctx, gen_func.blocks@[j as int].1));
                    assert(!func_types_ok(ctx, *gen_func));
                    return Err(e);
                },
            };
            proof {
                lemma_find_last_new(gen_func.blocks@, b0, j as int);
            }
            let id = match lookup_block(&self.block_id_map, gen_func.blocks[j].0) {
                Some(n) => n,
                None => {
                    assert(false);
                    gen_func.blocks[j].0
                },
            };
            blocks.push((id, mb));
            proof {
                assert(self.monos() =~= m0 + blocks_newtypes(ctx, gen_func.blocks@, j + 1));
            }
            j = j + 1;
        }
        let mut args: Vec<CellId> = Vec::new();
        let mut a: usize = 0;
        while a < gen_func.args.len()
            invariant
                self.same_but_monos(&me),
                me.ctx(ctx.b) == ctx,
                func_cells_ok(ctx, bmap, *gen_func),
                a <= gen_func.args.len(),
                args@.len() == a,
                forall|l: int| 0 <= l < a ==> #[trigger] args@[l] == find_last(ctx.cells, gen_func.args@[l])->Some_0,
            decreases gen_func.args.len() - a,
        {
            assert(find_last(ctx.cells, gen_func.args@[a as int]) is Some);
            let n = match lookup_cell(&self.cell_id_map, gen_func.args[a]) {
                Some(n) => n,
                None => {
                    assert(false);
                    gen_func.args[a]
                },
            };
            args.push(n);
            a = a + 1;
        }
        let entry = match lookup_block(&self.block_id_map, gen_func.entry) {
            Some(n) => n,
            None => {
                assert(false);
                gen_func.entry
            },
        };
        let ret_type = match gen_func.ret_type.monomorphize(&bindings) {
            Ok(t) => t,
            Err(e) => {
                return Err(e);
            },
        };
        Ok(CMIRFunction {
            name: gen_func.name.clone(),
            args,
            cells: clone_cells(&self.cells),
            blocks,
            entry,
            ret_type,
        })
    }
}

pub proof fn lemma_find_last_new(blocks: Seq<(BlockId, MIRBlock)>, b0: nat, j: int)
    requires
        0 <= j < blocks.len(),
    ensures
        find_last(new_blocks(blocks, b0), blocks[j].0) is Some,
{
    let s = new_blocks(blocks, b0);
    lemma_find_last_some(s, j);
}

pub proof fn lemma_find_last_some<K, V>(s: Seq<(K, V)>, j: int)
    requires
        0 <= j < s.len(),
    ensures
        find_last(s, s[j].0) is Some,
    decreases s.len(),
{
    if s.last().0 != s[j].0 {
        assert(j < s.len() - 1);
        assert(s.drop_last()[j] == s[j]);
        lemma_find_last_some(s.drop_last(), j);
    }
}

// ---------------------------------------------------------------------------------------------
// Well-formed functions mention only their own cells and blocks.

/// Every cell `ctx1` renames, `ctx2` renames too.
pub open spec fn renames_more(ctx1: MonoCtx, ctx2: MonoCtx) -> bool {
    forall|c: CellId| #[trigger] find_last(ctx1.cells, c) is Some ==> find_last(ctx2.cells, c) is Some
}

pub proof fn lemma_value_cells_more(ctx1: MonoCtx, ctx2: MonoCtx, v: MIRValue)
    requires
        renames_more(ctx1, ctx2),
        value_cells_ok(ctx1, v),
    ensures
        value_cells_ok(ctx2, v),
    decreases v, 1nat, 0nat,
{
    match v.value {
        MIRValueKind::StructLiteral { fields } => {
            lemma_fields_cells_more(ctx1, ctx2, v, fields@.len() as int);
        },
        _ => {},
    }
}

pub proof fn lemma_fields_cells_more(ctx1: MonoCtx, ctx2: MonoCtx, v: MIRValue, n: int)
    requires
        renames_more(ctx1, ctx2),
        fields_cells_ok(ctx1, v, n),
    ensures
        fields_cells_ok(ctx2, v, n),
    decreases v, 0nat, n,
{
    if n > 0 {
        let fs = v.value->StructLiteral_fields@;
        lemma_fields_cells_more(ctx1, ctx2, v, n - 1);
        assert(decreases_to!(v => v.value));
        assert(decreases_to!(v.value => v.value->StructLiteral_fields));
        assert(decreases_to!(v.value->StructLiteral_fields => fs));
        assert(decreases_to!(fs => fs[n - 1]));
        assert(decreases_to!(fs[n - 1] => fs[n - 1].1));
        lemma_value_cells_more(ctx1, ctx2, fs[n - 1].1);
    }
}

pub proof fn lemma_block_cells_more(ctx1: MonoCtx, ctx2: MonoCtx, bmap1: Seq<(BlockId, BlockId)>, bmap2: Seq<(BlockId, BlockId)>, b: MIRBlock)
    requires
        renames_more(ctx1, ctx2),
        forall|k: BlockId| #[trigger] find_last(bmap1, k) is Some ==> find_last(bmap2, k) is Some,
        block_cells_ok(ctx1, bmap1, b),
    ensures
        block_cells_ok(ctx2, bmap2, b),
{
    assert forall|i: int| 0 <= i < b.statements@.len() implies stmt_cells_ok(ctx2, #[trigger] b.statements@[i]) by {
        let st = b.statements@[i];
        assert(stmt_cells_ok(ctx1, st));
        match st {
            MIRStatement::Assign { target, value } => {
                lemma_value_cells_more(ctx1, ctx2, value);
            },
            MIRStatement::BinOp { target, left, right, .. } => {
                lemma_value_cells_more(ctx1, ctx2, left);
                lemma_value_cells_more(ctx1, ctx2, right);
            },
            MIRStatement::Call { target, args, .. } => {
                assert forall|j: int| 0 <= j < args@.len() implies value_cells_ok(ctx2, #[trigger] args@[j]) by {
                    lemma_value_cells_more(ctx1, ctx2, args@[j]);
                }
            },
            MIRStatement::Print(v) => {
                lemma_value_cells_more(ctx1, ctx2, v);
            },
        }
    }
    match b.terminator {
        MIRTerminator::Branch { condition, .. } => {
            lemma_value_cells_more(ctx1, ctx2, condition);
        },
        MIRTerminator::Return(v) => {
            if let Some(v) = v {
                lemma_value_cells_more(ctx1, ctx2, v);
            }
        },
        _ => {},
    }
}

/// A key is found in a list exactly when it is one of the list's keys.
pub proof fn lemma_find_last_keys<K, V, W>(s: Seq<(K, V)>, t: Seq<(K, W)>, k: K)
    requires
        s.len() == t.len(),
        forall|i: int| 0 <= i < s.len() ==> s[i].0 == t[i].0,
    ensures
        (find_last(s, k) is Some) == (find_last(t, k) is Some),
    decreases s.len(),
{
    if s.len() > 0 {
        assert forall|i: int| 0 <= i < s.len() - 1 implies s.drop_last()[i].0 == t.drop_last()[i].0 by {
            assert(s[i].0 == t[i].0);
        }
        lemma_find_last_keys(s.drop_last(), t.drop_last(), k);
    }
}

pub proof fn lemma_find_last_append<K, V>(s: Seq<(K, V)>, t: Seq<(K, V)>, k: K)
    ensures
        find_last(t, k) is Some ==> find_last(s + t, k) == find_last(t, k),
    decreases t.len(),
{
    if t.len() > 0 {
        assert((s + t).drop_last() =~= s + t.drop_last());
        assert((s + t).last() == t.last());
        lemma_find_last_append(s, t.drop_last(), k);
    }
}

/// The context in which a function is checked to mention only its own cells.
pub open spec fn own_ctx(f: MIRFunction) -> MonoCtx {
    MonoCtx { b: Seq::empty(), cells: new_cells(f.cells@, 0), funcs: Seq::empty() }
}

/// The function mentions only its own cells and blocks, and its entry is one of its blocks.
pub open spec fn func_well_formed(f: MIRFunction) -> bool {
    func_cells_ok(own_ctx(f), new_blocks(f.blocks@, 0), f)
}

pub proof fn lemma_func_cells_ok(f: MIRFunction, tparams: Seq<CType>, cells0: Seq<(CellId, CellId)>, c0: nat, funcs: Seq<((usize, Seq<CType>), FuncId)>, b0: nat)
    requires
        func_well_formed(f),
    ensures
        func_cells_ok(func_ctx(f, tparams, cells0, c0, funcs), new_blocks(f.blocks@, b0), f),
{
    let ctx1 = own_ctx(f);
    let ctx2 = func_ctx(f, tparams, cells0, c0, funcs);
    let bm1 = new_blocks(f.blocks@, 0);
    let bm2 = new_blocks(f.blocks@, b0);
    assert forall|c: CellId| #[trigger] find_last(ctx1.cells, c) is Some implies find_last(ctx2.cells, c) is Some by {
        lemma_find_last_keys(new_cells(f.cells@, 0), new_cells(f.cells@, c0), c);
        lemma_find_last_append(cells0, new_cells(f.cells@, c0), c);
    }
    assert forall|k: BlockId| #[trigger] find_last(bm1, k) is Some implies find_last(bm2, k) is Some by {
        lemma_find_last_keys(bm1, bm2, k);
    }
    assert forall|i: int| 0 <= i < f.blocks@.len() implies block_cells_ok(ctx2, bm2, #[trigger] f.blocks@[i].1) by {
        lemma_block_cells_more(ctx1, ctx2, bm1, bm2, f.blocks@[i].1);
    }
    assert forall|i: int| 0 <= i < f.args@.len() implies find_last(ctx2.cells, #[trigger] f.args@[i]) is Some by {
        assert(find_last(ctx1.cells, f.args@[i]) is Some);
    }
    lemma_find_last_keys(bm1, bm2, f.entry);
}

// ---------------------------------------------------------------------------------------------
// Programs.

/// `l` lists each instance the program needs exactly once.
pub open spec fn mono_listing(g: crate::shared::callgraph::CallGraph, root: (usize, Seq<CType>), l: Seq<(usize, Seq<CType>)>) -> bool {
    &&& l.no_duplicates()
    &&& forall|x: (usize, Seq<CType>)| #[trigger] l.contains(x) <==> reachable(g, root, x)
}

/// Instance `i` of the listing becomes function `i`.
pub open spec fn listing_funcs(l: Seq<(usize, Seq<CType>)>) -> Seq<((usize, Seq<CType>), FuncId)> {
    Seq::new(l.len(), |i: int| (l[i], FuncId(i as usize)))
}

/// The generic function with identifier `id`.
pub open spec fn generic_function(fs: Seq<(FuncId, MIRFunction)>, id: usize) -> MIRFunction {
    find_last(fs, FuncId(id))->Some_0
}

/// The context in which instance `k` of listing `l` is generated: its type arguments bound to
/// its function's type variables, and each instance of the listing numbered by its position.
pub open spec fn instance_ctx(gfs: Seq<(FuncId, MIRFunction)>, l: Seq<(usize, Seq<CType>)>, k: int) -> MonoCtx {
    MonoCtx {
        b: zip_env(params_view(generic_function(gfs, l[k].0).typvars@), l[k].1),
        cells: Seq::empty(),
        funcs: listing_funcs(l),
    }
}

/// Every instance of the listing can be generated: every type of its function instantiates, and
/// every call it makes is to an instance of the listing.
pub open spec fn listing_typed(gfs: Seq<(FuncId, MIRFunction)>, l: Seq<(usize, Seq<CType>)>) -> bool {
    forall|k: int| 0 <= k < l.len() ==> func_types_ok(#[trigger] instance_ctx(gfs, l, k), generic_function(gfs, l[k].0))
}

/// The cells of the first `n` instances of the listing.
pub open spec fn listing_cells(gfs: Seq<(FuncId, MIRFunction)>, l: Seq<(usize, Seq<CType>)>, n: int) -> nat
    decreases n,
{
    if n <= 0 || n > l.len() {
        0
    } else {
        listing_cells(gfs, l, n - 1) + generic_function(gfs, l[n - 1].0).cells@.len()
    }
}

/// The concrete cells generated for the first `n` instances of the listing, numbered from 0 on
/// across all of them: each instance's cells in order, with its type arguments substituted.
pub open spec fn listing_cell_types(gfs: Seq<(FuncId, MIRFunction)>, l: Seq<(usize, Seq<CType>)>, n: int) -> Seq<(CellId, CType)>
    decreases n,
{
    if n <= 0 || n > l.len() {
        Seq::empty()
    } else {
        listing_cell_types(gfs, l, n - 1) + new_cell_types(
            instance_ctx(gfs, l, n - 1),
            generic_function(gfs, l[n - 1].0),
            listing_cells(gfs, l, n - 1),
        )
    }
}

/// The cells generated for the first `n` instances are numbered `0, 1, ...` without gaps, one
/// for each cell of those instances' generic functions.
pub proof fn law_listing_cells_numbered(gfs: Seq<(FuncId, MIRFunction)>, l: Seq<(usize, Seq<CType>)>, n: int)
    ensures
        listing_cell_types(gfs, l, n).len() == listing_cells(gfs, l, n),
        forall|k: int| 0 <= k < listing_cell_types(gfs, l, n).len() ==> (#[trigger] listing_cell_types(gfs, l, n)[k]).0 == CellId(k as usize),
    decreases n,
{
    if n > 0 && n <= l.len() {
        law_listing_cells_numbered(gfs, l, n - 1);
        let prev = listing_cell_types(gfs, l, n - 1);
        let f = generic_function(gfs, l[n - 1].0);
        let fresh = new_cell_types(instance_ctx(gfs, l, n - 1), f, listing_cells(gfs, l, n - 1));
        assert forall|k: int| 0 <= k < listing_cell_types(gfs, l, n).len() implies (#[trigger] listing_cell_types(gfs, l, n)[k]).0 == CellId(k as usize) by {
            if k < prev.len() {
                assert(listing_cell_types(gfs, l, n)[k] == prev[k]);
            } else {
                assert(listing_cell_types(gfs, l, n)[k] == fresh[k - prev.len()]);
            }
        }
    }
}

/// The blocks of the first `n` instances of the listing.
pub open spec fn listing_blocks(gfs: Seq<(FuncId, MIRFunction)>, l: Seq<(usize, Seq<CType>)>, n: int) -> nat
    decreases n,
{
    if n <= 0 || n > l.len() {
        0
    } else {
        listing_blocks(gfs, l, n - 1) + generic_function(gfs, l[n - 1].0).blocks@.len()
    }
}

pub proof fn lemma_listing_sizes_mono(gfs: Seq<(FuncId, MIRFunction)>, l: Seq<(usize, Seq<CType>)>, m: int, n: int)
    requires
        0 <= m <= n <= l.len(),
    ensures
        listing_cells(gfs, l, m) <= listing_cells(gfs, l, n),
        listing_blocks(gfs, l, m) <= listing_blocks(gfs, l, n),
    decreases n - m,
{
    if m < n {
        lemma_listing_sizes_mono(gfs, l, m, n - 1);
    }
}

pub open spec fn with_cells(ctx: MonoCtx, s: Seq<(CellId, CellId)>) -> MonoCtx {
    MonoCtx { cells: s, ..ctx }
}

/// Whether the types of a value instantiate does not depend on how cells are renamed.
pub proof fn lemma_value_types_cells(ctx: MonoCtx, s: Seq<(CellId, CellId)>, v: MIRValue)
    ensures
        value_types_ok(ctx, v) == value_types_ok(with_cells(ctx, s), v),
    decreases v, 1nat, 0nat,
{
    match v.value {
        MIRValueKind::StructLiteral { fields } => lemma_fields_types_cells(ctx, s, v, fields@.len() as int),
        _ => {},
    }
}

pub proof fn lemma_fields_types_cells(ctx: MonoCtx, s: Seq<(CellId, CellId)>, v: MIRValue, n: int)
    ensures
        fields_types_ok(ctx, v, n) == fields_types_ok(with_cells(ctx, s), v, n),
    decreases v, 0nat, n,
{
    if n > 0 && v.value is StructLiteral && n <= v.value->StructLiteral_fields@.len() {
        let fs = v.value->StructLiteral_fields@;
        lemma_fields_types_cells(ctx, s, v, n - 1);
        assert(decreases_to!(v => v.value));
        assert(decreases_to!(v.value => v.value->StructLiteral_fields));
        assert(decreases_to!(v.value->StructLiteral_fields => fs));
        assert(decreases_to!(fs => fs[n - 1]));
        assert(decreases_to!(fs[n - 1] => fs[n - 1].1));
        lemma_value_types_cells(ctx, s, fs[n - 1].1);
    }
}

pub proof fn lemma_stmt_types_cells(ctx: MonoCtx, s: Seq<(CellId, CellId)>, st: MIRStatement)
    ensures
        stmt_types_ok(ctx, st) == stmt_types_ok(with_cells(ctx, s), st),
{
    match st {
        MIRStatement::Assign { value, .. } => lemma_value_types_cells(ctx, s, value),
        MIRStatement::BinOp { left, right, .. } => {
            lemma_value_types_cells(ctx, s, left);
            lemma_value_types_cells(ctx, s, right);
        },
        MIRStatement::Call { args, .. } => {
            assert forall|i: int| 0 <= i < args@.len() implies value_types_ok(ctx, #[trigger] args@[i])
                == value_types_ok(with_cells(ctx, s), args@[i]) by {
                lemma_value_types_cells(ctx, s, args@[i]);
            }
            assert(args_types_ok(ctx, args@) == args_types_ok(with_cells(ctx, s), args@));
        },
        MIRStatement::Print(v) => lemma_value_types_cells(ctx, s, v),
    }
}

pub proof fn lemma_block_types_cells(ctx: MonoCtx, s: Seq<(CellId, CellId)>, b: MIRBlock)
    ensures
        block_types_ok(ctx, b) == block_types_ok(with_cells(ctx, s), b),
{
    assert forall|i: int| 0 <= i < b.statements@.len() implies stmt_types_ok(ctx, #[trigger] b.statements@[i])
        == stmt_types_ok(with_cells(ctx, s), b.statements@[i]) by {
        lemma_stmt_types_cells(ctx, s, b.statements@[i]);
    }
    match b.terminator {
        MIRTerminator::Branch { condition, .. } => lemma_value_types_cells(ctx, s, condition),
        MIRTerminator::Return(v) => match v {
            Some(v) => lemma_value_types_cells(ctx, s, v),
            None => {},
        },
        _ => {},
    }
}

pub proof fn lemma_value_newtypes_cells(ctx: MonoCtx, s: Seq<(CellId, CellId)>, v: MIRValue)
    ensures
        value_newtypes(ctx, v) == value_newtypes(with_cells(ctx, s), v),
    decreases v, 1nat, 0nat,
{
    match v.value {
        MIRValueKind::StructLiteral { fields } => lemma_fields_newtypes_cells(ctx, s, v, fields@.len() as int),
        _ => {},
    }
}

pub proof fn lemma_fields_newtypes_cells(ctx: MonoCtx, s: Seq<(CellId, CellId)>, v: MIRValue, n: int)
    ensures
        fields_newtypes(ctx, v, n) == fields_newtypes(with_cells(ctx, s), v, n),
    decreases v, 0nat, n,
{
    if n > 0 && v.value is StructLiteral && n <= v.value->StructLiteral_fields@.len() {
        let fs = v.value->StructLiteral_fields@;
        lemma_fields_newtypes_cells(ctx, s, v, n - 1);
        assert(decreases_to!(v => v.value));
        assert(decreases_to!(v.value => v.value->StructLiteral_fields));
        assert(decreases_to!(v.value->StructLiteral_fields => fs));
        assert(decreases_to!(fs => fs[n - 1]));
        assert(decreases_to!(fs[n - 1] => fs[n - 1].1));
        lemma_value_newtypes_cells(ctx, s, fs[n - 1].1);
    }
}

pub proof fn lemma_args_newtypes_cells(ctx: MonoCtx, s: Seq<(CellId, CellId)>, args: Seq<MIRValue>, n: int)
    ensures
        args_newtypes(ctx, args, n) == args_newtypes(with_cells(ctx, s), args, n),
    decreases n,
{
    if n > 0 && n <= args.len() {
        lemma_args_newtypes_cells(ctx, s, args, n - 1);
        lemma_value_newtypes_cells(ctx, s, args[n - 1]);
    }
}

pub proof fn lemma_stmts_newtypes_cells(ctx: MonoCtx, s: Seq<(CellId, CellId)>, ss: Seq<MIRStatement>, n: int)
    ensures
        stmts_newtypes(ctx, ss, n) == stmts_newtypes(with_cells(ctx, s), ss, n),
    decreases n,
{
    if n > 0 && n <= ss.len() {
        lemma_stmts_newtypes_cells(ctx, s, ss, n - 1);
        match ss[n - 1] {
            MIRStatement::Assign { value, .. } => lemma_value_newtypes_cells(ctx, s, value),
            MIRStatement::BinOp { left, right, .. } => {
                lemma_value_newtypes_cells(ctx, s, left);
                lemma_value_newtypes_cells(ctx, s, right);
            },
            MIRStatement::Call { args, .. } => lemma_args_newtypes_cells(ctx, s, args@, args@.len() as int),
            MIRStatement::Print(v) => lemma_value_newtypes_cells(ctx, s, v),
        }
    }
}

pub proof fn lemma_blocks_newtypes_cells(ctx: MonoCtx, s: Seq<(CellId, CellId)>, bs: Seq<(BlockId, MIRBlock)>, n: int)
    ensures
        blocks_newtypes(ctx, bs, n) == blocks_newtypes(with_cells(ctx, s), bs, n),
    decreases n,
{
    if n > 0 && n <= bs.len() {
        lemma_blocks_newtypes_cells(ctx, s, bs, n - 1);
        let b = bs[n - 1].1;
        lemma_stmts_newtypes_cells(ctx, s, b.statements@, b.statements@.len() as int);
        match b.terminator {
            MIRTerminator::Branch { condition, .. } => lemma_value_newtypes_cells(ctx, s, condition),
            MIRTerminator::Return(v) => match v {
                Some(v) => lemma_value_newtypes_cells(ctx, s, v),
                None => {},
            },
            _ => {},
        }
    }
}

/// The struct instances the values of the first `n` instances of the listing have as types.
pub open spec fn listing_newtypes(gfs: Seq<(FuncId, MIRFunction)>, l: Seq<(usize, Seq<CType>)>, n: int) -> Set<CType>
    decreases n,
{
    if n <= 0 || n > l.len() {
        Set::empty()
    } else {
        let f = generic_function(gfs, l[n - 1].0);
        listing_newtypes(gfs, l, n - 1) + blocks_newtypes(instance_ctx(gfs, l, n - 1), f.blocks@, f.blocks@.len() as int)
    }
}

/// Whether a function's types instantiate does not depend on how cells are renamed.
pub proof fn lemma_func_types_cells(ctx: MonoCtx, s: Seq<(CellId, CellId)>, f: MIRFunction)
    ensures
        func_types_ok(ctx, f) == func_types_ok(with_cells(ctx, s), f),
{
    assert forall|i: int| 0 <= i < f.blocks@.len() implies block_types_ok(ctx, #[trigger] f.blocks@[i].1)
        == block_types_ok(with_cells(ctx, s), f.blocks@[i].1) by {
        lemma_block_types_cells(ctx, s, f.blocks@[i].1);
    }
}

impl Monomorphizer {
    fn new(mono_func_map: Vec<((FuncId, Vec<ConcreteType>), FuncId)>) -> (r: Self)
        ensures
            r.funcs() == funcs_view(mono_func_map@),
            r.cell_map() == Seq::<(CellId, CellId)>::empty(),
            r.next_cell() == 0,
            r.next_block() == 0,
            r.cell_types() == Seq::<(CellId, CType)>::empty(),
            r.monos() == Set::<CType>::empty(),
            r.monos_unique(),
    {
        let r = Monomorphizer {
            mono_func_map,
            cell_id_factory: IdFactory::new(),
            block_id_factory: IdFactory::new(),
            block_id_map: Vec::new(),
            cell_id_map: Vec::new(),
            cells: Vec::new(),
            newtype_monos: Vec::new(),
        };
        assert(r.monos() =~= Set::<CType>::empty());
        assert(r.cell_types() =~= Seq::<(CellId, CType)>::empty());
        r
    }

    /// Fresh cell and block identifiers remain for a function of this size.
    fn has_room(&self, ncells: usize, nblocks: usize) -> (r: bool)
        ensures
            r == (self.next_cell() + ncells < usize::MAX && self.next_block() + nblocks < usize::MAX),
    {
        let c = self.cell_id_factory.peek();
        let b = self.block_id_factory.peek();
        c < usize::MAX - ncells && b < usize::MAX - nblocks
    }
}

fn find_function(fs: &Vec<(FuncId, MIRFunction)>, id: FuncId) -> (r: Option<usize>)
    ensures
        match r {
            Some(i) => i < fs@.len() && find_last(fs@, id) == Some(fs@[i as int].1),
            None => find_last(fs@, id) is None,
        },
{
    let mut i: usize = fs.len();
    assert(fs@.subrange(0, fs@.len() as int) =~= fs@);
    while i > 0
        invariant
            i <= fs.len(),
            find_last(fs@, id) == find_last(fs@.subrange(0, i as int), id),
        decreases i,
    {
        let ghost pre = fs@.subrange(0, i as int);
        assert(pre.drop_last() =~= fs@.subrange(0, i - 1));
        if fs[i - 1].0 == id {
            return Some(i - 1);
        }
        i = i - 1;
    }
    assert(fs@.subrange(0, 0) =~= Seq::<(FuncId, MIRFunction)>::empty());
    None
}

/// Instantiates a generic program: finds the function instances it needs, numbers them, and
/// instantiates each function body with concrete types. Cells are numbered across all instances,
/// and the cell table of each instance holds the cells of every instance up to and including it.
///
/// It fails with `MonomorphizationCycle` where the search for instances meets a call that would
/// instantiate a function on the current call path again with type arguments that strictly
/// dominate the earlier ones (so the program has such a growing recursion); with `FunctionMonomorphization` where an instance has a type that
/// does not instantiate, or calls an instance the program does not need; and with `TooLarge`
/// where the instances together have too many cells or blocks to number, or a rank or the
/// number of instances does not fit a `usize`. A program whose instances are not finitely many
/// always fails.
pub fn concretize_mir(mir_program: MIRProgram) -> (r: Result<CMIRProgram, CompileError>)
    requires
        mir_program.call_graph.wf(),
        table_wf(mir_program.typetable@),
        instances_well_formed(mir_program.call_graph, mir_program.typetable@, (mir_program.entry.0, Seq::<CType>::empty())),
        forall|x: (usize, Seq<CType>)| reachable(mir_program.call_graph, (mir_program.entry.0, Seq::<CType>::empty()), x)
            ==> #[trigger] find_last(mir_program.functions@, FuncId(x.0)) is Some,
        forall|i: int| 0 <= i < mir_program.functions@.len() ==> func_well_formed(#[trigger] mir_program.functions@[i].1),
    ensures
        r is Ok ==> exists|l: Seq<(usize, Seq<CType>)>| {
            let p = r->Ok_0;
            &&& #[trigger] mono_listing(mir_program.call_graph, (mir_program.entry.0, Seq::<CType>::empty()), l)
            &&& p.functions@.len() == l.len()
            &&& l[p.entry.0 as int] == (mir_program.entry.0, Seq::<CType>::empty())
            &&& p.entry.0 < l.len()
            &&& p.typetable@ == mir_program.typetable@
            &&& listing_typed(mir_program.functions@, l)
            &&& keys_view(p.newtype_monomorphs@).to_set() == listing_newtypes(mir_program.functions@, l, l.len() as int)
            &&& keys_view(p.newtype_monomorphs@).no_duplicates()
            &&& forall|i: int| 0 <= i < l.len() ==> {
                let f = generic_function(mir_program.functions@, l[i].0);
                &&& (#[trigger] p.functions@[i]).0 == FuncId(i as usize)
                &&& cells_view(p.functions@[i].1.cells@) == listing_cell_types(mir_program.functions@, l, i + 1)
                &&& exists|ctx: MonoCtx, bmap: Seq<(BlockId, BlockId)>| {
                    &&& ctx.b == zip_env(params_view(f.typvars@), l[i].1)
                    &&& ctx.funcs == listing_funcs(l)
                    &&& #[trigger] func_rel(ctx, bmap, f, p.functions@[i].1)
                }
            }
        },
        r is Err ==> ({
            let e = r->Err_0;
            let g = mir_program.call_graph;
            let root = (mir_program.entry.0, Seq::<CType>::empty());
            let gfs = mir_program.functions@;
            ||| e is MonomorphizationCycle && growing_recursion(g, mir_program.typetable@, root)
            ||| e is FunctionMonomorphization && exists|l: Seq<(usize, Seq<CType>)>| #[trigger] mono_listing(g, root, l)
                && !listing_typed(gfs, l)
            ||| e is TooLarge && exists|l: Seq<(usize, Seq<CType>)>| #[trigger] mono_listing(g, root, l)
                && (listing_cells(gfs, l, l.len() as int) >= usize::MAX || listing_blocks(gfs, l, l.len() as int) >= usize::MAX)
            ||| e is TooLarge && (rank_overflow(g, mir_program.typetable@, root) || too_many_instances(g, root))
        }),
        !finitely_instantiable(mir_program.call_graph, mir_program.typetable@, (mir_program.entry.0, Seq::<CType>::empty())) ==> r is Err,
{
    let ghost g = mir_program.call_graph;
    let ghost root = (mir_program.entry.0, Seq::<CType>::empty());
    let ghost gfs = mir_program.functions@;
    let MIRProgram { typetable, call_graph, functions, entry } = mir_program;
    let mono_reqs = match get_monomorphizations(&call_graph, &typetable, &entry) {
        Ok(reqs) => reqs,
        Err(e) => {
            return Err(e);
        },
    };
    let ghost l = insts_view(mono_reqs@);
    let mut mono_func_map: Vec<((FuncId, Vec<ConcreteType>), FuncId)> = Vec::new();
    let mut i: usize = 0;
    while i < mono_reqs.len()
        invariant
            i <= mono_reqs.len(),
            l == insts_view(mono_reqs@),
            funcs_view(mono_func_map@) == listing_funcs(l).subrange(0, i as int),
        decreases mono_reqs.len() - i,
    {
        let ghost before = mono_func_map@;
        let key = clone_instance(&mono_reqs[i]);
        let id = FuncId::from_raw(i);
        mono_func_map.push((key, id));
        assert(l[i as int] == inst_view(mono_reqs@[i as int]));
        assert(id == FuncId(i));
        assert(funcs_view(mono_func_map@) =~= funcs_view(before).push((inst_view(key), id)));
        assert(funcs_view(mono_func_map@) =~= listing_funcs(l).subrange(0, i + 1));
        i = i + 1;
    }
    assert(funcs_view(mono_func_map@) =~= listing_funcs(l));
    let root_key: (FuncId, Vec<ConcreteType>) = (entry, Vec::new());
    proof {
        lemma_concrete_views(Seq::<ConcreteType>::empty());
        assert(inst_view(root_key) == root);
        assert(l.contains(root));
    }
    let new_entry = match lookup_func_id(&mono_func_map, &root_key) {
        Some(id) => id,
        None => {
            proof {
                let k = choose|k: int| 0 <= k < l.len() && l[k] == root;
                lemma_lookup_listing(l, k);
            }
            assert(false);
            entry
        },
    };
    proof {
        let k = choose|k: int| 0 <= k < l.len() && l[k] == root;
        lemma_lookup_listing(l, k);
    }
    let mut monomorphizer = Monomorphizer::new(mono_func_map);
    proof {
        assert forall|x: (usize, Seq<CType>)| l.contains(x) implies #[trigger] find_last(gfs, FuncId(x.0)) is Some by {
            assert(reachable(g, root, x));
        }
        assert(mono_listing(g, root, l));
    }
    let mono_funcs = match generate_instances(&mut monomorphizer, &functions, &mono_reqs) {
        Ok(fs) => fs,
        Err(e) => {
            return Err(e);
        },
    };
    let r = CMIRProgram {
        functions: mono_funcs,
        entry: new_entry,
        newtype_monomorphs: monomorphizer.newtype_monos,
        typetable,
    };
    proof {
        assert forall|i: int| 0 <= i < l.len() implies {
            let f = generic_function(gfs, l[i].0);
            &&& (#[trigger] r.functions@[i]).0 == FuncId(i as usize)
            &&& cells_view(r.functions@[i].1.cells@) == listing_cell_types(gfs, l, i + 1)
            &&& exists|ctx: MonoCtx, bmap: Seq<(BlockId, BlockId)>| {
                &&& ctx.b == zip_env(params_view(f.typvars@), l[i].1)
                &&& ctx.funcs == listing_funcs(l)
                &&& #[trigger] func_rel(ctx, bmap, f, r.functions@[i].1)
            }
        } by {
            assert(instance_generated(gfs, l, i, r.functions@[i]));
        }
    }
    Ok(r)
}

/// Instance `i` of listing `l` became function `i`: the body of the instance's generic function,
/// monomorphized under the instance's type arguments, with its cells and blocks renamed; its cell
/// table holds the cells of every instance up to and including it.
pub open spec fn instance_generated(
    gfs: Seq<(FuncId, MIRFunction)>,
    l: Seq<(usize, Seq<CType>)>,
    i: int,
    c: (FuncId, CMIRFunction),
) -> bool {
    let f = generic_function(gfs, l[i].0);
    &&& c.0 == FuncId(i as usize)
    &&& cells_view(c.1.cells@) == listing_cell_types(gfs, l, i + 1)
    &&& exists|ctx: MonoCtx, bmap: Seq<(BlockId, BlockId)>| {
        &&& ctx.b == zip_env(params_view(f.typvars@), l[i].1)
        &&& ctx.funcs == listing_funcs(l)
        &&& #[trigger] func_rel(ctx, bmap, f, c.1)
    }
}

/// Generates the instances of the listing in order, numbering cells and blocks across all of
/// them; fails where an instance does not type or the numbers run out.
fn generate_instances(
    monomorphizer: &mut Monomorphizer,
    functions: &Vec<(FuncId, MIRFunction)>,
    mono_reqs: &Vec<(FuncId, Vec<ConcreteType>)>,
) -> (r: Result<Vec<(FuncId, CMIRFunction)>, CompileError>)
    requires
        insts_view(mono_reqs@).no_duplicates(),
        forall|x: (usize, Seq<CType>)| insts_view(mono_reqs@).contains(x) ==> #[trigger] find_last(functions@, FuncId(x.0)) is Some,
        forall|k: int| 0 <= k < functions@.len() ==> func_well_formed(#[trigger] functions@[k].1),
        old(monomorphizer).funcs() == listing_funcs(insts_view(mono_reqs@)),
        old(monomorphizer).next_cell() == 0,
        old(monomorphizer).next_block() == 0,
        old(monomorphizer).cell_types() == Seq::<(CellId, CType)>::empty(),
        old(monomorphizer).monos() == Set::<CType>::empty(),
        old(monomorphizer).monos_unique(),
    ensures
        r is Ok ==> {
            let l = insts_view(mono_reqs@);
            &&& final(monomorphizer).monos() == listing_newtypes(functions@, l, l.len() as int)
            &&& final(monomorphizer).monos_unique()
            &&& r->Ok_0@.len() == l.len()
            &&& listing_typed(functions@, l)
            &&& forall|i: int| 0 <= i < l.len() ==> instance_generated(functions@, l, i, #[trigger] r->Ok_0@[i])
        },
        r is Err ==> {
            let l = insts_view(mono_reqs@);
            let e = r->Err_0;
            ||| e is FunctionMonomorphization && !listing_typed(functions@, l)
            ||| e is TooLarge && (listing_cells(functions@, l, l.len() as int) >= usize::MAX
                || listing_blocks(functions@, l, l.len() as int) >= usize::MAX)
        },
{
    let ghost l = insts_view(mono_reqs@);
    let ghost gfs = functions@;
    let mut mono_funcs: Vec<(FuncId, CMIRFunction)> = Vec::new();
    let mut j: usize = 0;
    while j < mono_reqs.len()
        invariant
            j <= mono_reqs.len(),
            l == insts_view(mono_reqs@),
            gfs == functions@,
            forall|x: (usize, Seq<CType>)| l.contains(x) ==> #[trigger] find_last(gfs, FuncId(x.0)) is Some,
            forall|k: int| 0 <= k < gfs.len() ==> func_well_formed(#[trigger] gfs[k].1),
            monomorphizer.funcs() == listing_funcs(l),
            monomorphizer.next_cell() == listing_cells(gfs, l, j as int),
            monomorphizer.next_block() == listing_blocks(gfs, l, j as int),
            monomorphizer.cell_types() == listing_cell_types(gfs, l, j as int),
            monomorphizer.monos() == listing_newtypes(gfs, l, j as int),
            monomorphizer.monos_unique(),
            forall|k: int| 0 <= k < j ==> func_types_ok(#[trigger] instance_ctx(gfs, l, k), generic_function(gfs, l[k].0)),
            mono_funcs@.len() == j,
            forall|k: int| 0 <= k < j ==> instance_generated(gfs, l, k, #[trigger] mono_funcs@[k]),
        decreases mono_reqs.len() - j,
    {
        let ghost x = l[j as int];
        assert(l.contains(x));
        let k = match find_function(functions, mono_reqs[j].0) {
            Some(k) => k,
            None => {
                assert(false);
                0
            },
        };
        let gen_func = &functions[k].1;
        assert(generic_function(gfs, l[j as int].0) == *gen_func);
        if !monomorphizer.has_room(gen_func.cells.len(), gen_func.blocks.len()) {
            proof {
                lemma_listing_sizes_mono(gfs, l, j + 1, l.len() as int);
            }
            return Err(CompileError::TooLarge);
        }
        proof {
            lemma_func_cells_ok(*gen_func, concrete_views(mono_reqs@[j as int].1@), monomorphizer.cell_map(),
                monomorphizer.next_cell(), monomorphizer.funcs(), monomorphizer.next_block());
        }
        let ghost ctx = func_ctx(*gen_func, concrete_views(mono_reqs@[j as int].1@), monomorphizer.cell_map(),
            monomorphizer.next_cell(), monomorphizer.funcs());
        let ghost bmap = new_blocks(gen_func.blocks@, monomorphizer.next_block());
        proof {
            lemma_func_types_cells(ctx, Seq::empty(), *gen_func);
            lemma_blocks_newtypes_cells(ctx, Seq::empty(), gen_func.blocks@, gen_func.blocks@.len() as int);
            assert(with_cells(ctx, Seq::empty()) == instance_ctx(gfs, l, j as int));
        }
        match monomorphizer.monomorphize_func(gen_func, &mono_reqs[j].1) {
            Ok(cf) => {
                let id = FuncId::from_raw(j);
                assert(l[j as int] == inst_view(mono_reqs@[j as int]));
                assert(id == FuncId(j));
                mono_funcs.push((id, cf));
                proof {
                    let f = generic_function(gfs, l[j as int].0);
                    assert(f == *gen_func);
                    assert(func_rel(ctx, bmap, f, mono_funcs@[j as int].1));
                    assert(ctx.b == zip_env(params_view(f.typvars@), l[j as int].1));
                    assert(mono_funcs@[j as int].0 == FuncId(j));
                    assert(new_cell_types(ctx, f, listing_cells(gfs, l, j as int))
                        =~= new_cell_types(instance_ctx(gfs, l, j as int), f, listing_cells(gfs, l, j as int)));
                    assert(monomorphizer.cell_types() == listing_cell_types(gfs, l, j + 1));
                }
                assert(instance_generated(gfs, l, j as int, mono_funcs@[j as int]));
            },
            Err(e) => {
                return Err(CompileError::FunctionMonomorphization(gen_func.name.clone(), Box::new(e)));
            },
        }
        j = j + 1;
    }
    Ok(mono_funcs)
}

/// Looking up instance `k` of a listing without duplicates gives function `k`.
pub proof fn lemma_lookup_listing(l: Seq<(usize, Seq<CType>)>, k: int)
    requires
        l.no_duplicates(),
        0 <= k < l.len(),
    ensures
        lookup_func(listing_funcs(l), l[k]) == Some(FuncId(k as usize)),
    decreases l.len(),
{
    if k > 0 {
        let t = l.drop_first();
        assert(t[k - 1] == l[k]);
        assert(l[0] != l[k]);
        lemma_lookup_listing(t, k - 1);
        assert(listing_funcs(l).drop_first() =~= Seq::new(t.len(), |i: int| (t[i], FuncId((i + 1) as usize))));
        lemma_lookup_shift(t, k - 1);
    }
}

pub proof fn lemma_lookup_shift(t: Seq<(usize, Seq<CType>)>, k: int)
    requires
        t.no_duplicates(),
        0 <= k < t.len(),
    ensures
        lookup_func(Seq::new(t.len(), |i: int| (t[i], FuncId((i + 1) as usize))), t[k]) == Some(FuncId((k + 1) as usize)),
    decreases t.len(),
{
    let s = Seq::new(t.len(), |i: int| (t[i], FuncId((i + 1) as usize)));
    if k > 0 {
        let t2 = t.drop_first();
        assert(t2[k - 1] == t[k]);
        assert(t[0] != t[k]);
        assert(s.drop_first() =~= Seq::new(t2.len(), |i: int| (t2[i], FuncId((i + 2) as usize))));
        lemma_lookup_shift2(t2, k - 1, 2);
    }
}

pub proof fn lemma_lookup_shift2(t: Seq<(usize, Seq<CType>)>, k: int, d: nat)
    requires
        t.no_duplicates(),
        0 <= k < t.len(),
    ensures
        lookup_func(Seq::new(t.len(), |i: int| (t[i], FuncId((i + d) as usize))), t[k]) == Some(FuncId((k + d) as usize)),
    decreases t.len(),
{
    let s = Seq::new(t.len(), |i: int| (t[i], FuncId((i + d) as usize)));
    if k > 0 {
        let t2 = t.drop_first();
        assert(t2[k - 1] == t[k]);
        assert(t[0] != t[k]);
        assert(s.drop_first() =~= Seq::new(t2.len(), |i: int| (t2[i], FuncId((i + (d + 1)) as usize))));
        lemma_lookup_shift2(t2, k - 1, d + 1);
    }
}

pub proof fn lemma_find_last_index<V>(s: Seq<(FuncId, V)>, k: FuncId)
    ensures
        find_last(s, k) is Some ==> exists|i: int| 0 <= i < s.len() && s[i].0 == k && find_last(s, k) == Some(s[i].1),
    decreases s.len(),
{
    if s.len() > 0 && s.last().0 != k {
        lemma_find_last_index(s.drop_last(), k);
        if find_last(s, k) is Some {
            let i = choose|i: int| 0 <= i < s.drop_last().len() && s.drop_last()[i].0 == k && find_last(s.drop_last(), k) == Some(s.drop_last()[i].1);
            assert(s[i] == s.drop_last()[i]);
        }
    }
}

/// Instantiating a function keeps every binary operation as it was: the statement at the same
/// place of the instance is a binary operation with the same operator, whose left operand is the
/// instantiated left operand and whose right operand the instantiated right operand. A literal
/// operand stays the same literal on the same side.
pub proof fn law_instance_binop_keeps_operands(
    ctx: MonoCtx,
    bmap: Seq<(BlockId, BlockId)>,
    g: MIRFunction,
    c: CMIRFunction,
    i: int,
    k: int,
)
    requires
        func_rel(ctx, bmap, g, c),
        0 <= i < g.blocks@.len(),
        0 <= k < g.blocks@[i].1.statements@.len(),
        g.blocks@[i].1.statements@[k] is BinOp,
    ensures
        ({
            let gs = g.blocks@[i].1.statements@[k];
            let cs = c.blocks@[i].1.statements@[k];
            &&& k < c.blocks@[i].1.statements@.len()
            &&& cs is BinOp
            &&& cs->BinOp_op == gs->BinOp_op
            &&& value_rel(ctx, gs->BinOp_left, cs->BinOp_left)
            &&& value_rel(ctx, gs->BinOp_right, cs->BinOp_right)
            &&& (gs->BinOp_left.value is IntLiteral ==> cs->BinOp_left.value == CMIRValueKind::IntLiteral(gs->BinOp_left.value->IntLiteral_0))
            &&& (gs->BinOp_right.value is IntLiteral ==> cs->BinOp_right.value == CMIRValueKind::IntLiteral(gs->BinOp_right.value->IntLiteral_0))
        }),
{
    assert(block_rel(ctx, bmap, g.blocks@[i].1, c.blocks@[i].1));
    assert(stmt_rel(ctx, g.blocks@[i].1.statements@[k], c.blocks@[i].1.statements@[k]));
}

/// Instantiating a function keeps where each jump goes: where a block of the generic function
/// ends in a jump or a branch, the block at the same place of the instance jumps, for each target,
/// to the instance of the generic block that the target names (for a branch, the one taken when
/// the condition holds to the first, the other to the second).
pub proof fn law_instance_keeps_jump_targets(
    ctx: MonoCtx,
    bmap: Seq<(BlockId, BlockId)>,
    g: MIRFunction,
    c: CMIRFunction,
    i: int,
    j: int,
)
    requires
        func_rel(ctx, bmap, g, c),
        0 <= i < g.blocks@.len(),
        0 <= j < g.blocks@.len(),
    ensures
        ({
            let gt = g.blocks@[i].1.terminator;
            let ct = c.blocks@[i].1.terminator;
            let target = g.blocks@[j].0;
            let inst = c.blocks@[j].0;
            &&& gt is Goto ==> ct is Goto && (gt->Goto_0 == target ==> ct->Goto_0 == inst)
            &&& gt is Branch ==> {
                &&& ct is Branch
                &&& gt->Branch_then_ == target ==> ct->Branch_then_ == inst
                &&& gt->Branch_else_ == target ==> ct->Branch_else_ == inst
            }
            &&& gt is Return ==> ct is Return && (ct->Return_0 is Some <==> gt->Return_0 is Some)
        }),
{
    assert(block_rel(ctx, bmap, g.blocks@[i].1, c.blocks@[i].1));
    assert(c.blocks@[j].0 == find_last(bmap, g.blocks@[j].0)->Some_0);
}

} // verus!
