use vstd::prelude::*;

use crate::shared::definitions::{CellId, IdFactory, Id};
use crate::shared::tables::{
    concrete_ok, instance_fields, layout_of, size_c, table_wf, ChunkLayout, LayoutKind, LayoutKindV, LayoutTable, TableV,
};
use crate::shared::typing::{clone_concrete, CType, ConcreteType};
use crate::stages::cmir::{CMIRBlock, CMIRFunction, CMIRPlace, CMIRPlaceBase, CMIRProgram, CMIRStatement, CMIRTerminator, CMIRValue, CMIRValueKind};
use crate::stages::lir::{stmts_view, LIRBlock, LIRFunction, LIRPlace, LIRProgram, LIRStatement, LIRStmtV, LIRTerminator, LIRValue, StackFrame};

verus! {

// ---------------------------------------------------------------------------------------------
// Where places are in memory.

/// The index of the first field named `name`, or -1.
pub open spec fn field_position(fs: Seq<(Seq<char>, CType)>, name: Seq<char>) -> int
    decreases fs.len(),
{
    if fs.len() == 0 {
        -1
    } else if fs[0].0 == name {
        0
    } else {
        let r = field_position(fs.drop_first(), name);
        if r < 0 { -1 } else { r + 1 }
    }
}

/// The total size of the first `k` fields.
pub open spec fn sizes_before(t: TableV, fs: Seq<(Seq<char>, CType)>, k: int) -> nat
    decreases k,
{
    if k <= 0 {
        0
    } else {
        sizes_before(t, fs, k - 1) + size_c(t, fs[k - 1].1)
    }
}

/// Following the field names of `chain` from a value of type `c`: the byte offset reached and
/// the type found there, or `None` where a name is not a field of the struct at hand.
pub open spec fn chain_walk(t: TableV, c: CType, chain: Seq<Seq<char>>) -> Option<(nat, CType)>
    decreases chain.len(),
{
    if chain.len() == 0 {
        Some((0nat, c))
    } else {
        match c {
            CType::NewType(name, cs) => {
                let fs = instance_fields(t, name, cs);
                let k = field_position(fs, chain[0]);
                if k < 0 {
                    None
                } else {
                    match chain_walk(t, fs[k].1, chain.drop_first()) {
                        Some(r) => Some((sizes_before(t, fs, k) + r.0, r.1)),
                        None => None,
                    }
                }
            },
            _ => None,
        }
    }
}

pub proof fn lemma_field_position(fs: Seq<(Seq<char>, CType)>, name: Seq<char>)
    ensures
        -1 <= field_position(fs, name) < fs.len(),
        field_position(fs, name) >= 0 ==> fs[field_position(fs, name)].0 == name,
        field_position(fs, name) >= 0 ==> forall|j: int| 0 <= j < field_position(fs, name) ==> fs[j].0 != name,
        field_position(fs, name) < 0 ==> forall|j: int| 0 <= j < fs.len() ==> fs[j].0 != name,
    decreases fs.len(),
{
    if fs.len() > 0 {
        lemma_field_position(fs.drop_first(), name);
        assert forall|j: int| 0 < j < fs.len() implies fs[j] == fs.drop_first()[j - 1] by {}
    }
}

pub proof fn lemma_sizes_before_mono(t: TableV, fs: Seq<(Seq<char>, CType)>, i: int, j: int)
    requires
        i <= j,
    ensures
        sizes_before(t, fs, i) <= sizes_before(t, fs, j),
    decreases j - i,
{
    if i < j {
        lemma_sizes_before_mono(t, fs, i, j - 1);
    }
}

/// The sequence of names of a field chain.
pub open spec fn chain_view(chain: Seq<String>) -> Seq<Seq<char>> {
    chain.map_values(|s: String| s@)
}

/// The first entry for key `k`, if any.
pub open spec fn find_first<V>(s: Seq<(CellId, V)>, k: CellId) -> Option<V>
    decreases s.len(),
{
    if s.len() == 0 {
        None
    } else if s[0].0 == k {
        Some(s[0].1)
    } else {
        find_first(s.drop_first(), k)
    }
}

pub proof fn lemma_find_first_push<V>(s: Seq<(CellId, V)>, e: (CellId, V), k: CellId)
    ensures
        find_first(s.push(e), k) == (match find_first(s, k) {
            Some(v) => Some(v),
            None => if e.0 == k { Some(e.1) } else { None },
        }),
    decreases s.len(),
{
    if s.len() > 0 {
        assert(s.push(e).drop_first() =~= s.drop_first().push(e));
        assert(s.push(e)[0] == s[0]);
        lemma_find_first_push(s.drop_first(), e, k);
        assert(s.push(e).len() > 0);
    } else {
        assert(s.push(e).drop_first() =~= Seq::<(CellId, V)>::empty());
        assert(s.push(e)[0] == e);
        assert(find_first(s.push(e).drop_first(), k) is None);
        assert(find_first(s, k) is None);
    }
}

pub proof fn lemma_prefix_trans<A>(a: Seq<A>, b: Seq<A>, c: Seq<A>)
    requires
        a.is_prefix_of(b),
        b.is_prefix_of(c),
    ensures
        a.is_prefix_of(c),
{
    assert forall|i: int| 0 <= i < a.len() implies a[i] == c[i] by {
        assert(a[i] == b.subrange(0, a.len() as int)[i]);
        assert(b[i] == c.subrange(0, b.len() as int)[i]);
    }
    assert(a =~= c.subrange(0, a.len() as int));
}

pub proof fn lemma_find_first_index<V>(s: Seq<(CellId, V)>, k: CellId)
    ensures
        find_first(s, k) is Some ==> exists|i: int| 0 <= i < s.len() && s[i].0 == k && find_first(s, k) == Some(s[i].1),
    decreases s.len(),
{
    if s.len() > 0 && s[0].0 != k {
        lemma_find_first_index(s.drop_first(), k);
        if find_first(s, k) is Some {
            let i = choose|i: int| 0 <= i < s.drop_first().len() && s.drop_first()[i].0 == k && find_first(s.drop_first(), k) == Some(s.drop_first()[i].1);
            assert(s[i + 1] == s.drop_first()[i]);
        }
    }
}

fn find_cell<V>(s: &Vec<(CellId, V)>, k: CellId) -> (r: Option<usize>)
    ensures
        match r {
            Some(i) => i < s@.len() && find_first(s@, k) == Some(s@[i as int].1) && s@[i as int].0 == k,
            None => find_first(s@, k) is None,
        },
{
    let mut i: usize = 0;
    assert(s@.subrange(0, s@.len() as int) =~= s@);
    while i < s.len()
        invariant
            i <= s.len(),
            find_first(s@, k) == find_first(s@.subrange(i as int, s@.len() as int), k),
        decreases s.len() - i,
    {
        let ghost rest = s@.subrange(i as int, s@.len() as int);
        assert(rest[0] == s@[i as int]);
        assert(rest.drop_first() =~= s@.subrange(i + 1, s@.len() as int));
        if s[i].0 == k {
            return Some(i);
        }
        i = i + 1;
    }
    None
}

// ---------------------------------------------------------------------------------------------
// The builder.

/// What lowering a function's places and values depends on: the type definitions, the struct
/// instances that have layouts, and the type of each cell of the function.
pub struct LowerEnv {
    pub types: TableV,
    pub layouts: Set<CType>,
    pub cells: Map<CellId, CType>,
}

impl LowerEnv {
    pub open spec fn types(self) -> TableV {
        self.types
    }

    /// A layout can be had for `c`.
    pub open spec fn knows(self, c: CType) -> bool {
        &&& concrete_ok(self.types, c)
        &&& (c is NewType ==> self.layouts.contains(c))
    }

    /// The definitions are well formed, and every field of a struct instance with a layout
    /// has one too.
    pub open spec fn wf(self) -> bool {
        &&& table_wf(self.types)
        &&& forall|c: CType, j: int|
            #![trigger self.layouts.contains(c), instance_fields(self.types, c->NewType_0, c->NewType_1)[j]]
            self.layouts.contains(c) && 0 <= j < instance_fields(self.types, c->NewType_0, c->NewType_1).len()
                ==> (instance_fields(self.types, c->NewType_0, c->NewType_1)[j].1 is NewType ==>
                    self.layouts.contains(instance_fields(self.types, c->NewType_0, c->NewType_1)[j].1))
    }
}

/// Lowers the functions of a monomorphized program one after the other, allocating stack
/// chunks as it goes.
pub struct LIRBuilder {
    layout_table: LayoutTable,
    /// The chunk that holds each cell of the function being lowered.
    cell_chunk_map: Vec<(CellId, CellId)>,
    /// The layout of each chunk of the function being lowered.
    chunk_table: Vec<(CellId, ChunkLayout)>,
    chunk_id_factory: IdFactory<CellId>,
}

impl LIRBuilder {
    pub closed spec fn types(&self) -> TableV {
        self.layout_table.types@
    }

    pub closed spec fn next_chunk(&self) -> nat {
        self.chunk_id_factory@ as nat
    }

    /// The chunks allocated so far, with their layouts.
    pub closed spec fn chunks(&self) -> Seq<(CellId, ChunkLayout)> {
        self.chunk_table@
    }

    pub closed spec fn cell_map(&self) -> Seq<(CellId, CellId)> {
        self.cell_chunk_map@
    }

    /// The type of the value stored in cell `c`.
    pub closed spec fn cell_type(&self, c: CellId) -> CType {
        find_first(self.chunk_table@, find_first(self.cell_chunk_map@, c)->Some_0)->Some_0@.typ
    }

    /// The layout table can answer for `c`.
    pub open spec fn knows(&self, c: CType) -> bool {
        self.env().knows(c)
    }

    /// The context in which the current function's places and values are lowered.
    pub closed spec fn env(&self) -> LowerEnv {
        LowerEnv {
            types: self.layout_table.types@,
            layouts: Set::new(|c: CType| self.layout_table.has_layout(c)),
            cells: Map::new(|c: CellId| self.has_cell(c), |c: CellId| self.cell_type(c)),
        }
    }

    /// Cell `c` of the current function has a chunk.
    pub closed spec fn has_cell(&self, c: CellId) -> bool {
        find_first(self.cell_chunk_map@, c) is Some
    }

    pub closed spec fn wf(&self) -> bool {
        &&& self.layout_table.wf()
        &&& self.layout_table.closed()
        &&& forall|i: int| 0 <= i < self.chunk_table@.len() ==> {
            &&& (#[trigger] self.chunk_table@[i]).0.0 < self.chunk_id_factory@
            &&& self.chunk_table@[i].1@ == layout_of(self.types(), self.chunk_table@[i].1@.typ)
            &&& concrete_ok(self.types(), self.chunk_table@[i].1@.typ)
            &&& self.layout_table.covers(self.chunk_table@[i].1@.typ)
        }
        &&& forall|i: int| 0 <= i < self.cell_chunk_map@.len() ==>
            find_first(self.chunk_table@, (#[trigger] self.cell_chunk_map@[i]).1) is Some
    }
}

/// A well-formed type the table knows about: so is every field of it.
pub proof fn lemma_field_known(e: LowerEnv, c: CType, j: int)
    requires
        e.wf(),
        e.knows(c),
        c is NewType,
        0 <= j < instance_fields(e.types(), c->NewType_0, c->NewType_1).len(),
    ensures
        e.knows(instance_fields(e.types(), c->NewType_0, c->NewType_1)[j].1),
{
    crate::shared::tables::lemma_instance_fields(e.types(), c->NewType_0, c->NewType_1);
    assert(e.layouts.contains(c));
}

impl LIRBuilder {
    /// The byte offset reached by following the field chain from a value of type `base_type`.
    fn lower_field_access_chain(&self, base_type: &ConcreteType, chain: &Vec<String>) -> (r: usize)
        requires
            self.wf(),
            self.knows(base_type@),
            chain_walk(self.types(), base_type@, chain_view(chain@)) is Some,
            chain_walk(self.types(), base_type@, chain_view(chain@))->Some_0.0 <= usize::MAX,
        ensures
            r == chain_walk(self.types(), base_type@, chain_view(chain@))->Some_0.0,
    {
        let ghost t = self.types();
        let ghost ch = chain_view(chain@);
        let ghost total = chain_walk(t, base_type@, ch)->Some_0.0;
        let mut current_type = clone_concrete(base_type);
        let mut current_offset: usize = 0;
        let mut i: usize = 0;
        assert(ch.subrange(0, ch.len() as int) =~= ch);
        while i < chain.len()
            invariant
                self.wf(),
                t == self.types(),
                ch == chain_view(chain@),
                ch.len() == chain@.len(),
                i <= chain.len(),
                self.knows(current_type@),
                chain_walk(t, current_type@, ch.subrange(i as int, ch.len() as int)) is Some,
                current_offset + chain_walk(t, current_type@, ch.subrange(i as int, ch.len() as int))->Some_0.0 == total,
                total <= usize::MAX,
            decreases chain.len() - i,
        {
            let ghost rest = ch.subrange(i as int, ch.len() as int);
            assert(rest[0] == chain@[i as int]@);
            assert(rest.drop_first() =~= ch.subrange(i + 1, ch.len() as int));
            let ghost cur = current_type@;
            let ghost fs = instance_fields(t, cur->NewType_0, cur->NewType_1);
            let ghost k = field_position(fs, rest[0]);
            proof {
                reveal(LIRBuilder::wf);
                lemma_field_position(fs, rest[0]);
                assert(cur is NewType);
                assert(k >= 0);
                let r = chain_walk(t, fs[k].1, rest.drop_first());
                assert(r is Some);
                assert(chain_walk(t, cur, rest)->Some_0.0 == sizes_before(t, fs, k) + r->Some_0.0);
            }
            let layout = self.layout_table.get_layout(&current_type);
            let fields = match layout.kind {
                LayoutKind::Struct(fs) => fs,
                LayoutKind::Atomic => {
                    assert(false);
                    Vec::new()
                },
            };
            assert(crate::shared::tables::fields_view(fields@) == fs);
            assert(fields@.len() == fs.len());
            let mut idx: usize = 0;
            while idx < fields.len() && fields[idx].0 != chain[i]
                invariant
                    crate::shared::tables::fields_view(fields@) == fs,
                    fields@.len() == fs.len(),
                    0 <= k < fs.len(),
                    fs[k].0 == chain@[i as int]@,
                    forall|j: int| 0 <= j < k ==> fs[j].0 != chain@[i as int]@,
                    idx <= k,
                    i < chain@.len(),
                decreases fields.len() - idx,
            {
                assert(fs[idx as int].0 == fields@[idx as int].0@);
                idx = idx + 1;
            }
            assert(fs[idx as int].0 == fields@[idx as int].0@);
            assert(idx == k);
            let mut field_offset: usize = 0;
            let mut j: usize = 0;
            while j < idx
                invariant
                    self.wf(),
                    t == self.types(),
                    self.knows(cur),
                    cur is NewType,
                    fs == instance_fields(t, cur->NewType_0, cur->NewType_1),
                    crate::shared::tables::fields_view(fields@) == fs,
                    fields@.len() == fs.len(),
                    idx == k,
                    0 <= k < fs.len(),
                    j <= idx,
                    field_offset == sizes_before(t, fs, j as int),
                    sizes_before(t, fs, k) <= usize::MAX,
                decreases idx - j,
            {
                proof {
                    lemma_field_known(self.env(), cur, j as int);
                    lemma_sizes_before_mono(t, fs, j + 1, k);
                }
                assert(fs[j as int].1 == fields@[j as int].1@);
                let fl = self.layout_table.get_layout(&fields[j].1);
                field_offset = field_offset + fl.size;
                j = j + 1;
            }
            proof {
                lemma_field_known(self.env(), cur, k);
                let r = chain_walk(t, fs[k].1, rest.drop_first());
                assert(chain_walk(t, cur, rest)->Some_0.0 == sizes_before(t, fs, k) + r->Some_0.0);
            }
            current_offset = current_offset + field_offset;
            assert(fs[k].1 == fields@[idx as int].1@);
            current_type = clone_concrete(&fields[idx].1);
            i = i + 1;
        }
        current_offset
    }

    /// Where a place of the current function is in memory. The base of a local place is the
    /// cell's own identifier.
    fn lower_place(&self, place: &CMIRPlace) -> (r: LIRPlace)
        requires
            self.wf(),
            place_ok(self.env(), place),
        ensures
            r == place_spec(self.env(), place),
    {
        match place.base {
            CMIRPlaceBase::Cell(cell_id) => {
                let base_type = self.cell_type_of(cell_id);
                let offset = self.lower_field_access_chain(&base_type, &place.fieldchain);
                LIRPlace::Local { base: cell_id, offset }
            },
            CMIRPlaceBase::Deref(ref_id) => {
                let ref_type = self.cell_type_of(ref_id);
                match ref_type {
                    ConcreteType::Reference(typ) => {
                        let offset = self.lower_field_access_chain(&typ, &place.fieldchain);
                        LIRPlace::Deref { pointer: ref_id, offset }
                    },
                    _ => {
                        assert(false);
                        LIRPlace::Deref { pointer: ref_id, offset: 0 }
                    },
                }
            },
        }
    }

    /// The type of cell `c`, as recorded in its chunk's layout.
    fn cell_type_of(&self, c: CellId) -> (r: ConcreteType)
        requires
            self.wf(),
            self.has_cell(c),
        ensures
            r@ == self.cell_type(c),
            self.knows(r@),
    {
        proof {
            reveal(LIRBuilder::wf);
        }
        let i = match find_cell(&self.cell_chunk_map, c) {
            Some(i) => i,
            None => {
                assert(false);
                0
            },
        };
        let chunk = self.cell_chunk_map[i].1;
        proof {
            assert(find_first(self.chunk_table@, self.cell_chunk_map@[i as int].1) is Some);
        }
        let k = match find_cell(&self.chunk_table, chunk) {
            Some(k) => k,
            None => {
                assert(false);
                0
            },
        };
        assert(self.chunk_table@[k as int] == self.chunk_table@[k as int]);
        clone_concrete(&self.chunk_table[k].1.typ)
    }
}

/// The type a place's field chain starts from: the cell's type, or the type a reference cell
/// points to.
pub open spec fn place_root(e: LowerEnv, p: &CMIRPlace) -> Option<CType> {
    match p.base {
        CMIRPlaceBase::Cell(c) => Some(e.cells[c]),
        CMIRPlaceBase::Deref(c) => match e.cells[c] {
            CType::Reference(x) => Some(*x),
            _ => None,
        },
    }
}

pub open spec fn place_cell(p: &CMIRPlace) -> CellId {
    match p.base {
        CMIRPlaceBase::Cell(c) => c,
        CMIRPlaceBase::Deref(c) => c,
    }
}

/// The place can be lowered: its cell has a chunk, a dereferenced cell holds a reference,
/// every name of the chain is a field, and the offset fits in a `usize`.
pub open spec fn place_ok(e: LowerEnv, p: &CMIRPlace) -> bool {
    &&& e.cells.dom().contains(place_cell(p))
    &&& place_root(e, p) is Some
    &&& e.knows(place_root(e, p)->Some_0)
    &&& chain_walk(e.types(), place_root(e, p)->Some_0, chain_view(p.fieldchain@)) is Some
    &&& chain_walk(e.types(), place_root(e, p)->Some_0, chain_view(p.fieldchain@))->Some_0.0 <= usize::MAX
}

/// The lowered place.
pub open spec fn place_spec(e: LowerEnv, p: &CMIRPlace) -> LIRPlace {
    let offset = chain_walk(e.types(), place_root(e, p)->Some_0, chain_view(p.fieldchain@))->Some_0.0 as usize;
    match p.base {
        CMIRPlaceBase::Cell(c) => LIRPlace::Local { base: c, offset },
        CMIRPlaceBase::Deref(c) => LIRPlace::Deref { pointer: c, offset },
    }
}

// ---------------------------------------------------------------------------------------------
// Storing values.

/// The index of the first literal field named `name`, or -1.
pub open spec fn lit_index(lit: Seq<(String, CMIRValue)>, name: Seq<char>) -> int
    decreases lit.len(),
{
    if lit.len() == 0 {
        -1
    } else if lit.last().0@ == name {
        lit.len() - 1
    } else {
        lit_index(lit.drop_last(), name)
    }
}

pub proof fn lemma_lit_index(lit: Seq<(String, CMIRValue)>, name: Seq<char>)
    ensures
        -1 <= lit_index(lit, name) < lit.len(),
        lit_index(lit, name) >= 0 ==> lit[lit_index(lit, name)].0@ == name,
        lit_index(lit, name) >= 0 ==> forall|j: int| lit_index(lit, name) < j < lit.len() ==> lit[j].0@ != name,
        lit_index(lit, name) < 0 ==> forall|j: int| 0 <= j < lit.len() ==> lit[j].0@ != name,
    decreases lit.len(),
{
    if lit.len() > 0 {
        lemma_lit_index(lit.drop_last(), name);
        assert forall|j: int| 0 <= j < lit.len() - 1 implies lit[j] == lit.drop_last()[j] by {}
    }
}

/// The struct fields of a value's type, in layout order.
pub open spec fn layout_fields(e: LowerEnv, c: CType) -> Seq<(Seq<char>, CType)> {
    instance_fields(e.types(), c->NewType_0, c->NewType_1)
}

/// `target` moved `sizes_before(.., j)` bytes further: where field `j` of a struct at `target` is.
pub open spec fn field_target(e: LowerEnv, c: CType, target: LIRPlace, j: int) -> LIRPlace {
    target.with_offset((target.offset_of() + sizes_before(e.types(), layout_fields(e, c), j)) as usize)
}

/// The value can be stored at `target`: its type is known, its places can be lowered, a struct
/// literal gives a value to every field, and no offset exceeds a `usize`.
pub open spec fn value_ok(e: LowerEnv, v: CMIRValue, target: LIRPlace) -> bool
    decreases v, 1nat, 0nat,
{
    &&& e.knows(v.typ@)
    &&& match v.value {
        CMIRValueKind::Place(p) => place_ok(e, &p),
        CMIRValueKind::Reference(p) => place_ok(e, &p),
        CMIRValueKind::StructLiteral { fields } => {
            &&& v.typ@ is NewType
            &&& struct_ok(e, v, target, layout_fields(e, v.typ@).len() as int)
        },
        _ => true,
    }
}

/// The first `n` fields of a struct literal can be stored.
pub open spec fn struct_ok(e: LowerEnv, v: CMIRValue, target: LIRPlace, n: int) -> bool
    decreases v, 0nat, n,
{
    if n <= 0 {
        true
    } else if !(v.value is StructLiteral) {
        false
    } else {
        let lit = v.value->StructLiteral_fields@;
        let k = lit_index(lit, layout_fields(e, v.typ@)[n - 1].0);
        &&& struct_ok(e, v, target, n - 1)
        &&& 0 <= k < lit.len()
        &&& target.offset_of() + sizes_before(e.types(), layout_fields(e, v.typ@), n - 1) <= usize::MAX
        &&& {
            proof {
                assert(decreases_to!(v => v.value));
                assert(decreases_to!(v.value => v.value->StructLiteral_fields));
                assert(decreases_to!(v.value->StructLiteral_fields => lit));
                assert(decreases_to!(lit => lit[k]));
                assert(decreases_to!(lit[k] => lit[k].1));
            }
            value_ok(e, lit[k].1, field_target(e, v.typ@, target, n - 1))
        }
    }
}

/// The statements that store `v` at `target`: one store for a plain value, the stores of each
/// field at its offset, in layout order, for a struct literal.
pub open spec fn stores_into(e: LowerEnv, v: CMIRValue, target: LIRPlace) -> Seq<LIRStmtV>
    decreases v, 1nat, 0nat,
{
    match v.value {
        CMIRValueKind::Place(p) => seq![LIRStmtV::Store { dest: target, value: LIRValue::Place(place_spec(e, &p)) }],
        CMIRValueKind::IntLiteral(n) => seq![LIRStmtV::Store { dest: target, value: LIRValue::IntLiteral(n) }],
        CMIRValueKind::BoolTrue => seq![LIRStmtV::Store { dest: target, value: LIRValue::BoolTrue }],
        CMIRValueKind::BoolFalse => seq![LIRStmtV::Store { dest: target, value: LIRValue::BoolFalse }],
        CMIRValueKind::Reference(p) => seq![LIRStmtV::Store { dest: target, value: LIRValue::Reference(place_spec(e, &p)) }],
        CMIRValueKind::StructLiteral { .. } => struct_stores(e, v, target, layout_fields(e, v.typ@).len() as int),
    }
}

/// The stores of the first `n` fields of a struct literal.
pub open spec fn struct_stores(e: LowerEnv, v: CMIRValue, target: LIRPlace, n: int) -> Seq<LIRStmtV>
    decreases v, 0nat, n,
{
    if n <= 0 || !(v.value is StructLiteral) {
        Seq::empty()
    } else {
        let lit = v.value->StructLiteral_fields@;
        let k = lit_index(lit, layout_fields(e, v.typ@)[n - 1].0);
        if 0 <= k < lit.len() {
            proof {
                assert(decreases_to!(v => v.value));
                assert(decreases_to!(v.value => v.value->StructLiteral_fields));
                assert(decreases_to!(v.value->StructLiteral_fields => lit));
                assert(decreases_to!(lit => lit[k]));
                assert(decreases_to!(lit[k] => lit[k].1));
            }
            struct_stores(e, v, target, n - 1) + stores_into(e, lit[k].1, field_target(e, v.typ@, target, n - 1))
        } else {
            struct_stores(e, v, target, n - 1)
        }
    }
}

fn find_field(lit: &Vec<(String, CMIRValue)>, name: &String) -> (r: usize)
    requires
        lit_index(lit@, name@) >= 0,
    ensures
        r as int == lit_index(lit@, name@),
{
    proof {
        lemma_lit_index(lit@, name@);
    }
    let mut i: usize = lit.len();
    while i > 0
        invariant
            i <= lit.len(),
            lit_index(lit@, name@) < i,
            forall|j: int| lit_index(lit@, name@) < j < lit@.len() ==> lit@[j].0@ != name@,
            0 <= lit_index(lit@, name@) < lit@.len(),
            lit@[lit_index(lit@, name@)].0@ == name@,
        decreases i,
    {
        if lit[i - 1].0 == *name {
            return i - 1;
        }
        i = i - 1;
    }
    0
}

pub proof fn lemma_sizes_before_prefix(t: TableV, fs: Seq<(Seq<char>, CType)>, gs: Seq<(Seq<char>, CType)>, k: int)
    requires
        0 <= k <= fs.len(),
        k <= gs.len(),
        forall|j: int| 0 <= j < k ==> fs[j] == gs[j],
    ensures
        sizes_before(t, fs, k) == sizes_before(t, gs, k),
    decreases k,
{
    if k > 0 {
        lemma_sizes_before_prefix(t, fs, gs, k - 1);
    }
}

/// With all field ranks below the bound, the bounded size sum is the plain sum.
pub proof fn lemma_size_fields_plain(t: TableV, fs: Seq<(Seq<char>, CType)>, bound: nat)
    requires
        forall|i: int| 0 <= i < fs.len() ==> crate::shared::tables::rank_c(t, #[trigger] fs[i].1) + 1 < bound,
    ensures
        crate::shared::tables::size_fields(t, fs, bound) == sizes_before(t, fs, fs.len() as int),
    decreases fs.len(),
{
    if fs.len() > 0 {
        let q = fs.subrange(0, fs.len() - 1);
        assert forall|i: int| 0 <= i < q.len() implies crate::shared::tables::rank_c(t, #[trigger] q[i].1) + 1 < bound by {
            assert(q[i] == fs[i]);
        }
        lemma_size_fields_plain(t, q, bound);
        lemma_sizes_before_prefix(t, q, fs, q.len() as int);
        assert(fs[fs.len() - 1] == fs.last());
    }
}

/// The size of a well-formed struct instance is the sum of its fields' sizes.
pub proof fn lemma_struct_size(t: TableV, c: CType)
    requires
        table_wf(t),
        concrete_ok(t, c),
        c is NewType,
    ensures
        size_c(t, c) == sizes_before(t, instance_fields(t, c->NewType_0, c->NewType_1), instance_fields(t, c->NewType_0, c->NewType_1).len() as int),
{
    let fs = instance_fields(t, c->NewType_0, c->NewType_1);
    crate::shared::tables::lemma_instance_fields(t, c->NewType_0, c->NewType_1);
    lemma_size_fields_plain(t, fs, crate::shared::tables::rank_c(t, c) + 1);
}

impl LIRBuilder {
    /// Stores `value` at `target`; a struct literal field by field, in layout order.
    fn lower_value_into_place(&self, value: &CMIRValue, target: LIRPlace) -> (r: Vec<LIRStatement>)
        requires
            self.wf(),
            value_ok(self.env(), *value, target),
        ensures
            stmts_view(r@) == stores_into(self.env(), *value, target),
        decreases *value,
    {
        proof {
            reveal(LIRBuilder::wf);
        }
        let layout = self.layout_table.get_layout(&value.typ);
        match &value.value {
            CMIRValueKind::Place(val_place) => {
                let p = self.lower_place(val_place);
                let r = vec![LIRStatement::Store { dest: target, value: LIRValue::Place(p) }];
                assert(stmts_view(r@) =~= stores_into(self.env(), *value, target));
                r
            },
            CMIRValueKind::IntLiteral(num) => {
                let r = vec![LIRStatement::Store { dest: target, value: LIRValue::IntLiteral(*num) }];
                assert(stmts_view(r@) =~= stores_into(self.env(), *value, target));
                r
            },
            CMIRValueKind::BoolTrue => {
                let r = vec![LIRStatement::Store { dest: target, value: LIRValue::BoolTrue }];
                assert(stmts_view(r@) =~= stores_into(self.env(), *value, target));
                r
            },
            CMIRValueKind::BoolFalse => {
                let r = vec![LIRStatement::Store { dest: target, value: LIRValue::BoolFalse }];
                assert(stmts_view(r@) =~= stores_into(self.env(), *value, target));
                r
            },
            CMIRValueKind::Reference(refd) => {
                let p = self.lower_place(refd);
                let r = vec![LIRStatement::Store { dest: target, value: LIRValue::Reference(p) }];
                assert(stmts_view(r@) =~= stores_into(self.env(), *value, target));
                r
            },
            CMIRValueKind::StructLiteral { fields } => {
                let ghost t = self.types();
                let ghost c = value.typ@;
                let ghost fs = layout_fields(self.env(), c);
                let type_fields = match layout.kind {
                    LayoutKind::Struct(tf) => tf,
                    LayoutKind::Atomic => {
                        assert(false);
                        Vec::new()
                    },
                };
                assert(crate::shared::tables::fields_view(type_fields@) == fs);
                assert(type_fields@.len() == fs.len());
                proof {
                    lemma_struct_size(t, c);
                }
                let mut stmts: Vec<LIRStatement> = Vec::new();
                let mut curr_field_offset: usize = 0;
                let mut j: usize = 0;
                while j < type_fields.len()
                    invariant
                        self.wf(),
                        t == self.types(),
                        c == value.typ@,
                        value.value is StructLiteral,
                        value.value->StructLiteral_fields == *fields,
                        fs == layout_fields(self.env(), c),
                        crate::shared::tables::fields_view(type_fields@) == fs,
                        type_fields@.len() == fs.len(),
                        j <= type_fields.len(),
                        curr_field_offset == sizes_before(t, fs, j as int),
                        sizes_before(t, fs, fs.len() as int) == size_c(t, c),
                        layout@.size == size_c(t, c),
                        self.knows(c),
                        c is NewType,
                        struct_ok(self.env(), *value, target, fs.len() as int),
                        stmts_view(stmts@) == struct_stores(self.env(), *value, target, j as int),
                    decreases type_fields.len() - j,
                {
                    proof {
                        lemma_struct_ok_prefix(self.env(), *value, target, j + 1, fs.len() as int);
                        lemma_field_known(self.env(), c, j as int);
                        lemma_sizes_before_mono(t, fs, j + 1, fs.len() as int);
                    }
                    let f_target = target.increment_offset(curr_field_offset);
                    assert(fs[j as int] == (type_fields@[j as int].0@, type_fields@[j as int].1@));
                    let fl = self.layout_table.get_layout(&type_fields[j].1);
                    curr_field_offset = curr_field_offset + fl.size;
                    let k = find_field(fields, &type_fields[j].0);
                    let sub = self.lower_value_into_place(&fields[k].1, f_target);
                    let ghost before = stmts@;
                    let mut sub_mut = sub;
                    stmts.append(&mut sub_mut);
                    proof {
                        assert(stmts_view(stmts@) =~= stmts_view(before) + stmts_view(sub@));
                    }
                    j = j + 1;
                }
                stmts
            },
        }
    }
}

/// The first `m` fields can be stored when the first `n >= m` can.
pub proof fn lemma_struct_ok_prefix(e: LowerEnv, v: CMIRValue, target: LIRPlace, m: int, n: int)
    requires
        0 <= m <= n,
        struct_ok(e, v, target, n),
    ensures
        struct_ok(e, v, target, m),
    decreases n - m,
{
    if m < n {
        lemma_struct_ok_prefix(e, v, target, m, n - 1);
    }
}

// ---------------------------------------------------------------------------------------------
// Operands and statements.

/// The temporary chunk with raw number `n`, at offset 0.
pub open spec fn temp_place(n: nat) -> LIRPlace {
    LIRPlace::Local { base: CellId(n as usize), offset: 0 }
}

/// `v` can be turned into an operand when the next fresh chunk is `next`.
pub open spec fn operand_ok(e: LowerEnv, v: CMIRValue, next: nat) -> bool {
    match v.value {
        CMIRValueKind::Place(p) => place_ok(e, &p),
        CMIRValueKind::Reference(p) => place_ok(e, &p),
        CMIRValueKind::StructLiteral { .. } => next < usize::MAX && value_ok(e, v, temp_place(next)),
        _ => true,
    }
}

/// The operand for `v`, the statements that compute it, and the next fresh chunk after them: a
/// struct literal is first stored in a fresh temporary chunk.
pub open spec fn operand_spec(e: LowerEnv, v: CMIRValue, next: nat) -> (LIRValue, Seq<LIRStmtV>, nat) {
    match v.value {
        CMIRValueKind::Place(p) => (LIRValue::Place(place_spec(e, &p)), Seq::empty(), next),
        CMIRValueKind::IntLiteral(n) => (LIRValue::IntLiteral(n), Seq::empty(), next),
        CMIRValueKind::BoolTrue => (LIRValue::BoolTrue, Seq::empty(), next),
        CMIRValueKind::BoolFalse => (LIRValue::BoolFalse, Seq::empty(), next),
        CMIRValueKind::StructLiteral { .. } => (LIRValue::Place(temp_place(next)), stores_into(e, v, temp_place(next)), next + 1),
        CMIRValueKind::Reference(p) => (LIRValue::Reference(place_spec(e, &p)), Seq::empty(), next),
    }
}

/// The arguments of a call, each stored in a fresh temporary chunk, can be lowered.
pub open spec fn args_ok(e: LowerEnv, args: Seq<CMIRValue>, next: nat) -> bool {
    &&& next + args.len() < usize::MAX
    &&& forall|i: int| 0 <= i < args.len() ==> value_ok(e, #[trigger] args[i], temp_place((next + i) as nat))
}

/// The stores of the first `n` call arguments into their temporary chunks.
pub open spec fn args_stores(e: LowerEnv, args: Seq<CMIRValue>, next: nat, n: int) -> Seq<LIRStmtV>
    decreases n,
{
    if n <= 0 {
        Seq::empty()
    } else {
        args_stores(e, args, next, n - 1) + stores_into(e, args[n - 1], temp_place((next + n - 1) as nat))
    }
}

pub open spec fn stmt_ok(e: LowerEnv, s: CMIRStatement, next: nat) -> bool {
    match s {
        CMIRStatement::Assign { target, value } => place_ok(e, &target) && value_ok(e, value, place_spec(e, &target)),
        CMIRStatement::BinOp { target, left, right, .. } => {
            &&& operand_ok(e, left, next)
            &&& operand_ok(e, right, operand_spec(e, left, next).2)
            &&& place_ok(e, &target)
        },
        CMIRStatement::Call { target, args, .. } => args_ok(e, args@, next) && place_ok(e, &target),
        CMIRStatement::Print(v) => operand_ok(e, v, next),
    }
}

/// The statements a CMIR statement becomes, and the next fresh chunk after them.
pub open spec fn stmt_spec(e: LowerEnv, s: CMIRStatement, next: nat) -> (Seq<LIRStmtV>, nat) {
    match s {
        CMIRStatement::Assign { target, value } => (stores_into(e, value, place_spec(e, &target)), next),
        CMIRStatement::BinOp { target, op, left, right } => {
            let l = operand_spec(e, left, next);
            let r = operand_spec(e, right, l.2);
            (
                l.1 + r.1 + seq![LIRStmtV::BinOp { dest: place_spec(e, &target), op, left: l.0, right: r.0 }],
                r.2,
            )
        },
        CMIRStatement::Call { target, func, args } => (
            args_stores(e, args@, next, args@.len() as int) + seq![LIRStmtV::Call {
                dest: place_spec(e, &target),
                func,
                args: Seq::new(args@.len(), |i: int| temp_place((next + i) as nat)),
            }],
            next + args@.len(),
        ),
        CMIRStatement::Print(v) => {
            let o = operand_spec(e, v, next);
            (o.1 + seq![LIRStmtV::Print(o.0)], o.2)
        },
    }
}

impl LIRBuilder {
    /// Allocates a fresh chunk laid out for `typ`.
    fn add_temp_chunk(&mut self, typ: &ConcreteType) -> (r: CellId)
        requires
            old(self).wf(),
            old(self).knows(typ@),
            old(self).next_chunk() < usize::MAX,
        ensures
            final(self).wf(),
            r.0 == old(self).next_chunk(),
            final(self).next_chunk() == old(self).next_chunk() + 1,
            final(self).env() == old(self).env(),
            final(self).types() == old(self).types(),
            final(self).cell_map() == old(self).cell_map(),
            final(self).chunks().len() == old(self).chunks().len() + 1,
            final(self).chunks().drop_last() == old(self).chunks(),
            final(self).chunks().last().0 == r,
            final(self).chunks().last().1@ == layout_of(old(self).types(), typ@),
    {
        proof {
            reveal(LIRBuilder::wf);
        }
        let ghost old_self = *self;
        let id: CellId = self.chunk_id_factory.next_id();
        let chunk_layout = self.layout_table.get_layout(typ);
        self.chunk_table.push((id, chunk_layout));
        proof {
            assert(self.chunk_table@.drop_last() =~= old_self.chunk_table@);
            assert forall|k: CellId| #[trigger] find_first(old_self.chunk_table@, k) is Some implies
                find_first(self.chunk_table@, k) == find_first(old_self.chunk_table@, k) by {
                lemma_find_first_push(old_self.chunk_table@, (id, chunk_layout), k);
            }
            assert forall|c: CellId| self.has_cell(c) == old_self.has_cell(c) && (self.has_cell(c) ==> self.cell_type(c) == old_self.cell_type(c)) by {
                if old_self.has_cell(c) {
                    let i = choose|i: int| 0 <= i < old_self.cell_chunk_map@.len() && old_self.cell_chunk_map@[i].0 == c;
                    assert(find_first(old_self.chunk_table@, find_first(old_self.cell_chunk_map@, c)->Some_0) is Some) by {
                        lemma_find_first_index(old_self.cell_chunk_map@, c);
                    }
                }
            }
            assert(self.env().cells =~= old_self.env().cells);
        }
        id
    }
}

impl LIRBuilder {
    /// The operand for `value`; a struct literal is first stored in a fresh temporary chunk.
    fn lower_value(&mut self, value: &CMIRValue) -> (r: (LIRValue, Vec<LIRStatement>))
        requires
            old(self).wf(),
            operand_ok(old(self).env(), *value, old(self).next_chunk()),
        ensures
            final(self).wf(),
            final(self).env() == old(self).env(),
            final(self).types() == old(self).types(),
            final(self).cell_map() == old(self).cell_map(),
            final(self).next_chunk() == operand_spec(old(self).env(), *value, old(self).next_chunk()).2,
            r.0 == operand_spec(old(self).env(), *value, old(self).next_chunk()).0,
            stmts_view(r.1@) == operand_spec(old(self).env(), *value, old(self).next_chunk()).1,
            adds_chunks(old(self).chunks(), final(self).chunks(), old(self).types(), old(self).next_chunk(), operand_temps(*value)),
    {
        proof {
            lemma_adds_none(self.chunks(), self.types(), self.next_chunk());
        }
        match &value.value {
            CMIRValueKind::Place(val_place) => {
                let p = self.lower_place(val_place);
                let r = (LIRValue::Place(p), Vec::new());
                assert(stmts_view(r.1@) =~= Seq::empty());
                assert(self.chunks().is_prefix_of(self.chunks()));
                r
            },
            CMIRValueKind::IntLiteral(num) => {
                let r = (LIRValue::IntLiteral(*num), Vec::new());
                assert(stmts_view(r.1@) =~= Seq::empty());
                assert(self.chunks().is_prefix_of(self.chunks()));
                r
            },
            CMIRValueKind::BoolTrue => {
                let r = (LIRValue::BoolTrue, Vec::new());
                assert(stmts_view(r.1@) =~= Seq::empty());
                assert(self.chunks().is_prefix_of(self.chunks()));
                r
            },
            CMIRValueKind::BoolFalse => {
                let r = (LIRValue::BoolFalse, Vec::new());
                assert(stmts_view(r.1@) =~= Seq::empty());
                assert(self.chunks().is_prefix_of(self.chunks()));
                r
            },
            CMIRValueKind::StructLiteral { .. } => {
                let ghost old_chunks = self.chunks();
                let temp_chunk_id = self.add_temp_chunk(&value.typ);
                let temp_place = LIRPlace::Local { base: temp_chunk_id, offset: 0 };
                let stmts = self.lower_value_into_place(value, temp_place);
                assert(old_chunks.is_prefix_of(self.chunks())) by {
                    assert(self.chunks().drop_last() == old_chunks);
                    assert forall|i: int| 0 <= i < old_chunks.len() implies old_chunks[i] == self.chunks()[i] by {
                        assert(self.chunks().drop_last()[i] == self.chunks()[i]);
                    }
                }
                assert(operand_temps(*value)[0] == value.typ@);
                (LIRValue::Place(temp_place), stmts)
            },
            CMIRValueKind::Reference(refd) => {
                let p = self.lower_place(refd);
                let r = (LIRValue::Reference(p), Vec::new());
                assert(stmts_view(r.1@) =~= Seq::empty());
                assert(self.chunks().is_prefix_of(self.chunks()));
                r
            },
        }
    }

    /// The statements that carry out one CMIR statement.
    fn lower_stmt(&mut self, stmt: &CMIRStatement) -> (r: Vec<LIRStatement>)
        requires
            old(self).wf(),
            stmt_ok(old(self).env(), *stmt, old(self).next_chunk()),
        ensures
            final(self).wf(),
            final(self).env() == old(self).env(),
            final(self).types() == old(self).types(),
            final(self).cell_map() == old(self).cell_map(),
            final(self).next_chunk() == stmt_spec(old(self).env(), *stmt, old(self).next_chunk()).1,
            stmts_view(r@) == stmt_spec(old(self).env(), *stmt, old(self).next_chunk()).0,
            adds_chunks(old(self).chunks(), final(self).chunks(), old(self).types(), old(self).next_chunk(), stmt_temps(*stmt)),
    {
        let ghost e = self.env();
        let ghost n0 = self.next_chunk();
        let ghost c0 = self.chunks();
        match stmt {
            CMIRStatement::Assign { target, value } => {
                let lir_target = self.lower_place(target);
                let r = self.lower_value_into_place(value, lir_target);
                proof {
                    lemma_adds_none(self.chunks(), self.types(), n0);
                }
                r
            },
            CMIRStatement::BinOp { target, op, left, right } => {
                let (left_opnd, left_stmts) = self.lower_value(left);
                let ghost c1 = self.chunks();
                let ghost n1 = self.next_chunk();
                let (right_opnd, right_stmts) = self.lower_value(right);
                proof {
                    lemma_operand_next(e, *left, n0);
                    lemma_adds_trans(c0, c1, self.chunks(), e.types(), n0, operand_temps(*left), operand_temps(*right));
                }
                let dest = self.lower_place(target);
                let bin_stmt = LIRStatement::BinOp { dest, op: *op, left: left_opnd, right: right_opnd };
                let mut out = left_stmts;
                let mut rs = right_stmts;
                let ghost a = out@;
                let ghost b = rs@;
                out.append(&mut rs);
                out.push(bin_stmt);
                assert(stmts_view(out@) =~= stmts_view(a) + stmts_view(b) + seq![bin_stmt@]);
                out
            },
            CMIRStatement::Call { target, func, args } => {
                let mut arg_places: Vec<LIRPlace> = Vec::new();
                let mut arg_stmts_coll: Vec<LIRStatement> = Vec::new();
                let mut i: usize = 0;
                while i < args.len()
                    invariant
                        self.wf(),
                        self.env() == e,
                        self.types() == e.types(),
                        self.cell_map() == old(self).cell_map(),
                        i <= args.len(),
                        args_ok(e, args@, n0),
                        self.next_chunk() == n0 + i,
                        arg_places@ == Seq::new(i as nat, |k: int| temp_place((n0 + k) as nat)),
                        stmts_view(arg_stmts_coll@) == args_stores(e, args@, n0, i as int),
                        adds_chunks(c0, self.chunks(), e.types(), n0, args@.subrange(0, i as int).map_values(|a: CMIRValue| a.typ@)),
                    decreases args.len() - i,
                {
                    let ghost before = self.chunks();
                    assert(value_ok(e, args@[i as int], temp_place((n0 + i) as nat)));
                    let temp = self.add_temp_chunk(&args[i].typ);
                    let arg_place = LIRPlace::Local { base: temp, offset: 0 };
                    arg_places.push(arg_place);
                    let mut lowered = self.lower_value_into_place(&args[i], arg_place);
                    let ghost a = arg_stmts_coll@;
                    let ghost b = lowered@;
                    arg_stmts_coll.append(&mut lowered);
                    proof {
                        assert(stmts_view(arg_stmts_coll@) =~= stmts_view(a) + stmts_view(b));
                        assert(arg_places@ =~= Seq::new((i + 1) as nat, |k: int| temp_place((n0 + k) as nat)));
                        assert forall|j: int| 0 <= j < c0.len() implies c0[j] == self.chunks()[j] by {
                            assert(before[j] == c0[j]);
                            assert(self.chunks().drop_last()[j] == self.chunks()[j]);
                        }
                        let ts0 = args@.subrange(0, i as int).map_values(|a: CMIRValue| a.typ@);
                        let ts1 = args@.subrange(0, i + 1).map_values(|a: CMIRValue| a.typ@);
                        assert(ts1 =~= ts0.push(args@[i as int].typ@));
                        assert forall|k: int| #![trigger ts1[k]] 0 <= k < ts1.len() implies self.chunks()[c0.len() + k].0 == CellId((n0 + k) as usize)
                            && self.chunks()[c0.len() + k].1@ == layout_of(e.types(), ts1[k]) by {
                            if k < ts0.len() {
                                assert(ts1[k] == ts0[k]);
                                assert(self.chunks()[c0.len() + k] == before[c0.len() + k]);
                            }
                        }
                    }
                    i = i + 1;
                }
                assert(args@.subrange(0, args@.len() as int) =~= args@);
                let dest = self.lower_place(target);
                let lir_call = LIRStatement::Call { dest, func: *func, args: arg_places };
                let ghost a = arg_stmts_coll@;
                arg_stmts_coll.push(lir_call);
                assert(stmts_view(arg_stmts_coll@) =~= stmts_view(a) + seq![lir_call@]);
                arg_stmts_coll
            },
            CMIRStatement::Print(value) => {
                let (opnd, stmts) = self.lower_value(value);
                assert(stmt_temps(*stmt) == operand_temps(*value));
                let mut out = stmts;
                let ghost a = out@;
                out.push(LIRStatement::Print(opnd));
                assert(stmts_view(out@) =~= stmts_view(a) + seq![LIRStmtV::Print(opnd)]);
                out
            },
        }
    }
}

// ---------------------------------------------------------------------------------------------
// Terminators, blocks and functions.

pub open spec fn term_ok(e: LowerEnv, t: CMIRTerminator, next: nat) -> bool {
    match t {
        CMIRTerminator::Goto(_) => true,
        CMIRTerminator::Branch { condition, .. } => operand_ok(e, condition, next),
        CMIRTerminator::Return(v) => match v {
            Some(v) => operand_ok(e, v, next),
            None => true,
        },
    }
}

/// The terminator a CMIR terminator becomes, the statements computing its operand, and the
/// next fresh chunk after them.
pub open spec fn term_spec(e: LowerEnv, t: CMIRTerminator, next: nat) -> (LIRTerminator, Seq<LIRStmtV>, nat) {
    match t {
        CMIRTerminator::Goto(b) => (LIRTerminator::Goto { dest: b }, Seq::empty(), next),
        CMIRTerminator::Branch { condition, then_, else_ } => {
            let o = operand_spec(e, condition, next);
            (LIRTerminator::Branch { condition: o.0, then_block: then_, else_block: else_ }, o.1, o.2)
        },
        CMIRTerminator::Return(v) => match v {
            Some(v) => {
                let o = operand_spec(e, v, next);
                (LIRTerminator::Return(Some(o.0)), o.1, o.2)
            },
            None => (LIRTerminator::Return(None), Seq::empty(), next),
        },
    }
}

/// The first `n` statements can be lowered, one after the other, from fresh chunk `next` on.
pub open spec fn stmts_ok(e: LowerEnv, ss: Seq<CMIRStatement>, next: nat, n: int) -> bool
    decreases n,
{
    if n <= 0 {
        true
    } else {
        stmts_ok(e, ss, next, n - 1) && stmt_ok(e, ss[n - 1], stmts_spec(e, ss, next, n - 1).1)
    }
}

/// The statements the first `n` statements become, and the next fresh chunk after them.
pub open spec fn stmts_spec(e: LowerEnv, ss: Seq<CMIRStatement>, next: nat, n: int) -> (Seq<LIRStmtV>, nat)
    decreases n,
{
    if n <= 0 {
        (Seq::empty(), next)
    } else {
        let a = stmts_spec(e, ss, next, n - 1);
        let b = stmt_spec(e, ss[n - 1], a.1);
        (a.0 + b.0, b.1)
    }
}

pub open spec fn block_ok(e: LowerEnv, b: CMIRBlock, next: nat) -> bool {
    &&& stmts_ok(e, b.statements@, next, b.statements@.len() as int)
    &&& term_ok(e, b.terminator, stmts_spec(e, b.statements@, next, b.statements@.len() as int).1)
}

// ---------------------------------------------------------------------------------------------
// Temporary chunks.

/// The types of the temporaries an operand takes: a struct literal is stored in one.
pub open spec fn operand_temps(v: CMIRValue) -> Seq<CType> {
    match v.value {
        CMIRValueKind::StructLiteral { .. } => seq![v.typ@],
        _ => Seq::empty(),
    }
}

/// The types of the temporaries a statement takes: those of its operands, or one per argument
/// of a call.
pub open spec fn stmt_temps(s: CMIRStatement) -> Seq<CType> {
    match s {
        CMIRStatement::Assign { .. } => Seq::empty(),
        CMIRStatement::BinOp { left, right, .. } => operand_temps(left) + operand_temps(right),
        CMIRStatement::Call { args, .. } => args@.map_values(|a: CMIRValue| a.typ@),
        CMIRStatement::Print(v) => operand_temps(v),
    }
}

pub open spec fn stmts_temps(ss: Seq<CMIRStatement>, n: int) -> Seq<CType>
    decreases n,
{
    if n <= 0 {
        Seq::empty()
    } else {
        stmts_temps(ss, n - 1) + stmt_temps(ss[n - 1])
    }
}

pub open spec fn term_temps(t: CMIRTerminator) -> Seq<CType> {
    match t {
        CMIRTerminator::Branch { condition, .. } => operand_temps(condition),
        CMIRTerminator::Return(v) => match v {
            Some(v) => operand_temps(v),
            None => Seq::empty(),
        },
        _ => Seq::empty(),
    }
}

pub open spec fn block_temps(b: CMIRBlock) -> Seq<CType> {
    stmts_temps(b.statements@, b.statements@.len() as int) + term_temps(b.terminator)
}

pub open spec fn blocks_temps(bs: Seq<(crate::shared::definitions::BlockId, CMIRBlock)>, n: int) -> Seq<CType>
    decreases n,
{
    if n <= 0 {
        Seq::empty()
    } else {
        blocks_temps(bs, n - 1) + block_temps(bs[n - 1].1)
    }
}

/// `cs` is `old` followed by one fresh chunk per type of `ts`, numbered from `next` and laid out
/// for its type.
pub open spec fn adds_chunks(old: Seq<(CellId, ChunkLayout)>, cs: Seq<(CellId, ChunkLayout)>, t: TableV, next: nat, ts: Seq<CType>) -> bool {
    &&& old.is_prefix_of(cs)
    &&& cs.len() == old.len() + ts.len()
    &&& forall|j: int| #![trigger ts[j]] 0 <= j < ts.len() ==> cs[old.len() + j].0 == CellId((next + j) as usize)
        && cs[old.len() + j].1@ == layout_of(t, ts[j])
}

pub proof fn lemma_adds_none(cs: Seq<(CellId, ChunkLayout)>, t: TableV, next: nat)
    ensures
        adds_chunks(cs, cs, t, next, Seq::empty()),
{
    assert(cs.is_prefix_of(cs));
}

pub proof fn lemma_adds_trans(
    a: Seq<(CellId, ChunkLayout)>,
    b: Seq<(CellId, ChunkLayout)>,
    c: Seq<(CellId, ChunkLayout)>,
    t: TableV,
    next: nat,
    ts1: Seq<CType>,
    ts2: Seq<CType>,
)
    requires
        adds_chunks(a, b, t, next, ts1),
        adds_chunks(b, c, t, next + ts1.len(), ts2),
    ensures
        adds_chunks(a, c, t, next, ts1 + ts2),
{
    lemma_prefix_trans(a, b, c);
    let ts = ts1 + ts2;
    assert forall|j: int| #![trigger ts[j]] 0 <= j < ts.len() implies c[a.len() + j].0 == CellId((next + j) as usize)
        && c[a.len() + j].1@ == layout_of(t, ts[j]) by {
        if j < ts1.len() {
            assert(ts[j] == ts1[j]);
            assert(c[a.len() + j] == b[a.len() + j]);
        } else {
            let k = j - ts1.len();
            assert(ts[j] == ts2[k]);
            assert(b.len() + k == a.len() + j);
            assert(next + ts1.len() + k == next + j);
        }
    }
}

pub proof fn lemma_operand_next(e: LowerEnv, v: CMIRValue, next: nat)
    ensures
        operand_spec(e, v, next).2 == next + operand_temps(v).len(),
{
}

pub proof fn lemma_stmt_next(e: LowerEnv, s: CMIRStatement, next: nat)
    ensures
        stmt_spec(e, s, next).1 == next + stmt_temps(s).len(),
{
    match s {
        CMIRStatement::BinOp { left, right, .. } => {
            lemma_operand_next(e, left, next);
            lemma_operand_next(e, right, operand_spec(e, left, next).2);
        },
        CMIRStatement::Print(v) => lemma_operand_next(e, v, next),
        _ => {},
    }
}

pub proof fn lemma_stmts_next(e: LowerEnv, ss: Seq<CMIRStatement>, next: nat, n: int)
    ensures
        stmts_spec(e, ss, next, n).1 == next + stmts_temps(ss, n).len(),
    decreases n,
{
    if n > 0 {
        lemma_stmts_next(e, ss, next, n - 1);
        lemma_stmt_next(e, ss[n - 1], stmts_spec(e, ss, next, n - 1).1);
    }
}

pub proof fn lemma_term_next(e: LowerEnv, t: CMIRTerminator, next: nat)
    ensures
        term_spec(e, t, next).2 == next + term_temps(t).len(),
{
    match t {
        CMIRTerminator::Branch { condition, .. } => lemma_operand_next(e, condition, next),
        CMIRTerminator::Return(v) => match v {
            Some(v) => lemma_operand_next(e, v, next),
            None => {},
        },
        _ => {},
    }
}

pub proof fn lemma_block_next(e: LowerEnv, b: CMIRBlock, next: nat)
    ensures
        block_spec(e, b, next).2 == next + block_temps(b).len(),
{
    lemma_stmts_next(e, b.statements@, next, b.statements@.len() as int);
    lemma_term_next(e, b.terminator, stmts_spec(e, b.statements@, next, b.statements@.len() as int).1);
}

pub proof fn lemma_blocks_next(e: LowerEnv, bs: Seq<(crate::shared::definitions::BlockId, CMIRBlock)>, next: nat, n: int)
    ensures
        blocks_next(e, bs, next, n) == next + blocks_temps(bs, n).len(),
    decreases n,
{
    if n > 0 {
        lemma_blocks_next(e, bs, next, n - 1);
        lemma_block_next(e, bs[n - 1].1, blocks_next(e, bs, next, n - 1));
    }
}

/// A lowered block: its statements, its terminator, and the next fresh chunk after it.
pub open spec fn block_spec(e: LowerEnv, b: CMIRBlock, next: nat) -> (Seq<LIRStmtV>, LIRTerminator, nat) {
    let s = stmts_spec(e, b.statements@, next, b.statements@.len() as int);
    let t = term_spec(e, b.terminator, s.1);
    (s.0 + t.1, t.0, t.2)
}

pub open spec fn blocks_ok(e: LowerEnv, bs: Seq<(crate::shared::definitions::BlockId, CMIRBlock)>, next: nat, n: int) -> bool
    decreases n,
{
    if n <= 0 {
        true
    } else {
        blocks_ok(e, bs, next, n - 1) && block_ok(e, bs[n - 1].1, blocks_next(e, bs, next, n - 1))
    }
}

/// The next fresh chunk after lowering the first `n` blocks.
pub open spec fn blocks_next(e: LowerEnv, bs: Seq<(crate::shared::definitions::BlockId, CMIRBlock)>, next: nat, n: int) -> nat
    decreases n,
{
    if n <= 0 {
        next
    } else {
        block_spec(e, bs[n - 1].1, blocks_next(e, bs, next, n - 1)).2
    }
}

/// The context of a function whose cells have the given types.
pub open spec fn cells_env(types: TableV, layouts: Set<CType>, cells: Seq<(CellId, ConcreteType)>) -> LowerEnv {
    LowerEnv {
        types,
        layouts,
        cells: Map::new(|c: CellId| find_first(cells, c) is Some, |c: CellId| find_first(cells, c)->Some_0@),
    }
}

pub open spec fn block_view(b: LIRBlock) -> (Seq<LIRStmtV>, LIRTerminator) {
    (stmts_view(b.statements@), b.terminator)
}

impl LIRBuilder {
    fn lower_terminator(&mut self, term: &CMIRTerminator) -> (r: (LIRTerminator, Vec<LIRStatement>))
        requires
            old(self).wf(),
            term_ok(old(self).env(), *term, old(self).next_chunk()),
        ensures
            final(self).wf(),
            final(self).env() == old(self).env(),
            final(self).types() == old(self).types(),
            final(self).cell_map() == old(self).cell_map(),
            final(self).next_chunk() == term_spec(old(self).env(), *term, old(self).next_chunk()).2,
            r.0 == term_spec(old(self).env(), *term, old(self).next_chunk()).0,
            stmts_view(r.1@) == term_spec(old(self).env(), *term, old(self).next_chunk()).1,
            adds_chunks(old(self).chunks(), final(self).chunks(), old(self).types(), old(self).next_chunk(), term_temps(*term)),
    {
        proof {
            lemma_adds_none(self.chunks(), self.types(), self.next_chunk());
        }
        match term {
            CMIRTerminator::Goto(block_id) => {
                let r = (LIRTerminator::Goto { dest: *block_id }, Vec::new());
                assert(stmts_view(r.1@) =~= Seq::empty());
                assert(self.chunks().is_prefix_of(self.chunks()));
                r
            },
            CMIRTerminator::Branch { condition, then_, else_ } => {
                let (cond_op, cond_stmts) = self.lower_value(condition);
                (LIRTerminator::Branch { condition: cond_op, then_block: *then_, else_block: *else_ }, cond_stmts)
            },
            CMIRTerminator::Return(ret_val) => match ret_val {
                None => {
                    let r = (LIRTerminator::Return(None), Vec::new());
                    assert(stmts_view(r.1@) =~= Seq::empty());
                    assert(self.chunks().is_prefix_of(self.chunks()));
                    r
                },
                Some(value) => {
                    let (retval_op, retval_stmts) = self.lower_value(value);
                    (LIRTerminator::Return(Some(retval_op)), retval_stmts)
                },
            },
        }
    }

    #[verifier::spinoff_prover]
    #[verifier::rlimit(30)]
    fn lower_block(&mut self, block: &CMIRBlock) -> (r: LIRBlock)
        requires
            old(self).wf(),
            block_ok(old(self).env(), *block, old(self).next_chunk()),
        ensures
            final(self).wf(),
            final(self).env() == old(self).env(),
            final(self).types() == old(self).types(),
            final(self).cell_map() == old(self).cell_map(),
            final(self).next_chunk() == block_spec(old(self).env(), *block, old(self).next_chunk()).2,
            block_view(r) == (block_spec(old(self).env(), *block, old(self).next_chunk()).0, block_spec(old(self).env(), *block, old(self).next_chunk()).1),
            adds_chunks(old(self).chunks(), final(self).chunks(), old(self).types(), old(self).next_chunk(), block_temps(*block)),
    {
        let ghost e = self.env();
        let ghost n0 = self.next_chunk();
        let ghost c0 = self.chunks();
        let mut statements: Vec<LIRStatement> = Vec::new();
        let mut i: usize = 0;
        proof {
            lemma_adds_none(c0, e.types(), n0);
        }
        while i < block.statements.len()
            invariant
                self.wf(),
                self.env() == e,
                self.types() == e.types(),
                self.cell_map() == old(self).cell_map(),
                i <= block.statements.len(),
                stmts_ok(e, block.statements@, n0, block.statements@.len() as int),
                self.next_chunk() == stmts_spec(e, block.statements@, n0, i as int).1,
                stmts_view(statements@) == stmts_spec(e, block.statements@, n0, i as int).0,
                adds_chunks(c0, self.chunks(), e.types(), n0, stmts_temps(block.statements@, i as int)),
            decreases block.statements.len() - i,
        {
            proof {
                lemma_stmts_ok_prefix(e, block.statements@, n0, i + 1, block.statements@.len() as int);
            }
            let ghost before = self.chunks();
            let mut lowered = self.lower_stmt(&block.statements[i]);
            let ghost a = statements@;
            let ghost b = lowered@;
            statements.append(&mut lowered);
            proof {
                assert(stmts_view(statements@) =~= stmts_view(a) + stmts_view(b));
                lemma_stmts_next(e, block.statements@, n0, i as int);
                lemma_adds_trans(c0, before, self.chunks(), e.types(), n0, stmts_temps(block.statements@, i as int),
                    stmt_temps(block.statements@[i as int]));
            }
            i = i + 1;
        }
        let ghost before = self.chunks();
        let (terminator, mut term_stmts) = self.lower_terminator(&block.terminator);
        let ghost a = statements@;
        let ghost b = term_stmts@;
        statements.append(&mut term_stmts);
        proof {
            assert(stmts_view(statements@) =~= stmts_view(a) + stmts_view(b));
            lemma_stmts_next(e, block.statements@, n0, block.statements@.len() as int);
            lemma_adds_trans(c0, before, self.chunks(), e.types(), n0,
                stmts_temps(block.statements@, block.statements@.len() as int), term_temps(block.terminator));
        }
        LIRBlock { statements, terminator }
    }
}

pub proof fn lemma_stmts_ok_prefix(e: LowerEnv, ss: Seq<CMIRStatement>, next: nat, m: int, n: int)
    requires
        0 <= m <= n,
        stmts_ok(e, ss, next, n),
    ensures
        stmts_ok(e, ss, next, m),
    decreases n - m,
{
    if m < n {
        lemma_stmts_ok_prefix(e, ss, next, m, n - 1);
    }
}

pub proof fn lemma_blocks_ok_prefix(e: LowerEnv, bs: Seq<(crate::shared::definitions::BlockId, CMIRBlock)>, next: nat, m: int, n: int)
    requires
        0 <= m <= n,
        blocks_ok(e, bs, next, n),
    ensures
        blocks_ok(e, bs, next, m),
    decreases n - m,
{
    if m < n {
        lemma_blocks_ok_prefix(e, bs, next, m, n - 1);
    }
}

/// The index of the first entry for key `k`, or -1.
pub open spec fn find_index<V>(s: Seq<(CellId, V)>, k: CellId) -> int
    decreases s.len(),
{
    if s.len() == 0 {
        -1
    } else if s[0].0 == k {
        0
    } else {
        let r = find_index(s.drop_first(), k);
        if r < 0 { -1 } else { r + 1 }
    }
}

pub proof fn lemma_find_index<V>(s: Seq<(CellId, V)>, k: CellId)
    ensures
        -1 <= find_index(s, k) < s.len(),
        find_index(s, k) >= 0 ==> s[find_index(s, k)].0 == k && find_first(s, k) == Some(s[find_index(s, k)].1),
        find_index(s, k) >= 0 ==> forall|j: int| 0 <= j < find_index(s, k) ==> s[j].0 != k,
        find_index(s, k) < 0 ==> find_first(s, k) is None,
    decreases s.len(),
{
    if s.len() > 0 {
        lemma_find_index(s.drop_first(), k);
        assert forall|j: int| 0 < j < s.len() implies s[j] == s.drop_first()[j - 1] by {}
    }
}

/// Two lists with the same keys, position by position, find a key at the same index.
pub proof fn lemma_find_index_same_keys<V, W>(s: Seq<(CellId, V)>, t: Seq<(CellId, W)>, k: CellId)
    requires
        s.len() == t.len(),
        forall|i: int| 0 <= i < s.len() ==> s[i].0 == t[i].0,
    ensures
        find_index(s, k) == find_index(t, k),
    decreases s.len(),
{
    if s.len() > 0 {
        assert forall|i: int| 0 <= i < s.drop_first().len() implies s.drop_first()[i].0 == t.drop_first()[i].0 by {
            assert(s[i + 1].0 == t[i + 1].0);
        }
        lemma_find_index_same_keys(s.drop_first(), t.drop_first(), k);
    }
}

/// Entry `i` of a list with the keys `n0, n0 + 1, ...` (as a prefix) is found at `i`.
pub proof fn lemma_find_index_fresh<V>(s: Seq<(CellId, V)>, n0: nat, m: int, i: int)
    requires
        0 <= i < m <= s.len(),
        forall|j: int| 0 <= j < m ==> s[j].0.0 == n0 + j,
    ensures
        find_index(s, s[i].0) == i,
{
    lemma_find_index(s, s[i].0);
    let f = find_index(s, s[i].0);
    if f < 0 {
        assert(find_first(s, s[i].0) is None);
        lemma_find_first_index(s, s[i].0);
        lemma_find_first_some(s, i);
    } else if f < i {
        assert(s[f].0 == s[i].0);
    }
}

pub proof fn lemma_find_first_some<V>(s: Seq<(CellId, V)>, i: int)
    requires
        0 <= i < s.len(),
    ensures
        find_first(s, s[i].0) is Some,
    decreases s.len(),
{
    if s[0].0 != s[i].0 {
        assert(s.drop_first()[i - 1] == s[i]);
        lemma_find_first_some(s.drop_first(), i - 1);
    }
}

/// The function's cells can get chunks, its blocks can be lowered, and its arguments are cells.
pub open spec fn function_ok(types: TableV, layouts: Set<CType>, f: CMIRFunction, next: nat) -> bool {
    let e = cells_env(types, layouts, f.cells@);
    &&& next + f.cells@.len() < usize::MAX
    &&& forall|i: int| 0 <= i < f.cells@.len() ==> e.knows((#[trigger] f.cells@[i]).1@)
    &&& blocks_ok(e, f.blocks@, next + f.cells@.len(), f.blocks@.len() as int)
    &&& forall|i: int| 0 <= i < f.args@.len() ==> find_first(f.cells@, #[trigger] f.args@[i]) is Some
}

/// The next fresh chunk after lowering `f`.
pub open spec fn function_next(types: TableV, layouts: Set<CType>, f: CMIRFunction, next: nat) -> nat {
    blocks_next(cells_env(types, layouts, f.cells@), f.blocks@, next + f.cells@.len(), f.blocks@.len() as int)
}

/// What lowering `f` yields, with fresh chunks from `next` on: the chunk of cell `i` is
/// `next + i`; block `i` keeps its identifier and becomes the block the spec describes; the
/// frame holds the cells' chunks, then the temporaries' chunks in the order the blocks take
/// them, each sized by its type; each argument is its cell's chunk.
pub open spec fn function_spec(types: TableV, layouts: Set<CType>, f: CMIRFunction, next: nat, r: LIRFunction) -> bool {
    let e = cells_env(types, layouts, f.cells@);
    let nc = f.cells@.len();
    let temps = blocks_temps(f.blocks@, f.blocks@.len() as int);
    &&& r.entry == f.entry
    &&& r.blocks@.len() == f.blocks@.len()
    &&& forall|i: int| 0 <= i < f.blocks@.len() ==> {
        let b = block_spec(e, f.blocks@[i].1, blocks_next(e, f.blocks@, next + nc, i));
        &&& (#[trigger] r.blocks@[i]).0 == f.blocks@[i].0
        &&& block_view(r.blocks@[i].1) == (b.0, b.1)
    }
    &&& r.chunks@.len() == nc + temps.len()
    &&& forall|i: int| 0 <= i < nc ==> #[trigger] r.chunks@[i] == (CellId((next + i) as usize), size_c(types, f.cells@[i].1@))
    &&& forall|j: int| #![trigger temps[j]] 0 <= j < temps.len() ==> r.chunks@[nc + j] == (CellId((next + nc + j) as usize), size_c(types, temps[j]))
    &&& r.args@.len() == f.args@.len()
    &&& forall|i: int| 0 <= i < f.args@.len() ==> (#[trigger] r.args@[i]).0 == next + find_index(f.cells@, f.args@[i])
}

impl LIRBuilder {
    #[verifier::spinoff_prover]
    #[verifier::rlimit(40)]
    fn lower_function(&mut self, func: &CMIRFunction) -> (r: LIRFunction)
        requires
            old(self).wf(),
            function_ok(old(self).env().types, old(self).env().layouts, *func, old(self).next_chunk()),
        ensures
            final(self).wf(),
            final(self).types() == old(self).types(),
            final(self).env().layouts == old(self).env().layouts,
            final(self).next_chunk() == function_next(old(self).env().types, old(self).env().layouts, *func, old(self).next_chunk()),
            function_spec(old(self).env().types, old(self).env().layouts, *func, old(self).next_chunk(), r),
    {
        let ghost t = self.env().types;
        let ghost ls = self.env().layouts;
        let ghost n0 = self.next_chunk();
        let ghost e = cells_env(t, ls, func.cells@);
        let ghost nc = func.cells@.len();
        proof {
            reveal(LIRBuilder::wf);
        }
        self.cell_chunk_map = Vec::new();
        self.chunk_table = Vec::new();
        let mut i: usize = 0;
        while i < func.cells.len()
            invariant
                self.layout_table.wf(),
                self.layout_table.closed(),
                self.types() == t,
                self.env().layouts == ls,
                forall|c: CType| self.env().knows(c) ==> self.layout_table.covers(c),
                i <= func.cells.len(),
                nc == func.cells@.len(),
                n0 + nc < usize::MAX,
                self.chunk_id_factory@ == n0 + i,
                forall|k: int| 0 <= k < nc ==> e.knows((#[trigger] func.cells@[k]).1@),
                e == cells_env(t, ls, func.cells@),
                self.cell_chunk_map@.len() == i,
                self.chunk_table@.len() == i,
                forall|k: int| 0 <= k < i ==> (#[trigger] self.cell_chunk_map@[k]).0 == func.cells@[k].0
                    && self.cell_chunk_map@[k].1.0 == n0 + k,
                forall|k: int| 0 <= k < i ==> (#[trigger] self.chunk_table@[k]).0.0 == n0 + k
                    && self.chunk_table@[k].1@ == layout_of(t, func.cells@[k].1@),
            decreases func.cells.len() - i,
        {
            let chunk_id: CellId = self.chunk_id_factory.next_id();
            self.cell_chunk_map.push((func.cells[i].0, chunk_id));
            assert(e.knows(func.cells@[i as int].1@));
            let layout = self.layout_table.get_layout(&func.cells[i].1);
            self.chunk_table.push((chunk_id, layout));
            i = i + 1;
        }
        proof {
            assert forall|k: int| 0 <= k < self.chunk_table@.len() implies {
                &&& (#[trigger] self.chunk_table@[k]).0.0 < self.chunk_id_factory@
                &&& self.chunk_table@[k].1@ == layout_of(self.types(), self.chunk_table@[k].1@.typ)
                &&& concrete_ok(self.types(), self.chunk_table@[k].1@.typ)
                &&& self.layout_table.covers(self.chunk_table@[k].1@.typ)
            } by {
                assert(e.knows(func.cells@[k].1@));
            }
            assert forall|k: int| 0 <= k < self.cell_chunk_map@.len() implies
                find_first(self.chunk_table@, (#[trigger] self.cell_chunk_map@[k]).1) is Some by {
                assert(self.cell_chunk_map@[k].1 == self.chunk_table@[k].0);
                lemma_find_first_some(self.chunk_table@, k);
            }
            assert(self.wf());
            assert forall|c: CellId| self.has_cell(c) == e.cells.dom().contains(c) && (self.has_cell(c) ==> self.cell_type(c) == e.cells[c]) by {
                lemma_find_index_same_keys(self.cell_chunk_map@, func.cells@, c);
                lemma_find_index(self.cell_chunk_map@, c);
                lemma_find_index(func.cells@, c);
                let j = find_index(func.cells@, c);
                if j >= 0 {
                    lemma_find_index_fresh(self.chunk_table@, n0, nc as int, j);
                    lemma_find_index(self.chunk_table@, self.chunk_table@[j].0);
                }
            }
            assert(self.env().cells =~= e.cells);
            assert(self.env() == e);
        }
        let ghost cells_chunks = self.chunk_table@;
        let ghost cmap = self.cell_chunk_map@;
        let mut blocks: Vec<(crate::shared::definitions::BlockId, LIRBlock)> = Vec::new();
        let mut b: usize = 0;
        assert(cells_chunks.is_prefix_of(self.chunks()));
        proof {
            lemma_adds_none(cells_chunks, t, n0 + nc);
        }
        while b < func.blocks.len()
            invariant
                self.wf(),
                self.env() == e,
                self.types() == t,
                self.cell_map() == cmap,
                b <= func.blocks.len(),
                blocks_ok(e, func.blocks@, n0 + nc, func.blocks@.len() as int),
                self.next_chunk() == blocks_next(e, func.blocks@, n0 + nc, b as int),
                blocks@.len() == b,
                forall|k: int| 0 <= k < b ==> {
                    let bs = block_spec(e, func.blocks@[k].1, blocks_next(e, func.blocks@, n0 + nc, k));
                    &&& (#[trigger] blocks@[k]).0 == func.blocks@[k].0
                    &&& block_view(blocks@[k].1) == (bs.0, bs.1)
                },
                cells_chunks.is_prefix_of(self.chunks()),
                adds_chunks(cells_chunks, self.chunks(), t, n0 + nc, blocks_temps(func.blocks@, b as int)),
            decreases func.blocks.len() - b,
        {
            proof {
                lemma_blocks_ok_prefix(e, func.blocks@, n0 + nc, b + 1, func.blocks@.len() as int);
            }
            let ghost before = self.chunks();
            let lowered = self.lower_block(&func.blocks[b].1);
            proof {
                lemma_prefix_trans(cells_chunks, before, self.chunks());
                lemma_blocks_next(e, func.blocks@, n0 + nc, b as int);
                lemma_adds_trans(cells_chunks, before, self.chunks(), t, n0 + nc, blocks_temps(func.blocks@, b as int),
                    block_temps(func.blocks@[b as int].1));
            }
            blocks.push((func.blocks[b].0, lowered));
            b = b + 1;
        }
        let chunks = StackFrame::from_layouts(&self.chunk_table);
        proof {
            reveal(LIRBuilder::wf);
            assert(self.cell_chunk_map@ == cmap);
            assert forall|k: int| 0 <= k < nc implies #[trigger] chunks@[k] == (CellId((n0 + k) as usize), size_c(t, func.cells@[k].1@)) by {
                assert(self.chunk_table@[k] == cells_chunks[k]);
            }
            let temps = blocks_temps(func.blocks@, func.blocks@.len() as int);
            assert forall|j: int| #![trigger temps[j]] 0 <= j < temps.len() implies chunks@[nc + j] == (CellId((n0 + nc + j) as usize), size_c(t, temps[j])) by {
                assert(self.chunk_table@[nc + j].1@ == layout_of(t, temps[j]));
            }
        }
        let mut args: Vec<CellId> = Vec::new();
        let mut a: usize = 0;
        while a < func.args.len()
            invariant
                self.wf(),
                self.env() == e,
                a <= func.args.len(),
                args@.len() == a,
                forall|k: int| 0 <= k < func.args@.len() ==> find_first(func.cells@, #[trigger] func.args@[k]) is Some,
                forall|k: int| 0 <= k < a ==> (#[trigger] args@[k]).0 == n0 + find_index(func.cells@, func.args@[k]),
                cells_chunks.is_prefix_of(self.chunks()),
                nc == func.cells@.len(),
                self.cell_chunk_map@.len() == nc,
                forall|k: int| 0 <= k < nc ==> (#[trigger] self.cell_chunk_map@[k]).0 == func.cells@[k].0
                    && self.cell_chunk_map@[k].1.0 == n0 + k,
            decreases func.args.len() - a,
        {
            let id = func.args[a];
            proof {
                lemma_find_index_same_keys(self.cell_chunk_map@, func.cells@, id);
                lemma_find_index(self.cell_chunk_map@, id);
                lemma_find_index(func.cells@, id);
            }
            let j = match find_cell(&self.cell_chunk_map, id) {
                Some(j) => j,
                None => {
                    assert(false);
                    0
                },
            };
            args.push(self.cell_chunk_map[j].1);
            a = a + 1;
        }
        LIRFunction { blocks, entry: func.entry, chunks, args }
    }
}

pub open spec fn functions_ok(types: TableV, layouts: Set<CType>, fs: Seq<(crate::shared::definitions::FuncId, CMIRFunction)>, n: int) -> bool
    decreases n,
{
    if n <= 0 {
        true
    } else {
        functions_ok(types, layouts, fs, n - 1) && function_ok(types, layouts, fs[n - 1].1, functions_next(types, layouts, fs, n - 1))
    }
}

/// The next fresh chunk after lowering the first `n` functions; the first chunk is 0.
pub open spec fn functions_next(types: TableV, layouts: Set<CType>, fs: Seq<(crate::shared::definitions::FuncId, CMIRFunction)>, n: int) -> nat
    decreases n,
{
    if n <= 0 {
        0
    } else {
        function_next(types, layouts, fs[n - 1].1, functions_next(types, layouts, fs, n - 1))
    }
}

pub proof fn lemma_functions_ok_prefix(types: TableV, layouts: Set<CType>, fs: Seq<(crate::shared::definitions::FuncId, CMIRFunction)>, m: int, n: int)
    requires
        0 <= m <= n,
        functions_ok(types, layouts, fs, n),
    ensures
        functions_ok(types, layouts, fs, m),
    decreases n - m,
{
    if m < n {
        lemma_functions_ok_prefix(types, layouts, fs, m, n - 1);
    }
}

/// The struct instances a monomorphized program lays out.
pub open spec fn program_layouts(p: CMIRProgram) -> Set<CType> {
    Set::new(|c: CType| crate::shared::tables::keys_view(p.newtype_monomorphs@).contains(c))
}

/// The layouts of the program's struct instances can be computed, and its functions lowered.
pub open spec fn program_ok(p: CMIRProgram) -> bool {
    let t = p.typetable@;
    let keys = crate::shared::tables::keys_view(p.newtype_monomorphs@);
    &&& table_wf(t)
    &&& forall|i: int| 0 <= i < keys.len() ==> concrete_ok(t, #[trigger] keys[i])
    &&& forall|i: int| 0 <= i < keys.len() ==> crate::shared::tables::rank_c(t, #[trigger] keys[i]) < usize::MAX
    &&& forall|i: int| 0 <= i < keys.len() ==> size_c(t, #[trigger] keys[i]) <= usize::MAX
    &&& crate::shared::tables::instances_closed(t, keys)
    &&& functions_ok(t, program_layouts(p), p.functions@, p.functions@.len() as int)
}

impl LIRBuilder {
    fn new(layout_table: LayoutTable) -> (r: Self)
        requires
            layout_table.wf(),
            layout_table.closed(),
        ensures
            r.wf(),
            r.next_chunk() == 0,
            r.types() == layout_table.types@,
            r.env().layouts == Set::new(|c: CType| layout_table.has_layout(c)),
    {
        LIRBuilder {
            layout_table,
            cell_chunk_map: Vec::new(),
            chunk_table: Vec::new(),
            chunk_id_factory: IdFactory::new(),
        }
    }
}

/// Lowers a monomorphized program: computes the layouts of its struct instances, then lowers
/// its functions in order, numbering the chunks of all functions from 0 on.
pub fn lower_cmir(program: CMIRProgram) -> (r: LIRProgram)
    requires
        program_ok(program),
    ensures
        r.entry == program.entry,
        r.functions@.len() == program.functions@.len(),
        forall|i: int| 0 <= i < program.functions@.len() ==> {
            &&& (#[trigger] r.functions@[i]).0 == program.functions@[i].0
            &&& function_spec(
                program.typetable@,
                program_layouts(program),
                program.functions@[i].1,
                functions_next(program.typetable@, program_layouts(program), program.functions@, i),
                r.functions@[i].1,
            )
        },
{
    let ghost t = program.typetable@;
    let ghost ls = program_layouts(program);
    let ghost fs = program.functions@;
    let CMIRProgram { functions, entry, newtype_monomorphs, typetable } = program;
    let layout_table = LayoutTable::make(typetable, newtype_monomorphs);
    let mut builder = LIRBuilder::new(layout_table);
    assert(builder.env().layouts =~= ls);
    let mut out: Vec<(crate::shared::definitions::FuncId, LIRFunction)> = Vec::new();
    let mut i: usize = 0;
    while i < functions.len()
        invariant
            builder.wf(),
            builder.types() == t,
            builder.env().layouts == ls,
            functions@ == fs,
            i <= functions.len(),
            functions_ok(t, ls, fs, fs.len() as int),
            builder.next_chunk() == functions_next(t, ls, fs, i as int),
            out@.len() == i,
            forall|k: int| 0 <= k < i ==> {
                &&& (#[trigger] out@[k]).0 == fs[k].0
                &&& function_spec(t, ls, fs[k].1, functions_next(t, ls, fs, k), out@[k].1)
            },
        decreases functions.len() - i,
    {
        proof {
            lemma_functions_ok_prefix(t, ls, fs, i + 1, fs.len() as int);
        }
        let lowered = builder.lower_function(&functions[i].1);
        out.push((functions[i].0, lowered));
        i = i + 1;
    }
    LIRProgram { functions: out, entry }
}

/// Lowering a function keeps where every block jumps: each block keeps its identifier, a `Goto`
/// goes to the same block, a `Branch` goes to the same block when its condition holds and to the
/// same block when it does not, and a `Return` stays a return, with a value exactly where it had
/// one.
pub proof fn law_lowering_keeps_jump_targets(
    types: TableV,
    layouts: Set<CType>,
    f: CMIRFunction,
    next: nat,
    r: LIRFunction,
    i: int,
)
    requires
        function_spec(types, layouts, f, next, r),
        0 <= i < f.blocks@.len(),
    ensures
        r.blocks@[i].0 == f.blocks@[i].0,
        match f.blocks@[i].1.terminator {
            CMIRTerminator::Goto(b) => r.blocks@[i].1.terminator == (LIRTerminator::Goto { dest: b }),
            CMIRTerminator::Branch { then_, else_, .. } => {
                &&& r.blocks@[i].1.terminator is Branch
                &&& r.blocks@[i].1.terminator->then_block == then_
                &&& r.blocks@[i].1.terminator->else_block == else_
            },
            CMIRTerminator::Return(v) => {
                &&& r.blocks@[i].1.terminator is Return
                &&& (r.blocks@[i].1.terminator->Return_0 is Some <==> v is Some)
            },
        },
{
    let e = cells_env(types, layouts, f.cells@);
    let b = block_spec(e, f.blocks@[i].1, blocks_next(e, f.blocks@, next + f.cells@.len(), i));
    assert(block_view(r.blocks@[i].1) == (b.0, b.1));
}

/// Lowering a binary operation keeps its operator and the order of its operands: the last
/// statement it becomes is that operation into the target's place, whose left operand comes from
/// the left value and whose right operand from the right value; a literal or a place stays the
/// same literal or that place on its side.
pub proof fn law_lowering_keeps_binop_operands(e: LowerEnv, s: CMIRStatement, next: nat)
    requires
        s is BinOp,
    ensures
        ({
            let out = stmt_spec(e, s, next).0;
            let left = s->BinOp_left.value;
            let right = s->BinOp_right.value;
            &&& out.len() > 0
            &&& out.last() is BinOp
            &&& out.last()->BinOp_op == s->BinOp_op
            &&& out.last()->BinOp_dest == place_spec(e, &s->BinOp_target)
            &&& left is IntLiteral ==> out.last()->BinOp_left == LIRValue::IntLiteral(left->IntLiteral_0)
            &&& right is IntLiteral ==> out.last()->BinOp_right == LIRValue::IntLiteral(right->IntLiteral_0)
            &&& left is Place ==> out.last()->BinOp_left == LIRValue::Place(place_spec(e, &left->Place_0))
            &&& right is Place ==> out.last()->BinOp_right == LIRValue::Place(place_spec(e, &right->Place_0))
        }),
{
}

} // verus!
