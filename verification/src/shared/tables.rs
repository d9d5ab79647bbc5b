use vstd::prelude::*;

use crate::shared::definitions::{NewtypeId, TypevarId};
use crate::shared::typing::{
    bind_type, cbind_view, clone_concrete, clone_generic, concrete_views, gbind_view, generic_views,
    lemma_concrete_views, lemma_generic_views, lookup, mono_type, mono_types, type_bound, CType,
    ConcreteType, GType, GenericType,
};

verus! {

pub type GenericTypeDef = NewtypeDef<GenericType>;

pub type GenericShape = NewtypeShape<GenericType>;

pub type ConcreteShape = NewtypeShape<ConcreteType>;

/// A user-defined type: its type parameters and its shape.
#[derive(Debug)]
pub struct NewtypeDef<T> {
    pub type_params: Vec<TypevarId>,
    pub defn: NewtypeShape<T>,
}

/// The shape of a user-defined type. Struct fields are kept in order of their names.
#[derive(Debug)]
pub enum NewtypeShape<T> {
    Struct { fields: Vec<(String, T)> },
    Enum { variants: Vec<T> },
}

/// Mathematical model of a shape.
pub enum ShapeV<V> {
    Struct(Seq<(Seq<char>, V)>),
    Enum(Seq<V>),
}

/// Mathematical model of a type definition.
pub struct DefV<V> {
    pub params: Seq<Seq<char>>,
    pub shape: ShapeV<V>,
}

pub open spec fn fields_view<T: View>(fs: Seq<(String, T)>) -> Seq<(Seq<char>, T::V)> {
    fs.map_values(|p: (String, T)| (p.0@, p.1@))
}

pub open spec fn params_view(ps: Seq<TypevarId>) -> Seq<Seq<char>> {
    ps.map_values(|p: TypevarId| p@)
}

impl<T: View> View for NewtypeShape<T> {
    type V = ShapeV<T::V>;

    open spec fn view(&self) -> ShapeV<T::V> {
        match self {
            NewtypeShape::Struct { fields } => ShapeV::Struct(fields_view(fields@)),
            NewtypeShape::Enum { variants } => ShapeV::Enum(variants@.map_values(|v: T| v@)),
        }
    }
}

impl<T: View> View for NewtypeDef<T> {
    type V = DefV<T::V>;

    open spec fn view(&self) -> DefV<T::V> {
        DefV { params: params_view(self.type_params@), shape: self.defn@ }
    }
}

/// Mathematical model of a table of type definitions.
pub type TableV = Seq<(Seq<char>, DefV<GType>)>;

pub open spec fn table_view(defs: Seq<(NewtypeId, GenericTypeDef)>) -> TableV {
    defs.map_values(|p: (NewtypeId, GenericTypeDef)| (p.0.0@, p.1@))
}

/// The index of the definition of `name`; a later definition shadows an earlier one. -1 if none.
pub open spec fn def_index(t: TableV, name: Seq<char>) -> int
    decreases t.len(),
{
    if t.len() == 0 {
        -1
    } else if t.last().0 == name {
        t.len() - 1
    } else {
        def_index(t.drop_last(), name)
    }
}

/// Pairs the type parameters with the given values, as far as both reach.
pub open spec fn zip_env<V>(params: Seq<Seq<char>>, vals: Seq<V>) -> Seq<(Seq<char>, V)> {
    Seq::new(
        if params.len() <= vals.len() { params.len() } else { vals.len() },
        |i: int| (params[i], vals[i]),
    )
}

/// Every type variable of `g` is one of `params`.
pub open spec fn vars_in(g: GType, params: Seq<Seq<char>>) -> bool
    decreases g,
{
    match g {
        GType::Prim(_) => true,
        GType::NewType(_, gs) => vars_in_all(gs, params),
        GType::Reference(x) => vars_in(*x, params),
        GType::TypeVar(v) => params.contains(v),
    }
}

pub open spec fn vars_in_all(gs: Seq<GType>, params: Seq<Seq<char>>) -> bool
    decreases gs,
{
    if gs.len() == 0 {
        true
    } else {
        vars_in_all(gs.subrange(0, gs.len() - 1), params) && vars_in(gs[gs.len() - 1], params)
    }
}

/// Every user type named in `g` is defined at a level below `bound` and gets enough type arguments.
pub open spec fn refs_ok(g: GType, t: TableV, lvl: Seq<nat>, bound: nat) -> bool
    decreases g,
{
    match g {
        GType::Prim(_) => true,
        GType::NewType(name, gs) => {
            let j = def_index(t, name);
            &&& 0 <= j < t.len()
            &&& j < lvl.len()
            &&& lvl[j] < bound
            &&& gs.len() >= t[j].1.params.len()
            &&& refs_ok_all(gs, t, lvl, bound)
        },
        GType::Reference(x) => refs_ok(*x, t, lvl, bound),
        GType::TypeVar(_) => true,
    }
}

pub open spec fn refs_ok_all(gs: Seq<GType>, t: TableV, lvl: Seq<nat>, bound: nat) -> bool
    decreases gs,
{
    if gs.len() == 0 {
        true
    } else {
        refs_ok_all(gs.subrange(0, gs.len() - 1), t, lvl, bound) && refs_ok(gs[gs.len() - 1], t, lvl, bound)
    }
}

/// The definition at index `k` is a struct with at least one field, whose field types use only its
/// type parameters and refer only to definitions of a lower level.
pub open spec fn def_ok(t: TableV, lvl: Seq<nat>, k: int) -> bool {
    match t[k].1.shape {
        ShapeV::Struct(fields) => {
            &&& fields.len() > 0
            &&& forall|i: int| 0 <= i < fields.len() ==> {
                &&& vars_in(#[trigger] fields[i].1, t[k].1.params)
                &&& refs_ok(fields[i].1, t, lvl, lvl[k])
            }
        },
        ShapeV::Enum(_) => false,
    }
}

/// `lvl` ranks the definitions so that each refers only to definitions of lower rank.
pub open spec fn levels_ok(t: TableV, lvl: Seq<nat>) -> bool {
    &&& lvl.len() == t.len()
    &&& forall|k: int| 0 <= k < t.len() ==> def_ok(t, lvl, k)
}

/// A table of struct definitions without cycles.
pub open spec fn table_wf(t: TableV) -> bool {
    exists|lvl: Seq<nat>| levels_ok(t, lvl)
}

pub open spec fn table_levels(t: TableV) -> Seq<nat> {
    choose|lvl: Seq<nat>| levels_ok(t, lvl)
}

/// Every user type named in the concrete type `c` is defined and gets enough type arguments.
pub open spec fn concrete_ok(t: TableV, c: CType) -> bool
    decreases c,
{
    match c {
        CType::Prim(_) => true,
        CType::NewType(name, cs) => {
            let j = def_index(t, name);
            &&& 0 <= j < t.len()
            &&& cs.len() >= t[j].1.params.len()
            &&& concrete_ok_all(t, cs)
        },
        CType::Reference(x) => concrete_ok(t, *x),
    }
}

pub open spec fn concrete_ok_all(t: TableV, cs: Seq<CType>) -> bool
    decreases cs,
{
    if cs.len() == 0 {
        true
    } else {
        concrete_ok_all(t, cs.subrange(0, cs.len() - 1)) && concrete_ok(t, cs[cs.len() - 1])
    }
}

pub open spec fn gsize(g: GType) -> nat
    decreases g,
{
    match g {
        GType::NewType(_, gs) => 1 + gsizes(gs),
        GType::Reference(x) => 1 + gsize(*x),
        _ => 1,
    }
}

pub open spec fn gsizes(gs: Seq<GType>) -> nat
    decreases gs,
{
    if gs.len() == 0 {
        1
    } else {
        1 + gsizes(gs.subrange(0, gs.len() - 1)) + gsize(gs[gs.len() - 1])
    }
}

pub open spec fn fsizes(fs: Seq<(Seq<char>, GType)>) -> nat
    decreases fs.len(),
{
    if fs.len() == 0 {
        1
    } else {
        1 + fsizes(fs.subrange(0, fs.len() - 1)) + gsize(fs[fs.len() - 1].1)
    }
}

pub open spec fn max_nat(a: nat, b: nat) -> nat {
    if a >= b { a } else { b }
}

/// The genericity rank of the generic type `g` inside a definition of level `bound`, where
/// `env` gives the rank of each type variable.
pub open spec fn rank_g(g: GType, t: TableV, lvl: Seq<nat>, bound: nat, env: Seq<(Seq<char>, nat)>) -> nat
    decreases bound, gsize(g),
{
    match g {
        GType::Prim(_) => 0,
        GType::Reference(x) => rank_g(*x, t, lvl, bound, env) + 1,
        GType::TypeVar(v) => match lookup(env, v) {
            Some(r) => r,
            None => 0,
        },
        GType::NewType(name, gs) => {
            let j = def_index(t, name);
            if 0 <= j < t.len() && j < lvl.len() && lvl[j] < bound {
                rank_def(t, lvl, j, zip_env(t[j].1.params, rank_gs(gs, t, lvl, bound, env)))
            } else {
                0
            }
        },
    }
}

pub open spec fn rank_gs(gs: Seq<GType>, t: TableV, lvl: Seq<nat>, bound: nat, env: Seq<(Seq<char>, nat)>) -> Seq<nat>
    decreases bound, gsizes(gs),
{
    if gs.len() == 0 {
        Seq::empty()
    } else {
        rank_gs(gs.subrange(0, gs.len() - 1), t, lvl, bound, env).push(rank_g(gs[gs.len() - 1], t, lvl, bound, env))
    }
}

/// The largest rank among the fields.
pub open spec fn rank_fields(fs: Seq<(Seq<char>, GType)>, t: TableV, lvl: Seq<nat>, bound: nat, env: Seq<(Seq<char>, nat)>) -> nat
    decreases bound, fsizes(fs),
{
    if fs.len() == 0 {
        0
    } else {
        max_nat(rank_fields(fs.subrange(0, fs.len() - 1), t, lvl, bound, env), rank_g(fs[fs.len() - 1].1, t, lvl, bound, env))
    }
}

/// The rank of the struct defined at index `j`, given the ranks of its type arguments.
pub open spec fn rank_def(t: TableV, lvl: Seq<nat>, j: int, env: Seq<(Seq<char>, nat)>) -> nat
    decreases lvl[j] + 1, 0nat,
{
    if 0 <= j < lvl.len() && 0 <= j < t.len() {
        match t[j].1.shape {
            ShapeV::Struct(fields) => 1 + rank_fields(fields, t, lvl, lvl[j], env),
            ShapeV::Enum(_) => 0,
        }
    } else {
        0
    }
}

/// The genericity rank of a concrete type: how deeply user types and references nest in it.
pub open spec fn rank_c(t: TableV, c: CType) -> nat
    decreases c,
{
    match c {
        CType::Prim(_) => 0,
        CType::Reference(x) => rank_c(t, *x) + 1,
        CType::NewType(name, cs) => {
            let j = def_index(t, name);
            let lvl = table_levels(t);
            rank_def(t, lvl, j, zip_env(t[j].1.params, rank_cs(t, cs)))
        },
    }
}

pub open spec fn rank_cs(t: TableV, cs: Seq<CType>) -> Seq<nat>
    decreases cs,
{
    if cs.len() == 0 {
        Seq::empty()
    } else {
        rank_cs(t, cs.subrange(0, cs.len() - 1)).push(rank_c(t, cs[cs.len() - 1]))
    }
}


// ---------------------------------------------------------------------------------------------
// Elementwise characterizations of the sequence-recursive definitions.

pub proof fn lemma_vars_in_all(gs: Seq<GType>, params: Seq<Seq<char>>)
    ensures
        vars_in_all(gs, params) <==> forall|i: int| 0 <= i < gs.len() ==> vars_in(#[trigger] gs[i], params),
    decreases gs.len(),
{
    if gs.len() > 0 {
        let q = gs.subrange(0, gs.len() - 1);
        lemma_vars_in_all(q, params);
        assert forall|i: int| 0 <= i < q.len() implies q[i] == gs[i] by {}
    }
}

pub proof fn lemma_refs_ok_all(gs: Seq<GType>, t: TableV, lvl: Seq<nat>, bound: nat)
    ensures
        refs_ok_all(gs, t, lvl, bound) <==> forall|i: int| 0 <= i < gs.len() ==> refs_ok(#[trigger] gs[i], t, lvl, bound),
    decreases gs.len(),
{
    if gs.len() > 0 {
        let q = gs.subrange(0, gs.len() - 1);
        lemma_refs_ok_all(q, t, lvl, bound);
        assert forall|i: int| 0 <= i < q.len() implies q[i] == gs[i] by {}
    }
}

pub proof fn lemma_concrete_ok_all(t: TableV, cs: Seq<CType>)
    ensures
        concrete_ok_all(t, cs) <==> forall|i: int| 0 <= i < cs.len() ==> concrete_ok(t, #[trigger] cs[i]),
    decreases cs.len(),
{
    if cs.len() > 0 {
        let q = cs.subrange(0, cs.len() - 1);
        lemma_concrete_ok_all(t, q);
        assert forall|i: int| 0 <= i < q.len() implies q[i] == cs[i] by {}
    }
}

pub proof fn lemma_rank_gs(gs: Seq<GType>, t: TableV, lvl: Seq<nat>, bound: nat, env: Seq<(Seq<char>, nat)>)
    ensures
        rank_gs(gs, t, lvl, bound, env).len() == gs.len(),
        forall|i: int| 0 <= i < gs.len() ==> #[trigger] rank_gs(gs, t, lvl, bound, env)[i] == rank_g(gs[i], t, lvl, bound, env),
    decreases gs.len(),
{
    if gs.len() > 0 {
        let q = gs.subrange(0, gs.len() - 1);
        lemma_rank_gs(q, t, lvl, bound, env);
        assert forall|i: int| 0 <= i < q.len() implies q[i] == gs[i] by {}
    }
}

pub proof fn lemma_rank_cs(t: TableV, cs: Seq<CType>)
    ensures
        rank_cs(t, cs).len() == cs.len(),
        forall|i: int| 0 <= i < cs.len() ==> #[trigger] rank_cs(t, cs)[i] == rank_c(t, cs[i]),
    decreases cs.len(),
{
    if cs.len() > 0 {
        let q = cs.subrange(0, cs.len() - 1);
        lemma_rank_cs(t, q);
        assert forall|i: int| 0 <= i < q.len() implies q[i] == cs[i] by {}
    }
}

pub proof fn lemma_rank_fields_ge(fs: Seq<(Seq<char>, GType)>, t: TableV, lvl: Seq<nat>, bound: nat, env: Seq<(Seq<char>, nat)>, i: int)
    requires
        0 <= i < fs.len(),
    ensures
        rank_g(fs[i].1, t, lvl, bound, env) <= rank_fields(fs, t, lvl, bound, env),
    decreases fs.len(),
{
    let q = fs.subrange(0, fs.len() - 1);
    if i < fs.len() - 1 {
        lemma_rank_fields_ge(q, t, lvl, bound, env, i);
        assert(q[i] == fs[i]);
    }
}

pub proof fn lemma_mono_types_ok(ps: Seq<GType>, b: Seq<(Seq<char>, CType)>)
    requires
        forall|i: int| 0 <= i < ps.len() ==> mono_type(#[trigger] ps[i], b) is Ok,
    ensures
        mono_types(ps, b) is Ok,
        mono_types(ps, b)->Ok_0.len() == ps.len(),
        forall|i: int| 0 <= i < ps.len() ==> #[trigger] mono_types(ps, b)->Ok_0[i] == mono_type(ps[i], b)->Ok_0,
    decreases ps.len(),
{
    if ps.len() > 0 {
        let q = ps.subrange(0, ps.len() - 1);
        assert forall|i: int| 0 <= i < q.len() implies mono_type(#[trigger] q[i], b) is Ok by {
            assert(q[i] == ps[i]);
        }
        lemma_mono_types_ok(q, b);
        assert forall|i: int| 0 <= i < q.len() implies q[i] == ps[i] by {}
    }
}

pub proof fn lemma_lookup_map<A, B>(s: Seq<(Seq<char>, A)>, f: spec_fn(A) -> B, v: Seq<char>)
    ensures
        lookup(s.map_values(|p: (Seq<char>, A)| (p.0, f(p.1))), v) == match lookup(s, v) {
            Some(a) => Some(f(a)),
            None => None::<B>,
        },
    decreases s.len(),
{
    let m = s.map_values(|p: (Seq<char>, A)| (p.0, f(p.1)));
    if s.len() > 0 {
        assert(m.drop_last() =~= s.drop_last().map_values(|p: (Seq<char>, A)| (p.0, f(p.1))));
        lemma_lookup_map(s.drop_last(), f, v);
    }
}

pub proof fn lemma_lookup_zip_some<V>(params: Seq<Seq<char>>, vals: Seq<V>, v: Seq<char>)
    requires
        params.contains(v),
        vals.len() >= params.len(),
    ensures
        lookup(zip_env(params, vals), v) is Some,
        exists|i: int| 0 <= i < params.len() && lookup(zip_env(params, vals), v) == Some(#[trigger] vals[i]),
    decreases params.len(),
{
    let z = zip_env(params, vals);
    assert(z.len() == params.len());
    if params.last() == v {
        assert(z.last() == (params[params.len() - 1], vals[params.len() - 1]));
    } else {
        let p2 = params.drop_last();
        assert(p2.contains(v)) by {
            let k = choose|k: int| 0 <= k < params.len() && params[k] == v;
            assert(p2[k] == v);
        }
        lemma_lookup_zip_some(p2, vals, v);
        assert(z.drop_last() =~= zip_env(p2, vals));
    }
}

// ---------------------------------------------------------------------------------------------
// Monomorphization preserves well-formedness and computes ranks compositionally.

/// Instantiating a field type of a well-formed table with well-formed arguments succeeds, gives a
/// well-formed type, and its rank is the rank of the field under the arguments' ranks.
pub proof fn lemma_rank_mono(t: TableV, g: GType, params: Seq<Seq<char>>, cs: Seq<CType>, bound: nat)
    requires
        table_wf(t),
        refs_ok(g, t, table_levels(t), bound),
        vars_in(g, params),
        cs.len() >= params.len(),
        concrete_ok_all(t, cs),
    ensures
        mono_type(g, zip_env(params, cs)) is Ok,
        concrete_ok(t, mono_type(g, zip_env(params, cs))->Ok_0),
        rank_c(t, mono_type(g, zip_env(params, cs))->Ok_0) == rank_g(g, t, table_levels(t), bound, zip_env(params, rank_cs(t, cs))),
    decreases g,
{
    let lvl = table_levels(t);
    let b = zip_env(params, cs);
    let env = zip_env(params, rank_cs(t, cs));
    lemma_rank_cs(t, cs);
    lemma_concrete_ok_all(t, cs);
    match g {
        GType::Prim(_) => {},
        GType::Reference(x) => {
            lemma_rank_mono(t, *x, params, cs, bound);
        },
        GType::TypeVar(v) => {
            lemma_lookup_zip_some(params, cs, v);
            let f = |c: CType| rank_c(t, c);
            lemma_lookup_map(b, f, v);
            assert(env =~= b.map_values(|p: (Seq<char>, CType)| (p.0, f(p.1))));
        },
        GType::NewType(name, gs) => {
            lemma_refs_ok_all(gs, t, lvl, bound);
            lemma_vars_in_all(gs, params);
            assert forall|i: int| 0 <= i < gs.len() implies mono_type(#[trigger] gs[i], b) is Ok && concrete_ok(t, mono_type(gs[i], b)->Ok_0) && rank_c(t, mono_type(gs[i], b)->Ok_0) == rank_g(gs[i], t, lvl, bound, env) by {
                lemma_rank_mono(t, gs[i], params, cs, bound);
            }
            lemma_mono_types_ok(gs, b);
            let cs2 = mono_types(gs, b)->Ok_0;
            lemma_concrete_ok_all(t, cs2);
            lemma_rank_cs(t, cs2);
            lemma_rank_gs(gs, t, lvl, bound, env);
            assert(rank_cs(t, cs2) =~= rank_gs(gs, t, lvl, bound, env));
        },
    }
}


// ---------------------------------------------------------------------------------------------
// The table of generic type definitions.

/// The user-defined types of a program, by name.
#[derive(Debug)]
pub struct GenericTypetable {
    pub defs: Vec<(NewtypeId, GenericTypeDef)>,
}

impl View for GenericTypetable {
    type V = TableV;

    open spec fn view(&self) -> TableV {
        table_view(self.defs@)
    }
}

pub open spec fn bind_fields(fs: Seq<(Seq<char>, GType)>, b: Seq<(Seq<char>, GType)>) -> Seq<(Seq<char>, GType)> {
    Seq::new(fs.len(), |i: int| (fs[i].0, bind_type(fs[i].1, b)))
}

pub open spec fn mono_fields(fs: Seq<(Seq<char>, GType)>, b: Seq<(Seq<char>, CType)>) -> Seq<(Seq<char>, CType)> {
    Seq::new(fs.len(), |i: int| (fs[i].0, mono_type(fs[i].1, b)->Ok_0))
}

/// The fields of the struct defined at index `j`.
pub open spec fn struct_fields(t: TableV, j: int) -> Seq<(Seq<char>, GType)> {
    match t[j].1.shape {
        ShapeV::Struct(fields) => fields,
        ShapeV::Enum(_) => Seq::empty(),
    }
}

pub open spec fn is_struct_def(t: TableV, j: int) -> bool {
    0 <= j < t.len() && t[j].1.shape is Struct
}

/// The fields of `NewType(name, args)`, with the type arguments substituted.
pub open spec fn instance_fields(t: TableV, name: Seq<char>, args: Seq<CType>) -> Seq<(Seq<char>, CType)> {
    let j = def_index(t, name);
    mono_fields(struct_fields(t, j), zip_env(t[j].1.params, args))
}

pub fn clone_params(ps: &Vec<TypevarId>) -> (r: Vec<TypevarId>)
    ensures
        r@ == ps@,
{
    let mut out: Vec<TypevarId> = Vec::new();
    let mut i: usize = 0;
    while i < ps.len()
        invariant
            i <= ps.len(),
            out@ == ps@.subrange(0, i as int),
        decreases ps.len() - i,
    {
        out.push(ps[i].clone());
        proof {
            assert(out@ =~= ps@.subrange(0, i + 1));
        }
        i = i + 1;
    }
    assert(ps@.subrange(0, ps.len() as int) =~= ps@);
    out
}

pub fn clone_generic_fields(fs: &Vec<(String, GenericType)>) -> (r: Vec<(String, GenericType)>)
    ensures
        fields_view(r@) == fields_view(fs@),
{
    let mut out: Vec<(String, GenericType)> = Vec::new();
    let mut i: usize = 0;
    while i < fs.len()
        invariant
            i <= fs.len(),
            out@.len() == i,
            forall|j: int| 0 <= j < i ==> (#[trigger] out@[j]).0@ == fs@[j].0@ && out@[j].1@ == fs@[j].1@,
        decreases fs.len() - i,
    {
        out.push((fs[i].0.clone(), clone_generic(&fs[i].1)));
        i = i + 1;
    }
    assert(fields_view(out@) =~= fields_view(fs@));
    out
}

pub fn clone_concrete_fields(fs: &Vec<(String, ConcreteType)>) -> (r: Vec<(String, ConcreteType)>)
    ensures
        fields_view(r@) == fields_view(fs@),
{
    let mut out: Vec<(String, ConcreteType)> = Vec::new();
    let mut i: usize = 0;
    while i < fs.len()
        invariant
            i <= fs.len(),
            out@.len() == i,
            forall|j: int| 0 <= j < i ==> (#[trigger] out@[j]).0@ == fs@[j].0@ && out@[j].1@ == fs@[j].1@,
        decreases fs.len() - i,
    {
        out.push((fs[i].0.clone(), clone_concrete(&fs[i].1)));
        i = i + 1;
    }
    assert(fields_view(out@) =~= fields_view(fs@));
    out
}

pub fn clone_generic_vec(vs: &Vec<GenericType>) -> (r: Vec<GenericType>)
    ensures
        generic_views(r@) == generic_views(vs@),
        r@.len() == vs@.len(),
{
    let mut out: Vec<GenericType> = Vec::new();
    let mut i: usize = 0;
    while i < vs.len()
        invariant
            i <= vs.len(),
            out@.len() == i,
            forall|j: int| 0 <= j < i ==> out@[j]@ == vs@[j]@,
        decreases vs.len() - i,
    {
        out.push(clone_generic(&vs[i]));
        i = i + 1;
    }
    proof {
        lemma_generic_views(out@);
        lemma_generic_views(vs@);
        assert(generic_views(out@) =~= generic_views(vs@));
    }
    out
}

pub fn clone_concrete_vec(vs: &Vec<ConcreteType>) -> (r: Vec<ConcreteType>)
    ensures
        concrete_views(r@) == concrete_views(vs@),
        r@.len() == vs@.len(),
{
    let mut out: Vec<ConcreteType> = Vec::new();
    let mut i: usize = 0;
    while i < vs.len()
        invariant
            i <= vs.len(),
            out@.len() == i,
            forall|j: int| 0 <= j < i ==> out@[j]@ == vs@[j]@,
        decreases vs.len() - i,
    {
        out.push(clone_concrete(&vs[i]));
        i = i + 1;
    }
    proof {
        lemma_concrete_views(out@);
        lemma_concrete_views(vs@);
        assert(concrete_views(out@) =~= concrete_views(vs@));
    }
    out
}

impl Clone for NewtypeDef<GenericType> {
    fn clone(&self) -> (r: Self)
        ensures
            r@ == self@,
    {
        let defn = match &self.defn {
            NewtypeShape::Struct { fields } => NewtypeShape::Struct { fields: clone_generic_fields(fields) },
            NewtypeShape::Enum { variants } => {
                let vs = clone_generic_vec(variants);
                proof {
                    lemma_generic_views(vs@);
                    lemma_generic_views(variants@);
                    assert forall|j: int| 0 <= j < vs@.len() implies vs@[j]@ == variants@[j]@ by {
                        assert(generic_views(vs@)[j] == generic_views(variants@)[j]);
                    }
                    assert(vs@.map_values(|v: GenericType| v@) =~= variants@.map_values(|v: GenericType| v@));
                }
                NewtypeShape::Enum { variants: vs }
            },
        };
        NewtypeDef { type_params: clone_params(&self.type_params), defn }
    }
}

impl Clone for GenericTypetable {
    fn clone(&self) -> (r: Self)
        ensures
            r@ == self@,
    {
        let mut out: Vec<(NewtypeId, GenericTypeDef)> = Vec::new();
        let mut i: usize = 0;
        while i < self.defs.len()
            invariant
                i <= self.defs.len(),
                out@.len() == i,
                forall|j: int| 0 <= j < i ==> (#[trigger] out@[j]).0 == self.defs@[j].0 && out@[j].1@ == self.defs@[j].1@,
            decreases self.defs.len() - i,
        {
            out.push((self.defs[i].0.clone(), self.defs[i].1.clone()));
            i = i + 1;
        }
        assert(table_view(out@) =~= table_view(self.defs@));
        GenericTypetable { defs: out }
    }
}

/// Pairs type parameters with generic type arguments.
pub fn zip_generic(params: &Vec<TypevarId>, vals: &Vec<GenericType>) -> (r: Vec<(TypevarId, GenericType)>)
    ensures
        gbind_view(r@) == zip_env(params_view(params@), generic_views(vals@)),
{
    proof {
        lemma_generic_views(vals@);
    }
    let n = if params.len() <= vals.len() { params.len() } else { vals.len() };
    let mut out: Vec<(TypevarId, GenericType)> = Vec::new();
    let mut i: usize = 0;
    while i < n
        invariant
            i <= n,
            n <= params.len(),
            n <= vals.len(),
            out@.len() == i,
            forall|j: int| 0 <= j < i ==> (#[trigger] out@[j]).0@ == params@[j]@ && out@[j].1@ == vals@[j]@,
        decreases n - i,
    {
        out.push((params[i].clone(), clone_generic(&vals[i])));
        i = i + 1;
    }
    assert(gbind_view(out@) =~= zip_env(params_view(params@), generic_views(vals@)));
    out
}

/// Pairs type parameters with concrete type arguments.
pub fn zip_concrete(params: &Vec<TypevarId>, vals: &Vec<ConcreteType>) -> (r: Vec<(TypevarId, ConcreteType)>)
    ensures
        cbind_view(r@) == zip_env(params_view(params@), concrete_views(vals@)),
{
    proof {
        lemma_concrete_views(vals@);
    }
    let n = if params.len() <= vals.len() { params.len() } else { vals.len() };
    let mut out: Vec<(TypevarId, ConcreteType)> = Vec::new();
    let mut i: usize = 0;
    while i < n
        invariant
            i <= n,
            n <= params.len(),
            n <= vals.len(),
            out@.len() == i,
            forall|j: int| 0 <= j < i ==> (#[trigger] out@[j]).0@ == params@[j]@ && out@[j].1@ == vals@[j]@,
        decreases n - i,
    {
        out.push((params[i].clone(), clone_concrete(&vals[i])));
        i = i + 1;
    }
    assert(cbind_view(out@) =~= zip_env(params_view(params@), concrete_views(vals@)));
    out
}

impl GenericTypetable {
    pub fn new(defs: Vec<(NewtypeId, GenericTypeDef)>) -> (r: Self)
        ensures
            r@ == table_view(defs@),
    {
        Self { defs }
    }

    /// Adds a definition; it shadows an earlier one of the same name.
    pub fn add_newtype(&mut self, name: String, def: GenericTypeDef)
        ensures
            final(self)@ == old(self)@.push((name@, def@)),
    {
        self.defs.push((NewtypeId(name), def));
        assert(table_view(self.defs@) =~= table_view(old(self).defs@).push((name@, def@)));
    }

    /// The index of the definition in force for `id`.
    pub fn find_def(&self, id: &NewtypeId) -> (r: Option<usize>)
        ensures
            match r {
                Some(i) => i == def_index(self@, id.0@) && i < self.defs@.len(),
                None => def_index(self@, id.0@) == -1,
            },
    {
        let mut i = self.defs.len();
        assert(table_view(self.defs@.subrange(0, i as int)) =~= self@);
        while i > 0
            invariant
                i <= self.defs.len(),
                def_index(self@, id.0@) == def_index(table_view(self.defs@.subrange(0, i as int)), id.0@),
            decreases i,
        {
            let ghost q = table_view(self.defs@.subrange(0, i as int));
            assert(q.drop_last() =~= table_view(self.defs@.subrange(0, i - 1)));
            if self.defs[i - 1].0.0 == id.0 {
                return Some(i - 1);
            }
            i = i - 1;
        }
        None
    }

    pub fn get_type_id(&self, name: &String) -> (r: Option<NewtypeId>)
        ensures
            match r {
                Some(id) => id.0@ == name@ && def_index(self@, name@) >= 0,
                None => def_index(self@, name@) == -1,
            },
    {
        let id = NewtypeId(name.clone());
        match self.find_def(&id) {
            Some(_) => Some(id),
            None => None,
        }
    }

    /// The shape of the struct `id` with the given generic types for its type parameters.
    pub fn bind(&self, id: NewtypeId, typ_var_vals: Vec<GenericType>) -> (r: GenericShape)
        requires
            is_struct_def(self@, def_index(self@, id.0@)),
            forall|i: int| 0 <= i < struct_fields(self@, def_index(self@, id.0@)).len() ==> type_bound(
                #[trigger] struct_fields(self@, def_index(self@, id.0@))[i].1,
                zip_env(self@[def_index(self@, id.0@)].1.params, generic_views(typ_var_vals@)),
            ),
        ensures
            r@ == ShapeV::Struct(bind_fields(
                struct_fields(self@, def_index(self@, id.0@)),
                zip_env(self@[def_index(self@, id.0@)].1.params, generic_views(typ_var_vals@)),
            )),
    {
        let k = match self.find_def(&id) {
            Some(k) => k,
            None => {
                assert(false);
                0
            },
        };
        let def = &self.defs[k].1;
        let type_params = zip_generic(&def.type_params, &typ_var_vals);
        match &def.defn {
            NewtypeShape::Struct { fields } => {
                let ghost fv = fields_view(fields@);
                let ghost b = gbind_view(type_params@);
                assert(fv == struct_fields(self@, k as int));
                let mut out: Vec<(String, GenericType)> = Vec::new();
                let mut i: usize = 0;
                while i < fields.len()
                    invariant
                        i <= fields.len(),
                        fv == struct_fields(self@, k as int),
                        fv == fields_view(fields@),
                        b == zip_env(self@[k as int].1.params, generic_views(typ_var_vals@)),
                        b == gbind_view(type_params@),
                        forall|i: int| 0 <= i < fv.len() ==> type_bound(#[trigger] fv[i].1, b),
                        out@.len() == i,
                        forall|j: int| 0 <= j < i ==> (#[trigger] out@[j]).0@ == fv[j].0 && out@[j].1@ == bind_type(fv[j].1, b),
                    decreases fields.len() - i,
                {
                    assert(fv[i as int].1 == fields@[i as int].1@);
                    let t = fields[i].1.bind(&type_params);
                    out.push((fields[i].0.clone(), t));
                    i = i + 1;
                }
                assert(fields_view(out@) =~= bind_fields(fv, b));
                NewtypeShape::Struct { fields: out }
            },
            NewtypeShape::Enum { .. } => {
                assert(false);
                NewtypeShape::Struct { fields: Vec::new() }
            },
        }
    }

    /// The shape of the struct `id` with the given concrete types for its type parameters.
    pub fn monomorphize(&self, id: NewtypeId, typ_var_vals: Vec<ConcreteType>) -> (r: ConcreteShape)
        requires
            is_struct_def(self@, def_index(self@, id.0@)),
            forall|i: int| 0 <= i < struct_fields(self@, def_index(self@, id.0@)).len() ==> mono_type(
                #[trigger] struct_fields(self@, def_index(self@, id.0@))[i].1,
                zip_env(self@[def_index(self@, id.0@)].1.params, concrete_views(typ_var_vals@)),
            ) is Ok,
        ensures
            r@ == ShapeV::Struct(instance_fields(self@, id.0@, concrete_views(typ_var_vals@))),
    {
        let k = match self.find_def(&id) {
            Some(k) => k,
            None => {
                assert(false);
                0
            },
        };
        let def = &self.defs[k].1;
        let type_params = zip_concrete(&def.type_params, &typ_var_vals);
        match &def.defn {
            NewtypeShape::Struct { fields } => {
                let ghost fv = fields_view(fields@);
                let ghost b = cbind_view(type_params@);
                assert(fv == struct_fields(self@, k as int));
                let mut out: Vec<(String, ConcreteType)> = Vec::new();
                let mut i: usize = 0;
                while i < fields.len()
                    invariant
                        i <= fields.len(),
                        fv == struct_fields(self@, k as int),
                        fv == fields_view(fields@),
                        b == zip_env(self@[k as int].1.params, concrete_views(typ_var_vals@)),
                        b == cbind_view(type_params@),
                        forall|i: int| 0 <= i < fv.len() ==> mono_type(#[trigger] fv[i].1, b) is Ok,
                        out@.len() == i,
                        forall|j: int| 0 <= j < i ==> (#[trigger] out@[j]).0@ == fv[j].0 && out@[j].1@ == mono_type(fv[j].1, b)->Ok_0,
                    decreases fields.len() - i,
                {
                    assert(fv[i as int].1 == fields@[i as int].1@);
                    let t = match fields[i].1.monomorphize(&type_params) {
                        Ok(t) => t,
                        Err(_) => {
                            assert(false);
                            ConcreteType::Prim(crate::shared::typing::PrimType::Unit)
                        },
                    };
                    out.push((fields[i].0.clone(), t));
                    i = i + 1;
                }
                assert(fields_view(out@) =~= mono_fields(fv, b));
                NewtypeShape::Struct { fields: out }
            },
            NewtypeShape::Enum { .. } => {
                assert(false);
                NewtypeShape::Struct { fields: Vec::new() }
            },
        }
    }
}

impl GenericTypetable {
    /// How deeply user types and references nest in `typ`: 0 for a primitive, one more than the
    /// referenced type for a reference, and one more than the largest rank among the fields for a
    /// struct.
    pub fn get_genericity_rank(&self, typ: &ConcreteType) -> (r: usize)
        requires
            table_wf(self@),
            concrete_ok(self@, typ@),
            rank_c(self@, typ@) < usize::MAX,
        ensures
            r == rank_c(self@, typ@),
    {
        match self.try_genericity_rank(typ) {
            Some(r) => r,
            None => {
                assert(false);
                0
            },
        }
    }

    /// The genericity rank of `typ`, or `None` where it does not fit below `usize::MAX`.
    #[verifier::loop_isolation(false)]
    pub fn try_genericity_rank(&self, typ: &ConcreteType) -> (r: Option<usize>)
        requires
            table_wf(self@),
            concrete_ok(self@, typ@),
        ensures
            match r {
                Some(n) => n == rank_c(self@, typ@),
                None => rank_c(self@, typ@) >= usize::MAX,
            },
        decreases rank_c(self@, typ@),
    {
        match typ {
            ConcreteType::Prim(..) => Some(0),
            ConcreteType::Reference(ref_typ) => match self.try_genericity_rank(ref_typ) {
                Some(n) => if n < usize::MAX - 1 { Some(n + 1) } else { None },
                None => None,
            },
            ConcreteType::NewType(id, type_params) => {
                let ghost t = self@;
                let ghost lvl = table_levels(t);
                let ghost k = def_index(t, id.0@);
                let ghost cs = concrete_views(type_params@);
                let ghost fs = struct_fields(t, k);
                let ghost params = t[k].1.params;
                let ghost env = zip_env(params, rank_cs(t, cs));
                proof {
                    assert(levels_ok(t, lvl));
                    assert(def_ok(t, lvl, k));
                    assert forall|i: int| 0 <= i < fs.len() implies mono_type(#[trigger] fs[i].1, zip_env(params, cs)) is Ok
                        && concrete_ok(t, mono_type(fs[i].1, zip_env(params, cs))->Ok_0)
                        && rank_c(t, mono_type(fs[i].1, zip_env(params, cs))->Ok_0) == rank_g(fs[i].1, t, lvl, lvl[k], env)
                        && rank_g(fs[i].1, t, lvl, lvl[k], env) <= rank_fields(fs, t, lvl, lvl[k], env) by {
                        lemma_rank_mono(t, fs[i].1, params, cs, lvl[k]);
                        lemma_rank_fields_ge(fs, t, lvl, lvl[k], env, i);
                    }
                    assert(rank_c(t, typ@) == 1 + rank_fields(fs, t, lvl, lvl[k], env));
                }
                let shape = self.monomorphize(id.clone(), clone_concrete_vec(type_params));
                match shape {
                    NewtypeShape::Struct { fields } => {
                        let ghost fv = fields_view(fields@);
                        assert(fv == instance_fields(t, id.0@, cs));
                        assert(fv.len() == fields@.len());
                        assert(instance_fields(t, id.0@, cs).len() == fs.len());
                        let mut acc: usize = 0;
                        let mut i: usize = 0;
                        while i < fields.len()
                            invariant
                                i <= fields.len(),
                                fields.len() == fs.len(),
                                fv == fields_view(fields@),
                                fv == instance_fields(t, id.0@, cs),
                                acc == rank_fields(fs.subrange(0, i as int), t, lvl, lvl[k], env),
                                rank_c(t, typ@) == 1 + rank_fields(fs, t, lvl, lvl[k], env),
                                forall|i: int| 0 <= i < fs.len() ==> concrete_ok(t, mono_type(#[trigger] fs[i].1, zip_env(params, cs))->Ok_0)
                                    && rank_c(t, mono_type(fs[i].1, zip_env(params, cs))->Ok_0) == rank_g(fs[i].1, t, lvl, lvl[k], env)
                                    && rank_g(fs[i].1, t, lvl, lvl[k], env) <= rank_fields(fs, t, lvl, lvl[k], env),
                            decreases fields.len() - i,
                        {
                            assert(fv[i as int] == (fields@[i as int].0@, fields@[i as int].1@));
                            assert(instance_fields(t, id.0@, cs)[i as int].1 == mono_type(fs[i as int].1, zip_env(params, cs))->Ok_0);
                            assert(fields@[i as int].1@ == mono_type(fs[i as int].1, zip_env(params, cs))->Ok_0);
                            let fr = match self.try_genericity_rank(&fields[i].1) {
                                Some(fr) => fr,
                                None => return None,
                            };
                            proof {
                                let q = fs.subrange(0, i + 1);
                                assert(q.subrange(0, i as int) =~= fs.subrange(0, i as int));
                                assert(q[i as int] == fs[i as int]);
                            }
                            if fr > acc {
                                acc = fr;
                            }
                            i = i + 1;
                        }
                        assert(fs.subrange(0, fields.len() as int) =~= fs);
                        if acc < usize::MAX - 1 { Some(acc + 1) } else { None }
                    },
                    NewtypeShape::Enum { .. } => {
                        assert(false);
                        None
                    },
                }
            },
        }
    }
}

// ---------------------------------------------------------------------------------------------
// Memory layouts of concrete types.

/// The number of bytes a value of type `c` takes: 8 for primitives and references, the sum of
/// the fields' sizes for a struct.
pub open spec fn size_c(t: TableV, c: CType) -> nat
    decreases rank_c(t, c) + 1, 1nat, 0nat,
{
    match c {
        CType::NewType(name, cs) => size_fields(t, instance_fields(t, name, cs), rank_c(t, c) + 1),
        _ => 8,
    }
}

/// The sum of the sizes of the field types (of rank below `bound`).
pub open spec fn size_fields(t: TableV, fs: Seq<(Seq<char>, CType)>, bound: nat) -> nat
    decreases bound, 0nat, fs.len(),
{
    if fs.len() == 0 {
        0
    } else {
        let last = fs[fs.len() - 1].1;
        size_fields(t, fs.subrange(0, fs.len() - 1), bound) + if rank_c(t, last) + 1 < bound {
            size_c(t, last)
        } else {
            0
        }
    }
}

/// Mathematical model of a layout kind.
pub enum LayoutKindV {
    Atomic,
    Struct(Seq<(Seq<char>, CType)>),
}

/// Mathematical model of a layout.
pub struct LayoutV {
    pub size: nat,
    pub typ: CType,
    pub kind: LayoutKindV,
}

/// The layout of a concrete type.
pub open spec fn layout_of(t: TableV, c: CType) -> LayoutV {
    match c {
        CType::NewType(name, cs) => LayoutV {
            size: size_c(t, c),
            typ: c,
            kind: LayoutKindV::Struct(instance_fields(t, name, cs)),
        },
        _ => LayoutV { size: 8, typ: c, kind: LayoutKindV::Atomic },
    }
}

/// How a value of a concrete type is laid out in memory.
#[derive(Debug)]
pub struct ChunkLayout {
    pub size: usize,
    pub typ: ConcreteType,
    pub kind: LayoutKind,
}

#[derive(Debug)]
pub enum LayoutKind {
    /// Primitives and pointers: no internal structure.
    Atomic,
    /// The fields of a struct, in the order in which they are laid out.
    Struct(Vec<(String, ConcreteType)>),
}

impl View for ChunkLayout {
    type V = LayoutV;

    open spec fn view(&self) -> LayoutV {
        LayoutV {
            size: self.size as nat,
            typ: self.typ@,
            kind: match self.kind {
                LayoutKind::Atomic => LayoutKindV::Atomic,
                LayoutKind::Struct(fs) => LayoutKindV::Struct(fields_view(fs@)),
            },
        }
    }
}

impl Clone for ChunkLayout {
    fn clone(&self) -> (r: Self)
        ensures
            r@ == self@,
    {
        ChunkLayout {
            size: self.size,
            typ: clone_concrete(&self.typ),
            kind: match &self.kind {
                LayoutKind::Atomic => LayoutKind::Atomic,
                LayoutKind::Struct(fs) => LayoutKind::Struct(clone_concrete_fields(fs)),
            },
        }
    }
}

pub open spec fn key_view(k: (NewtypeId, Vec<ConcreteType>)) -> CType {
    CType::NewType(k.0.0@, concrete_views(k.1@))
}

/// The layouts of the struct instances of a program.
pub struct LayoutTable {
    pub layouts: Vec<((NewtypeId, Vec<ConcreteType>), ChunkLayout)>,
    /// The type definitions the layouts were computed from.
    pub types: Ghost<TableV>,
}

impl LayoutTable {
    /// Each stored layout is the layout of its key.
    pub open spec fn wf(&self) -> bool {
        &&& table_wf(self.types@)
        &&& forall|i: int| 0 <= i < self.layouts@.len() ==> {
            &&& concrete_ok(self.types@, key_view(#[trigger] self.layouts@[i].0))
            &&& self.layouts@[i].1@ == layout_of(self.types@, key_view(self.layouts@[i].0))
        }
    }

    /// A layout is stored for the struct instance `c`.
    pub open spec fn has_layout(&self, c: CType) -> bool {
        exists|i: int| 0 <= i < self.layouts@.len() && key_view(#[trigger] self.layouts@[i].0) == c
    }

    /// `get_layout` can answer for `c`.
    pub open spec fn covers(&self, c: CType) -> bool {
        match c {
            CType::NewType(_, _) => self.has_layout(c),
            _ => true,
        }
    }

    /// The table can answer for every field type of every struct instance it has a layout for.
    pub open spec fn closed(&self) -> bool {
        forall|c: CType, j: int|
            #![trigger self.has_layout(c), instance_fields(self.types@, c->NewType_0, c->NewType_1)[j]]
            self.has_layout(c) && 0 <= j < instance_fields(self.types@, c->NewType_0, c->NewType_1).len()
                ==> self.covers(instance_fields(self.types@, c->NewType_0, c->NewType_1)[j].1)
    }
}

/// Decides whether `id<params>` is the instance `c`.
pub fn key_matches(id: &NewtypeId, params: &Vec<ConcreteType>, c: &ConcreteType) -> (r: bool)
    ensures
        r == (CType::NewType(id.0@, concrete_views(params@)) == c@),
{
    let probe = ConcreteType::NewType(id.clone(), clone_concrete_vec(params));
    crate::shared::typing::concrete_eq(&probe, c)
}

impl LayoutTable {
    fn find_layout(&self, c: &ConcreteType) -> (r: Option<usize>)
        ensures
            match r {
                Some(i) => i < self.layouts@.len() && key_view(self.layouts@[i as int].0) == c@,
                None => !self.has_layout(c@),
            },
    {
        let mut i: usize = 0;
        while i < self.layouts.len()
            invariant
                i <= self.layouts.len(),
                forall|j: int| 0 <= j < i ==> key_view(#[trigger] self.layouts@[j].0) != c@,
            decreases self.layouts.len() - i,
        {
            if key_matches(&self.layouts[i].0.0, &self.layouts[i].0.1, c) {
                return Some(i);
            }
            i = i + 1;
        }
        None
    }

    /// The layout of `typ`.
    pub fn get_layout(&self, typ: &ConcreteType) -> (r: ChunkLayout)
        requires
            self.wf(),
            self.covers(typ@),
        ensures
            r@ == layout_of(self.types@, typ@),
    {
        match typ {
            ConcreteType::Prim(..) => ChunkLayout { size: 8, typ: clone_concrete(typ), kind: LayoutKind::Atomic },
            ConcreteType::Reference(..) => ChunkLayout { size: 8, typ: clone_concrete(typ), kind: LayoutKind::Atomic },
            ConcreteType::NewType(..) => {
                match self.find_layout(typ) {
                    Some(i) => self.layouts[i].1.clone(),
                    None => {
                        assert(false);
                        ChunkLayout { size: 8, typ: clone_concrete(typ), kind: LayoutKind::Atomic }
                    },
                }
            },
        }
    }
}

/// One field of a well-formed struct instance is well-formed and of lower rank.
pub proof fn lemma_instance_field(t: TableV, name: Seq<char>, cs: Seq<CType>, i: int)
    requires
        table_wf(t),
        concrete_ok(t, CType::NewType(name, cs)),
        0 <= i < struct_fields(t, def_index(t, name)).len(),
    ensures
        mono_type(struct_fields(t, def_index(t, name))[i].1, zip_env(t[def_index(t, name)].1.params, cs)) is Ok,
        instance_fields(t, name, cs)[i].1 == mono_type(struct_fields(t, def_index(t, name))[i].1, zip_env(t[def_index(t, name)].1.params, cs))->Ok_0,
        concrete_ok(t, instance_fields(t, name, cs)[i].1),
        rank_c(t, instance_fields(t, name, cs)[i].1) < rank_c(t, CType::NewType(name, cs)),
{
    let lvl = table_levels(t);
    let k = def_index(t, name);
    let fs = struct_fields(t, k);
    let params = t[k].1.params;
    let env = zip_env(params, rank_cs(t, cs));
    assert(levels_ok(t, lvl));
    assert(def_ok(t, lvl, k));
    lemma_concrete_ok_all(t, cs);
    assert(rank_c(t, CType::NewType(name, cs)) == 1 + rank_fields(fs, t, lvl, lvl[k], env));
    assert(vars_in(fs[i].1, params));
    assert(refs_ok(fs[i].1, t, lvl, lvl[k]));
    lemma_rank_mono(t, fs[i].1, params, cs, lvl[k]);
    lemma_rank_fields_ge(fs, t, lvl, lvl[k], env, i);
}

/// The fields of a well-formed struct instance are well-formed and of lower rank.
pub proof fn lemma_instance_fields(t: TableV, name: Seq<char>, cs: Seq<CType>)
    requires
        table_wf(t),
        concrete_ok(t, CType::NewType(name, cs)),
    ensures
        is_struct_def(t, def_index(t, name)),
        instance_fields(t, name, cs).len() == struct_fields(t, def_index(t, name)).len(),
        instance_fields(t, name, cs).len() > 0,
        forall|i: int| 0 <= i < instance_fields(t, name, cs).len() ==>
            mono_type(#[trigger] struct_fields(t, def_index(t, name))[i].1, zip_env(t[def_index(t, name)].1.params, cs)) is Ok,
        forall|i: int| 0 <= i < instance_fields(t, name, cs).len() ==>
            concrete_ok(t, #[trigger] instance_fields(t, name, cs)[i].1),
        forall|i: int| 0 <= i < instance_fields(t, name, cs).len() ==>
            rank_c(t, #[trigger] instance_fields(t, name, cs)[i].1) < rank_c(t, CType::NewType(name, cs)),
{
    let lvl = table_levels(t);
    let k = def_index(t, name);
    assert(levels_ok(t, lvl));
    assert(def_ok(t, lvl, k));
    assert forall|i: int| 0 <= i < instance_fields(t, name, cs).len() implies
        mono_type(#[trigger] struct_fields(t, def_index(t, name))[i].1, zip_env(t[def_index(t, name)].1.params, cs)) is Ok by {
        lemma_instance_field(t, name, cs, i);
    }
    assert forall|i: int| 0 <= i < instance_fields(t, name, cs).len() implies
        concrete_ok(t, #[trigger] instance_fields(t, name, cs)[i].1) by {
        lemma_instance_field(t, name, cs, i);
    }
    assert forall|i: int| 0 <= i < instance_fields(t, name, cs).len() implies
        rank_c(t, #[trigger] instance_fields(t, name, cs)[i].1) < rank_c(t, CType::NewType(name, cs)) by {
        lemma_instance_field(t, name, cs, i);
    }
}

pub proof fn lemma_size_fields_prefix(t: TableV, fs: Seq<(Seq<char>, CType)>, k: int, bound: nat)
    requires
        0 <= k <= fs.len(),
    ensures
        size_fields(t, fs.subrange(0, k), bound) <= size_fields(t, fs, bound),
    decreases fs.len() - k,
{
    if k < fs.len() {
        let q = fs.subrange(0, k + 1);
        assert(q.subrange(0, k) =~= fs.subrange(0, k));
        lemma_size_fields_prefix(t, fs, k + 1, bound);
    } else {
        assert(fs.subrange(0, k) =~= fs);
    }
}

/// Every struct field of an instance in `keys` that is itself a struct instance is in `keys`.
pub open spec fn instances_closed(t: TableV, keys: Seq<CType>) -> bool {
    forall|i: int, j: int|
        #![trigger keys[i], instance_fields(t, keys[i]->NewType_0, keys[i]->NewType_1)[j]]
        0 <= i < keys.len() && 0 <= j < instance_fields(t, keys[i]->NewType_0, keys[i]->NewType_1).len()
            && instance_fields(t, keys[i]->NewType_0, keys[i]->NewType_1)[j].1 is NewType
            ==> keys.contains(instance_fields(t, keys[i]->NewType_0, keys[i]->NewType_1)[j].1)
}

pub open spec fn keys_view(ks: Seq<(NewtypeId, Vec<ConcreteType>)>) -> Seq<CType> {
    ks.map_values(|k: (NewtypeId, Vec<ConcreteType>)| key_view(k))
}

impl LayoutTable {
    /// Computes the layouts of the given struct instances, those of lower rank first, so that the
    /// layouts of a struct's fields are known when its own is computed.
    #[verifier::loop_isolation(false)]
    pub fn make(typetable: GenericTypetable, concrete_newtypes: Vec<(NewtypeId, Vec<ConcreteType>)>) -> (r: Self)
        requires
            table_wf(typetable@),
            forall|i: int| 0 <= i < concrete_newtypes@.len() ==> concrete_ok(typetable@, #[trigger] keys_view(concrete_newtypes@)[i]),
            forall|i: int| 0 <= i < concrete_newtypes@.len() ==> rank_c(typetable@, #[trigger] keys_view(concrete_newtypes@)[i]) < usize::MAX,
            forall|i: int| 0 <= i < concrete_newtypes@.len() ==> size_c(typetable@, #[trigger] keys_view(concrete_newtypes@)[i]) <= usize::MAX,
            instances_closed(typetable@, keys_view(concrete_newtypes@)),
        ensures
            r.wf(),
            r.types@ == typetable@,
            forall|i: int| 0 <= i < concrete_newtypes@.len() ==> r.has_layout(#[trigger] keys_view(concrete_newtypes@)[i]),
            forall|c: CType| r.has_layout(c) ==> keys_view(concrete_newtypes@).contains(c),
            r.closed(),
    {
        let ghost t = typetable@;
        let ghost keys = keys_view(concrete_newtypes@);
        let n = concrete_newtypes.len();
        let mut table = LayoutTable { layouts: Vec::new(), types: Ghost(t) };
        // The genericity rank of each instance.
        let mut ranks: Vec<usize> = Vec::new();
        let mut max_rank: usize = 0;
        let mut i: usize = 0;
        while i < n
            invariant
                i <= n,
                ranks@.len() == i,
                forall|j: int| 0 <= j < i ==> ranks@[j] == rank_c(t, #[trigger] keys[j]),
                forall|j: int| 0 <= j < i ==> ranks@[j] <= max_rank,
                max_rank < usize::MAX,
            decreases n - i,
        {
            let probe = ConcreteType::NewType(concrete_newtypes[i].0.clone(), clone_concrete_vec(&concrete_newtypes[i].1));
            assert(probe@ == keys[i as int]);
            let rk = typetable.get_genericity_rank(&probe);
            ranks.push(rk);
            if rk > max_rank {
                max_rank = rk;
            }
            i = i + 1;
        }
        let mut r: usize = 0;
        while r <= max_rank
            invariant
                table.wf(),
                table.types@ == t,
                forall|j: int| 0 <= j < n && ranks@[j] < r ==> table.has_layout(#[trigger] keys[j]),
                forall|c: CType| table.has_layout(c) ==> keys.contains(c),
                max_rank < usize::MAX,
            decreases max_rank + 1 - r,
        {
            let mut i: usize = 0;
            while i < n
                invariant
                    table.wf(),
                    table.types@ == t,
                    forall|j: int| 0 <= j < n && ranks@[j] < r ==> table.has_layout(#[trigger] keys[j]),
                    forall|j: int| 0 <= j < i && ranks@[j] == r ==> table.has_layout(#[trigger] keys[j]),
                    forall|c: CType| table.has_layout(c) ==> keys.contains(c),
                    i <= n,
                decreases n - i,
            {
                if ranks[i] == r {
                    let probe = ConcreteType::NewType(concrete_newtypes[i].0.clone(), clone_concrete_vec(&concrete_newtypes[i].1));
                    assert(probe@ == keys[i as int]);
                    if table.find_layout(&probe).is_none() {
                        proof {
                            let key = keys[i as int];
                            lemma_instance_fields(t, key->NewType_0, key->NewType_1);
                            let fsi = instance_fields(t, key->NewType_0, key->NewType_1);
                            assert forall|j: int| 0 <= j < fsi.len() implies table.covers(#[trigger] fsi[j].1) by {
                                if fsi[j].1 is NewType {
                                    assert(keys.contains(fsi[j].1));
                                    let m = choose|m: int| 0 <= m < keys.len() && keys[m] == fsi[j].1;
                                    assert(ranks@[m] < r);
                                    assert(table.has_layout(keys[m]));
                                }
                            }
                        }
                        table.add_struct_layout(&typetable, &concrete_newtypes[i].0, &concrete_newtypes[i].1);
                    }
                }
                i = i + 1;
            }
            r = r + 1;
        }
        proof {
            assert forall|j: int| 0 <= j < n implies table.has_layout(#[trigger] keys[j]) by {
                assert(ranks@[j] <= max_rank);
            }
            assert forall|c: CType, j: int|
                #![trigger table.has_layout(c), instance_fields(t, c->NewType_0, c->NewType_1)[j]]
                table.has_layout(c) && 0 <= j < instance_fields(t, c->NewType_0, c->NewType_1).len()
                implies table.covers(instance_fields(t, c->NewType_0, c->NewType_1)[j].1) by {
                assert(keys.contains(c));
                let m = choose|m: int| 0 <= m < keys.len() && keys[m] == c;
                let f = instance_fields(t, keys[m]->NewType_0, keys[m]->NewType_1)[j].1;
                if f is NewType {
                    assert(keys.contains(f));
                    let q = choose|q: int| 0 <= q < keys.len() && keys[q] == f;
                    assert(table.has_layout(keys[q]));
                }
            }
        }
        table
    }

    #[verifier::loop_isolation(false)]
    fn add_struct_layout(&mut self, typetable: &GenericTypetable, id: &NewtypeId, tparams: &Vec<ConcreteType>)
        requires
            old(self).wf(),
            typetable@ == old(self).types@,
            concrete_ok(typetable@, CType::NewType(id.0@, concrete_views(tparams@))),
            size_c(typetable@, CType::NewType(id.0@, concrete_views(tparams@))) <= usize::MAX,
            forall|j: int| 0 <= j < instance_fields(typetable@, id.0@, concrete_views(tparams@)).len() ==>
                old(self).covers(#[trigger] instance_fields(typetable@, id.0@, concrete_views(tparams@))[j].1),
        ensures
            final(self).wf(),
            final(self).types@ == old(self).types@,
            forall|c: CType| old(self).has_layout(c) ==> final(self).has_layout(c),
            final(self).has_layout(CType::NewType(id.0@, concrete_views(tparams@))),
            forall|c: CType| final(self).has_layout(c) ==> old(self).has_layout(c) || c == CType::NewType(id.0@, concrete_views(tparams@)),
    {
        let ghost t = typetable@;
        let ghost name = id.0@;
        let ghost cs = concrete_views(tparams@);
        let ghost c = CType::NewType(name, cs);
        let ghost fs = instance_fields(t, name, cs);
        let ghost bound = rank_c(t, c) + 1;
        proof {
            lemma_instance_fields(t, name, cs);
            assert(size_c(t, c) == size_fields(t, fs, bound));
        }
        let shape = typetable.monomorphize(id.clone(), clone_concrete_vec(tparams));
        let fields = match shape {
            NewtypeShape::Struct { fields } => fields,
            NewtypeShape::Enum { .. } => {
                assert(false);
                Vec::new()
            },
        };
        assert(fields_view(fields@) == fs);
        assert(fields@.len() == fs.len());
        let mut size: usize = 0;
        let mut i: usize = 0;
        while i < fields.len()
            invariant
                i <= fields.len(),
                fields_view(fields@) == fs,
                fields@.len() == fs.len(),
                size == size_fields(t, fs.subrange(0, i as int), bound),
                size_fields(t, fs, bound) <= usize::MAX,
                self.wf(),
                self.types@ == t,
                forall|j: int| 0 <= j < fs.len() ==> self.covers(#[trigger] fs[j].1),
                forall|j: int| 0 <= j < fs.len() ==> concrete_ok(t, #[trigger] fs[j].1) && rank_c(t, fs[j].1) < rank_c(t, c),
            decreases fields.len() - i,
        {
            assert(fs[i as int] == (fields@[i as int].0@, fields@[i as int].1@));
            assert(self.covers(fs[i as int].1));
            let fl = self.get_layout(&fields[i].1);
            proof {
                let q = fs.subrange(0, i + 1);
                assert(q.subrange(0, i as int) =~= fs.subrange(0, i as int));
                assert(q[i as int] == fs[i as int]);
                lemma_size_fields_prefix(t, fs, i + 1, bound);
                assert(fl.size == size_c(t, fs[i as int].1));
                assert(concrete_ok(t, fs[i as int].1) && rank_c(t, fs[i as int].1) < rank_c(t, c));
                assert(rank_c(t, q[i as int].1) + 1 < bound);
                assert(size_fields(t, q, bound) == size_fields(t, q.subrange(0, i as int), bound) + size_c(t, q[i as int].1));
                assert(size_fields(t, q, bound) == size + fl.size);
            }
            size = size + fl.size;
            i = i + 1;
        }
        assert(fs.subrange(0, fields.len() as int) =~= fs);
        let layout = ChunkLayout {
            size,
            typ: ConcreteType::NewType(id.clone(), clone_concrete_vec(tparams)),
            kind: LayoutKind::Struct(fields),
        };
        assert(layout@ == layout_of(t, c));
        let ghost old_layouts = self.layouts@;
        self.layouts.push(((id.clone(), clone_concrete_vec(tparams)), layout));
        assert(key_view(self.layouts@[old_layouts.len() as int].0) == c);
        assert forall|d: CType| old(self).has_layout(d) implies self.has_layout(d) by {
            let j = choose|j: int| 0 <= j < old_layouts.len() && key_view(#[trigger] old_layouts[j].0) == d;
            assert(self.layouts@[j] == old_layouts[j]);
        }
        assert forall|d: CType| self.has_layout(d) implies old(self).has_layout(d) || d == c by {
            let j = choose|j: int| 0 <= j < self.layouts@.len() && key_view(#[trigger] self.layouts@[j].0) == d;
            if j < old_layouts.len() {
                assert(self.layouts@[j] == old_layouts[j]);
            }
        }
    }
}


/// The definition found under a name is the one added last under it, and a name never added
/// has none.
pub proof fn law_def_index_last(t: TableV, name: Seq<char>)
    ensures
        -1 <= def_index(t, name) < t.len(),
        def_index(t, name) == -1 <==> forall|j: int| 0 <= j < t.len() ==> t[j].0 != name,
        def_index(t, name) >= 0 ==> t[def_index(t, name)].0 == name
            && forall|j: int| def_index(t, name) < j < t.len() ==> t[j].0 != name,
    decreases t.len(),
{
    if t.len() > 0 {
        law_def_index_last(t.drop_last(), name);
        assert forall|j: int| 0 <= j < t.len() - 1 implies t[j] == t.drop_last()[j] by {}
    }
}

/// Adding a definition makes it the one found under its name, and changes what is found under
/// no other name.
pub proof fn law_add_newtype_found(t: TableV, name: Seq<char>, def: DefV<GType>, other: Seq<char>)
    requires
        other != name,
    ensures
        def_index(t.push((name, def)), name) == t.len(),
        t.push((name, def))[t.len() as int] == (name, def),
        def_index(t.push((name, def)), other) == def_index(t, other),
{
    assert(t.push((name, def)).drop_last() =~= t);
}


/// The largest rank among a non-empty list of fields is the rank of one of them.
pub proof fn lemma_rank_fields_attained(fs: Seq<(Seq<char>, GType)>, t: TableV, lvl: Seq<nat>, bound: nat, env: Seq<(Seq<char>, nat)>)
    requires
        fs.len() > 0,
    ensures
        exists|i: int| 0 <= i < fs.len() && rank_g(#[trigger] fs[i].1, t, lvl, bound, env) == rank_fields(fs, t, lvl, bound, env),
    decreases fs.len(),
{
    let q = fs.subrange(0, fs.len() - 1);
    let last = fs.len() - 1;
    if q.len() > 0 {
        lemma_rank_fields_attained(q, t, lvl, bound, env);
        let i = choose|i: int| 0 <= i < q.len() && rank_g(#[trigger] q[i].1, t, lvl, bound, env) == rank_fields(q, t, lvl, bound, env);
        assert(q[i] == fs[i]);
        if rank_fields(q, t, lvl, bound, env) >= rank_g(fs[last].1, t, lvl, bound, env) {
            assert(rank_g(fs[i].1, t, lvl, bound, env) == rank_fields(fs, t, lvl, bound, env));
        } else {
            assert(rank_g(fs[last].1, t, lvl, bound, env) == rank_fields(fs, t, lvl, bound, env));
        }
    } else {
        assert(rank_fields(q, t, lvl, bound, env) == 0);
        assert(rank_fields(fs, t, lvl, bound, env) == max_nat(0, rank_g(fs[last].1, t, lvl, bound, env)));
    }
}

/// The genericity rank of a struct instance is one more than the largest rank among its
/// fields, each field's type instantiated with the instance's type arguments.
pub proof fn law_rank_struct_is_max(t: TableV, name: Seq<char>, cs: Seq<CType>)
    requires
        table_wf(t),
        concrete_ok(t, CType::NewType(name, cs)),
    ensures
        instance_fields(t, name, cs).len() > 0,
        forall|i: int| 0 <= i < instance_fields(t, name, cs).len()
            ==> rank_c(t, #[trigger] instance_fields(t, name, cs)[i].1) + 1 <= rank_c(t, CType::NewType(name, cs)),
        exists|i: int| 0 <= i < instance_fields(t, name, cs).len()
            && rank_c(t, #[trigger] instance_fields(t, name, cs)[i].1) + 1 == rank_c(t, CType::NewType(name, cs)),
{
    let lvl = table_levels(t);
    let k = def_index(t, name);
    let fs = struct_fields(t, k);
    let params = t[k].1.params;
    let env = zip_env(params, rank_cs(t, cs));
    let inst = instance_fields(t, name, cs);
    assert(levels_ok(t, lvl));
    assert(def_ok(t, lvl, k));
    assert forall|i: int| 0 <= i < fs.len() implies
        rank_c(t, #[trigger] inst[i].1) == rank_g(fs[i].1, t, lvl, lvl[k], env)
        && rank_g(fs[i].1, t, lvl, lvl[k], env) <= rank_fields(fs, t, lvl, lvl[k], env) by {
        lemma_rank_mono(t, fs[i].1, params, cs, lvl[k]);
        lemma_rank_fields_ge(fs, t, lvl, lvl[k], env, i);
    }
    assert(rank_c(t, CType::NewType(name, cs)) == 1 + rank_fields(fs, t, lvl, lvl[k], env));
    lemma_rank_fields_attained(fs, t, lvl, lvl[k], env);
    let i = choose|i: int| 0 <= i < fs.len() && rank_g(#[trigger] fs[i].1, t, lvl, lvl[k], env) == rank_fields(fs, t, lvl, lvl[k], env);
    assert(rank_c(t, inst[i].1) + 1 == rank_c(t, CType::NewType(name, cs)));
}

} // verus!
