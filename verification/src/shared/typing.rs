use vstd::prelude::*;

use crate::shared::definitions::{CompileError, NewtypeId, TypevarId};

verus! {

#[derive(Clone, Debug, PartialEq, Eq, Hash, Copy, Structural)]
pub enum PrimType {
    Integer,
    Bool,
    Unit,
}

/// A fully instantiated type: no type variable occurs in it.
#[derive(Debug, PartialEq, Eq, Hash)]
pub enum ConcreteType {
    Prim(PrimType),
    NewType(NewtypeId, Vec<ConcreteType>),
    Reference(Box<ConcreteType>),
}

/// A type as written in annotations and signatures; it may mention type variables.
#[derive(Debug, PartialEq, Eq, Hash)]
pub enum GenericType {
    Prim(PrimType),
    NewType(NewtypeId, Vec<GenericType>),
    Reference(Box<GenericType>),
    TypeVar(TypevarId),
}

/// Mathematical model of a `ConcreteType`.
pub enum CType {
    Prim(PrimType),
    NewType(Seq<char>, Seq<CType>),
    Reference(Box<CType>),
}

/// Mathematical model of a `GenericType`.
pub enum GType {
    Prim(PrimType),
    NewType(Seq<char>, Seq<GType>),
    Reference(Box<GType>),
    TypeVar(Seq<char>),
}

pub open spec fn concrete_view(t: ConcreteType) -> CType
    decreases t,
{
    match t {
        ConcreteType::Prim(p) => CType::Prim(p),
        ConcreteType::NewType(id, ps) => {
            proof {
                assert(decreases_to!(ps => ps@));
            }
            CType::NewType(id.0@, concrete_views(ps@))
        },
        ConcreteType::Reference(b) => CType::Reference(Box::new(concrete_view(*b))),
    }
}

pub open spec fn concrete_views(ps: Seq<ConcreteType>) -> Seq<CType>
    decreases ps,
{
    if ps.len() == 0 {
        Seq::empty()
    } else {
        proof {
            assert(decreases_to!(ps => ps[ps.len() - 1]));
            assert(decreases_to!(ps => ps.subrange(0, ps.len() - 1)));
        }
        concrete_views(ps.subrange(0, ps.len() - 1)).push(concrete_view(ps[ps.len() - 1]))
    }
}

pub open spec fn generic_view(t: GenericType) -> GType
    decreases t,
{
    match t {
        GenericType::Prim(p) => GType::Prim(p),
        GenericType::NewType(id, ps) => {
            proof {
                assert(decreases_to!(ps => ps@));
            }
            GType::NewType(id.0@, generic_views(ps@))
        },
        GenericType::Reference(b) => GType::Reference(Box::new(generic_view(*b))),
        GenericType::TypeVar(v) => GType::TypeVar(v@),
    }
}

pub open spec fn generic_views(ps: Seq<GenericType>) -> Seq<GType>
    decreases ps,
{
    if ps.len() == 0 {
        Seq::empty()
    } else {
        proof {
            assert(decreases_to!(ps => ps[ps.len() - 1]));
            assert(decreases_to!(ps => ps.subrange(0, ps.len() - 1)));
        }
        generic_views(ps.subrange(0, ps.len() - 1)).push(generic_view(ps[ps.len() - 1]))
    }
}

impl View for ConcreteType {
    type V = CType;

    open spec fn view(&self) -> CType {
        concrete_view(*self)
    }
}

impl View for GenericType {
    type V = GType;

    open spec fn view(&self) -> GType {
        generic_view(*self)
    }
}


pub broadcast proof fn lemma_concrete_views(s: Seq<ConcreteType>)
    ensures
        #[trigger] concrete_views(s).len() == s.len(),
        forall|i: int| 0 <= i < s.len() ==> concrete_views(s)[i] == concrete_view(s[i]),
    decreases s.len(),
{
    if s.len() > 0 {
        lemma_concrete_views(s.subrange(0, s.len() - 1));
    }
}

pub broadcast proof fn lemma_generic_views(s: Seq<GenericType>)
    ensures
        #[trigger] generic_views(s).len() == s.len(),
        forall|i: int| 0 <= i < s.len() ==> generic_views(s)[i] == generic_view(s[i]),
    decreases s.len(),
{
    if s.len() > 0 {
        lemma_generic_views(s.subrange(0, s.len() - 1));
    }
}

pub broadcast group group_type_views {
    lemma_concrete_views,
    lemma_generic_views,
}

/// Copies a concrete type.
#[verifier::loop_isolation(false)]
pub fn clone_concrete(t: &ConcreteType) -> (r: ConcreteType)
    ensures
        r@ == t@,
    decreases t,
{
    broadcast use group_type_views;

    match t {
        ConcreteType::Prim(p) => ConcreteType::Prim(*p),
        ConcreteType::NewType(id, ps) => {
            let mut out: Vec<ConcreteType> = Vec::new();
            let mut i: usize = 0;
            while i < ps.len()
                invariant
                    i <= ps.len(),
                    out@.len() == i,
                    forall|j: int| 0 <= j < i ==> out@[j]@ == ps@[j]@,
                decreases ps.len() - i,
            {
                proof {
                    assert(decreases_to!(*t => ps@[i as int])) by {
                        assert(decreases_to!(ps => ps@));
                        assert(decreases_to!(ps@ => ps@[i as int]));
                    }
                }
                out.push(clone_concrete(&ps[i]));
                i = i + 1;
            }
            proof {
                lemma_concrete_views(out@);
                lemma_concrete_views(ps@);
            }
            assert(concrete_views(out@) =~= concrete_views(ps@));
            ConcreteType::NewType(id.clone(), out)
        },
        ConcreteType::Reference(b) => ConcreteType::Reference(Box::new(clone_concrete(b))),
    }
}

/// Copies a generic type.
#[verifier::loop_isolation(false)]
pub fn clone_generic(t: &GenericType) -> (r: GenericType)
    ensures
        r@ == t@,
    decreases t,
{
    broadcast use group_type_views;

    match t {
        GenericType::Prim(p) => GenericType::Prim(*p),
        GenericType::NewType(id, ps) => {
            let mut out: Vec<GenericType> = Vec::new();
            let mut i: usize = 0;
            while i < ps.len()
                invariant
                    i <= ps.len(),
                    out@.len() == i,
                    forall|j: int| 0 <= j < i ==> out@[j]@ == ps@[j]@,
                decreases ps.len() - i,
            {
                proof {
                    assert(decreases_to!(*t => ps@[i as int])) by {
                        assert(decreases_to!(ps => ps@));
                        assert(decreases_to!(ps@ => ps@[i as int]));
                    }
                }
                out.push(clone_generic(&ps[i]));
                i = i + 1;
            }
            proof {
                lemma_generic_views(out@);
                lemma_generic_views(ps@);
            }
            assert(generic_views(out@) =~= generic_views(ps@));
            GenericType::NewType(id.clone(), out)
        },
        GenericType::Reference(b) => GenericType::Reference(Box::new(clone_generic(b))),
        GenericType::TypeVar(v) => GenericType::TypeVar(v.clone()),
    }
}

/// Type-variable bindings: a later entry for the same variable shadows an earlier one.
pub open spec fn lookup<V>(b: Seq<(Seq<char>, V)>, k: Seq<char>) -> Option<V>
    decreases b.len(),
{
    if b.len() == 0 {
        None
    } else if b.last().0 == k {
        Some(b.last().1)
    } else {
        lookup(b.drop_last(), k)
    }
}

pub open spec fn gbind_view(b: Seq<(TypevarId, GenericType)>) -> Seq<(Seq<char>, GType)> {
    b.map_values(|p: (TypevarId, GenericType)| (p.0@, p.1@))
}

pub open spec fn cbind_view(b: Seq<(TypevarId, ConcreteType)>) -> Seq<(Seq<char>, CType)> {
    b.map_values(|p: (TypevarId, ConcreteType)| (p.0@, p.1@))
}

/// Every type variable of `t` has a binding in `b`.
pub open spec fn type_bound<V>(t: GType, b: Seq<(Seq<char>, V)>) -> bool
    decreases t,
{
    match t {
        GType::Prim(_) => true,
        GType::NewType(_, ps) => types_bound(ps, b),
        GType::Reference(x) => type_bound(*x, b),
        GType::TypeVar(v) => lookup(b, v) is Some,
    }
}

pub open spec fn types_bound<V>(ps: Seq<GType>, b: Seq<(Seq<char>, V)>) -> bool
    decreases ps,
{
    if ps.len() == 0 {
        true
    } else {
        types_bound(ps.subrange(0, ps.len() - 1), b) && type_bound(ps[ps.len() - 1], b)
    }
}

/// Substitutes the bound types for the type variables of `t`.
pub open spec fn bind_type(t: GType, b: Seq<(Seq<char>, GType)>) -> GType
    decreases t,
{
    match t {
        GType::Prim(p) => GType::Prim(p),
        GType::NewType(id, ps) => GType::NewType(id, bind_types(ps, b)),
        GType::Reference(x) => GType::Reference(Box::new(bind_type(*x, b))),
        GType::TypeVar(v) => match lookup(b, v) {
            Some(x) => x,
            None => t,
        },
    }
}

pub open spec fn bind_types(ps: Seq<GType>, b: Seq<(Seq<char>, GType)>) -> Seq<GType>
    decreases ps,
{
    if ps.len() == 0 {
        Seq::empty()
    } else {
        bind_types(ps.subrange(0, ps.len() - 1), b).push(bind_type(ps[ps.len() - 1], b))
    }
}

/// Instantiates `t` with concrete types; fails with the first (leftmost) unbound variable.
pub open spec fn mono_type(t: GType, b: Seq<(Seq<char>, CType)>) -> Result<CType, Seq<char>>
    decreases t,
{
    match t {
        GType::Prim(p) => Ok(CType::Prim(p)),
        GType::NewType(id, ps) => match mono_types(ps, b) {
            Ok(cs) => Ok(CType::NewType(id, cs)),
            Err(v) => Err(v),
        },
        GType::Reference(x) => match mono_type(*x, b) {
            Ok(c) => Ok(CType::Reference(Box::new(c))),
            Err(v) => Err(v),
        },
        GType::TypeVar(v) => match lookup(b, v) {
            Some(c) => Ok(c),
            None => Err(v),
        },
    }
}

pub open spec fn mono_types(ps: Seq<GType>, b: Seq<(Seq<char>, CType)>) -> Result<Seq<CType>, Seq<char>>
    decreases ps,
{
    if ps.len() == 0 {
        Ok(Seq::empty())
    } else {
        match mono_types(ps.subrange(0, ps.len() - 1), b) {
            Err(v) => Err(v),
            Ok(cs) => match mono_type(ps[ps.len() - 1], b) {
                Ok(c) => Ok(cs.push(c)),
                Err(v) => Err(v),
            },
        }
    }
}

pub proof fn lemma_types_bound(ps: Seq<GType>, b: Seq<(Seq<char>, GType)>)
    ensures
        types_bound(ps, b) <==> forall|i: int| 0 <= i < ps.len() ==> type_bound(#[trigger] ps[i], b),
    decreases ps.len(),
{
    if ps.len() > 0 {
        let q = ps.subrange(0, ps.len() - 1);
        lemma_types_bound(q, b);
        assert forall|i: int| 0 <= i < q.len() implies q[i] == ps[i] by {}
    }
}

pub proof fn lemma_types_bound_c(ps: Seq<GType>, b: Seq<(Seq<char>, CType)>)
    ensures
        types_bound(ps, b) <==> forall|i: int| 0 <= i < ps.len() ==> type_bound(#[trigger] ps[i], b),
    decreases ps.len(),
{
    if ps.len() > 0 {
        let q = ps.subrange(0, ps.len() - 1);
        lemma_types_bound_c(q, b);
        assert forall|i: int| 0 <= i < q.len() implies q[i] == ps[i] by {}
    }
}

/// An error in a prefix of the parameter list is the error of the whole list.
pub proof fn lemma_mono_types_prefix_err(ps: Seq<GType>, k: int, b: Seq<(Seq<char>, CType)>)
    requires
        0 <= k <= ps.len(),
        mono_types(ps.subrange(0, k), b) is Err,
    ensures
        mono_types(ps, b) == mono_types(ps.subrange(0, k), b),
    decreases ps.len() - k,
{
    if k < ps.len() {
        let q = ps.subrange(0, k + 1);
        assert(q.subrange(0, k) =~= ps.subrange(0, k));
        lemma_mono_types_prefix_err(ps, k + 1, b);
    } else {
        assert(ps.subrange(0, k) =~= ps);
    }
}

/// Looks up the binding of a type variable, searching from the latest entry.
pub fn lookup_generic(b: &Vec<(TypevarId, GenericType)>, k: &TypevarId) -> (r: Option<GenericType>)
    ensures
        match lookup(gbind_view(b@), k@) {
            Some(x) => r is Some && r->0@ == x,
            None => r is None,
        },
{
    let mut i = b.len();
    assert(b@.subrange(0, i as int) =~= b@);
    while i > 0
        invariant
            i <= b.len(),
            lookup(gbind_view(b@), k@) == lookup(gbind_view(b@.subrange(0, i as int)), k@),
        decreases i,
    {
        let ghost q = gbind_view(b@.subrange(0, i as int));
        assert(q.drop_last() =~= gbind_view(b@.subrange(0, i - 1)));
        if b[i - 1].0 == *k {
            return Some(clone_generic(&b[i - 1].1));
        }
        i = i - 1;
    }
    None
}

/// Looks up the binding of a type variable, searching from the latest entry.
pub fn lookup_concrete(b: &Vec<(TypevarId, ConcreteType)>, k: &TypevarId) -> (r: Option<ConcreteType>)
    ensures
        match lookup(cbind_view(b@), k@) {
            Some(x) => r is Some && r->0@ == x,
            None => r is None,
        },
{
    let mut i = b.len();
    assert(b@.subrange(0, i as int) =~= b@);
    while i > 0
        invariant
            i <= b.len(),
            lookup(cbind_view(b@), k@) == lookup(cbind_view(b@.subrange(0, i as int)), k@),
        decreases i,
    {
        let ghost q = cbind_view(b@.subrange(0, i as int));
        assert(q.drop_last() =~= cbind_view(b@.subrange(0, i - 1)));
        if b[i - 1].0 == *k {
            return Some(clone_concrete(&b[i - 1].1));
        }
        i = i - 1;
    }
    None
}

impl GenericType {
    /// Substitutes the bound types for the type variables.
    #[verifier::loop_isolation(false)]
    pub fn bind(&self, bindings: &Vec<(TypevarId, GenericType)>) -> (r: GenericType)
        requires
            type_bound(self@, gbind_view(bindings@)),
        ensures
            r@ == bind_type(self@, gbind_view(bindings@)),
        decreases self,
    {
        broadcast use group_type_views;

        let ghost b = gbind_view(bindings@);
        match self {
            GenericType::Prim(prim_typ) => GenericType::Prim(*prim_typ),
            GenericType::NewType(id, gen_params) => {
                let ghost pv = generic_views(gen_params@);
                proof {
                    lemma_generic_views(gen_params@);
                    lemma_types_bound(pv, b);
                }
                let mut resolved: Vec<GenericType> = Vec::new();
                let mut i: usize = 0;
                while i < gen_params.len()
                    invariant
                        i <= gen_params.len(),
                        resolved@.len() == i,
                        generic_views(resolved@) == bind_types(pv.subrange(0, i as int), b),
                    decreases gen_params.len() - i,
                {
                    proof {
                        assert(decreases_to!(*self => gen_params@[i as int])) by {
                            assert(decreases_to!(gen_params => gen_params@));
                            assert(decreases_to!(gen_params@ => gen_params@[i as int]));
                        }
                        assert(type_bound(pv[i as int], b));
                    }
                    let p = gen_params[i].bind(bindings);
                    let ghost old_res = resolved@;
                    resolved.push(p);
                    proof {
                        let q = pv.subrange(0, i + 1);
                        assert(q.subrange(0, i as int) =~= pv.subrange(0, i as int));
                        assert(resolved@.subrange(0, i as int) =~= old_res);
                        lemma_generic_views(resolved@);
                        lemma_generic_views(old_res);
                        assert(generic_views(resolved@) =~= generic_views(old_res).push(p@));
                    }
                    i = i + 1;
                }
                assert(pv.subrange(0, gen_params.len() as int) =~= pv);
                GenericType::NewType(id.clone(), resolved)
            },
            GenericType::Reference(typ) => GenericType::Reference(Box::new(typ.bind(bindings))),
            GenericType::TypeVar(id) => {
                let found = lookup_generic(bindings, id);
                match found {
                    Some(t) => t,
                    None => {
                        assert(false);
                        GenericType::TypeVar(id.clone())
                    },
                }
            },
        }
    }

    /// Instantiates the type with concrete types for its type variables.
    #[verifier::loop_isolation(false)]
    pub fn monomorphize(&self, type_params: &Vec<(TypevarId, ConcreteType)>) -> (r: Result<ConcreteType, CompileError>)
        ensures
            match mono_type(self@, cbind_view(type_params@)) {
                Ok(c) => r is Ok && r->Ok_0@ == c,
                Err(v) => r matches Err(CompileError::TypeVarNotFound(x)) && x@ == v,
            },
        decreases self,
    {
        broadcast use group_type_views;

        let ghost b = cbind_view(type_params@);
        match self {
            GenericType::Prim(prim_typ) => Ok(ConcreteType::Prim(*prim_typ)),
            GenericType::NewType(id, gen_params) => {
                let ghost pv = generic_views(gen_params@);
                proof {
                    lemma_generic_views(gen_params@);
                }
                let mut resolved: Vec<ConcreteType> = Vec::new();
                let mut i: usize = 0;
                while i < gen_params.len()
                    invariant
                        i <= gen_params.len(),
                        resolved@.len() == i,
                        mono_types(pv.subrange(0, i as int), b) == Ok::<Seq<CType>, Seq<char>>(concrete_views(resolved@)),
                    decreases gen_params.len() - i,
                {
                    proof {
                        assert(decreases_to!(*self => gen_params@[i as int])) by {
                            assert(decreases_to!(gen_params => gen_params@));
                            assert(decreases_to!(gen_params@ => gen_params@[i as int]));
                        }
                    }
                    let p = gen_params[i].monomorphize(type_params);
                    let ghost q = pv.subrange(0, i + 1);
                    proof {
                        assert(q.subrange(0, i as int) =~= pv.subrange(0, i as int));
                        assert(q[i as int] == pv[i as int]);
                    }
                    match p {
                        Ok(c) => {
                            let ghost old_res = resolved@;
                            resolved.push(c);
                            proof {
                                assert(resolved@.subrange(0, i as int) =~= old_res);
                                lemma_concrete_views(resolved@);
                                lemma_concrete_views(old_res);
                                assert(concrete_views(resolved@) =~= concrete_views(old_res).push(resolved@[i as int]@));
                            }
                        },
                        Err(e) => {
                            proof {
                                lemma_mono_types_prefix_err(pv, i + 1, b);
                            }
                            return Err(e);
                        },
                    }
                    i = i + 1;
                }
                assert(pv.subrange(0, gen_params.len() as int) =~= pv);
                Ok(ConcreteType::NewType(id.clone(), resolved))
            },
            GenericType::Reference(typ) => {
                match typ.monomorphize(type_params) {
                    Ok(c) => Ok(ConcreteType::Reference(Box::new(c))),
                    Err(e) => Err(e),
                }
            },
            GenericType::TypeVar(id) => {
                match lookup_concrete(type_params, id) {
                    Some(c) => Ok(c),
                    None => Err(CompileError::TypeVarNotFound(id.clone())),
                }
            },
        }
    }
}

impl Clone for ConcreteType {
    fn clone(&self) -> (r: Self)
        ensures
            r@ == self@,
    {
        clone_concrete(self)
    }
}

impl Clone for GenericType {
    fn clone(&self) -> (r: Self)
        ensures
            r@ == self@,
    {
        clone_generic(self)
    }
}

/// Decides whether two concrete types are the same type.
#[verifier::loop_isolation(false)]
pub fn concrete_eq(a: &ConcreteType, b: &ConcreteType) -> (r: bool)
    ensures
        r == (a@ == b@),
    decreases a,
{
    broadcast use group_type_views;

    match (a, b) {
        (ConcreteType::Prim(p), ConcreteType::Prim(q)) => *p == *q,
        (ConcreteType::NewType(id1, ps1), ConcreteType::NewType(id2, ps2)) => {
            if id1.0 != id2.0 || ps1.len() != ps2.len() {
                if ps1.len() != ps2.len() {
                    proof {
                        lemma_concrete_views(ps1@);
                        lemma_concrete_views(ps2@);
                    }
                }
                return false;
            }
            let mut i: usize = 0;
            while i < ps1.len()
                invariant
                    i <= ps1.len(),
                    ps1.len() == ps2.len(),
                    forall|j: int| 0 <= j < i ==> ps1@[j]@ == ps2@[j]@,
                decreases ps1.len() - i,
            {
                proof {
                    assert(decreases_to!(*a => ps1@[i as int])) by {
                        assert(decreases_to!(ps1 => ps1@));
                        assert(decreases_to!(ps1@ => ps1@[i as int]));
                    }
                }
                if !concrete_eq(&ps1[i], &ps2[i]) {
                    proof {
                        lemma_concrete_views(ps1@);
                        lemma_concrete_views(ps2@);
                        assert(concrete_views(ps1@)[i as int] != concrete_views(ps2@)[i as int]);
                    }
                    return false;
                }
                i = i + 1;
            }
            proof {
                lemma_concrete_views(ps1@);
                lemma_concrete_views(ps2@);
            }
            assert(concrete_views(ps1@) =~= concrete_views(ps2@));
            true
        },
        (ConcreteType::Reference(x), ConcreteType::Reference(y)) => concrete_eq(x, y),
        _ => false,
    }
}

/// Decides whether two generic types are the same type.
#[verifier::loop_isolation(false)]
pub fn generic_eq(a: &GenericType, b: &GenericType) -> (r: bool)
    ensures
        r == (a@ == b@),
    decreases a,
{
    broadcast use group_type_views;

    match (a, b) {
        (GenericType::Prim(p), GenericType::Prim(q)) => *p == *q,
        (GenericType::NewType(id1, ps1), GenericType::NewType(id2, ps2)) => {
            if id1.0 != id2.0 || ps1.len() != ps2.len() {
                if ps1.len() != ps2.len() {
                    proof {
                        lemma_generic_views(ps1@);
                        lemma_generic_views(ps2@);
                    }
                }
                return false;
            }
            let mut i: usize = 0;
            while i < ps1.len()
                invariant
                    i <= ps1.len(),
                    ps1.len() == ps2.len(),
                    forall|j: int| 0 <= j < i ==> ps1@[j]@ == ps2@[j]@,
                decreases ps1.len() - i,
            {
                proof {
                    assert(decreases_to!(*a => ps1@[i as int])) by {
                        assert(decreases_to!(ps1 => ps1@));
                        assert(decreases_to!(ps1@ => ps1@[i as int]));
                    }
                }
                if !generic_eq(&ps1[i], &ps2[i]) {
                    proof {
                        lemma_generic_views(ps1@);
                        lemma_generic_views(ps2@);
                        assert(generic_views(ps1@)[i as int] != generic_views(ps2@)[i as int]);
                    }
                    return false;
                }
                i = i + 1;
            }
            proof {
                lemma_generic_views(ps1@);
                lemma_generic_views(ps2@);
            }
            assert(generic_views(ps1@) =~= generic_views(ps2@));
            true
        },
        (GenericType::Reference(x), GenericType::Reference(y)) => generic_eq(x, y),
        (GenericType::TypeVar(x), GenericType::TypeVar(y)) => *x == *y,
        _ => false,
    }
}



/// A successful instantiation of a list instantiates each of its elements.
pub proof fn lemma_mono_types_elems(ps: Seq<GType>, b: Seq<(Seq<char>, CType)>)
    requires
        mono_types(ps, b) is Ok,
    ensures
        mono_types(ps, b)->Ok_0.len() == ps.len(),
        forall|i: int| 0 <= i < ps.len() ==> mono_type(#[trigger] ps[i], b) is Ok,
        forall|i: int| 0 <= i < ps.len() ==> #[trigger] mono_types(ps, b)->Ok_0[i] == mono_type(ps[i], b)->Ok_0,
    decreases ps.len(),
{
    if ps.len() > 0 {
        let q = ps.subrange(0, ps.len() - 1);
        lemma_mono_types_elems(q, b);
        assert forall|i: int| 0 <= i < q.len() implies q[i] == ps[i] by {}
    }
}

/// Instantiates each type of a list; fails with the leftmost unbound type variable.
pub fn monomorphize_all(ts: &Vec<GenericType>, type_params: &Vec<(TypevarId, ConcreteType)>) -> (r: Result<Vec<ConcreteType>, CompileError>)
    ensures
        match mono_types(generic_views(ts@), cbind_view(type_params@)) {
            Ok(cs) => r is Ok && concrete_views(r->Ok_0@) == cs,
            Err(v) => r matches Err(CompileError::TypeVarNotFound(x)) && x@ == v,
        },
{
    broadcast use group_type_views;

    let ghost b = cbind_view(type_params@);
    let ghost pv = generic_views(ts@);
    assert(pv.len() == ts@.len());
    let mut out: Vec<ConcreteType> = Vec::new();
    assert(concrete_views(out@) =~= Seq::empty());
    let mut i: usize = 0;
    while i < ts.len()
        invariant
            i <= ts.len(),
            pv == generic_views(ts@),
            pv.len() == ts@.len(),
            b == cbind_view(type_params@),
            mono_types(pv.subrange(0, i as int), b) is Ok,
            concrete_views(out@) == mono_types(pv.subrange(0, i as int), b)->Ok_0,
        decreases ts.len() - i,
    {
        let ghost q = pv.subrange(0, i + 1);
        assert(q.subrange(0, i as int) =~= pv.subrange(0, i as int));
        assert(q[i as int] == pv[i as int]);
        proof {
            lemma_generic_views(ts@);
        }
        assert(pv[i as int] == ts@[i as int]@);
        match ts[i].monomorphize(type_params) {
            Ok(c) => {
                let ghost prev = out@;
                out.push(c);
                assert(out@.subrange(0, out@.len() - 1) =~= prev);
                assert(concrete_views(out@) =~= concrete_views(prev).push(c@));
                assert(mono_types(q, b) == Ok::<Seq<CType>, Seq<char>>(concrete_views(prev).push(c@)));
            },
            Err(e) => {
                proof {
                    assert(mono_types(q, b) is Err);
                    lemma_mono_types_prefix_err(pv, i + 1, b);
                }
                return Err(e);
            },
        }
        i = i + 1;
    }
    assert(pv.subrange(0, i as int) =~= pv);
    Ok(out)
}


/// Instantiating a type succeeds exactly when every type variable in it has a binding.
pub proof fn law_monomorphize_ok_iff_bound(t: GType, b: Seq<(Seq<char>, CType)>)
    ensures
        (mono_type(t, b) is Ok) == type_bound(t, b),
    decreases t,
{
    match t {
        GType::NewType(_, ps) => {
            lemma_mono_types_ok_iff_bound(ps, b);
        },
        GType::Reference(x) => {
            law_monomorphize_ok_iff_bound(*x, b);
        },
        _ => {},
    }
}

/// Instantiating a list of types succeeds exactly when each of them has all its type variables
/// bound; the instances then come in the same order, one for each.
pub proof fn lemma_mono_types_ok_iff_bound(ps: Seq<GType>, b: Seq<(Seq<char>, CType)>)
    ensures
        (mono_types(ps, b) is Ok) == types_bound(ps, b),
        mono_types(ps, b) is Ok ==> mono_types(ps, b)->Ok_0.len() == ps.len(),
    decreases ps,
{
    if ps.len() > 0 {
        let q = ps.subrange(0, ps.len() - 1);
        assert(decreases_to!(ps => ps[ps.len() - 1]));
        lemma_mono_types_ok_iff_bound(q, b);
        law_monomorphize_ok_iff_bound(ps[ps.len() - 1], b);
    }
}

/// A type without type variables is left as it is by any binding.
pub proof fn law_bind_closed(t: GType, b: Seq<(Seq<char>, GType)>)
    requires
        type_bound(t, Seq::<(Seq<char>, GType)>::empty()),
    ensures
        bind_type(t, b) == t,
    decreases t,
{
    match t {
        GType::NewType(id, ps) => {
            lemma_bind_types_closed(ps, b);
            assert(bind_types(ps, b) =~= ps);
        },
        GType::Reference(x) => {
            law_bind_closed(*x, b);
        },
        _ => {},
    }
}

/// Types without type variables are left as they are by any binding.
pub proof fn lemma_bind_types_closed(ps: Seq<GType>, b: Seq<(Seq<char>, GType)>)
    requires
        types_bound(ps, Seq::<(Seq<char>, GType)>::empty()),
    ensures
        bind_types(ps, b) == ps,
    decreases ps,
{
    if ps.len() > 0 {
        let q = ps.subrange(0, ps.len() - 1);
        assert(decreases_to!(ps => ps[ps.len() - 1]));
        lemma_bind_types_closed(q, b);
        law_bind_closed(ps[ps.len() - 1], b);
        assert(q.push(ps[ps.len() - 1]) =~= ps);
    }
}


/// Whether type variable `v` has a binding in `bindings`.
pub fn has_binding(bindings: &Vec<(TypevarId, GenericType)>, v: &TypevarId) -> (r: bool)
    ensures
        r == (lookup(gbind_view(bindings@), v@) is Some),
{
    let ghost bv = gbind_view(bindings@);
    let mut j: usize = bindings.len();
    assert(bv.subrange(0, bv.len() as int) =~= bv);
    while j > 0
        invariant
            j <= bindings.len(),
            bv == gbind_view(bindings@),
            bv.len() == bindings@.len(),
            lookup(bv, v@) == lookup(bv.subrange(0, j as int), v@),
        decreases j,
    {
        let ghost pre = bv.subrange(0, j as int);
        assert(pre.drop_last() =~= bv.subrange(0, j - 1));
        assert(pre.last() == (bindings@[j - 1].0@, bindings@[j - 1].1@));
        if bindings[j - 1].0 == *v {
            return true;
        }
        j = j - 1;
    }
    assert(bv.subrange(0, 0) =~= Seq::<(Seq<char>, GType)>::empty());
    false
}

/// Whether every type variable of `t` has a binding in `bindings`.
#[verifier::loop_isolation(false)]
pub fn type_is_bound(t: &GenericType, bindings: &Vec<(TypevarId, GenericType)>) -> (r: bool)
    ensures
        r == type_bound(t@, gbind_view(bindings@)),
    decreases t,
{
    broadcast use group_type_views;

    let ghost b = gbind_view(bindings@);
    match t {
        GenericType::Prim(..) => true,
        GenericType::Reference(x) => type_is_bound(x, bindings),
        GenericType::TypeVar(v) => has_binding(bindings, v),
        GenericType::NewType(_, ps) => {
            proof {
                lemma_types_bound(generic_views(ps@), b);
                lemma_generic_views(ps@);
            }
            let mut i: usize = 0;
            while i < ps.len()
                invariant
                    i <= ps.len(),
                    b == gbind_view(bindings@),
                    generic_views(ps@).len() == ps@.len(),
                    forall|j: int| 0 <= j < ps@.len() ==> generic_views(ps@)[j] == ps@[j]@,
                    types_bound(generic_views(ps@), b) <==> forall|j: int| 0 <= j < ps@.len() ==> type_bound(#[trigger] generic_views(ps@)[j], b),
                    forall|j: int| 0 <= j < i ==> type_bound(#[trigger] generic_views(ps@)[j], b),
                decreases ps.len() - i,
            {
                proof {
                    assert(decreases_to!(*t => *ps));
                    assert(decreases_to!(*ps => ps@));
                    assert(decreases_to!(ps@ => ps@[i as int]));
                }
                if !type_is_bound(&ps[i], bindings) {
                    assert(!type_bound(generic_views(ps@)[i as int], b));
                    return false;
                }
                i = i + 1;
            }
            true
        },
    }
}

} // verus!
