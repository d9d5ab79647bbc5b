use vstd::prelude::*;

use crate::shared::assoc::{assoc_index, assoc_map, keys_unique, lemma_assoc_dom, lemma_assoc_index, lemma_assoc_index_of, lemma_assoc_update};
use crate::shared::definitions::{CompileError, FuncId, TypevarId};
use crate::shared::tables::{clone_generic_vec, clone_params, concrete_ok, params_view, rank_c, table_wf, zip_concrete, zip_env, GenericTypetable, TableV};
use crate::shared::typing::{
    concrete_views, generic_views, lemma_concrete_views, lemma_generic_views, CType, ConcreteType, GType, GenericType,
    mono_types, monomorphize_all, cbind_view,
};

verus! {

/// For each function: its type variables, and the calls its body makes, each with the
/// (generic) type arguments of the call.
#[derive(Debug)]
pub struct CallGraph {
    typevar_map: Vec<(FuncId, Vec<TypevarId>)>,
    calls: Vec<(FuncId, Vec<(FuncId, Vec<GenericType>)>)>,
}

pub open spec fn callees_view(cs: Seq<(FuncId, Vec<GenericType>)>) -> Seq<(usize, Seq<GType>)> {
    cs.map_values(|c: (FuncId, Vec<GenericType>)| (c.0.0, generic_views(c.1@)))
}

pub open spec fn typevars_entries(s: Seq<(FuncId, Vec<TypevarId>)>) -> Seq<(usize, Seq<Seq<char>>)> {
    s.map_values(|p: (FuncId, Vec<TypevarId>)| (p.0.0, params_view(p.1@)))
}

pub open spec fn calls_entries(s: Seq<(FuncId, Vec<(FuncId, Vec<GenericType>)>)>) -> Seq<(usize, Seq<(usize, Seq<GType>)>)> {
    s.map_values(|p: (FuncId, Vec<(FuncId, Vec<GenericType>)>)| (p.0.0, callees_view(p.1@)))
}

/// No calls recorded yet for any of the functions.
pub open spec fn no_calls(s: Seq<(FuncId, Vec<TypevarId>)>) -> Seq<(usize, Seq<(usize, Seq<GType>)>)> {
    s.map_values(|p: (FuncId, Vec<TypevarId>)| (p.0.0, Seq::<(usize, Seq<GType>)>::empty()))
}

/// The concrete instances a function instance calls: each callee with its type arguments
/// instantiated under the caller's type variables bound to `params`.
pub open spec fn concrete_callees(
    typevars: Seq<Seq<char>>,
    callees: Seq<(usize, Seq<GType>)>,
    params: Seq<CType>,
) -> Seq<(usize, Seq<CType>)> {
    callees.map_values(|c: (usize, Seq<GType>)| (c.0, mono_types(c.1, zip_env(typevars, params))->Ok_0))
}

impl CallGraph {
    /// Type variables of each function.
    pub closed spec fn typevars(&self) -> Map<usize, Seq<Seq<char>>> {
        assoc_map(typevars_entries(self.typevar_map@))
    }

    /// Calls made by each function, in the order they were added.
    pub closed spec fn callees(&self) -> Map<usize, Seq<(usize, Seq<GType>)>> {
        assoc_map(calls_entries(self.calls@))
    }

    /// Both tables hold one entry per function, in the same order.
    pub closed spec fn wf(&self) -> bool {
        &&& self.typevar_map@.len() == self.calls@.len()
        &&& forall|i: int| 0 <= i < self.calls@.len() ==> self.typevar_map@[i].0 == #[trigger] self.calls@[i].0
        &&& keys_unique(typevars_entries(self.typevar_map@))
        &&& keys_unique(calls_entries(self.calls@))
    }

    pub proof fn lemma_same_functions(&self)
        requires
            self.wf(),
        ensures
            self.typevars().dom() == self.callees().dom(),
    {
        assert forall|k: usize| self.typevars().dom().contains(k) <==> self.callees().dom().contains(k) by {
            lemma_assoc_dom(typevars_entries(self.typevar_map@), k);
            lemma_assoc_dom(calls_entries(self.calls@), k);
            if self.typevars().dom().contains(k) {
                let i = choose|i: int| 0 <= i < typevars_entries(self.typevar_map@).len() && typevars_entries(self.typevar_map@)[i].0 == k;
                assert(calls_entries(self.calls@)[i].0 == k);
            }
            if self.callees().dom().contains(k) {
                let i = choose|i: int| 0 <= i < calls_entries(self.calls@).len() && calls_entries(self.calls@)[i].0 == k;
                assert(typevars_entries(self.typevar_map@)[i].0 == k);
            }
        }
        assert(self.typevars().dom() =~= self.callees().dom());
    }

    fn find(&self, id: &FuncId) -> (r: Option<usize>)
        requires
            self.wf(),
        ensures
            match r {
                Some(i) => i < self.calls@.len() && self.calls@[i as int].0 == *id && self.typevar_map@[i as int].0 == *id,
                None => !self.typevars().dom().contains(id.0) && !self.callees().dom().contains(id.0),
            },
    {
        let mut i: usize = 0;
        while i < self.typevar_map.len()
            invariant
                self.wf(),
                i <= self.typevar_map.len(),
                forall|j: int| 0 <= j < i ==> self.typevar_map@[j].0 != *id,
            decreases self.typevar_map.len() - i,
        {
            if self.typevar_map[i].0 == *id {
                return Some(i);
            }
            i = i + 1;
        }
        proof {
            lemma_assoc_dom(typevars_entries(self.typevar_map@), id.0);
            lemma_assoc_dom(calls_entries(self.calls@), id.0);
            if self.callees().dom().contains(id.0) {
                let j = choose|j: int| 0 <= j < calls_entries(self.calls@).len() && calls_entries(self.calls@)[j].0 == id.0;
                assert(self.typevar_map@[j].0 == self.calls@[j].0);
            }
        }
        None
    }

    /// A graph of the given functions, with no calls yet.
    pub fn new(funcs: &Vec<(FuncId, Vec<TypevarId>)>) -> (r: Self)
        ensures
            r.wf(),
            r.typevars() == assoc_map(typevars_entries(funcs@)),
            r.callees() == assoc_map(no_calls(funcs@)),
    {
        let mut g = CallGraph { typevar_map: Vec::new(), calls: Vec::new() };
        assert(g.typevars() =~= assoc_map(typevars_entries(funcs@.subrange(0, 0))));
        assert(g.callees() =~= assoc_map(no_calls(funcs@.subrange(0, 0))));
        let mut i: usize = 0;
        while i < funcs.len()
            invariant
                i <= funcs.len(),
                g.wf(),
                g.typevars() == assoc_map(typevars_entries(funcs@.subrange(0, i as int))),
                g.callees() == assoc_map(no_calls(funcs@.subrange(0, i as int))),
            decreases funcs.len() - i,
        {
            let id = funcs[i].0;
            let params = clone_params(&funcs[i].1);
            let ghost pre = funcs@.subrange(0, i as int);
            let ghost post = funcs@.subrange(0, i + 1);
            proof {
                assert(typevars_entries(post) =~= typevars_entries(pre).push((id.0, params_view(params@))));
                assert(typevars_entries(post).drop_last() =~= typevars_entries(pre));
                assert(no_calls(post) =~= no_calls(pre).push((id.0, Seq::empty())));
                assert(no_calls(post).drop_last() =~= no_calls(pre));
            }
            match g.find(&id) {
                Some(j) => {
                    let ghost old_tv = g.typevar_map@;
                    let ghost old_calls = g.calls@;
                    g.typevar_map.set(j, (id, params));
                    let empty: Vec<(FuncId, Vec<GenericType>)> = Vec::new();
                    assert(callees_view(empty@) =~= Seq::empty());
                    g.calls.set(j, (id, empty));
                    proof {
                        lemma_assoc_update(typevars_entries(old_tv), j as int, params_view(params@));
                        assert(typevars_entries(g.typevar_map@) =~= typevars_entries(old_tv).update(
                            j as int,
                            (typevars_entries(old_tv)[j as int].0, params_view(params@)),
                        ));
                        lemma_assoc_update(calls_entries(old_calls), j as int, Seq::empty());
                        assert(calls_entries(g.calls@) =~= calls_entries(old_calls).update(
                            j as int,
                            (calls_entries(old_calls)[j as int].0, Seq::empty()),
                        ));
                        assert(keys_unique(typevars_entries(g.typevar_map@)));
                        assert(keys_unique(calls_entries(g.calls@)));
                        assert(g.typevars() =~= assoc_map(typevars_entries(post)));
                        assert(g.callees() =~= assoc_map(no_calls(post)));
                    }
                },
                None => {
                    let ghost old_tv = g.typevar_map@;
                    let ghost old_calls = g.calls@;
                    g.typevar_map.push((id, params));
                    let empty: Vec<(FuncId, Vec<GenericType>)> = Vec::new();
                    assert(callees_view(empty@) =~= Seq::empty());
                    g.calls.push((id, empty));
                    proof {
                        lemma_assoc_dom(typevars_entries(old_tv), id.0);
                        lemma_assoc_dom(calls_entries(old_calls), id.0);
                        assert(typevars_entries(g.typevar_map@) =~= typevars_entries(old_tv).push((id.0, params_view(params@))));
                        assert(typevars_entries(g.typevar_map@).drop_last() =~= typevars_entries(old_tv));
                        assert(calls_entries(g.calls@) =~= calls_entries(old_calls).push((id.0, Seq::empty())));
                        assert(calls_entries(g.calls@).drop_last() =~= calls_entries(old_calls));
                        assert forall|a: int, b: int|
                            0 <= a < typevars_entries(g.typevar_map@).len() && 0 <= b < typevars_entries(g.typevar_map@).len() && a != b
                            implies typevars_entries(g.typevar_map@)[a].0 != typevars_entries(g.typevar_map@)[b].0 by {
                            if a < old_tv.len() && b < old_tv.len() {
                                assert(typevars_entries(old_tv)[a].0 != typevars_entries(old_tv)[b].0);
                            } else if a < old_tv.len() {
                                assert(typevars_entries(old_tv)[a].0 == typevars_entries(g.typevar_map@)[a].0);
                            } else {
                                assert(typevars_entries(old_tv)[b].0 == typevars_entries(g.typevar_map@)[b].0);
                            }
                        }
                        assert forall|a: int, b: int|
                            0 <= a < calls_entries(g.calls@).len() && 0 <= b < calls_entries(g.calls@).len() && a != b
                            implies calls_entries(g.calls@)[a].0 != calls_entries(g.calls@)[b].0 by {
                            if a < old_calls.len() && b < old_calls.len() {
                                assert(calls_entries(old_calls)[a].0 != calls_entries(old_calls)[b].0);
                            } else if a < old_calls.len() {
                                assert(calls_entries(old_calls)[a].0 == calls_entries(g.calls@)[a].0);
                            } else {
                                assert(calls_entries(old_calls)[b].0 == calls_entries(g.calls@)[b].0);
                            }
                        }
                    }
                },
            }
            i = i + 1;
        }
        assert(funcs@.subrange(0, funcs@.len() as int) =~= funcs@);
        g
    }

    /// Records that `caller` calls `callee.0` with type arguments `callee.1`.
    pub fn add_callee(&mut self, caller: &FuncId, callee: (FuncId, Vec<GenericType>))
        requires
            old(self).wf(),
            old(self).callees().dom().contains(caller.0),
        ensures
            final(self).wf(),
            final(self).typevars() == old(self).typevars(),
            final(self).callees() == old(self).callees().insert(
                caller.0,
                old(self).callees()[caller.0].push((callee.0.0, generic_views(callee.1@))),
            ),
    {
        let j = match self.find(caller) {
            Some(j) => j,
            None => {
                assert(false);
                0
            },
        };
        let ghost old_calls = self.calls@;
        let ghost cv = (callee.0.0, generic_views(callee.1@));
        proof {
            lemma_assoc_index(calls_entries(old_calls), j as int);
        }
        let (id, mut list) = self.calls.remove(j);
        let ghost old_list = list@;
        list.push(callee);
        self.calls.insert(j, (id, list));
        proof {
            assert(self.calls@ =~= old_calls.update(j as int, (id, list)));
            assert(callees_view(list@) =~= callees_view(old_list).push(cv));
            lemma_assoc_update(calls_entries(old_calls), j as int, callees_view(list@));
            assert(calls_entries(self.calls@) =~= calls_entries(old_calls).update(
                j as int,
                (calls_entries(old_calls)[j as int].0, callees_view(list@)),
            ));
            assert(keys_unique(calls_entries(self.calls@)));
        }
    }
}

impl CallGraph {
    /// The function instances that `caller`, instantiated with `type_params`, calls.
    pub fn get_concrete_callees(&self, caller: &FuncId, type_params: &Vec<ConcreteType>) -> (r: Vec<(FuncId, Vec<ConcreteType>)>)
        requires
            self.wf(),
            self.typevars().dom().contains(caller.0),
            self.typevars()[caller.0].len() == type_params@.len(),
            forall|i: int| 0 <= i < self.callees()[caller.0].len() ==>
                mono_types(#[trigger] self.callees()[caller.0][i].1, zip_env(self.typevars()[caller.0], concrete_views(type_params@))) is Ok,
        ensures
            r@.map_values(|p: (FuncId, Vec<ConcreteType>)| (p.0.0, concrete_views(p.1@)))
                == concrete_callees(self.typevars()[caller.0], self.callees()[caller.0], concrete_views(type_params@)),
    {
        proof {
            self.lemma_same_functions();
        }
        let j = match self.find(caller) {
            Some(j) => j,
            None => {
                assert(false);
                0
            },
        };
        proof {
            lemma_assoc_index(typevars_entries(self.typevar_map@), j as int);
            lemma_assoc_index(calls_entries(self.calls@), j as int);
        }
        let bindings = zip_concrete(&self.typevar_map[j].1, type_params);
        let ghost tv = self.typevars()[caller.0];
        let ghost cs = self.callees()[caller.0];
        let ghost env = zip_env(tv, concrete_views(type_params@));
        assert(cbind_view(bindings@) == env);
        let callees = &self.calls[j].1;
        assert(callees_view(callees@) == cs);
        let mut out: Vec<(FuncId, Vec<ConcreteType>)> = Vec::new();
        let mut i: usize = 0;
        while i < callees.len()
            invariant
                i <= callees.len(),
                callees_view(callees@) == cs,
                cbind_view(bindings@) == env,
                forall|k: int| 0 <= k < cs.len() ==> mono_types(#[trigger] cs[k].1, env) is Ok,
                out@.len() == i,
                forall|k: int| 0 <= k < i ==> (#[trigger] out@[k]).0.0 == cs[k].0
                    && concrete_views(out@[k].1@) == mono_types(cs[k].1, env)->Ok_0,
            decreases callees.len() - i,
        {
            assert(cs[i as int] == (callees@[i as int].0.0, generic_views(callees@[i as int].1@)));
            assert(mono_types(cs[i as int].1, env) is Ok);
            let tps = match monomorphize_all(&callees[i].1, &bindings) {
                Ok(t) => t,
                Err(_) => {
                    assert(false);
                    Vec::new()
                },
            };
            out.push((callees[i].0, tps));
            i = i + 1;
        }
        assert(out@.map_values(|p: (FuncId, Vec<ConcreteType>)| (p.0.0, concrete_views(p.1@))) =~= concrete_callees(tv, cs, concrete_views(type_params@)));
        out
    }
}

// ---------------------------------------------------------------------------------------------
// The function instances a program needs.

/// A function instance: a function and the concrete types of its type variables.
pub open spec fn inst_view(x: (FuncId, Vec<ConcreteType>)) -> (usize, Seq<CType>) {
    (x.0.0, concrete_views(x.1@))
}

pub open spec fn insts_view(s: Seq<(FuncId, Vec<ConcreteType>)>) -> Seq<(usize, Seq<CType>)> {
    s.map_values(|x: (FuncId, Vec<ConcreteType>)| inst_view(x))
}

/// The instances that instance `x` calls.
pub open spec fn instance_children(g: CallGraph, x: (usize, Seq<CType>)) -> Seq<(usize, Seq<CType>)> {
    concrete_callees(g.typevars()[x.0], g.callees()[x.0], x.1)
}

/// The function of `x` is in the graph, `x` gives each of its type variables a type, and the
/// type arguments of its calls can be instantiated.
pub open spec fn instance_ok(g: CallGraph, x: (usize, Seq<CType>)) -> bool {
    &&& g.typevars().dom().contains(x.0)
    &&& g.typevars()[x.0].len() == x.1.len()
    &&& forall|i: int| 0 <= i < g.callees()[x.0].len() ==>
        mono_types(#[trigger] g.callees()[x.0][i].1, zip_env(g.typevars()[x.0], x.1)) is Ok
}

/// A set of well-formed instances that holds every instance called by one of its members.
pub open spec fn closed_set(g: CallGraph, s: Set<(usize, Seq<CType>)>) -> bool {
    forall|x: (usize, Seq<CType>)| #[trigger] s.contains(x) ==> {
        &&& instance_ok(g, x)
        &&& forall|i: int| 0 <= i < instance_children(g, x).len() ==> s.contains(#[trigger] instance_children(g, x)[i])
    }
}

/// `x` is in every closed set that holds `root`: the instances that running `root` may call.
pub open spec fn reachable(g: CallGraph, root: (usize, Seq<CType>), x: (usize, Seq<CType>)) -> bool {
    forall|s: Set<(usize, Seq<CType>)>| closed_set(g, s) && s.contains(root) ==> #[trigger] s.contains(x)
}

/// Every user type named in the type arguments is defined and gets enough type arguments.
pub open spec fn types_concrete_ok(t: TableV, cs: Seq<CType>) -> bool {
    forall|i: int| 0 <= i < cs.len() ==> concrete_ok(t, #[trigger] cs[i])
}

/// Every instance the entry reaches is well formed: its function is in the graph with one type
/// argument per type variable, the type arguments of its calls instantiate, and its own type
/// arguments name only defined structs.
pub open spec fn instances_well_formed(g: CallGraph, t: TableV, root: (usize, Seq<CType>)) -> bool {
    forall|x: (usize, Seq<CType>)| #[trigger] reachable(g, root, x) ==> instance_ok(g, x) && types_concrete_ok(t, x.1)
}

/// A finite closed set of instances holds the entry: the set of instances the program needs is
/// finite.
pub open spec fn finitely_instantiable(g: CallGraph, t: TableV, root: (usize, Seq<CType>)) -> bool {
    exists|s: Set<(usize, Seq<CType>)>| {
        &&& s.finite()
        &&& closed_set(g, s)
        &&& #[trigger] s.contains(root)
    }
}

/// Decides whether two instances are the same.
pub fn instance_eq(a: &(FuncId, Vec<ConcreteType>), b: &(FuncId, Vec<ConcreteType>)) -> (r: bool)
    ensures
        r == (inst_view(*a) == inst_view(*b)),
{
    proof {
        lemma_concrete_views(a.1@);
        lemma_concrete_views(b.1@);
    }
    if a.0 != b.0 || a.1.len() != b.1.len() {
        return false;
    }
    let mut i: usize = 0;
    while i < a.1.len()
        invariant
            a.1@.len() == b.1@.len(),
            i <= a.1.len(),
            forall|j: int| 0 <= j < i ==> a.1@[j]@ == b.1@[j]@,
        decreases a.1.len() - i,
    {
        if !crate::shared::typing::concrete_eq(&a.1[i], &b.1[i]) {
            proof {
                lemma_concrete_views(a.1@);
                lemma_concrete_views(b.1@);
                assert(concrete_views(a.1@)[i as int] != concrete_views(b.1@)[i as int]);
            }
            return false;
        }
        i = i + 1;
    }
    proof {
        lemma_concrete_views(a.1@);
        lemma_concrete_views(b.1@);
        assert(concrete_views(a.1@) =~= concrete_views(b.1@));
    }
    true
}

fn contains_instance(s: &Vec<(FuncId, Vec<ConcreteType>)>, x: &(FuncId, Vec<ConcreteType>)) -> (r: bool)
    ensures
        r == insts_view(s@).contains(inst_view(*x)),
{
    let mut i: usize = 0;
    while i < s.len()
        invariant
            i <= s.len(),
            forall|j: int| 0 <= j < i ==> inst_view(s@[j]) != inst_view(*x),
        decreases s.len() - i,
    {
        if instance_eq(&s[i], x) {
            assert(insts_view(s@)[i as int] == inst_view(*x));
            return true;
        }
        i = i + 1;
    }
    proof {
        if insts_view(s@).contains(inst_view(*x)) {
            let j = choose|j: int| 0 <= j < insts_view(s@).len() && insts_view(s@)[j] == inst_view(*x);
            assert(inst_view(s@[j]) != inst_view(*x));
        }
    }
    false
}

pub fn clone_instance(x: &(FuncId, Vec<ConcreteType>)) -> (r: (FuncId, Vec<ConcreteType>))
    ensures
        inst_view(r) == inst_view(*x),
{
    (x.0, crate::shared::tables::clone_concrete_vec(&x.1))
}

/// Whether `types1` is at least as generic as `types2` everywhere and more generic somewhere;
/// `None` where a rank met on the way does not fit below `usize::MAX`.
fn dominates_typeslice(typetable: &GenericTypetable, types1: &Vec<ConcreteType>, types2: &Vec<ConcreteType>) -> (r: Option<bool>)
    requires
        table_wf(typetable@),
        types1@.len() == types2@.len(),
        types_concrete_ok(typetable@, concrete_views(types1@)),
        types_concrete_ok(typetable@, concrete_views(types2@)),
    ensures
        match r {
            Some(b) => b == ((forall|i: int| 0 <= i < types1@.len() ==> rank_c(typetable@, #[trigger] types1@[i]@) >= rank_c(typetable@, types2@[i]@))
                && exists|i: int| 0 <= i < types1@.len() && rank_c(typetable@, #[trigger] types1@[i]@) > rank_c(typetable@, types2@[i]@)),
            None => exists|i: int| 0 <= i < types1@.len() && (rank_c(typetable@, #[trigger] types1@[i]@) >= usize::MAX
                || rank_c(typetable@, types2@[i]@) >= usize::MAX),
        },
{
    proof {
        lemma_concrete_views(types1@);
        lemma_concrete_views(types2@);
    }
    let ghost t = typetable@;
    let mut strict_impr = false;
    let mut i: usize = 0;
    while i < types1.len()
        invariant
            i <= types1.len(),
            types1@.len() == types2@.len(),
            table_wf(t),
            t == typetable@,
            types_concrete_ok(t, concrete_views(types1@)),
            types_concrete_ok(t, concrete_views(types2@)),
            concrete_views(types1@).len() == types1@.len(),
            concrete_views(types2@).len() == types2@.len(),
            forall|j: int| 0 <= j < types1@.len() ==> concrete_views(types1@)[j] == types1@[j]@,
            forall|j: int| 0 <= j < types2@.len() ==> concrete_views(types2@)[j] == types2@[j]@,
            forall|j: int| 0 <= j < i ==> rank_c(t, #[trigger] types1@[j]@) >= rank_c(t, types2@[j]@),
            strict_impr == exists|j: int| 0 <= j < i && rank_c(t, #[trigger] types1@[j]@) > rank_c(t, types2@[j]@),
        decreases types1.len() - i,
    {
        assert(concrete_views(types1@)[i as int] == types1@[i as int]@);
        assert(concrete_views(types2@)[i as int] == types2@[i as int]@);
        assert(concrete_ok(t, concrete_views(types1@)[i as int]));
        assert(concrete_ok(t, concrete_views(types2@)[i as int]));
        let rank1 = match typetable.try_genericity_rank(&types1[i]) {
            Some(n) => n,
            None => return None,
        };
        let rank2 = match typetable.try_genericity_rank(&types2[i]) {
            Some(n) => n,
            None => return None,
        };
        if rank2 > rank1 {
            return Some(false);
        }
        strict_impr = strict_impr || rank2 < rank1;
        i = i + 1;
    }
    Some(strict_impr)
}

/// An instance being processed, with the instances it calls that are still to be visited.
#[derive(Debug)]
struct MonoNode {
    func: FuncId,
    type_params: Vec<ConcreteType>,
    callees: Vec<(FuncId, Vec<ConcreteType>)>,
}

spec fn node_inst(n: MonoNode) -> (usize, Seq<CType>) {
    (n.func.0, concrete_views(n.type_params@))
}

/// The instance is waiting on the stack: as a node, or as a callee still to be visited.
spec fn pending(st: Seq<MonoNode>, x: (usize, Seq<CType>)) -> bool {
    exists|k: int| 0 <= k < st.len() && (node_inst(#[trigger] st[k]) == x || insts_view(st[k].callees@).contains(x))
}

/// The steps left on the stack: one per node, one per callee to visit.
spec fn stack_work(st: Seq<MonoNode>) -> nat
    decreases st.len(),
{
    if st.len() == 0 {
        0
    } else {
        stack_work(st.drop_last()) + st.last().callees@.len() + 1
    }
}

proof fn lemma_reachable_child(g: CallGraph, root: (usize, Seq<CType>), x: (usize, Seq<CType>), i: int)
    requires
        reachable(g, root, x),
        0 <= i < instance_children(g, x).len(),
    ensures
        reachable(g, root, instance_children(g, x)[i]),
{
    assert forall|s: Set<(usize, Seq<CType>)>| closed_set(g, s) && s.contains(root) implies #[trigger] s.contains(instance_children(g, x)[i]) by {
        assert(s.contains(x));
    }
}

proof fn lemma_reachable_in(g: CallGraph, root: (usize, Seq<CType>), x: (usize, Seq<CType>), s: Set<(usize, Seq<CType>)>)
    requires
        reachable(g, root, x),
        closed_set(g, s),
        s.contains(root),
    ensures
        s.contains(x),
{
}

pub proof fn lemma_reachable_refl(g: CallGraph, x: (usize, Seq<CType>))
    ensures
        reachable(g, x, x),
{
}

/// What `b` reaches, whatever reaches `b` reaches too.
pub proof fn lemma_reachable_trans(g: CallGraph, a: (usize, Seq<CType>), b: (usize, Seq<CType>), c: (usize, Seq<CType>))
    requires
        reachable(g, a, b),
        reachable(g, b, c),
    ensures
        reachable(g, a, c),
{
    assert forall|s: Set<(usize, Seq<CType>)>| closed_set(g, s) && s.contains(a) implies #[trigger] s.contains(c) by {
        assert(s.contains(b));
    }
}

/// The genericity ranks of `a` are all at least those of `b`, and one is greater.
pub open spec fn ranks_dominate(t: TableV, a: Seq<CType>, b: Seq<CType>) -> bool {
    &&& a.len() == b.len()
    &&& forall|i: int| 0 <= i < a.len() ==> rank_c(t, #[trigger] a[i]) >= rank_c(t, b[i])
    &&& exists|i: int| 0 <= i < a.len() && rank_c(t, #[trigger] a[i]) > rank_c(t, b[i])
}

/// An instance reachable from `root` goes on to reach an instance of its own function whose type
/// arguments are all at least as generic, and one more so.
pub open spec fn growing_recursion(g: CallGraph, t: TableV, root: (usize, Seq<CType>)) -> bool {
    exists|a: (usize, Seq<CType>), b: (usize, Seq<CType>)|
        #[trigger] reachable(g, root, a) && #[trigger] reachable(g, a, b) && a.0 == b.0 && ranks_dominate(t, b.1, a.1)
}

/// The nodes of the stack lie on one path of calls, and each reaches the callees it has left.
spec fn stack_path(g: CallGraph, st: Seq<MonoNode>) -> bool {
    &&& forall|k1: int, k2: int| 0 <= k1 < k2 < st.len() ==> reachable(g, node_inst(#[trigger] st[k1]), node_inst(#[trigger] st[k2]))
    &&& forall|k: int, j: int| 0 <= k < st.len() && 0 <= j < st[k].callees@.len() ==> reachable(g, node_inst(st[k]), inst_view(#[trigger] st[k].callees@[j]))
}

/// Every node of the stack reaches `x`.
spec fn stack_reaches(g: CallGraph, st: Seq<MonoNode>, x: (usize, Seq<CType>)) -> bool {
    forall|k: int| 0 <= k < st.len() ==> reachable(g, node_inst(#[trigger] st[k]), x)
}

/// Taking the last callee off the top node.
proof fn lemma_take_callee(g: CallGraph, st0: Seq<MonoNode>, tip: MonoNode, c: (FuncId, Vec<ConcreteType>))
    requires
        stack_path(g, st0),
        st0.len() > 0,
        st0.last().callees@.len() > 0,
        node_inst(tip) == node_inst(st0.last()),
        tip.callees@ == st0.last().callees@.drop_last(),
        c == st0.last().callees@.last(),
    ensures
        stack_path(g, st0.drop_last().push(tip)),
        stack_reaches(g, st0.drop_last().push(tip), inst_view(c)),
{
    let st = st0.drop_last().push(tip);
    let l = st0.len() - 1;
    assert forall|k: int| 0 <= k < st.len() implies node_inst(#[trigger] st[k]) == node_inst(st0[k]) by {}
    assert(reachable(g, node_inst(st0[l]), inst_view(st0[l].callees@[st0[l].callees@.len() - 1])));
    assert forall|k: int| 0 <= k < st.len() implies reachable(g, node_inst(#[trigger] st[k]), inst_view(c)) by {
        if k < l {
            assert(reachable(g, node_inst(st0[k]), node_inst(st0[l])));
            lemma_reachable_trans(g, node_inst(st0[k]), node_inst(st0[l]), inst_view(c));
        }
    }
    assert forall|k1: int, k2: int| 0 <= k1 < k2 < st.len() implies reachable(g, node_inst(#[trigger] st[k1]), node_inst(#[trigger] st[k2])) by {
        assert(reachable(g, node_inst(st0[k1]), node_inst(st0[k2])));
    }
    assert forall|k: int, j: int| 0 <= k < st.len() && 0 <= j < st[k].callees@.len() implies reachable(g, node_inst(st[k]), inst_view(#[trigger] st[k].callees@[j])) by {
        if k < l {
            assert(st[k] == st0[k]);
        } else {
            assert(st[k].callees@[j] == st0[l].callees@[j]);
        }
    }
}

/// Taking the top node off.
proof fn lemma_take_node(g: CallGraph, st0: Seq<MonoNode>)
    requires
        stack_path(g, st0),
        st0.len() > 0,
    ensures
        stack_path(g, st0.drop_last()),
        stack_reaches(g, st0.drop_last(), node_inst(st0.last())),
{
    let st = st0.drop_last();
    assert forall|k: int| 0 <= k < st.len() implies reachable(g, node_inst(#[trigger] st[k]), node_inst(st0.last())) by {
        assert(st[k] == st0[k]);
        assert(reachable(g, node_inst(st0[k]), node_inst(st0[st0.len() - 1])));
    }
    assert forall|k1: int, k2: int| 0 <= k1 < k2 < st.len() implies reachable(g, node_inst(#[trigger] st[k1]), node_inst(#[trigger] st[k2])) by {
        assert(st[k1] == st0[k1] && st[k2] == st0[k2]);
    }
    assert forall|k: int, j: int| 0 <= k < st.len() && 0 <= j < st[k].callees@.len() implies reachable(g, node_inst(st[k]), inst_view(#[trigger] st[k].callees@[j])) by {
        assert(st[k] == st0[k]);
    }
}

/// Pushing a node that every node reaches and that reaches its callees.
proof fn lemma_push_node(g: CallGraph, st: Seq<MonoNode>, n: MonoNode)
    requires
        stack_path(g, st),
        stack_reaches(g, st, node_inst(n)),
        forall|j: int| 0 <= j < n.callees@.len() ==> reachable(g, node_inst(n), inst_view(#[trigger] n.callees@[j])),
    ensures
        stack_path(g, st.push(n)),
{
    let st1 = st.push(n);
    assert forall|k1: int, k2: int| 0 <= k1 < k2 < st1.len() implies reachable(g, node_inst(#[trigger] st1[k1]), node_inst(#[trigger] st1[k2])) by {
        assert(st1[k1] == st[k1]);
        if k2 < st.len() {
            assert(st1[k2] == st[k2]);
        } else {
            assert(st1[k2] == n);
        }
    }
    assert forall|k: int, j: int| 0 <= k < st1.len() && 0 <= j < st1[k].callees@.len() implies reachable(g, node_inst(st1[k]), inst_view(#[trigger] st1[k].callees@[j])) by {
        if k < st.len() {
            assert(st1[k] == st[k]);
        } else {
            assert(st1[k] == n);
        }
    }
}

/// A list without duplicates that extends `a` with members of `b` only is at most `b.len()`
/// longer than `a`.
proof fn lemma_new_items_bound(a: Seq<(usize, Seq<CType>)>, c: Seq<(usize, Seq<CType>)>, b: Seq<(usize, Seq<CType>)>)
    requires
        a.is_prefix_of(c),
        c.no_duplicates(),
        forall|x: (usize, Seq<CType>)| #[trigger] c.contains(x) ==> a.contains(x) || b.contains(x),
    ensures
        c.len() <= a.len() + b.len(),
{
    let extra = c.subrange(a.len() as int, c.len() as int);
    assert(extra.no_duplicates()) by {
        assert forall|i: int, j: int| 0 <= i < extra.len() && 0 <= j < extra.len() && i != j implies extra[i] != extra[j] by {
            assert(extra[i] == c[i + a.len()] && extra[j] == c[j + a.len()]);
        }
    }
    extra.unique_seq_to_set();
    b.lemma_cardinality_of_set();
    vstd::seq_lib::seq_to_set_is_finite(b);
    assert(extra.to_set().subset_of(b.to_set())) by {
        assert forall|x| extra.to_set().contains(x) implies b.to_set().contains(x) by {
            let i = choose|i: int| 0 <= i < extra.len() && extra[i] == x;
            assert(c[i + a.len()] == x);
            assert(c.contains(x));
            if a.contains(x) {
                let k = choose|k: int| 0 <= k < a.len() && a[k] == x;
                assert(c[k] == a[k]);
                assert(c[k] == c[i + a.len()]);
            }
        }
    }
    vstd::set_lib::lemma_len_subset(extra.to_set(), b.to_set());
}

/// A needed instance has a type argument whose genericity rank does not fit below `usize::MAX`.
pub open spec fn rank_overflow(g: CallGraph, t: TableV, root: (usize, Seq<CType>)) -> bool {
    exists|x: (usize, Seq<CType>), i: int| #[trigger] reachable(g, root, x) && 0 <= i < x.1.len() && rank_c(t, #[trigger] x.1[i]) >= usize::MAX
}

/// More instances are needed than a `usize` counts: distinct needed instances, together with the
/// calls of one more needed instance, number at least `usize::MAX`.
pub open spec fn too_many_instances(g: CallGraph, root: (usize, Seq<CType>)) -> bool {
    exists|l: Seq<(usize, Seq<CType>)>, c: (usize, Seq<CType>)|
        #![trigger l.no_duplicates(), reachable(g, root, c)]
        l.no_duplicates() && (forall|i: int| 0 <= i < l.len() ==> reachable(g, root, #[trigger] l[i]))
        && reachable(g, root, c) && l.len() + instance_children(g, c).len() >= usize::MAX
}

/// All instances the program needs, starting from its entry function: every instance reachable
/// through calls. Fails with `MonomorphizationCycle` where an instance (transitively) calls the
/// same function again with type arguments that are all at least as generic and one of them more
/// so; with `TooLarge` where a rank or the number of instances does not fit a `usize`. Where the
/// needed instances are not finitely many, it fails.
pub fn get_monomorphizations(call_graph: &CallGraph, typetable: &GenericTypetable, entry: &FuncId) -> (r: Result<Vec<(FuncId, Vec<ConcreteType>)>, CompileError>)
    requires
        call_graph.wf(),
        table_wf(typetable@),
        instances_well_formed(*call_graph, typetable@, (entry.0, Seq::<CType>::empty())),
    ensures
        r is Ok ==> insts_view(r->Ok_0@).no_duplicates(),
        r is Ok ==> forall|x: (usize, Seq<CType>)|
            #[trigger] insts_view(r->Ok_0@).contains(x) <==> reachable(*call_graph, (entry.0, Seq::<CType>::empty()), x),
        r is Ok ==> finitely_instantiable(*call_graph, typetable@, (entry.0, Seq::<CType>::empty())),
        !finitely_instantiable(*call_graph, typetable@, (entry.0, Seq::<CType>::empty())) ==> r is Err,
        r is Err ==> {
            let root = (entry.0, Seq::<CType>::empty());
            ||| r->Err_0 is MonomorphizationCycle && growing_recursion(*call_graph, typetable@, root)
            ||| r->Err_0 is TooLarge && (rank_overflow(*call_graph, typetable@, root) || too_many_instances(*call_graph, root))
        },
{
    let ghost g = *call_graph;
    let ghost t = typetable@;
    let ghost root = (entry.0, Seq::<CType>::empty());
    proof {
        lemma_concrete_views(Seq::<ConcreteType>::empty());
        assert(concrete_views(Seq::<ConcreteType>::empty()) =~= Seq::<CType>::empty());
    }
    let no_params: Vec<ConcreteType> = Vec::new();
    assert(reachable(g, root, root));
    assert(instance_ok(g, root));
    let first = call_graph.get_concrete_callees(entry, &no_params);
    let mut required: Vec<(FuncId, Vec<ConcreteType>)> = Vec::new();
    required.push((*entry, Vec::new()));
    let mut mono_stack: Vec<MonoNode> = Vec::new();
    mono_stack.push(MonoNode { func: *entry, type_params: Vec::new(), callees: first });
    proof {
        assert(insts_view(required@) =~= seq![root]);
        assert(insts_view(required@)[0] == root);
        assert(reachable(g, root, root));
        assert forall|k: int, j: int| 0 <= k < mono_stack@.len() && 0 <= j < mono_stack@[k].callees@.len() implies
            reachable(g, root, inst_view(#[trigger] mono_stack@[k].callees@[j])) by {
            assert(inst_view(mono_stack@[k].callees@[j]) == instance_children(g, root)[j]);
            lemma_reachable_child(g, root, root, j);
        }
        assert(insts_view(first@) == instance_children(g, root));
        assert(node_inst(mono_stack@[0]) == root);
        assert forall|x: (usize, Seq<CType>)| insts_view(required@).contains(x) implies
            (forall|i: int| 0 <= i < instance_children(g, x).len() ==> insts_view(required@).contains(#[trigger] instance_children(g, x)[i]))
            || pending(mono_stack@, x) by {
            assert(x == root);
            assert(node_inst(mono_stack@[0]) == x);
        }
        assert(stack_work(mono_stack@.drop_last()) == 0);
    }
    while mono_stack.len() > 0
        invariant
            g == *call_graph,
            t == typetable@,
            call_graph.wf(),
            table_wf(t),
            instances_well_formed(g, t, root),
            insts_view(required@).len() < usize::MAX,
            insts_view(required@).no_duplicates(),
            insts_view(required@).contains(root),
            forall|x: (usize, Seq<CType>)| #[trigger] insts_view(required@).contains(x) ==> reachable(g, root, x),
            forall|k: int| 0 <= k < mono_stack@.len() ==> reachable(g, root, node_inst(#[trigger] mono_stack@[k])),
            forall|k: int, j: int| 0 <= k < mono_stack@.len() && 0 <= j < mono_stack@[k].callees@.len() ==>
                reachable(g, root, inst_view(#[trigger] mono_stack@[k].callees@[j])),
            stack_path(g, mono_stack@),
            root == (entry.0, Seq::<CType>::empty()),
            forall|x: (usize, Seq<CType>)| #[trigger] insts_view(required@).contains(x) ==>
                (forall|i: int| 0 <= i < instance_children(g, x).len() ==> insts_view(required@).contains(#[trigger] instance_children(g, x)[i]))
                || pending(mono_stack@, x),
        decreases usize::MAX - insts_view(required@).len(), stack_work(mono_stack@),
    {
        let ghost st0 = mono_stack@;
        let ghost rq0 = insts_view(required@);
        let mut tip = mono_stack.pop().unwrap();
        let ghost tip0 = tip;
        let (curr_id, curr_tparams) = match tip.callees.pop() {
            Some(c) => {
                proof {
                    lemma_take_callee(g, st0, tip, c);
                }
                mono_stack.push(tip);
                proof {
                    assert(mono_stack@ =~= st0.drop_last().push(tip));
                    assert(mono_stack@.drop_last() =~= st0.drop_last());
                    assert(insts_view(tip0.callees@).drop_last() =~= insts_view(tip.callees@));
                    assert(inst_view(c) == insts_view(tip0.callees@).last());
                }
                c
            },
            None => {
                proof {
                    assert(mono_stack@ =~= st0.drop_last());
                    lemma_take_node(g, st0);
                }
                (tip.func, tip.type_params)
            },
        };
        let ghost curr = (curr_id.0, concrete_views(curr_tparams@));
        let ghost st_mid = mono_stack@;
        assert(stack_path(g, st_mid) && stack_reaches(g, st_mid, curr));
        proof {
            // What was taken off the stack is `curr`; everything else waiting still waits.
            assert(stack_work(st_mid) + 1 == stack_work(st0));
            assert forall|x: (usize, Seq<CType>)| pending(st0, x) && x != curr implies pending(st_mid, x) by {
                let k = choose|k: int| 0 <= k < st0.len() && (node_inst(#[trigger] st0[k]) == x || insts_view(st0[k].callees@).contains(x));
                if k < st0.len() - 1 {
                    assert(st_mid[k] == st0[k]);
                } else if st_mid.len() == st0.len() {
                    assert(node_inst(st_mid[k]) == node_inst(st0[k]));
                    if insts_view(st0[k].callees@).contains(x) && node_inst(st0[k]) != x {
                        let j = choose|j: int| 0 <= j < insts_view(st0[k].callees@).len() && insts_view(st0[k].callees@)[j] == x;
                        assert(j < insts_view(st0[k].callees@).len() - 1);
                        assert(insts_view(st_mid[k].callees@)[j] == x);
                    }
                } else {
                    assert(node_inst(st0[k]) == curr);
                    assert(insts_view(st0[k].callees@).len() == 0);
                }
            }
            assert forall|k: int| 0 <= k < st_mid.len() implies reachable(g, root, node_inst(#[trigger] st_mid[k])) by {
                assert(node_inst(st_mid[k]) == node_inst(st0[k]));
            }
            assert forall|k: int, j: int| 0 <= k < st_mid.len() && 0 <= j < st_mid[k].callees@.len() implies
                reachable(g, root, inst_view(#[trigger] st_mid[k].callees@[j])) by {
                if k < st0.len() - 1 {
                    assert(st_mid[k] == st0[k]);
                } else {
                    assert(st_mid[k].callees@[j] == st0[k].callees@[j]);
                }
            }
            if st_mid.len() == st0.len() {
                let l = st0.len() - 1;
                assert(insts_view(st0[l].callees@)[st0[l].callees@.len() - 1] == curr);
                assert(reachable(g, root, inst_view(st0[l].callees@[st0[l].callees@.len() - 1])));
            } else {
                assert(node_inst(st0[st0.len() - 1]) == curr);
            }
        }
        assert(reachable(g, root, curr));
        proof {
            lemma_concrete_views(curr_tparams@);
        }
        let child_monos = call_graph.get_concrete_callees(&curr_id, &curr_tparams);
        assert(insts_view(child_monos@) == instance_children(g, curr));
        // An instance that calls its own function with more generic arguments never ends.
        let mut c: usize = 0;
        while c < child_monos.len()
            invariant
                c <= child_monos.len(),
                table_wf(t),
                t == typetable@,
                instances_well_formed(g, t, root),
                insts_view(child_monos@) == instance_children(g, curr),
                reachable(g, root, curr),
                forall|k: int| 0 <= k < mono_stack@.len() ==> reachable(g, root, node_inst(#[trigger] mono_stack@[k])),
                stack_reaches(g, mono_stack@, curr),
                g == *call_graph,
                root == (entry.0, Seq::<CType>::empty()),
            decreases child_monos.len() - c,
        {
            let mut k: usize = 0;
            while k < mono_stack.len()
                invariant
                    k <= mono_stack.len(),
                    c < child_monos.len(),
                    table_wf(t),
                    t == typetable@,
                    instances_well_formed(g, t, root),
                    insts_view(child_monos@) == instance_children(g, curr),
                    reachable(g, root, curr),
                    forall|k: int| 0 <= k < mono_stack@.len() ==> reachable(g, root, node_inst(#[trigger] mono_stack@[k])),
                    stack_reaches(g, mono_stack@, curr),
                    g == *call_graph,
                    root == (entry.0, Seq::<CType>::empty()),
                decreases mono_stack.len() - k,
            {
                if mono_stack[k].func == child_monos[c].0 {
                    let ghost child = inst_view(child_monos@[c as int]);
                    let ghost node = node_inst(mono_stack@[k as int]);
                    proof {
                        assert(child == instance_children(g, curr)[c as int]);
                        lemma_reachable_child(g, root, curr, c as int);
                        assert(reachable(g, root, child));
                        assert(reachable(g, root, node));
                        lemma_concrete_views(child_monos@[c as int].1@);
                        lemma_concrete_views(mono_stack@[k as int].type_params@);
                        assert(concrete_views(child_monos@[c as int].1@) == child.1);
                        assert(concrete_views(mono_stack@[k as int].type_params@) == node.1);
                    }
                    let dominates = match dominates_typeslice(typetable, &child_monos[c].1, &mono_stack[k].type_params) {
                        Some(b) => b,
                        None => {
                            proof {
                                let i = choose|i: int| 0 <= i < child_monos@[c as int].1@.len()
                                    && (rank_c(t, #[trigger] child_monos@[c as int].1@[i]@) >= usize::MAX
                                    || rank_c(t, mono_stack@[k as int].type_params@[i]@) >= usize::MAX);
                                assert(child.1[i] == child_monos@[c as int].1@[i]@);
                                assert(node.1[i] == mono_stack@[k as int].type_params@[i]@);
                                if rank_c(t, child.1[i]) >= usize::MAX {
                                    assert(rank_overflow(g, t, root));
                                } else {
                                    assert(rank_overflow(g, t, root));
                                }
                            }
                            return Err(CompileError::TooLarge);
                        },
                    };
                    if dominates {
                        proof {
                            lemma_reachable_refl(g, curr);
                            lemma_reachable_child(g, curr, curr, c as int);
                            assert(reachable(g, node, curr));
                            lemma_reachable_trans(g, node, curr, child);
                            let i = choose|i: int| 0 <= i < child_monos@[c as int].1@.len()
                                && rank_c(t, #[trigger] child_monos@[c as int].1@[i]@) > rank_c(t, mono_stack@[k as int].type_params@[i]@);
                            assert(rank_c(t, child.1[i]) > rank_c(t, node.1[i]));
                            assert forall|m: int| 0 <= m < child.1.len() implies rank_c(t, #[trigger] child.1[m]) >= rank_c(t, node.1[m]) by {
                                assert(child.1[m] == child_monos@[c as int].1@[m]@);
                                assert(node.1[m] == mono_stack@[k as int].type_params@[m]@);
                                assert(rank_c(t, child_monos@[c as int].1@[m]@) >= rank_c(t, mono_stack@[k as int].type_params@[m]@));
                            }
                            assert(ranks_dominate(t, child.1, node.1));
                            assert(reachable(g, root, node));
                        }
                        return Err(CompileError::MonomorphizationCycle);
                    }
                }
                k = k + 1;
            }
            c = c + 1;
        }
        // Are all the callees known already?
        let mut all_known = true;
        let mut c: usize = 0;
        while c < child_monos.len()
            invariant
                c <= child_monos.len(),
                all_known == forall|j: int| 0 <= j < c ==> insts_view(required@).contains(#[trigger] insts_view(child_monos@)[j]),
            decreases child_monos.len() - c,
        {
            assert(insts_view(child_monos@)[c as int] == inst_view(child_monos@[c as int]));
            if !contains_instance(&required, &child_monos[c]) {
                all_known = false;
            }
            c = c + 1;
        }
        if all_known {
            proof {
                assert forall|x: (usize, Seq<CType>)| #[trigger] insts_view(required@).contains(x) implies
                    (forall|i: int| 0 <= i < instance_children(g, x).len() ==> insts_view(required@).contains(#[trigger] instance_children(g, x)[i]))
                    || pending(mono_stack@, x) by {
                    if x == curr {
                        assert forall|i: int| 0 <= i < instance_children(g, x).len() implies insts_view(required@).contains(#[trigger] instance_children(g, x)[i]) by {
                            assert(instance_children(g, x)[i] == insts_view(child_monos@)[i]);
                        }
                    }
                }
            }
            continue;
        }
        if child_monos.len() >= usize::MAX - required.len() {
            proof {
                let l = insts_view(required@);
                assert(forall|i: int| 0 <= i < l.len() ==> reachable(g, root, #[trigger] l[i])) by {
                    assert forall|i: int| 0 <= i < l.len() implies reachable(g, root, #[trigger] l[i]) by {
                        assert(l.contains(l[i]));
                    }
                }
                assert(l.len() + instance_children(g, curr).len() >= usize::MAX);
                assert(l.no_duplicates());
                assert(reachable(g, root, curr));
                assert(too_many_instances(g, root));
            }
            return Err(CompileError::TooLarge);
        }
        let ghost rq_before = insts_view(required@);
        let callees = clone_instances(&child_monos);
        mono_stack.push(MonoNode { func: curr_id, type_params: curr_tparams, callees });
        proof {
            let n = mono_stack@.last();
            assert(mono_stack@ =~= st_mid.push(n));
            lemma_reachable_refl(g, curr);
            assert forall|j: int| 0 <= j < n.callees@.len() implies reachable(g, node_inst(n), inst_view(#[trigger] n.callees@[j])) by {
                assert(inst_view(n.callees@[j]) == insts_view(n.callees@)[j]);
                assert(insts_view(n.callees@)[j] == instance_children(g, curr)[j]);
                lemma_reachable_child(g, curr, curr, j);
            }
            lemma_push_node(g, st_mid, n);
            assert(mono_stack@.drop_last() =~= st_mid);
            assert(node_inst(mono_stack@.last()) == curr);
            assert forall|x: (usize, Seq<CType>)| pending(st_mid, x) implies pending(mono_stack@, x) by {
                let k = choose|k: int| 0 <= k < st_mid.len() && (node_inst(#[trigger] st_mid[k]) == x || insts_view(st_mid[k].callees@).contains(x));
                assert(mono_stack@[k] == st_mid[k]);
            }
            assert(pending(mono_stack@, curr)) by {
                assert(node_inst(mono_stack@[mono_stack@.len() - 1]) == curr);
            }
        }
        let ghost st1 = mono_stack@;
        let mut c: usize = 0;
        let mut added = false;
        while c < child_monos.len()
            invariant
                c <= child_monos.len(),
                st1 == mono_stack@,
                insts_view(child_monos@) == instance_children(g, curr),
                insts_view(st1.last().callees@) == insts_view(child_monos@),
                st1.len() > 0,
                reachable(g, root, curr),
                insts_view(required@).no_duplicates(),
                rq_before.is_prefix_of(insts_view(required@)),
                added ==> insts_view(required@).len() > rq_before.len(),
                !added ==> insts_view(required@) == rq_before,
                forall|j: int| 0 <= j < c ==> insts_view(required@).contains(#[trigger] insts_view(child_monos@)[j]),
                exists|j: int| 0 <= j < child_monos@.len() && !rq_before.contains(#[trigger] insts_view(child_monos@)[j]),
                (exists|j: int| 0 <= j < c && !rq_before.contains(#[trigger] insts_view(child_monos@)[j])) ==> added,
                forall|x: (usize, Seq<CType>)| #[trigger] insts_view(required@).contains(x) ==>
                    rq_before.contains(x) || insts_view(child_monos@).contains(x),
            decreases child_monos.len() - c,
        {
            let ghost before = insts_view(required@);
            if !contains_instance(&required, &child_monos[c]) {
                required.push(clone_instance(&child_monos[c]));
                proof {
                    assert(insts_view(required@) =~= before.push(insts_view(child_monos@)[c as int]));
                    assert forall|a: int, b: int| 0 <= a < b < insts_view(required@).len() implies
                        insts_view(required@)[a] != insts_view(required@)[b] by {
                        if b == insts_view(required@).len() - 1 {
                            assert(before[a] == insts_view(required@)[a]);
                        } else {
                            assert(before[a] != before[b]);
                        }
                    }
                    assert forall|j: int| 0 <= j < rq_before.len() implies rq_before[j] == insts_view(required@)[j] by {
                        assert(rq_before[j] == before[j]);
                    }
                    assert forall|j: int| 0 <= j <= c implies insts_view(required@).contains(#[trigger] insts_view(child_monos@)[j]) by {
                        if j < c {
                            let m = choose|m: int| 0 <= m < before.len() && before[m] == insts_view(child_monos@)[j];
                            assert(insts_view(required@)[m] == before[m]);
                        } else {
                            assert(insts_view(required@)[before.len() as int] == insts_view(child_monos@)[j]);
                        }
                    }
                    assert forall|x: (usize, Seq<CType>)| #[trigger] insts_view(required@).contains(x) implies
                        rq_before.contains(x) || insts_view(child_monos@).contains(x) by {
                        let m = choose|m: int| 0 <= m < insts_view(required@).len() && insts_view(required@)[m] == x;
                        if m < before.len() {
                            assert(before[m] == x);
                            assert(before.contains(x));
                        }
                    }
                }
                added = true;
            } else {
                proof {
                    if !rq_before.contains(insts_view(child_monos@)[c as int]) {
                        assert(added);
                    }
                }
            }
            c = c + 1;
        }
        proof {
            let rq1 = insts_view(required@);
            assert(added);
            assert forall|x: (usize, Seq<CType>)| #[trigger] rq1.contains(x) implies reachable(g, root, x) by {
                if !rq_before.contains(x) {
                    let j = choose|j: int| 0 <= j < insts_view(child_monos@).len() && insts_view(child_monos@)[j] == x;
                    lemma_reachable_child(g, root, curr, j);
                }
            }
            assert(rq1.contains(root)) by {
                let m = choose|m: int| 0 <= m < rq_before.len() && rq_before[m] == root;
                assert(rq1[m] == rq_before[m]);
            }
            assert forall|x: (usize, Seq<CType>)| rq_before.contains(x) implies #[trigger] rq1.contains(x) by {
                let m = choose|m: int| 0 <= m < rq_before.len() && rq_before[m] == x;
                assert(rq1[m] == rq_before[m]);
            }
            assert forall|k: int| 0 <= k < st1.len() implies reachable(g, root, node_inst(#[trigger] st1[k])) by {
                if k < st_mid.len() {
                    assert(st1[k] == st_mid[k]);
                }
            }
            assert forall|k: int, j: int| 0 <= k < st1.len() && 0 <= j < st1[k].callees@.len() implies
                reachable(g, root, inst_view(#[trigger] st1[k].callees@[j])) by {
                if k < st_mid.len() {
                    assert(st1[k] == st_mid[k]);
                    assert(st1[k].callees@[j] == st_mid[k].callees@[j]);
                } else {
                    assert(st1[k] == st1.last());
                    assert(inst_view(st1[k].callees@[j]) == insts_view(st1.last().callees@)[j]);
                    assert(insts_view(st1.last().callees@)[j] == instance_children(g, curr)[j]);
                    lemma_reachable_child(g, root, curr, j);
                }
            }
            assert forall|x: (usize, Seq<CType>)| #[trigger] rq1.contains(x) implies
                (forall|i: int| 0 <= i < instance_children(g, x).len() ==> rq1.contains(#[trigger] instance_children(g, x)[i]))
                || pending(st1, x) by {
                if rq_before.contains(x) {
                    if x == curr {
                    } else if pending(st0, x) {
                    } else {
                        assert forall|i: int| 0 <= i < instance_children(g, x).len() implies rq1.contains(#[trigger] instance_children(g, x)[i]) by {
                            assert(rq_before.contains(instance_children(g, x)[i]));
                        }
                    }
                } else {
                    let j = choose|j: int| 0 <= j < insts_view(child_monos@).len() && insts_view(child_monos@)[j] == x;
                    assert(insts_view(st1[st1.len() - 1].callees@).contains(x)) by {
                        assert(insts_view(st1.last().callees@)[j] == x);
                    }
                }
            }
            assert(stack_work(st1) > 0);
            assert(rq_before == rq0);
            assert(rq1.len() > rq0.len());
            assert(rq1.len() <= rq0.len() + child_monos@.len()) by {
                lemma_new_items_bound(rq0, rq1, insts_view(child_monos@));
            }
        }
    }
    proof {
        let rq = insts_view(required@);
        assert(closed_set(g, rq.to_set())) by {
            assert forall|x: (usize, Seq<CType>)| #[trigger] rq.to_set().contains(x) implies {
                &&& instance_ok(g, x)
                &&& forall|i: int| 0 <= i < instance_children(g, x).len() ==> rq.to_set().contains(#[trigger] instance_children(g, x)[i])
            } by {
                assert(rq.contains(x));
                assert(reachable(g, root, x));
                if pending(mono_stack@, x) {
                    let k = choose|k: int| 0 <= k < mono_stack@.len() && (node_inst(#[trigger] mono_stack@[k]) == x || insts_view(mono_stack@[k].callees@).contains(x));
                }
                assert forall|i: int| 0 <= i < instance_children(g, x).len() implies rq.to_set().contains(#[trigger] instance_children(g, x)[i]) by {
                    assert(rq.contains(instance_children(g, x)[i]));
                }
            }
        }
        assert forall|x: (usize, Seq<CType>)| #[trigger] rq.contains(x) <==> reachable(g, root, x) by {
            if reachable(g, root, x) {
                assert(rq.to_set().contains(root));
                assert(rq.to_set().contains(x));
            }
        }
        assert(rq.to_set().finite());
        assert(rq.to_set().contains(root));
        assert(finitely_instantiable(g, t, root));
    }
    Ok(required)
}

fn clone_instances(s: &Vec<(FuncId, Vec<ConcreteType>)>) -> (r: Vec<(FuncId, Vec<ConcreteType>)>)
    ensures
        insts_view(r@) == insts_view(s@),
{
    let mut out: Vec<(FuncId, Vec<ConcreteType>)> = Vec::new();
    let mut i: usize = 0;
    while i < s.len()
        invariant
            i <= s.len(),
            out@.len() == i,
            forall|j: int| 0 <= j < i ==> inst_view(#[trigger] out@[j]) == inst_view(s@[j]),
        decreases s.len() - i,
    {
        out.push(clone_instance(&s[i]));
        i = i + 1;
    }
    assert(insts_view(out@) =~= insts_view(s@));
    out
}


/// A graph just built records no calls: every instance of each of its functions, whatever its
/// type arguments, calls nothing.
pub proof fn law_new_graph_calls_nothing(g: CallGraph, funcs: Seq<(FuncId, Vec<TypevarId>)>, k: usize, params: Seq<CType>)
    requires
        g.callees() == assoc_map(no_calls(funcs)),
        g.callees().dom().contains(k),
    ensures
        instance_children(g, (k, params)) == Seq::<(usize, Seq<CType>)>::empty(),
{
    lemma_assoc_index_of(no_calls(funcs), k);
    let j = assoc_index(no_calls(funcs), k);
    assert(g.callees()[k] == no_calls(funcs)[j].1);
    assert(g.callees()[k] =~= Seq::<(usize, Seq<GType>)>::empty());
    assert(instance_children(g, (k, params)) =~= Seq::<(usize, Seq<CType>)>::empty());
}

/// Recording a call of `callee` in `caller` appends, to the calls of every instance of
/// `caller`, the callee instantiated under that instance's type arguments; the calls of the
/// instances of every other function stay as they were.
pub proof fn law_add_callee_appends(
    g0: CallGraph,
    g1: CallGraph,
    caller: usize,
    callee: (usize, Seq<GType>),
    x: (usize, Seq<CType>),
)
    requires
        g0.callees().dom().contains(caller),
        g1.typevars() == g0.typevars(),
        g1.callees() == g0.callees().insert(caller, g0.callees()[caller].push(callee)),
    ensures
        x.0 == caller ==> instance_children(g1, x) == instance_children(g0, x).push(
            (callee.0, mono_types(callee.1, zip_env(g0.typevars()[caller], x.1))->Ok_0),
        ),
        x.0 != caller ==> instance_children(g1, x) == instance_children(g0, x),
{
    if x.0 == caller {
        assert(instance_children(g1, x) =~= instance_children(g0, x).push(
            (callee.0, mono_types(callee.1, zip_env(g0.typevars()[caller], x.1))->Ok_0),
        ));
    }
}

} // verus!
