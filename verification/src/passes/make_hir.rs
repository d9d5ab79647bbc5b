use vstd::prelude::*;
use vstd::string::StringExecFns;

use crate::shared::binops::binop_typecheck;
use crate::shared::callgraph::CallGraph;
use crate::shared::definitions::{
    binop_result, bool_type, int_type, FuncId, GenTypeVariable, GenericFuncSignature, Id, NewtypeId, TypevarId, VarId,
};
use crate::shared::tables::{
    bind_fields, clone_generic_vec, clone_params, def_index, is_struct_def, params_view, struct_fields, zip_env,
    zip_generic, GenericTypetable, NewtypeShape, TableV,
};
use crate::shared::typing::{
    bind_type, bind_types, clone_generic, gbind_view, generic_eq, generic_views, lemma_generic_views, type_bound,
    type_is_bound, types_bound, GType, GenericType, PrimType,
};
use crate::stages::ast::{ASTExpression, ASTFunction, ASTLValue, ASTProgram, ASTStatement};
use crate::stages::hir::{HIRExpression, HIRExpressionKind, HIRFunction, HIRProgram, HIRStatement, Place, PlaceKind};

verus! {

// ---------------------------------------------------------------------------------------------
// The typing environment.

/// A function signature: name, type variables, argument types, identifier, return type.
pub type SigV = (Seq<char>, Seq<Seq<char>>, Seq<GType>, FuncId, GType);

/// What typing an expression depends on.
pub struct TyEnv {
    /// The variables in scope, scope by scope, the innermost last.
    pub scopes: Seq<Seq<(Seq<char>, VarId)>>,
    /// The declared type of each variable.
    pub vars: Seq<(VarId, GType)>,
    /// The signatures of the program's functions.
    pub sigs: Seq<SigV>,
    /// The program's type definitions.
    pub types: TableV,
}

pub open spec fn find_last<K, V>(s: Seq<(K, V)>, k: K) -> Option<V>
    decreases s.len(),
{
    if s.len() == 0 {
        None
    } else if s.last().0 == k {
        Some(s.last().1)
    } else {
        find_last(s.drop_last(), k)
    }
}

/// The variable a name refers to: the latest declaration in the innermost scope that has one.
pub open spec fn var_lookup(env: TyEnv, name: Seq<char>) -> Option<VarId> {
    find_last(env.scopes.flatten_alt(), name)
}

pub open spec fn var_type(env: TyEnv, id: VarId) -> Option<GType> {
    find_last(env.vars, id)
}

/// The type of a variable reference, if the name is in scope.
pub open spec fn name_type(env: TyEnv, name: Seq<char>) -> Option<GType> {
    match var_lookup(env, name) {
        Some(id) => var_type(env, id),
        None => None,
    }
}

/// The function a call refers to: the first signature with the name and as many type
/// variables as type arguments whose argument types, with the type arguments substituted,
/// are the call's argument types. `None` where none does, or where substituting fails first.
pub open spec fn find_sig(sigs: Seq<SigV>, name: Seq<char>, tps: Seq<GType>, args: Seq<GType>) -> Option<SigV>
    decreases sigs.len(),
{
    if sigs.len() == 0 {
        None
    } else {
        let s = sigs[0];
        if s.0 == name && s.1.len() == tps.len() {
            let b = zip_env(s.1, tps);
            if !types_bound(s.2, b) {
                None
            } else if bind_types(s.2, b) == args {
                Some(s)
            } else {
                find_sig(sigs.drop_first(), name, tps, args)
            }
        } else {
            find_sig(sigs.drop_first(), name, tps, args)
        }
    }
}

/// A signature that `find_sig` finds is one of those it searched.
pub proof fn lemma_find_sig_member(sigs: Seq<SigV>, name: Seq<char>, tps: Seq<GType>, args: Seq<GType>)
    requires
        find_sig(sigs, name, tps, args) is Some,
    ensures
        exists|m: int| 0 <= m < sigs.len() && sigs[m] == find_sig(sigs, name, tps, args)->Some_0,
    decreases sigs.len(),
{
    let r = find_sig(sigs, name, tps, args)->Some_0;
    if sigs[0] == r {
        assert(sigs[0] == r);
    } else {
        lemma_find_sig_member(sigs.drop_first(), name, tps, args);
        let m = choose|m: int| 0 <= m < sigs.drop_first().len() && sigs.drop_first()[m] == r;
        assert(sigs[m + 1] == r);
    }
}

/// The index of the first field named `name`, or -1.
pub open spec fn gfield_position(fs: Seq<(Seq<char>, GType)>, name: Seq<char>) -> int
    decreases fs.len(),
{
    if fs.len() == 0 {
        -1
    } else if fs[0].0 == name {
        0
    } else {
        let r = gfield_position(fs.drop_first(), name);
        if r < 0 { -1 } else { r + 1 }
    }
}

/// The fields of struct `name` with its type variables bound to `params`; `None` where it is
/// not a struct or a field type mentions an unbound type variable.
pub open spec fn struct_shape(t: TableV, name: Seq<char>, params: Seq<GType>) -> Option<Seq<(Seq<char>, GType)>> {
    let j = def_index(t, name);
    let b = zip_env(t[j].1.params, params);
    if is_struct_def(t, j) && forall|i: int| 0 <= i < struct_fields(t, j).len() ==> type_bound(#[trigger] struct_fields(t, j)[i].1, b) {
        Some(bind_fields(struct_fields(t, j), b))
    } else {
        None
    }
}

/// The type of field `field` of a value of type `t`.
pub open spec fn field_type(types: TableV, t: GType, field: Seq<char>) -> Option<GType> {
    match t {
        GType::NewType(name, params) => match struct_shape(types, name, params) {
            Some(fs) => {
                let k = gfield_position(fs, field);
                if k < 0 { None } else { Some(fs[k].1) }
            },
            None => None,
        },
        _ => None,
    }
}

/// The latest literal field named `name`.
pub open spec fn lit_lookup(fs: Seq<(Seq<char>, GType)>, name: Seq<char>) -> Option<GType>
    decreases fs.len(),
{
    if fs.len() == 0 {
        None
    } else if fs.last().0 == name {
        Some(fs.last().1)
    } else {
        lit_lookup(fs.drop_last(), name)
    }
}

// ---------------------------------------------------------------------------------------------
// Typing expressions.

/// The type of an expression; `None` where it does not type check.
pub open spec fn expr_ty(env: TyEnv, e: ASTExpression) -> Option<GType>
    decreases e, 1nat, 0nat,
{
    match e {
        ASTExpression::IntLiteral(_) => Some(int_type()),
        ASTExpression::Variable(name) => name_type(env, name@),
        ASTExpression::BinOp { op, left, right } => match (expr_ty(env, *left), expr_ty(env, *right)) {
            (Some(l), Some(r)) => binop_result(op, l, r),
            _ => None,
        },
        ASTExpression::FuncCall { funcname, type_params, args } => match args_ty(env, e, args@.len() as int) {
            Some(ats) => match find_sig(env.sigs, funcname@, generic_views(type_params@), ats) {
                Some(s) => {
                    let b = zip_env(s.1, generic_views(type_params@));
                    if type_bound(s.4, b) { Some(bind_type(s.4, b)) } else { None }
                },
                None => None,
            },
            None => None,
        },
        ASTExpression::BoolTrue => Some(bool_type()),
        ASTExpression::BoolFalse => Some(bool_type()),
        ASTExpression::FieldAccess { expr, field } => match expr_ty(env, *expr) {
            Some(t) => field_type(env.types, t, field@),
            None => None,
        },
        ASTExpression::StructLiteral { typ, fields } => {
            if lit_ok(env, e, fields@.len() as int) && struct_literal_ok(env, typ@, lit_types(env, e, fields@.len() as int)) {
                Some(typ@)
            } else {
                None
            }
        },
        ASTExpression::Reference(x) => match expr_ty(env, *x) {
            Some(t) => Some(GType::Reference(Box::new(t))),
            None => None,
        },
        ASTExpression::Dereference(x) => match expr_ty(env, *x) {
            Some(GType::Reference(t)) => Some(*t),
            _ => None,
        },
    }
}

/// The types of the first `n` arguments of a call.
pub open spec fn args_ty(env: TyEnv, e: ASTExpression, n: int) -> Option<Seq<GType>>
    decreases e, 0nat, n,
{
    if n <= 0 {
        Some(Seq::empty())
    } else if !(e is FuncCall) || n > e->FuncCall_args@.len() {
        None
    } else {
        let args = e->FuncCall_args@;
        match args_ty(env, e, n - 1) {
            Some(ts) => {
                proof {
                    assert(decreases_to!(e => e->FuncCall_args));
                    assert(decreases_to!(e->FuncCall_args => args));
                    assert(decreases_to!(args => args[n - 1]));
                }
                match expr_ty(env, args[n - 1]) {
                    Some(t) => Some(ts.push(t)),
                    None => None,
                }
            },
            None => None,
        }
    }
}

/// The first `n` fields of a struct literal type check.
pub open spec fn lit_ok(env: TyEnv, e: ASTExpression, n: int) -> bool
    decreases e, 0nat, n,
{
    if n <= 0 {
        true
    } else if !(e is StructLiteral) || n > e->StructLiteral_fields@.len() {
        false
    } else {
        let fs = e->StructLiteral_fields@;
        &&& lit_ok(env, e, n - 1)
        &&& {
            proof {
                assert(decreases_to!(e => e->StructLiteral_fields));
                assert(decreases_to!(e->StructLiteral_fields => fs));
                assert(decreases_to!(fs => fs[n - 1]));
                assert(decreases_to!(fs[n - 1] => fs[n - 1].1));
            }
            expr_ty(env, fs[n - 1].1) is Some
        }
    }
}

/// The names and types of the first `n` fields of a struct literal.
pub open spec fn lit_types(env: TyEnv, e: ASTExpression, n: int) -> Seq<(Seq<char>, GType)>
    decreases e, 0nat, n,
{
    if n <= 0 || !(e is StructLiteral) || n > e->StructLiteral_fields@.len() {
        Seq::empty()
    } else {
        let fs = e->StructLiteral_fields@;
        proof {
            assert(decreases_to!(e => e->StructLiteral_fields));
            assert(decreases_to!(e->StructLiteral_fields => fs));
            assert(decreases_to!(fs => fs[n - 1]));
            assert(decreases_to!(fs[n - 1] => fs[n - 1].1));
        }
        lit_types(env, e, n - 1).push((fs[n - 1].0@, expr_ty(env, fs[n - 1].1)->Some_0))
    }
}

/// A literal of type `t` with fields of types `lit`: `t` is a struct, and each of its fields
/// has a literal value of exactly its type.
pub open spec fn struct_literal_ok(env: TyEnv, t: GType, lit: Seq<(Seq<char>, GType)>) -> bool {
    match t {
        GType::NewType(name, params) => match struct_shape(env.types, name, params) {
            Some(fs) => forall|i: int| 0 <= i < fs.len() ==> lit_lookup(lit, #[trigger] fs[i].0) == Some(fs[i].1),
            None => false,
        },
        _ => false,
    }
}

/// The function a call expression refers to.
pub open spec fn call_target(env: TyEnv, e: ASTExpression) -> FuncId {
    find_sig(env.sigs, e->FuncCall_funcname@, generic_views(e->FuncCall_type_params@), args_ty(env, e, e->FuncCall_args@.len() as int)->Some_0)->Some_0.3
}

// ---------------------------------------------------------------------------------------------
// What lowering an expression yields.

/// `h` is the typed form of `a`: every node carries its type, names are resolved to variables
/// and calls to functions.
pub open spec fn hir_rel(env: TyEnv, a: ASTExpression, h: HIRExpression) -> bool
    decreases a, 1nat, 0nat,
{
    &&& h.typ@ == expr_ty(env, a)->Some_0
    &&& match a {
        ASTExpression::IntLiteral(n) => h.expr is IntLiteral && h.expr->IntLiteral_0 == n,
        ASTExpression::Variable(name) => h.expr is Variable && h.expr->Variable_0 == var_lookup(env, name@)->Some_0,
        ASTExpression::BinOp { op, left, right } => {
            &&& h.expr is BinOp
            &&& h.expr->BinOp_op == op
            &&& hir_rel(env, *left, *h.expr->BinOp_left)
            &&& hir_rel(env, *right, *h.expr->BinOp_right)
        },
        ASTExpression::FuncCall { funcname, type_params, args } => {
            &&& h.expr is FuncCall
            &&& h.expr->FuncCall_id == call_target(env, a)
            &&& generic_views(h.expr->FuncCall_type_params@) == generic_views(type_params@)
            &&& h.expr->FuncCall_args@.len() == args@.len()
            &&& hir_args_rel(env, a, h, args@.len() as int)
        },
        ASTExpression::BoolTrue => h.expr is BoolTrue,
        ASTExpression::BoolFalse => h.expr is BoolFalse,
        ASTExpression::FieldAccess { expr, field } => {
            &&& h.expr is FieldAccess
            &&& h.expr->FieldAccess_field@ == field@
            &&& hir_rel(env, *expr, *h.expr->FieldAccess_expr)
        },
        ASTExpression::StructLiteral { typ, fields } => {
            &&& h.expr is StructLiteral
            &&& h.expr->StructLiteral_fields@.len() == fields@.len()
            &&& hir_fields_rel(env, a, h, fields@.len() as int)
        },
        ASTExpression::Reference(x) => h.expr is Reference && hir_rel(env, *x, *h.expr->Reference_0),
        ASTExpression::Dereference(x) => h.expr is Dereference && hir_rel(env, *x, *h.expr->Dereference_0),
    }
}

pub open spec fn hir_args_rel(env: TyEnv, a: ASTExpression, h: HIRExpression, n: int) -> bool
    decreases a, 0nat, n,
{
    if n <= 0 {
        true
    } else if !(a is FuncCall) || !(h.expr is FuncCall) || n > a->FuncCall_args@.len() || n > h.expr->FuncCall_args@.len() {
        false
    } else {
        let args = a->FuncCall_args@;
        &&& hir_args_rel(env, a, h, n - 1)
        &&& {
            proof {
                assert(decreases_to!(a => a->FuncCall_args));
                assert(decreases_to!(a->FuncCall_args => args));
                assert(decreases_to!(args => args[n - 1]));
            }
            hir_rel(env, args[n - 1], h.expr->FuncCall_args@[n - 1])
        }
    }
}

pub open spec fn hir_fields_rel(env: TyEnv, a: ASTExpression, h: HIRExpression, n: int) -> bool
    decreases a, 0nat, n,
{
    if n <= 0 {
        true
    } else if !(a is StructLiteral) || !(h.expr is StructLiteral) || n > a->StructLiteral_fields@.len()
        || n > h.expr->StructLiteral_fields@.len() {
        false
    } else {
        let fs = a->StructLiteral_fields@;
        &&& hir_fields_rel(env, a, h, n - 1)
        &&& h.expr->StructLiteral_fields@[n - 1].0@ == fs[n - 1].0@
        &&& {
            proof {
                assert(decreases_to!(a => a->StructLiteral_fields));
                assert(decreases_to!(a->StructLiteral_fields => fs));
                assert(decreases_to!(fs => fs[n - 1]));
                assert(decreases_to!(fs[n - 1] => fs[n - 1].1));
            }
            hir_rel(env, fs[n - 1].1, h.expr->StructLiteral_fields@[n - 1].1)
        }
    }
}

/// The calls an expression makes, in evaluation order: the callee and its type arguments.
pub open spec fn expr_calls(env: TyEnv, a: ASTExpression) -> Seq<(usize, Seq<GType>)>
    decreases a, 1nat, 0nat,
{
    match a {
        ASTExpression::BinOp { left, right, .. } => expr_calls(env, *left) + expr_calls(env, *right),
        ASTExpression::FuncCall { type_params, args, .. } => {
            args_calls(env, a, args@.len() as int).push((call_target(env, a).0, generic_views(type_params@)))
        },
        ASTExpression::FieldAccess { expr, .. } => expr_calls(env, *expr),
        ASTExpression::StructLiteral { fields, .. } => fields_calls(env, a, fields@.len() as int),
        ASTExpression::Reference(x) => expr_calls(env, *x),
        ASTExpression::Dereference(x) => expr_calls(env, *x),
        _ => Seq::empty(),
    }
}

pub open spec fn args_calls(env: TyEnv, a: ASTExpression, n: int) -> Seq<(usize, Seq<GType>)>
    decreases a, 0nat, n,
{
    if n <= 0 || !(a is FuncCall) || n > a->FuncCall_args@.len() {
        Seq::empty()
    } else {
        let args = a->FuncCall_args@;
        proof {
            assert(decreases_to!(a => a->FuncCall_args));
            assert(decreases_to!(a->FuncCall_args => args));
            assert(decreases_to!(args => args[n - 1]));
        }
        args_calls(env, a, n - 1) + expr_calls(env, args[n - 1])
    }
}

pub open spec fn fields_calls(env: TyEnv, a: ASTExpression, n: int) -> Seq<(usize, Seq<GType>)>
    decreases a, 0nat, n,
{
    if n <= 0 || !(a is StructLiteral) || n > a->StructLiteral_fields@.len() {
        Seq::empty()
    } else {
        let fs = a->StructLiteral_fields@;
        proof {
            assert(decreases_to!(a => a->StructLiteral_fields));
            assert(decreases_to!(a->StructLiteral_fields => fs));
            assert(decreases_to!(fs => fs[n - 1]));
            assert(decreases_to!(fs[n - 1] => fs[n - 1].1));
        }
        fields_calls(env, a, n - 1) + expr_calls(env, fs[n - 1].1)
    }
}

// ---------------------------------------------------------------------------------------------
// Scopes.

pub proof fn lemma_find_last_concat<K, V>(a: Seq<(K, V)>, b: Seq<(K, V)>, k: K)
    ensures
        find_last(a + b, k) == (match find_last(b, k) {
            Some(v) => Some(v),
            None => find_last(a, k),
        }),
    decreases b.len(),
{
    if b.len() == 0 {
        assert(a + b =~= a);
    } else {
        assert((a + b).drop_last() =~= a + b.drop_last());
        assert((a + b).last() == b.last());
        lemma_find_last_concat(a, b.drop_last(), k);
    }
}

pub open spec fn scope_view(s: Vec<(String, VarId)>) -> Seq<(Seq<char>, VarId)> {
    s@.map_values(|e: (String, VarId)| (e.0@, e.1))
}

pub open spec fn scopes_view(ss: Seq<Vec<(String, VarId)>>) -> Seq<Seq<(Seq<char>, VarId)>> {
    ss.map_values(|s: Vec<(String, VarId)>| scope_view(s))
}

pub open spec fn vars_view(vs: Seq<(VarId, GenTypeVariable)>) -> Seq<(VarId, GType)> {
    vs.map_values(|e: (VarId, GenTypeVariable)| (e.0, e.1.typ@))
}

/// The variables of a function being lowered: the scopes in force, and every variable declared.
pub struct ScopeContext {
    ambient_func: (FuncId, Vec<TypevarId>, GenericType),
    var_scope_stack: Vec<Vec<(String, VarId)>>,
    loop_entrances: Vec<bool>,
    var_map: Vec<(VarId, GenTypeVariable)>,
    var_counter: usize,
}

impl ScopeContext {
    pub closed spec fn scopes(&self) -> Seq<Seq<(Seq<char>, VarId)>> {
        scopes_view(self.var_scope_stack@)
    }

    pub closed spec fn vars(&self) -> Seq<(VarId, GType)> {
        vars_view(self.var_map@)
    }

    pub closed spec fn loops(&self) -> Seq<bool> {
        self.loop_entrances@
    }

    pub closed spec fn counter(&self) -> nat {
        self.var_counter as nat
    }

    pub closed spec fn func(&self) -> FuncId {
        self.ambient_func.0
    }

    pub closed spec fn ret_type(&self) -> GType {
        self.ambient_func.2@
    }

    pub closed spec fn wf(&self) -> bool {
        &&& self.var_scope_stack@.len() >= 1
        &&& self.var_scope_stack@.len() == self.loop_entrances@.len()
    }

    fn new(func_id: FuncId, typ_vars: Vec<TypevarId>, ret_type: GenericType) -> (r: Self)
        ensures
            r.wf(),
            r.scopes() == seq![Seq::<(Seq<char>, VarId)>::empty()],
            r.vars() == Seq::<(VarId, GType)>::empty(),
            r.loops() == seq![false],
            r.counter() == 0,
            r.func() == func_id,
            r.ret_type() == ret_type@,
    {
        let r = ScopeContext {
            ambient_func: (func_id, typ_vars, ret_type),
            var_scope_stack: vec![Vec::new()],
            loop_entrances: vec![false],
            var_map: Vec::new(),
            var_counter: 0,
        };
        assert(scope_view(r.var_scope_stack@[0]) =~= Seq::<(Seq<char>, VarId)>::empty());
        assert(r.scopes() =~= seq![Seq::<(Seq<char>, VarId)>::empty()]);
        assert(r.vars() =~= Seq::<(VarId, GType)>::empty());
        r
    }

    fn add_scope(&mut self, loop_entry: bool)
        requires
            old(self).wf(),
        ensures
            final(self).wf(),
            final(self).scopes() == old(self).scopes().push(Seq::empty()),
            final(self).loops() == old(self).loops().push(loop_entry),
            final(self).vars() == old(self).vars(),
            final(self).counter() == old(self).counter(),
            final(self).func() == old(self).func(),
            final(self).ret_type() == old(self).ret_type(),
    {
        self.var_scope_stack.push(Vec::new());
        self.loop_entrances.push(loop_entry);
        assert(scope_view(self.var_scope_stack@.last()) =~= Seq::<(Seq<char>, VarId)>::empty());
        assert(self.scopes() =~= old(self).scopes().push(Seq::empty()));
    }

    fn exit_scope(&mut self)
        requires
            old(self).wf(),
            old(self).scopes().len() >= 2,
        ensures
            final(self).wf(),
            final(self).scopes() == old(self).scopes().drop_last(),
            final(self).loops() == old(self).loops().drop_last(),
            final(self).vars() == old(self).vars(),
            final(self).counter() == old(self).counter(),
            final(self).func() == old(self).func(),
            final(self).ret_type() == old(self).ret_type(),
    {
        self.var_scope_stack.pop();
        self.loop_entrances.pop();
        assert(self.scopes() =~= old(self).scopes().drop_last());
    }

    /// Some enclosing block is a loop body.
    fn in_loop(&self) -> (r: bool)
        ensures
            r == self.loops().contains(true),
    {
        let mut i: usize = 0;
        while i < self.loop_entrances.len()
            invariant
                i <= self.loop_entrances.len(),
                forall|j: int| 0 <= j < i ==> !self.loop_entrances@[j],
            decreases self.loop_entrances.len() - i,
        {
            if self.loop_entrances[i] {
                assert(self.loops()[i as int]);
                return true;
            }
            i = i + 1;
        }
        false
    }

    /// Declares a variable in the innermost scope, with the next identifier.
    fn add_var(&mut self, var: GenTypeVariable) -> (r: VarId)
        requires
            old(self).wf(),
            old(self).counter() < usize::MAX,
        ensures
            final(self).wf(),
            r == VarId(old(self).counter() as usize),
            final(self).counter() == old(self).counter() + 1,
            final(self).scopes() == old(self).scopes().update(
                old(self).scopes().len() - 1,
                old(self).scopes().last().push((var.name@, r)),
            ),
            final(self).vars() == old(self).vars().push((r, var.typ@)),
            final(self).loops() == old(self).loops(),
            final(self).func() == old(self).func(),
            final(self).ret_type() == old(self).ret_type(),
    {
        let id = VarId(self.var_counter);
        self.var_counter = self.var_counter + 1;
        let last = self.var_scope_stack.len() - 1;
        let mut top = self.var_scope_stack.pop().unwrap();
        top.push((var.name.clone(), id));
        self.var_scope_stack.push(top);
        self.var_map.push((id, var));
        proof {
            assert(scope_view(top) =~= old(self).scopes().last().push((var.name@, id)));
            assert(self.scopes() =~= old(self).scopes().update(old(self).scopes().len() - 1, old(self).scopes().last().push((var.name@, id))));
            assert(self.vars() =~= old(self).vars().push((id, var.typ@)));
        }
        id
    }

    /// The variable a name refers to, and its type.
    fn get_var_info(&self, name: &String) -> (r: (VarId, GenericType))
        requires
            find_last(self.scopes().flatten_alt(), name@) is Some,
            find_last(self.vars(), find_last(self.scopes().flatten_alt(), name@)->Some_0) is Some,
        ensures
            r.0 == find_last(self.scopes().flatten_alt(), name@)->Some_0,
            r.1@ == find_last(self.vars(), r.0)->Some_0,
    {
        match self.try_var_info(name) {
            Some(r) => r,
            None => {
                assert(false);
                (VarId(0), GenericType::Prim(PrimType::Unit))
            },
        }
    }

    /// The variable a name refers to, and its type; `None` where the name is not in scope.
    fn try_var_info(&self, name: &String) -> (r: Option<(VarId, GenericType)>)
        ensures
            match find_last(self.scopes().flatten_alt(), name@) {
                Some(id) => match find_last(self.vars(), id) {
                    Some(t) => r is Some && r->Some_0.0 == id && r->Some_0.1@ == t,
                    None => r is None,
                },
                None => r is None,
            },
    {
        let ghost ss = self.scopes();
        let mut k: usize = self.var_scope_stack.len();
        assert(ss.subrange(0, ss.len() as int) =~= ss);
        while k > 0
            invariant
                k <= self.var_scope_stack.len(),
                ss == self.scopes(),
                ss.len() == self.var_scope_stack@.len(),
                find_last(ss.flatten_alt(), name@) == find_last(ss.subrange(0, k as int).flatten_alt(), name@),
            decreases k,
        {
            let ghost pre = ss.subrange(0, k as int);
            assert(pre.drop_last() =~= ss.subrange(0, k - 1));
            assert(pre.last() == scope_view(self.var_scope_stack@[k - 1]));
            proof {
                lemma_find_last_concat(pre.drop_last().flatten_alt(), pre.last(), name@);
            }
            match find_in_scope(&self.var_scope_stack[k - 1], name) {
                Some(id) => {
                    return match self.try_var_type_of(id) {
                        Some(t) => Some((id, t)),
                        None => None,
                    };
                },
                None => {},
            }
            k = k - 1;
        }
        assert(ss.subrange(0, 0) =~= Seq::<Seq<(Seq<char>, VarId)>>::empty());
        assert(Seq::<Seq<(Seq<char>, VarId)>>::empty().flatten_alt() =~= Seq::<(Seq<char>, VarId)>::empty());
        None
    }

    /// The declared type of variable `id`, if it was declared.
    fn try_var_type_of(&self, id: VarId) -> (r: Option<GenericType>)
        ensures
            match find_last(self.vars(), id) {
                Some(t) => r is Some && r->Some_0@ == t,
                None => r is None,
            },
    {
        let ghost vs = self.vars();
        let mut m: usize = self.var_map.len();
        assert(vs.subrange(0, vs.len() as int) =~= vs);
        while m > 0
            invariant
                m <= self.var_map.len(),
                vs == self.vars(),
                vs.len() == self.var_map@.len(),
                find_last(vs, id) == find_last(vs.subrange(0, m as int), id),
            decreases m,
        {
            let ghost pre = vs.subrange(0, m as int);
            assert(pre.drop_last() =~= vs.subrange(0, m - 1));
            if self.var_map[m - 1].0 == id {
                return Some(clone_generic(&self.var_map[m - 1].1.typ));
            }
            m = m - 1;
        }
        assert(vs.subrange(0, 0) =~= Seq::<(VarId, GType)>::empty());
        None
    }
}

fn find_in_scope(scope: &Vec<(String, VarId)>, name: &String) -> (r: Option<VarId>)
    ensures
        r == find_last(scope_view(*scope), name@),
{
    let ghost sv = scope_view(*scope);
    let mut j: usize = scope.len();
    assert(sv.subrange(0, sv.len() as int) =~= sv);
    while j > 0
        invariant
            j <= scope.len(),
            sv == scope_view(*scope),
            sv.len() == scope@.len(),
            find_last(sv, name@) == find_last(sv.subrange(0, j as int), name@),
        decreases j,
    {
        let ghost spre = sv.subrange(0, j as int);
        assert(spre.drop_last() =~= sv.subrange(0, j - 1));
        if scope[j - 1].0 == *name {
            return Some(scope[j - 1].1);
        }
        j = j - 1;
    }
    assert(sv.subrange(0, 0) =~= Seq::<(Seq<char>, VarId)>::empty());
    None
}

// ---------------------------------------------------------------------------------------------
// The builder.

pub proof fn lemma_bind_types(ps: Seq<GType>, b: Seq<(Seq<char>, GType)>)
    ensures
        bind_types(ps, b).len() == ps.len(),
        forall|i: int| 0 <= i < ps.len() ==> #[trigger] bind_types(ps, b)[i] == bind_type(ps[i], b),
    decreases ps.len(),
{
    if ps.len() > 0 {
        let q = ps.subrange(0, ps.len() - 1);
        lemma_bind_types(q, b);
        assert forall|i: int| 0 <= i < q.len() implies q[i] == ps[i] by {}
    }
}

pub open spec fn sigs_view(m: Seq<((String, Vec<TypevarId>, Vec<GenericType>), (FuncId, GenericType))>) -> Seq<SigV> {
    m.map_values(|e: ((String, Vec<TypevarId>, Vec<GenericType>), (FuncId, GenericType))|
        (e.0.0@, params_view(e.0.1@), generic_views(e.0.2@), e.1.0, e.1.1@))
}

/// Type checks and resolves the functions of a parsed program.
pub struct HIRBuilder {
    /// For each function: its name, type variables and argument types; its identifier and
    /// return type.
    signature_map: Vec<((String, Vec<TypevarId>, Vec<GenericType>), (FuncId, GenericType))>,
    typetable: GenericTypetable,
    call_graph: CallGraph,
}

impl HIRBuilder {
    pub closed spec fn sigs(&self) -> Seq<SigV> {
        sigs_view(self.signature_map@)
    }

    pub closed spec fn types(&self) -> TableV {
        self.typetable@
    }

    pub closed spec fn graph(&self) -> CallGraph {
        self.call_graph
    }

    /// The environment of an expression in scope `sc`.
    pub open spec fn env(&self, sc: &ScopeContext) -> TyEnv {
        TyEnv { scopes: sc.scopes(), vars: sc.vars(), sigs: self.sigs(), types: self.types() }
    }

    /// The function `name<type_params>` whose arguments have the types `arg_types`: its
    /// identifier, return type and type variables.
    fn find(&self, name: &String, type_params: &Vec<GenericType>, arg_types: &Vec<GenericType>) -> (r: (FuncId, GenericType, Vec<TypevarId>))
        requires
            find_sig(self.sigs(), name@, generic_views(type_params@), generic_views(arg_types@)) is Some,
        ensures
            ({
                let s = find_sig(self.sigs(), name@, generic_views(type_params@), generic_views(arg_types@))->Some_0;
                r.0 == s.3 && r.1@ == s.4 && params_view(r.2@) == s.1
            }),
    {
        match self.try_find(name, type_params, arg_types) {
            Some(r) => r,
            None => {
                assert(false);
                (FuncId(0), GenericType::Prim(PrimType::Unit), Vec::new())
            },
        }
    }

    /// Resolves a call as `find_sig` does: `None` where no signature matches, or where the
    /// first with the name and arity has an argument type with an unbound type variable.
    #[verifier::loop_isolation(false)]
    fn try_find(&self, name: &String, type_params: &Vec<GenericType>, arg_types: &Vec<GenericType>) -> (r: Option<(FuncId, GenericType, Vec<TypevarId>)>)
        ensures
            match find_sig(self.sigs(), name@, generic_views(type_params@), generic_views(arg_types@)) {
                Some(s) => r is Some && r->Some_0.0 == s.3 && r->Some_0.1@ == s.4 && params_view(r->Some_0.2@) == s.1,
                None => r is None,
            },
    {
        proof {
            lemma_generic_views(type_params@);
            lemma_generic_views(arg_types@);
        }
        let ghost sigs = self.sigs();
        let ghost tps = generic_views(type_params@);
        let ghost ats = generic_views(arg_types@);
        let mut i: usize = 0;
        assert(sigs.subrange(0, sigs.len() as int) =~= sigs);
        while i < self.signature_map.len()
            invariant
                i <= self.signature_map.len(),
                sigs == self.sigs(),
                sigs.len() == self.signature_map@.len(),
                tps == generic_views(type_params@),
                ats == generic_views(arg_types@),
                tps.len() == type_params@.len(),
                ats.len() == arg_types@.len(),
                forall|j: int| 0 <= j < tps.len() ==> tps[j] == type_params@[j]@,
                forall|j: int| 0 <= j < ats.len() ==> ats[j] == arg_types@[j]@,
                find_sig(sigs, name@, tps, ats) == find_sig(sigs.subrange(i as int, sigs.len() as int), name@, tps, ats),
            decreases self.signature_map.len() - i,
        {
            let ghost rest = sigs.subrange(i as int, sigs.len() as int);
            let ghost sg = sigs[i as int];
            assert(rest[0] == sg);
            assert(rest.drop_first() =~= sigs.subrange(i + 1, sigs.len() as int));
            let entry = &self.signature_map[i];
            let cand_name = &entry.0.0;
            let tvars = &entry.0.1;
            let args = &entry.0.2;
            if *cand_name == *name && tvars.len() == type_params.len() {
                let bindings = zip_generic(tvars, type_params);
                let ghost b = zip_env(sg.1, tps);
                assert(gbind_view(bindings@) == b);
                proof {
                    lemma_generic_views(args@);
                    crate::shared::typing::lemma_types_bound(sg.2, b);
                    lemma_bind_types(sg.2, b);
                }
                let mut k: usize = 0;
                while k < args.len()
                    invariant
                        k <= args.len(),
                        sg.2 == generic_views(args@),
                        sg.2.len() == args@.len(),
                        forall|m: int| 0 <= m < args@.len() ==> sg.2[m] == args@[m]@,
                        gbind_view(bindings@) == b,
                        types_bound(sg.2, b) <==> forall|m: int| 0 <= m < sg.2.len() ==> type_bound(#[trigger] sg.2[m], b),
                        forall|m: int| 0 <= m < k ==> type_bound(#[trigger] sg.2[m], b),
                    decreases args.len() - k,
                {
                    if !type_is_bound(&args[k], &bindings) {
                        assert(!type_bound(sg.2[k as int], b));
                        assert(find_sig(rest, name@, tps, ats) is None);
                        return None;
                    }
                    k = k + 1;
                }
                assert(types_bound(sg.2, b));
                let mut all_equal = args.len() == arg_types.len();
                let mut j: usize = 0;
                while all_equal && j < args.len()
                    invariant
                        j <= args.len(),
                        sg.2 == generic_views(args@),
                        sg.2.len() == args@.len(),
                        forall|m: int| 0 <= m < args@.len() ==> sg.2[m] == args@[m]@,
                        forall|m: int| 0 <= m < sg.2.len() ==> type_bound(#[trigger] sg.2[m], b),
                        gbind_view(bindings@) == b,
                        bind_types(sg.2, b).len() == sg.2.len(),
                        forall|m: int| 0 <= m < sg.2.len() ==> #[trigger] bind_types(sg.2, b)[m] == bind_type(sg.2[m], b),
                        ats == generic_views(arg_types@),
                        ats.len() == arg_types@.len(),
                        forall|m: int| 0 <= m < ats.len() ==> ats[m] == arg_types@[m]@,
                        all_equal ==> args@.len() == arg_types@.len(),
                        all_equal ==> forall|m: int| 0 <= m < j ==> bind_types(sg.2, b)[m] == ats[m],
                        !all_equal ==> bind_types(sg.2, b) != ats,
                    decreases args.len() - j,
                {
                    assert(type_bound(sg.2[j as int], b));
                    let bound = args[j].bind(&bindings);
                    if !generic_eq(&bound, &arg_types[j]) {
                        all_equal = false;
                        assert(bind_types(sg.2, b)[j as int] != ats[j as int]);
                    }
                    j = j + 1;
                }
                if all_equal {
                    assert(bind_types(sg.2, b) =~= ats);
                    return Some((entry.1.0, clone_generic(&entry.1.1), clone_params(tvars)));
                }
            }
            i = i + 1;
        }
        assert(sigs.subrange(sigs.len() as int, sigs.len() as int) =~= Seq::<SigV>::empty());
        None
    }

    /// The type of field `field` of a value of type `typ`.
    fn field_of(&self, typ: &GenericType, field: &String) -> (r: GenericType)
        requires
            field_type(self.types(), typ@, field@) is Some,
        ensures
            r@ == field_type(self.types(), typ@, field@)->Some_0,
    {
        match self.try_field_of(typ, field) {
            Some(r) => r,
            None => {
                assert(false);
                GenericType::Prim(PrimType::Unit)
            },
        }
    }

    /// The fields of struct `id` with its type variables bound to `params`, as `struct_shape`
    /// gives them; `None` where `id` names no struct, or a field type keeps an unbound variable.
    #[verifier::loop_isolation(false)]
    fn try_struct_fields(&self, id: &NewtypeId, params: &Vec<GenericType>) -> (r: Option<Vec<(String, GenericType)>>)
        ensures
            match struct_shape(self.types(), id.0@, generic_views(params@)) {
                Some(fs) => r is Some && crate::shared::tables::fields_view(r->Some_0@) == fs,
                None => r is None,
            },
    {
        let ghost t = self.types();
        proof {
            lemma_generic_views(params@);
        }
        let k = match self.typetable.find_def(id) {
            Some(k) => k,
            None => return None,
        };
        let def = &self.typetable.defs[k].1;
        assert(t[k as int] == (self.typetable.defs@[k as int].0.0@, def@));
        let fields = match &def.defn {
            NewtypeShape::Struct { fields } => fields,
            NewtypeShape::Enum { .. } => return None,
        };
        let ghost fs = crate::shared::tables::fields_view(fields@);
        assert(fs == struct_fields(t, k as int));
        let bindings = zip_generic(&def.type_params, params);
        let ghost b = zip_env(t[k as int].1.params, generic_views(params@));
        assert(gbind_view(bindings@) == b);
        let mut i: usize = 0;
        while i < fields.len()
            invariant
                i <= fields.len(),
                fs == crate::shared::tables::fields_view(fields@),
                fs.len() == fields@.len(),
                forall|j: int| 0 <= j < i ==> type_bound(#[trigger] fs[j].1, b),
            decreases fields.len() - i,
        {
            assert(fs[i as int].1 == fields@[i as int].1@);
            if !type_is_bound(&fields[i].1, &bindings) {
                return None;
            }
            i = i + 1;
        }
        let shape = self.typetable.bind(id.clone(), clone_generic_vec(params));
        match shape {
            NewtypeShape::Struct { fields } => Some(fields),
            NewtypeShape::Enum { .. } => {
                assert(false);
                None
            },
        }
    }

    /// The type of field `field` of a value of type `typ`; `None` where `typ` is no struct
    /// instance or has no such field.
    #[verifier::loop_isolation(false)]
    fn try_field_of(&self, typ: &GenericType, field: &String) -> (r: Option<GenericType>)
        ensures
            match field_type(self.types(), typ@, field@) {
                Some(f) => r is Some && r->Some_0@ == f,
                None => r is None,
            },
    {
        match typ {
            GenericType::NewType(id, params) => {
                proof {
                    lemma_generic_views(params@);
                }
                let fields = match self.try_struct_fields(id, params) {
                    Some(fields) => fields,
                    None => return None,
                };
                let ghost fs = crate::shared::tables::fields_view(fields@);
                let ghost k = gfield_position(fs, field@);
                proof {
                    lemma_gfield_position(fs, field@);
                }
                let mut i: usize = 0;
                while i < fields.len()
                    invariant
                        i <= fields.len(),
                        fs == crate::shared::tables::fields_view(fields@),
                        fs.len() == fields@.len(),
                        forall|j: int| 0 <= j < i ==> fs[j].0 != field@,
                    decreases fields.len() - i,
                {
                    assert(fs[i as int] == (fields@[i as int].0@, fields@[i as int].1@));
                    if fields[i].0 == *field {
                        assert(k == i);
                        return Some(clone_generic(&fields[i].1));
                    }
                    i = i + 1;
                }
                assert(k < 0);
                None
            },
            _ => None,
        }
    }
}

pub proof fn lemma_gfield_position(fs: Seq<(Seq<char>, GType)>, name: Seq<char>)
    ensures
        -1 <= gfield_position(fs, name) < fs.len(),
        gfield_position(fs, name) >= 0 ==> fs[gfield_position(fs, name)].0 == name,
        gfield_position(fs, name) >= 0 ==> forall|j: int| 0 <= j < gfield_position(fs, name) ==> fs[j].0 != name,
        gfield_position(fs, name) < 0 ==> forall|j: int| 0 <= j < fs.len() ==> fs[j].0 != name,
    decreases fs.len(),
{
    if fs.len() > 0 {
        lemma_gfield_position(fs.drop_first(), name);
        assert forall|j: int| 0 < j < fs.len() implies fs[j] == fs.drop_first()[j - 1] by {}
    }
}

/// The names and types of a lowered struct literal's fields.
pub open spec fn hir_lit_types(fs: Seq<(String, HIRExpression)>) -> Seq<(Seq<char>, GType)> {
    fs.map_values(|f: (String, HIRExpression)| (f.0@, f.1.typ@))
}

impl HIRBuilder {
    /// The builder can record calls made by function `f`.
    pub open spec fn wf_for(&self, f: FuncId) -> bool {
        &&& self.graph().wf()
        &&& self.graph().callees().dom().contains(f.0)
    }

    /// Each field of struct type `typ` has a literal value of exactly its type.
    #[verifier::loop_isolation(false)]
    fn typecheck_struct_literal(&self, typ: &GenericType, literal_fields: &Vec<(String, HIRExpression)>) -> (r: bool)
        requires
            typ@ is NewType,
            struct_shape(self.types(), typ@->NewType_0, typ@->NewType_1) is Some,
        ensures
            r == struct_literal_ok(
                TyEnv { scopes: Seq::empty(), vars: Seq::empty(), sigs: Seq::empty(), types: self.types() },
                typ@,
                hir_lit_types(literal_fields@),
            ),
    {
        let ghost lit = hir_lit_types(literal_fields@);
        match typ {
            GenericType::NewType(id, params) => {
                proof {
                    lemma_generic_views(params@);
                }
                let shape = self.typetable.bind(id.clone(), clone_generic_vec(params));
                let expected = match shape {
                    NewtypeShape::Struct { fields } => fields,
                    NewtypeShape::Enum { .. } => {
                        assert(false);
                        Vec::new()
                    },
                };
                let ghost fs = crate::shared::tables::fields_view(expected@);
                assert(fs == struct_shape(self.types(), id.0@, generic_views(params@))->Some_0);
                let mut i: usize = 0;
                while i < expected.len()
                    invariant
                        i <= expected.len(),
                        fs == crate::shared::tables::fields_view(expected@),
                        fs.len() == expected@.len(),
                        lit == hir_lit_types(literal_fields@),
                        forall|j: int| 0 <= j < i ==> lit_lookup(lit, #[trigger] fs[j].0) == Some(fs[j].1),
                    decreases expected.len() - i,
                {
                    assert(fs[i as int] == (expected@[i as int].0@, expected@[i as int].1@));
                    match lookup_literal(literal_fields, &expected[i].0) {
                        Some(k) => {
                            if !generic_eq(&expected[i].1, &literal_fields[k].1.typ) {
                                assert(typ@ == GType::NewType(id.0@, generic_views(params@)));
                                assert(lit_lookup(lit, fs[i as int].0) != Some(fs[i as int].1));
                                return false;
                            }
                        },
                        None => {
                            assert(typ@ == GType::NewType(id.0@, generic_views(params@)));
                            assert(lit_lookup(lit, fs[i as int].0) != Some(fs[i as int].1));
                            return false;
                        },
                    }
                    i = i + 1;
                }
                assert(typ@ == GType::NewType(id.0@, generic_views(params@)));
                true
            },
            _ => {
                assert(false);
                false
            },
        }
    }
}

/// The index of the latest typed field named `name`.
fn lookup_typed_field(fs: &Vec<(String, GenericType)>, name: &String) -> (r: Option<usize>)
    ensures
        match r {
            Some(k) => k < fs@.len() && lit_lookup(crate::shared::tables::fields_view(fs@), name@) == Some(fs@[k as int].1@),
            None => lit_lookup(crate::shared::tables::fields_view(fs@), name@) is None,
        },
{
    let ghost lit = crate::shared::tables::fields_view(fs@);
    let mut j: usize = fs.len();
    assert(lit.subrange(0, lit.len() as int) =~= lit);
    while j > 0
        invariant
            j <= fs.len(),
            lit == crate::shared::tables::fields_view(fs@),
            lit.len() == fs@.len(),
            lit_lookup(lit, name@) == lit_lookup(lit.subrange(0, j as int), name@),
        decreases j,
    {
        let ghost pre = lit.subrange(0, j as int);
        assert(pre.drop_last() =~= lit.subrange(0, j - 1));
        assert(pre.last() == (fs@[j - 1].0@, fs@[j - 1].1@));
        if fs[j - 1].0 == *name {
            return Some(j - 1);
        }
        j = j - 1;
    }
    assert(lit.subrange(0, 0) =~= Seq::<(Seq<char>, GType)>::empty());
    None
}

/// Each expected field has, among the literal's typed fields, a value of exactly its type.
fn literal_fits(expected: &Vec<(String, GenericType)>, lit: &Vec<(String, GenericType)>) -> (r: bool)
    ensures
        r == forall|i: int| 0 <= i < expected@.len() ==> lit_lookup(
            crate::shared::tables::fields_view(lit@),
            #[trigger] crate::shared::tables::fields_view(expected@)[i].0,
        ) == Some(crate::shared::tables::fields_view(expected@)[i].1),
{
    let ghost fs = crate::shared::tables::fields_view(expected@);
    let ghost lv = crate::shared::tables::fields_view(lit@);
    let mut i: usize = 0;
    while i < expected.len()
        invariant
            i <= expected.len(),
            fs == crate::shared::tables::fields_view(expected@),
            lv == crate::shared::tables::fields_view(lit@),
            fs.len() == expected@.len(),
            forall|j: int| 0 <= j < i ==> lit_lookup(lv, #[trigger] fs[j].0) == Some(fs[j].1),
        decreases expected.len() - i,
    {
        assert(fs[i as int] == (expected@[i as int].0@, expected@[i as int].1@));
        match lookup_typed_field(lit, &expected[i].0) {
            Some(k) => {
                if !generic_eq(&expected[i].1, &lit[k].1) {
                    assert(lit_lookup(lv, fs[i as int].0) != Some(fs[i as int].1));
                    return false;
                }
            },
            None => {
                return false;
            },
        }
        i = i + 1;
    }
    true
}

/// The index of the latest literal field named `name`.
fn lookup_literal(fs: &Vec<(String, HIRExpression)>, name: &String) -> (r: Option<usize>)
    ensures
        match r {
            Some(k) => k < fs@.len() && lit_lookup(hir_lit_types(fs@), name@) == Some(fs@[k as int].1.typ@),
            None => lit_lookup(hir_lit_types(fs@), name@) is None,
        },
{
    let ghost lit = hir_lit_types(fs@);
    let mut j: usize = fs.len();
    assert(lit.subrange(0, lit.len() as int) =~= lit);
    while j > 0
        invariant
            j <= fs.len(),
            lit == hir_lit_types(fs@),
            lit.len() == fs@.len(),
            lit_lookup(lit, name@) == lit_lookup(lit.subrange(0, j as int), name@),
        decreases j,
    {
        let ghost pre = lit.subrange(0, j as int);
        assert(pre.drop_last() =~= lit.subrange(0, j - 1));
        assert(pre.last() == (fs@[j - 1].0@, fs@[j - 1].1.typ@));
        if fs[j - 1].0 == *name {
            return Some(j - 1);
        }
        j = j - 1;
    }
    assert(lit.subrange(0, 0) =~= Seq::<(Seq<char>, GType)>::empty());
    None
}

impl HIRBuilder {
    /// Type checks an expression in scope `sc` and resolves its names and calls; records the
    /// calls it makes as calls of the scope's function.
    #[verifier::loop_isolation(false)]
    #[verifier::spinoff_prover]
    #[verifier::rlimit(40)]
    fn lower_expression(&mut self, sc: &ScopeContext, expr: &ASTExpression) -> (r: HIRExpression)
        requires
            old(self).wf_for(sc.func()),
            expr_ty(old(self).env(sc), *expr) is Some,
        ensures
            final(self).wf_for(sc.func()),
            final(self).sigs() == old(self).sigs(),
            final(self).types() == old(self).types(),
            final(self).graph().typevars() == old(self).graph().typevars(),
            final(self).graph().callees() == old(self).graph().callees().insert(
                sc.func().0,
                old(self).graph().callees()[sc.func().0] + expr_calls(old(self).env(sc), *expr),
            ),
            hir_rel(old(self).env(sc), *expr, r),
        decreases *expr,
    {
        let ghost env = self.env(sc);
        let ghost f = sc.func().0;
        let ghost c0 = self.graph().callees();
        match expr {
            ASTExpression::IntLiteral(num) => {
                assert(c0[f] + Seq::<(usize, Seq<GType>)>::empty() =~= c0[f]);
                assert(c0.insert(f, c0[f]) =~= c0);
                HIRExpression { typ: GenericType::Prim(PrimType::Integer), expr: HIRExpressionKind::IntLiteral(*num) }
            },
            ASTExpression::Variable(varname) => {
                let (id, typ) = sc.get_var_info(varname);
                assert(c0[f] + Seq::<(usize, Seq<GType>)>::empty() =~= c0[f]);
                assert(c0.insert(f, c0[f]) =~= c0);
                HIRExpression { typ, expr: HIRExpressionKind::Variable(id) }
            },
            ASTExpression::BinOp { op, left, right } => {
                let left_hir = self.lower_expression(sc, left);
                let right_hir = self.lower_expression(sc, right);
                let result_type = match binop_typecheck(op, &left_hir.typ, &right_hir.typ) {
                    Some(t) => t,
                    None => {
                        assert(false);
                        GenericType::Prim(PrimType::Unit)
                    },
                };
                assert(c0[f] + expr_calls(env, **left) + expr_calls(env, **right) =~= c0[f] + expr_calls(env, *expr));
                HIRExpression {
                    typ: result_type,
                    expr: HIRExpressionKind::BinOp { op: *op, left: Box::new(left_hir), right: Box::new(right_hir) },
                }
            },
            ASTExpression::FuncCall { funcname, type_params, args } => {
                let mut hir_args: Vec<HIRExpression> = Vec::new();
                let mut argtypes: Vec<GenericType> = Vec::new();
                let mut i: usize = 0;
                assert(c0[f] + Seq::<(usize, Seq<GType>)>::empty() =~= c0[f]);
                assert(c0.insert(f, c0[f]) =~= c0);
                assert(generic_views(argtypes@) =~= Seq::<GType>::empty());
                while i < args.len()
                    invariant
                        i <= args.len(),
                        self.wf_for(sc.func()),
                        self.sigs() == env.sigs,
                        self.types() == env.types,
                        env == old(self).env(sc),
                        self.graph().typevars() == old(self).graph().typevars(),
                        self.graph().callees() == c0.insert(f, c0[f] + args_calls(env, *expr, i as int)),
                        hir_args@.len() == i,
                        argtypes@.len() == i,
                        args_ty(env, *expr, i as int) is Some,
                        generic_views(argtypes@) == args_ty(env, *expr, i as int)->Some_0,
                        forall|k: int| 0 <= k < i ==> hir_rel(env, args@[k], #[trigger] hir_args@[k]),
                    decreases args.len() - i,
                {
                    proof {
                        lemma_args_ty_prefix(env, *expr, i + 1, args@.len() as int);
                        assert(decreases_to!(*expr => args@[i as int]));
                    }
                    let a = self.lower_expression(sc, &args[i]);
                    let ghost before = argtypes@;
                    argtypes.push(clone_generic(&a.typ));
                    hir_args.push(a);
                    proof {
                        lemma_generic_views(argtypes@);
                        lemma_generic_views(before);
                        assert(generic_views(argtypes@) =~= generic_views(before).push(a.typ@));
                        assert(args_calls(env, *expr, i + 1) == args_calls(env, *expr, i as int) + expr_calls(env, args@[i as int]));
                        assert(c0[f] + args_calls(env, *expr, i as int) + expr_calls(env, args@[i as int]) =~= c0[f] + args_calls(env, *expr, i + 1));
                        assert(self.graph().callees() =~= c0.insert(f, c0[f] + args_calls(env, *expr, i + 1)));
                    }
                    i = i + 1;
                }
                let (func_id, ret_type, typevars) = self.find(funcname, type_params, &argtypes);
                let bindings = zip_generic(&typevars, type_params);
                self.call_graph.add_callee(&sc.ambient_func.0, (func_id, clone_generic_vec(type_params)));
                proof {
                    assert(c0[f] + args_calls(env, *expr, args@.len() as int) + seq![(func_id.0, generic_views(type_params@))] =~= c0[f] + expr_calls(env, *expr));
                }
                let typ = ret_type.bind(&bindings);
                let r = HIRExpression {
                    typ,
                    expr: HIRExpressionKind::FuncCall { id: func_id, type_params: clone_generic_vec(type_params), args: hir_args },
                };
                proof {
                    lemma_hir_args_rel(env, *expr, r, args@.len() as int);
                }
                r
            },
            ASTExpression::BoolTrue => {
                assert(c0[f] + Seq::<(usize, Seq<GType>)>::empty() =~= c0[f]);
                assert(c0.insert(f, c0[f]) =~= c0);
                HIRExpression { typ: GenericType::Prim(PrimType::Bool), expr: HIRExpressionKind::BoolTrue }
            },
            ASTExpression::BoolFalse => {
                assert(c0[f] + Seq::<(usize, Seq<GType>)>::empty() =~= c0[f]);
                assert(c0.insert(f, c0[f]) =~= c0);
                HIRExpression { typ: GenericType::Prim(PrimType::Bool), expr: HIRExpressionKind::BoolFalse }
            },
            ASTExpression::FieldAccess { expr: inner, field } => {
                let hir_expr = self.lower_expression(sc, inner);
                let field_typ = self.field_of(&hir_expr.typ, field);
                HIRExpression {
                    typ: field_typ,
                    expr: HIRExpressionKind::FieldAccess { expr: Box::new(hir_expr), field: field.clone() },
                }
            },
            ASTExpression::StructLiteral { typ, fields } => {
                let mut hir_fields: Vec<(String, HIRExpression)> = Vec::new();
                let mut i: usize = 0;
                assert(c0[f] + Seq::<(usize, Seq<GType>)>::empty() =~= c0[f]);
                assert(c0.insert(f, c0[f]) =~= c0);
                assert(hir_lit_types(hir_fields@) =~= Seq::<(Seq<char>, GType)>::empty());
                while i < fields.len()
                    invariant
                        i <= fields.len(),
                        self.wf_for(sc.func()),
                        self.sigs() == env.sigs,
                        self.types() == env.types,
                        env == old(self).env(sc),
                        self.graph().typevars() == old(self).graph().typevars(),
                        self.graph().callees() == c0.insert(f, c0[f] + fields_calls(env, *expr, i as int)),
                        hir_fields@.len() == i,
                        lit_ok(env, *expr, fields@.len() as int),
                        hir_lit_types(hir_fields@) == lit_types(env, *expr, i as int),
                        forall|k: int| 0 <= k < i ==> (#[trigger] hir_fields@[k]).0@ == fields@[k].0@
                            && hir_rel(env, fields@[k].1, hir_fields@[k].1),
                    decreases fields.len() - i,
                {
                    proof {
                        lemma_lit_ok_prefix(env, *expr, i + 1, fields@.len() as int);
                        assert(decreases_to!(*expr => fields@[i as int].1));
                    }
                    let v = self.lower_expression(sc, &fields[i].1);
                    let ghost before = hir_fields@;
                    hir_fields.push((fields[i].0.clone(), v));
                    proof {
                        assert(hir_lit_types(hir_fields@) =~= hir_lit_types(before).push((fields@[i as int].0@, v.typ@)));
                        assert(c0[f] + fields_calls(env, *expr, i as int) + expr_calls(env, fields@[i as int].1) =~= c0[f] + fields_calls(env, *expr, i + 1));
                    }
                    i = i + 1;
                }
                if !self.typecheck_struct_literal(typ, &hir_fields) {
                    assert(false);
                }
                let r = HIRExpression { typ: clone_generic(typ), expr: HIRExpressionKind::StructLiteral { fields: hir_fields } };
                proof {
                    lemma_hir_fields_rel(env, *expr, r, fields@.len() as int);
                }
                r
            },
            ASTExpression::Reference(refd) => {
                let hir_refd = self.lower_expression(sc, refd);
                let t = clone_generic(&hir_refd.typ);
                HIRExpression { typ: GenericType::Reference(Box::new(t)), expr: HIRExpressionKind::Reference(Box::new(hir_refd)) }
            },
            ASTExpression::Dereference(derefd) => {
                let hir_derefd = self.lower_expression(sc, derefd);
                let t = match &hir_derefd.typ {
                    GenericType::Reference(t) => clone_generic(t),
                    _ => {
                        assert(false);
                        GenericType::Prim(PrimType::Unit)
                    },
                };
                HIRExpression { typ: t, expr: HIRExpressionKind::Dereference(Box::new(hir_derefd)) }
            },
        }
    }
}

impl HIRBuilder {
    /// The type of an expression in scope `sc`, as `expr_ty` gives it: `None` where it does not
    /// type check.
    #[verifier::loop_isolation(false)]
    #[verifier::spinoff_prover]
    fn check_expression(&self, sc: &ScopeContext, expr: &ASTExpression) -> (r: Option<GenericType>)
        ensures
            match expr_ty(self.env(sc), *expr) {
                Some(t) => r is Some && r->Some_0@ == t,
                None => r is None,
            },
        decreases *expr,
    {
        let ghost env = self.env(sc);
        match expr {
            ASTExpression::IntLiteral(_) => Some(GenericType::Prim(PrimType::Integer)),
            ASTExpression::BoolTrue => Some(GenericType::Prim(PrimType::Bool)),
            ASTExpression::BoolFalse => Some(GenericType::Prim(PrimType::Bool)),
            ASTExpression::Variable(varname) => match sc.try_var_info(varname) {
                Some(info) => Some(info.1),
                None => None,
            },
            ASTExpression::BinOp { op, left, right } => {
                let l = match self.check_expression(sc, left) {
                    Some(t) => t,
                    None => return None,
                };
                let r = match self.check_expression(sc, right) {
                    Some(t) => t,
                    None => return None,
                };
                binop_typecheck(op, &l, &r)
            },
            ASTExpression::FuncCall { funcname, type_params, args } => {
                let ghost n = args@.len() as int;
                let mut argtypes: Vec<GenericType> = Vec::new();
                let mut i: usize = 0;
                assert(generic_views(argtypes@) =~= Seq::<GType>::empty());
                while i < args.len()
                    invariant
                        i <= args.len(),
                        env == self.env(sc),
                        argtypes@.len() == i,
                        args_ty(env, *expr, i as int) is Some,
                        generic_views(argtypes@) == args_ty(env, *expr, i as int)->Some_0,
                    decreases args.len() - i,
                {
                    proof {
                        assert(decreases_to!(*expr => args@[i as int]));
                    }
                    match self.check_expression(sc, &args[i]) {
                        Some(t) => {
                            let ghost before = argtypes@;
                            argtypes.push(t);
                            proof {
                                lemma_generic_views(argtypes@);
                                lemma_generic_views(before);
                                assert(generic_views(argtypes@) =~= generic_views(before).push(t@));
                            }
                        },
                        None => {
                            proof {
                                if args_ty(env, *expr, n) is Some {
                                    lemma_args_ty_prefix(env, *expr, i + 1, n);
                                }
                            }
                            return None;
                        },
                    }
                    i = i + 1;
                }
                let (_, ret_type, typevars) = match self.try_find(funcname, type_params, &argtypes) {
                    Some(found) => found,
                    None => return None,
                };
                let bindings = zip_generic(&typevars, type_params);
                if !type_is_bound(&ret_type, &bindings) {
                    return None;
                }
                Some(ret_type.bind(&bindings))
            },
            ASTExpression::FieldAccess { expr: inner, field } => match self.check_expression(sc, inner) {
                Some(t) => self.try_field_of(&t, field),
                None => None,
            },
            ASTExpression::StructLiteral { typ, fields } => {
                let ghost n = fields@.len() as int;
                let mut lit: Vec<(String, GenericType)> = Vec::new();
                let mut i: usize = 0;
                assert(crate::shared::tables::fields_view(lit@) =~= Seq::<(Seq<char>, GType)>::empty());
                while i < fields.len()
                    invariant
                        i <= fields.len(),
                        env == self.env(sc),
                        lit@.len() == i,
                        lit_ok(env, *expr, i as int),
                        crate::shared::tables::fields_view(lit@) == lit_types(env, *expr, i as int),
                    decreases fields.len() - i,
                {
                    proof {
                        assert(decreases_to!(*expr => fields@[i as int].1));
                    }
                    match self.check_expression(sc, &fields[i].1) {
                        Some(t) => {
                            let ghost before = lit@;
                            lit.push((fields[i].0.clone(), t));
                            assert(crate::shared::tables::fields_view(lit@) =~= crate::shared::tables::fields_view(before).push((fields@[i as int].0@, t@)));
                        },
                        None => {
                            proof {
                                if lit_ok(env, *expr, n) {
                                    lemma_lit_ok_prefix(env, *expr, i + 1, n);
                                }
                            }
                            return None;
                        },
                    }
                    i = i + 1;
                }
                match typ {
                    GenericType::NewType(id, params) => {
                        proof {
                            lemma_generic_views(params@);
                        }
                        match self.try_struct_fields(id, params) {
                            Some(expected) => {
                                if literal_fits(&expected, &lit) {
                                    Some(clone_generic(typ))
                                } else {
                                    None
                                }
                            },
                            None => None,
                        }
                    },
                    _ => None,
                }
            },
            ASTExpression::Reference(x) => match self.check_expression(sc, x) {
                Some(t) => Some(GenericType::Reference(Box::new(t))),
                None => None,
            },
            ASTExpression::Dereference(x) => match self.check_expression(sc, x) {
                Some(GenericType::Reference(t)) => Some(*t),
                _ => None,
            },
        }
    }

    /// The type of an assignment target in scope `sc`, as `place_ty` gives it.
    fn check_place(&self, sc: &ScopeContext, lv: &ASTLValue) -> (r: Option<GenericType>)
        ensures
            match place_ty(self.env(sc), *lv) {
                Some(t) => r is Some && r->Some_0@ == t,
                None => r is None,
            },
        decreases *lv,
    {
        match lv {
            ASTLValue::Variable(name) => match sc.try_var_info(name) {
                Some(info) => Some(info.1),
                None => None,
            },
            ASTLValue::FieldAccess { of, field } => match self.check_place(sc, of) {
                Some(t) => {
                    if matches!(t, GenericType::NewType(..)) {
                        self.try_field_of(&t, field)
                    } else {
                        None
                    }
                },
                None => None,
            },
            ASTLValue::Deref(e) => match self.check_expression(sc, e) {
                Some(GenericType::Reference(t)) => Some(*t),
                _ => None,
            },
        }
    }
}

pub proof fn lemma_args_ty_prefix(env: TyEnv, e: ASTExpression, m: int, n: int)
    requires
        0 <= m <= n,
        args_ty(env, e, n) is Some,
    ensures
        args_ty(env, e, m) is Some,
    decreases n - m,
{
    if m < n {
        lemma_args_ty_prefix(env, e, m, n - 1);
    }
}

pub proof fn lemma_lit_ok_prefix(env: TyEnv, e: ASTExpression, m: int, n: int)
    requires
        0 <= m <= n,
        lit_ok(env, e, n),
    ensures
        lit_ok(env, e, m),
    decreases n - m,
{
    if m < n {
        lemma_lit_ok_prefix(env, e, m, n - 1);
    }
}

pub proof fn lemma_hir_args_rel(env: TyEnv, a: ASTExpression, h: HIRExpression, n: int)
    requires
        a is FuncCall,
        h.expr is FuncCall,
        0 <= n <= a->FuncCall_args@.len(),
        n <= h.expr->FuncCall_args@.len(),
        forall|k: int| 0 <= k < n ==> hir_rel(env, a->FuncCall_args@[k], #[trigger] h.expr->FuncCall_args@[k]),
    ensures
        hir_args_rel(env, a, h, n),
    decreases n,
{
    if n > 0 {
        lemma_hir_args_rel(env, a, h, n - 1);
    }
}

pub proof fn lemma_hir_fields_rel(env: TyEnv, a: ASTExpression, h: HIRExpression, n: int)
    requires
        a is StructLiteral,
        h.expr is StructLiteral,
        0 <= n <= a->StructLiteral_fields@.len(),
        n <= h.expr->StructLiteral_fields@.len(),
        forall|k: int| 0 <= k < n ==> (#[trigger] h.expr->StructLiteral_fields@[k]).0@ == a->StructLiteral_fields@[k].0@
            && hir_rel(env, a->StructLiteral_fields@[k].1, h.expr->StructLiteral_fields@[k].1),
    ensures
        hir_fields_rel(env, a, h, n),
    decreases n,
{
    if n > 0 {
        lemma_hir_fields_rel(env, a, h, n - 1);
    }
}

// ---------------------------------------------------------------------------------------------
// Places.

/// The type of an assignment target; `None` where it does not type check.
pub open spec fn place_ty(env: TyEnv, lv: ASTLValue) -> Option<GType>
    decreases lv,
{
    match lv {
        ASTLValue::Variable(name) => name_type(env, name@),
        ASTLValue::FieldAccess { of, field } => match place_ty(env, *of) {
            Some(t) => if t is NewType { field_type(env.types, t, field@) } else { None },
            None => None,
        },
        ASTLValue::Deref(e) => match expr_ty(env, e) {
            Some(GType::Reference(t)) => Some(*t),
            _ => None,
        },
    }
}

/// `p` is the typed, resolved form of `lv`.
pub open spec fn place_rel(env: TyEnv, lv: ASTLValue, p: Place) -> bool
    decreases lv,
{
    &&& p.typ@ == place_ty(env, lv)->Some_0
    &&& match lv {
        ASTLValue::Variable(name) => p.place is Variable && p.place->Variable_0 == var_lookup(env, name@)->Some_0,
        ASTLValue::FieldAccess { of, field } => {
            &&& p.place is StructField
            &&& p.place->StructField_field@ == field@
            &&& place_rel(env, *of, *p.place->StructField_of)
        },
        ASTLValue::Deref(e) => p.place is Deref && hir_rel(env, e, p.place->Deref_0),
    }
}

pub open spec fn place_calls(env: TyEnv, lv: ASTLValue) -> Seq<(usize, Seq<GType>)>
    decreases lv,
{
    match lv {
        ASTLValue::Variable(_) => Seq::empty(),
        ASTLValue::FieldAccess { of, .. } => place_calls(env, *of),
        ASTLValue::Deref(e) => expr_calls(env, e),
    }
}

impl HIRBuilder {
    fn lower_lvalue(&mut self, sc: &ScopeContext, lvalue: &ASTLValue) -> (r: Place)
        requires
            old(self).wf_for(sc.func()),
            place_ty(old(self).env(sc), *lvalue) is Some,
        ensures
            final(self).wf_for(sc.func()),
            final(self).sigs() == old(self).sigs(),
            final(self).types() == old(self).types(),
            final(self).graph().typevars() == old(self).graph().typevars(),
            final(self).graph().callees() == old(self).graph().callees().insert(
                sc.func().0,
                old(self).graph().callees()[sc.func().0] + place_calls(old(self).env(sc), *lvalue),
            ),
            place_rel(old(self).env(sc), *lvalue, r),
        decreases *lvalue,
    {
        let ghost f = sc.func().0;
        let ghost c0 = self.graph().callees();
        match lvalue {
            ASTLValue::Variable(var_name) => {
                let (id, typ) = sc.get_var_info(var_name);
                assert(c0[f] + Seq::<(usize, Seq<GType>)>::empty() =~= c0[f]);
                assert(c0.insert(f, c0[f]) =~= c0);
                Place { typ, place: PlaceKind::Variable(id) }
            },
            ASTLValue::FieldAccess { of, field } => {
                let hir_of = self.lower_lvalue(sc, of);
                let field_typ = self.field_of(&hir_of.typ, field);
                Place { typ: field_typ, place: PlaceKind::StructField { of: Box::new(hir_of), field: field.clone() } }
            },
            ASTLValue::Deref(reference) => {
                let hir_ref = self.lower_expression(sc, reference);
                let t = match &hir_ref.typ {
                    GenericType::Reference(t) => clone_generic(t),
                    _ => {
                        assert(false);
                        GenericType::Prim(PrimType::Unit)
                    },
                };
                Place { typ: t, place: PlaceKind::Deref(hir_ref) }
            },
        }
    }
}

// ---------------------------------------------------------------------------------------------
// Declared types against value types.

/// Whether a value of type `c` may initialize a variable declared with type `t`: type
/// variables of `t` accept anything. `None` where the comparison fails on a struct with fewer
/// type arguments in `c` than in `t`.
pub open spec fn types_match_spec(t: GType, c: GType) -> Option<bool>
    decreases t, 1nat, 0nat,
{
    match t {
        GType::Prim(_) => Some(t == c),
        GType::NewType(id, tps) => match c {
            GType::NewType(cid, ctps) => if cid != id { Some(false) } else { params_match(t, ctps, tps.len() as int) },
            _ => Some(false),
        },
        GType::Reference(x) => match c {
            GType::Reference(y) => types_match_spec(*x, *y),
            _ => Some(false),
        },
        GType::TypeVar(_) => Some(true),
    }
}

/// Comparing the first `n` type arguments of `t` with `ctps`, the first mismatch first.
pub open spec fn params_match(t: GType, ctps: Seq<GType>, n: int) -> Option<bool>
    decreases t, 0nat, n,
{
    if n <= 0 {
        Some(true)
    } else if !(t is NewType) || n > t->NewType_1.len() {
        Some(true)
    } else {
        match params_match(t, ctps, n - 1) {
            Some(true) => if n - 1 >= ctps.len() {
                None
            } else {
                proof {
                    assert(decreases_to!(t => t->NewType_1));
                    assert(decreases_to!(t->NewType_1 => t->NewType_1[n - 1]));
                }
                types_match_spec(t->NewType_1[n - 1], ctps[n - 1])
            },
            other => other,
        }
    }
}

fn types_match(target: &GenericType, candidate: &GenericType) -> (r: bool)
    requires
        types_match_spec(target@, candidate@) is Some,
    ensures
        r == types_match_spec(target@, candidate@)->Some_0,
{
    match try_types_match(target, candidate) {
        Some(r) => r,
        None => {
            assert(false);
            false
        },
    }
}

/// Compares a declared type with a value's type as `types_match_spec` does, `None` included.
#[verifier::loop_isolation(false)]
fn try_types_match(target: &GenericType, candidate: &GenericType) -> (r: Option<bool>)
    ensures
        r == types_match_spec(target@, candidate@),
    decreases target,
{
    match target {
        GenericType::Prim(..) => Some(generic_eq(target, candidate)),
        GenericType::NewType(id, tparams) => {
            let (cand_id, cand_tparams) = match candidate {
                GenericType::NewType(cid, ctps) => (cid, ctps),
                _ => {
                    return Some(false);
                },
            };
            if cand_id.0 != id.0 {
                return Some(false);
            }
            proof {
                lemma_generic_views(tparams@);
                lemma_generic_views(cand_tparams@);
            }
            let ghost n = generic_views(tparams@).len() as int;
            let ghost ctps = generic_views(cand_tparams@);
            let mut i: usize = 0;
            while i < tparams.len()
                invariant
                    i <= tparams.len(),
                    target@ == GType::NewType(id.0@, generic_views(tparams@)),
                    candidate@ == GType::NewType(cand_id.0@, ctps),
                    id.0@ == cand_id.0@,
                    n == tparams@.len(),
                    generic_views(tparams@).len() == tparams@.len(),
                    ctps.len() == cand_tparams@.len(),
                    forall|j: int| 0 <= j < tparams@.len() ==> generic_views(tparams@)[j] == tparams@[j]@,
                    forall|j: int| 0 <= j < cand_tparams@.len() ==> ctps[j] == cand_tparams@[j]@,
                    params_match(target@, ctps, i as int) == Some(true),
                decreases tparams.len() - i,
            {
                if i >= cand_tparams.len() {
                    proof {
                        lemma_params_match_none(target@, ctps, i + 1, n);
                    }
                    return None;
                }
                proof {
                    assert(decreases_to!(*target => *tparams));
                    assert(decreases_to!(*tparams => tparams@));
                    assert(decreases_to!(tparams@ => tparams@[i as int]));
                }
                match try_types_match(&tparams[i], &cand_tparams[i]) {
                    Some(true) => {},
                    Some(false) => {
                        proof {
                            lemma_params_match_false(target@, ctps, i + 1, n);
                        }
                        return Some(false);
                    },
                    None => {
                        proof {
                            lemma_params_match_none(target@, ctps, i + 1, n);
                        }
                        return None;
                    },
                }
                i = i + 1;
            }
            Some(true)
        },
        GenericType::Reference(refd_typ) => match candidate {
            GenericType::Reference(cand_refd_typ) => try_types_match(refd_typ, cand_refd_typ),
            _ => Some(false),
        },
        GenericType::TypeVar(..) => Some(true),
    }
}

pub proof fn lemma_params_match_none(t: GType, ctps: Seq<GType>, m: int, n: int)
    requires
        t is NewType,
        n <= t->NewType_1.len(),
        0 <= m <= n,
        params_match(t, ctps, m) is None,
    ensures
        params_match(t, ctps, n) is None,
    decreases n - m,
{
    if m < n {
        lemma_params_match_none(t, ctps, m, n - 1);
    }
}

pub proof fn lemma_params_match_prefix(t: GType, ctps: Seq<GType>, m: int, n: int)
    requires
        t is NewType,
        n <= t->NewType_1.len(),
        0 <= m <= n,
        params_match(t, ctps, n) is Some,
    ensures
        params_match(t, ctps, m) is Some,
        params_match(t, ctps, m) == Some(false) ==> params_match(t, ctps, n) == Some(false),
    decreases n - m,
{
    if m < n {
        lemma_params_match_prefix(t, ctps, m, n - 1);
    }
}

pub proof fn lemma_params_match_false(t: GType, ctps: Seq<GType>, m: int, n: int)
    requires
        t is NewType,
        n <= t->NewType_1.len(),
        0 <= m <= n,
        params_match(t, ctps, m) == Some(false),
    ensures
        params_match(t, ctps, n) == Some(false),
    decreases n - m,
{
    if m < n {
        lemma_params_match_false(t, ctps, m, n - 1);
    }
}

// ---------------------------------------------------------------------------------------------
// Statements and blocks.

/// The scopes and variables of a function while it is lowered.
pub struct SState {
    pub scopes: Seq<Seq<(Seq<char>, VarId)>>,
    pub vars: Seq<(VarId, GType)>,
    /// For each scope, whether it is a loop body.
    pub loops: Seq<bool>,
    /// The identifier of the next variable.
    pub counter: nat,
}

/// What stays fixed while a function is lowered.
pub struct Globals {
    pub sigs: Seq<SigV>,
    pub types: TableV,
    /// The function's return type.
    pub ret: GType,
}

pub type Calls = Seq<(usize, Seq<GType>)>;

pub open spec fn senv(g: Globals, st: SState) -> TyEnv {
    TyEnv { scopes: st.scopes, vars: st.vars, sigs: g.sigs, types: g.types }
}

/// Declares variable `name` of type `t` in the innermost scope, with the next identifier.
pub open spec fn declare(st: SState, name: Seq<char>, t: GType) -> SState {
    SState {
        scopes: st.scopes.update(st.scopes.len() - 1, st.scopes.last().push((name, VarId(st.counter as usize)))),
        vars: st.vars.push((VarId(st.counter as usize), t)),
        loops: st.loops,
        counter: st.counter + 1,
    }
}

pub open spec fn open_scope(st: SState, lp: bool) -> SState {
    SState { scopes: st.scopes.push(Seq::empty()), vars: st.vars, loops: st.loops.push(lp), counter: st.counter }
}

pub open spec fn close_scope(st: SState) -> SState {
    SState { scopes: st.scopes.drop_last(), vars: st.vars, loops: st.loops.drop_last(), counter: st.counter }
}

/// Lowering a statement: the state after it and the calls it makes; `None` where it does not
/// type check, or breaks out of no loop.
pub open spec fn stmt_out(g: Globals, st: SState, s: ASTStatement) -> Option<(SState, Calls)>
    decreases s, 0nat,
{
    let env = senv(g, st);
    match s {
        ASTStatement::Let { var, value } => match expr_ty(env, value) {
            Some(t) => if types_match_spec(var.typ@, t) == Some(true) && st.counter < usize::MAX {
                Some((declare(st, var.name@, var.typ@), expr_calls(env, value)))
            } else {
                None
            },
            None => None,
        },
        ASTStatement::Assign { target, value } => match (place_ty(env, target), expr_ty(env, value)) {
            (Some(pt), Some(vt)) => if pt == vt { Some((st, place_calls(env, target) + expr_calls(env, value))) } else { None },
            _ => None,
        },
        ASTStatement::If { condition, if_body, else_body } => match expr_ty(env, condition) {
            Some(ct) => if ct != bool_type() {
                None
            } else {
                match block_out(g, st, if_body, false) {
                    Some(r1) => match else_body {
                        Some(eb) => match block_out(g, r1.0, eb, false) {
                            Some(r2) => Some((r2.0, expr_calls(env, condition) + r1.1 + r2.1)),
                            None => None,
                        },
                        None => Some((r1.0, expr_calls(env, condition) + r1.1)),
                    },
                    None => None,
                }
            },
            None => None,
        },
        ASTStatement::While { condition, body } => match expr_ty(env, condition) {
            Some(ct) => if ct != bool_type() {
                None
            } else {
                match block_out(g, st, body, true) {
                    Some(r1) => Some((r1.0, expr_calls(env, condition) + r1.1)),
                    None => None,
                }
            },
            None => None,
        },
        ASTStatement::Break => if st.loops.contains(true) { Some((st, Seq::empty())) } else { None },
        ASTStatement::Continue => if st.loops.contains(true) { Some((st, Seq::empty())) } else { None },
        ASTStatement::Return(e) => match expr_ty(env, e) {
            Some(t) => if t == g.ret { Some((st, expr_calls(env, e))) } else { None },
            None => None,
        },
        ASTStatement::Print(e) => match expr_ty(env, e) {
            Some(_) => Some((st, expr_calls(env, e))),
            None => None,
        },
        ASTStatement::Call(e) => match expr_ty(env, e) {
            Some(_) => Some((st, expr_calls(env, e))),
            None => None,
        },
    }
}

/// Lowering a block: a new scope around its statements.
pub open spec fn block_out(g: Globals, st: SState, body: Vec<ASTStatement>, lp: bool) -> Option<(SState, Calls)>
    decreases body, body@.len() + 1,
{
    match stmts_out(g, open_scope(st, lp), body, body@.len() as int) {
        Some(r) => Some((close_scope(r.0), r.1)),
        None => None,
    }
}

/// Lowering the first `n` statements of a block, one after the other.
pub open spec fn stmts_out(g: Globals, st: SState, body: Vec<ASTStatement>, n: int) -> Option<(SState, Calls)>
    decreases body, n,
{
    if n <= 0 || n > body@.len() {
        if n <= 0 { Some((st, Seq::empty())) } else { None }
    } else {
        match stmts_out(g, st, body, n - 1) {
            Some(r1) => {
                proof {
                    assert(decreases_to!(body => body@));
                    assert(decreases_to!(body@ => body@[n - 1]));
                }
                match stmt_out(g, r1.0, body@[n - 1]) {
                    Some(r2) => Some((r2.0, r1.1 + r2.1)),
                    None => None,
                }
            },
            None => None,
        }
    }
}

/// `h` is the typed form of statement `s`, lowered in state `st`.
pub open spec fn stmt_rel(g: Globals, st: SState, s: ASTStatement, h: HIRStatement) -> bool
    decreases s, 0nat,
{
    let env = senv(g, st);
    match s {
        ASTStatement::Let { var, value } => {
            &&& h is Let
            &&& h->Let_var == VarId(st.counter as usize)
            &&& hir_rel(env, value, h->Let_value)
        },
        ASTStatement::Assign { target, value } => {
            &&& h is Assign
            &&& place_rel(env, target, h->Assign_target)
            &&& hir_rel(env, value, h->Assign_value)
        },
        ASTStatement::If { condition, if_body, else_body } => {
            &&& h is If
            &&& hir_rel(env, condition, h->If_condition)
            &&& block_rel(g, st, if_body, h->If_if_body@, false)
            &&& match else_body {
                Some(eb) => h->If_else_body is Some && block_rel(g, block_out(g, st, if_body, false)->Some_0.0, eb, h->If_else_body->Some_0@, false),
                None => h->If_else_body is None,
            }
        },
        ASTStatement::While { condition, body } => {
            &&& h is While
            &&& hir_rel(env, condition, h->While_condition)
            &&& block_rel(g, st, body, h->While_body@, true)
        },
        ASTStatement::Break => h is Break,
        ASTStatement::Continue => h is Continue,
        ASTStatement::Return(e) => h is Return && h->Return_0 is Some && hir_rel(env, e, h->Return_0->Some_0),
        ASTStatement::Print(e) => h is Print && hir_rel(env, e, h->Print_0),
        ASTStatement::Call(e) => h is Call && hir_rel(env, e, h->Call_0),
    }
}

pub open spec fn block_rel(g: Globals, st: SState, body: Vec<ASTStatement>, hb: Seq<HIRStatement>, lp: bool) -> bool
    decreases body, body@.len() + 1,
{
    &&& hb.len() == body@.len()
    &&& stmts_rel(g, open_scope(st, lp), body, hb, body@.len() as int)
}

pub open spec fn stmts_rel(g: Globals, st: SState, body: Vec<ASTStatement>, hb: Seq<HIRStatement>, n: int) -> bool
    decreases body, n,
{
    if n <= 0 || n > body@.len() || n > hb.len() {
        n <= 0
    } else {
        proof {
            assert(decreases_to!(body => body@));
            assert(decreases_to!(body@ => body@[n - 1]));
        }
        &&& stmts_rel(g, st, body, hb, n - 1)
        &&& stmt_rel(g, stmts_out(g, st, body, n - 1)->Some_0.0, body@[n - 1], hb[n - 1])
    }
}

/// Lowering keeps the number of scopes and which of them are loop bodies.
pub proof fn lemma_stmt_out_scopes(g: Globals, st: SState, s: ASTStatement)
    requires
        stmt_out(g, st, s) is Some,
        st.scopes.len() >= 1,
    ensures
        stmt_out(g, st, s)->Some_0.0.scopes.len() == st.scopes.len(),
        stmt_out(g, st, s)->Some_0.0.loops == st.loops,
        stmt_out(g, st, s)->Some_0.0.counter >= st.counter,
    decreases s, 0nat,
{
    match s {
        ASTStatement::If { condition, if_body, else_body } => {
            lemma_block_out_scopes(g, st, if_body, false);
            if let Some(eb) = else_body {
                lemma_block_out_scopes(g, block_out(g, st, if_body, false)->Some_0.0, eb, false);
            }
        },
        ASTStatement::While { condition, body } => {
            lemma_block_out_scopes(g, st, body, true);
        },
        _ => {},
    }
}

pub proof fn lemma_block_out_scopes(g: Globals, st: SState, body: Vec<ASTStatement>, lp: bool)
    requires
        block_out(g, st, body, lp) is Some,
        st.scopes.len() >= 1,
    ensures
        block_out(g, st, body, lp)->Some_0.0.scopes.len() == st.scopes.len(),
        block_out(g, st, body, lp)->Some_0.0.loops == st.loops,
        block_out(g, st, body, lp)->Some_0.0.counter >= st.counter,
    decreases body, body@.len() + 1,
{
    lemma_stmts_out_scopes(g, open_scope(st, lp), body, body@.len() as int);
    assert(st.loops.push(lp).drop_last() =~= st.loops);
}

pub proof fn lemma_stmts_out_scopes(g: Globals, st: SState, body: Vec<ASTStatement>, n: int)
    requires
        stmts_out(g, st, body, n) is Some,
        st.scopes.len() >= 1,
    ensures
        stmts_out(g, st, body, n)->Some_0.0.scopes.len() == st.scopes.len(),
        stmts_out(g, st, body, n)->Some_0.0.loops == st.loops,
        stmts_out(g, st, body, n)->Some_0.0.counter >= st.counter,
    decreases body, n,
{
    if n > 0 {
        lemma_stmts_out_scopes(g, st, body, n - 1);
        assert(decreases_to!(body => body@));
        assert(decreases_to!(body@ => body@[n - 1]));
        lemma_stmt_out_scopes(g, stmts_out(g, st, body, n - 1)->Some_0.0, body@[n - 1]);
    }
}

pub proof fn lemma_stmts_out_prefix(g: Globals, st: SState, body: Vec<ASTStatement>, m: int, n: int)
    requires
        0 <= m <= n,
        stmts_out(g, st, body, n) is Some,
    ensures
        stmts_out(g, st, body, m) is Some,
    decreases n - m,
{
    if m < n {
        lemma_stmts_out_prefix(g, st, body, m, n - 1);
    }
}

impl ScopeContext {
    pub open spec fn state(&self) -> SState {
        SState { scopes: self.scopes(), vars: self.vars(), loops: self.loops(), counter: self.counter() }
    }

    fn ret_type_ref(&self) -> (r: &GenericType)
        ensures
            r@ == self.ret_type(),
    {
        &self.ambient_func.2
    }
}

impl HIRBuilder {
    pub open spec fn globals(&self, sc: &ScopeContext) -> Globals {
        Globals { sigs: self.sigs(), types: self.types(), ret: sc.ret_type() }
    }

    /// Type checks a statement and resolves it; declares the variables it introduces.
    #[verifier::spinoff_prover]
    #[verifier::rlimit(40)]
    fn lower_statement(&mut self, sc: &mut ScopeContext, statement: &ASTStatement) -> (r: HIRStatement)
        requires
            old(self).wf_for(old(sc).func()),
            old(sc).wf(),
            stmt_out(old(self).globals(old(sc)), old(sc).state(), *statement) is Some,
        ensures
            final(self).wf_for(final(sc).func()),
            final(sc).wf(),
            final(sc).func() == old(sc).func(),
            final(sc).ret_type() == old(sc).ret_type(),
            final(sc).state() == stmt_out(old(self).globals(old(sc)), old(sc).state(), *statement)->Some_0.0,
            final(self).sigs() == old(self).sigs(),
            final(self).types() == old(self).types(),
            final(self).graph().typevars() == old(self).graph().typevars(),
            final(self).graph().callees() == old(self).graph().callees().insert(
                old(sc).func().0,
                old(self).graph().callees()[old(sc).func().0] + stmt_out(old(self).globals(old(sc)), old(sc).state(), *statement)->Some_0.1,
            ),
            stmt_rel(old(self).globals(old(sc)), old(sc).state(), *statement, r),
        decreases *statement, 0nat,
    {
        let ghost g = self.globals(sc);
        let ghost st = sc.state();
        let ghost env = senv(g, st);
        let ghost f = sc.func().0;
        let ghost c0 = self.graph().callees();
        assert(self.env(sc) == env);
        match statement {
            ASTStatement::Let { var, value } => {
                let hir_value = self.lower_expression(sc, value);
                if !types_match(&var.typ, &hir_value.typ) {
                    assert(false);
                }
                let var_id = sc.add_var(var.clone());
                proof {
                    assert(sc.state() =~= declare(st, var.name@, var.typ@));
                }
                HIRStatement::Let { var: var_id, value: hir_value }
            },
            ASTStatement::Assign { target, value } => {
                let hir_target = self.lower_lvalue(sc, target);
                let hir_value = self.lower_expression(sc, value);
                if !generic_eq(&hir_target.typ, &hir_value.typ) {
                    assert(false);
                }
                assert(c0[f] + place_calls(env, *target) + expr_calls(env, *value) =~= c0[f] + (place_calls(env, *target) + expr_calls(env, *value)));
                HIRStatement::Assign { target: hir_target, value: hir_value }
            },
            ASTStatement::If { condition, if_body, else_body } => {
                let hir_condition = self.lower_expression(sc, condition);
                if !generic_eq(&hir_condition.typ, &GenericType::Prim(PrimType::Bool)) {
                    assert(false);
                }
                let ghost c1 = self.graph().callees();
                let hir_if = self.lower_block(sc, if_body, false);
                let ghost r1 = block_out(g, st, *if_body, false)->Some_0;
                let hir_else = match else_body {
                    Some(block) => {
                        let b = self.lower_block(sc, block, false);
                        proof {
                            let r2 = block_out(g, r1.0, *block, false)->Some_0;
                            assert(c0[f] + expr_calls(env, *condition) + r1.1 + r2.1 =~= c0[f] + (expr_calls(env, *condition) + r1.1 + r2.1));
                        }
                        Some(b)
                    },
                    None => {
                        assert(c0[f] + expr_calls(env, *condition) + r1.1 =~= c0[f] + (expr_calls(env, *condition) + r1.1));
                        None
                    },
                };
                HIRStatement::If { condition: hir_condition, if_body: hir_if, else_body: hir_else }
            },
            ASTStatement::While { condition, body } => {
                let hir_condition = self.lower_expression(sc, condition);
                if !generic_eq(&hir_condition.typ, &GenericType::Prim(PrimType::Bool)) {
                    assert(false);
                }
                let hir_body = self.lower_block(sc, body, true);
                proof {
                    let r1 = block_out(g, st, *body, true)->Some_0;
                    assert(c0[f] + expr_calls(env, *condition) + r1.1 =~= c0[f] + (expr_calls(env, *condition) + r1.1));
                }
                HIRStatement::While { condition: hir_condition, body: hir_body }
            },
            ASTStatement::Break => {
                if !sc.in_loop() {
                    assert(false);
                }
                assert(c0[f] + Seq::<(usize, Seq<GType>)>::empty() =~= c0[f]);
                assert(c0.insert(f, c0[f]) =~= c0);
                HIRStatement::Break
            },
            ASTStatement::Continue => {
                if !sc.in_loop() {
                    assert(false);
                }
                assert(c0[f] + Seq::<(usize, Seq<GType>)>::empty() =~= c0[f]);
                assert(c0.insert(f, c0[f]) =~= c0);
                HIRStatement::Continue
            },
            ASTStatement::Return(expr) => {
                let hir_expr = self.lower_expression(sc, expr);
                if !generic_eq(&hir_expr.typ, sc.ret_type_ref()) {
                    assert(false);
                }
                HIRStatement::Return(Some(hir_expr))
            },
            ASTStatement::Print(expr) => {
                let hir_expr = self.lower_expression(sc, expr);
                HIRStatement::Print(hir_expr)
            },
            ASTStatement::Call(expr) => {
                let hir_expr = self.lower_expression(sc, expr);
                HIRStatement::Call(hir_expr)
            },
        }
    }

    /// Lowers the statements of a block in a scope of its own.
    #[verifier::spinoff_prover]
    fn lower_block(&mut self, sc: &mut ScopeContext, stmts: &Vec<ASTStatement>, loop_block: bool) -> (r: Vec<HIRStatement>)
        requires
            old(self).wf_for(old(sc).func()),
            old(sc).wf(),
            block_out(old(self).globals(old(sc)), old(sc).state(), *stmts, loop_block) is Some,
        ensures
            final(self).wf_for(final(sc).func()),
            final(sc).wf(),
            final(sc).func() == old(sc).func(),
            final(sc).ret_type() == old(sc).ret_type(),
            final(sc).state() == block_out(old(self).globals(old(sc)), old(sc).state(), *stmts, loop_block)->Some_0.0,
            final(self).sigs() == old(self).sigs(),
            final(self).types() == old(self).types(),
            final(self).graph().typevars() == old(self).graph().typevars(),
            final(self).graph().callees() == old(self).graph().callees().insert(
                old(sc).func().0,
                old(self).graph().callees()[old(sc).func().0] + block_out(old(self).globals(old(sc)), old(sc).state(), *stmts, loop_block)->Some_0.1,
            ),
            block_rel(old(self).globals(old(sc)), old(sc).state(), *stmts, r@, loop_block),
        decreases *stmts, stmts@.len() + 1,
    {
        let ghost g = self.globals(sc);
        let ghost st0 = open_scope(sc.state(), loop_block);
        let ghost f = sc.func().0;
        let ghost c0 = self.graph().callees();
        sc.add_scope(loop_block);
        assert(sc.state() == st0);
        let mut out: Vec<HIRStatement> = Vec::new();
        let mut i: usize = 0;
        assert(c0[f] + Seq::<(usize, Seq<GType>)>::empty() =~= c0[f]);
        assert(c0.insert(f, c0[f]) =~= c0);
        while i < stmts.len()
            invariant
                i <= stmts.len(),
                self.wf_for(sc.func()),
                sc.wf(),
                sc.func().0 == f,
                sc.ret_type() == g.ret,
                self.sigs() == g.sigs,
                self.types() == g.types,
                self.graph().typevars() == old(self).graph().typevars(),
                stmts_out(g, st0, *stmts, stmts@.len() as int) is Some,
                stmts_out(g, st0, *stmts, i as int) is Some,
                sc.state() == stmts_out(g, st0, *stmts, i as int)->Some_0.0,
                self.graph().callees() == c0.insert(f, c0[f] + stmts_out(g, st0, *stmts, i as int)->Some_0.1),
                out@.len() == i,
                forall|k: int| 0 <= k < i ==> stmt_rel(g, stmts_out(g, st0, *stmts, k)->Some_0.0, stmts@[k], #[trigger] out@[k]),
                sc.state().scopes.len() == st0.scopes.len(),
                sc.state().loops == st0.loops,
            decreases stmts.len() - i,
        {
            proof {
                lemma_stmts_out_prefix(g, st0, *stmts, i + 1, stmts@.len() as int);
                assert(decreases_to!(*stmts => stmts@));
                assert(decreases_to!(stmts@ => stmts@[i as int]));
                lemma_stmt_out_scopes(g, sc.state(), stmts@[i as int]);
            }
            let ghost before = self.graph().callees();
            let h = self.lower_statement(sc, &stmts[i]);
            out.push(h);
            proof {
                let r1 = stmts_out(g, st0, *stmts, i as int)->Some_0;
                let r2 = stmt_out(g, r1.0, stmts@[i as int])->Some_0;
                assert(c0[f] + r1.1 + r2.1 =~= c0[f] + (r1.1 + r2.1));
                assert(self.graph().callees() =~= c0.insert(f, c0[f] + stmts_out(g, st0, *stmts, i + 1)->Some_0.1));
            }
            i = i + 1;
        }
        proof {
            lemma_stmts_rel(g, st0, *stmts, out@, stmts@.len() as int);
        }
        sc.exit_scope();
        assert(sc.state() == close_scope(stmts_out(g, st0, *stmts, stmts@.len() as int)->Some_0.0));
        out
    }
}

impl HIRBuilder {
    /// Type checks a statement in scope `sc` as `stmt_out` does, declaring the variables it
    /// introduces; `false` where it does not type check or breaks out of no loop.
    #[verifier::spinoff_prover]
    fn check_statement(&self, sc: &mut ScopeContext, statement: &ASTStatement) -> (r: bool)
        requires
            old(sc).wf(),
        ensures
            final(sc).wf(),
            final(sc).func() == old(sc).func(),
            final(sc).ret_type() == old(sc).ret_type(),
            r == stmt_out(self.globals(old(sc)), old(sc).state(), *statement) is Some,
            r ==> final(sc).state() == stmt_out(self.globals(old(sc)), old(sc).state(), *statement)->Some_0.0,
        decreases *statement, 0nat,
    {
        let ghost g = self.globals(sc);
        let ghost st = sc.state();
        let ghost env = senv(g, st);
        assert(self.env(sc) == env);
        match statement {
            ASTStatement::Let { var, value } => {
                let t = match self.check_expression(sc, value) {
                    Some(t) => t,
                    None => return false,
                };
                match try_types_match(&var.typ, &t) {
                    Some(true) => {},
                    _ => return false,
                }
                if sc.var_counter == usize::MAX {
                    return false;
                }
                sc.add_var(var.clone());
                proof {
                    assert(sc.state() =~= declare(st, var.name@, var.typ@));
                }
                true
            },
            ASTStatement::Assign { target, value } => {
                let pt = match self.check_place(sc, target) {
                    Some(t) => t,
                    None => return false,
                };
                let vt = match self.check_expression(sc, value) {
                    Some(t) => t,
                    None => return false,
                };
                generic_eq(&pt, &vt)
            },
            ASTStatement::If { condition, if_body, else_body } => {
                let ct = match self.check_expression(sc, condition) {
                    Some(t) => t,
                    None => return false,
                };
                if !generic_eq(&ct, &GenericType::Prim(PrimType::Bool)) {
                    return false;
                }
                if !self.check_block(sc, if_body, false) {
                    return false;
                }
                match else_body {
                    Some(block) => self.check_block(sc, block, false),
                    None => true,
                }
            },
            ASTStatement::While { condition, body } => {
                let ct = match self.check_expression(sc, condition) {
                    Some(t) => t,
                    None => return false,
                };
                if !generic_eq(&ct, &GenericType::Prim(PrimType::Bool)) {
                    return false;
                }
                self.check_block(sc, body, true)
            },
            ASTStatement::Break => sc.in_loop(),
            ASTStatement::Continue => sc.in_loop(),
            ASTStatement::Return(expr) => match self.check_expression(sc, expr) {
                Some(t) => generic_eq(&t, sc.ret_type_ref()),
                None => false,
            },
            ASTStatement::Print(expr) => match self.check_expression(sc, expr) {
                Some(_) => true,
                None => false,
            },
            ASTStatement::Call(expr) => match self.check_expression(sc, expr) {
                Some(_) => true,
                None => false,
            },
        }
    }

    /// Type checks the statements of a block in a scope of its own, as `block_out` does.
    #[verifier::spinoff_prover]
    fn check_block(&self, sc: &mut ScopeContext, stmts: &Vec<ASTStatement>, loop_block: bool) -> (r: bool)
        requires
            old(sc).wf(),
        ensures
            final(sc).wf(),
            final(sc).func() == old(sc).func(),
            final(sc).ret_type() == old(sc).ret_type(),
            r == block_out(self.globals(old(sc)), old(sc).state(), *stmts, loop_block) is Some,
            r ==> final(sc).state() == block_out(self.globals(old(sc)), old(sc).state(), *stmts, loop_block)->Some_0.0,
        decreases *stmts, stmts@.len() + 1,
    {
        let ghost g = self.globals(sc);
        let ghost st0 = open_scope(sc.state(), loop_block);
        let ghost n = stmts@.len() as int;
        let ghost f = sc.func();
        sc.add_scope(loop_block);
        assert(sc.state() == st0);
        let mut i: usize = 0;
        while i < stmts.len()
            invariant
                i <= stmts.len(),
                n == stmts@.len(),
                sc.wf(),
                sc.func() == f,
                f == old(sc).func(),
                sc.ret_type() == g.ret,
                g == self.globals(sc),
                g == self.globals(old(sc)),
                st0 == open_scope(old(sc).state(), loop_block),
                stmts_out(g, st0, *stmts, i as int) is Some,
                sc.state() == stmts_out(g, st0, *stmts, i as int)->Some_0.0,
                sc.state().scopes.len() == st0.scopes.len(),
                sc.state().loops == st0.loops,
            decreases stmts.len() - i,
        {
            proof {
                assert(decreases_to!(*stmts => stmts@));
                assert(decreases_to!(stmts@ => stmts@[i as int]));
            }
            let ghost sti = sc.state();
            if !self.check_statement(sc, &stmts[i]) {
                proof {
                    if stmts_out(g, st0, *stmts, n) is Some {
                        lemma_stmts_out_prefix(g, st0, *stmts, i + 1, n);
                    }
                }
                return false;
            }
            proof {
                lemma_stmt_out_scopes(g, sti, stmts@[i as int]);
            }
            i = i + 1;
        }
        sc.exit_scope();
        assert(sc.state() == close_scope(stmts_out(g, st0, *stmts, n)->Some_0.0));
        true
    }
}

pub proof fn lemma_stmts_rel(g: Globals, st: SState, body: Vec<ASTStatement>, hb: Seq<HIRStatement>, n: int)
    requires
        0 <= n <= body@.len(),
        n <= hb.len(),
        forall|k: int| 0 <= k < n ==> stmt_rel(g, stmts_out(g, st, body, k)->Some_0.0, body@[k], #[trigger] hb[k]),
    ensures
        stmts_rel(g, st, body, hb, n),
    decreases n,
{
    if n > 0 {
        lemma_stmts_rel(g, st, body, hb, n - 1);
    }
}

// ---------------------------------------------------------------------------------------------
// Functions and programs.

pub open spec fn init_state() -> SState {
    SState { scopes: seq![Seq::empty()], vars: Seq::empty(), loops: seq![false], counter: 0 }
}

/// The state after declaring the first `n` arguments.
pub open spec fn args_state(args: Seq<(String, GenericType)>, n: int) -> SState
    decreases n,
{
    if n <= 0 {
        init_state()
    } else {
        declare(args_state(args, n - 1), args[n - 1].0@, args[n - 1].1@)
    }
}

/// The signatures of a program's functions; function `i` gets identifier `i`.
pub open spec fn program_sigs(fs: Seq<(GenericFuncSignature, ASTFunction)>) -> Seq<SigV> {
    Seq::new(fs.len(), |i: int| (
        fs[i].0.name@,
        params_view(fs[i].0.typevars@),
        generic_views(fs[i].0.argtypes@),
        FuncId(i as usize),
        fs[i].1.ret_type@,
    ))
}

pub open spec fn fn_globals(sigs: Seq<SigV>, types: TableV, func: ASTFunction) -> Globals {
    Globals { sigs, types, ret: func.ret_type@ }
}

/// The function's body type checks once its arguments are declared.
pub open spec fn function_ok(sigs: Seq<SigV>, types: TableV, func: ASTFunction) -> bool {
    &&& func.args@.len() < usize::MAX
    &&& block_out(fn_globals(sigs, types, func), args_state(func.args@, func.args@.len() as int), func.body, false) is Some
}

/// The calls a function's body makes.
pub open spec fn function_calls(sigs: Seq<SigV>, types: TableV, func: ASTFunction) -> Calls {
    block_out(fn_globals(sigs, types, func), args_state(func.args@, func.args@.len() as int), func.body, false)->Some_0.1
}

pub open spec fn unit_type() -> GType {
    GType::Prim(PrimType::Unit)
}

/// `h` is the lowered `func`: its arguments are the first variables, its body the lowered
/// body, followed by a return where the function returns nothing.
pub open spec fn function_rel(sigs: Seq<SigV>, types: TableV, func: ASTFunction, h: HIRFunction) -> bool {
    let g = fn_globals(sigs, types, func);
    let n = func.args@.len();
    let st = args_state(func.args@, n as int);
    let out = block_out(g, st, func.body, false)->Some_0;
    &&& h.name@ == func.name@
    &&& h.typvars@ == func.typvars@
    &&& h.ret_type@ == func.ret_type@
    &&& h.args@ == Seq::new(n, |i: int| VarId(i as usize))
    &&& vars_view(h.variables@) == out.0.vars
    &&& if func.ret_type@ == unit_type() {
        &&& h.body@.len() == func.body@.len() + 1
        &&& h.body@.last() is Return
        &&& h.body@.last()->Return_0 is None
        &&& block_rel(g, st, func.body, h.body@.drop_last(), false)
    } else {
        block_rel(g, st, func.body, h.body@, false)
    }
}

/// The graph holds exactly the functions `0 .. fs.len()`, each with its own type variables
/// and no calls recorded.
pub open spec fn fresh_graph(g: CallGraph, fs: Seq<(GenericFuncSignature, ASTFunction)>) -> bool {
    &&& g.wf()
    &&& forall|k: usize| #[trigger] g.callees().dom().contains(k) ==> k < fs.len()
    &&& forall|k: usize| k < fs.len() ==> #[trigger] g.callees().dom().contains(k) && g.callees()[k].len() == 0
    &&& forall|k: usize| k < fs.len() ==> #[trigger] g.typevars().dom().contains(k)
        && g.typevars()[k] == params_view(fs[k as int].0.typevars@)
}

impl HIRBuilder {
    fn new(ast_functions: &Vec<(GenericFuncSignature, ASTFunction)>, typetable: GenericTypetable) -> (r: Self)
        requires
            ast_functions@.len() < usize::MAX,
        ensures
            r.sigs() == program_sigs(ast_functions@),
            r.types() == typetable@,
            fresh_graph(r.graph(), ast_functions@),
    {
        let mut signature_map: Vec<((String, Vec<TypevarId>, Vec<GenericType>), (FuncId, GenericType))> = Vec::new();
        let mut graph_funcs: Vec<(FuncId, Vec<TypevarId>)> = Vec::new();
        let mut i: usize = 0;
        while i < ast_functions.len()
            invariant
                i <= ast_functions.len(),
                ast_functions@.len() < usize::MAX,
                signature_map@.len() == i,
                graph_funcs@.len() == i,
                sigs_view(signature_map@) == program_sigs(ast_functions@).subrange(0, i as int),
                forall|k: int| 0 <= k < i ==> (#[trigger] graph_funcs@[k]).0 == FuncId(k as usize)
                    && params_view(graph_funcs@[k].1@) == params_view(ast_functions@[k].0.typevars@),
            decreases ast_functions.len() - i,
        {
            let sgn = &ast_functions[i].0;
            let func = &ast_functions[i].1;
            let id = FuncId::from_raw(i);
            let ghost before = signature_map@;
            signature_map.push((
                (sgn.name.clone(), clone_params(&sgn.typevars), clone_generic_vec(&sgn.argtypes)),
                (id, clone_generic(&func.ret_type)),
            ));
            graph_funcs.push((id, clone_params(&sgn.typevars)));
            assert(sigs_view(signature_map@) =~= program_sigs(ast_functions@).subrange(0, i + 1));
            i = i + 1;
        }
        assert(program_sigs(ast_functions@).subrange(0, i as int) =~= program_sigs(ast_functions@));
        let call_graph = CallGraph::new(&graph_funcs);
        proof {
            let ncs = crate::shared::callgraph::no_calls(graph_funcs@);
            let tvs = crate::shared::callgraph::typevars_entries(graph_funcs@);
            assert forall|k: usize| k < ast_functions@.len() implies
                #[trigger] call_graph.callees().dom().contains(k) && call_graph.callees()[k].len() == 0 by {
                assert(ncs[k as int].0 == k);
                crate::shared::assoc::lemma_assoc_dom(ncs, k);
                crate::shared::assoc::lemma_assoc_index_of(ncs, k);
                let j = crate::shared::assoc::assoc_index(ncs, k);
                assert(ncs[j].1.len() == 0);
            }
            assert forall|k: usize| k < ast_functions@.len() implies
                #[trigger] call_graph.typevars().dom().contains(k)
                && call_graph.typevars()[k] == params_view(ast_functions@[k as int].0.typevars@) by {
                assert(tvs[k as int].0 == k);
                crate::shared::assoc::lemma_assoc_dom(tvs, k);
                crate::shared::assoc::lemma_assoc_index_of(tvs, k);
                let j = crate::shared::assoc::assoc_index(tvs, k);
                assert(graph_funcs@[j].0 == FuncId(j as usize));
                assert(j == k);
            }
            assert forall|k: usize| #[trigger] call_graph.callees().dom().contains(k) implies k < ast_functions@.len() by {
                crate::shared::assoc::lemma_assoc_dom(ncs, k);
                let j = choose|j: int| 0 <= j < ncs.len() && ncs[j].0 == k;
                assert(graph_funcs@[j].0 == FuncId(j as usize));
            }
            assert(fresh_graph(call_graph, ast_functions@));
        }
        HIRBuilder { signature_map, typetable, call_graph }
    }

    /// Lowers one function under identifier `id`.
    #[verifier::spinoff_prover]
    fn lower_function(&mut self, id: FuncId, func: &ASTFunction) -> (r: HIRFunction)
        requires
            old(self).wf_for(id),
            function_ok(old(self).sigs(), old(self).types(), *func),
        ensures
            final(self).wf_for(id),
            final(self).sigs() == old(self).sigs(),
            final(self).types() == old(self).types(),
            final(self).graph().typevars() == old(self).graph().typevars(),
            final(self).graph().callees() == old(self).graph().callees().insert(
                id.0,
                old(self).graph().callees()[id.0] + function_calls(old(self).sigs(), old(self).types(), *func),
            ),
            function_rel(old(self).sigs(), old(self).types(), *func, r),
    {
        let ghost g = fn_globals(self.sigs(), self.types(), *func);
        let mut scope_context = ScopeContext::new(id, clone_params(&func.typvars), clone_generic(&func.ret_type));
        let mut arg_ids: Vec<VarId> = Vec::new();
        let mut i: usize = 0;
        assert(scope_context.state() =~= args_state(func.args@, 0));
        while i < func.args.len()
            invariant
                i <= func.args.len(),
                func.args@.len() < usize::MAX,
                scope_context.wf(),
                scope_context.func() == id,
                scope_context.ret_type() == func.ret_type@,
                scope_context.state() == args_state(func.args@, i as int),
                scope_context.counter() == i,
                arg_ids@ == Seq::new(i as nat, |k: int| VarId(k as usize)),
            decreases func.args.len() - i,
        {
            let v = GenTypeVariable { name: func.args[i].0.clone(), typ: clone_generic(&func.args[i].1) };
            let vid = scope_context.add_var(v);
            arg_ids.push(vid);
            assert(scope_context.state() =~= args_state(func.args@, i + 1));
            assert(arg_ids@ =~= Seq::new((i + 1) as nat, |k: int| VarId(k as usize)));
            i = i + 1;
        }
        assert(self.globals(&scope_context) == g);
        let mut hir_body = self.lower_block(&mut scope_context, &func.body, false);
        let ghost lowered = hir_body@;
        if generic_eq(&func.ret_type, &GenericType::Prim(PrimType::Unit)) {
            hir_body.push(HIRStatement::Return(None));
            assert(hir_body@.drop_last() =~= lowered);
        }
        HIRFunction {
            name: func.name.clone(),
            typvars: clone_params(&func.typvars),
            args: arg_ids,
            variables: scope_context.var_map,
            body: hir_body,
            ret_type: clone_generic(&func.ret_type),
        }
    }
}

impl HIRBuilder {
    /// Whether a function's body type checks once its arguments are declared.
    fn check_function(&self, func: &ASTFunction) -> (r: bool)
        ensures
            r == function_ok(self.sigs(), self.types(), *func),
    {
        if func.args.len() == usize::MAX {
            return false;
        }
        let ghost g = fn_globals(self.sigs(), self.types(), *func);
        let mut scope_context = ScopeContext::new(FuncId(0), clone_params(&func.typvars), clone_generic(&func.ret_type));
        let mut i: usize = 0;
        assert(scope_context.state() =~= args_state(func.args@, 0));
        while i < func.args.len()
            invariant
                i <= func.args.len(),
                func.args@.len() < usize::MAX,
                scope_context.wf(),
                scope_context.ret_type() == func.ret_type@,
                scope_context.state() == args_state(func.args@, i as int),
                scope_context.counter() == i,
            decreases func.args.len() - i,
        {
            let v = GenTypeVariable { name: func.args[i].0.clone(), typ: clone_generic(&func.args[i].1) };
            scope_context.add_var(v);
            assert(scope_context.state() =~= args_state(func.args@, i + 1));
            i = i + 1;
        }
        assert(self.globals(&scope_context) == g);
        self.check_block(&mut scope_context, &func.body, false)
    }
}

// ---------------------------------------------------------------------------------------------
// Whole programs.

/// Type variables as types.
pub open spec fn typevar_types(ps: Seq<Seq<char>>) -> Seq<GType> {
    ps.map_values(|p: Seq<char>| GType::TypeVar(p))
}

/// The identifier a function's own signature resolves to.
pub open spec fn own_id(fs: Seq<(GenericFuncSignature, ASTFunction)>, i: int) -> Option<FuncId> {
    match find_sig(
        program_sigs(fs),
        fs[i].0.name@,
        typevar_types(params_view(fs[i].0.typevars@)),
        generic_views(fs[i].0.argtypes@),
    ) {
        Some(s) => Some(s.3),
        None => None,
    }
}

pub open spec fn main_name() -> Seq<char> {
    seq!['m', 'a', 'i', 'n']
}

/// The program's entry point: the function `main` with no type variables and no arguments.
pub open spec fn main_id(fs: Seq<(GenericFuncSignature, ASTFunction)>) -> Option<FuncId> {
    match find_sig(program_sigs(fs), main_name(), Seq::empty(), Seq::empty()) {
        Some(s) => Some(s.3),
        None => None,
    }
}

/// Every signature resolves, every body type checks, and there is a `main`.
pub open spec fn ast_ok(ast: ASTProgram) -> bool {
    let fs = ast.functions@;
    &&& fs.len() < usize::MAX
    &&& forall|i: int| 0 <= i < fs.len() ==> (#[trigger] own_id(fs, i)) is Some
    &&& forall|i: int| 0 <= i < fs.len() ==> function_ok(program_sigs(fs), ast.typetable@, #[trigger] fs[i].1)
    &&& main_id(fs) is Some
}

/// The calls recorded for function `j` once the first `n` functions are lowered: those of
/// each lowered function whose signature resolves to `j`, in order.
pub open spec fn lowered_calls(fs: Seq<(GenericFuncSignature, ASTFunction)>, types: TableV, j: usize, n: int) -> Calls
    decreases n,
{
    if n <= 0 {
        Seq::empty()
    } else {
        let prev = lowered_calls(fs, types, j, n - 1);
        if own_id(fs, n - 1)->Some_0.0 == j {
            prev + function_calls(program_sigs(fs), types, fs[n - 1].1)
        } else {
            prev
        }
    }
}

/// Each function `k` has the calls of the first `n` lowered functions that resolve to it.
pub open spec fn calls_recorded(
    m: Map<usize, Calls>,
    fs: Seq<(GenericFuncSignature, ASTFunction)>,
    types: TableV,
    n: int,
) -> bool {
    forall|k: usize| k < fs.len() ==> #[trigger] m.dom().contains(k) && m[k] == lowered_calls(fs, types, k, n)
}

/// Resolves and type checks a parsed program. Function `i` of the result is the `i`-th function
/// of `ast`, lowered under the identifier its signature resolves to; the call graph records, for
/// each function, the calls of the bodies lowered under its identifier.
pub fn lower_ast(ast: ASTProgram) -> (r: HIRProgram)
    requires
        ast_ok(ast),
    ensures
        r.typetable@ == ast.typetable@,
        r.call_graph.wf(),
        r.functions@.len() == ast.functions@.len(),
        forall|i: int| 0 <= i < r.functions@.len() ==> (#[trigger] r.functions@[i]).0 == own_id(ast.functions@, i)->Some_0
            && function_rel(program_sigs(ast.functions@), ast.typetable@, ast.functions@[i].1, r.functions@[i].1),
        forall|k: usize| #[trigger] r.call_graph.callees().dom().contains(k) <==> k < ast.functions@.len(),
        forall|k: usize| k < ast.functions@.len() ==> #[trigger] r.call_graph.callees()[k]
            == lowered_calls(ast.functions@, ast.typetable@, k, ast.functions@.len() as int),
        forall|k: usize| k < ast.functions@.len() ==> #[trigger] r.call_graph.typevars().dom().contains(k)
            && r.call_graph.typevars()[k] == params_view(ast.functions@[k as int].0.typevars@),
        r.entry == main_id(ast.functions@)->Some_0,
{
    let ghost fs = ast.functions@;
    let ghost sigs = program_sigs(fs);
    let ghost types = ast.typetable@;
    let mut builder = HIRBuilder::new(&ast.functions, ast.typetable);
    let ghost tv0 = builder.graph().typevars();
    proof {
        assert forall|k: usize| k < fs.len() implies #[trigger] tv0.dom().contains(k)
            && tv0[k] == params_view(fs[k as int].0.typevars@) by {
            assert(builder.graph().typevars().dom().contains(k));
        }
        assert forall|k: usize| k < fs.len() implies #[trigger] builder.graph().callees().dom().contains(k)
            && builder.graph().callees()[k] == lowered_calls(fs, types, k, 0) by {
            assert(builder.graph().callees().dom().contains(k));
            assert(builder.graph().callees()[k] =~= lowered_calls(fs, types, k, 0));
        }
        assert(calls_recorded(builder.graph().callees(), fs, types, 0));
    }
    let mut hir_functions: Vec<(FuncId, HIRFunction)> = Vec::new();
    let mut i: usize = 0;
    while i < ast.functions.len()
        invariant
            fs == ast.functions@,
            ast_ok(ast),
            sigs == program_sigs(fs),
            types == ast.typetable@,
            i <= fs.len(),
            builder.sigs() == sigs,
            builder.types() == types,
            builder.graph().wf(),
            builder.graph().typevars() == tv0,
            forall|k: usize| k < fs.len() ==> #[trigger] tv0.dom().contains(k)
                && tv0[k] == params_view(fs[k as int].0.typevars@),
            forall|k: usize| #[trigger] builder.graph().callees().dom().contains(k) ==> k < fs.len(),
            calls_recorded(builder.graph().callees(), fs, types, i as int),
            hir_functions@.len() == i,
            forall|k: int| 0 <= k < i ==> (#[trigger] hir_functions@[k]).0 == own_id(fs, k)->Some_0
                && function_rel(sigs, types, fs[k].1, hir_functions@[k].1),
        decreases fs.len() - i,
    {
        let sgn = &ast.functions[i].0;
        let mut type_params: Vec<GenericType> = Vec::new();
        let mut t: usize = 0;
        while t < sgn.typevars.len()
            invariant
                t <= sgn.typevars@.len(),
                generic_views(type_params@) == typevar_types(params_view(sgn.typevars@)).subrange(0, t as int),
            decreases sgn.typevars.len() - t,
        {
            proof {
                lemma_generic_views(type_params@);
            }
            type_params.push(GenericType::TypeVar(sgn.typevars[t].clone()));
            proof {
                lemma_generic_views(type_params@);
                assert(generic_views(type_params@) =~= typevar_types(params_view(sgn.typevars@)).subrange(0, t + 1));
            }
            t = t + 1;
        }
        assert(typevar_types(params_view(sgn.typevars@)).subrange(0, t as int) =~= typevar_types(params_view(sgn.typevars@)));
        assert(own_id(fs, i as int) is Some);
        let found = builder.find(&sgn.name, &type_params, &sgn.argtypes);
        let id = found.0;
        proof {
            lemma_find_sig_member(sigs, fs[i as int].0.name@, generic_views(type_params@), generic_views(sgn.argtypes@));
            let m = choose|m: int| 0 <= m < sigs.len()
                && sigs[m] == find_sig(sigs, fs[i as int].0.name@, generic_views(type_params@), generic_views(sgn.argtypes@))->Some_0;
            assert(sigs[m].3 == FuncId(m as usize));
            assert(builder.graph().callees().dom().contains(id.0));
            assert(function_ok(sigs, types, fs[i as int].1));
            assert(id == own_id(fs, i as int)->Some_0);
        }
        let ghost before = builder.graph().callees();
        let h = builder.lower_function(id, &ast.functions[i].1);
        hir_functions.push((id, h));
        proof {
            assert forall|k: usize| k < fs.len() implies #[trigger] builder.graph().callees().dom().contains(k)
                && builder.graph().callees()[k] == lowered_calls(fs, types, k, i + 1) by {
                assert(before.dom().contains(k));
                assert(before[k] == lowered_calls(fs, types, k, i as int));
            }
            assert forall|k: usize| #[trigger] builder.graph().callees().dom().contains(k) implies k < fs.len() by {
                assert(before.dom().contains(k));
            }
            assert(calls_recorded(builder.graph().callees(), fs, types, i + 1));
        }
        i = i + 1;
    }
    proof {
        assert forall|k: usize| k < fs.len() implies #[trigger] builder.graph().callees()[k]
            == lowered_calls(fs, types, k, fs.len() as int) by {
            assert(builder.graph().callees().dom().contains(k));
        }
    }
    let entry_name = String::from_str("main");
    let no_params: Vec<GenericType> = Vec::new();
    let no_args: Vec<GenericType> = Vec::new();
    proof {
        reveal_strlit("main");
        assert(entry_name@ == main_name());
        assert(generic_views(no_params@) =~= Seq::<GType>::empty());
        assert(generic_views(no_args@) =~= Seq::<GType>::empty());
    }
    let entry = builder.find(&entry_name, &no_params, &no_args).0;
    HIRProgram {
        typetable: builder.typetable,
        call_graph: builder.call_graph,
        functions: hir_functions,
        entry,
    }
}

impl HIRBuilder {
    /// Whether each function's own signature resolves, each body type checks, and there is a
    /// `main`: the conditions of `ast_ok` beyond the number of functions.
    fn check_program(&self, fs: &Vec<(GenericFuncSignature, ASTFunction)>) -> (r: bool)
        requires
            self.sigs() == program_sigs(fs@),
        ensures
            r == ((forall|i: int| 0 <= i < fs@.len() ==> (#[trigger] own_id(fs@, i)) is Some)
                && (forall|i: int| 0 <= i < fs@.len() ==> function_ok(program_sigs(fs@), self.types(), #[trigger] fs@[i].1))
                && main_id(fs@) is Some),
    {
        let mut i: usize = 0;
        while i < fs.len()
            invariant
                i <= fs@.len(),
                self.sigs() == program_sigs(fs@),
                forall|k: int| 0 <= k < i ==> (#[trigger] own_id(fs@, k)) is Some,
                forall|k: int| 0 <= k < i ==> function_ok(program_sigs(fs@), self.types(), #[trigger] fs@[k].1),
            decreases fs.len() - i,
        {
            let sgn = &fs[i].0;
            let mut type_params: Vec<GenericType> = Vec::new();
            let mut t: usize = 0;
            while t < sgn.typevars.len()
                invariant
                    t <= sgn.typevars@.len(),
                    generic_views(type_params@) == typevar_types(params_view(sgn.typevars@)).subrange(0, t as int),
                decreases sgn.typevars.len() - t,
            {
                proof {
                    lemma_generic_views(type_params@);
                }
                type_params.push(GenericType::TypeVar(sgn.typevars[t].clone()));
                proof {
                    lemma_generic_views(type_params@);
                    assert(generic_views(type_params@) =~= typevar_types(params_view(sgn.typevars@)).subrange(0, t + 1));
                }
                t = t + 1;
            }
            assert(typevar_types(params_view(sgn.typevars@)).subrange(0, t as int) =~= typevar_types(params_view(sgn.typevars@)));
            match self.try_find(&sgn.name, &type_params, &sgn.argtypes) {
                Some(_) => {},
                None => {
                    assert(own_id(fs@, i as int) is None);
                    return false;
                },
            }
            if !self.check_function(&fs[i].1) {
                assert(!function_ok(program_sigs(fs@), self.types(), fs@[i as int].1));
                return false;
            }
            i = i + 1;
        }
        let entry_name = String::from_str("main");
        let no_params: Vec<GenericType> = Vec::new();
        let no_args: Vec<GenericType> = Vec::new();
        proof {
            reveal_strlit("main");
            assert(entry_name@ == main_name());
            assert(generic_views(no_params@) =~= Seq::<GType>::empty());
            assert(generic_views(no_args@) =~= Seq::<GType>::empty());
        }
        match self.try_find(&entry_name, &no_params, &no_args) {
            Some(_) => true,
            None => false,
        }
    }
}

/// Type checks a parsed program and, where it passes, lowers it as `lower_ast` does. `None`
/// exactly where `lower_ast` cannot run: a function's own signature does not resolve, a body does
/// not type check, there is no `main`, or there are too many functions to number.
pub fn try_lower_ast(ast: ASTProgram) -> (r: Option<HIRProgram>)
    ensures
        r is Some <==> ast_ok(ast),
        r is Some ==> {
            let h = r->Some_0;
            &&& h.typetable@ == ast.typetable@
            &&& h.call_graph.wf()
            &&& h.functions@.len() == ast.functions@.len()
            &&& forall|i: int| 0 <= i < h.functions@.len() ==> (#[trigger] h.functions@[i]).0 == own_id(ast.functions@, i)->Some_0
                && function_rel(program_sigs(ast.functions@), ast.typetable@, ast.functions@[i].1, h.functions@[i].1)
            &&& forall|k: usize| #[trigger] h.call_graph.callees().dom().contains(k) <==> k < ast.functions@.len()
            &&& forall|k: usize| k < ast.functions@.len() ==> #[trigger] h.call_graph.callees()[k]
                == lowered_calls(ast.functions@, ast.typetable@, k, ast.functions@.len() as int)
            &&& forall|k: usize| k < ast.functions@.len() ==> #[trigger] h.call_graph.typevars().dom().contains(k)
                && h.call_graph.typevars()[k] == params_view(ast.functions@[k as int].0.typevars@)
            &&& h.entry == main_id(ast.functions@)->Some_0
        },
{
    if ast.functions.len() == usize::MAX {
        return None;
    }
    let ASTProgram { typetable, functions } = ast;
    let builder = HIRBuilder::new(&functions, typetable);
    if !builder.check_program(&functions) {
        return None;
    }
    let HIRBuilder { typetable, .. } = builder;
    let program = ASTProgram { typetable, functions };
    assert(ast_ok(program));
    Some(lower_ast(program))
}

} // verus!
