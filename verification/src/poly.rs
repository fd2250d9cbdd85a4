//! Polymorphic procedures: the `$T` type variables a parameter list introduces, and
//! the binding of those variables from the types of a call's arguments.
//!
//! A variable is bound by matching a parameter's written type against the argument's
//! type, one structural layer at a time: `$T` against `U` binds `T = U`, `*$T` against
//! `*U` and `[]$T` against `[]U` peel one layer from both sides. A shape that does not
//! line up binds nothing. The first binding of a variable wins; a later occurrence is a
//! use, checked against it when the signature is resolved with the bindings in place.

use vstd::prelude::*;
use crate::ctx::{Code, Ctx, Mode, spec_last_binding, lemma_grows_trans, lemma_grows_around_bindings};
use crate::hir::{
    Expr, ExprId, ExprScope, FileHir, ItemKind, Param, ProcId, Res, Span, Symbol, TypeRef, TypeRefId, expr_at, spec_expr_at,
    spec_type_ref_at, type_ref_at,
};
use crate::map::{expr_key, expr_key_of};
use crate::pool::{Pool, PoolId, Shape, TypeItem, ERROR, VOID};
use crate::scope::copy_sig;
use crate::sigs::{ProcSig, same_sig};

verus! {

/// `vars` with the type variables one type reference introduces appended, in the order
/// they are first written, each once.
pub open spec fn spec_poly_in_type(hir: &FileHir, id: TypeRefId, vars: Seq<Symbol>) -> Seq<Symbol>
    decreases id,
{
    match spec_type_ref_at(hir, ExprScope::TopLevel, id) {
        Some(TypeRef::Poly(var)) => if vars.contains(var) {
            vars
        } else {
            vars.push(var)
        },
        Some(TypeRef::Pointer(inner)) => if inner < id {
            spec_poly_in_type(hir, inner, vars)
        } else {
            vars
        },
        Some(TypeRef::Array { elem, .. }) => if elem < id {
            spec_poly_in_type(hir, elem, vars)
        } else {
            vars
        },
        Some(TypeRef::View(elem)) => if elem < id {
            spec_poly_in_type(hir, elem, vars)
        } else {
            vars
        },
        _ => vars,
    }
}

/// The type variables a parameter list introduces: every `$T` in the parameters'
/// types, in the order they are first written, each once.
pub open spec fn spec_poly_vars(hir: &FileHir, params: Seq<Param>) -> Seq<Symbol>
    decreases params.len(),
{
    if params.len() == 0 {
        Seq::empty()
    } else {
        let before = spec_poly_vars(hir, params.drop_last());
        match params.last().ty {
            Some(t) => spec_poly_in_type(hir, t, before),
            None => before,
        }
    }
}

/// Appends the type variables of one type reference to `vars`.
fn collect_poly_in_type(hir: &FileHir, id: TypeRefId, vars: &mut Vec<Symbol>)
    ensures
        final(vars)@ == spec_poly_in_type(hir, id, old(vars)@),
    decreases id,
{
    match type_ref_at(hir, ExprScope::TopLevel, id) {
        Some(TypeRef::Poly(var)) => {
            let mut seen = false;
            let mut i: usize = 0;
            while i < vars.len()
                invariant
                    i <= vars@.len(),
                    seen <==> exists|k: int| 0 <= k < i && vars@[k] == *var,
                decreases vars@.len() - i,
            {
                if vars[i] == *var {
                    seen = true;
                }
                i = i + 1;
            }
            if !seen {
                vars.push(*var);
            }
        },
        Some(TypeRef::Pointer(inner)) => {
            if *inner < id {
                collect_poly_in_type(hir, *inner, vars);
            }
        },
        Some(TypeRef::Array { elem, .. }) => {
            if *elem < id {
                collect_poly_in_type(hir, *elem, vars);
            }
        },
        Some(TypeRef::View(elem)) => {
            if *elem < id {
                collect_poly_in_type(hir, *elem, vars);
            }
        },
        _ => {},
    }
}

/// The type variables a parameter list introduces, in first-seen order.
pub fn collect_poly_vars(hir: &FileHir, params: &Vec<Param>) -> (r: Vec<Symbol>)
    ensures
        r@ == spec_poly_vars(hir, params@),
{
    let mut vars: Vec<Symbol> = Vec::new();
    let mut i: usize = 0;
    while i < params.len()
        invariant
            i <= params@.len(),
            vars@ == spec_poly_vars(hir, params@.subrange(0, i as int)),
        decreases params@.len() - i,
    {
        proof {
            assert(params@.subrange(0, i + 1).drop_last() =~= params@.subrange(0, i as int));
        }
        match params[i].ty {
            Some(t) => collect_poly_in_type(hir, t, &mut vars),
            None => {},
        }
        i = i + 1;
    }
    proof {
        assert(params@.subrange(0, params@.len() as int) =~= params@);
    }
    vars
}

/// Collecting keeps what was there and adds each variable once.
pub proof fn lemma_poly_in_type_distinct(hir: &FileHir, id: TypeRefId, vars: Seq<Symbol>)
    requires
        vars.no_duplicates(),
    ensures
        spec_poly_in_type(hir, id, vars).no_duplicates(),
        vars.is_prefix_of(spec_poly_in_type(hir, id, vars)),
    decreases id,
{
    match spec_type_ref_at(hir, ExprScope::TopLevel, id) {
        Some(TypeRef::Poly(var)) => {
            if !vars.contains(var) {
                let pushed = vars.push(var);
                assert forall|i: int, j: int| 0 <= i < j < pushed.len() implies pushed[i] != pushed[j] by {
                    if j == vars.len() {
                        assert(vars[i] == pushed[i]);
                    }
                }
            }
        },
        Some(TypeRef::Pointer(inner)) => {
            if inner < id {
                lemma_poly_in_type_distinct(hir, inner, vars);
            }
        },
        Some(TypeRef::Array { elem, .. }) => {
            if elem < id {
                lemma_poly_in_type_distinct(hir, elem, vars);
            }
        },
        Some(TypeRef::View(elem)) => {
            if elem < id {
                lemma_poly_in_type_distinct(hir, elem, vars);
            }
        },
        _ => {},
    }
}

/// A signature's type variables are distinct: `swap :: (a: $T, b: $T)` introduces one
/// variable, not two, and a variable introduced by an earlier parameter stays first.
pub proof fn lemma_poly_vars_distinct(hir: &FileHir, params: Seq<Param>)
    ensures
        spec_poly_vars(hir, params).no_duplicates(),
        forall|k: int| 0 <= k <= params.len() ==> spec_poly_vars(hir, params.subrange(0, k)).is_prefix_of(
            #[trigger] spec_poly_vars(hir, params),
        ),
    decreases params.len(),
{
    if params.len() > 0 {
        let front = params.drop_last();
        lemma_poly_vars_distinct(hir, front);
        let before = spec_poly_vars(hir, front);
        match params.last().ty {
            Some(t) => lemma_poly_in_type_distinct(hir, t, before),
            None => {},
        }
        let all = spec_poly_vars(hir, params);
        assert(before.is_prefix_of(all));
        assert forall|k: int| 0 <= k <= params.len() implies spec_poly_vars(hir, params.subrange(0, k)).is_prefix_of(
            #[trigger] spec_poly_vars(hir, params),
        ) by {
            if k == params.len() {
                assert(params.subrange(0, k) =~= params);
            } else {
                assert(params.subrange(0, k) =~= front.subrange(0, k));
                let part = spec_poly_vars(hir, front.subrange(0, k));
                assert(part.is_prefix_of(before));
                assert forall|j: int| 0 <= j < part.len() implies part[j] == all[j] by {
                    assert(part[j] == before[j]);
                }
            }
        }
    } else {
        assert forall|k: int| 0 <= k <= params.len() implies spec_poly_vars(hir, params.subrange(0, k)).is_prefix_of(
            #[trigger] spec_poly_vars(hir, params),
        ) by {
            assert(params.subrange(0, k) =~= params);
        }
    }
}

/// A parameter written `$T` introduces `T`.
pub proof fn lemma_direct_variable_is_introduced(hir: &FileHir, params: Seq<Param>, k: int, var: Symbol)
    requires
        0 <= k < params.len(),
        params[k].ty matches Some(t) && spec_type_ref_at(hir, ExprScope::TopLevel, t) == Some(TypeRef::Poly(var)),
    ensures
        spec_poly_vars(hir, params).contains(var),
    decreases params.len(),
{
    lemma_poly_vars_distinct(hir, params);
    let prefix = spec_poly_vars(hir, params.subrange(0, k + 1));
    assert(params.subrange(0, k + 1).drop_last() =~= params.subrange(0, k));
    assert(params.subrange(0, k + 1).last() == params[k]);
    let before = spec_poly_vars(hir, params.subrange(0, k));
    if before.contains(var) {
        let j = choose|j: int| 0 <= j < before.len() && before[j] == var;
        assert(prefix == before);
        assert(prefix[j] == var);
    } else {
        assert(prefix == before.push(var));
        assert(prefix[before.len() as int] == var);
    }
    let all = spec_poly_vars(hir, params);
    assert(prefix.is_prefix_of(all));
    let j = choose|j: int| 0 <= j < prefix.len() && prefix[j] == var;
    assert(all[j] == var);
}

/// The type bound to `var`: the first binding that names it.
pub open spec fn spec_binding_of(bindings: Seq<(Symbol, PoolId)>, var: Symbol) -> Option<PoolId>
    decreases bindings.len(),
{
    if bindings.len() == 0 {
        None
    } else if bindings[0].0 == var {
        Some(bindings[0].1)
    } else {
        spec_binding_of(bindings.drop_first(), var)
    }
}

/// `bindings` after matching the written parameter type `param_ty` against the
/// argument type `arg`: a `$T` met directly binds `T` unless it is bound already; a
/// pointer or a view on both sides is peeled; anything else binds nothing.
pub open spec fn spec_infer(
    hir: &FileHir,
    pool: Seq<Shape>,
    param_ty: TypeRefId,
    arg: PoolId,
    bindings: Seq<(Symbol, PoolId)>,
) -> Seq<(Symbol, PoolId)>
    decreases param_ty,
{
    match spec_type_ref_at(hir, ExprScope::TopLevel, param_ty) {
        Some(TypeRef::Poly(var)) => if spec_binding_of(bindings, var) is Some {
            bindings
        } else {
            bindings.push((var, arg))
        },
        Some(TypeRef::Pointer(inner)) => if inner < param_ty && arg < pool.len() && pool[arg as int] is Pointer {
            spec_infer(hir, pool, inner, pool[arg as int]->Pointer_0, bindings)
        } else {
            bindings
        },
        Some(TypeRef::View(elem)) => if elem < param_ty && arg < pool.len() && pool[arg as int] is View {
            spec_infer(hir, pool, elem, pool[arg as int]->View_elem, bindings)
        } else {
            bindings
        },
        _ => bindings,
    }
}

/// The bindings a call infers: each parameter with a written type, matched in order
/// against its argument's type, skipping an argument that did not type.
pub open spec fn spec_infer_all(
    hir: &FileHir,
    pool: Seq<Shape>,
    params: Seq<Param>,
    arg_tys: Seq<PoolId>,
) -> Seq<(Symbol, PoolId)>
    decreases params.len(),
{
    if params.len() == 0 {
        Seq::empty()
    } else {
        let k = params.len() - 1;
        let before = spec_infer_all(hir, pool, params.drop_last(), arg_tys);
        if k < arg_tys.len() && arg_tys[k] != ERROR && params[k].ty is Some {
            spec_infer(hir, pool, params[k].ty->0, arg_tys[k], before)
        } else {
            before
        }
    }
}

/// The instantiation a call needs: the type bound to each of the signature's variables,
/// in the signature's order, or `None` when a variable is left unbound.
pub open spec fn spec_instance_key(vars: Seq<Symbol>, bindings: Seq<(Symbol, PoolId)>) -> Option<Seq<PoolId>> {
    if forall|k: int| 0 <= k < vars.len() ==> spec_binding_of(bindings, #[trigger] vars[k]) is Some {
        Some(Seq::new(vars.len(), |k: int| spec_binding_of(bindings, vars[k])->0))
    } else {
        None
    }
}

/// The type bound to `var`.
pub fn binding_of(bindings: &Vec<(Symbol, PoolId)>, var: Symbol) -> (r: Option<PoolId>)
    ensures
        r == spec_binding_of(bindings@, var),
{
    let n = bindings.len();
    proof {
        assert(bindings@.subrange(0, n as int) =~= bindings@);
    }
    let mut i: usize = 0;
    while i < n
        invariant
            n == bindings@.len(),
            i <= n,
            spec_binding_of(bindings@, var) == spec_binding_of(bindings@.subrange(i as int, n as int), var),
        decreases n - i,
    {
        proof {
            let rest = bindings@.subrange(i as int, n as int);
            assert(rest.drop_first() =~= bindings@.subrange(i + 1, n as int));
        }
        if bindings[i].0 == var {
            return Some(bindings[i].1);
        }
        i = i + 1;
    }
    None
}

/// Matches the written parameter type `param_ty` against the argument type `arg_ty`,
/// binding the variables it meets.
pub fn infer_var_in(hir: &FileHir, pool: &Pool, param_ty: TypeRefId, arg_ty: PoolId, bindings: &mut Vec<(Symbol, PoolId)>)
    requires
        pool.wf(),
        arg_ty < pool@.len(),
    ensures
        final(bindings)@ == spec_infer(hir, pool@, param_ty, arg_ty, old(bindings)@),
    decreases param_ty,
{
    match type_ref_at(hir, ExprScope::TopLevel, param_ty) {
        Some(TypeRef::Poly(var)) => {
            if binding_of(bindings, *var).is_none() {
                bindings.push((*var, arg_ty));
            }
        },
        Some(TypeRef::Pointer(inner)) => {
            if *inner < param_ty {
                match pool.item(arg_ty) {
                    TypeItem::PointerType(pointee) => {
                        proof {
                            assert(refers_below_at(pool, arg_ty));
                        }
                        infer_var_in(hir, pool, *inner, *pointee, bindings);
                    },
                    _ => {},
                }
            }
        },
        Some(TypeRef::View(elem)) => {
            if *elem < param_ty {
                match pool.item(arg_ty) {
                    TypeItem::ViewType { elem: arg_elem } => {
                        proof {
                            assert(refers_below_at(pool, arg_ty));
                        }
                        infer_var_in(hir, pool, *elem, *arg_elem, bindings);
                    },
                    _ => {},
                }
            }
        },
        _ => {},
    }
}

/// The item at `id` refers only to items below it.
spec fn refers_below_at(pool: &Pool, id: PoolId) -> bool {
    crate::pool::refers_below(pool@[id as int], id as int)
}

/// Every item of `pool` refers only to items below it.
pub open spec fn pool_refers_below(pool: Seq<Shape>) -> bool {
    forall|i: int| 0 <= i < pool.len() ==> crate::pool::refers_below(#[trigger] pool[i], i)
}

/// Every type `bindings` binds is below `n`.
pub open spec fn bindings_below(bindings: Seq<(Symbol, PoolId)>, n: nat) -> bool {
    forall|k: int| 0 <= k < bindings.len() ==> (#[trigger] bindings[k]).1 < n
}

/// Appending a binding leaves every variable bound before as it was, and binds a new
/// variable to the appended type.
pub proof fn lemma_binding_of_push(bindings: Seq<(Symbol, PoolId)>, entry: (Symbol, PoolId), var: Symbol)
    ensures
        spec_binding_of(bindings.push(entry), var) == match spec_binding_of(bindings, var) {
            Some(t) => Some(t),
            None => if entry.0 == var {
                Some(entry.1)
            } else {
                None
            },
        },
    decreases bindings.len(),
{
    let pushed = bindings.push(entry);
    if bindings.len() > 0 {
        assert(pushed[0] == bindings[0]);
        assert(pushed.drop_first() =~= bindings.drop_first().push(entry));
        lemma_binding_of_push(bindings.drop_first(), entry, var);
        if bindings[0].0 != var {
            assert(spec_binding_of(pushed, var) == spec_binding_of(pushed.drop_first(), var));
            assert(spec_binding_of(bindings, var) == spec_binding_of(bindings.drop_first(), var));
        }
    } else {
        assert(pushed[0] == entry);
        assert(pushed.drop_first() =~= Seq::<(Symbol, PoolId)>::empty());
        assert(spec_binding_of(pushed.drop_first(), var) is None);
        assert(spec_binding_of(bindings, var) is None);
    }
}

/// A bound variable's type is one of the bindings' types.
pub proof fn lemma_binding_of_member(bindings: Seq<(Symbol, PoolId)>, var: Symbol)
    ensures
        spec_binding_of(bindings, var) matches Some(t) ==> exists|k: int| 0 <= k < bindings.len() && (#[trigger] bindings[k]).1 == t,
    decreases bindings.len(),
{
    if bindings.len() > 0 && bindings[0].0 != var {
        lemma_binding_of_member(bindings.drop_first(), var);
        match spec_binding_of(bindings, var) {
            Some(t) => {
                let k = choose|k: int| 0 <= k < bindings.drop_first().len() && (#[trigger] bindings.drop_first()[k]).1 == t;
                assert(bindings[k + 1] == bindings.drop_first()[k]);
            },
            None => {},
        }
    }
}

/// Inference only appends: the first binding of a variable wins, and a later
/// occurrence of the variable binds nothing new.
pub proof fn lemma_first_binding_wins(
    hir: &FileHir,
    pool: Seq<Shape>,
    param_ty: TypeRefId,
    arg: PoolId,
    bindings: Seq<(Symbol, PoolId)>,
    var: Symbol,
)
    requires
        spec_binding_of(bindings, var) is Some,
    ensures
        spec_binding_of(spec_infer(hir, pool, param_ty, arg, bindings), var) == spec_binding_of(bindings, var),
    decreases param_ty,
{
    match spec_type_ref_at(hir, ExprScope::TopLevel, param_ty) {
        Some(TypeRef::Poly(v)) => {
            if spec_binding_of(bindings, v) is None {
                lemma_binding_of_push(bindings, (v, arg), var);
            }
        },
        Some(TypeRef::Pointer(inner)) => {
            if inner < param_ty && arg < pool.len() && pool[arg as int] is Pointer {
                lemma_first_binding_wins(hir, pool, inner, pool[arg as int]->Pointer_0, bindings, var);
            }
        },
        Some(TypeRef::View(elem)) => {
            if elem < param_ty && arg < pool.len() && pool[arg as int] is View {
                lemma_first_binding_wins(hir, pool, elem, pool[arg as int]->View_elem, bindings, var);
            }
        },
        _ => {},
    }
}

/// Every type inference binds is in the pool.
pub proof fn lemma_infer_fits(hir: &FileHir, pool: Seq<Shape>, param_ty: TypeRefId, arg: PoolId, bindings: Seq<(Symbol, PoolId)>)
    requires
        pool_refers_below(pool),
        arg < pool.len(),
        bindings_below(bindings, pool.len()),
    ensures
        bindings_below(spec_infer(hir, pool, param_ty, arg, bindings), pool.len()),
    decreases param_ty,
{
    assert(crate::pool::refers_below(pool[arg as int], arg as int));
    match spec_type_ref_at(hir, ExprScope::TopLevel, param_ty) {
        Some(TypeRef::Poly(v)) => {
            if spec_binding_of(bindings, v) is None {
                let pushed = bindings.push((v, arg));
                assert forall|k: int| 0 <= k < pushed.len() implies (#[trigger] pushed[k]).1 < pool.len() by {
                    if k < bindings.len() {
                        assert(pushed[k] == bindings[k]);
                    }
                }
            }
        },
        Some(TypeRef::Pointer(inner)) => {
            if inner < param_ty && arg < pool.len() && pool[arg as int] is Pointer {
                lemma_infer_fits(hir, pool, inner, pool[arg as int]->Pointer_0, bindings);
            }
        },
        Some(TypeRef::View(elem)) => {
            if elem < param_ty && arg < pool.len() && pool[arg as int] is View {
                lemma_infer_fits(hir, pool, elem, pool[arg as int]->View_elem, bindings);
            }
        },
        _ => {},
    }
}

/// Inference reads only the pool items it reaches from the argument, so a pool that
/// has grown since infers the same.
pub proof fn lemma_infer_stable(
    hir: &FileHir,
    pool: Seq<Shape>,
    grown: Seq<Shape>,
    param_ty: TypeRefId,
    arg: PoolId,
    bindings: Seq<(Symbol, PoolId)>,
)
    requires
        pool_refers_below(pool),
        arg < pool.len(),
        pool.len() <= grown.len(),
        forall|k: int| 0 <= k < pool.len() ==> grown[k] == pool[k],
    ensures
        spec_infer(hir, grown, param_ty, arg, bindings) == spec_infer(hir, pool, param_ty, arg, bindings),
    decreases param_ty,
{
    assert(crate::pool::refers_below(pool[arg as int], arg as int));
    assert(grown[arg as int] == pool[arg as int]);
    match spec_type_ref_at(hir, ExprScope::TopLevel, param_ty) {
        Some(TypeRef::Pointer(inner)) => {
            if inner < param_ty && pool[arg as int] is Pointer {
                lemma_infer_stable(hir, pool, grown, inner, pool[arg as int]->Pointer_0, bindings);
            }
        },
        Some(TypeRef::View(elem)) => {
            if elem < param_ty && pool[arg as int] is View {
                lemma_infer_stable(hir, pool, grown, elem, pool[arg as int]->View_elem, bindings);
            }
        },
        _ => {},
    }
}

/// What a call's arguments infer is in the pool, and stays the same as the pool grows.
pub proof fn lemma_infer_all_fits(
    hir: &FileHir,
    pool: Seq<Shape>,
    grown: Seq<Shape>,
    params: Seq<Param>,
    arg_tys: Seq<PoolId>,
)
    requires
        pool_refers_below(pool),
        forall|k: int| 0 <= k < arg_tys.len() ==> arg_tys[k] < pool.len(),
        pool.len() <= grown.len(),
        forall|k: int| 0 <= k < pool.len() ==> grown[k] == pool[k],
    ensures
        bindings_below(spec_infer_all(hir, pool, params, arg_tys), pool.len()),
        spec_infer_all(hir, grown, params, arg_tys) == spec_infer_all(hir, pool, params, arg_tys),
    decreases params.len(),
{
    if params.len() > 0 {
        let k = params.len() - 1;
        lemma_infer_all_fits(hir, pool, grown, params.drop_last(), arg_tys);
        let before = spec_infer_all(hir, pool, params.drop_last(), arg_tys);
        if k < arg_tys.len() && arg_tys[k] != ERROR && params[k].ty is Some {
            lemma_infer_fits(hir, pool, params[k].ty->0, arg_tys[k], before);
            lemma_infer_stable(hir, pool, grown, params[k].ty->0, arg_tys[k], before);
        }
    }
}

/// The bindings a call's arguments infer, from the types they were given.
pub fn infer_bindings(hir: &FileHir, pool: &Pool, params: &Vec<Param>, arg_tys: &Vec<PoolId>) -> (r: Vec<(Symbol, PoolId)>)
    requires
        pool.wf(),
        forall|k: int| 0 <= k < arg_tys@.len() ==> arg_tys@[k] < pool@.len(),
    ensures
        r@ == spec_infer_all(hir, pool@, params@, arg_tys@),
{
    let mut bindings: Vec<(Symbol, PoolId)> = Vec::new();
    let mut i: usize = 0;
    while i < params.len()
        invariant
            pool.wf(),
            forall|k: int| 0 <= k < arg_tys@.len() ==> arg_tys@[k] < pool@.len(),
            i <= params@.len(),
            bindings@ == spec_infer_all(hir, pool@, params@.subrange(0, i as int), arg_tys@),
        decreases params@.len() - i,
    {
        proof {
            let front = params@.subrange(0, i + 1);
            assert(front.drop_last() =~= params@.subrange(0, i as int));
            assert(front[i as int] == params@[i as int]);
        }
        if i < arg_tys.len() && arg_tys[i] != ERROR {
            match params[i].ty {
                Some(t) => infer_var_in(hir, pool, t, arg_tys[i], &mut bindings),
                None => {},
            }
        }
        i = i + 1;
    }
    proof {
        assert(params@.subrange(0, params@.len() as int) =~= params@);
    }
    bindings
}

/// The instantiation a call needs, or `None` when a variable is left unbound (E0268).
pub fn instance_key(vars: &Vec<Symbol>, bindings: &Vec<(Symbol, PoolId)>) -> (r: Option<Vec<PoolId>>)
    ensures
        r matches Some(key) ==> spec_instance_key(vars@, bindings@) == Some(key@),
        r is None ==> spec_instance_key(vars@, bindings@) is None,
{
    let mut key: Vec<PoolId> = Vec::new();
    let mut i: usize = 0;
    while i < vars.len()
        invariant
            i <= vars@.len(),
            key@.len() == i,
            forall|k: int| 0 <= k < i ==> spec_binding_of(bindings@, #[trigger] vars@[k]) == Some(key@[k]),
        decreases vars@.len() - i,
    {
        match binding_of(bindings, vars[i]) {
            Some(ty) => key.push(ty),
            None => {
                return None;
            },
        }
        i = i + 1;
    }
    proof {
        assert(key@ =~= Seq::new(vars@.len(), |k: int| spec_binding_of(bindings@, vars@[k])->0));
    }
    Some(key)
}

/// The polymorphic procedure `callee` names, with its signature: a name of one of this
/// file's procedures whose signature introduces type variables.
pub open spec fn spec_callee_poly(ctx: &Ctx, scope: ExprScope, callee: ExprId) -> Option<(ProcId, ProcSig)> {
    match spec_expr_at(ctx.hir, scope, callee) {
        Some(Expr::Name { res: Res::Item(item), .. }) => if item < ctx.hir.items@.len() {
            match ctx.hir.items@[item as int].kind {
                ItemKind::Proc(proc) => if ctx.sigs.procs_view().contains_key(proc as u128) && ctx.sigs.procs_view()[proc
                    as u128].poly_vars@.len() > 0 && proc < ctx.hir.procs@.len() {
                    Some((proc, ctx.sigs.procs_view()[proc as u128]))
                } else {
                    None
                },
                _ => None,
            }
        } else {
            None
        },
        _ => None,
    }
}

/// What a polymorphic call decides, given the types its arguments took: the
/// instantiation is recorded under the call and the result has a type, or a variable is
/// left unbound and the call is refused (E0268) and poisoned.
pub open spec fn poly_call_outcome(
    ctx: &Ctx,
    old: &Ctx,
    scope: ExprScope,
    id: ExprId,
    proc: ProcId,
    vars: Seq<Symbol>,
    arg_tys: Seq<PoolId>,
    span: Span,
    r: PoolId,
) -> bool {
    let declaration = old.hir.procs@[proc as int];
    match spec_instance_key(vars, spec_infer_all(old.hir, ctx.pool@, declaration.params@, arg_tys)) {
        None => r == ERROR && ctx.diags@.len() > old.diags@.len() && ctx.diags@.last().code == Code::E0268
            && ctx.diags@.last().span == span,
        Some(key) => {
            &&& ctx.instantiations.view().contains_key(expr_key(scope, id))
            &&& ctx.instantiations.view()[expr_key(scope, id)].0 == proc
            &&& ctx.instantiations.view()[expr_key(scope, id)].1@ == key
            &&& (declaration.ret is None ==> r == VOID)
        },
    }
}

/// An expression whose type the context decides without checking anything under it:
/// a literal or a name.
pub open spec fn simple_expr(hir: &FileHir, scope: ExprScope, e: ExprId) -> bool {
    match spec_expr_at(hir, scope, e) {
        Some(Expr::Literal(..)) => true,
        Some(Expr::Name { .. }) => true,
        _ => false,
    }
}

/// A parameter annotation that only reads the call's bindings: a type variable, or a
/// name the bindings bind.
pub open spec fn reads_bindings(hir: &FileHir, t: TypeRefId, bindings: Seq<(Symbol, PoolId)>) -> bool {
    match spec_type_ref_at(hir, ExprScope::TopLevel, t) {
        Some(TypeRef::Poly(_)) => true,
        Some(TypeRef::Name(sym, _)) => spec_last_binding(bindings, sym) is Some,
        _ => false,
    }
}

/// Every parameter annotation only reads the bindings.
pub open spec fn params_read_bindings(hir: &FileHir, params: Seq<Param>, bindings: Seq<(Symbol, PoolId)>) -> bool {
    forall|j: int| 0 <= j < params.len() ==> match (#[trigger] params[j]).ty {
        Some(t) => reads_bindings(hir, t, bindings),
        None => true,
    }
}

/// The type a return annotation naming a type variable takes from the bindings.
pub open spec fn bound_return(hir: &FileHir, t: TypeRefId, bindings: Seq<(Symbol, PoolId)>) -> Option<PoolId> {
    match spec_type_ref_at(hir, ExprScope::TopLevel, t) {
        Some(TypeRef::Poly(v)) => spec_last_binding(bindings, v),
        Some(TypeRef::Name(v, _)) => spec_last_binding(bindings, v),
        _ => None,
    }
}

/// The type a polymorphic call has when every variable is inferred, its arguments are
/// literals or names and its parameter annotations only read the bindings: a return
/// annotation naming an inferred variable is that variable's inferred type.
pub open spec fn poly_return_outcome(
    old: &Ctx,
    scope: ExprScope,
    proc: ProcId,
    vars: Seq<Symbol>,
    args: Seq<ExprId>,
    bindings: Seq<(Symbol, PoolId)>,
    r: PoolId,
) -> bool {
    let declaration = old.hir.procs@[proc as int];
    spec_instance_key(vars, bindings) is Some && old.mode == Mode::Check && (forall|k: int| 0 <= k < args.len() ==> simple_expr(old.hir, scope, #[trigger] args[k]))
        && params_read_bindings(old.hir, declaration.params@, bindings) ==> (declaration.ret matches Some(t) ==> (bound_return(
        old.hir,
        t,
        bindings,
    ) matches Some(b) ==> r == b))
}

/// Each argument of a polymorphic call whose parameter annotation names an inferred
/// variable is checked against that variable's inferred type, under the same conditions
/// as `poly_return_outcome`: a literal that does not fit, or a name of another type, is
/// reported.
pub open spec fn poly_args_outcome(
    old: &Ctx,
    new: &Ctx,
    scope: ExprScope,
    proc: ProcId,
    vars: Seq<Symbol>,
    args: Seq<ExprId>,
    bindings: Seq<(Symbol, PoolId)>,
) -> bool {
    let declaration = old.hir.procs@[proc as int];
    spec_instance_key(vars, bindings) is Some && old.mode == Mode::Check && (forall|k: int|
        0 <= k < args.len() ==> simple_expr(old.hir, scope, #[trigger] args[k])) && params_read_bindings(
        old.hir,
        declaration.params@,
        bindings,
    ) ==> forall|k: int|
        0 <= k < args.len() && k < declaration.params@.len() ==> match (#[trigger] declaration.params@[k]).ty {
            Some(t) => match bound_return(old.hir, t, bindings) {
                Some(w) => w != ERROR ==> match crate::typing::known_operand_code(old, scope, args[k], Some(w)) {
                    Some((code, sp)) => crate::ctx::reported(old.diags@, new.diags@, code, sp),
                    None => true,
                },
                None => true,
            },
            None => true,
        }
}

impl<'a> Ctx<'a> {
    /// The polymorphic procedure `callee` names, if it names one.
    pub fn callee_poly(&self, scope: ExprScope, callee: ExprId) -> (r: Option<(ProcId, ProcSig)>)
        requires
            self.inv(),
        ensures
            r is None <==> spec_callee_poly(self, scope, callee) is None,
            r matches Some((proc, sig)) ==> (spec_callee_poly(self, scope, callee) matches Some((p, s)) && p == proc
                && same_sig(sig, s)),
    {
        let hir = self.hir;
        let item = match expr_at(hir, scope, callee) {
            Some(Expr::Name { res: Res::Item(item), .. }) => *item,
            _ => {
                return None;
            },
        };
        if (item as usize) >= hir.items.len() {
            return None;
        }
        match &hir.items[item as usize].kind {
            ItemKind::Proc(proc) => match self.sigs.proc_sig(*proc) {
                Some(sig) => {
                    if sig.poly_vars.len() > 0 && (*proc as usize) < hir.procs.len() {
                        Some((*proc, copy_sig(sig)))
                    } else {
                        None
                    }
                },
                None => None,
            },
            _ => None,
        }
    }

    /// Types a call to a polymorphic procedure of this file.
    ///
    /// Each type variable is inferred from the arguments: every argument is typed, and
    /// each parameter's written type is matched against its argument's type. A variable
    /// no argument pins refuses the call (E0268). Otherwise the variables are bound,
    /// each argument is checked against its parameter's type resolved under the
    /// bindings, the result type is resolved the same way, and the instantiation —
    /// the procedure and the type bound to each of its variables, in the signature's
    /// order — is recorded under the call. A call with the wrong number of arguments
    /// is E0216.
    #[verifier::rlimit(100)]
    #[verifier::spinoff_prover]
    pub fn check_polymorphic_call(
        &mut self,
        scope: ExprScope,
        id: ExprId,
        callee: ExprId,
        proc: ProcId,
        sig: &ProcSig,
        args: &'a Vec<ExprId>,
        span: Span,
    ) -> (r: PoolId)
        requires
            old(self).inv(),
            callee < id,
            proc < old(self).hir.procs@.len(),
            forall|k: int| 0 <= k < args@.len() ==> args@[k] < id,
        ensures
            final(self).grows_from(old(self)),
            r < final(self).pool@.len(),
            args@.len() != sig.params@.len() ==> r == ERROR && final(self).diags@.len() > 0
                && final(self).diags@.last().code == Code::E0216 && final(self).diags@.last().span == span,
            args@.len() == sig.params@.len() ==> exists|arg_tys: Seq<PoolId>|
                #![trigger spec_infer_all(old(self).hir, final(self).pool@, old(self).hir.procs@[proc as int].params@, arg_tys)]
                arg_tys.len() <= args@.len() && poly_call_outcome(
                    final(self),
                    old(self),
                    scope,
                    id,
                    proc,
                    sig.poly_vars@,
                    arg_tys,
                    span,
                    r,
                ) && poly_return_outcome(
                    old(self),
                    scope,
                    proc,
                    sig.poly_vars@,
                    args@,
                    spec_infer_all(old(self).hir, final(self).pool@, old(self).hir.procs@[proc as int].params@, arg_tys),
                    r,
                ) && poly_args_outcome(
                    old(self),
                    final(self),
                    scope,
                    proc,
                    sig.poly_vars@,
                    args@,
                    spec_infer_all(old(self).hir, final(self).pool@, old(self).hir.procs@[proc as int].params@, arg_tys),
                ),
        decreases old(self).budget(), id, 4nat,
    {
        let ghost start = *self;
        self.record_expr(scope, callee, VOID);
        if args.len() != sig.params.len() {
            let ghost recorded = *self;
            self.check_unplaced(scope, id, args);
            let ghost checked = *self;
            self.check_arity(sig.params.len(), args.len(), span);
            proof {
                lemma_grows_trans(&start, &recorded, &checked);
                lemma_grows_trans(&start, &checked, &*self);
            }
            return ERROR;
        }
        let hir = self.hir;
        let declaration = &hir.procs[proc as usize];
        let ghost first = *self;
        let ghost simple_args = start.mode == Mode::Check && (forall|k: int| 0 <= k < args@.len() ==> simple_expr(
            hir,
            scope,
            #[trigger] args@[k],
        ));
        proof {
            assert(first.only_judged(&start));
        }
        let mut arg_tys: Vec<PoolId> = Vec::new();
        let mut i: usize = 0;
        while i < declaration.params.len() && i < args.len()
            invariant
                self.grows_from(&first),
                first.inv(),
                first.budget() == old(self).budget(),
                self.hir == hir,
                i <= args@.len(),
                arg_tys@.len() == i,
                forall|k: int| 0 <= k < args@.len() ==> args@[k] < id,
                forall|k: int| 0 <= k < arg_tys@.len() ==> arg_tys@[k] < self.pool@.len(),
                simple_args == (start.mode == Mode::Check && (forall|k: int| 0 <= k < args@.len() ==> simple_expr(
                    hir,
                    scope,
                    #[trigger] args@[k],
                ))),
                simple_args ==> self.only_judged(&start),
                first.only_judged(&start),
            decreases args@.len() - i,
        {
            let ghost prev = *self;
            proof {
                if simple_args {
                    assert(simple_expr(hir, scope, args@[i as int]));
                    assert(crate::typing::known_operand_type(&prev, scope, args@[i as int], None) is Some);
                }
            }
            let ty = self.check_expr(scope, args[i], None);
            proof {
                lemma_grows_trans(&first, &prev, &*self);
            }
            arg_tys.push(ty);
            i = i + 1;
        }
        proof {
            lemma_grows_trans(&start, &first, &*self);
        }
        let bindings = infer_bindings(hir, &self.pool, &declaration.params, &arg_tys);
        let ghost inferred_pool = self.pool@;
        proof {
            lemma_infer_all_fits(hir, inferred_pool, inferred_pool, declaration.params@, arg_tys@);
        }
        let key = match instance_key(&sig.poly_vars, &bindings) {
            None => {
                let ghost before = *self;
                self.report_with_note(
                    Code::E0268,
                    span,
                    "cannot infer every `$T` from the arguments of this call".to_owned(),
                    "each type variable is inferred from an argument that pins it — directly, or through a pointer or view".to_owned(),
                );
                proof {
                    lemma_grows_trans(&start, &before, &*self);
                    assert(self.pool@ == inferred_pool);
                }
                return ERROR;
            },
            Some(key) => key,
        };
        let ghost unbound = *self;
        let ghost simple = start.mode == Mode::Check && (forall|k: int| 0 <= k < args@.len() ==> simple_expr(
            hir,
            scope,
            #[trigger] args@[k],
        )) && params_read_bindings(hir, declaration.params@, bindings@);
        self.bind_pairs(&bindings);
        let ghost second = *self;
        proof {
            assert(second.mode == start.mode);
        }
        let mut i: usize = 0;
        while i < declaration.params.len()
            invariant
                self.grows_from(&second),
                second.inv(),
                second.budget() == old(self).budget(),
                self.hir == hir,
                id >= 1,
                forall|k: int| 0 <= k < args@.len() ==> args@[k] < id,
                *declaration == hir.procs@[proc as int],
                simple == (start.mode == Mode::Check && (forall|k: int| 0 <= k < args@.len() ==> simple_expr(
                    hir,
                    scope,
                    #[trigger] args@[k],
                )) && params_read_bindings(hir, declaration.params@, bindings@)),
                second.mode == start.mode,
                simple ==> forall|v: Symbol| spec_last_binding(bindings@, v) is Some ==> #[trigger] self.spec_bound(v)
                    == spec_last_binding(bindings@, v),
                start.hir == hir,
                simple ==> self.pool == start.pool && self.sigs == start.sigs && self.imports == start.imports && self.body
                    == start.body && self.locals == start.locals && self.call_position == start.call_position
                    && self.type_position == start.type_position && self.mode == start.mode,
                crate::ctx::extends(start.diags@, self.diags@),
                simple ==> forall|k: int|
                    0 <= k < i && k < args@.len() && k < declaration.params@.len() ==> match (#[trigger] declaration.params@[k]).ty {
                        Some(t) => match bound_return(hir, t, bindings@) {
                            Some(w) => w != ERROR ==> match crate::typing::known_operand_code(&start, scope, args@[k], Some(w)) {
                                Some((code, sp)) => crate::ctx::reported(start.diags@, self.diags@, code, sp),
                                None => true,
                            },
                            None => true,
                        },
                        None => true,
                    },
            decreases declaration.params@.len() - i,
        {
            let ghost iter_start = *self;
            if i < args.len() {
                match declaration.params[i].ty {
                    Some(t) => {
                        let ghost prev = *self;
                        proof {
                            if simple {
                                assert(declaration.params@[i as int].ty == Some(t));
                                assert(reads_bindings(hir, t, bindings@));
                                match spec_type_ref_at(hir, ExprScope::TopLevel, t) {
                                    Some(TypeRef::Name(sym, _)) => {
                                        assert(self.spec_bound(sym) == spec_last_binding(bindings@, sym));
                                    },
                                    _ => {},
                                }
                            }
                        }
                        let want = self.resolve_type(ExprScope::TopLevel, t, span);
                        proof {
                            if simple {
                                assert(*self == prev);
                            }
                        }
                        if want != ERROR {
                            let ghost resolved = *self;
                            proof {
                                if simple {
                                    assert(simple_expr(hir, scope, args@[i as int]));
                                    assert(crate::typing::known_operand_type(&resolved, scope, args@[i as int], Some(want)) is Some);
                                }
                            }
                            self.check_expr(scope, args[i], Some(want));
                            proof {
                                lemma_grows_trans(&prev, &resolved, &*self);
                                if simple {
                                    assert(crate::typing::known_operand_code(&resolved, scope, args@[i as int], Some(want))
                                        == crate::typing::known_operand_code(&start, scope, args@[i as int], Some(want)));
                                    match crate::typing::known_operand_code(&start, scope, args@[i as int], Some(want)) {
                                        Some((code, sp)) => {
                                            assert(crate::ctx::reported(resolved.diags@, self.diags@, code, sp));
                                            crate::ctx::lemma_reported_kept(start.diags@, resolved.diags@, self.diags@, code, sp);
                                        },
                                        None => {},
                                    }
                                    assert(self.type_bindings@ == resolved.type_bindings@);
                                    assert forall|v: Symbol| spec_last_binding(bindings@, v) is Some implies #[trigger] self.spec_bound(v)
                                        == spec_last_binding(bindings@, v) by {
                                        assert(resolved.spec_bound(v) == spec_last_binding(bindings@, v));
                                    }
                                }
                            }
                        }
                        proof {
                            lemma_grows_trans(&second, &prev, &*self);
                            if simple {
                                match bound_return(hir, t, bindings@) {
                                    Some(w) => {
                                        match spec_type_ref_at(hir, ExprScope::TopLevel, t) {
                                            Some(TypeRef::Name(sym, _)) => {
                                                assert(prev.spec_bound(sym) == Some(w));
                                            },
                                            Some(TypeRef::Poly(v)) => {
                                                assert(prev.spec_bound(v) == Some(w));
                                            },
                                            _ => {},
                                        }
                                        assert(want == w);
                                    },
                                    None => {},
                                }
                            }
                        }
                    },
                    None => {},
                }
            }
            proof {
                if simple {
                    assert forall|k: int|
                        0 <= k < i + 1 && k < args@.len() && k < declaration.params@.len() implies match (
                        #[trigger] declaration.params@[k]).ty {
                        Some(t) => match bound_return(hir, t, bindings@) {
                            Some(w) => w != ERROR ==> match crate::typing::known_operand_code(&start, scope, args@[k], Some(w)) {
                                Some((code, sp)) => crate::ctx::reported(start.diags@, self.diags@, code, sp),
                                None => true,
                            },
                            None => true,
                        },
                        None => true,
                    } by {
                        if k < i {
                            match declaration.params@[k].ty {
                                Some(t) => match bound_return(hir, t, bindings@) {
                                    Some(w) => match crate::typing::known_operand_code(&start, scope, args@[k], Some(w)) {
                                        Some((code, sp)) => {
                                            if w != ERROR {
                                                crate::ctx::lemma_reported_kept(start.diags@, iter_start.diags@, self.diags@, code, sp);
                                            }
                                        },
                                        None => {},
                                    },
                                    None => {},
                                },
                                None => {},
                            }
                        }
                    }
                }
            }
            i = i + 1;
        }
        let ghost checked = *self;
        proof {
            if simple {
                match declaration.ret {
                    Some(t) => match spec_type_ref_at(hir, ExprScope::TopLevel, t) {
                        Some(TypeRef::Name(sym, _)) => {
                            if spec_last_binding(bindings@, sym) is Some {
                                assert(self.spec_bound(sym) == spec_last_binding(bindings@, sym));
                            }
                        },
                        Some(TypeRef::Poly(v)) => {
                            if spec_last_binding(bindings@, v) is Some {
                                assert(self.spec_bound(v) == spec_last_binding(bindings@, v));
                            }
                        },
                        _ => {},
                    },
                    None => {},
                }
            }
        }
        let ret = match declaration.ret {
            Some(t) => self.resolve_type(ExprScope::TopLevel, t, span),
            None => VOID,
        };
        proof {
            lemma_grows_trans(&second, &checked, &*self);
        }
        let vars = binding_names(&bindings);
        let ghost worked = *self;
        self.unbind_variables(&vars);
        proof {
            assert forall|v: Symbol| !vars@.contains(v) implies #[trigger] second.spec_bound(v) == unbound.spec_bound(v) by {
                assert forall|k: int| 0 <= k < bindings@.len() implies (#[trigger] bindings@[k]).0 != v by {
                    assert(vars@[k] == bindings@[k].0);
                }
                lemma_last_binding_absent(bindings@, v);
            }
            lemma_grows_around_bindings(&unbound, &second, &worked, &*self, vars@);
            lemma_grows_trans(&start, &unbound, &*self);
        }
        let ghost recorded = *self;
        self.instantiations.insert(expr_key_of(scope, id), (proc, key));
        proof {
            assert(self.grows_from(&recorded));
            lemma_grows_trans(&start, &recorded, &*self);
            lemma_infer_all_fits(hir, inferred_pool, self.pool@, declaration.params@, arg_tys@);
            assert(poly_call_outcome(&*self, &start, scope, id, proc, sig.poly_vars@, arg_tys@, span, ret));
            assert(bindings@ == spec_infer_all(hir, self.pool@, declaration.params@, arg_tys@));
            assert(poly_return_outcome(&start, scope, proc, sig.poly_vars@, args@, bindings@, ret));
            assert(poly_args_outcome(&start, &*self, scope, proc, sig.poly_vars@, args@, bindings@)) by {
                if simple {
                    assert forall|k: int|
                        0 <= k < args@.len() && k < declaration.params@.len() implies match (#[trigger] declaration.params@[k]).ty {
                        Some(t) => match bound_return(hir, t, bindings@) {
                            Some(w) => w != ERROR ==> match crate::typing::known_operand_code(&start, scope, args@[k], Some(w)) {
                                Some((code, sp)) => crate::ctx::reported(start.diags@, self.diags@, code, sp),
                                None => true,
                            },
                            None => true,
                        },
                        None => true,
                    } by {
                        match declaration.params@[k].ty {
                            Some(t) => match bound_return(hir, t, bindings@) {
                                Some(w) => match crate::typing::known_operand_code(&start, scope, args@[k], Some(w)) {
                                    Some((code, sp)) => {
                                        if w != ERROR {
                                            crate::ctx::lemma_reported_kept(start.diags@, checked.diags@, self.diags@, code, sp);
                                        }
                                    },
                                    None => {},
                                },
                                None => {},
                            },
                            None => {},
                        }
                    }
                }
            }
        }
        ret
    }
}

/// A variable that no pair names has no last binding among them.
pub proof fn lemma_last_binding_absent(pairs: Seq<(Symbol, PoolId)>, var: Symbol)
    requires
        forall|k: int| 0 <= k < pairs.len() ==> (#[trigger] pairs[k]).0 != var,
    ensures
        crate::ctx::spec_last_binding(pairs, var) is None,
    decreases pairs.len(),
{
    if pairs.len() > 0 {
        assert(pairs.last() == pairs[pairs.len() - 1]);
        assert forall|k: int| 0 <= k < pairs.drop_last().len() implies (#[trigger] pairs.drop_last()[k]).0 != var by {
            assert(pairs.drop_last()[k] == pairs[k]);
        }
        lemma_last_binding_absent(pairs.drop_last(), var);
    }
}

/// The variables `bindings` binds, in order.
fn binding_names(bindings: &Vec<(Symbol, PoolId)>) -> (r: Vec<Symbol>)
    ensures
        r@.len() == bindings@.len(),
        forall|k: int| 0 <= k < r@.len() ==> r@[k] == (#[trigger] bindings@[k]).0,
{
    let mut names: Vec<Symbol> = Vec::new();
    let mut i: usize = 0;
    while i < bindings.len()
        invariant
            i <= bindings@.len(),
            names@.len() == i,
            forall|k: int| 0 <= k < i ==> names@[k] == (#[trigger] bindings@[k]).0,
        decreases bindings@.len() - i,
    {
        names.push(bindings[i].0);
        i = i + 1;
    }
    names
}

} // verus!
