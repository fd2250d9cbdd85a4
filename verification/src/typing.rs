//! Typing: type annotations, file-level signatures and expressions.
//!
//! The three call each other, so they live together. A constant's type comes from its
//! initialiser, an initialiser can name another constant, and a type annotation can name
//! a struct whose fields are annotations again. Signatures are computed on demand and
//! memoised; a constant that is reached again while its own signature is being computed
//! depends on itself, and is reported (E0226) instead of being recomputed.
//!
//! Every judgment here keeps the context's invariant and only ever adds to the pool and
//! to the diagnostics; each one's `decreases` is what makes the whole mutual recursion
//! terminate: the number of items whose signature is not being computed, then the index
//! of the node being typed, then the judgment's rank.

use vstd::prelude::*;
use crate::ctx::{Code, Ctx, Diagnostic, Mode, extends, int_literal_code, reported, pool_extends, concat3, concat5, lemma_grows_trans, lemma_grows_around_bindings, lemma_unset_raise, pushed, spec_expect};
use crate::hir::{
    BinOp, Expr, ExprId, ExprScope, FileHir, ItemId, ItemKind, Literal, ProcId, Res, Span, Symbol, TypeRef, TypeRefId, UnOp,
    expr_at, type_ref_at, spec_expr_at, spec_type_ref_at, lemma_expr_children_below, lemma_type_ref_children_below,
    spec_text, spec_is_instantiation,
};
use crate::poly::{collect_poly_vars, spec_poly_vars};
use crate::ints::{int_named, spec_int_named};
use crate::ops::{is_arithmetic, spec_is_arithmetic};
use crate::map::{expr_key, expr_key_of, local_key, local_key_of};
use crate::pool::{
    DeclId, Field, PoolId, Shape, TypeItem, ERROR, VOID, BOOL, STRING, TYPE, FOREIGN_LIBRARY, S64, U8, PTR_U8,
    Pool, fields_fit, fields_view, lemma_first_field_fits, refers_below, spec_field_type, spec_int_info, spec_pointee,
};
use crate::sigs::{ProcSig, SigEntry, SigKind, copy_symbols, same_sig};
use crate::scope::{conversion_allowed, copy_ids, copy_sig, entry_fits, sig_fits, spec_literal_type};
use crate::rules::{spec_slice, appended, arithmetic_codes, call_codes, spec_arithmetic, spec_bitwise_operand, spec_index, spec_pointer_arithmetic};
use crate::args::{
    ArgSlot, has_default, has_named, lemma_fill_below, spec_call_slots, spec_callee_sig, spec_slotted, spec_slotted_call,
};
use crate::defaults::{lemma_default_value_stable, spec_inferred_param_type, spec_param_default};
use crate::scope::spec_any_overloads;

verus! {

broadcast use vstd::std_specs::hash::group_hash_axioms;



/// The type an expression may take in the context `expected` without a diagnostic: any
/// type where there is no real expectation, and the expectation itself or poison where
/// there is one.
pub open spec fn agrees(expected: Option<PoolId>, r: PoolId) -> bool {
    match expected {
        Some(w) => w == ERROR || r == ERROR || r == w,
        None => true,
    }
}

/// The type `p.*` has when `p` has type `t`: the pointee, or poison.
pub open spec fn spec_deref(items: Seq<Shape>, t: PoolId) -> PoolId {
    if t == ERROR {
        ERROR
    } else {
        match spec_pointee(items, t) {
            Some(p) => p,
            None => ERROR,
        }
    }
}


/// The type a builtin type name denotes: `bool`, `string`, or one of the integer types.
pub open spec fn spec_builtin_type(name: Seq<char>) -> Option<Shape> {
    if name == "bool"@ {
        Some(Shape::Bool)
    } else if name == "string"@ {
        Some(Shape::Str)
    } else {
        match spec_int_named(name) {
            Some((signed, bits)) => Some(Shape::Int { signed, bits }),
            None => None,
        }
    }
}

/// The type a resolved name has: a local's recorded type and a parameter's declared
/// type in the body being checked, an imported name's signature, and — once signatures
/// are computed — a file-level name's signature; poison for anything unresolved.
pub open spec fn spec_name_type(ctx: &Ctx, res: Res) -> PoolId {
    match res {
        Res::Local(local) => match ctx.body {
            Some(b) => if ctx.locals.view().contains_key(local_key(b.id, local)) {
                ctx.locals.view()[local_key(b.id, local)]
            } else {
                ERROR
            },
            None => ERROR,
        },
        Res::Param(index) => match ctx.body {
            Some(b) => if index < b.params@.len() {
                b.params@[index as int]
            } else {
                ERROR
            },
            None => ERROR,
        },
        Res::Item(item) => if item < ctx.hir.items@.len() {
            match ctx.hir.items@[item as int].name {
                Some(name) => if ctx.sigs.names_view().contains_key(name as u128) {
                    ctx.sigs.names_view()[name as u128].ty
                } else {
                    ERROR
                },
                None => ERROR,
            }
        } else {
            ERROR
        },
        Res::Imported(import, name) => if import < ctx.imports@.len() && ctx.imports@[import as int].1.names_view().contains_key(
            name as u128,
        ) {
            ctx.imports@[import as int].1.names_view()[name as u128].ty
        } else {
            ERROR
        },
        Res::Error => ERROR,
    }
}

/// The type a unary operation takes when its operand has type `t`.
pub open spec fn unary_result(items: Seq<Shape>, op: UnOp, t: PoolId, expected: Option<PoolId>, r: PoolId) -> bool {
    match op {
        UnOp::Not => r == spec_expect(expected, BOOL),
        UnOp::Neg => r == if t != ERROR && spec_int_info(items, t) is None {
            ERROR
        } else {
            spec_expect(expected, t)
        },
        UnOp::BitNot => r == if t != ERROR && !spec_bitwise_operand(items, t) {
            ERROR
        } else {
            spec_expect(expected, t)
        },
        UnOp::AddrOf => if t == ERROR {
            r == ERROR
        } else {
            agrees(expected, r) && (expected is None ==> items[r as int] == Shape::Pointer(t))
        },
    }
}


/// `t` with every pointer followed.
pub open spec fn spec_strip(items: Seq<Shape>, t: PoolId) -> PoolId
    decreases t,
{
    if t < items.len() {
        match items[t as int] {
            Shape::Pointer(p) => if p < t {
                spec_strip(items, p)
            } else {
                t
            },
            _ => t,
        }
    } else {
        t
    }
}


/// Following pointers from `t` visits only types below `t`, so a pool that only grows
/// follows them the same way.
pub proof fn lemma_strip_stable(a: Seq<Shape>, b: Seq<Shape>, t: PoolId)
    requires
        a.len() <= b.len(),
        forall|k: int| 0 <= k < a.len() ==> #[trigger] b[k] == a[k],
        t < a.len(),
    ensures
        spec_strip(b, t) == spec_strip(a, t),
        spec_strip(a, t) < a.len(),
    decreases t,
{
    assert(b[t as int] == a[t as int]);
    match a[t as int] {
        Shape::Pointer(p) => {
            if p < t {
                lemma_strip_stable(a, b, p);
            }
        },
        _ => {},
    }
}

/// The field `name` of `base`, a type that is neither a pointer nor a type value: a
/// `string`'s `data` and `count`, or a struct's recorded field; `None` when there is none.
pub open spec fn spec_member_lookup(pool: Pool, base: PoolId, name: Seq<char>) -> Option<PoolId> {
    match pool@[base as int] {
        Shape::Str => if name == "data"@ {
            Some(PTR_U8)
        } else if name == "count"@ {
            Some(S64)
        } else {
            None
        },
        Shape::Array { .. } | Shape::View { .. } => if name == "count"@ {
            Some(S64)
        } else {
            None
        },
        Shape::Struct(decl) => spec_field_type(pool.fields_of(decl), name),
        _ => None,
    }
}

/// The type of field `name` of `base`: the field's, or poison when `base` is poison or
/// has no such field.
pub open spec fn spec_member(pool: Pool, base: PoolId, name: Seq<char>) -> PoolId {
    if base == ERROR {
        ERROR
    } else {
        match spec_member_lookup(pool, base, name) {
            Some(t) => t,
            None => ERROR,
        }
    }
}

/// Whether an expression is built only out of literals that take their type from
/// context: an integer, `null`, or arithmetic, negation and complement of such.
pub open spec fn spec_untyped_literal(hir: &FileHir, scope: ExprScope, id: ExprId) -> bool
    decreases id,
{
    match spec_expr_at(hir, scope, id) {
        Some(Expr::Literal(literal, _)) => literal is Int || literal is Null,
        Some(Expr::Unary { op, operand, .. }) => (op == UnOp::Neg || op == UnOp::BitNot) && operand < id
            && spec_untyped_literal(hir, scope, operand),
        Some(Expr::Binary { op, lhs, rhs, .. }) => spec_is_arithmetic(op) && lhs < id && rhs < id && spec_untyped_literal(
            hir,
            scope,
            lhs,
        ) && spec_untyped_literal(hir, scope, rhs),
        Some(Expr::Run(inner, _)) => inner < id && spec_untyped_literal(hir, scope, inner),
        _ => false,
    }
}

/// Whether a name's declaration is an assignable variable, as the check phase's
/// signatures record it.
pub open spec fn spec_name_assignable(ctx: &Ctx, res: Res) -> bool {
    match res {
        Res::Local(_) | Res::Param(_) | Res::Error => true,
        Res::Item(item) => item < ctx.hir.items@.len() && match ctx.hir.items@[item as int].name {
            Some(name) => ctx.sigs.names_view().contains_key(name as u128) && ctx.sigs.names_view()[name as u128].kind
                == SigKind::Var,
            None => false,
        },
        Res::Imported(import, name) => import < ctx.imports@.len() && ctx.imports@[import as int].1.names_view().contains_key(
            name as u128,
        ) && ctx.imports@[import as int].1.names_view()[name as u128].kind == SigKind::Var,
    }
}

/// The declaration an expression names, as the check phase's signatures record it:
/// this file's entry for an item, the import's for an imported name.
pub open spec fn spec_name_entry(ctx: &Ctx, scope: ExprScope, expr: ExprId) -> Option<SigEntry> {
    match spec_expr_at(ctx.hir, scope, expr) {
        Some(Expr::Name { res: Res::Item(item), .. }) => if item < ctx.hir.items@.len() {
            match ctx.hir.items@[item as int].name {
                Some(name) => if ctx.sigs.names_view().contains_key(name as u128) {
                    Some(ctx.sigs.names_view()[name as u128])
                } else {
                    None
                },
                None => None,
            }
        } else {
            None
        },
        Some(Expr::Name { res: Res::Imported(import, name), .. }) => if import < ctx.imports@.len()
            && ctx.imports@[import as int].1.names_view().contains_key(name as u128) {
            Some(ctx.imports@[import as int].1.names_view()[name as u128])
        } else {
            None
        },
        _ => None,
    }
}

/// The name of the declaration an expression names, when it is one of this file's
/// named declarations other than `#run` and `#import` whose signature is not being
/// computed right now: its entry is then the one recorded under that name.
pub open spec fn names_settled_item(ctx: &Ctx, scope: ExprScope, expr: ExprId) -> Option<Symbol> {
    match spec_expr_at(ctx.hir, scope, expr) {
        Some(Expr::Name { res: Res::Item(j), .. }) => if j < ctx.hir.items@.len() && !ctx.in_progress@[j as int] && !(
        ctx.hir.items@[j as int].kind is Run) && !(ctx.hir.items@[j as int].kind is Import) {
            ctx.hir.items@[j as int].name
        } else {
            None
        },
        _ => None,
    }
}

/// The type a name denotes when it names a type declaration: a struct, union, variant
/// or enum.
pub open spec fn spec_aliased_type(entry: Option<SigEntry>) -> Option<PoolId> {
    match entry {
        Some(e) => match e.kind {
            SigKind::Struct | SigKind::Union | SigKind::Variant | SigKind::Enum => e.type_value,
            _ => None,
        },
        None => None,
    }
}

/// The enum declaration a name denotes, with whether it is a set of flags.
pub open spec fn spec_denoted_enum(pool: Seq<Shape>, entry: Option<SigEntry>) -> Option<(DeclId, bool)> {
    match entry {
        Some(e) => match e.type_value {
            Some(t) => if t < pool.len() {
                match pool[t as int] {
                    Shape::Enum { decl, flags } => Some((decl, flags)),
                    _ => None,
                }
            } else {
                None
            },
            None => None,
        },
        None => None,
    }
}

/// Whether an expression denotes a location: a local, a parameter or a variable, a
/// dereference, a field of a pointer, and a field or an element of a place. A field of
/// something recorded as a type is not one. A missing or poisoned expression counts as
/// a place, so that it draws no second error.
pub open spec fn spec_is_place(ctx: &Ctx, scope: ExprScope, id: ExprId) -> bool
    decreases id,
{
    match spec_expr_at(ctx.hir, scope, id) {
        None => true,
        Some(Expr::Name { res, .. }) => spec_name_assignable(ctx, res),
        Some(Expr::Field { receiver, .. }) => match ctx.types.spec_expr_type(scope, receiver) {
            Some(t) if t == TYPE => false,
            Some(t) if t < ctx.pool@.len() && spec_pointee(ctx.pool@, t) is Some => true,
            _ => receiver < id && spec_is_place(ctx, scope, receiver),
        },
        Some(Expr::Index { base, .. }) => base < id && spec_is_place(ctx, scope, base),
        Some(Expr::Deref(..)) | Some(Expr::Error(_)) => true,
        _ => false,
    }
}

/// The builtin type a procedure's annotation names, when it is a plain name of a
/// builtin that neither a binding in place nor one of the procedure's own type
/// variables shadows.
pub open spec fn annotation_builtin(ctx: &Ctx, proc: ProcId, t: TypeRefId) -> Option<Shape> {
    match spec_type_ref_at(ctx.hir, ExprScope::TopLevel, t) {
        Some(TypeRef::Name(sym, _)) => if ctx.spec_bound(sym) is None && !spec_poly_vars(
            ctx.hir,
            ctx.hir.procs@[proc as int].params@,
        ).contains(sym) {
            spec_builtin_type(spec_text(ctx.interner@, sym))
        } else {
            None
        },
        _ => None,
    }
}

/// What the entry of a declaration says for each kind of declaration: a procedure or
/// an operator has the procedure's type; a struct or an enum denotes its own nominal
/// type and is itself a value of type `type`; a constant whose initialiser is a literal
/// has the literal's type, and only a `type`-typed constant denotes a type; a variable
/// annotated with a builtin has that builtin type, and one with neither annotation nor
/// initialiser is poisoned.
pub open spec fn item_entry_shape(old: &Ctx, ctx: &Ctx, item: ItemId, e: SigEntry) -> bool {
    match old.hir.items@[item as int].kind {
        ItemKind::Proc(p) => e.kind == SigKind::Proc && e.type_value is None && (if p < old.hir.procs@.len() {
            ctx.pool@[e.ty as int] is Proc
        } else {
            e.ty == ERROR
        }),
        ItemKind::Operator { proc: p, .. } => e.kind == SigKind::Operator && e.type_value is None && (if p
            < old.hir.procs@.len() {
            ctx.pool@[e.ty as int] is Proc
        } else {
            e.ty == ERROR
        }),
        ItemKind::Struct { .. } => e.kind == SigKind::Struct && e.ty == TYPE && (e.type_value matches Some(t) && ctx.pool@[t
            as int] == Shape::Struct(DeclId { file: old.file, index: item })),
        ItemKind::Enum { flags, .. } => e.kind == SigKind::Enum && e.ty == TYPE && (e.type_value matches Some(t)
            && ctx.pool@[t as int] == Shape::Enum { decl: DeclId { file: old.file, index: item }, flags }),
        ItemKind::Const { value } => e.kind == SigKind::Const && (e.type_value is Some ==> e.ty == TYPE) && (spec_expr_at(
            old.hir,
            ExprScope::TopLevel,
            value,
        ) matches Some(Expr::Literal(lit, _)) ==> e.ty == spec_literal_type(old.pool@, lit, None)),
        ItemKind::Var { ty, init } => e.kind == SigKind::Var && e.type_value is None && (ty is None && init is None ==> e.ty
            == ERROR) && (ty matches Some(t) ==> (builtin_ref(old, ExprScope::TopLevel, t) matches Some(shape) ==> ctx.pool@[e.ty
            as int] == shape)),
        _ => false,
    }
}

/// What an arithmetic operation gives for operand types `l` and `rt`: the number rule,
/// with its diagnostics the last ones appended; or, for `+` and `-` on a pointer, the
/// pointer rule.
pub open spec fn arithmetic_outcome(
    old: &Ctx,
    ctx: &Ctx,
    op: BinOp,
    l: PoolId,
    rt: PoolId,
    expected: Option<PoolId>,
    span: Span,
    r: PoolId,
) -> bool {
    ||| (r == spec_arithmetic(ctx.pool@, l, rt, expected) && exists|d: Seq<Diagnostic>| #[trigger]
        extends(old.diags@, d) && appended(d, ctx.diags@, arithmetic_codes(ctx.pool@, l, rt, expected), span))
    ||| ((op == BinOp::Add || op == BinOp::Sub) && (spec_pointer_arithmetic(ctx.pool@, op, l, rt) matches Some(p) && r
        == spec_expect(expected, p)))
}

/// The diagnostic a literal argument raises against the type `want` it is checked
/// against, with the literal's span: an integer out of range or in a non-integer
/// context, or a `bool` where something else is wanted.
pub open spec fn literal_against(items: Seq<Shape>, e: Expr, want: PoolId) -> Option<(Code, Span)> {
    match e {
        Expr::Literal(Literal::Int(v), span) => match int_literal_code(items, v, Some(want)) {
            Some(code) => Some((code, span)),
            None => None,
        },
        Expr::Literal(Literal::Bool(_), span) => if crate::ctx::expect_mismatch(Some(want), BOOL) {
            Some((crate::ctx::mismatch_code(items, want, BOOL), span))
        } else {
            None
        },
        _ => None,
    }
}

/// A type name that nothing provides: no type variable binds it, it is no builtin, no
/// declaration of the file has it, and there are no imports to look in.
pub open spec fn unknown_type_name(ctx: &Ctx, sym: Symbol) -> bool {
    &&& ctx.spec_bound(sym) is None
    &&& spec_builtin_type(spec_text(ctx.interner@, sym)) is None
    &&& forall|j: int| 0 <= j < ctx.hir.items@.len() ==> (#[trigger] ctx.hir.items@[j]).name != Some(sym)
    &&& ctx.imports@.len() == 0
}

/// The diagnostics, in order, that computing a declaration's signature gives when it
/// reads no other declaration: an unnamed item, `#run` or `#import`, a procedure with
/// neither parameters nor a return annotation, or a constant initialised by an integer
/// literal (judged against `s64`) or a malformed expression. `None` for anything else.
pub open spec fn plain_item_diags(hir: &FileHir, i: int) -> Option<Seq<(Code, Span)>> {
    match hir.items@[i].name {
        None => Some(Seq::empty()),
        Some(_) => match hir.items@[i].kind {
            ItemKind::Proc(p) => if p >= hir.procs@.len() || (hir.procs@[p as int].params@.len() == 0
                && hir.procs@[p as int].ret is None) {
                Some(Seq::empty())
            } else {
                None
            },
            ItemKind::Const { value } => match spec_expr_at(hir, ExprScope::TopLevel, value) {
                Some(Expr::Literal(Literal::Int(v), span)) => Some(crate::check::range_codes(true, 64, v, span)),
                Some(Expr::Error(_)) => Some(Seq::empty()),
                _ => None,
            },
            ItemKind::Run(_) => Some(Seq::empty()),
            ItemKind::Import { .. } => Some(Seq::empty()),
            _ => None,
        },
    }
}

/// A file whose every declaration's signature reads no other declaration.
pub open spec fn plain_signature_file(hir: &FileHir) -> bool {
    forall|i: int| 0 <= i < hir.items@.len() ==> #[trigger] plain_item_diags(hir, i) is Some
}

/// The diagnostics, in order, of the first `n` declarations of such a file.
pub open spec fn plain_signature_diags(hir: &FileHir, n: nat) -> Seq<(Code, Span)>
    decreases n,
{
    if n == 0 {
        Seq::empty()
    } else {
        plain_signature_diags(hir, (n - 1) as nat) + plain_item_diags(hir, n - 1)->0
    }
}

/// The diagnostics, in order, that the first `n` arguments of a call give when each is
/// an integer literal or a malformed expression: a literal is judged against its
/// parameter's type, or against `s64` past the last parameter, and a malformed argument
/// reports nothing. `None` when some argument is anything else.
pub open spec fn literal_args_diags(
    hir: &FileHir,
    items: Seq<Shape>,
    scope: ExprScope,
    args: Seq<ExprId>,
    params: Seq<PoolId>,
    n: nat,
) -> Option<Seq<(Code, Span)>>
    decreases n,
{
    if n == 0 {
        Some(Seq::empty())
    } else if n > args.len() {
        None
    } else {
        let want = if n - 1 < params.len() {
            Some(params[n - 1])
        } else {
            None
        };
        match (literal_args_diags(hir, items, scope, args, params, (n - 1) as nat), spec_expr_at(hir, scope, args[n - 1])) {
            (Some(a), Some(Expr::Error(_))) => Some(a),
            (Some(a), Some(Expr::Literal(Literal::Int(v), span))) => Some(a + match int_literal_code(items, v, want) {
                Some(code) => seq![(code, span)],
                None => Seq::empty(),
            }),
            _ => None,
        }
    }
}

/// The arguments before a plain argument list's end are plain too.
pub proof fn lemma_literal_args_prefix(
    hir: &FileHir,
    items: Seq<Shape>,
    scope: ExprScope,
    args: Seq<ExprId>,
    params: Seq<PoolId>,
    n: nat,
    i: nat,
)
    requires
        literal_args_diags(hir, items, scope, args, params, n) is Some,
        i <= n,
    ensures
        literal_args_diags(hir, items, scope, args, params, i) is Some,
    decreases n - i,
{
    if i < n {
        lemma_literal_args_prefix(hir, items, scope, args, params, (n - 1) as nat, i);
    }
}

/// What checking argument `i` of such an argument list appends.
pub open spec fn literal_step(
    hir: &FileHir,
    items: Seq<Shape>,
    scope: ExprScope,
    args: Seq<ExprId>,
    params: Seq<PoolId>,
    i: nat,
) -> Seq<(Code, Span)> {
    let want = if i < params.len() {
        Some(params[i as int])
    } else {
        None
    };
    match spec_expr_at(hir, scope, args[i as int]) {
        Some(Expr::Literal(Literal::Int(v), span)) => match int_literal_code(items, v, want) {
            Some(code) => seq![(code, span)],
            None => Seq::empty(),
        },
        _ => Seq::empty(),
    }
}

/// One more plain argument appends its own step, whichever later pool judges it.
pub proof fn lemma_literal_step(
    hir: &FileHir,
    items: Seq<Shape>,
    later: Seq<Shape>,
    scope: ExprScope,
    args: Seq<ExprId>,
    params: Seq<PoolId>,
    i: nat,
)
    requires
        literal_args_diags(hir, items, scope, args, params, i + 1) is Some,
        pool_extends(items, later),
        crate::pool::well_known_prefix(items),
        forall|k: int| 0 <= k < params.len() ==> params[k] < items.len(),
    ensures
        literal_args_diags(hir, items, scope, args, params, i) is Some,
        literal_args_diags(hir, items, scope, args, params, i + 1)->0 == literal_args_diags(hir, items, scope, args, params, i)->0
            + literal_step(hir, items, scope, args, params, i),
        literal_step(hir, later, scope, args, params, i) == literal_step(hir, items, scope, args, params, i),
        spec_expr_at(hir, scope, args[i as int]) matches Some(e) && (e is Error || e matches Expr::Literal(Literal::Int(_), _)),
{
    let want: Option<PoolId> = if i < params.len() {
        Some(params[i as int])
    } else {
        None
    };
    let target = spec_int_literal_type_of(want);
    assert(target < items.len());
    assert(later[target as int] == items[target as int]);
}

/// The type an integer literal is judged against: the wanted one, else `s64`.
pub open spec fn spec_int_literal_type_of(want: Option<PoolId>) -> PoolId {
    match want {
        Some(w) => w,
        None => S64,
    }
}

/// A plain argument list is judged the same by any later pool.
pub proof fn lemma_literal_args_stable(
    hir: &FileHir,
    items: Seq<Shape>,
    later: Seq<Shape>,
    scope: ExprScope,
    args: Seq<ExprId>,
    params: Seq<PoolId>,
    n: nat,
)
    requires
        pool_extends(items, later),
        crate::pool::well_known_prefix(items),
        forall|k: int| 0 <= k < params.len() ==> params[k] < items.len(),
    ensures
        literal_args_diags(hir, later, scope, args, params, n) == literal_args_diags(hir, items, scope, args, params, n),
    decreases n,
{
    if n > 0 && n <= args.len() {
        lemma_literal_args_stable(hir, items, later, scope, args, params, (n - 1) as nat);
        let want: Option<PoolId> = if n - 1 < params.len() {
            Some(params[n - 1])
        } else {
            None
        };
        let target = spec_int_literal_type_of(want);
        assert(target < items.len());
        assert(later[target as int] == items[target as int]);
    }
}

/// The arity diagnostic of a call of a procedure with `params` parameters and `args`
/// arguments.
pub open spec fn arity_codes(params: nat, args: nat, span: Span) -> Seq<(Code, Span)> {
    if params != args {
        seq![(Code::E0216, span)]
    } else {
        Seq::empty()
    }
}

/// The name of the file-level declaration `res` resolves to, when its signature can be
/// had without running into a cycle: a named declaration other than `#run` or `#import`
/// whose signature is not being computed.
pub open spec fn settled_item_name(ctx: &Ctx, res: Res) -> Option<Symbol> {
    match res {
        Res::Item(j) => if j < ctx.hir.items@.len() && !ctx.in_progress@[j as int] && !(ctx.hir.items@[j as int].kind is Run)
            && !(ctx.hir.items@[j as int].kind is Import) {
            ctx.hir.items@[j as int].name
        } else {
            None
        },
        _ => None,
    }
}

/// What a constant whose initialiser names another declaration `j` gets, when `j`'s
/// signature can be had and no other declaration shares its name: naming a struct or
/// an enum makes it an alias that denotes that type, and naming a constant denotes no
/// type, for an alias is followed one level only.
pub open spec fn alias_entry(ctx: &Ctx, pool: Seq<Shape>, item: ItemId, e: SigEntry) -> bool {
    match ctx.hir.items@[item as int].kind {
        ItemKind::Const { value } => match spec_expr_at(ctx.hir, ExprScope::TopLevel, value) {
            Some(Expr::Name { res: Res::Item(j), .. }) => settled_item_name(ctx, Res::Item(j)) is Some
                && crate::ctx::name_unique(ctx.hir, j as int) && !crate::scope::spec_is_foreign_proc(ctx, Res::Item(j)) ==> match ctx.hir.items@[
                j as int].kind {
                ItemKind::Struct { .. } => e.ty == TYPE && (e.type_value matches Some(t) && pool[t as int] == Shape::Struct(
                    DeclId { file: ctx.file, index: j },
                )),
                ItemKind::Enum { flags, .. } => e.ty == TYPE && (e.type_value matches Some(t) && pool[t as int] == Shape::Enum {
                    decl: DeclId { file: ctx.file, index: j },
                    flags,
                }),
                ItemKind::Const { .. } => e.type_value is None,
                _ => true,
            },
            _ => true,
        },
        _ => true,
    }
}

/// A type reference that resolves to poison by itself: a malformed or missing one, a
/// name that nothing provides, or an unbound type variable.
pub open spec fn poisoned_ref(ctx: &Ctx, scope: ExprScope, t: TypeRefId) -> bool {
    match spec_type_ref_at(ctx.hir, scope, t) {
        None => true,
        Some(TypeRef::Error) => true,
        Some(TypeRef::Name(sym, _)) => unknown_type_name(ctx, sym),
        Some(TypeRef::Poly(var)) => ctx.spec_bound(var) is None,
        _ => false,
    }
}

/// The types both operands of a binary operation take against `want`, when the context
/// decides each: with a context both take it; without one, whichever side is not an
/// untyped literal is typed first and decides the other's context.
pub open spec fn operands_outcome(ctx: &Ctx, scope: ExprScope, lhs: ExprId, rhs: ExprId, want: Option<PoolId>) -> Option<
    (PoolId, PoolId),
> {
    match want {
        Some(t) => match (known_operand_type(ctx, scope, lhs, Some(t)), known_operand_type(ctx, scope, rhs, Some(t))) {
            (Some(l), Some(r)) => Some((l, r)),
            _ => None,
        },
        None => if spec_untyped_literal(ctx.hir, scope, lhs) && !spec_untyped_literal(ctx.hir, scope, rhs) {
            match known_operand_type(ctx, scope, rhs, None) {
                Some(r) => match known_operand_type(ctx, scope, lhs, Some(r)) {
                    Some(l) => Some((l, r)),
                    None => None,
                },
                None => None,
            }
        } else {
            match known_operand_type(ctx, scope, lhs, None) {
                Some(l) => match known_operand_type(ctx, scope, rhs, Some(l)) {
                    Some(r) => Some((l, r)),
                    None => None,
                },
                None => None,
            }
        },
    }
}

/// The context `&`, `|` and `^` impose on their operands: the expected type when it is
/// an integer or a flags enum.
pub open spec fn bitwise_want(items: Seq<Shape>, expected: Option<PoolId>) -> Option<PoolId> {
    match expected {
        Some(t) => if spec_int_info(items, t) is Some || (items[t as int] matches Shape::Enum { flags, .. } && flags) {
            Some(t)
        } else {
            None
        },
        None => None,
    }
}

/// What a literal checked against an integer type raises: an integer out of the type's
/// range is E0204 at the literal, one in range nothing; `true` or `false` is a mismatch.
/// So checking a right-hand side, a case value or a cast operand against its target,
/// rather than against no context, is what makes `x += 300` on a `u8` an error.
pub proof fn lemma_literal_against_an_integer_type(
    items: Seq<Shape>,
    v: i128,
    b: bool,
    span: Span,
    w: PoolId,
    signed: bool,
    bits: u16,
)
    requires
        crate::pool::well_known_prefix(items),
        w < items.len(),
        spec_int_info(items, w) == Some((signed, bits)),
    ensures
        literal_against(items, Expr::Literal(Literal::Int(v), span), w) == if crate::ints::spec_int_min(signed, bits) <= v
            && v <= crate::ints::spec_int_max(signed, bits) {
            None
        } else {
            Some((Code::E0204, span))
        },
        literal_against(items, Expr::Literal(Literal::Bool(b), span), w) == Some((Code::E0214, span)),
{
    assert(w != ERROR);
    assert(w != BOOL);
}

/// The context a shift imposes on its left operand: the expected type when it is an
/// integer type, none otherwise.
pub open spec fn shift_want(items: Seq<Shape>, expected: Option<PoolId>) -> Option<PoolId> {
    match expected {
        Some(t) => if spec_int_info(items, t) is Some {
            Some(t)
        } else {
            None
        },
        None => None,
    }
}

/// A shift of two integers has its left operand's type: the count's type never matters,
/// so shifting by counts of different integer types gives the same type.
pub proof fn lemma_shift_has_the_left_type(
    items: Seq<Shape>,
    value: PoolId,
    count: PoolId,
    other_count: PoolId,
    expected: Option<PoolId>,
)
    requires
        spec_int_info(items, value) is Some,
        spec_int_info(items, count) is Some,
        spec_int_info(items, other_count) is Some,
    ensures
        crate::rules::spec_shift(items, value, count, expected) == spec_expect(expected, value),
        crate::rules::spec_shift(items, value, count, expected) == crate::rules::spec_shift(items, value, other_count, expected),
        crate::rules::spec_shift(items, value, count, None) == value,
{
}

/// The type an operand takes against `want` when the context alone decides it: a
/// literal's, or, once signatures are computed, a name's.
pub open spec fn known_operand_type(ctx: &Ctx, scope: ExprScope, e: ExprId, want: Option<PoolId>) -> Option<PoolId> {
    match spec_expr_at(ctx.hir, scope, e) {
        Some(Expr::Literal(lit, _)) => Some(spec_literal_type(ctx.pool@, lit, want)),
        Some(Expr::Name { res, .. }) => if ctx.mode == Mode::Check {
            Some(name_outcome(ctx, scope, e, res, want).0)
        } else {
            None
        },
        _ => None,
    }
}

/// The diagnostic such an operand raises against `want`, with its span: a literal that
/// does not fit or does not belong, a name refused as a value or of the wrong type.
pub open spec fn known_operand_code(ctx: &Ctx, scope: ExprScope, e: ExprId, want: Option<PoolId>) -> Option<(Code, Span)> {
    match spec_expr_at(ctx.hir, scope, e) {
        Some(lit) => match lit {
            Expr::Literal(..) => match want {
                Some(w) => literal_against(ctx.pool@, lit, w),
                None => None,
            },
            Expr::Name { res, span } => if ctx.mode == Mode::Check {
                match name_outcome(ctx, scope, e, res, want).1 {
                    Some(code) => Some((code, span)),
                    None => None,
                }
            } else {
                None
            },
            _ => None,
        },
        None => None,
    }
}

/// What a name expression gives once signatures are computed, with the diagnostic it
/// raises: a foreign procedure anywhere but as a call's callee is poison (E0256); a
/// type used as a value outside a type position is poison (E0261); anything else has
/// its name's type, checked against the expected one.
pub open spec fn name_outcome(ctx: &Ctx, scope: ExprScope, id: ExprId, res: Res, expected: Option<PoolId>) -> (
    PoolId,
    Option<Code>,
) {
    let ty = spec_name_type(ctx, res);
    if crate::scope::spec_is_foreign_proc(ctx, res) && !ctx.call_position.view().contains_key(expr_key(scope, id)) {
        (ERROR, Some(Code::E0256))
    } else if ty == TYPE && expected != Some(ERROR) && !ctx.type_position.view().contains_key(expr_key(scope, id)) {
        (ERROR, Some(Code::E0261))
    } else if crate::ctx::expect_mismatch(expected, ty) {
        (spec_expect(expected, ty), Some(crate::ctx::mismatch_code(ctx.pool@, expected->0, ty)))
    } else {
        (spec_expect(expected, ty), None)
    }
}

/// The builtin type a type reference names, when it is a plain name of a builtin that
/// no type variable shadows.
pub open spec fn builtin_ref(ctx: &Ctx, scope: ExprScope, id: TypeRefId) -> Option<Shape> {
    match spec_type_ref_at(ctx.hir, scope, id) {
        Some(TypeRef::Name(sym, _)) => if ctx.spec_bound(sym) is None {
            spec_builtin_type(spec_text(ctx.interner@, sym))
        } else {
            None
        },
        _ => None,
    }
}

/// The length an array annotation gives: its literal, or the value of the constant it
/// names.
pub open spec fn spec_array_length(hir: &FileHir, len: Option<u64>, len_name: Option<Symbol>) -> Option<u64> {
    match len {
        Some(n) => Some(n),
        None => match len_name {
            Some(name) => crate::scope::spec_constant_array_length(hir, name),
            None => None,
        },
    }
}

/// Whether an expression is built only out of context-typed literals, so that in a
/// comparison it takes the other operand's type.
pub fn is_untyped_literal(hir: &FileHir, scope: ExprScope, id: ExprId) -> (r: bool)
    ensures
        r == spec_untyped_literal(hir, scope, id),
    decreases id,
{
    match expr_at(hir, scope, id) {
        Some(Expr::Literal(literal, _)) => match literal {
            Literal::Int(_) | Literal::Null => true,
            Literal::Str(_) | Literal::Bool(_) => false,
        },
        Some(Expr::Unary { op, operand, .. }) => (*op == UnOp::Neg || *op == UnOp::BitNot) && *operand < id
            && is_untyped_literal(hir, scope, *operand),
        Some(Expr::Binary { op, lhs, rhs, .. }) => is_arithmetic(*op) && *lhs < id && *rhs < id && is_untyped_literal(
            hir,
            scope,
            *lhs,
        ) && is_untyped_literal(hir, scope, *rhs),
        Some(Expr::Run(inner, _)) => *inner < id && is_untyped_literal(hir, scope, *inner),
        _ => false,
    }
}

impl<'a> Ctx<'a> {
    /// The signature of a named file-level item: computed on demand while signatures
    /// are being computed, read back from them while bodies are checked.
    pub fn entry_for_item(&mut self, item: ItemId) -> (r: Option<SigEntry>)
        requires
            old(self).inv(),
            item < old(self).hir.items@.len(),
        ensures
            final(self).grows_from(old(self)),
            r matches Some(e) ==> entry_fits(e, final(self).pool@.len()),
            old(self).mode == Mode::Signatures && !old(self).in_progress@[item as int] && !(old(self).hir.items@[item as int].kind
                is Run) && !(old(self).hir.items@[item as int].kind is Import) ==> (old(self).hir.items@[item as int].name matches Some(
                name,
            ) ==> r is Some && final(self).sigs.names_view().contains_key(name as u128) && final(self).sigs.names_view()[name
                as u128] == r->0 && final(self).finished@[item as int]),
            old(self).mode == Mode::Check ==> *final(self) == *old(self),
            old(self).mode == Mode::Check ==> r == match old(self).hir.items@[item as int].name {
                Some(name) => if old(self).sigs.names_view().contains_key(name as u128) {
                    Some(old(self).sigs.names_view()[name as u128])
                } else {
                    None
                },
                None => None,
            },
        decreases old(self).budget(), 0nat, 1nat,
    {
        match self.mode {
            Mode::Signatures => {
                proof {
                    if self.finished@[item as int] {
                        assert(crate::ctx::finished_recorded(self.hir, self.file, self.pool@, self.sigs, item as int));
                    }
                }
                self.item_signature(item)
            },
            Mode::Check => {
                let hir = self.hir;
                match hir.items[item as usize].name {
                    Some(name) => self.sigs.lookup(name),
                    None => None,
                }
            },
        }
    }

    /// The signature of a named file-level item, computing it if needed. `None` for an
    /// unnamed item, which has no signature.
    pub fn item_signature(&mut self, item: ItemId) -> (r: Option<SigEntry>)
        requires
            old(self).inv(),
            old(self).mode == Mode::Signatures,
            item < old(self).hir.items@.len(),
        ensures
            final(self).grows_from(old(self)),
            r matches Some(e) ==> entry_fits(e, final(self).pool@.len()),
            old(self).hir.items@[item as int].name is None ==> r is None && *final(self) == *old(self),
            old(self).hir.items@[item as int].name matches Some(name) ==> {
                if old(self).finished@[item as int] {
                    *final(self) == *old(self) && r == if old(self).sigs.names_view().contains_key(name as u128) {
                        Some(old(self).sigs.names_view()[name as u128])
                    } else {
                        None
                    }
                } else if old(self).in_progress@[item as int] {
                    r == Some(SigEntry { ty: ERROR, type_value: None, kind: SigKind::Const, item })
                        && pushed(old(self).diags@, final(self).diags@, Code::E0226, old(self).hir.items@[item as int].span)
                } else {
                    &&& final(self).finished@[item as int]
                    &&& plain_item_diags(old(self).hir, item as int) matches Some(d) ==> crate::check::emitted(
                        old(self).diags@,
                        final(self).diags@,
                        d,
                    ) && final(self).finished@ == old(self).finished@.update(item as int, true)
                    &&& r is Some <==> !(old(self).hir.items@[item as int].kind is Run) && !(old(self).hir.items@[
                        item as int].kind is Import)
                    &&& r is Some ==> final(self).sigs.names_view().contains_key(name as u128)
                        && final(self).sigs.names_view()[name as u128] == r->0
                }
            },
        decreases old(self).budget(), 0nat, 0nat,
    {
        let hir = self.hir;
        let name = match hir.items[item as usize].name {
            Some(n) => n,
            None => {
                return None;
            },
        };
        if self.finished[item as usize] {
            return self.sigs.lookup(name);
        }
        if self.in_progress[item as usize] {
            self.report_constant_cycle(item);
            return Some(SigEntry { ty: ERROR, type_value: None, kind: SigKind::Const, item });
        }
        let ghost start = *self;
        proof {
            lemma_unset_raise(self.in_progress@, item as int);
        }
        self.in_progress.set(item as usize, true);
        let ghost raised = *self;
        let entry = self.compute_item_signature(item);
        proof {
            if let Some(e) = entry {
                assert(crate::ctx::entry_shape(self.hir, self.file, self.pool@, item as int, e));
            }
            assert(self.in_progress@[item as int]);
            assert(!self.finished@[item as int]);
        }
        self.in_progress.set(item as usize, false);
        proof {
            assert(self.in_progress@ =~= start.in_progress@);
            assert(raised.types == start.types);
            assert forall|k: u128| #[trigger] start.types.expr_entries().contains_key(k) implies self.types.expr_entries().contains_key(
                k,
            ) by {
                assert(raised.types.expr_entries().contains_key(k));
            }
            assert forall|k: u128| #[trigger] start.type_position.view().contains_key(k) implies self.type_position.view().contains_key(
                k,
            ) by {
                assert(raised.type_position.view().contains_key(k));
            }
        }
        proof {
            assert(!self.finished@[item as int]);
            assert forall|i: int| 0 <= i < self.finished@.len() && #[trigger] self.finished@[i] && self.hir.items@[i].name
                == Some(name) implies !crate::ctx::name_unique(self.hir, i) by {
                assert(i != item);
                assert(self.hir.items@[item as int].name == self.hir.items@[i].name);
            }
        }
        match entry {
            Some(e) => self.record_entry(name, e),
            None => {},
        }
        self.finished.set(item as usize, true);
        entry
    }

    /// Computes one item's signature, with the cycle guard already raised for it.
    #[verifier::rlimit(40)]
    pub fn compute_item_signature(&mut self, item: ItemId) -> (r: Option<SigEntry>)
        requires
            old(self).inv(),
            old(self).mode == Mode::Signatures,
            item < old(self).hir.items@.len(),
        ensures
            final(self).grows_from(old(self)),
            r matches Some(e) ==> entry_fits(e, final(self).pool@.len()) && e.item == item,
            r is Some <==> old(self).hir.items@[item as int].name is Some && !(old(self).hir.items@[item as int].kind is Run)
                && !(old(self).hir.items@[item as int].kind is Import),
            r matches Some(e) ==> item_entry_shape(old(self), final(self), item, e),
            r matches Some(e) ==> alias_entry(old(self), final(self).pool@, item, e),
            r matches Some(e) ==> (old(self).hir.items@[item as int].kind is Struct || old(self).hir.items@[item as int].kind is Enum
                ==> (e.type_value matches Some(t) && final(self).sigs.type_names_view().contains_key(t as u128)
                && final(self).sigs.type_names_view()[t as u128] == spec_text(
                old(self).interner@,
                old(self).hir.items@[item as int].name->0,
            ))),
            plain_item_diags(old(self).hir, item as int) matches Some(d) ==> crate::check::emitted(
                old(self).diags@,
                final(self).diags@,
                d,
            ) && final(self).finished@ == old(self).finished@,
        decreases old(self).budget(), 0x1_0000_0000int, 2nat,
    {
        let hir = self.hir;
        let declaration = &hir.items[item as usize];
        let name = match declaration.name {
            Some(n) => n,
            None => {
                return None;
            },
        };
        let span = declaration.span;
        match &declaration.kind {
            ItemKind::Proc(proc) => {
                let ghost before = *self;
                let ty = match self.proc_signature(*proc, span) {
                    Some(sig) => sig.ty,
                    None => ERROR,
                };
                proof {
                    if plain_item_diags(hir, item as int) is Some {
                        if (*proc as int) < hir.procs@.len() {
                            assert(self.diags@ == before.diags@);
                        }
                        assert(plain_item_diags(hir, item as int)->0 == Seq::<(Code, Span)>::empty());
                        assert(crate::check::emitted(before.diags@, self.diags@, Seq::<(Code, Span)>::empty()));
                    }
                }
                Some(SigEntry { ty, type_value: None, kind: SigKind::Proc, item })
            },
            ItemKind::Operator { proc, op } => {
                let ty = match self.proc_signature(*proc, span) {
                    Some(sig) => {
                        self.check_operator_overload(*op, &sig, *proc, span);
                        sig.ty
                    },
                    None => ERROR,
                };
                Some(SigEntry { ty, type_value: None, kind: SigKind::Operator, item })
            },
            ItemKind::Struct { fields } => {
                let decl = DeclId { file: self.file, index: item };
                let ty = self.intern_type(TypeItem::StructType(decl));
                let text = self.interner.text(name).to_owned();
                self.record_type_name(ty, text);
                let ghost named = *self;
                self.resolve_struct_body(decl, fields, span);
                proof {
                    assert(named.sigs.type_names_view().contains_key(ty as u128));
                    assert(self.sigs.type_names_view()[ty as u128] == named.sigs.type_names_view()[ty as u128]);
                }
                Some(SigEntry { ty: TYPE, type_value: Some(ty), kind: SigKind::Struct, item })
            },
            ItemKind::Enum { flags, members } => {
                let decl = DeclId { file: self.file, index: item };
                let ty = self.intern_type(TypeItem::EnumType { decl, flags: *flags });
                let text = self.interner.text(name).to_owned();
                self.record_type_name(ty, text);
                let ghost named = *self;
                self.resolve_enum_body(decl, *flags, members);
                proof {
                    assert(named.sigs.type_names_view().contains_key(ty as u128));
                    assert(self.sigs.type_names_view()[ty as u128] == named.sigs.type_names_view()[ty as u128]);
                }
                Some(SigEntry { ty: TYPE, type_value: Some(ty), kind: SigKind::Enum, item })
            },
            ItemKind::Const { value } => {
                self.mark_type_position(ExprScope::TopLevel, *value);
                let ghost marked = *self;
                let ty = self.check_expr(ExprScope::TopLevel, *value, None);
                proof {
                    assert(crate::pool::well_known_prefix(marked.pool@));
                    match spec_expr_at(hir, ExprScope::TopLevel, *value) {
                        Some(Expr::Literal(Literal::Int(v), span)) => {
                            assert(spec_int_info(marked.pool@, S64) == Some((true, 64u16)));
                            assert(ty == S64);
                        },
                        _ => {},
                    }
                }
                let ghost checked = *self;
                let type_value = if ty == TYPE {
                    self.aliased_type(ExprScope::TopLevel, *value)
                } else {
                    None
                };
                proof {
                    match spec_expr_at(hir, ExprScope::TopLevel, *value) {
                        Some(Expr::Name { res: Res::Item(j), .. }) => {
                            if settled_item_name(&old(self), Res::Item(j)) is Some && crate::ctx::name_unique(hir, j as int)
                                && !crate::scope::spec_is_foreign_proc(&old(self), Res::Item(j)) {
                                let n = hir.items@[j as int].name->0;
                                assert(settled_item_name(&marked, Res::Item(j)) == Some(n));
                                assert(marked.type_position.view().contains_key(crate::map::expr_key(ExprScope::TopLevel, *value)));
                                assert(checked.sigs.names_view().contains_key(n as u128));
                                assert(ty == checked.sigs.names_view()[n as u128].ty);
                                assert(checked.finished@[j as int]);
                                assert(crate::ctx::finished_recorded(hir, checked.file, checked.pool@, checked.sigs, j as int));
                                assert(self.finished@[j as int]);
                                assert(crate::ctx::finished_recorded(hir, self.file, self.pool@, self.sigs, j as int));
                            }
                        },
                        _ => {},
                    }
                }
                proof {
                    match plain_item_diags(hir, item as int) {
                        Some(d) => {
                            assert(ty != TYPE);
                            assert(*self == checked);
                            match spec_expr_at(hir, ExprScope::TopLevel, *value) {
                                Some(Expr::Literal(Literal::Int(v), span)) => {
                                    assert(d == crate::check::range_codes(true, 64, v, span));
                                    assert(crate::check::emitted(marked.diags@, self.diags@, d));
                                },
                                _ => {
                                    assert(self.diags@ == marked.diags@);
                                    assert(crate::check::emitted(marked.diags@, self.diags@, d));
                                },
                            }
                        },
                        None => {},
                    }
                }
                Some(SigEntry { ty, type_value, kind: SigKind::Const, item })
            },
            ItemKind::Var { ty, init } => {
                let declared = match ty {
                    Some(t) => Some(self.resolve_type(ExprScope::TopLevel, *t, span)),
                    None => None,
                };
                let resolved = match (declared, init) {
                    (Some(annotation), Some(expr)) => {
                        self.check_expr(ExprScope::TopLevel, *expr, Some(annotation));
                        annotation
                    },
                    (Some(annotation), None) => annotation,
                    (None, Some(expr)) => {
                        let inferred = self.check_expr(ExprScope::TopLevel, *expr, None);
                        self.reject_void_binding(inferred, span)
                    },
                    (None, None) => ERROR,
                };
                Some(SigEntry { ty: resolved, type_value: None, kind: SigKind::Var, item })
            },
            ItemKind::Run(_) | ItemKind::Import { .. } => None,
        }
    }

    /// Resolves a struct's field annotations and records its field list.
    pub fn resolve_struct_body(&mut self, decl: DeclId, fields: &'a Vec<(Symbol, TypeRefId)>, span: Span)
        requires
            old(self).inv(),
            old(self).mode == Mode::Signatures,
        ensures
            final(self).grows_from(old(self)),
            final(self).pool.fields_of(decl) matches Some(recorded) && recorded.len() == fields@.len() && forall|k: int|
                0 <= k < recorded.len() ==> (#[trigger] recorded[k]).0 == spec_text(old(self).interner@, fields@[k].0)
                    && recorded[k].1 < final(self).pool@.len(),
        decreases old(self).budget(), 0x1_0000_0000int, 1nat,
    {
        let ghost start = *self;
        let interner = self.interner;
        let mut resolved: Vec<Field> = Vec::new();
        let mut i: usize = 0;
        while i < fields.len()
            invariant
                self.grows_from(&start),
                start.inv(),
                start.budget() == old(self).budget(),
                i <= fields@.len(),
                resolved@.len() == i,
                fields_fit(fields_view(resolved@), self.pool@.len()),
                self.interner == interner,
                forall|k: int| 0 <= k < i ==> (#[trigger] resolved@[k]).name@ == spec_text(interner@, fields@[k].0),
            decreases fields@.len() - i,
        {
            let (fname, tref) = fields[i];
            let ghost prev = *self;
            let ty = self.resolve_type(ExprScope::TopLevel, tref, span);
            let text = interner.text(fname).to_owned();
            proof {
                assert(text@ == spec_text(interner@, fname));
                if fname < interner@.len() {
                    assert(interner@[fname as int].len() < usize::MAX);
                }
            }
            let ghost before = fields_view(resolved@);
            resolved.push(Field { name: text, ty });
            proof {
                let after = fields_view(resolved@);
                assert forall|k: int| 0 <= k < after.len() implies (#[trigger] after[k]).1 < self.pool@.len()
                    && after[k].0.len() < usize::MAX by {
                    if k < before.len() {
                        assert(after[k] == before[k]);
                    }
                }
                lemma_grows_trans(&start, &prev, &*self);
            }
            i = i + 1;
        }
        let ghost recorded = fields_view(resolved@);
        self.record_struct_body(decl, resolved);
        proof {
            assert(self.interner == start.interner);
            assert forall|k: int| 0 <= k < recorded.len() implies (#[trigger] recorded[k]).0 == spec_text(
                start.interner@,
                fields@[k].0,
            ) && recorded[k].1 < self.pool@.len() by {
                assert(fields_fit(recorded, self.pool@.len()));
            }
        }
    }

    /// Resolves a procedure's parameter and return annotations, interns its type and
    /// records its signature. `None` for a procedure the file does not have.
    pub fn proc_signature(&mut self, proc: ProcId, span: Span) -> (r: Option<ProcSig>)
        requires
            old(self).inv(),
            old(self).mode == Mode::Signatures,
        ensures
            final(self).grows_from(old(self)),
            r matches Some(sig) ==> sig_fits(sig, final(self).pool@.len()),
            r is None <==> proc >= old(self).hir.procs@.len(),
            r matches Some(sig) ==> {
                let declaration = old(self).hir.procs@[proc as int];
                &&& sig.params@.len() == declaration.params@.len()
                &&& forall|j: int| 0 <= j < sig.names@.len() ==> sig.names@[j] == declaration.params@[j].name
                &&& sig.names@.len() == declaration.params@.len()
                &&& sig.defaults@.len() == declaration.params@.len()
                &&& forall|j: int| 0 <= j < sig.defaults@.len() ==> {
                    let param = #[trigger] declaration.params@[j];
                    let value = spec_param_default(final(self).pool@, old(self).hir, param, sig.params@[j], declaration.foreign is Some);
                    &&& (sig.defaults@[j] is Some <==> value is Some)
                    &&& (sig.defaults@[j] matches Some(v) ==> v < final(self).pool@.len() && final(self).pool@[v as int] == value->0)
                    &&& (param.ty is None ==> match spec_inferred_param_type(old(self).hir, param) {
                        Some(t) => sig.params@[j] == t,
                        None => sig.params@[j] == ERROR,
                    })
                }
                &&& sig.poly_vars@ == (if spec_is_instantiation(old(self).hir.proc_bindings@, proc) {
                    Seq::<Symbol>::empty()
                } else {
                    spec_poly_vars(old(self).hir, declaration.params@)
                })
                &&& (declaration.ret is None ==> sig.ret == VOID)
                &&& (declaration.ret matches Some(t) ==> (annotation_builtin(old(self), proc, t) matches Some(shape)
                    ==> final(self).pool@[sig.ret as int] == shape))
                &&& forall|j: int| 0 <= j < sig.params@.len() ==> ((#[trigger] declaration.params@[j]).ty matches Some(t)
                    ==> (annotation_builtin(old(self), proc, t) matches Some(shape) ==> final(self).pool@[sig.params@[j] as int]
                    == shape))
                &&& forall|v: Symbol| spec_poly_vars(old(self).hir, declaration.params@).contains(v)
                    ==> (#[trigger] final(self).spec_bound(v)) is None
                &&& final(self).pool@[sig.ty as int] == (Shape::Proc {
                    params: sig.params@,
                    ret: sig.ret,
                    must: declaration.must,
                    c_call: declaration.foreign is Some || declaration.c_call,
                })
                &&& final(self).sigs.procs_view().contains_key(proc as u128)
                &&& same_sig(final(self).sigs.procs_view()[proc as u128], sig)
            },
            proc < old(self).hir.procs@.len() && old(self).hir.procs@[proc as int].params@.len() == 0
                && old(self).hir.procs@[proc as int].ret is None ==> final(self).diags@ == old(self).diags@
                && final(self).finished@ == old(self).finished@,
            proc >= old(self).hir.procs@.len() ==> *final(self) == *old(self),
        decreases old(self).budget(), 0x1_0000_0000int, 1nat,
    {
        let hir = self.hir;
        if (proc as usize) >= hir.procs.len() {
            return None;
        }
        let declaration = &hir.procs[proc as usize];
        let ghost start = *self;
        let mut params: Vec<PoolId> = Vec::new();
        let mut names: Vec<Symbol> = Vec::new();
        let mut defaults: Vec<Option<PoolId>> = Vec::new();
        let foreign = declaration.foreign.is_some();
        let vars_to_bind = collect_poly_vars(hir, &declaration.params);
        let poly_vars = if hir.is_instantiation(proc) {
            Vec::new()
        } else {
            copy_symbols(&vars_to_bind)
        };
        self.bind_variables(proc, &vars_to_bind);
        let ghost bound = *self;
        let mut i: usize = 0;
        while i < declaration.params.len()
            invariant
                self.grows_from(&bound),
                bound.only_bindings_changed(&start),
                bound.inv(),
                start.inv(),
                start.budget() == old(self).budget(),
                self.hir == hir,
                i <= declaration.params@.len(),
                params@.len() == i,
                names@.len() == i,
                defaults@.len() == i,
                foreign == (declaration.foreign is Some),
                forall|j: int| 0 <= j < i ==> names@[j] == declaration.params@[j].name,
                forall|j: int| 0 <= j < params@.len() ==> params@[j] < self.pool@.len(),
                forall|j: int| 0 <= j < i ==> {
                    let param = #[trigger] declaration.params@[j];
                    let value = spec_param_default(self.pool@, hir, param, params@[j], foreign);
                    &&& (defaults@[j] is Some <==> value is Some)
                    &&& (defaults@[j] matches Some(v) ==> v < self.pool@.len() && self.pool@[v as int] == value->0)
                    &&& (param.ty is None ==> match spec_inferred_param_type(hir, param) {
                        Some(t) => params@[j] == t,
                        None => params@[j] == ERROR,
                    })
                },
                forall|j: int| 0 <= j < i ==> ((#[trigger] declaration.params@[j]).ty matches Some(t) ==> (annotation_builtin(
                    &start,
                    proc,
                    t,
                ) matches Some(shape) ==> self.pool@[params@[j] as int] == shape)),
                forall|v: Symbol| !vars_to_bind@.contains(v) ==> #[trigger] bound.spec_bound(v) == start.spec_bound(v),
                vars_to_bind@ == spec_poly_vars(hir, declaration.params@),
                proc < hir.procs@.len(),
                *declaration == hir.procs@[proc as int],
                declaration.params@.len() == 0 ==> self.diags@ == start.diags@ && self.finished@ == start.finished@,
            decreases declaration.params@.len() - i,
        {
            let param = &declaration.params[i];
            let ghost prev = *self;
            let (ty, default) = match param.ty {
                Some(t) => {
                    proof {
                        match spec_type_ref_at(hir, ExprScope::TopLevel, t) {
                            Some(TypeRef::Name(sym, _)) => {
                                if annotation_builtin(&start, proc, t) is Some {
                                    assert(!vars_to_bind@.contains(sym));
                                    assert(bound.spec_bound(sym) is None);
                                    assert(!self.type_bindings@.contains_key(sym));
                                }
                            },
                            _ => {},
                        }
                    }
                    let ty = self.resolve_type(ExprScope::TopLevel, t, param.span);
                    let ghost mid = *self;
                    let default = self.param_default(param, ty, foreign);
                    proof {
                        lemma_grows_trans(&prev, &mid, &*self);
                    }
                    (ty, default)
                },
                None => match self.inferred_param_type(param) {
                    Some(ty) => {
                        proof {
                            assert(crate::pool::well_known_prefix(self.pool@));
                        }
                        let ghost mid = *self;
                        let default = self.param_default(param, ty, foreign);
                        proof {
                            lemma_grows_trans(&prev, &mid, &*self);
                        }
                        (ty, default)
                    },
                    None => (ERROR, None),
                },
            };
            proof {
                lemma_grows_trans(&bound, &prev, &*self);
                assert forall|j: int| 0 <= j < i implies {
                    let param = #[trigger] declaration.params@[j];
                    let value = spec_param_default(self.pool@, hir, param, params@[j], foreign);
                    &&& (defaults@[j] is Some <==> value is Some)
                    &&& (defaults@[j] matches Some(v) ==> v < self.pool@.len() && self.pool@[v as int] == value->0)
                } by {
                    let param = declaration.params@[j];
                    match crate::defaults::spec_default_literal(hir, param) {
                        Some(Some((literal, _))) => {
                            lemma_default_value_stable(prev.pool@, self.pool@, literal, params@[j]);
                        },
                        _ => {},
                    }
                    match defaults@[j] {
                        Some(v) => {
                            assert(self.pool@[v as int] == prev.pool@[v as int]);
                        },
                        None => {},
                    }
                }
            }
            names.push(param.name);
            defaults.push(default);
            params.push(ty);
            i = i + 1;
        }
        proof {
            match declaration.ret {
                Some(t) => match spec_type_ref_at(hir, ExprScope::TopLevel, t) {
                    Some(TypeRef::Name(sym, _)) => {
                        if annotation_builtin(&start, proc, t) is Some {
                            assert(!vars_to_bind@.contains(sym));
                            assert(bound.spec_bound(sym) is None);
                            assert(!self.type_bindings@.contains_key(sym));
                        }
                    },
                    _ => {},
                },
                None => {},
            }
        }
        let ghost before_ret = *self;
        let ret = match declaration.ret {
            Some(t) => self.resolve_type(ExprScope::TopLevel, t, span),
            None => VOID,
        };
        let ghost worked = *self;
        proof {
            assert(worked.grows_from(&bound));
        }
        self.unbind_variables(&vars_to_bind);
        proof {
            lemma_grows_around_bindings(&start, &bound, &worked, &*self, vars_to_bind@);
        }
        let ghost unbound = *self;
        proof {
            if declaration.params@.len() == 0 && declaration.ret is None {
                assert(worked == before_ret);
                assert(unbound.diags@ == start.diags@ && unbound.finished@ == start.finished@);
            }
        }
        let c_call = declaration.foreign.is_some() || declaration.c_call;
        let ty = self.intern_type(TypeItem::ProcType { params: copy_ids(&params), ret, must: declaration.must, c_call });
        let sig = ProcSig { params, names, defaults, ret, poly_vars, ty };
        let ghost interned = self.pool@;
        let ghost at_intern = *self;
        self.record_proc_sig(proc, copy_sig(&sig));
        let ghost recorded = self.sigs.procs_view();
        let ghost at_record = *self;
        match self.foreign_library_of(proc) {
            Some(library) => {
                let ghost found = *self;
                self.record_foreign_library(proc, library);
                proof {
                    assert(self.diags == found.diags && self.finished == found.finished);
                }
            },
            None => {},
        }
        proof {
            assert(self.diags == at_record.diags && self.finished == at_record.finished);
            assert(at_record.diags == at_intern.diags && at_record.finished == at_intern.finished);
            assert(at_intern.diags == unbound.diags && at_intern.finished == unbound.finished);
            assert(self.pool@[ty as int] == interned[ty as int]);
            assert(self.sigs.procs_view() == recorded);
            assert forall|v: Symbol| spec_poly_vars(hir, declaration.params@).contains(v) implies (
            #[trigger] self.spec_bound(v)) is None by {
                assert(unbound.spec_bound(v) is None);
                if self.type_bindings@.contains_key(v) {
                    assert(unbound.type_bindings@.contains_key(v));
                }
            }
        }
        Some(sig)
    }

    /// Resolves a type annotation to an interned type. `span` is the declaration's,
    /// because an annotation carries none of its own.
    pub fn resolve_type(&mut self, scope: ExprScope, id: TypeRefId, span: Span) -> (r: PoolId)
        requires
            old(self).inv(),
        ensures
            final(self).grows_from(old(self)),
            r < final(self).pool@.len(),
            match spec_type_ref_at(old(self).hir, scope, id) {
                None => r == ERROR && final(self).diags@ == old(self).diags@,
                Some(TypeRef::Error) => r == ERROR && final(self).diags@ == old(self).diags@,
                Some(TypeRef::Name(sym, _)) => match old(self).spec_bound(sym) {
                    Some(bound) => r == bound && *final(self) == *old(self),
                    None => (spec_builtin_type(spec_text(old(self).interner@, sym)) matches Some(shape)
                        ==> final(self).pool@[r as int] == shape && final(self).diags@ == old(self).diags@
                        && final(self).types == old(self).types) && (unknown_type_name(old(self), sym) ==> r == ERROR
                        && pushed(old(self).diags@, final(self).diags@, Code::E0212, span) && final(self).types
                        == old(self).types),
                },
                Some(TypeRef::Poly(var)) => r == (match old(self).spec_bound(var) {
                    Some(bound) => bound,
                    None => ERROR,
                }) && *final(self) == *old(self),
                Some(TypeRef::Pointer(inner)) => (poisoned_ref(old(self), scope, inner) ==> r == ERROR) && (r == ERROR || (final(self).pool@[r as int] matches Shape::Pointer(p) && p
                    != ERROR)) && (builtin_ref(old(self), scope, inner) matches Some(shape) ==> r != ERROR
                    && final(self).pool@[final(self).pool@[r as int]->Pointer_0 as int] == shape),
                Some(TypeRef::Qualified { module, name }) => r == crate::scope::qualified_type(old(self), module, name)
                    && match crate::scope::qualified_code(old(self), module, name) {
                    Some(code) => pushed(old(self).diags@, final(self).diags@, code, span),
                    None => final(self).diags@ == old(self).diags@,
                },
                Some(TypeRef::Array { elem, len, len_name, len_span, .. }) => (poisoned_ref(old(self), scope, elem) ==> r == ERROR)
                    && match spec_array_length(old(self).hir, len, len_name) {
                    Some(n) => (r == ERROR || (final(self).pool@[r as int] matches Shape::Array { elem: e, len } && len == n
                        && e != ERROR)) && (builtin_ref(old(self), scope, elem) matches Some(shape) ==> r != ERROR
                        && final(self).pool@[final(self).pool@[r as int]->Array_elem as int] == shape),
                    None => r == ERROR && final(self).diags@.len() > 0 && final(self).diags@.last().code == Code::E0233
                        && final(self).diags@.last().span == len_span,
                },
                Some(TypeRef::View(inner)) => (poisoned_ref(old(self), scope, inner) ==> r == ERROR) && (r == ERROR || (final(self).pool@[r as int] matches Shape::View { elem } && elem
                    != ERROR)) && (builtin_ref(old(self), scope, inner) matches Some(shape) ==> r != ERROR
                    && final(self).pool@[final(self).pool@[r as int]->View_elem as int] == shape),
                Some(TypeRef::Results(elems)) => r == ERROR || (final(self).pool@[r as int] matches Shape::Results { elems: rs }
                    && rs.len() == elems@.len() && forall|k: int| 0 <= k < rs.len() ==> rs[k] != ERROR),
            },
        decreases old(self).budget(), 0nat, id as nat + 3,
    {
        let hir = self.hir;
        match type_ref_at(hir, scope, id) {
            None => ERROR,
            Some(TypeRef::Error) => ERROR,
            Some(TypeRef::Name(sym, _)) => self.resolve_type_name(*sym, span),
            Some(TypeRef::Poly(var)) => match self.type_bindings.get(var) {
                Some(bound) => *bound,
                None => ERROR,
            },
            Some(TypeRef::Qualified { module, name }) => self.resolve_qualified_type_name(*module, *name, span),
            Some(TypeRef::Pointer(inner)) => {
                proof {
                    lemma_type_ref_children_below(hir, scope, id);
                }
                let pointee = self.resolve_type(scope, *inner, span);
                if pointee == ERROR {
                    ERROR
                } else {
                    self.pointer_type(pointee)
                }
            },
            Some(TypeRef::Array { elem, len, len_name, len_span }) => {
                proof {
                    lemma_type_ref_children_below(hir, scope, id);
                }
                let element = self.resolve_type(scope, *elem, span);
                let resolved = match len {
                    Some(n) => Some(*n),
                    None => match len_name {
                        Some(name) => self.constant_array_length(*name),
                        None => None,
                    },
                };
                match resolved {
                    None => {
                        self.array_length_not_literal(len_name.is_some(), *len_span);
                        ERROR
                    },
                    Some(n) => {
                        if element == ERROR {
                            ERROR
                        } else {
                            self.intern_type(TypeItem::ArrayType { elem: element, len: n })
                        }
                    },
                }
            },
            Some(TypeRef::Results(elems)) => {
                proof {
                    lemma_type_ref_children_below(hir, scope, id);
                }
                let ghost start = *self;
                let mut resolved: Vec<PoolId> = Vec::new();
                let mut poisoned = false;
                let mut i: usize = 0;
                while i < elems.len()
                    invariant
                        self.grows_from(&start),
                        start.inv(),
                        start.budget() == old(self).budget(),
                        i <= elems@.len(),
                        resolved@.len() == i,
                        forall|k: int| 0 <= k < elems@.len() ==> elems@[k] < id,
                        forall|k: int| 0 <= k < resolved@.len() ==> resolved@[k] < self.pool@.len(),
                        !poisoned ==> forall|k: int| 0 <= k < resolved@.len() ==> resolved@[k] != ERROR,
                    decreases elems@.len() - i,
                {
                    let ghost prev = *self;
                    let ty = self.resolve_type(scope, elems[i], span);
                    proof {
                        lemma_grows_trans(&start, &prev, &*self);
                    }
                    if ty == ERROR {
                        poisoned = true;
                    }
                    resolved.push(ty);
                    i = i + 1;
                }
                if poisoned {
                    ERROR
                } else {
                    self.intern_type(TypeItem::ResultsType { elems: resolved })
                }
            },
            Some(TypeRef::View(elem)) => {
                proof {
                    lemma_type_ref_children_below(hir, scope, id);
                }
                let element = self.resolve_type(scope, *elem, span);
                if element == ERROR {
                    ERROR
                } else {
                    self.intern_type(TypeItem::ViewType { elem: element })
                }
            },
        }
    }

    /// Resolves a type name: a builtin, then this file's declarations, then the imports.
    pub fn resolve_type_name(&mut self, sym: Symbol, span: Span) -> (r: PoolId)
        requires
            old(self).inv(),
        ensures
            final(self).grows_from(old(self)),
            r < final(self).pool@.len(),
            old(self).spec_bound(sym) matches Some(bound) ==> r == bound && *final(self) == *old(self),
            old(self).spec_bound(sym) is None ==> (spec_builtin_type(spec_text(old(self).interner@, sym)) matches Some(
                shape,
            ) ==> final(self).pool@[r as int] == shape && final(self).diags@ == old(self).diags@ && final(self).types
                == old(self).types),
            unknown_type_name(old(self), sym) ==> r == ERROR && pushed(old(self).diags@, final(self).diags@, Code::E0212, span)
                && final(self).types == old(self).types,
        decreases old(self).budget(), 0nat, 2nat,
    {
        match self.type_bindings.get(&sym) {
            Some(bound) => {
                return *bound;
            },
            None => {},
        }
        let hir = self.hir;
        let interner = self.interner;
        let text = interner.text(sym);
        if crate::suggest::str_eq(text, "bool") {
            return BOOL;
        }
        if crate::suggest::str_eq(text, "string") {
            return STRING;
        }
        match int_named(text) {
            Some((signed, bits)) => {
                if signed && bits == 64 {
                    return S64;
                }
                if !signed && bits == 8 {
                    return U8;
                }
                return self.intern_type(TypeItem::IntType { signed, bits });
            },
            None => {},
        }
        match hir.item_named(sym) {
            Some(item) => {
                match self.sigs.lookup(sym) {
                    Some(entry) => match entry.type_value {
                        Some(ty) => {
                            return ty;
                        },
                        None => {},
                    },
                    None => {},
                }
                return match self.entry_for_item(item) {
                    None => ERROR,
                    Some(entry) => match entry.type_value {
                        Some(ty) => ty,
                        None => {
                            self.not_a_type(sym, entry.kind, span);
                            ERROR
                        },
                    },
                };
            },
            None => {},
        }
        self.resolve_imported_type_name(sym, span)
    }

    /// Types one expression, imposing `expected` on it where that is meaningful, and
    /// records the type.
    #[verifier::rlimit(80)]
    pub fn check_expr(&mut self, scope: ExprScope, id: ExprId, expected: Option<PoolId>) -> (r: PoolId)
        requires
            old(self).inv(),
            expected matches Some(w) ==> w < old(self).pool@.len(),
        ensures
            final(self).grows_from(old(self)),
            r < final(self).pool@.len(),
            final(self).types.spec_expr_type(scope, id) == Some(r),
            agrees(expected, r) || old(self).diags@.len() < final(self).diags@.len(),
            spec_expr_at(old(self).hir, scope, id) is None ==> r == ERROR && final(self).diags@ == old(self).diags@,
            spec_expr_at(old(self).hir, scope, id) matches Some(Expr::Error(_)) ==> final(self).diags@ == old(self).diags@,
            expected matches Some(w) ==> (spec_expr_at(old(self).hir, scope, id) matches Some(e) ==> (literal_against(
                old(self).pool@,
                e,
                w,
            ) matches Some((code, sp)) ==> reported(old(self).diags@, final(self).diags@, code, sp))),
            spec_expr_at(old(self).hir, scope, id) matches Some(Expr::Literal(Literal::Int(v), span)) ==> (int_literal_code(
                old(self).pool@,
                v,
                expected,
            ) matches Some(code) ==> reported(old(self).diags@, final(self).diags@, code, span)),
            spec_expr_at(old(self).hir, scope, id) matches Some(Expr::Literal(Literal::Int(v), span)) ==> match int_literal_code(
                old(self).pool@,
                v,
                expected,
            ) {
                Some(code) => pushed(old(self).diags@, final(self).diags@, code, span),
                None => final(self).diags@ == old(self).diags@,
            },
            spec_expr_at(old(self).hir, scope, id) matches Some(Expr::Literal(literal, _)) ==> r == spec_literal_type(
                old(self).pool@,
                literal,
                expected,
            ),
            spec_expr_at(old(self).hir, scope, id) matches Some(Expr::Error(_)) ==> r == ERROR,
            known_operand_type(old(self), scope, id, expected) matches Some(t) ==> r == t && final(self).only_judged(old(self)),
            (spec_expr_at(old(self).hir, scope, id) is None || spec_expr_at(old(self).hir, scope, id) matches Some(
                Expr::Error(_),
            ) || spec_expr_at(old(self).hir, scope, id) matches Some(Expr::Literal(..))) ==> final(self).finished
                == old(self).finished && final(self).types.local_entries() == old(self).types.local_entries(),
            old(self).mode == Mode::Signatures ==> (spec_expr_at(old(self).hir, scope, id) matches Some(Expr::Name { res, .. })
                ==> (settled_item_name(old(self), res) matches Some(n) ==> !crate::scope::spec_is_foreign_proc(
                old(self),
                res,
            ) && final(self).type_position.view().contains_key(expr_key(scope, id)) ==> final(self).sigs.names_view().contains_key(
                n as u128,
            ) && r == spec_expect(expected, final(self).sigs.names_view()[n as u128].ty) && final(self).finished@[res->Item_0 as int])),
            old(self).mode == Mode::Check ==> (spec_expr_at(old(self).hir, scope, id) matches Some(Expr::Name { res, span })
                ==> r == name_outcome(old(self), scope, id, res, expected).0 && match name_outcome(
                old(self),
                scope,
                id,
                res,
                expected,
            ).1 {
                Some(code) => pushed(old(self).diags@, final(self).diags@, code, span),
                None => final(self).diags@ == old(self).diags@,
            }),
            spec_expr_at(old(self).hir, scope, id) matches Some(Expr::SystemLibrary(_, _)) ==> r == spec_expect(
                expected,
                FOREIGN_LIBRARY,
            ),
            spec_expr_at(old(self).hir, scope, id) matches Some(Expr::Run(inner, _)) ==> final(self).types.spec_expr_type(scope, inner) == Some(r),
            spec_expr_at(old(self).hir, scope, id) matches Some(Expr::Deref(pointer, _)) ==> final(self).types.spec_expr_type(scope, pointer) is Some && r == spec_expect(
                expected,
                spec_deref(final(self).pool@, final(self).types.spec_expr_type(scope, pointer)->0),
            ),
            spec_expr_at(old(self).hir, scope, id) matches Some(Expr::Binary { op, .. }) ==> (op == BinOp::And || op
                == BinOp::Or ==> r == spec_expect(expected, BOOL)) && (!crate::scope::spec_any_overloads(old(self)) && (op
                == BinOp::Lt || op == BinOp::Le || op == BinOp::Gt || op == BinOp::Ge) ==> r == spec_expect(expected, BOOL)),
            spec_expr_at(old(self).hir, scope, id) matches Some(Expr::Member { name, name_span, span }) ==> match expected {
                None => r == ERROR && pushed(old(self).diags@, final(self).diags@, Code::E0244, span),
                Some(t) => if t == ERROR {
                    r == ERROR && final(self).diags@ == old(self).diags@
                } else {
                    match old(self).pool@[t as int] {
                        Shape::Enum { decl, .. } => if crate::scope::spec_member_known(old(self).pool.members_of(decl), name) {
                            r == t && final(self).diags@ == old(self).diags@
                        } else {
                            r == ERROR && pushed(old(self).diags@, final(self).diags@, Code::E0238, name_span)
                        },
                        _ => r == t && pushed(old(self).diags@, final(self).diags@, Code::E0244, span),
                    }
                },
            },
            spec_expr_at(old(self).hir, scope, id) matches Some(Expr::Index { base, .. }) ==> final(self).types.spec_expr_type(
                scope,
                base,
            ) is Some && r == spec_expect(
                expected,
                spec_index(final(self).pool@, spec_strip(final(self).pool@, final(self).types.spec_expr_type(scope, base)->0)),
            ),
            spec_expr_at(old(self).hir, scope, id) matches Some(Expr::Unary { op, operand, .. }) ==> final(self).types.spec_expr_type(scope, operand) is Some && unary_result(
                final(self).pool@,
                op,
                final(self).types.spec_expr_type(scope, operand)->0,
                expected,
                r,
            ),
        decreases old(self).budget(), id, 5nat,
    {
        let hir = self.hir;
        let ty = match expr_at(hir, scope, id) {
            None => ERROR,
            Some(expr) => {
                proof {
                    lemma_expr_children_below(hir, scope, id);
                }
                match expr {
                    Expr::Literal(literal, span) => self.check_literal(literal, expected, *span),
                    Expr::Name { res, span } => {
                        if self.is_foreign_proc(*res) && !self.in_call_position(scope, id) {
                            self.reject_foreign_value(*span);
                            ERROR
                        } else {
                            let ghost named = *self;
                            let ty = self.type_of_name(*res);
                            let ghost typed = *self;
                            if ty == TYPE && expected != Some(ERROR) && !self.in_type_position(scope, id) {
                                self.reject_type_as_value(*span);
                                ERROR
                            } else {
                                let r = self.expect(expected, ty, *span);
                                proof {
                                    assert(self.sigs == typed.sigs);
                                    assert(self.type_position == typed.type_position);
                                }
                                r
                            }
                        }
                    },
                    Expr::Binary { op, lhs, rhs, span } => self.check_binary(
                        scope,
                        id,
                        *op,
                        *lhs,
                        *rhs,
                        expected,
                        *span,
                    ),
                    Expr::Unary { op, operand, span } => self.check_unary(scope, id, *op, *operand, expected, *span),
                    Expr::Call { callee, args, arg_names, span } => match self.callee_poly(scope, *callee) {
                        Some((proc, sig)) => {
                            let ty = self.check_polymorphic_call(scope, id, *callee, proc, &sig, args, *span);
                            self.expect(expected, ty, *span)
                        },
                        None => {
                            self.mark_call_position(scope, *callee);
                            let callee_ty = self.check_expr(scope, *callee, None);
                            let ty = self.check_call(scope, id, *callee, callee_ty, args, arg_names, *span);
                            self.expect(expected, ty, *span)
                        },
                    },
                    Expr::Field { receiver, name, span } => {
                        let ty = self.check_field(scope, id, *receiver, *name, *span);
                        self.expect(expected, ty, *span)
                    },
                    Expr::Member { name, name_span, span } => self.check_bare_member(*name, *name_span, expected, *span),
                    Expr::Cast { ty, operand, span } => {
                        let target = self.check_cast(scope, id, *ty, *operand, *span);
                        self.expect(expected, target, *span)
                    },
                    Expr::Autocast { operand, span } => self.check_autocast(scope, id, *operand, expected, *span),
                    Expr::Index { base, index, index_span, span } => {
                        let ty = self.check_index(scope, id, *base, *index, *index_span, *span);
                        let r = self.expect(expected, ty, *span);
                        proof {
                            crate::map::lemma_expr_key_injective(scope, *base, scope, id);
                        }
                        r
                    },
                    Expr::Slice { base, span } => {
                        let ty = self.check_slice(scope, id, *base, *span);
                        self.expect(expected, ty, *span)
                    },
                    Expr::Deref(pointer, span) => {
                        let ty = self.check_deref(scope, id, *pointer, *span);
                        self.expect(expected, ty, *span)
                    },
                    Expr::Run(inner, _) => self.check_expr(scope, *inner, expected),
                    Expr::SystemLibrary(name, span) => {
                        match name {
                            Some(text) => {
                                self.intern_type(TypeItem::ForeignLibraryValue(text.clone()));
                            },
                            None => {},
                        }
                        self.expect(expected, FOREIGN_LIBRARY, *span)
                    },
                    Expr::Error(_) => ERROR,
                }
            },
        };
        self.record_expr(scope, id, ty);
        ty
    }

    /// The type a resolved name has as a value.
    pub fn type_of_name(&mut self, res: Res) -> (r: PoolId)
        requires
            old(self).inv(),
        ensures
            final(self).grows_from(old(self)),
            r < final(self).pool@.len(),
            !(res is Item) ==> *final(self) == *old(self),
            old(self).mode == Mode::Check ==> *final(self) == *old(self),
            res !is Item ==> r == spec_name_type(old(self), res),
            old(self).mode == Mode::Signatures ==> (settled_item_name(old(self), res) matches Some(n)
                ==> final(self).sigs.names_view().contains_key(n as u128) && r == final(self).sigs.names_view()[n as u128].ty
                && final(self).finished@[res->Item_0 as int]),
            old(self).mode == Mode::Check ==> r == spec_name_type(old(self), res),
        decreases old(self).budget(), 0nat, 2nat,
    {
        match res {
            Res::Local(local) => match &self.body {
                Some(body) => match self.locals.get(local_key_of(body.id, local)) {
                    Some(ty) => ty,
                    None => ERROR,
                },
                None => ERROR,
            },
            Res::Param(index) => match &self.body {
                Some(body) => {
                    if (index as usize) < body.params.len() {
                        body.params[index as usize]
                    } else {
                        ERROR
                    }
                },
                None => ERROR,
            },
            Res::Item(item) => {
                if (item as usize) < self.hir.items.len() {
                    match self.entry_for_item(item) {
                        Some(entry) => entry.ty,
                        None => ERROR,
                    }
                } else {
                    ERROR
                }
            },
            Res::Imported(import, name) => match self.entry_for_import(import, name) {
                Some(entry) => entry.ty,
                None => ERROR,
            },
            Res::Error => ERROR,
        }
    }

    /// The type a `::` initialiser that names a nominal declaration denotes: what makes
    /// `T :: Point;` an alias. One level only, so a constant naming another alias
    /// denotes nothing.
    pub fn aliased_type(&mut self, scope: ExprScope, expr: ExprId) -> (r: Option<PoolId>)
        requires
            old(self).inv(),
        ensures
            final(self).grows_from(old(self)),
            r matches Some(t) ==> t < final(self).pool@.len(),
            old(self).mode == Mode::Check ==> *final(self) == *old(self) && r == spec_aliased_type(
                spec_name_entry(old(self), scope, expr),
            ),
            old(self).mode == Mode::Signatures ==> (names_settled_item(old(self), scope, expr) matches Some(n) ==> r
                == spec_aliased_type(Some(final(self).sigs.names_view()[n as u128]))),
        decreases old(self).budget(), 0nat, 2nat,
    {
        let hir = self.hir;
        let res = match expr_at(hir, scope, expr) {
            Some(Expr::Name { res, .. }) => *res,
            _ => {
                return None;
            },
        };
        let entry = match res {
            Res::Item(item) => {
                if (item as usize) < hir.items.len() {
                    proof {
                        if self.finished@[item as int] {
                            assert(crate::ctx::finished_recorded(self.hir, self.file, self.pool@, self.sigs, item as int));
                        }
                    }
                    self.entry_for_item(item)
                } else {
                    None
                }
            },
            Res::Imported(import, name) => self.entry_for_import(import, name),
            _ => None,
        };
        match entry {
            Some(e) => match e.kind {
                SigKind::Struct | SigKind::Union | SigKind::Variant | SigKind::Enum => e.type_value,
                SigKind::Const | SigKind::Var | SigKind::Proc | SigKind::Operator => None,
            },
            None => None,
        }
    }

    /// Types a binary operation: an overload first, then the builtin rule for the
    /// operator.
    #[verifier::rlimit(100)]
    #[verifier::spinoff_prover]
    pub fn check_binary(
        &mut self,
        scope: ExprScope,
        id: ExprId,
        op: BinOp,
        lhs: ExprId,
        rhs: ExprId,
        expected: Option<PoolId>,
        span: Span,
    ) -> (r: PoolId)
        requires
            old(self).inv(),
            lhs < id,
            rhs < id,
            expected matches Some(w) ==> w < old(self).pool@.len(),
        ensures
            final(self).grows_from(old(self)),
            r < final(self).pool@.len(),
            agrees(expected, r) || old(self).diags@.len() < final(self).diags@.len(),
            op == BinOp::And || op == BinOp::Or ==> r == spec_expect(expected, BOOL),
            !spec_any_overloads(old(self)) && (op == BinOp::BitAnd || op == BinOp::BitOr || op == BinOp::BitXor) ==> match operands_outcome(
                old(self),
                scope,
                lhs,
                rhs,
                bitwise_want(old(self).pool@, expected),
            ) {
                Some((l, rt)) => r == crate::rules::spec_bitwise(final(self).pool@, l, rt, expected),
                None => true,
            },
            !spec_any_overloads(old(self)) && (op == BinOp::Eq || op == BinOp::Ne) ==> match operands_outcome(
                old(self),
                scope,
                lhs,
                rhs,
                None,
            ) {
                Some((l, rt)) => r == crate::rules::spec_equality(final(self).pool@, l, rt, expected),
                None => true,
            },
            !spec_any_overloads(old(self)) && spec_is_arithmetic(op) ==> match expected {
                Some(t) => spec_int_info(old(self).pool@, t) is Some ==> match operands_outcome(old(self), scope, lhs, rhs, expected) {
                    Some((l, rt)) => r == crate::rules::spec_arithmetic(final(self).pool@, l, rt, expected),
                    None => true,
                },
                None => true,
            },
            !spec_any_overloads(old(self)) && spec_is_arithmetic(op) && !(expected matches Some(t) && spec_int_info(
                old(self).pool@,
                t,
            ) is Some) ==> match (known_operand_type(old(self), scope, lhs, None), known_operand_type(old(self), scope, rhs, None)) {
                (Some(l0), Some(c0)) => if (op == BinOp::Add || op == BinOp::Sub) && spec_pointer_arithmetic(old(self).pool@, op, l0, c0) is Some {
                    r == spec_expect(expected, spec_pointer_arithmetic(old(self).pool@, op, l0, c0)->0)
                } else {
                    match operands_outcome(old(self), scope, lhs, rhs, None) {
                        Some((l, rt)) => r == crate::rules::spec_arithmetic(final(self).pool@, l, rt, expected),
                        None => true,
                    }
                },
                _ => true,
            },
            !spec_any_overloads(old(self)) && (op == BinOp::Shl || op == BinOp::Shr) ==> match (
                known_operand_type(old(self), scope, lhs, shift_want(old(self).pool@, expected)),
                known_operand_type(old(self), scope, rhs, Some(S64)),
            ) {
                (Some(l), Some(c)) => r == crate::rules::spec_shift(final(self).pool@, l, c, expected),
                _ => true,
            },
            !spec_any_overloads(old(self)) && (op == BinOp::Lt || op == BinOp::Le || op == BinOp::Gt || op == BinOp::Ge)
                ==> r == spec_expect(expected, BOOL),
            !spec_any_overloads(old(self)) && (op == BinOp::Eq || op == BinOp::Ne) ==> r == BOOL || r == spec_expect(
                expected,
                BOOL,
            ),
            !spec_any_overloads(old(self)) && spec_is_arithmetic(op) ==> exists|l: PoolId, rt: PoolId|
                #![trigger arithmetic_outcome(old(self), final(self), op, l, rt, expected, span, r)]
                l < final(self).pool@.len() && rt < final(self).pool@.len() && arithmetic_outcome(
                    old(self),
                    final(self),
                    op,
                    l,
                    rt,
                    expected,
                    span,
                    r,
                ),
        decreases old(self).budget(), id, 4nat,
    {
        let ghost start = *self;
        match self.check_operator_overload_call(scope, id, op, lhs, rhs, span) {
            Some(ty) => {
                let ghost mid = *self;
                let r = self.expect(expected, ty, span);
                proof {
                    lemma_grows_trans(&start, &mid, &*self);
                }
                return r;
            },
            None => {},
        }
        let ghost after_overload = *self;
        match op {
            BinOp::Shl | BinOp::Shr => {
                let want = match expected {
                    Some(t) => if self.pool.int_info(t).is_some() {
                        Some(t)
                    } else {
                        None
                    },
                    None => None,
                };
                proof {
                    assert(want == shift_want(after_overload.pool@, expected));
                }
                let value = self.check_expr(scope, lhs, want);
                let ghost mid = *self;
                proof {
                    if !spec_any_overloads(&start) && known_operand_type(&start, scope, lhs, want) is Some {
                        assert(after_overload == start);
                        assert(mid.only_judged(&start));
                        assert(known_operand_type(&mid, scope, rhs, Some(S64)) == known_operand_type(&start, scope, rhs, Some(S64)));
                    }
                }
                let count = self.check_expr(scope, rhs, Some(S64));
                proof {
                    lemma_grows_trans(&start, &after_overload, &mid);
                    lemma_grows_trans(&start, &mid, &*self);
                }
                let ghost mid2 = *self;
                let r = self.decide_shift(op, value, count, expected, span);
                proof {
                    lemma_grows_trans(&start, &mid2, &*self);
                    if !spec_any_overloads(&start) {
                        match (known_operand_type(&start, scope, lhs, want), known_operand_type(&start, scope, rhs, Some(S64))) {
                            (Some(l), Some(c)) => {
                                assert(value == l);
                                assert(count == c);
                                assert(self.pool == mid2.pool);
                                assert(r == crate::rules::spec_shift(self.pool@, l, c, expected));
                                assert(want == shift_want(start.pool@, expected));
                            },
                            _ => {},
                        }
                    }

                }
                r
            },
            BinOp::BitAnd | BinOp::BitOr | BinOp::BitXor => {
                let want = match expected {
                    Some(t) => if self.pool.int_info(t).is_some() || self.pool.is_flags(t) {
                        Some(t)
                    } else {
                        None
                    },
                    None => None,
                };
                let (left, right) = self.check_operands(scope, id, lhs, rhs, want);
                proof {
                    lemma_grows_trans(&start, &after_overload, &*self);
                }
                let ghost mid = *self;
                let r = self.decide_bitwise(op, left, right, expected, span);
                proof {
                    lemma_grows_trans(&start, &mid, &*self);
                }
                r
            },
            BinOp::Add | BinOp::Sub | BinOp::Mul | BinOp::Div | BinOp::Rem | BinOp::WrapAdd | BinOp::WrapSub
            | BinOp::WrapMul => {
                let numeric_context = match expected {
                    Some(t) => self.pool.int_info(t).is_some(),
                    None => false,
                };
                if (op == BinOp::Add || op == BinOp::Sub) && !numeric_context {
                    let ghost before = *self;
                    match self.check_pointer_arithmetic(scope, id, op, lhs, rhs, span) {
                        Some(result) => {
                            proof {
                                lemma_grows_trans(&start, &after_overload, &before);
                                lemma_grows_trans(&start, &before, &*self);
                            }
                            let ghost mid = *self;
                            let ghost rt = self.types.spec_expr_type(scope, rhs)->0;
                            let ghost l = choose|left: PoolId| left < mid.pool@.len() && Some(result) == spec_pointer_arithmetic(
                                mid.pool@,
                                op,
                                left,
                                rt,
                            );
                            let r = self.expect(expected, result, span);
                            proof {
                                lemma_grows_trans(&start, &mid, &*self);
                                assert(rt < self.pool@.len());
                                assert(arithmetic_outcome(&start, &*self, op, l, rt, expected, span, r));
                            }
                            return r;
                        },
                        None => {},
                    }
                    proof {
                        lemma_grows_trans(&start, &after_overload, &before);
                        lemma_grows_trans(&start, &before, &*self);
                    }
                }
                let want = if numeric_context {
                    expected
                } else {
                    None
                };
                let ghost before_operands = *self;
                let (left, right) = self.check_operands(scope, id, lhs, rhs, want);
                proof {
                    lemma_grows_trans(&start, &after_overload, &before_operands);
                    lemma_grows_trans(&start, &before_operands, &*self);
                }
                let ghost mid = *self;
                let r = self.decide_arithmetic(op, left, right, expected, span);
                proof {
                    lemma_grows_trans(&start, &mid, &*self);
                    assert(extends(start.diags@, mid.diags@));
                    assert(arithmetic_outcome(&start, &*self, op, left, right, expected, span, r));
                }
                r
            },
            BinOp::Eq | BinOp::Ne => {
                let (left, right) = self.check_operands(scope, id, lhs, rhs, None);
                proof {
                    lemma_grows_trans(&start, &after_overload, &*self);
                }
                let ghost mid = *self;
                let r = self.decide_equality(op, left, right, expected, span);
                proof {
                    lemma_grows_trans(&start, &mid, &*self);
                }
                r
            },
            BinOp::Lt | BinOp::Le | BinOp::Gt | BinOp::Ge => {
                let (left, right) = self.check_operands(scope, id, lhs, rhs, None);
                proof {
                    lemma_grows_trans(&start, &after_overload, &*self);
                }
                let ghost mid = *self;
                let r = self.decide_ordering(op, left, right, expected, span);
                proof {
                    lemma_grows_trans(&start, &mid, &*self);
                }
                r
            },
            BinOp::And | BinOp::Or => {
                self.check_expr(scope, lhs, Some(BOOL));
                let ghost mid = *self;
                self.check_expr(scope, rhs, Some(BOOL));
                proof {
                    lemma_grows_trans(&start, &after_overload, &mid);
                    lemma_grows_trans(&start, &mid, &*self);
                }
                let ghost mid2 = *self;
                let r = self.expect(expected, BOOL, span);
                proof {
                    lemma_grows_trans(&start, &mid2, &*self);
                }
                r
            },
        }
    }

    /// Types both operands of a binary operation. With no context of its own, whichever
    /// side has a type decides the other's, so `p.* == 9` and `9 == p.*` behave alike.
    pub fn check_operands(&mut self, scope: ExprScope, id: ExprId, lhs: ExprId, rhs: ExprId, want: Option<PoolId>) -> (r: (
        PoolId,
        PoolId,
    ))
        requires
            old(self).inv(),
            lhs < id,
            rhs < id,
            want matches Some(w) ==> w < old(self).pool@.len(),
        ensures
            final(self).grows_from(old(self)),
            r.0 < final(self).pool@.len(),
            r.1 < final(self).pool@.len(),
            operands_outcome(old(self), scope, lhs, rhs, want) matches Some(p) ==> r == p && final(self).only_judged(old(self)),
        decreases old(self).budget(), id, 3nat,
    {
        let ghost start = *self;
        match want {
            Some(ty) => {
                let left = self.check_expr(scope, lhs, Some(ty));
                let ghost mid = *self;
                let right = self.check_expr(scope, rhs, Some(ty));
                proof {
                    lemma_grows_trans(&start, &mid, &*self);
                }
                return (left, right);
            },
            None => {},
        }
        if is_untyped_literal(self.hir, scope, lhs) && !is_untyped_literal(self.hir, scope, rhs) {
            let right = self.check_expr(scope, rhs, None);
            let ghost mid = *self;
            let left = self.check_expr(scope, lhs, Some(right));
            proof {
                lemma_grows_trans(&start, &mid, &*self);
            }
            return (left, right);
        }
        let left = self.check_expr(scope, lhs, None);
        let ghost mid = *self;
        let right = self.check_expr(scope, rhs, Some(left));
        proof {
            lemma_grows_trans(&start, &mid, &*self);
        }
        (left, right)
    }

    /// Resolves a binary operation to an overload, typing its operands with no context,
    /// and gives the overload's return type; `None` leaves the builtin rule to decide.
    pub fn check_operator_overload_call(
        &mut self,
        scope: ExprScope,
        id: ExprId,
        op: BinOp,
        lhs: ExprId,
        rhs: ExprId,
        span: Span,
    ) -> (r: Option<PoolId>)
        requires
            old(self).inv(),
            lhs < id,
            rhs < id,
        ensures
            final(self).grows_from(old(self)),
            r matches Some(t) ==> t < final(self).pool@.len(),
            op == BinOp::And || op == BinOp::Or || !spec_any_overloads(old(self)) ==> r is None && *final(self)
                == *old(self),
        decreases old(self).budget(), id, 3nat,
    {
        if op == BinOp::And || op == BinOp::Or {
            return None;
        }
        if !self.any_operators_in_scope() {
            return None;
        }
        let ghost start = *self;
        let left = self.check_expr(scope, lhs, None);
        let ghost mid = *self;
        let right = self.check_expr(scope, rhs, None);
        proof {
            lemma_grows_trans(&start, &mid, &*self);
        }
        if left == ERROR || right == ERROR {
            return None;
        }
        let ghost mid2 = *self;
        let r = self.find_operator(op, left, right, span);
        proof {
            lemma_grows_trans(&start, &mid2, &*self);
        }
        r
    }

    /// Types `p + n`, `n + p` and `p - n`. `None` when neither operand is a pointer, which
    /// leaves the numeric rule to decide.
    pub fn check_pointer_arithmetic(
        &mut self,
        scope: ExprScope,
        id: ExprId,
        op: BinOp,
        lhs: ExprId,
        rhs: ExprId,
        span: Span,
    ) -> (r: Option<PoolId>)
        requires
            old(self).inv(),
            lhs < id,
            rhs < id,
        ensures
            final(self).grows_from(old(self)),
            r matches Some(t) ==> t < final(self).pool@.len(),
            final(self).types.spec_expr_type(scope, lhs) is Some,
            final(self).types.spec_expr_type(scope, rhs) is Some,
            exists|left: PoolId| left < final(self).pool@.len() && r == #[trigger] spec_pointer_arithmetic(
                final(self).pool@,
                op,
                left,
                final(self).types.spec_expr_type(scope, rhs)->0,
            ),
            r == Some(ERROR) ==> final(self).diags@.len() > old(self).diags@.len(),
            match (known_operand_type(old(self), scope, lhs, None), known_operand_type(old(self), scope, rhs, None)) {
                (Some(l), Some(c)) => r == spec_pointer_arithmetic(old(self).pool@, op, l, c) && final(self).only_judged(old(self)),
                _ => true,
            },
        decreases old(self).budget(), id, 3nat,
    {
        let ghost start = *self;
        let left = self.check_expr(scope, lhs, None);
        let ghost mid = *self;
        let right = self.check_expr(scope, rhs, None);
        proof {
            lemma_grows_trans(&start, &mid, &*self);
        }
        let ghost mid2 = *self;
        proof {
            match (known_operand_type(&start, scope, lhs, None), known_operand_type(&start, scope, rhs, None)) {
                (Some(l), Some(c)) => {
                    assert(mid.only_judged(&start));
                    assert(known_operand_type(&mid, scope, rhs, None) == known_operand_type(&start, scope, rhs, None));
                    assert(left == l && right == c);
                    assert(mid2.pool == start.pool);
                },
                _ => {},
            }
        }
        let r = self.decide_pointer_arithmetic(op, left, right, span);
        proof {
            lemma_grows_trans(&start, &mid2, &*self);
            assert(self.types.spec_expr_type(scope, rhs) == Some(right));
            assert(left < self.pool@.len());
            assert(r == spec_pointer_arithmetic(self.pool@, op, left, self.types.spec_expr_type(scope, rhs)->0));
        }
        r
    }

    /// Types a unary operation.
    pub fn check_unary(
        &mut self,
        scope: ExprScope,
        id: ExprId,
        op: UnOp,
        operand: ExprId,
        expected: Option<PoolId>,
        span: Span,
    ) -> (r: PoolId)
        requires
            old(self).inv(),
            operand < id,
            expected matches Some(w) ==> w < old(self).pool@.len(),
        ensures
            final(self).grows_from(old(self)),
            r < final(self).pool@.len(),
            final(self).types.spec_expr_type(scope, operand) is Some,
            unary_result(final(self).pool@, op, final(self).types.spec_expr_type(scope, operand)->0, expected, r),
        decreases old(self).budget(), id, 4nat,
    {
        let ghost start = *self;
        match op {
            UnOp::BitNot => {
                let want = match expected {
                    Some(t) => if self.pool.int_info(t).is_some() || self.pool.is_flags(t) {
                        Some(t)
                    } else {
                        None
                    },
                    None => None,
                };
                let ty = self.check_expr(scope, operand, want);
                if ty != ERROR && self.pool.int_info(ty).is_none() && !self.pool.is_flags(ty) {
                    let text = self.describe(ty);
                    let message = concat3("operator `~` is not supported for `", text.as_str(), "`");
                    let mut notes: Vec<String> = Vec::new();
                    notes.push("`~` is a bitwise complement and applies to integers".to_owned());
                    let help = if ty == BOOL {
                        Some("use `!` to negate a `bool`".to_owned())
                    } else {
                        None
                    };
                    self.report_full(Code::E0223, span, message, notes, help);
                    return ERROR;
                }
                self.expect(expected, ty, span)
            },
            UnOp::Neg => {
                let want = match expected {
                    Some(t) => if self.pool.int_info(t).is_some() {
                        Some(t)
                    } else {
                        None
                    },
                    None => None,
                };
                let ty = self.check_expr(scope, operand, want);
                if ty != ERROR && self.pool.int_info(ty).is_none() {
                    let text = self.describe(ty);
                    let message = concat3("operator `-` is not supported for `", text.as_str(), "`");
                    self.report(Code::E0223, span, message);
                    return ERROR;
                }
                self.expect(expected, ty, span)
            },
            UnOp::Not => {
                self.check_expr(scope, operand, Some(BOOL));
                self.expect(expected, BOOL, span)
            },
            UnOp::AddrOf => {
                if !self.is_place(scope, operand) {
                    let mut notes: Vec<String> = Vec::new();
                    notes.push("only variables, fields, and dereferences have an address".to_owned());
                    self.report_full(
                        Code::E0221,
                        span,
                        "cannot take the address of this expression".to_owned(),
                        notes,
                        None,
                    );
                }
                let ghost mid = *self;
                let want = match expected {
                    Some(t) => self.pool.pointee(t),
                    None => None,
                };
                proof {
                    if expected is Some {
                        assert(refers_below(self.pool@[expected->0 as int], expected->0 as int));
                    }
                }
                let ty = self.check_expr(scope, operand, want);
                proof {
                    lemma_grows_trans(&start, &mid, &*self);
                }
                if ty == ERROR {
                    return ERROR;
                }
                let ghost mid2 = *self;
                let pointer = self.pointer_type(ty);
                proof {
                    lemma_grows_trans(&start, &mid2, &*self);
                }
                self.expect(expected, pointer, span)
            },
        }
    }

    /// Whether an expression denotes a location rather than only a value. A field of a
    /// pointer is always a place, so this reads the receiver's recorded type.
    pub fn is_place(&mut self, scope: ExprScope, id: ExprId) -> (r: bool)
        requires
            old(self).inv(),
        ensures
            final(self).grows_from(old(self)),
            old(self).mode == Mode::Check ==> *final(self) == *old(self) && r == spec_is_place(old(self), scope, id),
        decreases old(self).budget(), id, 3nat,
    {
        let hir = self.hir;
        match expr_at(hir, scope, id) {
            None => true,
            Some(expr) => {
                proof {
                    lemma_expr_children_below(hir, scope, id);
                }
                match expr {
                    Expr::Name { res, .. } => match res {
                        Res::Local(_) | Res::Param(_) => true,
                        Res::Item(item) => {
                            if (*item as usize) < hir.items.len() {
                                match self.entry_for_item(*item) {
                                    Some(entry) => entry.is_assignable(),
                                    None => false,
                                }
                            } else {
                                false
                            }
                        },
                        Res::Imported(import, name) => match self.entry_for_import(*import, *name) {
                            Some(entry) => entry.is_assignable(),
                            None => false,
                        },
                        Res::Error => true,
                    },
                    Expr::Field { receiver, .. } => {
                        let recorded = self.types.expr_type(scope, *receiver);
                        match recorded {
                            Some(ty) => {
                                if ty == TYPE {
                                    return false;
                                }
                                if self.pool.pointee(ty).is_some() {
                                    return true;
                                }
                            },
                            None => {},
                        }
                        self.is_place(scope, *receiver)
                    },
                    Expr::Index { base, .. } => self.is_place(scope, *base),
                    Expr::Deref(..) => true,
                    Expr::Error(_) => true,
                    Expr::Literal(..) | Expr::Binary { .. } | Expr::Unary { .. } | Expr::Call { .. } | Expr::Run(..)
                    | Expr::SystemLibrary(..) | Expr::Member { .. } | Expr::Cast { .. } | Expr::Autocast { .. }
                    | Expr::Slice { .. } => false,
                }
            },
        }
    }

    /// Types `base[index]`: pointers on the base are followed, the index is typed as an
    /// `s64` where it is a literal, and the rules are `decide_index`'s, decided from the
    /// types the base and the index were recorded with.
    pub fn check_index(&mut self, scope: ExprScope, id: ExprId, base: ExprId, index: ExprId, index_span: Span, span: Span) -> (r:
        PoolId)
        requires
            old(self).inv(),
            base < id,
            index < id,
        ensures
            final(self).grows_from(old(self)),
            r < final(self).pool@.len(),
            final(self).types.spec_expr_type(scope, base) is Some,
            final(self).types.spec_expr_type(scope, index) is Some,
            r == spec_index(final(self).pool@, spec_strip(final(self).pool@, final(self).types.spec_expr_type(scope, base)->0)),
        decreases old(self).budget(), id, 4nat,
    {
        let ghost start = *self;
        self.check_expr(scope, base, None);
        let ghost mid = *self;
        let index_ty = self.check_expr(scope, index, Some(S64));
        proof {
            lemma_grows_trans(&start, &mid, &*self);
        }
        let recorded = match self.types.expr_type(scope, base) {
            Some(t) => t,
            None => ERROR,
        };
        let base_ty = self.strip_pointers(recorded);
        let hir = self.hir;
        let literal = match expr_at(hir, scope, index) {
            Some(Expr::Literal(Literal::Int(v), _)) => Some(*v),
            _ => None,
        };
        let ghost before = *self;
        let r = self.decide_index(base_ty, index_ty, literal, index_span, span);
        proof {
            lemma_grows_trans(&start, &before, &*self);
        }
        r
    }

    /// Types `base[]`: pointers on the base are followed, and the rules are
    /// `decide_slice`'s, decided from the type the base was recorded with and from
    /// whether it names storage.
    pub fn check_slice(&mut self, scope: ExprScope, id: ExprId, base: ExprId, span: Span) -> (r: PoolId)
        requires
            old(self).inv(),
            base < id,
        ensures
            final(self).grows_from(old(self)),
            r < final(self).pool@.len(),
            final(self).types.spec_expr_type(scope, base) is Some,
            old(self).mode == Mode::Check ==> match spec_slice(
                final(self).pool@,
                spec_strip(final(self).pool@, final(self).types.spec_expr_type(scope, base)->0),
            ) {
                Some(view) => final(self).pool@[r as int] == view,
                None => r == ERROR,
            },
        decreases old(self).budget(), id, 4nat,
    {
        let ghost start = *self;
        self.check_expr(scope, base, None);
        let recorded = match self.types.expr_type(scope, base) {
            Some(t) => t,
            None => ERROR,
        };
        let base_ty = self.strip_pointers(recorded);
        let is_array = match self.pool.item(base_ty) {
            TypeItem::ArrayType { .. } => true,
            _ => false,
        };
        let ghost mid = *self;
        let place = if is_array {
            self.is_place(scope, base)
        } else {
            true
        };
        proof {
            lemma_grows_trans(&start, &mid, &*self);
        }
        let ghost before = *self;
        let r = self.decide_slice(base_ty, place, span);
        proof {
            lemma_grows_trans(&start, &before, &*self);
            if start.mode == Mode::Check {
                lemma_strip_stable(before.pool@, self.pool@, recorded);
                assert(self.types == before.types);
                assert(self.pool@[base_ty as int] == before.pool@[base_ty as int]);
            }
        }
        r
    }

    /// Types `cast(T, operand)`: the cast has type `T`. A literal operand is typed
    /// against `T`, which is where its range check comes from; any other operand must be
    /// an integer or an enum, and `T` an integer (E0232) — an enum converts to a number
    /// but a number never to an enum, which could name no member at all.
    pub fn check_cast(&mut self, scope: ExprScope, id: ExprId, ty: TypeRefId, operand: ExprId, span: Span) -> (r: PoolId)
        requires
            old(self).inv(),
            operand < id,
        ensures
            final(self).grows_from(old(self)),
            r < final(self).pool@.len(),
            final(self).types.spec_expr_type(scope, operand) is Some,
            match spec_type_ref_at(old(self).hir, scope, ty) {
                Some(TypeRef::Name(sym, _)) => old(self).spec_bound(sym) is None ==> (spec_builtin_type(
                    spec_text(old(self).interner@, sym),
                ) matches Some(shape) ==> final(self).pool@[r as int] == shape),
                None => r == ERROR,
                Some(TypeRef::Error) => r == ERROR,
                _ => true,
            },
            ({
                let from = final(self).types.spec_expr_type(scope, operand)->0;
                r != ERROR && !spec_untyped_literal(old(self).hir, scope, operand) && from != ERROR && !conversion_allowed(
                    final(self).pool@,
                    from,
                    r,
                ) ==> final(self).diags@.len() > 0 && final(self).diags@.last().code == Code::E0232
                    && final(self).diags@.last().span == span
            }),
        poisoned_ref(old(self), scope, ty) ==> r == ERROR,
            r != ERROR && spec_untyped_literal(old(self).hir, scope, operand) ==> (spec_expr_at(old(self).hir, scope, operand) matches Some(
                e,
            ) ==> (literal_against(final(self).pool@, e, r) matches Some((code, sp)) ==> reported(
                old(self).diags@,
                final(self).diags@,
                code,
                sp,
            ))),
        decreases old(self).budget(), id, 4nat,
    {
        let ghost start = *self;
        let target = self.resolve_type(scope, ty, span);
        let ghost resolved = *self;
        if target == ERROR {
            self.check_expr(scope, operand, None);
            proof {
                lemma_grows_trans(&start, &resolved, &*self);
            }
            return ERROR;
        }
        let hir = self.hir;
        if is_untyped_literal(hir, scope, operand) {
            self.check_expr(scope, operand, Some(target));
            proof {
                lemma_grows_trans(&start, &resolved, &*self);
                assert(crate::pool::well_known_prefix(resolved.pool@));
                match spec_expr_at(hir, scope, operand) {
                    Some(e) => {
                        assert(self.pool@[target as int] == resolved.pool@[target as int]);
                        assert(literal_against(self.pool@, e, target) == literal_against(resolved.pool@, e, target));
                        match literal_against(resolved.pool@, e, target) {
                            Some((code, sp)) => {
                                crate::ctx::lemma_reported_kept(start.diags@, resolved.diags@, self.diags@, code, sp);
                            },
                            None => {},
                        }
                    },
                    None => {},
                }
            }
            return target;
        }
        let from = self.check_expr(scope, operand, None);
        proof {
            lemma_grows_trans(&start, &resolved, &*self);
        }
        if from == ERROR {
            return target;
        }
        if !self.conversion_allowed(from, target) {
            let from_text = self.describe(from);
            let to_text = self.describe(target);
            let message = concat5("cannot cast `", from_text.as_str(), "` to `", to_text.as_str(), "`");
            let note = "`cast` converts between numeric types — integers and floats — and from an enum to one".to_owned();
            let ghost before = *self;
            self.report_with_note(Code::E0232, span, message, note);
            proof {
                lemma_grows_trans(&start, &before, &*self);
            }
        }
        target
    }

    /// Types `xx operand`: a cast to the type the context expects, legal exactly where
    /// `cast` is (E0232). With no context there is no target (E0242), and a literal
    /// operand already takes its context's type, so `xx` on one does nothing (E0243).
    pub fn check_autocast(&mut self, scope: ExprScope, id: ExprId, operand: ExprId, expected: Option<PoolId>, span: Span) -> (r:
        PoolId)
        requires
            old(self).inv(),
            operand < id,
            expected matches Some(w) ==> w < old(self).pool@.len(),
        ensures
            final(self).grows_from(old(self)),
            r < final(self).pool@.len(),
            r == match expected {
                Some(t) => t,
                None => ERROR,
            },
            final(self).types.spec_expr_type(scope, operand) is Some,
            expected is None ==> final(self).diags@.len() > 0 && final(self).diags@.last().code == Code::E0242
                && final(self).diags@.last().span == span,
            expected matches Some(t) && t != ERROR && spec_untyped_literal(old(self).hir, scope, operand)
                ==> old(self).diags@.len() < final(self).diags@.len() && final(self).diags@[old(self).diags@.len() as int].code
                == Code::E0243 && final(self).diags@[old(self).diags@.len() as int].span == span,
            ({
                let from = final(self).types.spec_expr_type(scope, operand)->0;
                expected matches Some(t) && t != ERROR && !spec_untyped_literal(old(self).hir, scope, operand) && from != ERROR
                    && !conversion_allowed(final(self).pool@, from, t) ==> final(self).diags@.len() > 0
                    && final(self).diags@.last().code == Code::E0232 && final(self).diags@.last().span == span
            }),
        decreases old(self).budget(), id, 4nat,
    {
        let ghost start = *self;
        let target = match expected {
            None => {
                self.check_expr(scope, operand, None);
                let message = "the target type of `xx` cannot be inferred here".to_owned();
                let mut notes: Vec<String> = Vec::new();
                notes.push(
                    "`xx` takes its target type from the context — an annotation, a parameter, or the other side of a comparison".to_owned(),
                );
                let help = Some("write the conversion explicitly, e.g. `cast(u8, x)`".to_owned());
                let ghost checked = *self;
                self.report_full(Code::E0242, span, message, notes, help);
                proof {
                    lemma_grows_trans(&start, &checked, &*self);
                }
                return ERROR;
            },
            Some(t) => t,
        };
        if target == ERROR {
            self.check_expr(scope, operand, None);
            return ERROR;
        }
        let hir = self.hir;
        if is_untyped_literal(hir, scope, operand) {
            let text = self.describe(target);
            let message = "`xx` on a literal has no effect".to_owned();
            let mut notes: Vec<String> = Vec::new();
            notes.push(concat3("a literal already takes its type from the context, which here is `", text.as_str(), "`"));
            let help = Some("remove the `xx`".to_owned());
            self.report_full(Code::E0243, span, message, notes, help);
            let ghost reported = *self;
            self.check_expr(scope, operand, Some(target));
            proof {
                lemma_grows_trans(&start, &reported, &*self);
                assert(self.diags@[start.diags@.len() as int] == reported.diags@[start.diags@.len() as int]);
            }
            return target;
        }
        let from = self.check_expr(scope, operand, None);
        if from == ERROR {
            return target;
        }
        if !self.conversion_allowed(from, target) {
            let from_text = self.describe(from);
            let to_text = self.describe(target);
            let message = concat5("cannot convert `", from_text.as_str(), "` to `", to_text.as_str(), "` with `xx`");
            let note = "`xx` converts between numeric types — integers and floats — and from an enum to one, exactly as `cast` does".to_owned();
            let ghost before = *self;
            self.report_with_note(Code::E0232, span, message, note);
            proof {
                lemma_grows_trans(&start, &before, &*self);
            }
        }
        target
    }

    /// Types a call whose callee `callee_expr` has type `callee`: it must be a procedure
    /// (E0215). A call that names an argument, or whose callee has a default, is first
    /// resolved into one slot per parameter, and is poisoned when that fails (E0252); any
    /// other call takes as many arguments as are supplied (E0216). Each argument is
    /// checked against its parameter, and the call has the procedure's return type.
    pub fn check_call(
        &mut self,
        scope: ExprScope,
        id: ExprId,
        callee_expr: ExprId,
        callee: PoolId,
        args: &'a Vec<ExprId>,
        arg_names: &'a Vec<Option<Symbol>>,
        span: Span,
    ) -> (r: PoolId)
        requires
            old(self).inv(),
            callee < old(self).pool@.len(),
            forall|k: int| 0 <= k < args@.len() ==> args@[k] < id,
        ensures
            final(self).grows_from(old(self)),
            r < final(self).pool@.len(),
            r == spec_slotted_call(old(self), scope, callee_expr, callee, args@, arg_names@),
            !spec_slotted(old(self), scope, callee_expr, callee, arg_names@) ==> (call_codes(
                old(self).pool@,
                callee,
                args@.len(),
            ) matches Some(code) ==> old(self).diags@.len() < final(self).diags@.len()
                && final(self).diags@[old(self).diags@.len() as int].code == code
                && final(self).diags@[old(self).diags@.len() as int].span == span),
            spec_slotted(old(self), scope, callee_expr, callee, arg_names@) && spec_callee_sig(old(self), scope, callee_expr)
                is Some && spec_call_slots(old(self), scope, callee_expr, args@, arg_names@) is None
                ==> old(self).diags@.len() < final(self).diags@.len()
                && final(self).diags@[old(self).diags@.len() as int].code == Code::E0252
                && final(self).diags@[old(self).diags@.len() as int].span == span,
            spec_slotted(old(self), scope, callee_expr, callee, arg_names@) ==> (spec_call_slots(
                old(self),
                scope,
                callee_expr,
                args@,
                arg_names@,
            ) matches Some(slots) ==> final(self).filled_calls.view().contains_key(expr_key(scope, id))
                && final(self).filled_calls.view()[expr_key(scope, id)]@ == slots),
            !spec_slotted(old(self), scope, callee_expr, callee, arg_names@) || spec_call_slots(
                old(self),
                scope,
                callee_expr,
                args@,
                arg_names@,
            ) is None ==> forall|k: int| 0 <= k < args@.len() ==> final(self).types.spec_expr_type(scope, #[trigger] args@[k])
                is Some,
            !spec_slotted(old(self), scope, callee_expr, callee, arg_names@) && old(self).pool@[callee as int] is Proc
                ==> forall|k: int|
                0 <= k < args@.len() && k < old(self).pool@[callee as int]->Proc_params.len() ==> (spec_expr_at(
                    old(self).hir,
                    scope,
                    #[trigger] args@[k],
                ) matches Some(e) ==> (literal_against(
                    old(self).pool@,
                    e,
                    old(self).pool@[callee as int]->Proc_params[k],
                ) matches Some((code, sp)) ==> crate::check::diag_present(final(self).diags@, code, sp))),
            !spec_slotted(old(self), scope, callee_expr, callee, arg_names@) && old(self).pool@[callee as int] is Proc
                ==> (literal_args_diags(
                old(self).hir,
                old(self).pool@,
                scope,
                args@,
                old(self).pool@[callee as int]->Proc_params,
                args@.len(),
            ) matches Some(d) ==> crate::check::emitted(
                old(self).diags@,
                final(self).diags@,
                arity_codes(old(self).pool@[callee as int]->Proc_params.len(), args@.len(), span) + d,
            )),
            !(old(self).pool@[callee as int] is Proc) ==> (literal_args_diags(
                old(self).hir,
                old(self).pool@,
                scope,
                args@,
                Seq::empty(),
                args@.len(),
            ) matches Some(d) ==> crate::check::emitted(
                old(self).diags@,
                final(self).diags@,
                (if callee != ERROR {
                    seq![(Code::E0215, span)]
                } else {
                    Seq::empty()
                }) + d,
            )),
        decreases old(self).budget(), id, 4nat,
    {
        let ghost start = *self;
        let signature = match self.pool.item(callee) {
            TypeItem::ProcType { params, ret, .. } => Some((copy_ids(params), *ret)),
            _ => None,
        };
        proof {
            assert(refers_below(self.pool@[callee as int], callee as int));
            let shape = self.pool@[callee as int];
            assert(signature matches Some((ps, rt)) ==> shape is Proc && ps@ == shape->params && rt == shape->ret);
            assert(shape is Proc ==> forall|k: int| 0 <= k < shape->params.len() ==> shape->params[k] < callee);
        }
        let (params, ret) = match signature {
            None => {
                if callee != ERROR {
                    let text = self.describe(callee);
                    let message = concat3("expected a procedure, found `", text.as_str(), "`");
                    self.report(Code::E0215, span, message);
                }
                let ghost reported = *self;
                self.check_unplaced(scope, id, args);
                proof {
                    lemma_grows_trans(&start, &reported, &*self);
                    match literal_args_diags(start.hir, start.pool@, scope, args@, Seq::empty(), args@.len()) {
                        Some(d) => {
                            assert(crate::pool::well_known_prefix(start.pool@));
                            lemma_literal_args_stable(start.hir, start.pool@, reported.pool@, scope, args@, Seq::empty(), args@.len());
                            let c: Seq<(Code, Span)> = if callee != ERROR {
                                seq![(Code::E0215, span)]
                            } else {
                                Seq::empty()
                            };
                            assert(crate::check::emitted(start.diags@, reported.diags@, c));
                            crate::check::lemma_emitted_trans(start.diags@, reported.diags@, self.diags@, c, d);
                        },
                        None => {},
                    }
                    if reported.diags@.len() > start.diags@.len() {
                        assert(self.diags@[start.diags@.len() as int] == reported.diags@[start.diags@.len() as int]);
                    }
                }
                return ERROR;
            },
            Some(sig) => sig,
        };
        let named = has_named(arg_names);
        let target = self.callee_sig(scope, callee_expr);
        let defaulted = match &target {
            Some(sig) => has_default(&sig.defaults),
            None => false,
        };
        if named || defaulted {
            let filled = match &target {
                Some(sig) => self.fill_arguments(sig, args, arg_names, span),
                None => None,
            };
            match filled {
                Some(slots) => {
                    proof {
                        let sig = target->0;
                        lemma_fill_below(arg_names@, args@, sig.names@, sig.defaults@, id as int);
                    }
                    let ghost first = *self;
                    let mut i: usize = 0;
                    while i < slots.len()
                        invariant
                            self.grows_from(&first),
                            first.inv(),
                            first.budget() == old(self).budget(),
                            i <= slots@.len(),
                            forall|p: int| 0 <= p < slots@.len() ==> (#[trigger] slots@[p] matches ArgSlot::Given(e) ==> e < id),
                            forall|k: int| 0 <= k < params@.len() ==> params@[k] < self.pool@.len(),
                            ret < self.pool@.len(),
                        decreases slots@.len() - i,
                    {
                        match slots[i] {
                            ArgSlot::Given(arg) => {
                                let want = if i < params.len() {
                                    Some(params[i])
                                } else {
                                    None
                                };
                                let ghost prev = *self;
                                self.check_expr(scope, arg, want);
                                proof {
                                    lemma_grows_trans(&first, &prev, &*self);
                                }
                            },
                            ArgSlot::Default(_) => {},
                        }
                        i = i + 1;
                    }
                    let ghost checked = *self;
                    self.filled_calls.insert(expr_key_of(scope, id), slots);
                    proof {
                        assert(self.grows_from(&checked));
                        lemma_grows_trans(&first, &checked, &*self);
                        lemma_grows_trans(&start, &first, &*self);
                    }
                    return ret;
                },
                None => {
                    let ghost failed = *self;
                    self.check_unplaced(scope, id, args);
                    proof {
                        lemma_grows_trans(&start, &failed, &*self);
                        if failed.diags@.len() > start.diags@.len() {
                            assert(self.diags@[start.diags@.len() as int] == failed.diags@[start.diags@.len() as int]);
                        }
                    }
                    return ERROR;
                },
            }
        }
        self.check_arity(params.len(), args.len(), span);
        let ghost first = *self;
        let ghost plain = literal_args_diags(start.hir, start.pool@, scope, args@, params@, args@.len()) is Some;
        proof {
            assert(crate::pool::well_known_prefix(start.pool@));
            assert(crate::check::emitted(start.diags@, first.diags@, arity_codes(params@.len(), args@.len(), span)));
        }
        let mut i: usize = 0;
        while i < args.len()
            invariant
                plain == (literal_args_diags(start.hir, start.pool@, scope, args@, params@, args@.len()) is Some),
                crate::pool::well_known_prefix(start.pool@),
                plain ==> literal_args_diags(start.hir, start.pool@, scope, args@, params@, i as nat) is Some
                    && crate::check::emitted(
                    first.diags@,
                    self.diags@,
                    literal_args_diags(start.hir, start.pool@, scope, args@, params@, i as nat)->0,
                ),
                self.grows_from(&first),
                first.inv(),
                first.budget() == old(self).budget(),
                i <= args@.len(),
                forall|k: int| 0 <= k < args@.len() ==> args@[k] < id,
                forall|k: int| 0 <= k < params@.len() ==> params@[k] < self.pool@.len(),
                ret < self.pool@.len(),
                forall|k: int| 0 <= k < i ==> self.types.spec_expr_type(scope, #[trigger] args@[k]) is Some,
                pool_extends(start.pool@, self.pool@),
                self.hir == start.hir,
                forall|k: int| 0 <= k < i && k < params@.len() ==> (spec_expr_at(start.hir, scope, #[trigger] args@[k]) matches Some(e)
                    ==> (literal_against(start.pool@, e, params@[k]) matches Some((code, sp))
                    ==> crate::check::diag_present(self.diags@, code, sp))),
                forall|k: int| 0 <= k < params@.len() ==> params@[k] < start.pool@.len(),
            decreases args@.len() - i,
        {
            let want = if i < params.len() {
                Some(params[i])
            } else {
                None
            };
            let ghost prev = *self;
            proof {
                if plain {
                    lemma_literal_args_prefix(start.hir, start.pool@, scope, args@, params@, args@.len(), (i + 1) as nat);
                }
            }
            self.check_expr(scope, args[i], want);
            proof {
                if plain {
                    lemma_literal_step(start.hir, start.pool@, prev.pool@, scope, args@, params@, i as nat);
                    let a = literal_args_diags(start.hir, start.pool@, scope, args@, params@, i as nat)->0;
                    let step = literal_step(start.hir, start.pool@, scope, args@, params@, i as nat);
                    assert(crate::check::emitted(prev.diags@, self.diags@, literal_step(start.hir, prev.pool@, scope, args@, params@, i as nat)));
                    crate::check::lemma_emitted_trans(first.diags@, prev.diags@, self.diags@, a, step);
                }
                lemma_grows_trans(&first, &prev, &*self);
                assert forall|k: int| 0 <= k < i + 1 && k < params@.len() implies (spec_expr_at(start.hir, scope, #[trigger] args@[k])
                    matches Some(e) ==> (literal_against(start.pool@, e, params@[k]) matches Some((code, sp))
                    ==> crate::check::diag_present(self.diags@, code, sp))) by {
                    match spec_expr_at(start.hir, scope, args@[k]) {
                        Some(e) => match literal_against(start.pool@, e, params@[k]) {
                            Some((code, sp)) => {
                                if k < i {
                                    crate::check::lemma_present_kept(prev.diags@, self.diags@, code, sp);
                                } else {
                                    assert(literal_against(prev.pool@, e, params@[k]) == literal_against(start.pool@, e, params@[k]));
                                    assert(reported(prev.diags@, self.diags@, code, sp));
                                    let j = choose|j: int| prev.diags@.len() <= j < self.diags@.len() && (#[trigger] self.diags@[j]).code == code
                                        && self.diags@[j].span == sp;
                                    assert(self.diags@[j].code == code);
                                }
                            },
                            None => {},
                        },
                        None => {},
                    }
                }
                assert forall|k: int| 0 <= k < i + 1 implies self.types.spec_expr_type(scope, #[trigger] args@[k]) is Some by {
                    if k < i {
                        assert(prev.types.expr_entries().contains_key(expr_key(scope, args@[k])));
                    }
                }
            }
            i = i + 1;
        }
        proof {
            lemma_grows_trans(&start, &first, &*self);
            if first.diags@.len() > start.diags@.len() {
                assert(self.diags@[start.diags@.len() as int] == first.diags@[start.diags@.len() as int]);
            }
            if plain {
                assert(args@.len() as nat == i as nat);
                crate::check::lemma_emitted_trans(
                    start.diags@,
                    first.diags@,
                    self.diags@,
                    arity_codes(params@.len(), args@.len(), span),
                    literal_args_diags(start.hir, start.pool@, scope, args@, params@, args@.len())->0,
                );
            }
        }
        ret
    }

    /// Types each argument of a call that could not be placed, against no expected type,
    /// so that a mistake inside an argument is still found.
    pub fn check_unplaced(&mut self, scope: ExprScope, id: ExprId, args: &'a Vec<ExprId>)
        requires
            old(self).inv(),
            forall|k: int| 0 <= k < args@.len() ==> args@[k] < id,
        ensures
            final(self).grows_from(old(self)),
            forall|k: int| 0 <= k < args@.len() ==> final(self).types.spec_expr_type(scope, #[trigger] args@[k]) is Some,
            literal_args_diags(old(self).hir, old(self).pool@, scope, args@, Seq::empty(), args@.len()) matches Some(d)
                ==> crate::check::emitted(old(self).diags@, final(self).diags@, d),
        decreases old(self).budget(), id, 3nat,
    {
        let ghost first = *self;
        let ghost plain = literal_args_diags(first.hir, first.pool@, scope, args@, Seq::empty(), args@.len()) is Some;
        let mut i: usize = 0;
        while i < args.len()
            invariant
                self.grows_from(&first),
                first.inv(),
                first.budget() == old(self).budget(),
                i <= args@.len(),
                forall|k: int| 0 <= k < args@.len() ==> args@[k] < id,
                forall|k: int| 0 <= k < i ==> self.types.spec_expr_type(scope, #[trigger] args@[k]) is Some,
                plain == (literal_args_diags(first.hir, first.pool@, scope, args@, Seq::empty(), args@.len()) is Some),
                plain ==> literal_args_diags(first.hir, first.pool@, scope, args@, Seq::empty(), i as nat) is Some
                    && crate::check::emitted(
                    first.diags@,
                    self.diags@,
                    literal_args_diags(first.hir, first.pool@, scope, args@, Seq::empty(), i as nat)->0,
                ),
            decreases args@.len() - i,
        {
            let ghost prev = *self;
            proof {
                if plain {
                    lemma_literal_args_prefix(first.hir, first.pool@, scope, args@, Seq::empty(), args@.len(), (i + 1) as nat);
                }
            }
            self.check_expr(scope, args[i], None);
            proof {
                if plain {
                    assert(crate::pool::well_known_prefix(first.pool@));
                    lemma_literal_step(first.hir, first.pool@, prev.pool@, scope, args@, Seq::empty(), i as nat);
                    let a = literal_args_diags(first.hir, first.pool@, scope, args@, Seq::empty(), i as nat)->0;
                    let step = literal_step(first.hir, first.pool@, scope, args@, Seq::empty(), i as nat);
                    assert(crate::check::emitted(prev.diags@, self.diags@, literal_step(first.hir, prev.pool@, scope, args@, Seq::empty(), i as nat)));
                    crate::check::lemma_emitted_trans(first.diags@, prev.diags@, self.diags@, a, step);
                }
                lemma_grows_trans(&first, &prev, &*self);
                assert forall|k: int| 0 <= k < i + 1 implies self.types.spec_expr_type(scope, #[trigger] args@[k]) is Some by {
                    if k < i {
                        assert(prev.types.expr_entries().contains_key(expr_key(scope, args@[k])));
                    }
                }
            }
            i = i + 1;
        }
    }

    /// Types `receiver.name`: pointers are followed, a `string` has `data` and `count`,
    /// and a struct has its fields; anything else has none (E0218).
    pub fn check_field(&mut self, scope: ExprScope, id: ExprId, receiver: ExprId, name: Symbol, span: Span) -> (r: PoolId)
        requires
            old(self).inv(),
            receiver < id,
        ensures
            final(self).grows_from(old(self)),
            r < final(self).pool@.len(),
            final(self).types.spec_expr_type(scope, receiver) is Some,
            ({
                let base = spec_strip(final(self).pool@, final(self).types.spec_expr_type(scope, receiver)->0);
                r == ERROR || final(self).pool@[r as int] is Enum || r == spec_member(
                    final(self).pool,
                    base,
                    spec_text(old(self).interner@, name),
                )
            }),
            old(self).mode == Mode::Check ==> ({
                let base = spec_strip(final(self).pool@, final(self).types.spec_expr_type(scope, receiver)->0);
                if final(self).pool@[base as int] is Type {
                    r == ERROR || final(self).pool@[r as int] is Enum
                } else {
                    r == spec_member(final(self).pool, base, spec_text(old(self).interner@, name))
                }
            }),
            old(self).mode == Mode::Check ==> ({
                let base = spec_strip(final(self).pool@, final(self).types.spec_expr_type(scope, receiver)->0);
                base != ERROR && !(final(self).pool@[base as int] is Type) && spec_member_lookup(
                    final(self).pool,
                    base,
                    spec_text(old(self).interner@, name),
                ) is None ==> final(self).diags@.len() > old(self).diags@.len() && final(self).diags@.last().span
                    == span && final(self).diags@.last().code == Code::E0218
            }),
            old(self).mode == Mode::Check ==> ({
                let base = spec_strip(final(self).pool@, final(self).types.spec_expr_type(scope, receiver)->0);
                final(self).pool@[base as int] is Type ==> match spec_denoted_enum(
                    final(self).pool@,
                    spec_name_entry(old(self), scope, receiver),
                ) {
                    Some((decl, flags)) => if crate::scope::spec_member_known(old(self).pool.members_of(decl), name) {
                        final(self).pool@[r as int] == (Shape::Enum { decl, flags })
                    } else {
                        r == ERROR && final(self).diags@.len() > old(self).diags@.len() && final(self).diags@.last().code
                            == Code::E0238 && final(self).diags@.last().span == span
                    },
                    None => r == ERROR && final(self).diags@.len() > old(self).diags@.len() && final(self).diags@.last().code
                        == Code::E0218 && final(self).diags@.last().span == span,
                }
            }),
            old(self).mode == Mode::Check && r == ERROR ==> ({
                let base = spec_strip(final(self).pool@, final(self).types.spec_expr_type(scope, receiver)->0);
                final(self).pool@[base as int] is Type ==> final(self).diags@.len() > old(self).diags@.len()
                    && final(self).diags@.last().span == span && (final(self).diags@.last().code == Code::E0218
                    || final(self).diags@.last().code == Code::E0238)
            }),
        decreases old(self).budget(), id, 4nat,
    {
        let ghost start = *self;
        self.mark_type_position(scope, receiver);
        let ghost mid = *self;
        let mut ty = self.check_expr(scope, receiver, None);
        proof {
            lemma_grows_trans(&start, &mid, &*self);
        }
        let ghost recorded = ty;
        loop
            invariant
                self.inv(),
                ty < self.pool@.len(),
                spec_strip(self.pool@, ty) == spec_strip(self.pool@, recorded),
            ensures
                spec_pointee(self.pool@, ty) is None,
            decreases ty,
        {
            match self.pool.pointee(ty) {
                Some(inner) => {
                    proof {
                        assert(refers_below(self.pool@[ty as int], ty as int));
                    }
                    ty = inner;
                },
                None => {
                    break;
                },
            }
        }
        proof {
            assert(spec_strip(self.pool@, ty) == ty);
        }
        if ty == ERROR {
            return ERROR;
        }
        let ghost at_lookup = *self;
        let field = self.interner.text(name);
        proof {
            if name < self.interner@.len() {
                assert(self.interner@[name as int].len() < usize::MAX);
            }
            reveal_strlit("data");
            reveal_strlit("count");
        }
        match self.pool.item(ty) {
            TypeItem::StringType => {
                if crate::suggest::str_eq(field, "data") {
                    PTR_U8
                } else if crate::suggest::str_eq(field, "count") {
                    S64
                } else {
                    self.no_such_field(ty, field, span);
                    ERROR
                }
            },
            TypeItem::ArrayType { .. } | TypeItem::ViewType { .. } => {
                if crate::suggest::str_eq(field, "count") {
                    S64
                } else {
                    self.no_such_field(ty, field, span);
                    ERROR
                }
            },
            TypeItem::StructType(decl) => match self.pool.field_type(*decl, field) {
                Some(t) => {
                    proof {
                        let fs = self.pool.fields_of(*decl);
                        if fs is Some {
                            assert(fields_fit(fs->0, self.pool@.len()));
                            lemma_first_field_fits(fs->0, field@, 0, self.pool@.len());
                        }
                    }
                    t
                },
                None => {
                    self.no_such_field(ty, field, span);
                    ERROR
                },
            },
            TypeItem::TypeType => {
                let denoted = self.denoted_enum(scope, receiver);
                let ghost after_denoted = *self;
                proof {
                    lemma_grows_trans(&start, &at_lookup, &after_denoted);
                }
                let r = match denoted {
                    Some((decl, flags)) => {
                        if self.pool.member_value(decl, name).is_some() {
                            self.intern_type(TypeItem::EnumType { decl, flags })
                        } else {
                            self.no_such_member(decl, flags, field, span);
                            ERROR
                        }
                    },
                    None => {
                        let text = self.describe(ty);
                        let message = concat3("type `", text.as_str(), "` has no fields");
                        self.report(Code::E0218, span, message);
                        ERROR
                    },
                };
                proof {
                    lemma_grows_trans(&start, &after_denoted, &*self);
                    if start.mode == Mode::Check {
                        lemma_strip_stable(at_lookup.pool@, self.pool@, recorded);
                    }
                }
                r
            },
            _ => {
                let text = self.describe(ty);
                let message = concat3("type `", text.as_str(), "` has no fields");
                self.report(Code::E0218, span, message);
                ERROR
            },
        }
    }

    /// Types `pointer.*`: the operand must be a pointer (E0219).
    pub fn check_deref(&mut self, scope: ExprScope, id: ExprId, pointer: ExprId, span: Span) -> (r: PoolId)
        requires
            old(self).inv(),
            pointer < id,
        ensures
            final(self).grows_from(old(self)),
            r < final(self).pool@.len(),
            final(self).types.spec_expr_type(scope, pointer) is Some,
            r == spec_deref(final(self).pool@, final(self).types.spec_expr_type(scope, pointer)->0),
            ({
                let t = final(self).types.spec_expr_type(scope, pointer)->0;
                t != ERROR && spec_pointee(final(self).pool@, t) is None ==> final(self).diags@.last().code == Code::E0219
                    && final(self).diags@.last().span == span
            }),
        decreases old(self).budget(), id, 4nat,
    {
        let ty = self.check_expr(scope, pointer, None);
        if ty == ERROR {
            return ERROR;
        }
        match self.pool.pointee(ty) {
            Some(inner) => {
                proof {
                    assert(refers_below(self.pool@[ty as int], ty as int));
                }
                inner
            },
            None => {
                let text = self.describe(ty);
                let message = concat3("cannot dereference `", text.as_str(), "`");
                let mut notes: Vec<String> = Vec::new();
                notes.push("`.*` applies to a pointer".to_owned());
                self.report_full(Code::E0219, span, message, notes, None);
                ERROR
            },
        }
    }

    /// The enum a field access's receiver denotes, when it names an enum type.
    pub fn denoted_enum(&mut self, scope: ExprScope, receiver: ExprId) -> (r: Option<(DeclId, bool)>)
        requires
            old(self).inv(),
        ensures
            final(self).grows_from(old(self)),
            old(self).mode == Mode::Check ==> *final(self) == *old(self),
            old(self).mode == Mode::Check ==> r == spec_denoted_enum(
                old(self).pool@,
                spec_name_entry(old(self), scope, receiver),
            ),
        decreases old(self).budget(), 0nat, 2nat,
    {
        let hir = self.hir;
        let res = match expr_at(hir, scope, receiver) {
            Some(Expr::Name { res, .. }) => *res,
            _ => {
                return None;
            },
        };
        let entry = match res {
            Res::Item(item) => {
                if (item as usize) < hir.items.len() {
                    self.entry_for_item(item)
                } else {
                    None
                }
            },
            Res::Imported(import, name) => self.entry_for_import(import, name),
            _ => None,
        };
        let denoted = match entry {
            Some(e) => match e.type_value {
                Some(t) => t,
                None => {
                    return None;
                },
            },
            None => {
                return None;
            },
        };
        match self.pool.item(denoted) {
            TypeItem::EnumType { decl, flags } => Some((*decl, *flags)),
            _ => None,
        }
    }
}

} // verus!
