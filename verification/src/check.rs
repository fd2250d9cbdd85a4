//! The check phase: typing everything the signature phase does not — procedure bodies
//! and unnamed `#run` items — against signatures that are already computed.

use vstd::prelude::*;
use crate::ctx::{
    BodyEnv, Code, Ctx, Diagnostic, Mode, concat3, entries_valid, imports_ready, lemma_grows_trans, pool_extends, pool_ready,
    pushed, reported, lemma_reported_kept,
};
use crate::typing::{known_operand_type, known_operand_code};
use crate::hir::{
    AssignOp, BodyId, Expr, ExprId, ExprScope, FileHir, ForIterable, Interner, ItemKind, LocalId, ProcId, Res, Span, Stmt, StmtId,
    Symbol, Literal, TypeRef, spec_type_ref_at,
    SwitchArm, expr_at, local_at, span_of, spec_expr_at, spec_stmt_at, spec_text, stmt_at, lemma_stmt_children_below,
};
use crate::map::{TypeMap, local_key};
use crate::pool::{DeclId, Pool, PoolId, Shape, TypeItem, ERROR, VOID, BOOL, FOREIGN_LIBRARY, S64, member_value_of, spec_int_info};
use crate::ints::{push_decimal, push_digits, spec_int_min, spec_int_max};
use crate::sigs::copy_symbols;
use crate::scope::{copy_ids, entry_fits};
use crate::sigs::{FileSignatures, ProcSig, SigEntry};
use crate::rules::{destructuring_refused, spec_destructured};
use crate::table::Slots;
pub use crate::args::ArgSlot;

verus! {

/// What the check phase produces.
pub struct CheckOutput {
    /// The type of every expression and local the phase visited.
    pub types: TypeMap,
    /// The diagnostics about bodies and `#run` items.
    pub diagnostics: Vec<Diagnostic>,
    /// Every module the file resolved a type name from, one entry per imported name, so
    /// that an import used only in type position does not read as unused.
    pub type_name_imports: Vec<String>,
    /// The slots of every call resolved through parameter names or defaults, keyed by
    /// the call expression, so that lowering reads one argument per parameter instead
    /// of the source order.
    pub filled_calls: Slots<Vec<ArgSlot>>,
}

/// The values of the members of `members` that the `case` values of `arms` name as
/// `Type.MEMBER`, in order.
pub open spec fn case_values(hir: &FileHir, body: BodyId, arms: Seq<SwitchArm>, members: Seq<(u32, i64)>) -> Seq<i64>
    decreases arms.len(),
{
    if arms.len() == 0 {
        Seq::empty()
    } else {
        let rest = case_values(hir, body, arms.drop_last(), members);
        match arms.last().value {
            Some(case) => match spec_case_member_name(hir, body, case) {
                Some(name) => match member_value_of(members, name) {
                    Some(v) => rest.push(v),
                    None => rest,
                },
                None => rest,
            },
            None => rest,
        }
    }
}

/// The members recorded for `t` when it is an enum type.
pub open spec fn enum_members_of(pool: Pool, t: PoolId) -> Option<Seq<(u32, i64)>> {
    match pool@[t as int] {
        Shape::Enum { decl, .. } => pool.members_of(decl),
        _ => None,
    }
}

/// The integer literals the `case` values of `arms` are written as, in order.
pub open spec fn int_case_values(hir: &FileHir, body: BodyId, arms: Seq<SwitchArm>) -> Seq<i128>
    decreases arms.len(),
{
    if arms.len() == 0 {
        Seq::empty()
    } else {
        let rest = int_case_values(hir, body, arms.drop_last());
        match arms.last().value {
            Some(case) => match spec_expr_at(hir, ExprScope::Body(body), case) {
                Some(Expr::Literal(crate::hir::Literal::Int(v), _)) => rest.push(v),
                _ => rest,
            },
            None => rest,
        }
    }
}

/// Arm `k` repeats a value an earlier `case` already handles: on an enum, a member
/// whose value an earlier member covers; on an integer, a literal written before.
pub open spec fn duplicate_case(hir: &FileHir, pool: Pool, body: BodyId, scrutinee: PoolId, arms: Seq<SwitchArm>, k: int) -> bool {
    match arms[k].value {
        Some(case) => match enum_members_of(pool, scrutinee) {
            Some(members) => match spec_case_member_name(hir, body, case) {
                Some(name) => match member_value_of(members, name) {
                    Some(v) => case_values(hir, body, arms.subrange(0, k), members).contains(v),
                    None => false,
                },
                None => false,
            },
            None => !(pool@[scrutinee as int] is Enum) && spec_int_info(pool@, scrutinee) is Some && match spec_expr_at(
                hir,
                ExprScope::Body(body),
                case,
            ) {
                Some(Expr::Literal(crate::hir::Literal::Int(v), _)) => int_case_values(hir, body, arms.subrange(0, k)).contains(
                    v,
                ),
                _ => false,
            },
        },
        None => has_else(arms.subrange(0, k)),
    }
}

/// The span of the first `else` arm of `arms`.
pub open spec fn first_else_span(arms: Seq<SwitchArm>) -> Option<Span>
    decreases arms.len(),
{
    if arms.len() == 0 {
        None
    } else {
        match first_else_span(arms.drop_last()) {
            Some(sp) => Some(sp),
            None => if arms.last().value is None {
                Some(arms.last().span)
            } else {
                None
            },
        }
    }
}

/// The diagnostics, in order, that arm `k` of a `switch` on the enum `scrutinee` gives
/// when its value, if any, is a bare member and its statement is plain: E0238 for a
/// member the enum lacks, E0259 for a second `else` or a value an earlier case already
/// handles, then its statement's own. `None` for any other arm.
pub open spec fn plain_arm_diags(
    hir: &FileHir,
    names: Seq<Seq<char>>,
    no_imports: bool,
    pool: Pool,
    body: BodyId,
    scrutinee: PoolId,
    arms: Seq<SwitchArm>,
    k: int,
) -> Option<Seq<(Code, Span)>> {
    let arm = arms[k];
    let dup: Seq<(Code, Span)> = if duplicate_case(hir, pool, body, scrutinee, arms, k) {
        seq![(Code::E0259, arm.span)]
    } else {
        Seq::empty()
    };
    let value: Option<Seq<(Code, Span)>> = match arm.value {
        None => Some(Seq::empty()),
        Some(c) => match spec_expr_at(hir, ExprScope::Body(body), c) {
            Some(Expr::Member { name, name_span, .. }) => match pool@[scrutinee as int] {
                Shape::Enum { decl, .. } => if crate::scope::spec_member_known(pool.members_of(decl), name) {
                    Some(Seq::empty())
                } else {
                    Some(seq![(Code::E0238, name_span)])
                },
                _ => None,
            },
            _ => None,
        },
    };
    match (value, plain_stmt_diags(hir, names, no_imports, body, arm.body)) {
        (Some(v), Some(b)) => Some(v + dup + b),
        _ => None,
    }
}

/// The diagnostics of the first `n` arms of such a `switch`, in order.
pub open spec fn plain_arms_diags(
    hir: &FileHir,
    names: Seq<Seq<char>>,
    no_imports: bool,
    pool: Pool,
    body: BodyId,
    scrutinee: PoolId,
    arms: Seq<SwitchArm>,
    n: nat,
) -> Option<Seq<(Code, Span)>>
    decreases n,
{
    if n == 0 {
        Some(Seq::empty())
    } else if n > arms.len() {
        None
    } else {
        match (
            plain_arms_diags(hir, names, no_imports, pool, body, scrutinee, arms, (n - 1) as nat),
            plain_arm_diags(hir, names, no_imports, pool, body, scrutinee, arms, n - 1),
        ) {
            (Some(a), Some(b)) => Some(a + b),
            _ => None,
        }
    }
}

/// The arms before the end of a plain arm list are plain too.
pub proof fn lemma_plain_arms_prefix(
    hir: &FileHir,
    names: Seq<Seq<char>>,
    no_imports: bool,
    pool: Pool,
    body: BodyId,
    scrutinee: PoolId,
    arms: Seq<SwitchArm>,
    n: nat,
    i: nat,
)
    requires
        plain_arms_diags(hir, names, no_imports, pool, body, scrutinee, arms, n) is Some,
        i <= n,
    ensures
        plain_arms_diags(hir, names, no_imports, pool, body, scrutinee, arms, i) is Some,
    decreases n - i,
{
    if i < n {
        lemma_plain_arms_prefix(hir, names, no_imports, pool, body, scrutinee, arms, (n - 1) as nat, i);
    }
}

/// What a `switch` on an enum reports once its arms are checked: E0258 at the `switch`
/// when some member is unhandled and there is no `else`; E0260 at the first `else` when
/// every member is handled; nothing otherwise.
pub open spec fn switch_verdict(hir: &FileHir, pool: Pool, body: BodyId, scrutinee: PoolId, arms: Seq<SwitchArm>, span: Span) -> Seq<
    (Code, Span),
> {
    let members = enum_members_of(pool, scrutinee)->0;
    let handled = case_values(hir, body, arms, members);
    let all = forall|k: int| 0 <= k < members.len() ==> handled.contains(#[trigger] members[k].1);
    if has_else(arms) {
        if all {
            seq![(Code::E0260, first_else_span(arms)->0)]
        } else {
            Seq::empty()
        }
    } else {
        if all {
            Seq::empty()
        } else {
            seq![(Code::E0258, span)]
        }
    }
}

/// Whether some arm of `arms` is an `else`.
pub open spec fn has_else(arms: Seq<SwitchArm>) -> bool {
    exists|k: int| 0 <= k < arms.len() && (#[trigger] arms[k]).value is None
}

/// The member a `case` value names when it is written `.MEMBER` or `Type.MEMBER`.
pub open spec fn spec_case_member_name(hir: &FileHir, body: BodyId, case: ExprId) -> Option<Symbol> {
    match spec_expr_at(hir, ExprScope::Body(body), case) {
        Some(Expr::Member { name, .. }) => Some(name),
        Some(Expr::Field { name, .. }) => Some(name),
        _ => None,
    }
}

/// The member a `case` value names when it is written `.MEMBER` or `Type.MEMBER`.
pub fn case_member_name(hir: &FileHir, body: BodyId, case: ExprId) -> (r: Option<Symbol>)
    ensures
        r == spec_case_member_name(hir, body, case),
{
    match expr_at(hir, ExprScope::Body(body), case) {
        Some(Expr::Member { name, .. }) => Some(*name),
        Some(Expr::Field { name, .. }) => Some(*name),
        _ => None,
    }
}

/// The value of a `case` written as an integer literal.
pub fn case_int_literal(hir: &FileHir, body: BodyId, case: ExprId) -> (r: Option<i128>)
    ensures
        r == match spec_expr_at(hir, ExprScope::Body(body), case) {
            Some(Expr::Literal(crate::hir::Literal::Int(v), _)) => Some(v),
            _ => None,
        },
{
    match expr_at(hir, ExprScope::Body(body), case) {
        Some(Expr::Literal(crate::hir::Literal::Int(v), _)) => Some(*v),
        _ => None,
    }
}

/// Whether `value` is among `values`.
pub fn contains_value(values: &Vec<i64>, value: i64) -> (r: bool)
    ensures
        r == values@.contains(value),
{
    let mut i: usize = 0;
    while i < values.len()
        invariant
            i <= values@.len(),
            forall|k: int| 0 <= k < i ==> values@[k] != value,
        decreases values@.len() - i,
    {
        if values[i] == value {
            proof {
                assert(values@[i as int] == value);
            }
            return true;
        }
        i = i + 1;
    }
    false
}

/// Whether `value` is among `values`.
pub fn contains_int(values: &Vec<i128>, value: i128) -> (r: bool)
    ensures
        r == values@.contains(value),
{
    let mut i: usize = 0;
    while i < values.len()
        invariant
            i <= values@.len(),
            forall|k: int| 0 <= k < i ==> values@[k] != value,
        decreases values@.len() - i,
    {
        if values[i] == value {
            proof {
                assert(values@[i as int] == value);
            }
            return true;
        }
        i = i + 1;
    }
    false
}

/// The return type of the procedure whose body is being checked; poison outside one.
pub open spec fn spec_body_ret(ctx: &Ctx) -> PoolId {
    match ctx.body {
        Some(b) => b.ret,
        None => ERROR,
    }
}

/// The type a binding of a value of type `t` gets: poison for a procedure's missing
/// result and for several results, neither of which is one value to bind.
pub open spec fn spec_binding(items: Seq<Shape>, t: PoolId) -> PoolId {
    if t == VOID || items[t as int] is Results {
        ERROR
    } else {
        t
    }
}

/// The local `local` of body `body`, if the file has both.
pub open spec fn spec_local_at(hir: &FileHir, body: BodyId, local: LocalId) -> Option<crate::hir::Local> {
    if body < hir.bodies@.len() && local < hir.bodies@[body as int].locals@.len() {
        Some(hir.bodies@[body as int].locals@[local as int])
    } else {
        None
    }
}

/// An expression that can only ever be a value, never a location, whatever it names
/// or whatever its parts were typed as.
pub open spec fn value_only(e: Expr) -> bool {
    match e {
        Expr::Literal(..) | Expr::Binary { .. } | Expr::Unary { .. } | Expr::Call { .. } | Expr::Run(..)
        | Expr::SystemLibrary(..) | Expr::Member { .. } | Expr::Cast { .. } | Expr::Autocast { .. } | Expr::Slice {
            ..
        } => true,
        _ => false,
    }
}

/// What checking a statement leaves recorded: the type of each expression the
/// statement itself holds, and the type of the local it declares.
pub open spec fn spec_stmt_typed(hir: &FileHir, types: TypeMap, body: BodyId, stmt: StmtId) -> bool {
    let scope = ExprScope::Body(body);
    match spec_stmt_at(hir, body, stmt) {
        Some(Stmt::Local(local)) => spec_local_at(hir, body, local) is Some ==> types.local_entries().contains_key(
            local_key(body, local),
        ),
        Some(Stmt::Discard(value)) => types.spec_expr_type(scope, value) is Some,
        Some(Stmt::Expr(value)) => types.spec_expr_type(scope, value) is Some,
        Some(Stmt::Assign { lhs, rhs, .. }) => types.spec_expr_type(scope, lhs) is Some && types.spec_expr_type(
            scope,
            rhs,
        ) is Some,
        Some(Stmt::If { cond, .. }) => types.spec_expr_type(scope, cond) is Some,
        Some(Stmt::While { cond, .. }) => types.spec_expr_type(scope, cond) is Some,
        Some(Stmt::Switch { value, .. }) => types.spec_expr_type(scope, value) is Some,
        Some(Stmt::Return(Some(value), _)) => types.spec_expr_type(scope, value) is Some,
        Some(Stmt::ReturnTuple(values, _)) => forall|k: int| 0 <= k < values@.len() ==> types.spec_expr_type(
            scope,
            #[trigger] values@[k],
        ) is Some,
        Some(Stmt::LocalTuple { call, .. }) => types.spec_expr_type(scope, call) is Some,
        Some(Stmt::AssignTuple { call, .. }) => types.spec_expr_type(scope, call) is Some,
        Some(Stmt::For { value, iterable, .. }) => types.local_entries().contains_key(local_key(body, value)) && match iterable {
            ForIterable::Sequence(e) => types.spec_expr_type(scope, e) is Some,
            ForIterable::Range { start, end } => types.spec_expr_type(scope, start) is Some && types.spec_expr_type(scope, end)
                is Some,
        },
        _ => true,
    }
}

/// A `switch` arm's `case` value, when it has one, has a recorded type.
pub open spec fn case_typed(types: TypeMap, body: BodyId, arm: SwitchArm) -> bool {
    arm.value matches Some(c) ==> types.spec_expr_type(ExprScope::Body(body), c) is Some
}

/// What checking a statement leaves recorded for it and for every statement under it:
/// a block's statements, both branches of an `if`, a loop's body and each arm of a
/// `switch` (with its `case` value).
pub open spec fn spec_stmt_tree_typed(hir: &FileHir, types: TypeMap, body: BodyId, stmt: StmtId) -> bool
    decreases stmt,
{
    &&& spec_stmt_typed(hir, types, body, stmt)
    &&& match spec_stmt_at(hir, body, stmt) {
        Some(Stmt::Block(stmts)) => forall|k: int|
            0 <= k < stmts@.len() ==> (#[trigger] stmts@[k] < stmt ==> spec_stmt_tree_typed(hir, types, body, stmts@[k])),
        Some(Stmt::If { then, else_, .. }) => (then < stmt ==> spec_stmt_tree_typed(hir, types, body, then)) && (
        else_ matches Some(e) ==> (e < stmt ==> spec_stmt_tree_typed(hir, types, body, e))),
        Some(Stmt::While { body: inner, .. }) => inner < stmt ==> spec_stmt_tree_typed(hir, types, body, inner),
        Some(Stmt::For { body: inner, .. }) => inner < stmt ==> spec_stmt_tree_typed(hir, types, body, inner),
        Some(Stmt::Switch { arms, .. }) => forall|k: int|
            0 <= k < arms@.len() ==> (#[trigger] arms@[k].body < stmt ==> spec_stmt_tree_typed(
                hir,
                types,
                body,
                arms@[k].body,
            )) && case_typed(types, body, arms@[k]),
        _ => true,
    }
}

/// A checked statement tree stays checked as the type map grows.
pub proof fn lemma_stmt_tree_typed_grows(hir: &FileHir, before: TypeMap, after: TypeMap, body: BodyId, stmt: StmtId)
    requires
        spec_stmt_tree_typed(hir, before, body, stmt),
        forall|k: u128| #[trigger] before.expr_entries().contains_key(k) ==> after.expr_entries().contains_key(k),
        forall|k: u128| #[trigger] before.local_entries().contains_key(k) ==> after.local_entries().contains_key(k),
    ensures
        spec_stmt_tree_typed(hir, after, body, stmt),
    decreases stmt,
{
    lemma_stmt_typed_grows(hir, before, after, body, stmt);
    match spec_stmt_at(hir, body, stmt) {
        Some(Stmt::Block(stmts)) => {
            assert forall|k: int| 0 <= k < stmts@.len() && #[trigger] stmts@[k] < stmt implies spec_stmt_tree_typed(
                hir,
                after,
                body,
                stmts@[k],
            ) by {
                lemma_stmt_tree_typed_grows(hir, before, after, body, stmts@[k]);
            }
        },
        Some(Stmt::If { then, else_, .. }) => {
            if then < stmt {
                lemma_stmt_tree_typed_grows(hir, before, after, body, then);
            }
            match else_ {
                Some(e) => {
                    if e < stmt {
                        lemma_stmt_tree_typed_grows(hir, before, after, body, e);
                    }
                },
                None => {},
            }
        },
        Some(Stmt::While { body: inner, .. }) => {
            if inner < stmt {
                lemma_stmt_tree_typed_grows(hir, before, after, body, inner);
            }
        },
        Some(Stmt::For { body: inner, .. }) => {
            if inner < stmt {
                lemma_stmt_tree_typed_grows(hir, before, after, body, inner);
            }
        },
        Some(Stmt::Switch { arms, .. }) => {
            assert forall|k: int| 0 <= k < arms@.len() implies (#[trigger] arms@[k].body < stmt ==> spec_stmt_tree_typed(
                hir,
                after,
                body,
                arms@[k].body,
            )) && case_typed(after, body, arms@[k]) by {
                if arms@[k].body < stmt {
                    lemma_stmt_tree_typed_grows(hir, before, after, body, arms@[k].body);
                }
                match arms@[k].value {
                    Some(c) => {
                        assert(before.spec_expr_type(ExprScope::Body(body), c) is Some);
                    },
                    None => {},
                }
            }
        },
        _ => {},
    }
}

/// What checking a statement leaves recorded in the context's type map.
pub open spec fn spec_stmt_checked(ctx: &Ctx, body: BodyId, stmt: StmtId) -> bool {
    spec_stmt_typed(ctx.hir, ctx.types, body, stmt)
}

/// What a statement's check recorded stays recorded as the type map grows.
pub proof fn lemma_stmt_typed_grows(hir: &FileHir, before: TypeMap, after: TypeMap, body: BodyId, stmt: StmtId)
    requires
        spec_stmt_typed(hir, before, body, stmt),
        forall|k: u128| #[trigger] before.expr_entries().contains_key(k) ==> after.expr_entries().contains_key(k),
        forall|k: u128| #[trigger] before.local_entries().contains_key(k) ==> after.local_entries().contains_key(k),
    ensures
        spec_stmt_typed(hir, after, body, stmt),
{
    let scope = ExprScope::Body(body);
    match spec_stmt_at(hir, body, stmt) {
        Some(Stmt::ReturnTuple(values, _)) => {
            assert forall|k: int| 0 <= k < values@.len() implies after.spec_expr_type(scope, #[trigger] values@[k]) is Some by {
                assert(before.spec_expr_type(scope, values@[k]) is Some);
            }
        },
        _ => {},
    }
}

/// The first import from `i` on that declares `name`, and what it declares.
pub open spec fn spec_imported_entry(imports: Seq<(&str, &FileSignatures)>, name: Symbol, i: int) -> Option<SigEntry>
    decreases imports.len() - i,
{
    if i < 0 || i >= imports.len() {
        None
    } else if imports[i].1.names_view().contains_key(name as u128) {
        Some(imports[i].1.names_view()[name as u128])
    } else {
        spec_imported_entry(imports, name, i + 1)
    }
}

/// What a value name denotes once signatures are known: this file's declaration when
/// the file declares the name, the first import's that does otherwise.
pub open spec fn spec_lookup_value(ctx: &Ctx, name: Symbol) -> Option<SigEntry> {
    lookup_value_in(ctx.hir, ctx.sigs, ctx.imports@, name)
}

/// What a value name denotes in a file with signatures `sigs` and imports `imports`.
pub open spec fn lookup_value_in(
    hir: &FileHir,
    sigs: FileSignatures,
    imports: Seq<(&str, &FileSignatures)>,
    name: Symbol,
) -> Option<SigEntry> {
    if exists|j: int| 0 <= j < hir.items@.len() && (#[trigger] hir.items@[j]).name == Some(name) {
        if sigs.names_view().contains_key(name as u128) {
            Some(sigs.names_view()[name as u128])
        } else {
            None
        }
    } else {
        spec_imported_entry(imports, name, 0)
    }
}

/// The span of a local's initialiser when it is an integer literal outside the range
/// of the builtin integer type the local is annotated with: the literal is judged
/// against its contextual type (E0204).
pub open spec fn literal_misfit(hir: &FileHir, names: Seq<Seq<char>>, body: BodyId, local: LocalId) -> Option<Span> {
    match spec_local_at(hir, body, local) {
        Some(decl) => match decl.ty {
            Some(t) => match decl.init {
                Some(e) => match spec_type_ref_at(hir, ExprScope::Body(body), t) {
                    Some(TypeRef::Name(sym, _)) => match spec_expr_at(hir, ExprScope::Body(body), e) {
                        Some(Expr::Literal(Literal::Int(v), span)) => match crate::typing::spec_builtin_type(
                            spec_text(names, sym),
                        ) {
                            Some(Shape::Int { signed, bits }) => if spec_int_min(signed, bits) <= v && v <= spec_int_max(
                                signed,
                                bits,
                            ) {
                                None
                            } else {
                                Some(span)
                            },
                            _ => None,
                        },
                        _ => None,
                    },
                    _ => None,
                },
                None => None,
            },
            None => None,
        },
        None => None,
    }
}

/// The type a condition has where the context alone decides it: a literal's, or, once
/// signatures are computed, a name's.
pub open spec fn known_condition_type(ctx: &Ctx, scope: ExprScope, cond: ExprId) -> Option<PoolId> {
    match spec_expr_at(ctx.hir, scope, cond) {
        Some(Expr::Literal(lit, _)) => Some(crate::scope::spec_literal_type(ctx.pool@, lit, None)),
        Some(Expr::Name { res, .. }) => if ctx.mode == Mode::Check {
            Some(crate::typing::name_outcome(ctx, scope, cond, res, None).0)
        } else {
            None
        },
        _ => None,
    }
}

/// The span of a condition whose known type is neither `bool` nor poison: where its
/// E0222 goes.
pub open spec fn condition_refused(ctx: &Ctx, scope: ExprScope, cond: ExprId) -> Option<Span> {
    match known_condition_type(ctx, scope, cond) {
        Some(t) => if t != ERROR && t != BOOL {
            Some(crate::hir::spec_span_of(spec_expr_at(ctx.hir, scope, cond)->0))
        } else {
            None
        },
        None => None,
    }
}

/// `new` is `old` with one diagnostic appended per pair of `codes`, in order, carrying
/// that pair's code and span.
pub open spec fn emitted(old: Seq<Diagnostic>, new: Seq<Diagnostic>, codes: Seq<(Code, Span)>) -> bool {
    &&& new.len() == old.len() + codes.len()
    &&& forall|k: int| 0 <= k < old.len() ==> #[trigger] new[k] == old[k]
    &&& forall|k: int| 0 <= k < codes.len() ==> new[old.len() + k].code == (#[trigger] codes[k]).0 && new[old.len()
        + k].span == codes[k].1
}

/// What is appended in two steps is what both steps append, in order.
pub proof fn lemma_emitted_trans(
    a: Seq<Diagnostic>,
    b: Seq<Diagnostic>,
    c: Seq<Diagnostic>,
    x: Seq<(Code, Span)>,
    y: Seq<(Code, Span)>,
)
    requires
        emitted(a, b, x),
        emitted(b, c, y),
    ensures
        emitted(a, c, x + y),
{
    assert forall|k: int| 0 <= k < a.len() implies #[trigger] c[k] == a[k] by {
        assert(c[k] == b[k]);
    }
    assert forall|k: int| 0 <= k < (x + y).len() implies c[a.len() + k].code == (#[trigger] (x + y)[k]).0 && c[a.len()
        + k].span == (x + y)[k].1 by {
        if k < x.len() {
            assert((x + y)[k] == x[k]);
            assert(c[a.len() + k] == b[a.len() + k]);
        } else {
            let j = k - x.len();
            assert((x + y)[k] == y[j]);
            assert(a.len() + k == b.len() + j);
        }
    }
}

/// The signedness and width of the integer builtin a type annotation names.
pub open spec fn int_annotation(hir: &FileHir, names: Seq<Seq<char>>, body: BodyId, t: crate::hir::TypeRefId) -> Option<(bool, u16)> {
    match spec_type_ref_at(hir, ExprScope::Body(body), t) {
        Some(TypeRef::Name(sym, _)) => match crate::typing::spec_builtin_type(spec_text(names, sym)) {
            Some(Shape::Int { signed, bits }) => Some((signed, bits)),
            _ => None,
        },
        _ => None,
    }
}

/// A type annotation naming something that is neither a builtin nor a declaration of
/// the file.
pub open spec fn unknown_annotation(hir: &FileHir, names: Seq<Seq<char>>, body: BodyId, t: crate::hir::TypeRefId) -> bool {
    match spec_type_ref_at(hir, ExprScope::Body(body), t) {
        Some(TypeRef::Name(sym, _)) => crate::typing::spec_builtin_type(spec_text(names, sym)) is None && forall|j: int|
            0 <= j < hir.items@.len() ==> (#[trigger] hir.items@[j]).name != Some(sym),
        _ => false,
    }
}

/// What an integer literal `v` at `span` reports against an integer type: E0204 when it
/// is out of the type's range, nothing otherwise.
pub open spec fn range_codes(signed: bool, bits: u16, v: i128, span: Span) -> Seq<(Code, Span)> {
    if spec_int_min(signed, bits) <= v && v <= spec_int_max(signed, bits) {
        Seq::empty()
    } else {
        seq![(Code::E0204, span)]
    }
}

/// The diagnostics, in order, that checking a local gives when it is initialised by an
/// integer literal or by a malformed expression, with no annotation or an integer
/// builtin one: a literal is judged against the annotation, or against `s64` without
/// one, and a malformed initialiser reports nothing; with no imports, an annotation that
/// names nothing known is E0212 at the declaration and poisons the literal's context.
/// `None` for any other local.
pub open spec fn plain_local_diags(hir: &FileHir, names: Seq<Seq<char>>, no_imports: bool, body: BodyId, local: LocalId) -> Option<
    Seq<(Code, Span)>,
> {
    match spec_local_at(hir, body, local) {
        Some(decl) => match decl.init {
            Some(e) => match spec_expr_at(hir, ExprScope::Body(body), e) {
                Some(Expr::Error(_)) => match decl.ty {
                    None => Some(Seq::empty()),
                    Some(t) => if int_annotation(hir, names, body, t) is Some {
                        Some(Seq::empty())
                    } else if no_imports && unknown_annotation(hir, names, body, t) {
                        Some(seq![(Code::E0212, decl.span)])
                    } else {
                        None
                    },
                },
                Some(Expr::Literal(Literal::Int(v), span)) => match decl.ty {
                    None => Some(range_codes(true, 64, v, span)),
                    Some(t) => match int_annotation(hir, names, body, t) {
                        Some((signed, bits)) => Some(range_codes(signed, bits, v, span)),
                        None => if no_imports && unknown_annotation(hir, names, body, t) {
                            Some(seq![(Code::E0212, decl.span)])
                        } else {
                            None
                        },
                    },
                },
                _ => None,
            },
            None => None,
        },
        None => None,
    }
}

/// The diagnostics of a statement that holds no other: a plain local, or a statement
/// that checks nothing (a malformed statement, `break`, `continue`).
pub open spec fn plain_leaf_diags(hir: &FileHir, names: Seq<Seq<char>>, no_imports: bool, body: BodyId, stmt: StmtId) -> Option<
    Seq<(Code, Span)>,
> {
    match spec_stmt_at(hir, body, stmt) {
        None => Some(Seq::empty()),
        Some(Stmt::Error) => Some(Seq::empty()),
        Some(Stmt::Break) => Some(Seq::empty()),
        Some(Stmt::Continue) => Some(Seq::empty()),
        Some(Stmt::Local(l)) => plain_local_diags(hir, names, no_imports, body, l),
        _ => None,
    }
}

/// The diagnostics of the first `n` statements of a block, when each is a plain leaf:
/// each statement's own, in the block's order.
pub open spec fn plain_block_diags(hir: &FileHir, names: Seq<Seq<char>>, no_imports: bool, body: BodyId, stmts: Seq<StmtId>, n: nat) -> Option<
    Seq<(Code, Span)>,
>
    decreases n,
{
    if n == 0 || n > stmts.len() {
        if n == 0 {
            Some(Seq::empty())
        } else {
            None
        }
    } else {
        match (plain_block_diags(hir, names, no_imports, body, stmts, (n - 1) as nat), plain_leaf_diags(hir, names, no_imports, body, stmts[n - 1])) {
            (Some(a), Some(b)) => Some(a + b),
            _ => None,
        }
    }
}

/// The diagnostics, in order, of a statement of the plain fragment: a plain leaf, or a
/// block of them. `None` outside the fragment.
pub open spec fn plain_stmt_diags(hir: &FileHir, names: Seq<Seq<char>>, no_imports: bool, body: BodyId, stmt: StmtId) -> Option<
    Seq<(Code, Span)>,
> {
    match spec_stmt_at(hir, body, stmt) {
        Some(Stmt::Block(stmts)) => plain_block_diags(hir, names, no_imports, body, stmts@, stmts@.len()),
        _ => plain_leaf_diags(hir, names, no_imports, body, stmt),
    }
}

/// A prefix of a plain block is plain.
pub proof fn lemma_plain_block_prefix(hir: &FileHir, names: Seq<Seq<char>>, no_imports: bool, body: BodyId, stmts: Seq<StmtId>, n: nat, i: nat)
    requires
        plain_block_diags(hir, names, no_imports, body, stmts, n) is Some,
        i <= n,
    ensures
        plain_block_diags(hir, names, no_imports, body, stmts, i) is Some,
        i < n ==> plain_leaf_diags(hir, names, no_imports, body, stmts[i as int]) is Some,
    decreases n - i,
{
    if i < n {
        lemma_plain_block_prefix(hir, names, no_imports, body, stmts, (n - 1) as nat, i);
    }
}

/// The shape of the type a plain local gets: its integer annotation, else `s64` for an
/// integer literal, else poison.
pub open spec fn plain_local_shape(hir: &FileHir, names: Seq<Seq<char>>, body: BodyId, local: LocalId) -> Shape {
    match spec_local_at(hir, body, local) {
        Some(decl) => match decl.ty {
            Some(t) => match int_annotation(hir, names, body, t) {
                Some((signed, bits)) => Shape::Int { signed, bits },
                None => Shape::Error,
            },
            None => match decl.init {
                Some(e) => match spec_expr_at(hir, ExprScope::Body(body), e) {
                    Some(Expr::Literal(Literal::Int(_), _)) => Shape::Int { signed: true, bits: 64 },
                    _ => Shape::Error,
                },
                None => Shape::Error,
            },
        },
        None => Shape::Error,
    }
}

/// The shape of the type local `l` has after the first `n` statements of a plain
/// block: that of the last of them to declare it.
pub open spec fn block_local_shape(
    hir: &FileHir,
    names: Seq<Seq<char>>,
    body: BodyId,
    stmts: Seq<StmtId>,
    n: nat,
    l: LocalId,
) -> Option<Shape>
    decreases n,
{
    if n == 0 || n > stmts.len() {
        None
    } else if spec_stmt_at(hir, body, stmts[n - 1]) == Some(Stmt::Local(l)) {
        Some(plain_local_shape(hir, names, body, l))
    } else {
        block_local_shape(hir, names, body, stmts, (n - 1) as nat, l)
    }
}

/// The shape of the type local `l` of body `b` has once a plain file is checked, when
/// the body is a block that declares it.
pub open spec fn body_local_shape(hir: &FileHir, names: Seq<Seq<char>>, b: BodyId, l: LocalId) -> Option<Shape> {
    if b < hir.bodies@.len() {
        match spec_stmt_at(hir, b, hir.bodies@[b as int].root) {
            Some(Stmt::Block(stmts)) => block_local_shape(hir, names, b, stmts@, stmts@.len(), l),
            _ => None,
        }
    } else {
        None
    }
}

/// A file of the plain fragment: no `#run` item, no foreign or `#must` procedure, and
/// every body's root statement plain.
pub open spec fn plain_file(hir: &FileHir, names: Seq<Seq<char>>, no_imports: bool) -> bool {
    &&& forall|i: int| 0 <= i < hir.items@.len() ==> !((#[trigger] hir.items@[i]).kind is Run)
    &&& forall|p: int| 0 <= p < hir.procs@.len() ==> (#[trigger] hir.procs@[p]).foreign is None && !hir.procs@[p].must
    &&& forall|b: int| 0 <= b < hir.bodies@.len() ==> plain_stmt_diags(hir, names, no_imports, b as BodyId, (#[trigger] hir.bodies@[b]).root)
        is Some
}

/// The diagnostics, in order, of the first `n` bodies of a plain file.
pub open spec fn plain_file_diags(hir: &FileHir, names: Seq<Seq<char>>, no_imports: bool, n: nat) -> Seq<(Code, Span)>
    decreases n,
{
    if n == 0 {
        Seq::empty()
    } else {
        plain_file_diags(hir, names, no_imports, (n - 1) as nat) + plain_stmt_diags(hir, names, no_imports,
            (n - 1) as BodyId,
            hir.bodies@[n - 1].root,
        )->0
    }
}

/// Every local declared in a statement or under it whose literal initialiser does not
/// fit its builtin annotation has its E0204 among `diags`.
pub open spec fn spec_stmt_tree_fits(hir: &FileHir, names: Seq<Seq<char>>, diags: Seq<Diagnostic>, body: BodyId, stmt: StmtId) -> bool
    decreases stmt,
{
    match spec_stmt_at(hir, body, stmt) {
        Some(Stmt::Local(l)) => literal_misfit(hir, names, body, l) matches Some(sp) ==> diag_present(diags, Code::E0204, sp),
        Some(Stmt::Block(stmts)) => forall|k: int|
            0 <= k < stmts@.len() ==> (#[trigger] stmts@[k] < stmt ==> spec_stmt_tree_fits(hir, names, diags, body, stmts@[k])),
        Some(Stmt::If { then, else_, .. }) => (then < stmt ==> spec_stmt_tree_fits(hir, names, diags, body, then)) && (
        else_ matches Some(e) ==> (e < stmt ==> spec_stmt_tree_fits(hir, names, diags, body, e))),
        Some(Stmt::While { body: inner, .. }) => inner < stmt ==> spec_stmt_tree_fits(hir, names, diags, body, inner),
        Some(Stmt::For { body: inner, .. }) => inner < stmt ==> spec_stmt_tree_fits(hir, names, diags, body, inner),
        Some(Stmt::Switch { arms, .. }) => forall|k: int|
            0 <= k < arms@.len() ==> (#[trigger] arms@[k].body < stmt ==> spec_stmt_tree_fits(hir, names, diags, body, arms@[k].body)),
        _ => true,
    }
}

/// What a statement tree has reported stays reported as diagnostics are appended.
pub proof fn lemma_stmt_tree_fits_kept(hir: &FileHir, names: Seq<Seq<char>>, a: Seq<Diagnostic>, b: Seq<Diagnostic>, body: BodyId, stmt: StmtId)
    requires
        spec_stmt_tree_fits(hir, names, a, body, stmt),
        crate::ctx::extends(a, b),
    ensures
        spec_stmt_tree_fits(hir, names, b, body, stmt),
    decreases stmt,
{
    match spec_stmt_at(hir, body, stmt) {
        Some(Stmt::Local(l)) => {
            match literal_misfit(hir, names, body, l) {
                Some(sp) => lemma_present_kept(a, b, Code::E0204, sp),
                None => {},
            }
        },
        Some(Stmt::Block(stmts)) => {
            assert forall|k: int| 0 <= k < stmts@.len() && #[trigger] stmts@[k] < stmt implies spec_stmt_tree_fits(
                hir,
                names,
                b,
                body,
                stmts@[k],
            ) by {
                lemma_stmt_tree_fits_kept(hir, names, a, b, body, stmts@[k]);
            }
        },
        Some(Stmt::If { then, else_, .. }) => {
            if then < stmt {
                lemma_stmt_tree_fits_kept(hir, names, a, b, body, then);
            }
            match else_ {
                Some(e) => {
                    if e < stmt {
                        lemma_stmt_tree_fits_kept(hir, names, a, b, body, e);
                    }
                },
                None => {},
            }
        },
        Some(Stmt::While { body: inner, .. }) => {
            if inner < stmt {
                lemma_stmt_tree_fits_kept(hir, names, a, b, body, inner);
            }
        },
        Some(Stmt::For { body: inner, .. }) => {
            if inner < stmt {
                lemma_stmt_tree_fits_kept(hir, names, a, b, body, inner);
            }
        },
        Some(Stmt::Switch { arms, .. }) => {
            assert forall|k: int| 0 <= k < arms@.len() && #[trigger] arms@[k].body < stmt implies spec_stmt_tree_fits(
                hir,
                names,
                b,
                body,
                arms@[k].body,
            ) by {
                lemma_stmt_tree_fits_kept(hir, names, a, b, body, arms@[k].body);
            }
        },
        _ => {},
    }
}

/// No type variable is bound.
pub open spec fn unbound(ctx: &Ctx) -> bool {
    forall|v: Symbol| #[trigger] ctx.type_bindings@.contains_key(v) ==> false
}

/// Some diagnostic of `diags` carries `code` at `span`.
pub open spec fn diag_present(diags: Seq<Diagnostic>, code: Code, span: Span) -> bool {
    exists|k: int| 0 <= k < diags.len() && (#[trigger] diags[k]).code == code && diags[k].span == span
}

/// A diagnostic present in a list is present in any list that extends it.
pub proof fn lemma_present_kept(a: Seq<Diagnostic>, b: Seq<Diagnostic>, code: Code, span: Span)
    requires
        diag_present(a, code, span),
        crate::ctx::extends(a, b),
    ensures
        diag_present(b, code, span),
{
    let k = choose|k: int| 0 <= k < a.len() && (#[trigger] a[k]).code == code && a[k].span == span;
    assert(b[k] == a[k]);
}

/// Procedure `p` is `#must` while its signature returns nothing (E0288).
pub open spec fn must_without_result(hir: &FileHir, sigs: FileSignatures, p: int) -> bool {
    &&& 0 <= p < hir.procs@.len()
    &&& hir.procs@[p].must
    &&& sigs.procs_view().contains_key(p as u128)
    &&& sigs.procs_view()[p as u128].ret == VOID
}

/// Procedure `p`'s `#foreign` operand names nothing, or names something that is not a
/// foreign library (E0225 at the attribute's span).
pub open spec fn bad_foreign_operand(
    hir: &FileHir,
    sigs: FileSignatures,
    imports: Seq<(&str, &FileSignatures)>,
    p: int,
) -> bool {
    0 <= p < hir.procs@.len() && (spec_foreign_operand(hir, p as ProcId) matches Some((library, _)) && match lookup_value_in(
        hir,
        sigs,
        imports,
        library,
    ) {
        None => true,
        Some(e) => e.ty != FOREIGN_LIBRARY && e.ty != ERROR,
    })
}

/// The library operand of a `#foreign` procedure and the span of its attribute, when
/// the procedure names one.
pub open spec fn spec_foreign_operand(hir: &FileHir, proc: ProcId) -> Option<(Symbol, Span)> {
    if proc < hir.procs@.len() {
        match hir.procs@[proc as int].foreign {
            Some(info) => match info.library {
                Some(l) => Some((l, info.span)),
                None => None,
            },
            None => None,
        }
    } else {
        None
    }
}

/// `p` is the last procedure of the file whose body is `body`.
pub open spec fn is_last_owner(hir: &FileHir, body: BodyId, p: ProcId) -> bool {
    &&& p < hir.procs@.len()
    &&& hir.procs@[p as int].body == Some(body)
    &&& forall|q: int| p < q < hir.procs@.len() ==> hir.procs@[q].body != Some(body)
}

/// The procedure a body belongs to: the last one that names it.
pub open spec fn spec_owner(hir: &FileHir, body: BodyId) -> Option<ProcId> {
    if exists|p: ProcId| is_last_owner(hir, body, p) {
        Some(choose|p: ProcId| is_last_owner(hir, body, p))
    } else {
        None
    }
}

/// The name a callee is written as, when it is a name: the declared name of the item,
/// local or parameter it resolves to, or the imported name.
pub open spec fn spec_callee_symbol(hir: &FileHir, scope: ExprScope, callee: ExprId) -> Option<Symbol> {
    match spec_expr_at(hir, scope, callee) {
        Some(Expr::Name { res, .. }) => match res {
            Res::Item(item) => if item < hir.items@.len() {
                hir.items@[item as int].name
            } else {
                None
            },
            Res::Imported(_, sym) => Some(sym),
            Res::Local(local) => match scope {
                ExprScope::Body(body) => match spec_local_at(hir, body, local) {
                    Some(l) => Some(l.name),
                    None => None,
                },
                ExprScope::TopLevel => None,
            },
            Res::Param(index) => match scope {
                ExprScope::Body(body) => match spec_owner(hir, body) {
                    Some(p) => if index < hir.procs@[p as int].params@.len() {
                        Some(hir.procs@[p as int].params@[index as int].name)
                    } else {
                        None
                    },
                    None => None,
                },
                ExprScope::TopLevel => None,
            },
            Res::Error => None,
        },
        _ => None,
    }
}

impl<'a> Ctx<'a> {
    /// Checks one statement of a body, and the statements under it.
    pub fn check_stmt(&mut self, body: BodyId, stmt: StmtId)
        requires
            old(self).inv(),
            old(self).mode == Mode::Check,
        ensures
            final(self).grows_from(old(self)),
            spec_stmt_checked(final(self), body, stmt),
            spec_stmt_tree_typed(final(self).hir, final(self).types, body, stmt),
            unbound(old(self)) ==> spec_stmt_tree_fits(old(self).hir, old(self).interner@, final(self).diags@, body, stmt),
            unbound(old(self)) ==> (plain_stmt_diags(old(self).hir, old(self).interner@, old(self).imports@.len() == 0, body, stmt) matches Some(d)
                ==> emitted(old(self).diags@, final(self).diags@, d)),
            unbound(old(self)) && plain_stmt_diags(old(self).hir, old(self).interner@, old(self).imports@.len() == 0, body, stmt) is Some ==> {
                &&& forall|b2: BodyId, l2: LocalId|
                    b2 != body ==> (final(self).types.local_entries().contains_key(#[trigger] local_key(b2, l2))
                        == old(self).types.local_entries().contains_key(local_key(b2, l2))) && (old(self).types.local_entries().contains_key(
                        local_key(b2, l2),
                    ) ==> final(self).types.local_entries()[local_key(b2, l2)] == old(self).types.local_entries()[local_key(
                        b2,
                        l2,
                    )])
                &&& match spec_stmt_at(old(self).hir, body, stmt) {
                    Some(Stmt::Local(l)) => final(self).types.local_entries() == old(self).types.local_entries().insert(
                        local_key(body, l),
                        final(self).types.local_entries()[local_key(body, l)],
                    ) && final(self).pool@[final(self).types.local_entries()[local_key(body, l)] as int] == plain_local_shape(
                        old(self).hir,
                        old(self).interner@,
                        body,
                        l,
                    ),
                    Some(Stmt::Block(stmts)) => forall|l: LocalId| #[trigger]
                        block_local_shape(old(self).hir, old(self).interner@, body, stmts@, stmts@.len(), l) matches Some(sh)
                            ==> final(self).types.local_entries().contains_key(local_key(body, l))
                            && final(self).pool@[final(self).types.local_entries()[local_key(body, l)] as int] == sh,
                    _ => final(self).types.local_entries() == old(self).types.local_entries(),
                }
            },
            match spec_stmt_at(old(self).hir, body, stmt) {
                Some(Stmt::If { cond, .. }) => condition_refused(old(self), ExprScope::Body(body), cond) matches Some(sp)
                    ==> reported(old(self).diags@, final(self).diags@, Code::E0222, sp),
                Some(Stmt::While { cond, .. }) => condition_refused(old(self), ExprScope::Body(body), cond) matches Some(sp)
                    ==> reported(old(self).diags@, final(self).diags@, Code::E0222, sp),
                Some(Stmt::Return(value, span)) => {
                    &&& value is Some && spec_body_ret(old(self)) == VOID ==> reported(
                        old(self).diags@,
                        final(self).diags@,
                        Code::E0224,
                        span,
                    )
                    &&& value is None && spec_body_ret(old(self)) != VOID && spec_body_ret(old(self)) != ERROR ==> pushed(
                        old(self).diags@,
                        final(self).diags@,
                        Code::E0224,
                        span,
                    )
                    &&& value is None && (spec_body_ret(old(self)) == VOID || spec_body_ret(old(self)) == ERROR)
                        ==> final(self).diags@ == old(self).diags@
                },
                Some(Stmt::Assign { lhs, span, .. }) => spec_expr_at(old(self).hir, ExprScope::Body(body), lhs) matches Some(
                    target,
                ) && value_only(target) ==> reported(old(self).diags@, final(self).diags@, Code::E0220, span),
                _ => true,
            },
        decreases stmt, 1nat,
    {
        let hir = self.hir;
        let scope = ExprScope::Body(body);
        let statement = match stmt_at(hir, body, stmt) {
            Some(s) => s,
            None => {
                return;
            },
        };
        proof {
            lemma_stmt_children_below(hir, body, stmt);
        }
        let ghost start = *self;
        match statement {
            Stmt::Block(stmts) => {
                let ghost names = start.interner@;
                let ghost plain = unbound(&start) && plain_stmt_diags(hir, names, start.imports@.len() == 0, body, stmt) is Some;
                proof {
                    assert(plain_stmt_diags(hir, names, start.imports@.len() == 0, body, stmt) == plain_block_diags(hir, names, start.imports@.len() == 0, body, stmts@, stmts@.len()));
                }
                let mut i: usize = 0;
                while i < stmts.len()
                    invariant
                        self.grows_from(&start),
                        start.inv(),
                        start.mode == Mode::Check,
                        self.hir == hir,
                        names == start.interner@,
                        plain == (unbound(&start) && plain_block_diags(hir, names, start.imports@.len() == 0, body, stmts@, stmts@.len()) is Some),
                        plain ==> plain_block_diags(hir, names, start.imports@.len() == 0, body, stmts@, i as nat) is Some && emitted(
                            start.diags@,
                            self.diags@,
                            plain_block_diags(hir, names, start.imports@.len() == 0, body, stmts@, i as nat)->0,
                        ),
                        plain ==> forall|b2: BodyId, l2: LocalId|
                            b2 != body ==> (self.types.local_entries().contains_key(#[trigger] local_key(b2, l2))
                                == start.types.local_entries().contains_key(local_key(b2, l2))) && (start.types.local_entries().contains_key(
                                local_key(b2, l2),
                            ) ==> self.types.local_entries()[local_key(b2, l2)] == start.types.local_entries()[local_key(
                                b2,
                                l2,
                            )]),
                        plain ==> forall|l: LocalId| #[trigger]
                            block_local_shape(hir, names, body, stmts@, i as nat, l) matches Some(sh)
                                ==> self.types.local_entries().contains_key(local_key(body, l)) && self.pool@[self.types.local_entries()[local_key(
                                body,
                                l,
                            )] as int] == sh,
                        i <= stmts@.len(),
                        forall|k: int| 0 <= k < stmts@.len() ==> stmts@[k] < stmt,
                        forall|k: int| 0 <= k < i ==> spec_stmt_tree_typed(hir, self.types, body, #[trigger] stmts@[k]),
                        unbound(&start) ==> forall|k: int| 0 <= k < i ==> spec_stmt_tree_fits(
                            hir,
                            start.interner@,
                            self.diags@,
                            body,
                            #[trigger] stmts@[k],
                        ),
                    decreases stmts@.len() - i,
                {
                    let ghost prev = *self;
                    proof {
                        if plain {
                            lemma_plain_block_prefix(hir, names, start.imports@.len() == 0, body, stmts@, stmts@.len(), i as nat);
                            lemma_plain_block_prefix(hir, names, start.imports@.len() == 0, body, stmts@, stmts@.len(), (i + 1) as nat);
                        }
                    }
                    self.check_stmt(body, stmts[i]);
                    proof {
                        lemma_grows_trans(&start, &prev, &*self);
                        if plain {
                            assert(unbound(&prev));
                            let child = stmts@[i as int];
                            assert(plain_leaf_diags(hir, names, start.imports@.len() == 0, body, child) is Some);
                            assert(plain_stmt_diags(hir, names, start.imports@.len() == 0, body, child) == plain_leaf_diags(hir, names, start.imports@.len() == 0, body, child));
                            assert(plain_block_diags(hir, names, start.imports@.len() == 0, body, stmts@, (i + 1) as nat) == Some(
                                plain_block_diags(hir, names, start.imports@.len() == 0, body, stmts@, i as nat)->0 + plain_leaf_diags(hir, names, start.imports@.len() == 0,
                                    body,
                                    child,
                                )->0,
                            ));
                            lemma_emitted_trans(
                                start.diags@,
                                prev.diags@,
                                self.diags@,
                                plain_block_diags(hir, names, start.imports@.len() == 0, body, stmts@, i as nat)->0,
                                plain_leaf_diags(hir, names, start.imports@.len() == 0, body, child)->0,
                            );
                            assert forall|b2: BodyId, l2: LocalId| b2 != body implies (self.types.local_entries().contains_key(
                                #[trigger] local_key(b2, l2),
                            ) == start.types.local_entries().contains_key(local_key(b2, l2))) && (
                            start.types.local_entries().contains_key(local_key(b2, l2)) ==> self.types.local_entries()[local_key(
                                b2,
                                l2,
                            )] == start.types.local_entries()[local_key(b2, l2)]) by {
                                match spec_stmt_at(hir, body, child) {
                                    Some(Stmt::Local(m)) => {
                                        crate::map::lemma_local_key_injective(b2, l2, body, m);
                                    },
                                    _ => {},
                                }
                            }
                            assert forall|l: LocalId| #[trigger]
                                block_local_shape(hir, names, body, stmts@, (i + 1) as nat, l) is Some
                                    implies self.types.local_entries().contains_key(local_key(body, l)) && self.pool@[self.types.local_entries()[local_key(
                                    body,
                                    l,
                                )] as int] == block_local_shape(hir, names, body, stmts@, (i + 1) as nat, l)->0 by {
                                if spec_stmt_at(hir, body, child) == Some(Stmt::Local(l)) {
                                } else {
                                    assert(block_local_shape(hir, names, body, stmts@, (i + 1) as nat, l) == block_local_shape(
                                        hir,
                                        names,
                                        body,
                                        stmts@,
                                        i as nat,
                                        l,
                                    ));
                                    let key = local_key(body, l);
                                    assert(prev.types.local_entries().contains_key(key));
                                    match spec_stmt_at(hir, body, child) {
                                        Some(Stmt::Local(m)) => {
                                            crate::map::lemma_local_key_injective(body, l, body, m);
                                        },
                                        _ => {},
                                    }
                                    assert(self.types.local_entries()[key] == prev.types.local_entries()[key]);
                                    assert(prev.types.local_entries()[key] < prev.pool@.len());
                                }
                            }
                        }
                        if unbound(&start) {
                            assert(unbound(&prev));
                            assert forall|k: int| 0 <= k < i + 1 implies spec_stmt_tree_fits(
                                hir,
                                start.interner@,
                                self.diags@,
                                body,
                                #[trigger] stmts@[k],
                            ) by {
                                if k < i {
                                    lemma_stmt_tree_fits_kept(hir, start.interner@, prev.diags@, self.diags@, body, stmts@[k]);
                                }
                            }
                        }
                        assert forall|k: int| 0 <= k < i + 1 implies spec_stmt_tree_typed(hir, self.types, body, #[trigger] stmts@[k]) by {
                            if k < i {
                                lemma_stmt_tree_typed_grows(hir, prev.types, self.types, body, stmts@[k]);
                            }
                        }
                    }
                    i = i + 1;
                }
            },
            Stmt::Local(local) => self.check_local(body, *local),
            Stmt::Discard(value) => {
                self.check_expr(scope, *value, None);
            },
            Stmt::Expr(value) => {
                self.check_expr(scope, *value, None);
                let ghost mid = *self;
                self.check_must_received(scope, *value);
                proof {
                    lemma_grows_trans(&start, &mid, &*self);
                }
            },
            Stmt::Assign { lhs, op, rhs, span } => self.check_assign(scope, *lhs, *op, *rhs, *span),
            Stmt::If { cond, then, else_ } => {
                self.check_condition(scope, *cond, false);
                let ghost mid = *self;
                self.check_stmt(body, *then);
                proof {
                    lemma_grows_trans(&start, &mid, &*self);
                    match condition_refused(&start, scope, *cond) {
                        Some(sp) => lemma_reported_kept(start.diags@, mid.diags@, self.diags@, Code::E0222, sp),
                        None => {},
                    }
                }
                match else_ {
                    Some(branch) => {
                        let ghost mid2 = *self;
                        self.check_stmt(body, *branch);
                        proof {
                            lemma_grows_trans(&start, &mid2, &*self);
                            match condition_refused(&start, scope, *cond) {
                                Some(sp) => lemma_reported_kept(start.diags@, mid2.diags@, self.diags@, Code::E0222, sp),
                                None => {},
                            }
                            lemma_stmt_tree_typed_grows(hir, mid2.types, self.types, body, *then);
                            if unbound(&start) {
                                assert(unbound(&mid));
                                assert(unbound(&mid2));
                                lemma_stmt_tree_fits_kept(hir, start.interner@, mid2.diags@, self.diags@, body, *then);
                            }
                        }
                    },
                    None => {},
                }
            },
            Stmt::While { cond, body: loop_body } => {
                self.check_condition(scope, *cond, true);
                let ghost mid = *self;
                self.check_stmt(body, *loop_body);
                proof {
                    lemma_grows_trans(&start, &mid, &*self);
                    match condition_refused(&start, scope, *cond) {
                        Some(sp) => lemma_reported_kept(start.diags@, mid.diags@, self.diags@, Code::E0222, sp),
                        None => {},
                    }
                }
            },
            Stmt::Switch { value, arms, span } => {
                let scrutinee = self.check_expr(scope, *value, None);
                let ghost mid = *self;
                self.check_switch(body, stmt, scrutinee, arms, *span);
                proof {
                    lemma_grows_trans(&start, &mid, &*self);
                }
            },
            Stmt::Return(value, span) => {
                self.check_return(scope, *value, *span);
                proof {
                    if value.is_some() && spec_body_ret(&start) == VOID {
                        let k = self.diags@.len() - 1;
                        assert(self.diags@[k].code == Code::E0224);
                        assert(reported(start.diags@, self.diags@, Code::E0224, *span));
                    }
                }
            },
            Stmt::ReturnTuple(values, span) => self.check_return_tuple(scope, values, *span),
            Stmt::LocalTuple { targets, call, span } => self.check_local_tuple(body, targets, *call, *span),
            Stmt::AssignTuple { targets, call, span } => self.check_assign_tuple(scope, targets, *call, *span),
            Stmt::For { value, index, iterable, body: loop_body, span } => {
                self.check_for(body, *value, *index, iterable, *span);
                let ghost mid = *self;
                self.check_stmt(body, *loop_body);
                proof {
                    lemma_grows_trans(&start, &mid, &*self);
                }
            },
            Stmt::Break | Stmt::Continue | Stmt::Error => {},
        }
    }

    /// The result types a destructuring statement of `want` targets receives from `call`:
    /// one per target, poison for each when the call does not return exactly that many
    /// results (E0251). Both destructuring statements ask this, so they cannot disagree
    /// about how many results a call has.
    pub fn destructured_results(&mut self, scope: ExprScope, call: ExprId, want: usize, span: Span) -> (r: Vec<PoolId>)
        requires
            old(self).inv(),
        ensures
            final(self).grows_from(old(self)),
            final(self).types.spec_expr_type(scope, call) is Some,
            r@.len() == want,
            forall|k: int| 0 <= k < r@.len() ==> r@[k] < final(self).pool@.len(),
            r@ == spec_destructured(
                final(self).pool@,
                final(self).types.spec_expr_type(scope, call)->0,
                want as nat,
            ),
            destructuring_refused(final(self).pool@, final(self).types.spec_expr_type(scope, call)->0, want as nat)
                ==> final(self).diags@.len() > 0 && final(self).diags@.last().code == Code::E0251
                && final(self).diags@.last().span == span,
    {
        let ghost start = *self;
        let ty = self.check_expr(scope, call, None);
        let ghost mid = *self;
        let r = self.decide_destructuring(ty, want, span);
        proof {
            lemma_grows_trans(&start, &mid, &*self);
            assert(self.pool@[ty as int] == mid.pool@[ty as int]);
        }
        r
    }

    /// Checks `a, _ := f();`: each named local takes the result in its position, and
    /// every one takes poison when the call does not return exactly that many results
    /// (E0251).
    pub fn check_local_tuple(&mut self, body: BodyId, targets: &Vec<Option<LocalId>>, call: ExprId, span: Span)
        requires
            old(self).inv(),
        ensures
            final(self).grows_from(old(self)),
            final(self).types.spec_expr_type(ExprScope::Body(body), call) is Some,
            forall|k: int| 0 <= k < targets@.len() ==> (#[trigger] targets@[k] matches Some(l)
                ==> final(self).locals.view().contains_key(local_key(body, l))),
    {
        let scope = ExprScope::Body(body);
        let ghost start = *self;
        let results = self.destructured_results(scope, call, targets.len(), span);
        let ghost first = *self;
        let mut k: usize = 0;
        while k < targets.len()
            invariant
                self.grows_from(&first),
                first.grows_from(&start),
                start.inv(),
                k <= targets@.len(),
                results@.len() == targets@.len(),
                forall|j: int| 0 <= j < results@.len() ==> results@[j] < self.pool@.len(),
                self.types.spec_expr_type(scope, call) is Some,
                forall|j: int| 0 <= j < k ==> (#[trigger] targets@[j] matches Some(l)
                    ==> self.locals.view().contains_key(local_key(body, l))),
            decreases targets@.len() - k,
        {
            match targets[k] {
                Some(local) => {
                    let ghost prev = *self;
                    self.record_local(body, local, results[k]);
                    proof {
                        lemma_grows_trans(&first, &prev, &*self);
                        assert(self.types.expr_entries() == prev.types.expr_entries());
                    }
                },
                None => {},
            }
            k = k + 1;
        }
        proof {
            lemma_grows_trans(&start, &first, &*self);
        }
    }

    /// Checks `a, _ = f();`: each present target must be assignable (E0251) and accept
    /// the result in its position; every result is poison when the call does not return
    /// exactly that many (E0251).
    pub fn check_assign_tuple(&mut self, scope: ExprScope, targets: &Vec<Option<ExprId>>, call: ExprId, span: Span)
        requires
            old(self).inv(),
        ensures
            final(self).grows_from(old(self)),
            final(self).types.spec_expr_type(scope, call) is Some,
    {
        let ghost start = *self;
        let results = self.destructured_results(scope, call, targets.len(), span);
        let ghost first = *self;
        let mut k: usize = 0;
        while k < targets.len()
            invariant
                self.grows_from(&first),
                first.grows_from(&start),
                start.inv(),
                k <= targets@.len(),
                results@.len() == targets@.len(),
                forall|j: int| 0 <= j < results@.len() ==> results@[j] < self.pool@.len(),
                self.types.spec_expr_type(scope, call) is Some,
            decreases targets@.len() - k,
        {
            match targets[k] {
                Some(target) => {
                    let ghost prev = *self;
                    let target_ty = self.check_expr(scope, target, None);
                    let ghost typed = *self;
                    let place = self.is_place(scope, target);
                    let ghost judged = *self;
                    if !place {
                        let text = self.describe(target_ty);
                        let message = concat3("cannot assign to this `", text.as_str(), "` target");
                        let note = "each target of a destructuring assignment must be assignable".to_owned();
                        self.report_with_note(Code::E0251, span, message, note);
                    } else {
                        self.expect(Some(target_ty), results[k], span);
                    }
                    proof {
                        lemma_grows_trans(&prev, &typed, &judged);
                        lemma_grows_trans(&prev, &judged, &*self);
                        lemma_grows_trans(&first, &prev, &*self);
                    }
                },
                None => {},
            }
            k = k + 1;
        }
        proof {
            lemma_grows_trans(&start, &first, &*self);
        }
    }

    /// Checks `return a, b;` against the procedure's results: each value against the
    /// result in its position when the counts agree, and E0251, every value typed on
    /// its own, when the procedure does not return that many results.
    pub fn check_return_tuple(&mut self, scope: ExprScope, values: &Vec<ExprId>, span: Span)
        requires
            old(self).inv(),
        ensures
            final(self).grows_from(old(self)),
            forall|k: int| 0 <= k < values@.len() ==> final(self).types.spec_expr_type(scope, #[trigger] values@[k]) is Some,
            !(old(self).pool@[spec_body_ret(old(self)) as int] matches Shape::Results { elems } && elems.len() == values@.len())
                ==> final(self).diags@.len() > 0 && final(self).diags@.last().code == Code::E0251
                && final(self).diags@.last().span == span,
    {
        let ghost start = *self;
        let ret = match &self.body {
            Some(b) => b.ret,
            None => ERROR,
        };
        proof {
            assert(crate::pool::well_known_prefix(self.pool@));
            assert(crate::pool::refers_below(self.pool@[ret as int], ret as int));
        }
        let declared = match self.pool.item(ret) {
            TypeItem::ResultsType { elems } => Some(copy_ids(elems)),
            _ => None,
        };
        proof {
            if declared is Some {
                let sh = self.pool@[ret as int];
                assert(sh->elems == declared->0@);
                assert forall|j: int| 0 <= j < declared->0@.len() implies declared->0@[j] < self.pool@.len() by {
                    assert(sh->elems[j] < ret as int);
                }
            }
        }
        let matching = match &declared {
            Some(elems) => elems.len() == values.len(),
            None => false,
        };
        let ghost first = *self;
        let mut k: usize = 0;
        while k < values.len()
            invariant
                self.grows_from(&first),
                first.grows_from(&start),
                start.inv(),
                k <= values@.len(),
                matching ==> (declared matches Some(elems) && elems@.len() == values@.len()
                    && forall|j: int| 0 <= j < elems@.len() ==> elems@[j] < self.pool@.len()),
                forall|j: int| 0 <= j < k ==> self.types.spec_expr_type(scope, #[trigger] values@[j]) is Some,
            decreases values@.len() - k,
        {
            let want = if matching {
                match &declared {
                    Some(elems) => Some(elems[k]),
                    None => None,
                }
            } else {
                None
            };
            let ghost prev = *self;
            self.check_expr(scope, values[k], want);
            proof {
                lemma_grows_trans(&first, &prev, &*self);
                assert forall|j: int| 0 <= j < k + 1 implies self.types.spec_expr_type(scope, #[trigger] values@[j]) is Some by {
                    if j < k {
                        assert(prev.types.spec_expr_type(scope, values@[j]) is Some);
                    }
                }
            }
            k = k + 1;
        }
        proof {
            lemma_grows_trans(&start, &first, &*self);
        }
        if !matching {
            let text = self.describe(ret);
            let mut message = "this `return` gives ".to_owned();
            push_digits(&mut message, values.len() as u128);
            match &declared {
                Some(elems) => {
                    message.append(" values, but `");
                    message.append(text.as_str());
                    message.append("` declares ");
                    push_digits(&mut message, elems.len() as u128);
                    self.report(Code::E0251, span, message);
                },
                None => {
                    message.append(" values, but the procedure returns `");
                    message.append(text.as_str());
                    message.append("`");
                    let note = "declare several results as `-> (T, U)` to return several values".to_owned();
                    self.report_with_note(Code::E0251, span, message, note);
                },
            }
        }
    }

    /// Types what a `for` iterates and binds its locals, before its body is checked: the
    /// value local has the element type of an array or a view, pointers followed, or
    /// `s64` over a range whose ends are integers, taken as `s64` where they are literals
    /// (E0247 for anything else); the index local is an `s64`.
    pub fn check_for(&mut self, body: BodyId, value: LocalId, index: Option<LocalId>, iterable: &ForIterable, span: Span)
        requires
            old(self).inv(),
            old(self).mode == Mode::Check,
        ensures
            final(self).grows_from(old(self)),
            final(self).locals.view().contains_key(local_key(body, value)),
            iterable is Range ==> final(self).locals.view()[local_key(body, value)] == S64,
            index matches Some(i) ==> final(self).locals.view().contains_key(local_key(body, i))
                && final(self).locals.view()[local_key(body, i)] == S64,
            final(self).types.local_entries().contains_key(local_key(body, value)),
            match *iterable {
                ForIterable::Sequence(e) => final(self).types.spec_expr_type(ExprScope::Body(body), e) is Some,
                ForIterable::Range { start, end } => final(self).types.spec_expr_type(ExprScope::Body(body), start) is Some
                    && final(self).types.spec_expr_type(ExprScope::Body(body), end) is Some,
            },
            match *iterable {
                ForIterable::Range { start, end } => {
                    &&& match spec_expr_at(old(self).hir, ExprScope::Body(body), start) {
                        Some(x) => match crate::typing::literal_against(old(self).pool@, x, S64) {
                            Some((code, sp)) => reported(old(self).diags@, final(self).diags@, code, sp),
                            None => true,
                        },
                        None => true,
                    }
                    &&& match spec_expr_at(old(self).hir, ExprScope::Body(body), end) {
                        Some(x) => match crate::typing::literal_against(old(self).pool@, x, S64) {
                            Some((code, sp)) => reported(old(self).diags@, final(self).diags@, code, sp),
                            None => true,
                        },
                        None => true,
                    }
                },
                _ => true,
            },
    {
        let scope = ExprScope::Body(body);
        let ghost start = *self;
        let element = match iterable {
            ForIterable::Sequence(expr) => {
                let seq = self.check_expr(scope, *expr, None);
                let stripped = self.strip_pointers(seq);
                let ghost mid = *self;
                let element = self.decide_iteration(stripped, span);
                proof {
                    lemma_grows_trans(&start, &mid, &*self);
                }
                element
            },
            ForIterable::Range { start: first, end: last } => {
                let s = self.check_expr(scope, *first, Some(S64));
                let ghost after_start = *self;
                let e = self.check_expr(scope, *last, Some(S64));
                let ghost after_end = *self;
                self.check_range_end(s, "start", span);
                let ghost after_first = *self;
                self.check_range_end(e, "end", span);
                proof {
                    lemma_grows_trans(&start, &after_start, &after_end);
                    lemma_grows_trans(&start, &after_end, &after_first);
                    lemma_grows_trans(&start, &after_first, &*self);
                    assert(crate::pool::well_known_prefix(start.pool@));
                    match spec_expr_at(start.hir, scope, *first) {
                        Some(x) => match crate::typing::literal_against(start.pool@, x, S64) {
                            Some((code, sp)) => {
                                lemma_reported_kept(start.diags@, after_start.diags@, self.diags@, code, sp);
                            },
                            None => {},
                        },
                        None => {},
                    }
                    match spec_expr_at(start.hir, scope, *last) {
                        Some(x) => {
                            assert(after_start.pool@[S64 as int] == start.pool@[S64 as int]);
                            assert(crate::typing::literal_against(after_start.pool@, x, S64) == crate::typing::literal_against(
                                start.pool@,
                                x,
                                S64,
                            ));
                            match crate::typing::literal_against(start.pool@, x, S64) {
                                Some((code, sp)) => {
                                    lemma_reported_kept(after_start.diags@, after_end.diags@, self.diags@, code, sp);
                                    lemma_reported_kept(start.diags@, after_start.diags@, self.diags@, code, sp);
                                },
                                None => {},
                            }
                        },
                        None => {},
                    }
                }
                S64
            },
        };
        proof {
            assert(crate::pool::well_known_prefix(self.pool@));
        }
        let ghost before_value = *self;
        self.record_local(body, value, element);
        match index {
            Some(i) => {
                let ghost before_index = *self;
                self.record_local(body, i, S64);
                proof {
                    lemma_grows_trans(&before_value, &before_index, &*self);
                }
            },
            None => {},
        }
        proof {
            lemma_grows_trans(&start, &before_value, &*self);
        }
    }


    /// Checks a `switch` whose scrutinee has type `scrutinee`: every `case` value against
    /// it, every arm's statement, and the arms as a whole. A second `else`, and a case
    /// whose value an earlier case already handles — an integer written twice, or an enum
    /// member of a value an earlier member already covers — are E0259; on an enum, a value
    /// left unhandled with no `else` is E0258, and an `else` after every value is handled
    /// is E0260.
    /// Checks one `case` value of a `switch` against `want`, the scrutinee's type when
    /// it is not poison.
    pub fn check_case_value(&mut self, scope: ExprScope, case: ExprId, want: Option<PoolId>)
        requires
            old(self).inv(),
            want matches Some(w) ==> w < old(self).pool@.len(),
        ensures
            final(self).grows_from(old(self)),
            final(self).types.spec_expr_type(scope, case) is Some,
            want matches Some(w) ==> (spec_expr_at(old(self).hir, scope, case) matches Some(e) ==> (
            crate::typing::literal_against(old(self).pool@, e, w) matches Some((code, sp)) ==> reported(
                old(self).diags@,
                final(self).diags@,
                code,
                sp,
            ))),
            spec_expr_at(old(self).hir, scope, case) matches Some(Expr::Member { name, name_span, .. }) ==> match want {
                None => true,
                Some(t) => if t == ERROR {
                    true
                } else {
                    match old(self).pool@[t as int] {
                        Shape::Enum { decl, .. } => if crate::scope::spec_member_known(old(self).pool.members_of(decl), name) {
                            final(self).diags@ == old(self).diags@
                        } else {
                            pushed(old(self).diags@, final(self).diags@, Code::E0238, name_span)
                        },
                        _ => true,
                    }
                },
            },
    {
        self.check_expr(scope, case, want);
    }

    #[verifier::rlimit(100)]
    pub fn check_switch(&mut self, body: BodyId, stmt: StmtId, scrutinee: PoolId, arms: &'a Vec<SwitchArm>, span: Span)
        requires
            old(self).inv(),
            old(self).mode == Mode::Check,
            scrutinee < old(self).pool@.len(),
            forall|k: int| 0 <= k < arms@.len() ==> arms@[k].body < stmt,
        ensures
            final(self).grows_from(old(self)),
            forall|k: int| 0 <= k < arms@.len() ==> spec_stmt_tree_typed(final(self).hir, final(self).types, body, (
            #[trigger] arms@[k]).body) && case_typed(final(self).types, body, arms@[k]),
            unbound(old(self)) ==> forall|k: int| 0 <= k < arms@.len() ==> spec_stmt_tree_fits(
                old(self).hir,
                old(self).interner@,
                final(self).diags@,
                body,
                (#[trigger] arms@[k]).body,
            ),
            forall|k: int| 0 <= k < arms@.len() && duplicate_case(old(self).hir, old(self).pool, body, scrutinee, arms@, k)
                ==> reported(old(self).diags@, final(self).diags@, Code::E0259, (#[trigger] arms@[k]).span),
            enum_members_of(old(self).pool, scrutinee) is Some ==> ({
                let members = enum_members_of(old(self).pool, scrutinee)->0;
                let handled = case_values(old(self).hir, body, arms@, members);
                let all = forall|k: int| 0 <= k < members.len() ==> handled.contains(#[trigger] members[k].1);
                &&& !all && !has_else(arms@) ==> final(self).diags@.len() > old(self).diags@.len()
                    && final(self).diags@.last().code == Code::E0258 && final(self).diags@.last().span == span
                &&& all && has_else(arms@) ==> final(self).diags@.len() > old(self).diags@.len()
                    && final(self).diags@.last().code == Code::E0260
            }),
            forall|k: int| 0 <= k < arms@.len() && scrutinee != ERROR ==> ((#[trigger] arms@[k]).value matches Some(c)
                ==> (spec_expr_at(old(self).hir, ExprScope::Body(body), c) matches Some(e) ==> (crate::typing::literal_against(
                old(self).pool@,
                e,
                scrutinee,
            ) matches Some((code, sp)) ==> reported(old(self).diags@, final(self).diags@, code, sp)))),
            unbound(old(self)) && enum_members_of(old(self).pool, scrutinee) is Some ==> (plain_arms_diags(
                old(self).hir,
                old(self).interner@,
                old(self).imports@.len() == 0,
                old(self).pool,
                body,
                scrutinee,
                arms@,
                arms@.len(),
            ) matches Some(d) ==> emitted(
                old(self).diags@,
                final(self).diags@,
                d + switch_verdict(old(self).hir, old(self).pool, body, scrutinee, arms@, span),
            )),
        decreases stmt, 0nat,
    {
        let scope = ExprScope::Body(body);
        let hir = self.hir;
        let ghost start = *self;
        let enum_decl = match self.pool.item(scrutinee) {
            TypeItem::EnumType { decl, flags } => Some((*decl, *flags)),
            _ => None,
        };
        let is_int = self.pool.int_info(scrutinee).is_some();
        let ghost members = enum_members_of(start.pool, scrutinee);
        let ghost names = start.interner@;
        let ghost no_imports = start.imports@.len() == 0;
        let ghost plain = unbound(&start) && members is Some && plain_arms_diags(
            hir,
            names,
            no_imports,
            start.pool,
            body,
            scrutinee,
            arms@,
            arms@.len(),
        ) is Some;
        let mut seen: Vec<i64> = Vec::new();
        let mut seen_ints: Vec<i128> = Vec::new();
        let mut seen_else: Option<Span> = None;
        let mut i: usize = 0;
        while i < arms.len()
            invariant
                self.grows_from(&start),
                start.inv(),
                start.mode == Mode::Check,
                self.hir == hir,
                i <= arms@.len(),
                forall|k: int| 0 <= k < arms@.len() ==> arms@[k].body < stmt,
                forall|d: DeclId| #[trigger] self.pool.members_of(d) == start.pool.members_of(d),
                members is Some ==> seen@ == case_values(hir, body, arms@.subrange(0, i as int), members->0),
                seen_else is Some <==> has_else(arms@.subrange(0, i as int)),
                scrutinee < self.pool@.len(),
                enum_decl == (match start.pool@[scrutinee as int] {
                    Shape::Enum { decl, flags } => Some((decl, flags)),
                    _ => None,
                }),
                members == enum_members_of(start.pool, scrutinee),
                scope == ExprScope::Body(body),
                names == start.interner@,
                no_imports == (start.imports@.len() == 0),
                scrutinee < start.pool@.len(),
                forall|k: int| 0 <= k < i && scrutinee != ERROR ==> ((#[trigger] arms@[k]).value matches Some(c)
                    ==> (spec_expr_at(hir, ExprScope::Body(body), c) matches Some(e) ==> (crate::typing::literal_against(
                    start.pool@,
                    e,
                    scrutinee,
                ) matches Some((code, sp)) ==> reported(start.diags@, self.diags@, code, sp)))),
                plain == (unbound(&start) && members is Some && plain_arms_diags(
                    hir,
                    names,
                    no_imports,
                    start.pool,
                    body,
                    scrutinee,
                    arms@,
                    arms@.len(),
                ) is Some),
                seen_else == first_else_span(arms@.subrange(0, i as int)),
                plain ==> plain_arms_diags(hir, names, no_imports, start.pool, body, scrutinee, arms@, i as nat) is Some
                    && emitted(
                    start.diags@,
                    self.diags@,
                    plain_arms_diags(hir, names, no_imports, start.pool, body, scrutinee, arms@, i as nat)->0,
                ),
                unbound(&start) ==> forall|k: int| 0 <= k < i ==> spec_stmt_tree_fits(
                    hir,
                    start.interner@,
                    self.diags@,
                    body,
                    (#[trigger] arms@[k]).body,
                ),
                is_int == (spec_int_info(start.pool@, scrutinee) is Some),
                enum_decl is None && is_int ==> seen_ints@ == int_case_values(hir, body, arms@.subrange(0, i as int)),
                forall|k: int| 0 <= k < i && duplicate_case(hir, start.pool, body, scrutinee, arms@, k) ==> reported(
                    start.diags@,
                    self.diags@,
                    Code::E0259,
                    (#[trigger] arms@[k]).span,
                ),
                forall|k: int| 0 <= k < i ==> spec_stmt_tree_typed(hir, self.types, body, (#[trigger] arms@[k]).body) && case_typed(
                    self.types,
                    body,
                    arms@[k],
                ),
            decreases arms@.len() - i,
        {
            let arm = &arms[i];
            let ghost before = *self;
            let ghost done = arms@.subrange(0, i as int);
            let ghost next = arms@.subrange(0, i + 1);
            proof {
                assert(next.drop_last() =~= done);
                assert(next.last() == arms@[i as int]);
                assert(arms@[i as int] == *arm);
            }
            let ghost mut flagged = false;
            let ghost mut valued = before;
            proof {
                if plain {
                    lemma_plain_arms_prefix(hir, names, no_imports, start.pool, body, scrutinee, arms@, arms@.len(), (i + 1) as nat);
                }
            }
            match arm.value {
                None => {
                    if seen_else.is_some() {
                        let mut notes: Vec<String> = Vec::new();
                        notes.push("a second catch-all can never run".to_owned());
                        self.report_full(Code::E0259, arm.span, "this `switch` already has an `else`".to_owned(), notes, None);
                        proof {
                            flagged = true;
                            assert(self.diags@[before.diags@.len() as int].code == Code::E0259);
                            assert(reported(before.diags@, self.diags@, Code::E0259, arm.span));
                        }
                    }
                    if seen_else.is_none() {
                        seen_else = Some(arm.span);
                    }
                },
                Some(case) => {
                    let want = if scrutinee != ERROR {
                        Some(scrutinee)
                    } else {
                        None
                    };
                    self.check_case_value(scope, case, want);
                    let ghost typed_case = *self;
                    proof {
                        if scrutinee != ERROR {
                            assert(pool_extends(start.pool@, before.pool@));
                            assert(before.pool@[scrutinee as int] == start.pool@[scrutinee as int]);
                            assert(crate::pool::well_known_prefix(start.pool@));
                            match spec_expr_at(hir, scope, case) {
                                Some(e) => {
                                    assert(crate::typing::literal_against(before.pool@, e, scrutinee)
                                        == crate::typing::literal_against(start.pool@, e, scrutinee));
                                },
                                None => {},
                            }
                        }
                    }
                    proof {
                        valued = typed_case;
                    }
                    match enum_decl {
                        Some((decl, _)) => match case_member_name(hir, body, case) {
                            Some(name) => match self.pool.member_value(decl, name) {
                                Some(value) => {
                                    if contains_value(&seen, value) {
                                        let text = self.interner.text(name);
                                        let message = concat3("`", text, "` is already handled by an earlier `case`");
                                        let mut notes: Vec<String> = Vec::new();
                                        notes.push("a duplicate case can never run".to_owned());
                                        let ghost pre = *self;
                                        self.report_full(Code::E0259, arm.span, message, notes, None);
                                        proof {
                                            flagged = true;
                                            assert(self.diags@[pre.diags@.len() as int].code == Code::E0259);
                                            assert(reported(pre.diags@, self.diags@, Code::E0259, arm.span));
                                            lemma_reported_kept(before.diags@, pre.diags@, self.diags@, Code::E0259, arm.span);
                                        }
                                    }
                                    seen.push(value);
                                },
                                None => {},
                            },
                            None => {},
                        },
                        None => {
                            if is_int {
                                match case_int_literal(hir, body, case) {
                                    Some(value) => {
                                        if contains_int(&seen_ints, value) {
                                            let mut message = "`".to_owned();
                                            if value > i128::MIN {
                                                push_decimal(&mut message, value);
                                            }
                                            message.append("` is already handled by an earlier `case`");
                                            let mut notes: Vec<String> = Vec::new();
                                            notes.push("a duplicate case can never run".to_owned());
                                            let ghost pre = *self;
                                            self.report_full(Code::E0259, arm.span, message, notes, None);
                                            proof {
                                                flagged = true;
                                                assert(self.diags@[pre.diags@.len() as int].code == Code::E0259);
                                                assert(reported(pre.diags@, self.diags@, Code::E0259, arm.span));
                                                lemma_reported_kept(before.diags@, pre.diags@, self.diags@, Code::E0259, arm.span);
                                            }
                                        }
                                        seen_ints.push(value);
                                    },
                                    None => {},
                                }
                            }
                        },
                    }
                    proof {
                        assert(typed_case.types.spec_expr_type(scope, case) is Some);
                        assert(self.types == typed_case.types);
                    }
                },
            }
            proof {
                match arm.value {
                    Some(c) => {
                        assert(self.types.spec_expr_type(scope, c) is Some);
                    },
                    None => {},
                }
            }
            proof {
                if duplicate_case(hir, start.pool, body, scrutinee, arms@, i as int) {
                    assert(flagged);
                    assert(reported(before.diags@, self.diags@, Code::E0259, arm.span));
                }
                if enum_decl is None && is_int {
                    assert(int_case_values(hir, body, next) == seen_ints@);
                }
            }
            let ghost mid = *self;
            proof {
                if plain {
                    let dup: Seq<(Code, Span)> = if duplicate_case(hir, start.pool, body, scrutinee, arms@, i as int) {
                        seq![(Code::E0259, arm.span)]
                    } else {
                        Seq::empty()
                    };
                    assert(flagged == duplicate_case(hir, start.pool, body, scrutinee, arms@, i as int));
                    assert(emitted(valued.diags@, mid.diags@, dup));
                }
            }
            proof {
                assert(scope == ExprScope::Body(body));
                match arm.value {
                    Some(c) => {
                        assert(mid.types.spec_expr_type(ExprScope::Body(body), c) is Some);
                    },
                    None => {},
                }
                assert(case_typed(mid.types, body, *arm));
            }
            self.check_stmt(body, arm.body);
            proof {
                assert(case_typed(self.types, body, *arm)) by {
                    match arm.value {
                        Some(c) => {
                            assert(mid.types.spec_expr_type(ExprScope::Body(body), c) is Some);
                            assert(mid.types.expr_entries().contains_key(crate::map::expr_key(ExprScope::Body(body), c)));
                        },
                        None => {},
                    }
                }
            }
            proof {
                lemma_grows_trans(&start, &before, &mid);
                lemma_grows_trans(&start, &mid, &*self);
                lemma_grows_trans(&before, &mid, &*self);
                assert forall|k: int| 0 <= k < i + 1 implies spec_stmt_tree_typed(hir, self.types, body, (
                #[trigger] arms@[k]).body) by {
                    if k < i {
                        lemma_stmt_tree_typed_grows(hir, before.types, self.types, body, arms@[k].body);
                    }
                }
                assert forall|k: int| 0 <= k < i + 1 && duplicate_case(hir, start.pool, body, scrutinee, arms@, k) implies reported(
                    start.diags@,
                    self.diags@,
                    Code::E0259,
                    (#[trigger] arms@[k]).span,
                ) by {
                    if k < i {
                        lemma_reported_kept(start.diags@, before.diags@, self.diags@, Code::E0259, arms@[k].span);
                    } else {
                        assert(k == i);
                        assert(arms@[k] == *arm);
                        lemma_reported_kept(before.diags@, mid.diags@, self.diags@, Code::E0259, arm.span);
                        lemma_reported_kept(start.diags@, before.diags@, self.diags@, Code::E0259, arm.span);
                    }
                }
                if unbound(&start) {
                    assert(unbound(&mid));
                    assert forall|k: int| 0 <= k < i + 1 implies spec_stmt_tree_fits(
                        hir,
                        start.interner@,
                        self.diags@,
                        body,
                        (#[trigger] arms@[k]).body,
                    ) by {
                        if k < i {
                            lemma_stmt_tree_fits_kept(hir, start.interner@, before.diags@, self.diags@, body, arms@[k].body);
                        } else {
                            assert(arms@[k] == *arm);
                        }
                    }
                }
                assert forall|k: int| 0 <= k < i + 1 implies case_typed(self.types, body, #[trigger] arms@[k]) by {
                    if k < i {
                        assert(case_typed(before.types, body, arms@[k]));
                        match arms@[k].value {
                            Some(c) => {
                                assert(before.types.spec_expr_type(ExprScope::Body(body), c) is Some);
                                assert(before.types.expr_entries().contains_key(crate::map::expr_key(ExprScope::Body(body), c)));
                            },
                            None => {},
                        }
                    } else {
                        assert(k == i);
                        assert(arms@[k] == *arm);
                    }
                }
                let done = arms@.subrange(0, i as int);
                let next = arms@.subrange(0, i + 1);
                assert(next.drop_last() == done);
                assert(next.last() == arms@[i as int]);
                if has_else(done) {
                    let k = choose|k: int| 0 <= k < done.len() && (#[trigger] done[k]).value is None;
                    assert(next[k] == done[k]);
                }
                if has_else(next) && arm.value is Some {
                    let k = choose|k: int| 0 <= k < next.len() && (#[trigger] next[k]).value is None;
                    assert(done[k] == next[k]);
                }
                if arm.value is None {
                    assert(next[i as int].value is None);
                }
                assert forall|k: int| 0 <= k < i + 1 && scrutinee != ERROR implies ((#[trigger] arms@[k]).value matches Some(c)
                    ==> (spec_expr_at(hir, ExprScope::Body(body), c) matches Some(e) ==> (crate::typing::literal_against(
                    start.pool@,
                    e,
                    scrutinee,
                ) matches Some((code, sp)) ==> reported(start.diags@, self.diags@, code, sp)))) by {
                    match arms@[k].value {
                        Some(c) => match spec_expr_at(hir, ExprScope::Body(body), c) {
                            Some(e) => match crate::typing::literal_against(start.pool@, e, scrutinee) {
                                Some((code, sp)) => {
                                    if k < i {
                                        lemma_reported_kept(start.diags@, before.diags@, self.diags@, code, sp);
                                    } else {
                                        assert(arms@[k] == *arm);
                                        assert(reported(before.diags@, valued.diags@, code, sp));
                                        lemma_reported_kept(before.diags@, valued.diags@, self.diags@, code, sp);
                                        lemma_reported_kept(start.diags@, before.diags@, self.diags@, code, sp);
                                    }
                                },
                                None => {},
                            },
                            None => {},
                        },
                        None => {},
                    }
                }
                if plain {
                    let ai = plain_arms_diags(hir, names, no_imports, start.pool, body, scrutinee, arms@, i as nat)->0;
                    let arm_d = plain_arm_diags(hir, names, no_imports, start.pool, body, scrutinee, arms@, i as int)->0;
                    let dup: Seq<(Code, Span)> = if duplicate_case(hir, start.pool, body, scrutinee, arms@, i as int) {
                        seq![(Code::E0259, arm.span)]
                    } else {
                        Seq::empty()
                    };
                    let v: Seq<(Code, Span)> = match arm.value {
                        None => Seq::empty(),
                        Some(c) => match spec_expr_at(hir, ExprScope::Body(body), c) {
                            Some(Expr::Member { name, name_span, .. }) => if crate::scope::spec_member_known(
                                start.pool.members_of((enum_decl->0).0),
                                name,
                            ) {
                                Seq::empty()
                            } else {
                                seq![(Code::E0238, name_span)]
                            },
                            _ => Seq::empty(),
                        },
                    };
                    let b = plain_stmt_diags(hir, names, no_imports, body, arm.body)->0;
                    assert(crate::pool::well_known_prefix(start.pool@));
                    assert(scrutinee != ERROR);
                    assert(pool_extends(start.pool@, before.pool@));
                    assert(before.pool@[scrutinee as int] == start.pool@[scrutinee as int]);
                    assert(emitted(before.diags@, valued.diags@, v));
                    assert(unbound(&mid));
                    assert(emitted(mid.diags@, self.diags@, b));
                    lemma_emitted_trans(before.diags@, valued.diags@, mid.diags@, v, dup);
                    lemma_emitted_trans(before.diags@, mid.diags@, self.diags@, v + dup, b);
                    assert(arm_d == v + dup + b);
                    lemma_emitted_trans(start.diags@, before.diags@, self.diags@, ai, arm_d);
                    assert(plain_arms_diags(hir, names, no_imports, start.pool, body, scrutinee, arms@, (i + 1) as nat)
                        == Some(ai + arm_d));
                }
            }
            i = i + 1;
        }
        proof {
            assert(arms@.subrange(0, arms@.len() as int) == arms@);
        }
        let ghost looped = *self;
        match enum_decl {
            Some((decl, flags)) => {
                let list = match self.pool.member_list(decl) {
                    Some(list) => list,
                    None => {
                        return;
                    },
                };
                let mut missing = String::new();
                let mut listed: Vec<i64> = Vec::new();
                let mut k: usize = 0;
                while k < list.len()
                    invariant
                        k <= list@.len(),
                        listed@.len() == 0 <==> forall|j: int| 0 <= j < k ==> seen@.contains(#[trigger] list@[j].1),
                    decreases list@.len() - k,
                {
                    let (name, value) = list[k];
                    if !contains_value(&seen, value) && !contains_value(&listed, value) {
                        if listed.len() > 0 {
                            missing.append("`, `");
                        }
                        missing.append(self.interner.text(name));
                        listed.push(value);
                    }
                    k = k + 1;
                }
                let any_missing = listed.len() > 0;
                let ghost before_verdict = *self;
                let ty = self.intern_type(TypeItem::EnumType { decl, flags });
                let text = self.describe(ty);
                match seen_else {
                    Some(else_span) => {
                        if !any_missing {
                            let message = concat3("this `else` can never run: every member of `", text.as_str(), "` is handled");
                            let help = "remove the `else`".to_owned();
                            self.report_full(Code::E0260, else_span, message, Vec::new(), Some(help));
                        }
                    },
                    None => {
                        if any_missing {
                            let message = concat3("this `switch` does not handle every member of `", text.as_str(), "`");
                            let mut notes: Vec<String> = Vec::new();
                            notes.push(concat3("missing: `", missing.as_str(), "`"));
                            let help = "add a `case` for each, or an `else` arm".to_owned();
                            self.report_full(Code::E0258, span, message, notes, Some(help));
                        }
                    },
                }
                proof {
                    lemma_grows_trans(&start, &before_verdict, &*self);
                    assert(crate::ctx::extends(looped.diags@, self.diags@));
                    assert forall|k: int| 0 <= k < arms@.len() && scrutinee != ERROR implies ((#[trigger] arms@[k]).value matches Some(c)
                        ==> (spec_expr_at(hir, ExprScope::Body(body), c) matches Some(e) ==> (crate::typing::literal_against(
                        start.pool@,
                        e,
                        scrutinee,
                    ) matches Some((code, sp)) ==> reported(start.diags@, self.diags@, code, sp)))) by {
                        match arms@[k].value {
                            Some(c) => match spec_expr_at(hir, ExprScope::Body(body), c) {
                                Some(e) => match crate::typing::literal_against(start.pool@, e, scrutinee) {
                                    Some((code, sp)) => {
                                        lemma_reported_kept(start.diags@, looped.diags@, self.diags@, code, sp);
                                    },
                                    None => {},
                                },
                                None => {},
                            },
                            None => {},
                        }
                    }
                    if unbound(&start) {
                        assert forall|k: int| 0 <= k < arms@.len() implies spec_stmt_tree_fits(
                            hir,
                            start.interner@,
                            self.diags@,
                            body,
                            (#[trigger] arms@[k]).body,
                        ) by {
                            lemma_stmt_tree_fits_kept(hir, start.interner@, before_verdict.diags@, self.diags@, body, arms@[k].body);
                        }
                    }
                    assert forall|k: int| 0 <= k < arms@.len() && duplicate_case(hir, start.pool, body, scrutinee, arms@, k)
                        implies reported(start.diags@, self.diags@, Code::E0259, (#[trigger] arms@[k]).span) by {
                        lemma_reported_kept(start.diags@, before_verdict.diags@, self.diags@, Code::E0259, arms@[k].span);
                    }
                }
            },
            None => {},
        }
    }

    /// Checks a local declaration and records its type: the annotation when there is
    /// one, against which the initialiser is checked, and the initialiser's otherwise.
    pub fn check_local(&mut self, body: BodyId, local: LocalId)
        requires
            old(self).inv(),
        ensures
            final(self).grows_from(old(self)),
            unbound(old(self)) ==> (literal_misfit(
                old(self).hir,
                old(self).interner@,
                body,
                local,
            ) matches Some(span) ==> diag_present(final(self).diags@, Code::E0204, span)),
            unbound(old(self)) ==> (plain_local_diags(old(self).hir, old(self).interner@, old(self).imports@.len() == 0, body, local) matches Some(d)
                ==> emitted(old(self).diags@, final(self).diags@, d)),
            unbound(old(self)) && plain_local_diags(old(self).hir, old(self).interner@, old(self).imports@.len() == 0, body, local) is Some ==> {
                &&& final(self).types.local_entries() == old(self).types.local_entries().insert(
                    local_key(body, local),
                    final(self).types.local_entries()[local_key(body, local)],
                )
                &&& final(self).pool@[final(self).types.local_entries()[local_key(body, local)] as int] == plain_local_shape(
                    old(self).hir,
                    old(self).interner@,
                    body,
                    local,
                )
            },
            spec_local_at(old(self).hir, body, local) matches Some(declaration) ==> {
                &&& final(self).types.local_entries().contains_key(local_key(body, local))
                &&& declaration.ty is None && declaration.init is None ==> final(self).types.local_entries()[local_key(
                    body,
                    local,
                )] == ERROR
                &&& declaration.ty is None && declaration.init is Some ==> final(self).types.spec_expr_type(
                    ExprScope::Body(body),
                    declaration.init->0,
                ) is Some && final(self).types.local_entries()[local_key(body, local)] == spec_binding(
                    final(self).pool@,
                    final(self).types.spec_expr_type(ExprScope::Body(body), declaration.init->0)->0,
                )
                &&& unbound(old(self)) ==> (declaration.ty matches Some(t) ==> (int_annotation(
                    old(self).hir,
                    old(self).interner@,
                    body,
                    t,
                ) matches Some((signed, bits)) ==> final(self).pool@[final(self).types.local_entries()[local_key(
                    body,
                    local,
                )] as int] == (Shape::Int { signed, bits })))
            },
            unbound(old(self)) ==> (spec_local_at(old(self).hir, body, local) matches Some(decl) ==> match (decl.ty, decl.init) {
                (Some(t), Some(e)) => match crate::typing::builtin_ref(old(self), ExprScope::Body(body), t) {
                    Some(_) => match spec_expr_at(old(self).hir, ExprScope::Body(body), e) {
                        Some(x) => match crate::typing::literal_against(
                            final(self).pool@,
                            x,
                            final(self).types.local_entries()[local_key(body, local)],
                        ) {
                            Some((code, sp)) => reported(old(self).diags@, final(self).diags@, code, sp),
                            None => true,
                        },
                        None => true,
                    },
                    None => true,
                },
                _ => true,
            }),
    {
        let hir = self.hir;
        let scope = ExprScope::Body(body);
        let declaration = match local_at(hir, body, local) {
            Some(l) => l,
            None => {
                return;
            },
        };
        let ghost start = *self;
        let declared = match declaration.ty {
            Some(t) => Some(self.resolve_type(scope, t, declaration.span)),
            None => None,
        };
        let ghost mid = *self;
        proof {
            assert(crate::pool::well_known_prefix(mid.pool@));
            if unbound(&start) {
                match declaration.ty {
                    Some(t) => {
                        match int_annotation(hir, start.interner@, body, t) {
                            Some((signed, bits)) => {
                                let sym = (spec_type_ref_at(hir, scope, t)->0)->Name_0;
                                assert(start.spec_bound(sym) is None);
                                assert(mid.pool@[declared->0 as int] == (Shape::Int { signed, bits }));
                                assert(mid.diags@ == start.diags@);
                                assert(declared->0 != ERROR);
                                assert(spec_int_info(mid.pool@, declared->0) == Some((signed, bits)));
                            },
                            None => {
                                if start.imports@.len() == 0 && unknown_annotation(hir, start.interner@, body, t) {
                                    let sym = (spec_type_ref_at(hir, scope, t)->0)->Name_0;
                                    assert(start.spec_bound(sym) is None);
                                    assert(crate::typing::unknown_type_name(&start, sym));
                                    assert(declared->0 == ERROR);
                                    assert(mid.types == start.types);
                                }
                            },
                        }
                    },
                    None => {},
                }
            }
        }
        let ty = match (declared, declaration.init) {
            (Some(annotation), Some(init)) => {
                let ghost pre_init = *self;
                self.check_expr(scope, init, Some(annotation));
                proof {
                    if unbound(&start) && crate::typing::builtin_ref(&start, scope, declaration.ty->0) is Some {
                        match spec_expr_at(hir, scope, init) {
                            Some(x) => match crate::typing::literal_against(pre_init.pool@, x, annotation) {
                                Some((code, sp)) => {
                                    lemma_reported_kept(start.diags@, pre_init.diags@, self.diags@, code, sp);
                                },
                                None => {},
                            },
                            None => {},
                        }
                    }
                }
                proof {
                    if unbound(&start) {
                        match literal_misfit(start.hir, start.interner@, body, local) {
                            Some(span) => {
                                let sym = (spec_type_ref_at(hir, scope, declaration.ty->0)->0)->Name_0;
                                assert(start.spec_bound(sym) is None);
                                assert(crate::pool::well_known_prefix(mid.pool@));
                                assert(annotation != ERROR);
                                assert(reported(mid.diags@, self.diags@, Code::E0204, span));
                                let k = choose|k: int| mid.diags@.len() <= k < self.diags@.len() && (#[trigger] self.diags@[k]).code
                                    == Code::E0204 && self.diags@[k].span == span;
                                assert(diag_present(self.diags@, Code::E0204, span));
                            },
                            None => {},
                        }
                        match plain_local_diags(start.hir, start.interner@, start.imports@.len() == 0, body, local) {
                            Some(d) => {
                                if int_annotation(hir, start.interner@, body, declaration.ty->0) is Some {
                                    match spec_expr_at(hir, scope, init) {
                                        Some(Expr::Literal(Literal::Int(v), span)) => {
                                            let (signed, bits) = int_annotation(hir, start.interner@, body, declaration.ty->0)->0;
                                            assert(d == range_codes(signed, bits, v, span));
                                            assert(emitted(start.diags@, self.diags@, d));
                                        },
                                        _ => {
                                            assert(self.diags@ == start.diags@);
                                            assert(emitted(start.diags@, self.diags@, d));
                                        },
                                    }
                                } else {
                                    assert(d == seq![(Code::E0212, declaration.span)]);
                                    assert(annotation == ERROR);
                                    assert(self.diags@ == mid.diags@);
                                    assert(emitted(start.diags@, self.diags@, d));
                                }
                            },
                            None => {},
                        }
                    }
                }
                annotation
            },
            (Some(annotation), None) => annotation,
            (None, Some(init)) => {
                let inferred = self.check_expr(scope, init, None);
                let ghost checked = *self;
                proof {
                    assert(crate::pool::well_known_prefix(checked.pool@));
                }
                let bound = self.reject_void_binding(inferred, declaration.span);
                proof {
                    match spec_expr_at(hir, scope, init) {
                        Some(Expr::Literal(Literal::Int(v), span)) => {
                            assert(inferred == S64);
                            assert(spec_int_info(mid.pool@, S64) == Some((true, 64u16)));
                            assert(self.diags@ == checked.diags@);
                            assert(emitted(start.diags@, self.diags@, range_codes(true, 64, v, span)));
                        },
                        Some(Expr::Error(_)) => {
                            assert(inferred == ERROR);
                            assert(self.diags@ == start.diags@);
                        },
                        _ => {},
                    }
                }
                bound
            },
            (None, None) => ERROR,
        };
        proof {
            lemma_grows_trans(&start, &mid, &*self);
        }
        let ghost mid2 = *self;
        self.record_local(body, local, ty);
        proof {
            lemma_grows_trans(&start, &mid2, &*self);
            if unbound(&start) && declaration.ty is Some && declaration.init is Some && crate::typing::builtin_ref(
                &start,
                scope,
                declaration.ty->0,
            ) is Some {
                let t = declaration.ty->0;
                let sym = (spec_type_ref_at(hir, scope, t)->0)->Name_0;
                assert(start.spec_bound(sym) is None);
                assert(ty == declared->0);
                assert(crate::pool::well_known_prefix(mid.pool@));
                match spec_expr_at(hir, scope, declaration.init->0) {
                    Some(x) => {
                        assert(self.pool@[ty as int] == mid.pool@[ty as int]);
                        assert(crate::typing::literal_against(self.pool@, x, ty) == crate::typing::literal_against(
                            mid.pool@,
                            x,
                            ty,
                        ));
                    },
                    None => {},
                }
            }
            match literal_misfit(start.hir, start.interner@, body, local) {
                Some(span) => {
                    if diag_present(mid2.diags@, Code::E0204, span) {
                        lemma_present_kept(mid2.diags@, self.diags@, Code::E0204, span);
                    }
                },
                None => {},
            }
            if unbound(&start) {
                match declaration.ty {
                    Some(t) => {
                        match int_annotation(hir, start.interner@, body, t) {
                            Some((signed, bits)) => {
                                assert(ty == declared->0);
                                assert(self.pool@[ty as int] == mid.pool@[ty as int]);
                            },
                            None => {},
                        }
                    },
                    None => {},
                }
            }
        }
    }

    /// Checks an assignment: the target must be a place (E0220), a compound assignment
    /// needs an integer target (E0223), and the value is checked against the target.
    pub fn check_assign(&mut self, scope: ExprScope, lhs: ExprId, op: AssignOp, rhs: ExprId, span: Span)
        requires
            old(self).inv(),
        ensures
            final(self).grows_from(old(self)),
            final(self).types.spec_expr_type(scope, lhs) is Some,
            final(self).types.spec_expr_type(scope, rhs) is Some,
            old(self).mode == Mode::Check && (spec_expr_at(old(self).hir, scope, lhs) matches Some(target) && value_only(
                target,
            )) ==> reported(old(self).diags@, final(self).diags@, Code::E0220, span),
            old(self).mode == Mode::Check ==> match known_operand_type(old(self), scope, lhs, None) {
                Some(t) => {
                    &&& match known_operand_type(old(self), scope, rhs, Some(t)) {
                        Some(rt) => final(self).types.spec_expr_type(scope, rhs) == Some(rt),
                        None => true,
                    }
                    &&& match known_operand_code(old(self), scope, rhs, Some(t)) {
                        Some((code, sp)) => reported(old(self).diags@, final(self).diags@, code, sp),
                        None => true,
                    }
                },
                None => true,
            },
    {
        let ghost start = *self;
        let target = self.check_expr(scope, lhs, None);
        let ghost mid = *self;
        let place = self.is_place(scope, lhs);
        proof {
            lemma_grows_trans(&start, &mid, &*self);
        }
        let ghost judged = *self;
        if !place {
            let mut notes: Vec<String> = Vec::new();
            notes.push("only variables, fields, and dereferences can be assigned to".to_owned());
            let help = "a `::` declaration is a constant; use `:=` or `: T` for something assignable".to_owned();
            self.report_full(Code::E0220, span, "cannot assign to this expression".to_owned(), notes, Some(help));
            proof {
                assert(self.diags@[judged.diags@.len() as int].code == Code::E0220);
            }
        }
        let ghost flagged = *self;
        proof {
            lemma_grows_trans(&start, &judged, &flagged);
        }
        let compound = match op {
            AssignOp::Assign => false,
            _ => true,
        };
        if compound && target != ERROR && self.pool.int_info(target).is_none() {
            let text = self.describe(target);
            let message = concat3("compound assignment is not supported for `", text.as_str(), "`");
            self.report(Code::E0223, span, message);
        }
        let ghost mid2 = *self;
        proof {
            if start.mode == Mode::Check {
                match known_operand_type(&start, scope, lhs, None) {
                    Some(t) => {
                        assert(target == t);
                        assert(mid.only_judged(&start));
                        assert(judged == mid);
                        assert(mid2.only_judged(&start));
                        assert(known_operand_type(&mid2, scope, rhs, Some(t)) == known_operand_type(&start, scope, rhs, Some(t)));
                        assert(known_operand_code(&mid2, scope, rhs, Some(t)) == known_operand_code(&start, scope, rhs, Some(t)));
                    },
                    None => {},
                }
            }
        }
        self.check_expr(scope, rhs, Some(target));
        proof {
            lemma_grows_trans(&start, &mid2, &*self);
            lemma_grows_trans(&flagged, &mid2, &*self);
            if start.mode == Mode::Check {
                match known_operand_type(&start, scope, lhs, None) {
                    Some(t) => {
                        match known_operand_code(&start, scope, rhs, Some(t)) {
                            Some((code, sp)) => {
                                assert(reported(mid2.diags@, self.diags@, code, sp));
                                lemma_reported_kept(start.diags@, mid2.diags@, self.diags@, code, sp);
                            },
                            None => {},
                        }
                    },
                    None => {},
                }
            }
            if start.mode == Mode::Check && (spec_expr_at(start.hir, scope, lhs) matches Some(target) && value_only(target)) {
                assert(!place);
                assert(reported(judged.diags@, flagged.diags@, Code::E0220, span));
                lemma_reported_kept(start.diags@, judged.diags@, flagged.diags@, Code::E0220, span);
                lemma_reported_kept(start.diags@, flagged.diags@, self.diags@, Code::E0220, span);
            }
        }
    }

    /// Checks that a condition is `bool` (E0222).
    pub fn check_condition(&mut self, scope: ExprScope, cond: ExprId, is_while: bool)
        requires
            old(self).inv(),
        ensures
            final(self).grows_from(old(self)),
            final(self).types.spec_expr_type(scope, cond) is Some,
            ({
                let t = final(self).types.spec_expr_type(scope, cond)->0;
                t != ERROR && t != BOOL ==> final(self).diags@.len() > old(self).diags@.len()
                    && final(self).diags@.last().code == Code::E0222
            }),
            condition_refused(old(self), scope, cond) matches Some(sp) ==> reported(
                old(self).diags@,
                final(self).diags@,
                Code::E0222,
                sp,
            ),
    {
        let ghost start = *self;
        let ty = self.check_expr(scope, cond, None);
        let span = match expr_at(self.hir, scope, cond) {
            Some(e) => span_of(e),
            None => Span { file: self.file, start: 0, end: 0 },
        };
        let ghost mid = *self;
        self.check_condition_type(ty, span, is_while);
        proof {
            lemma_grows_trans(&start, &mid, &*self);
            match condition_refused(&start, scope, cond) {
                Some(sp) => {
                    assert(ty == known_condition_type(&start, scope, cond)->0);
                    assert(self.diags@[mid.diags@.len() as int].code == Code::E0222);
                    assert(reported(mid.diags@, self.diags@, Code::E0222, sp));
                    lemma_reported_kept(start.diags@, mid.diags@, self.diags@, Code::E0222, sp);
                },
                None => {},
            }
        }
    }

    /// Checks a `return` against the procedure's return type (E0224).
    pub fn check_return(&mut self, scope: ExprScope, value: Option<ExprId>, span: Span)
        requires
            old(self).inv(),
        ensures
            final(self).grows_from(old(self)),
            value is Some && spec_body_ret(old(self)) == VOID ==> final(self).diags@.len() > old(self).diags@.len()
                && final(self).diags@.last().code == Code::E0224 && final(self).diags@.last().span == span,
            value is None && spec_body_ret(old(self)) != VOID && spec_body_ret(old(self)) != ERROR ==> pushed(
                old(self).diags@,
                final(self).diags@,
                Code::E0224,
                span,
            ),
            value is None && (spec_body_ret(old(self)) == VOID || spec_body_ret(old(self)) == ERROR) ==> *final(self)
                == *old(self),
            value matches Some(v) ==> final(self).types.spec_expr_type(scope, v) is Some,
            value matches Some(v) ==> (spec_body_ret(old(self)) != VOID ==> {
                &&& match known_operand_type(old(self), scope, v, Some(spec_body_ret(old(self)))) {
                    Some(t) => final(self).types.spec_expr_type(scope, v) == Some(t),
                    None => true,
                }
                &&& match known_operand_code(old(self), scope, v, Some(spec_body_ret(old(self)))) {
                    Some((code, sp)) => reported(old(self).diags@, final(self).diags@, code, sp),
                    None => true,
                }
            }),
    {
        let ghost start = *self;
        let ret = match &self.body {
            Some(b) => b.ret,
            None => ERROR,
        };
        match value {
            Some(v) => {
                if ret == VOID {
                    self.check_expr(scope, v, None);
                    let ghost mid = *self;
                    let help = "write `return;`, or give the procedure a `-> T`".to_owned();
                    self.report_full(Code::E0224, span, "this procedure returns nothing".to_owned(), Vec::new(), Some(help));
                    proof {
                        lemma_grows_trans(&start, &mid, &*self);
                    }
                } else {
                    self.check_expr(scope, v, Some(ret));
                    proof {
                        match known_operand_code(&start, scope, v, Some(ret)) {
                            Some((code, sp)) => {
                                assert(reported(start.diags@, self.diags@, code, sp));
                            },
                            None => {},
                        }
                    }
                }
            },
            None => {
                if ret != VOID && ret != ERROR {
                    let text = self.describe(ret);
                    let message = concat3("this procedure returns `", text.as_str(), "`, but this `return` has no value");
                    self.report(Code::E0224, span, message);
                }
            },
        }
    }

    /// What a value name means: this file's declaration, else the first import that
    /// provides it, which marks that import used.
    pub fn lookup_value_name(&mut self, name: Symbol) -> (r: Option<SigEntry>)
        requires
            old(self).inv(),
        ensures
            final(self).grows_from(old(self)),
            r matches Some(e) ==> entry_fits(e, final(self).pool@.len()),
            old(self).mode == Mode::Check ==> final(self).diags == old(self).diags,
            old(self).mode == Mode::Check ==> r == spec_lookup_value(old(self), name),
    {
        let hir = self.hir;
        match hir.item_named(name) {
            Some(item) => {
                proof {
                    assert(self.hir.items@[item as int].name == Some(name));
                }
                return self.entry_for_item(item);
            },
            None => {},
        }
        let ghost start = *self;
        let mut i: usize = 0;
        while i < self.imports.len()
            invariant
                self.inv(),
                *self == start,
                i <= self.imports@.len(),
                spec_imported_entry(self.imports@, name, 0) == spec_imported_entry(self.imports@, name, i as int),
            ensures
                i <= self.imports@.len(),
                *self == start,
                spec_imported_entry(self.imports@, name, 0) == spec_imported_entry(self.imports@, name, i as int),
                i < self.imports@.len() ==> self.imports@[i as int].1.names_view().contains_key(name as u128),
            decreases self.imports@.len() - i,
        {
            let (_, sigs) = self.imports[i];
            if sigs.lookup(name).is_some() {
                break;
            }
            proof {
                assert(spec_imported_entry(self.imports@, name, i as int) == spec_imported_entry(self.imports@, name, i + 1));
            }
            i = i + 1;
        }
        if i >= self.imports.len() {
            return None;
        }
        let (module, sigs) = self.imports[i];
        proof {
            assert(crate::ctx::entries_valid(*self.imports@[i as int].1, self.pool@.len()));
        }
        let found = sigs.lookup(name);
        self.record_type_name_import(name, module);
        found
    }

    /// Checks that a `#foreign` procedure's library operand names a foreign library
    /// (E0225).
    pub fn check_foreign_binding(&mut self, proc: ProcId)
        requires
            old(self).inv(),
        ensures
            final(self).grows_from(old(self)),
            spec_foreign_operand(old(self).hir, proc) is None ==> *final(self) == *old(self),
            old(self).mode == Mode::Check ==> (spec_foreign_operand(old(self).hir, proc) matches Some((library, span))
                ==> match spec_lookup_value(old(self), library) {
                None => pushed(old(self).diags@, final(self).diags@, Code::E0225, span),
                Some(entry) => if entry.ty != FOREIGN_LIBRARY && entry.ty != ERROR {
                    pushed(old(self).diags@, final(self).diags@, Code::E0225, span)
                } else {
                    final(self).diags == old(self).diags
                },
            }),
    {
        let hir = self.hir;
        if (proc as usize) >= hir.procs.len() {
            return;
        }
        let (library, span) = match &hir.procs[proc as usize].foreign {
            Some(info) => match info.library {
                Some(l) => (l, info.span),
                None => {
                    return;
                },
            },
            None => {
                return;
            },
        };
        let name = self.interner.text(library);
        let ghost start = *self;
        let found = self.lookup_value_name(library);
        let ghost mid = *self;
        match found {
            Some(entry) => {
                if entry.ty != FOREIGN_LIBRARY && entry.ty != ERROR {
                    let text = self.describe(entry.ty);
                    let mut message = concat3("`", name, "` is not a foreign library: it is `");
                    message.append(text.as_str());
                    message.append("`");
                    let help = "declare it with `#system_library`".to_owned();
                    self.report_full(Code::E0225, span, message, Vec::new(), Some(help));
                }
            },
            None => {
                let message = concat3("unknown foreign library `", name, "`");
                let help = concat3("declare it first, e.g. `", name, " :: #system_library \"c\";`");
                self.report_full(Code::E0225, span, message, Vec::new(), Some(help));
            },
        }
        proof {
            lemma_grows_trans(&start, &mid, &*self);
        }
    }

    /// Refuses `#must` on a procedure with nothing to return (E0288), at the
    /// declaration: there is no result to receive, so the marker could never do anything.
    pub fn check_must_returns_something(&mut self, proc: ProcId)
        requires
            old(self).inv(),
        ensures
            final(self).grows_from(old(self)),
            final(self).only_diags_changed(old(self)),
            spec_must_returns_nothing(old(self), proc) ==> pushed(
                old(self).diags@,
                final(self).diags@,
                Code::E0288,
                old(self).hir.procs@[proc as int].span,
            ),
            !spec_must_returns_nothing(old(self), proc) ==> final(self).diags@ == old(self).diags@,
    {
        let hir = self.hir;
        if (proc as usize) >= hir.procs.len() || !hir.procs[proc as usize].must {
            return;
        }
        let ret = match self.sigs.proc_sig(proc) {
            Some(sig) => sig.ret,
            None => {
                return;
            },
        };
        if ret != VOID {
            return;
        }
        let mut notes: Vec<String> = Vec::new();
        notes.push("there is no result to receive, so the marker can never be violated and never does anything".to_owned());
        let help = Some("give it a result to return, or drop the `#must`".to_owned());
        self.report_full(
            Code::E0288,
            hir.procs[proc as usize].span,
            "`#must` on a procedure that returns nothing".to_owned(),
            notes,
            help,
        );
    }

    /// Refuses a statement that drops the result of a `#must` call (E0287). Asked of the
    /// callee's type, so a call through an import or a procedure pointer is covered; a
    /// procedure that returns nothing has nothing to receive, and is E0288's instead.
    pub fn check_must_received(&mut self, scope: ExprScope, expr: ExprId)
        requires
            old(self).inv(),
        ensures
            final(self).grows_from(old(self)),
            final(self).only_diags_changed(old(self)),
            match spec_dropped_must_call(old(self), scope, expr) {
                Some(span) => pushed(old(self).diags@, final(self).diags@, Code::E0287, span),
                None => final(self).diags@ == old(self).diags@,
            },
    {
        let hir = self.hir;
        let (callee, span) = match expr_at(hir, scope, expr) {
            Some(Expr::Call { callee, span, .. }) => (*callee, *span),
            _ => {
                return;
            },
        };
        let callee_ty = match self.types.expr_type(scope, callee) {
            Some(t) => t,
            None => {
                return;
            },
        };
        if callee_ty >= self.pool.len() {
            return;
        }
        let ret = match self.pool.item(callee_ty) {
            TypeItem::ProcType { ret, must, .. } => {
                if !*must {
                    return;
                }
                *ret
            },
            _ => {
                return;
            },
        };
        if ret == VOID {
            return;
        }
        let name = self.callee_name(scope, callee);
        let mut message = "the result of ".to_owned();
        match name {
            Some(text) => {
                message.append("`");
                message.append(text);
                message.append("`");
            },
            None => message.append("this call"),
        }
        message.append(" must be received: it is `#must`");
        let mut notes: Vec<String> = Vec::new();
        notes.push(
            "`#must` marks a result a caller has to look at — typically a success flag beside a value, which is this language's error model".to_owned(),
        );
        let help = Some(
            "receive it — `ok := …` or `ok, value := …` — or write `_ = …` to say the failure is deliberately ignored".to_owned(),
        );
        self.report_full(Code::E0287, span, message, notes, help);
    }

    /// The name a callee is written with, when it is a plain name.
    pub fn callee_name(&self, scope: ExprScope, callee: ExprId) -> (r: Option<&'a str>)
        requires
            self.inv(),
        ensures
            r is None <==> spec_callee_symbol(self.hir, scope, callee) is None,
            r matches Some(text) ==> text@ == spec_text(self.interner@, spec_callee_symbol(self.hir, scope, callee)->0),
    {
        let hir = self.hir;
        let interner = self.interner;
        let res = match expr_at(hir, scope, callee) {
            Some(Expr::Name { res, .. }) => *res,
            _ => {
                return None;
            },
        };
        let sym = match res {
            Res::Item(item) => {
                if (item as usize) < hir.items.len() {
                    hir.items[item as usize].name
                } else {
                    None
                }
            },
            Res::Imported(_, sym) => Some(sym),
            Res::Local(local) => match scope {
                ExprScope::Body(body) => match local_at(hir, body, local) {
                    Some(l) => Some(l.name),
                    None => None,
                },
                ExprScope::TopLevel => None,
            },
            Res::Param(index) => match scope {
                ExprScope::Body(body) => match owner_of(hir, body) {
                    Some(p) => {
                        if (index as usize) < hir.procs[p as usize].params.len() {
                            Some(hir.procs[p as usize].params[index as usize].name)
                        } else {
                            None
                        }
                    },
                    None => None,
                },
                ExprScope::TopLevel => None,
            },
            Res::Error => None,
        };
        match sym {
            Some(s) => Some(interner.text(s)),
            None => None,
        }
    }

    /// Why a type cannot cross a `#foreign` boundary, or `None` when it can: what fits
    /// one register the C ABI agrees on passes, and poison passes because it is already
    /// reported.
    pub fn foreign_boundary_refusal(&self, ty: PoolId) -> (r: Option<&'static str>)
        requires
            ty < self.pool@.len(),
        ensures
            r is Some <==> boundary_refused(self.pool@[ty as int]),
    {
        match self.pool.item(ty) {
            TypeItem::VoidType
            | TypeItem::BoolType
            | TypeItem::IntType { .. }
            | TypeItem::PointerType(_)
            | TypeItem::EnumType { .. }
            | TypeItem::ProcType { .. }
            | TypeItem::ErrorType => None,
            TypeItem::StringType => Some(
                "a `string` is a pointer and a count, and C has no such type: pass `s.data` and `s.count` as two arguments",
            ),
            TypeItem::StructType(_) => Some(
                "passing an aggregate by value needs the platform ABI's field-classification rules, which no engine here implements yet",
            ),
            TypeItem::ArrayType { .. } => Some(
                "an array is its elements laid out in memory; C decays one to a pointer and Jairs does not",
            ),
            TypeItem::ViewType { .. } => Some("a view and a dynamic array are multi-word descriptors: pass `.data` and `.count`"),
            TypeItem::ResultsType { .. } => Some("a C procedure returns one value: several returns have no C signature"),
            TypeItem::TypeType | TypeItem::ForeignLibraryType => Some(
                "this is a compile-time-only type and has no runtime representation to pass",
            ),
            TypeItem::ForeignLibraryValue(_)
            | TypeItem::BoolValue(_)
            | TypeItem::StrValue(_)
            | TypeItem::IntValue { .. } => Some("this is a value rather than a type, which is a compiler bug"),
        }
    }

    /// Refuses a `#foreign` signature with a parameter or a result that cannot cross a C
    /// boundary (E0286), one diagnostic for each, at the `#foreign` directive: the
    /// declaration is what cannot be lowered, whether or not anything calls it.
    pub fn check_foreign_signature(&mut self, proc: ProcId)
        requires
            old(self).inv(),
        ensures
            final(self).grows_from(old(self)),
            final(self).only_diags_changed(old(self)),
            match foreign_signature(old(self), proc) {
                None => final(self).diags@ == old(self).diags@,
                Some((sig, span)) => {
                    &&& final(self).diags@.len() == old(self).diags@.len() + refusals(old(self).pool@, sig.params@, sig.ret)
                    &&& forall|k: int| 0 <= k < old(self).diags@.len() ==> #[trigger] final(self).diags@[k] == old(self).diags@[k]
                    &&& forall|k: int| old(self).diags@.len() <= k < final(self).diags@.len()
                        ==> #[trigger] final(self).diags@[k].code == Code::E0286 && final(self).diags@[k].span == span
                },
            },
    {
        let hir = self.hir;
        if (proc as usize) >= hir.procs.len() {
            return;
        }
        let span = match &hir.procs[proc as usize].foreign {
            Some(info) => info.span,
            None => {
                return;
            },
        };
        let (params, names, ret) = match self.sigs.proc_sig(proc) {
            Some(sig) => (copy_ids(&sig.params), copy_symbols(&sig.names), sig.ret),
            None => {
                return;
            },
        };
        proof {
            assert(crate::ctx::entries_valid(self.sigs, self.pool@.len()));
            assert(self.sigs.procs_view().contains_key(proc as u128));
        }
        let ghost start = *self;
        let mut index: usize = 0;
        while index < params.len()
            invariant
                self.inv(),
                self.only_diags_changed(&start),
                start.inv(),
                index <= params@.len(),
                forall|j: int| 0 <= j < params@.len() ==> params@[j] < self.pool@.len(),
                ret < self.pool@.len(),
                self.diags@.len() == start.diags@.len() + refusals_below(start.pool@, params@, index as int),
                forall|k: int| 0 <= k < start.diags@.len() ==> #[trigger] self.diags@[k] == start.diags@[k],
                forall|k: int| start.diags@.len() <= k < self.diags@.len()
                    ==> #[trigger] self.diags@[k].code == Code::E0286 && self.diags@[k].span == span,
            decreases params@.len() - index,
        {
            let ty = params[index];
            match self.foreign_boundary_refusal(ty) {
                Some(reason) => {
                    let described = if index < names.len() {
                        concat3("`", self.interner.text(names[index]), "`")
                    } else {
                        let mut out = "parameter ".to_owned();
                        push_decimal(&mut out, index as i128 + 1);
                        out
                    };
                    let text = self.describe(ty);
                    let mut message = described;
                    message.append(" cannot cross a `#foreign` boundary: it is `");
                    message.append(text.as_str());
                    message.append("`");
                    let mut notes: Vec<String> = Vec::new();
                    notes.push(reason.to_owned());
                    let help = Some("pass a pointer instead — `*T` is one register, and the callee reads through it".to_owned());
                    let ghost before = *self;
                    self.report_full(Code::E0286, span, message, notes, help);
                    proof {
                        assert forall|k: int| start.diags@.len() <= k < self.diags@.len() implies #[trigger] self.diags@[k].code
                            == Code::E0286 && self.diags@[k].span == span by {
                            if k < before.diags@.len() {
                                assert(self.diags@[k] == before.diags@[k]);
                            }
                        }
                    }
                },
                None => {},
            }
            index = index + 1;
        }
        match self.foreign_boundary_refusal(ret) {
            Some(reason) => {
                let text = self.describe(ret);
                let message = concat3("a `#foreign` procedure cannot return `", text.as_str(), "`");
                let mut notes: Vec<String> = Vec::new();
                notes.push(reason.to_owned());
                let help = Some(
                    "return a pointer, or take a `*T` out-parameter and write through it — which is what the C signature would do anyway".to_owned(),
                );
                let ghost before = *self;
                self.report_full(Code::E0286, span, message, notes, help);
                proof {
                    assert forall|k: int| start.diags@.len() <= k < self.diags@.len() implies #[trigger] self.diags@[k].code
                        == Code::E0286 && self.diags@[k].span == span by {
                        if k < before.diags@.len() {
                            assert(self.diags@[k] == before.diags@[k]);
                        }
                    }
                }
            },
            None => {},
        }
    }
}

/// Whether `proc` is `#must` and returns nothing.
pub open spec fn spec_must_returns_nothing(ctx: &Ctx, proc: ProcId) -> bool {
    &&& proc < ctx.hir.procs@.len()
    &&& ctx.hir.procs@[proc as int].must
    &&& ctx.sigs.procs_view().contains_key(proc as u128)
    &&& ctx.sigs.procs_view()[proc as u128].ret == VOID
}

/// The span of a statement's call whose result is dropped although its callee, by its
/// recorded type, is `#must` and returns something.
pub open spec fn spec_dropped_must_call(ctx: &Ctx, scope: ExprScope, expr: ExprId) -> Option<Span> {
    match spec_expr_at(ctx.hir, scope, expr) {
        Some(Expr::Call { callee, span, .. }) => match ctx.types.spec_expr_type(scope, callee) {
            Some(t) => if t < ctx.pool@.len() {
                match ctx.pool@[t as int] {
                    Shape::Proc { ret, must, .. } => if must && ret != VOID {
                        Some(span)
                    } else {
                        None
                    },
                    _ => None,
                }
            } else {
                None
            },
            None => None,
        },
        _ => None,
    }
}

/// Whether a type cannot cross a `#foreign` boundary: a `string`, a struct passed by
/// value, a compile-time-only type, or a value where a type belongs.
pub open spec fn boundary_refused(shape: Shape) -> bool {
    match shape {
        Shape::Void | Shape::Bool | Shape::Int { .. } | Shape::Pointer(_) | Shape::Enum { .. } | Shape::Proc { .. }
        | Shape::Error => false,
        _ => true,
    }
}

/// How many of the first `n` parameter types cannot cross a `#foreign` boundary.
pub open spec fn refusals_below(items: Seq<Shape>, params: Seq<PoolId>, n: int) -> nat
    decreases n,
{
    if n <= 0 {
        0
    } else {
        refusals_below(items, params, n - 1) + if boundary_refused(items[params[n - 1] as int]) {
            1nat
        } else {
            0nat
        }
    }
}

/// How many of a signature's types cannot cross a `#foreign` boundary.
pub open spec fn refusals(items: Seq<Shape>, params: Seq<PoolId>, ret: PoolId) -> nat {
    refusals_below(items, params, params.len() as int) + if boundary_refused(items[ret as int]) {
        1nat
    } else {
        0nat
    }
}

/// A `#foreign` procedure's signature and the span of its directive; `None` for a
/// procedure that is not `#foreign` or has no signature.
pub open spec fn foreign_signature(ctx: &Ctx, proc: ProcId) -> Option<(ProcSig, Span)> {
    if proc < ctx.hir.procs@.len() && ctx.hir.procs@[proc as int].foreign is Some && ctx.sigs.procs_view().contains_key(
        proc as u128,
    ) {
        Some((ctx.sigs.procs_view()[proc as u128], ctx.hir.procs@[proc as int].foreign->0.span))
    } else {
        None
    }
}

/// Every type the map recorded is in a pool of `n` types.
pub open spec fn types_fit(types: TypeMap, n: nat) -> bool {
    &&& forall|k: u128| #[trigger] types.expr_entries().contains_key(k) ==> types.expr_entries()[k] < n
    &&& forall|k: u128| #[trigger] types.local_entries().contains_key(k) ==> types.local_entries()[k] < n
}

/// The procedure whose body is `body`: the last one that names it.
pub fn owner_of(hir: &FileHir, body: BodyId) -> (r: Option<ProcId>)
    requires
        hir.procs@.len() < u32::MAX,
    ensures
        r matches Some(p) ==> p < hir.procs@.len() && hir.procs@[p as int].body == Some(body)
            && forall|q: int| p < q < hir.procs@.len() ==> hir.procs@[q].body != Some(body),
        r is None ==> forall|q: int| 0 <= q < hir.procs@.len() ==> hir.procs@[q].body != Some(body),
        r == spec_owner(hir, body),
{
    let mut i: usize = hir.procs.len();
    while i > 0
        invariant
            i <= hir.procs@.len(),
            hir.procs@.len() < u32::MAX,
            forall|q: int| i <= q < hir.procs@.len() ==> hir.procs@[q].body != Some(body),
        decreases i,
    {
        i = i - 1;
        match hir.procs[i].body {
            Some(b) => {
                if b == body {
                    proof {
                        let p = (i as u32);
                        assert(is_last_owner(hir, body, p));
                        let c = choose|c: ProcId| is_last_owner(hir, body, c);
                        if c < p {
                            assert(hir.procs@[p as int].body == Some(body));
                        }
                        if c > p {
                            assert(hir.procs@[c as int].body == Some(body));
                        }
                    }
                    return Some(i as u32);
                }
            },
            None => {},
        }
    }
    proof {
        if exists|p: ProcId| is_last_owner(hir, body, p) {
            let p = choose|p: ProcId| is_last_owner(hir, body, p);
            assert(hir.procs@[p as int].body == Some(body));
        }
    }
    None
}

/// Checks one file's bodies and `#run` items against its signatures.
///
/// The signatures are read, not recomputed: a file-level declaration is typed by the
/// signature phase alone, so the two phases never disagree about one. Both the file's
/// struct bodies and its imports' are recorded in the pool first, so a field access on
/// an imported struct finds its fields.
pub fn check_file(
    hir: &FileHir,
    file: u32,
    signatures: &FileSignatures,
    imports: &[(&str, &FileSignatures)],
    pool: &mut Pool,
    interner: &Interner,
) -> (r: CheckOutput)
    requires
        hir.wf(),
        interner.wf(),
        interner@.len() <= u32::MAX,
        pool_ready(old(pool)),
        hir.bindings_fit(old(pool)@.len()),
        signatures.wf(),
        entries_valid(*signatures, old(pool)@.len()),
        imports_ready(imports@, old(pool)@.len()),
        imports@.len() < u32::MAX,
    ensures
        pool_ready(final(pool)),
        pool_extends(old(pool)@, final(pool)@),
        r.types.wf(),
        types_fit(r.types, final(pool)@.len()),
        forall|i: int| 0 <= i < hir.items@.len() ==> ((#[trigger] hir.items@[i]).kind matches ItemKind::Run(e)
            ==> r.types.spec_expr_type(ExprScope::TopLevel, e) is Some),
        forall|b: int| 0 <= b < hir.bodies@.len() ==> spec_stmt_tree_typed(hir, r.types, b as BodyId, (#[trigger] hir.bodies@[b]).root),
        forall|b: int| 0 <= b < hir.bodies@.len() ==> spec_stmt_tree_fits(
            hir,
            interner@,
            r.diagnostics@,
            b as BodyId,
            (#[trigger] hir.bodies@[b]).root,
        ),
        forall|p: int| #[trigger] must_without_result(hir, *signatures, p) ==> diag_present(
            r.diagnostics@,
            Code::E0288,
            hir.procs@[p].span,
        ),
        forall|p: int| #[trigger] bad_foreign_operand(hir, *signatures, imports@, p) ==> diag_present(
            r.diagnostics@,
            Code::E0225,
            hir.procs@[p].foreign->0.span,
        ),
        plain_file(hir, interner@, imports@.len() == 0) ==> emitted(
            Seq::empty(),
            r.diagnostics@,
            plain_file_diags(hir, interner@, imports@.len() == 0, hir.bodies@.len() as nat),
        ),
        plain_file(hir, interner@, imports@.len() == 0) ==> forall|b: BodyId, l: LocalId| #[trigger]
            body_local_shape(hir, interner@, b, l) matches Some(sh) ==> r.types.local_entries().contains_key(local_key(b, l))
                && final(pool)@[r.types.local_entries()[local_key(b, l)] as int] == sh,
{
    signatures.record_in(pool);
    let mut m: usize = 0;
    while m < imports.len()
        invariant
            m <= imports@.len(),
            pool_ready(pool),
            pool@ == old(pool)@,
            imports_ready(imports@, pool@.len()),
        decreases imports@.len() - m,
    {
        let imported = imports[m].1;
        proof {
            assert(entries_valid(*imports@[m as int].1, pool@.len()));
        }
        imported.record_in(pool);
        m = m + 1;
    }
    let mut import_list: Vec<(&str, &FileSignatures)> = Vec::new();
    let mut k: usize = 0;
    while k < imports.len()
        invariant
            k <= imports@.len(),
            import_list@ == imports@.subrange(0, k as int),
        decreases imports@.len() - k,
    {
        import_list.push(imports[k]);
        k = k + 1;
    }
    assert(import_list@ =~= imports@);
    let mut own = signatures.duplicate();
    own.set_file(file);
    proof {
        let n = pool@.len();
        assert forall|key: u128| #[trigger] own.procs_view().contains_key(key) implies own.procs_view()[key].ret < n
            && forall|j: int| 0 <= j < own.procs_view()[key].params@.len() ==> own.procs_view()[key].params@[j] < n by {
            assert(signatures.procs_view().contains_key(key));
        }
    }
    proof {
        assert(hir.bindings_fit(pool@.len()));
    }
    let mut start = Pool::new();
    std::mem::swap(pool, &mut start);
    let mut ctx = Ctx::new(hir, file, interner, start, import_list, own, Mode::Check);
    let n = hir.items.len();
    let mut i: usize = 0;
    while i < n
        invariant
            ctx.inv(),
            ctx.hir == hir,
            ctx.mode == Mode::Check,
            n == hir.items@.len(),
            i <= n,
            pool_extends(old(pool)@, ctx.pool@),
            unbound(&ctx),
            ctx.interner == interner,
            ctx.imports@ == imports@,
            ctx.sigs.names_view() == signatures.names_view(),
            ctx.sigs.procs_view().dom() == signatures.procs_view().dom(),
            forall|k: u128| #[trigger] signatures.procs_view().contains_key(k) ==> ctx.sigs.procs_view()[k].ret
                == signatures.procs_view()[k].ret,
            forall|k: int| 0 <= k < i ==> ((#[trigger] hir.items@[k]).kind matches ItemKind::Run(e)
                ==> ctx.types.spec_expr_type(ExprScope::TopLevel, e) is Some),
            plain_file(hir, interner@, imports@.len() == 0) ==> ctx.diags@.len() == 0,
        decreases n - i,
    {
        match &hir.items[i].kind {
            ItemKind::Run(expr) => {
                ctx.check_expr(ExprScope::TopLevel, *expr, None);
            },
            _ => {},
        }
        i = i + 1;
    }
    let procs = hir.procs.len();
    let mut p: usize = 0;
    while p < procs
        invariant
            ctx.inv(),
            ctx.hir == hir,
            ctx.mode == Mode::Check,
            procs == hir.procs@.len(),
            p <= procs,
            pool_extends(old(pool)@, ctx.pool@),
            unbound(&ctx),
            ctx.interner == interner,
            ctx.imports@ == imports@,
            ctx.sigs.names_view() == signatures.names_view(),
            ctx.sigs.procs_view().dom() == signatures.procs_view().dom(),
            forall|k: u128| #[trigger] signatures.procs_view().contains_key(k) ==> ctx.sigs.procs_view()[k].ret
                == signatures.procs_view()[k].ret,
            forall|q: int| 0 <= q < p && #[trigger] must_without_result(hir, *signatures, q) ==> diag_present(
                ctx.diags@,
                Code::E0288,
                hir.procs@[q].span,
            ),
            forall|q: int| 0 <= q < p && #[trigger] bad_foreign_operand(hir, *signatures, imports@, q) ==> diag_present(
                ctx.diags@,
                Code::E0225,
                hir.procs@[q].foreign->0.span,
            ),
            forall|k: int| 0 <= k < hir.items@.len() ==> ((#[trigger] hir.items@[k]).kind matches ItemKind::Run(e) ==> ctx.types.spec_expr_type(ExprScope::TopLevel, e) is Some),
            plain_file(hir, interner@, imports@.len() == 0) ==> ctx.diags@.len() == 0,
        decreases procs - p,
    {
        let ghost before = ctx;
        ctx.check_foreign_binding(p as u32);
        let ghost mid = ctx;
        ctx.check_foreign_signature(p as u32);
        let ghost mid2 = ctx;
        ctx.check_must_returns_something(p as u32);
        proof {
            if plain_file(hir, interner@, imports@.len() == 0) {
                assert(hir.procs@[p as int].foreign is None && !hir.procs@[p as int].must);
                assert(mid.diags@ == before.diags@);
                assert(mid2.diags@ == mid.diags@);
                assert(ctx.diags@ == mid2.diags@);
            }
            lemma_grows_trans(&before, &mid, &mid2);
            lemma_grows_trans(&before, &mid2, &ctx);
            assert forall|q: int| 0 <= q < p + 1 && #[trigger] must_without_result(hir, *signatures, q) implies diag_present(
                ctx.diags@,
                Code::E0288,
                hir.procs@[q].span,
            ) by {
                if q < p {
                    lemma_present_kept(before.diags@, ctx.diags@, Code::E0288, hir.procs@[q].span);
                } else {
                    assert(spec_must_returns_nothing(&mid2, p as ProcId));
                    assert(ctx.diags@[mid2.diags@.len() as int].code == Code::E0288);
                }
            }
            assert forall|q: int| 0 <= q < p + 1 && #[trigger] bad_foreign_operand(hir, *signatures, imports@, q) implies diag_present(
                ctx.diags@,
                Code::E0225,
                hir.procs@[q].foreign->0.span,
            ) by {
                if q < p {
                    lemma_present_kept(before.diags@, ctx.diags@, Code::E0225, hir.procs@[q].foreign->0.span);
                } else {
                    let (library, span) = spec_foreign_operand(hir, p as ProcId)->0;
                    assert(spec_lookup_value(&before, library) == lookup_value_in(hir, *signatures, imports@, library));
                    assert(mid.diags@[before.diags@.len() as int].code == Code::E0225);
                    assert(diag_present(mid.diags@, Code::E0225, span));
                    lemma_present_kept(mid.diags@, ctx.diags@, Code::E0225, span);
                }
            }
        }
        p = p + 1;
    }
    let bodies = hir.bodies.len();
    let mut b: usize = 0;
    while b < bodies
        invariant
            ctx.inv(),
            ctx.hir == hir,
            ctx.mode == Mode::Check,
            bodies == hir.bodies@.len(),
            b <= bodies,
            pool_extends(old(pool)@, ctx.pool@),
            unbound(&ctx),
            ctx.interner == interner,
            forall|k: int| 0 <= k < b ==> spec_stmt_tree_fits(
                hir,
                interner@,
                ctx.diags@,
                k as BodyId,
                (#[trigger] hir.bodies@[k]).root,
            ),
            forall|q: int| #[trigger] must_without_result(hir, *signatures, q) ==> diag_present(
                ctx.diags@,
                Code::E0288,
                hir.procs@[q].span,
            ),
            forall|q: int| #[trigger] bad_foreign_operand(hir, *signatures, imports@, q) ==> diag_present(
                ctx.diags@,
                Code::E0225,
                hir.procs@[q].foreign->0.span,
            ),
            forall|k: int| 0 <= k < hir.items@.len() ==> ((#[trigger] hir.items@[k]).kind matches ItemKind::Run(e) ==> ctx.types.spec_expr_type(ExprScope::TopLevel, e) is Some),
            forall|k: int| 0 <= k < b ==> spec_stmt_tree_typed(hir, ctx.types, k as BodyId, (#[trigger] hir.bodies@[k]).root),
            plain_file(hir, interner@, imports@.len() == 0) ==> emitted(Seq::empty(), ctx.diags@, plain_file_diags(hir, interner@, imports@.len() == 0, b as nat)),
            ctx.imports@ == imports@,
            plain_file(hir, interner@, imports@.len() == 0) ==> forall|b1: BodyId, l: LocalId| #[trigger]
                body_local_shape(hir, interner@, b1, l) is Some && b1 < b ==> ctx.types.local_entries().contains_key(
                local_key(b1, l),
            ) && ctx.pool@[ctx.types.local_entries()[local_key(b1, l)] as int] == body_local_shape(hir, interner@, b1, l)->0,
            bodies <= u32::MAX,
        decreases bodies - b,
    {
        let body = b as u32;
        let (params, ret) = match owner_of(hir, body) {
            Some(proc) => match ctx.sigs.proc_sig(proc) {
                Some(sig) => (copy_ids(&sig.params), sig.ret),
                None => (Vec::new(), ERROR),
            },
            None => (Vec::new(), ERROR),
        };
        ctx.body = Some(BodyEnv { id: body, params, ret });
        let root = hir.bodies[b].root;
        let ghost before = ctx;
        ctx.check_stmt(body, root);
        proof {
            if plain_file(hir, interner@, imports@.len() == 0) {
                assert(plain_stmt_diags(hir, interner@, imports@.len() == 0, b as BodyId, hir.bodies@[b as int].root) is Some);
                assert(body == b as BodyId);
                lemma_emitted_trans(
                    Seq::empty(),
                    before.diags@,
                    ctx.diags@,
                    plain_file_diags(hir, interner@, imports@.len() == 0, b as nat),
                    plain_stmt_diags(hir, interner@, imports@.len() == 0, body, root)->0,
                );
                assert(plain_file_diags(hir, interner@, imports@.len() == 0, (b + 1) as nat) == plain_file_diags(hir, interner@, imports@.len() == 0, b as nat)
                    + plain_stmt_diags(hir, interner@, imports@.len() == 0, body, root)->0);
                assert forall|b1: BodyId, l: LocalId| #[trigger]
                    body_local_shape(hir, interner@, b1, l) is Some && b1 < b + 1 implies ctx.types.local_entries().contains_key(
                    local_key(b1, l),
                ) && ctx.pool@[ctx.types.local_entries()[local_key(b1, l)] as int] == body_local_shape(hir, interner@, b1, l)->0 by {
                    let key = local_key(b1, l);
                    if b1 < b {
                        assert(b1 != body);
                        assert(before.types.local_entries().contains_key(key));
                        assert(ctx.types.local_entries()[key] == before.types.local_entries()[key]);
                        assert(before.types.local_entries()[key] < before.pool@.len());
                    } else {
                        assert(b1 == body);
                    }
                }
            }
            assert(spec_stmt_tree_fits(hir, interner@, ctx.diags@, body, root));
            assert forall|k: int| 0 <= k < b + 1 implies spec_stmt_tree_fits(
                hir,
                interner@,
                ctx.diags@,
                k as BodyId,
                (#[trigger] hir.bodies@[k]).root,
            ) by {
                if k < b {
                    lemma_stmt_tree_fits_kept(hir, interner@, before.diags@, ctx.diags@, k as BodyId, hir.bodies@[k].root);
                } else {
                    assert(k as BodyId == body);
                }
            }
            assert forall|q: int| #[trigger] must_without_result(hir, *signatures, q) implies diag_present(
                ctx.diags@,
                Code::E0288,
                hir.procs@[q].span,
            ) by {
                lemma_present_kept(before.diags@, ctx.diags@, Code::E0288, hir.procs@[q].span);
            }
            assert forall|q: int| #[trigger] bad_foreign_operand(hir, *signatures, imports@, q) implies diag_present(
                ctx.diags@,
                Code::E0225,
                hir.procs@[q].foreign->0.span,
            ) by {
                lemma_present_kept(before.diags@, ctx.diags@, Code::E0225, hir.procs@[q].foreign->0.span);
            }
            assert(spec_stmt_tree_typed(hir, ctx.types, body, root));
            assert forall|k: int| 0 <= k < hir.items@.len() implies ((#[trigger] hir.items@[k]).kind matches ItemKind::Run(e)
                ==> ctx.types.spec_expr_type(ExprScope::TopLevel, e) is Some) by {
                match hir.items@[k].kind {
                    ItemKind::Run(e) => {
                        assert(before.types.spec_expr_type(ExprScope::TopLevel, e) is Some);
                        assert(before.types.expr_entries().contains_key(crate::map::expr_key(ExprScope::TopLevel, e)));
                    },
                    _ => {},
                }
            }
            assert forall|k: int| 0 <= k < b + 1 implies spec_stmt_tree_typed(hir, ctx.types, k as BodyId, (#[trigger] hir.bodies@[k]).root) by {
                if k < b {
                    lemma_stmt_tree_typed_grows(hir, before.types, ctx.types, k as BodyId, hir.bodies@[k].root);
                } else {
                    assert(k as BodyId == body);
                }
            }
        }
        ctx.body = None;
        b = b + 1;
    }
    let type_name_imports = ctx.sigs.modules_used_in_type_position();
    let Ctx { pool: finished_pool, types, diags, filled_calls, .. } = ctx;
    *pool = finished_pool;
    CheckOutput { types, diagnostics: diags, type_name_imports, filled_calls }
}

} // verus!
