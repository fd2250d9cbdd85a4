//! Name lookup and the declarations' own checks: what a name means in this file or an
//! import, the diagnostics for a name that is missing, ambiguous or not a type, and the
//! rules an operator overload must meet.

use vstd::prelude::*;
use crate::ctx::{Code, Ctx, int_literal_code, concat3, concat5, entries_valid, lemma_grows_trans, pushed, spec_expect, spec_int_literal_type};
use crate::hir::{
    BinOp, EnumMember, Expr, ExprId, ExprScope, FileHir, Item, ItemId, ItemKind, Literal, ProcId, Res, Span, Symbol, expr_at,
    spec_expr_at, spec_text,
};
use crate::ints::{is_power_of_two, next_power_of_two_above, push_digits};
use crate::ops::{bin_op_text, is_arithmetic};
use crate::pool::{DeclId, Field, PoolId, Shape, TypeItem, ERROR, BOOL, STRING, fields_fit, fields_view, member_value_of, spec_pointee};
use crate::sigs::{FileSignatures, ProcSig, SigEntry, SigKind, clone_fields};
pub use crate::sigs::{copy_ids, copy_sig};

verus! {

/// Whether an enum with these members has one called `name`.
pub open spec fn spec_member_known(members: Option<Seq<(u32, i64)>>, name: Symbol) -> bool {
    match members {
        Some(ms) => member_value_of(ms, name) is Some,
        None => false,
    }
}

/// Whether a value of type `from` converts to type `to`: an integer or an enum converts
/// to an integer.
pub open spec fn conversion_allowed(items: Seq<Shape>, from: PoolId, to: PoolId) -> bool {
    (items[from as int] is Int || items[from as int] is Enum) && items[to as int] is Int
}

/// The module path the first aliased `#import` from item `i` on binds to `alias`.
pub open spec fn spec_alias_path(items: Seq<Item>, alias: Symbol, i: int) -> Option<Seq<char>>
    decreases items.len() - i,
{
    if i < 0 || i >= items.len() {
        None
    } else {
        match items[i].kind {
            ItemKind::Import { path, alias: Some(bound) } => if bound == alias {
                Some(path@)
            } else {
                spec_alias_path(items, alias, i + 1)
            },
            _ => spec_alias_path(items, alias, i + 1),
        }
    }
}

/// The position of the first import from `i` on whose module is `path`.
pub open spec fn spec_import_at(imports: Seq<(&str, &FileSignatures)>, path: Seq<char>, i: int) -> Option<int>
    decreases imports.len() - i,
{
    if i < 0 || i >= imports.len() {
        None
    } else if imports[i].0@ == path {
        Some(i)
    } else {
        spec_import_at(imports, path, i + 1)
    }
}

/// The type a literal takes from its context.
pub open spec fn spec_literal_type(items: Seq<Shape>, literal: Literal, expected: Option<PoolId>) -> PoolId {
    match literal {
        Literal::Bool(_) => spec_expect(expected, BOOL),
        Literal::Str(_) => spec_expect(expected, STRING),
        Literal::Int(_) => spec_int_literal_type(items, expected),
        Literal::Null => match expected {
            Some(w) => if w != ERROR && spec_pointee(items, w) is Some {
                w
            } else {
                ERROR
            },
            None => ERROR,
        },
    }
}

/// A `string` or a struct: a type with no `==`.
pub open spec fn spec_is_aggregate(items: Seq<Shape>, ty: PoolId) -> bool {
    items[ty as int] is Str || items[ty as int] is Struct || items[ty as int] is Array || items[ty as int] is View
        || items[ty as int] is Results
}


/// The integer a resolved name denotes, when it names a constant of this file whose
/// initialiser is an integer literal.
pub open spec fn spec_named_constant_int(hir: &FileHir, res: Res) -> Option<i128> {
    match res {
        Res::Item(item) => if item < hir.items@.len() {
            match hir.items@[item as int].kind {
                ItemKind::Const { value } => match spec_expr_at(hir, ExprScope::TopLevel, value) {
                    Some(Expr::Literal(Literal::Int(v), _)) => Some(v),
                    _ => None,
                },
                _ => None,
            }
        } else {
            None
        },
        _ => None,
    }
}

/// Whether a resolved name is one of this file's `#foreign` procedures.
pub open spec fn spec_is_foreign_proc(ctx: &Ctx, res: Res) -> bool {
    let hir = ctx.hir;
    match res {
        Res::Item(item) => item < hir.items@.len() && match hir.items@[item as int].kind {
            ItemKind::Proc(proc) => proc < hir.procs@.len() && hir.procs@[proc as int].foreign is Some,
            _ => false,
        },
        Res::Imported(import, name) => import < ctx.imports@.len() && ctx.imports@[import as int].1.names_view().contains_key(
            name as u128,
        ) && {
            let ty = ctx.imports@[import as int].1.names_view()[name as u128].ty;
            ty < ctx.pool@.len() && (ctx.pool@[ty as int] matches Shape::Proc { c_call, .. } && c_call)
        },
        _ => false,
    }
}

/// The first item named `name`, as the file's scope finds it.
pub open spec fn spec_item_named(hir: &FileHir, name: Symbol) -> Option<ItemId> {
    if exists|i: int| 0 <= i < hir.items@.len() && hir.items@[i].name == Some(name) {
        let i = choose|i: int|
            0 <= i < hir.items@.len() && hir.items@[i].name == Some(name) && forall|j: int|
                0 <= j < i ==> hir.items@[j].name != Some(name);
        Some(i as ItemId)
    } else {
        None
    }
}

/// The library name a `#foreign` procedure's operand denotes: the name given to the
/// `#system_library` that the constant it names is declared as.
pub open spec fn spec_foreign_library_name(hir: &FileHir, proc: ProcId) -> Option<Seq<char>> {
    if proc < hir.procs@.len() {
        match hir.procs@[proc as int].foreign {
            Some(info) => match info.library {
                Some(l) => match spec_item_named(hir, l) {
                    Some(item) => match hir.items@[item as int].kind {
                        ItemKind::Const { value } => if value < hir.exprs@.len() {
                            match hir.exprs@[value as int] {
                                Expr::SystemLibrary(Some(name), _) => Some(name@),
                                _ => None,
                            }
                        } else {
                            None
                        },
                        _ => None,
                    },
                    None => None,
                },
                None => None,
            },
            None => None,
        }
    } else {
        None
    }
}

/// The array length a name denotes: the literal value of the constant it names, when
/// no array length exceeds it and it is not negative.
pub open spec fn spec_constant_array_length(hir: &FileHir, name: Symbol) -> Option<u64> {
    match spec_item_named(hir, name) {
        Some(item) => match spec_named_constant_int(hir, Res::Item(item)) {
            Some(v) => if 0 <= v <= u64::MAX { Some(v as u64) } else { None },
            None => None,
        },
        None => None,
    }
}

/// Whether `v` fits `s64`.
pub open spec fn fits_s64(v: i128) -> bool {
    i64::MIN <= v <= i64::MAX
}

/// The value an enum member's written value expression gives it, when it is usable.
pub open spec fn spec_member_literal(hir: &FileHir, expr: ExprId) -> Option<i64> {
    match spec_expr_at(hir, ExprScope::TopLevel, expr) {
        Some(Expr::Literal(Literal::Int(v), _)) => if fits_s64(v) {
            Some(v as i64)
        } else {
            None
        },
        Some(Expr::Name { res, .. }) => match spec_named_constant_int(hir, res) {
            Some(v) => if fits_s64(v) {
                Some(v as i64)
            } else {
                None
            },
            None => None,
        },
        _ => None,
    }
}

/// `next` is the value a member without one takes after a member of value `prev`: one
/// more, saturating, or for flags the next power of two above it.
pub open spec fn auto_follows(flags: bool, prev: i64, next: i64) -> bool {
    if flags {
        &&& prev <= 0 ==> next == 1
        &&& 0 < prev < 0x4000_0000_0000_0000 ==> is_power_of_two(next as int) && prev < next && next <= 2 * prev
        &&& prev >= 0x4000_0000_0000_0000 ==> next == i64::MAX
    } else {
        next == if prev == i64::MAX {
            i64::MAX
        } else {
            (prev + 1) as i64
        }
    }
}

/// Member `k` of `resolved` is member `k` of `members` with the value the rules give it.
pub open spec fn member_follows(hir: &FileHir, members: Seq<EnumMember>, flags: bool, resolved: Seq<(u32, i64)>, k: int) -> bool {
    &&& resolved[k].0 == members[k].name
    &&& if members[k].value is Some && spec_member_literal(hir, members[k].value->0) is Some {
        resolved[k].1 == spec_member_literal(hir, members[k].value->0)->0
    } else if k == 0 {
        resolved[k].1 == (if flags {
            1i64
        } else {
            0i64
        })
    } else {
        auto_follows(flags, resolved[k - 1].1, resolved[k].1)
    }
}

/// The resolved members of an enum follow its declaration, member by member.
pub open spec fn enum_values_follow(hir: &FileHir, members: Seq<EnumMember>, flags: bool, resolved: Seq<(u32, i64)>) -> bool {
    &&& resolved.len() == members.len()
    &&& forall|k: int| 0 <= k < members.len() ==> member_follows(hir, members, flags, resolved, k)
}

/// Whether this file or any of its imports declares an operator overload.
pub open spec fn spec_any_overloads(ctx: &Ctx) -> bool {
    ctx.sigs.operators_view().len() > 0 || exists|i: int|
        0 <= i < ctx.imports@.len() && (#[trigger] ctx.imports@[i]).1.operators_view().len() > 0
}

/// Whether `ty` is a struct or enum type declared in `file`.
pub open spec fn spec_declared_in(items: Seq<Shape>, ty: PoolId, file: u32) -> bool {
    match items[ty as int] {
        Shape::Struct(decl) => decl.file == file,
        Shape::Enum { decl, .. } => decl.file == file,
        _ => false,
    }
}

/// An overload that is refused before the table is consulted: the wrong number of
/// operands, an operator that cannot be overloaded, or no operand type of this file.
pub open spec fn overload_refusal(ctx: &Ctx, op: BinOp, sig: ProcSig) -> bool {
    ||| sig.params@.len() != 2
    ||| (sig.params@[0] != ERROR && sig.params@[1] != ERROR && (op_not_overloadable(op) || (
        !spec_declared_in(ctx.pool@, sig.params@[0], ctx.file) && !spec_declared_in(ctx.pool@, sig.params@[1], ctx.file))))
}

/// An overload that passes every rule but uniqueness.
pub open spec fn overload_accepted(ctx: &Ctx, op: BinOp, sig: ProcSig) -> bool {
    &&& sig.params@.len() == 2
    &&& sig.params@[0] != ERROR
    &&& sig.params@[1] != ERROR
    &&& !op_not_overloadable(op)
    &&& (spec_declared_in(ctx.pool@, sig.params@[0], ctx.file) || spec_declared_in(ctx.pool@, sig.params@[1], ctx.file))
}

/// The wrapping, bitwise and short-circuit operators, which no overload may replace.
pub open spec fn op_not_overloadable(op: BinOp) -> bool {
    match op {
        BinOp::WrapAdd | BinOp::WrapSub | BinOp::WrapMul | BinOp::BitAnd | BinOp::BitOr | BinOp::BitXor
        | BinOp::Shl | BinOp::Shr | BinOp::And | BinOp::Or => true,
        _ => false,
    }
}

/// An entry whose types are all interned in a pool of `n` types.
pub open spec fn entry_fits(e: SigEntry, n: nat) -> bool {
    e.ty < n && (e.type_value matches Some(t) ==> t < n)
}

/// A signature whose types are all interned in a pool of `n` types.
pub open spec fn sig_fits(sig: ProcSig, n: nat) -> bool {
    &&& sig.ret < n
    &&& sig.ty < n
    &&& forall|j: int| 0 <= j < sig.params@.len() ==> sig.params@[j] < n
}

/// The texts of the names in `order` that a signature table declares as types.
pub open spec fn spec_type_texts(sigs: FileSignatures, order: Seq<u128>, names: Seq<Seq<char>>) -> Seq<Seq<char>>
    decreases order.len(),
{
    if order.len() == 0 {
        Seq::empty()
    } else {
        let before = spec_type_texts(sigs, order.drop_last(), names);
        let key = order.last();
        if sigs.names_view().contains_key(key) && sigs.names_view()[key].type_value is Some {
            before.push(spec_text(names, key as Symbol))
        } else {
            before
        }
    }
}

/// The type names the first `m` imports declare, each import's in its own order.
pub open spec fn spec_import_type_texts(imports: Seq<(&str, &FileSignatures)>, m: int, names: Seq<Seq<char>>) -> Seq<
    Seq<char>,
>
    decreases m,
{
    if m <= 0 || m > imports.len() {
        Seq::empty()
    } else {
        spec_import_type_texts(imports, m - 1, names) + spec_type_texts(
            *imports[m - 1].1,
            imports[m - 1].1.name_order(),
            names,
        )
    }
}

/// The builtin type names, in the order a suggestion prefers them.
pub open spec fn spec_builtin_type_names() -> Seq<Seq<char>> {
    seq!["s8"@, "s16"@, "s32"@, "s64"@, "u8"@, "u16"@, "u32"@, "u64"@, "bool"@, "string"@]
}

/// Every type name an unknown type name may have meant: the builtins, this file's
/// types, then each import's.
pub open spec fn spec_type_candidates(ctx: &Ctx) -> Seq<Seq<char>> {
    spec_builtin_type_names() + spec_type_texts(ctx.sigs, ctx.sigs.name_order(), ctx.interner@)
        + spec_import_type_texts(ctx.imports@, ctx.imports@.len() as int, ctx.interner@)
}

/// The texts of a list of names.
pub open spec fn texts_of(cands: Seq<&str>) -> Seq<Seq<char>> {
    Seq::new(cands.len(), |i: int| cands[i]@)
}

/// What `nearest` answers for `wanted` among `cands`.
pub open spec fn nearest_answer(wanted: Seq<char>, cands: Seq<&str>, r: Option<&str>) -> bool {
    &&& (r is None <==> (crate::suggest::has_exact(wanted, cands) || crate::suggest::spec_threshold(wanted.len()) == 0
        || forall|i: int| 0 <= i < cands.len() ==> crate::suggest::candidate_distance(wanted, cands, i)
        > crate::suggest::spec_threshold(wanted.len())))
    &&& (r matches Some(c) ==> exists|k: int| crate::suggest::is_suggestion(wanted, cands, k) && c == #[trigger] cands[k])
}

/// The type `module.name` denotes: the type an imported module exports under `name`;
/// poison when the alias names no imported module, or the module exports no such type.
pub open spec fn qualified_type(ctx: &Ctx, module: Symbol, name: Symbol) -> PoolId {
    match spec_alias_path(ctx.hir.items@, module, 0) {
        None => ERROR,
        Some(path) => match spec_import_at(ctx.imports@, path, 0) {
            None => ERROR,
            Some(k) => {
                let names = ctx.imports@[k].1.names_view();
                if !names.contains_key(name as u128) {
                    ERROR
                } else {
                    match names[name as u128].type_value {
                        Some(t) => t,
                        None => ERROR,
                    }
                }
            },
        },
    }
}

/// What `module.name` reports: E0212 when the module exports nothing under `name`, E0213
/// when what it exports is not a type; nothing otherwise.
pub open spec fn qualified_code(ctx: &Ctx, module: Symbol, name: Symbol) -> Option<Code> {
    match spec_alias_path(ctx.hir.items@, module, 0) {
        None => None,
        Some(path) => match spec_import_at(ctx.imports@, path, 0) {
            None => None,
            Some(k) => {
                let names = ctx.imports@[k].1.names_view();
                if !names.contains_key(name as u128) {
                    Some(Code::E0212)
                } else {
                    match names[name as u128].type_value {
                        Some(_) => None,
                        None => Some(Code::E0213),
                    }
                }
            },
        },
    }
}

impl<'a> Ctx<'a> {
    /// Records a named declaration's signature.
    pub fn record_entry(&mut self, name: Symbol, entry: SigEntry)
        requires
            old(self).inv(),
            old(self).mode == crate::ctx::Mode::Signatures,
            entry_fits(entry, old(self).pool@.len()),
            forall|i: int| 0 <= i < old(self).finished@.len() && #[trigger] old(self).finished@[i] && old(self).hir.items@[i].name
                == Some(name) ==> !crate::ctx::name_unique(old(self).hir, i),
        ensures
            final(self).grows_from(old(self)),
            final(self).sigs.names_view() == old(self).sigs.names_view().insert(name as u128, entry),
            final(self).finished == old(self).finished,
            final(self).pool == old(self).pool,
            final(self).types == old(self).types,
            final(self).diags == old(self).diags,
    {
        self.sigs.insert(name, entry);
    }

    /// Records the display name of a nominal type.
    pub fn record_type_name(&mut self, ty: PoolId, name: String)
        requires
            old(self).inv(),
            old(self).mode == crate::ctx::Mode::Signatures,
            crate::ctx::named_nominal(
                old(self).hir,
                old(self).file,
                old(self).interner@,
                old(self).pool@,
                ty as u128,
                name@,
            ),
        ensures
            final(self).grows_from(old(self)),
            final(self).sigs.type_names_view() == old(self).sigs.type_names_view().insert(ty as u128, name@),
            final(self).sigs.names_view() == old(self).sigs.names_view(),
            final(self).finished == old(self).finished,
            final(self).pool == old(self).pool,
            final(self).types == old(self).types,
            final(self).diags == old(self).diags,
    {
        self.sigs.insert_type_name(ty, name);
    }

    /// Records that a type name was resolved from an imported module.
    pub fn record_type_name_import(&mut self, name: Symbol, module: &str)
        requires
            old(self).inv(),
        ensures
            final(self).grows_from(old(self)),
            final(self).sigs.type_name_imports_view() == old(self).sigs.type_name_imports_view().insert(
                name as u128,
                module@,
            ),
            final(self).sigs.names_view() == old(self).sigs.names_view(),
            final(self).pool == old(self).pool,
            final(self).types == old(self).types,
            final(self).diags == old(self).diags,
    {
        self.sigs.insert_type_name_import(name, module);
    }

    /// Records a procedure's resolved signature.
    pub fn record_proc_sig(&mut self, proc: ProcId, sig: ProcSig)
        requires
            old(self).inv(),
            old(self).mode == crate::ctx::Mode::Signatures,
            sig_fits(sig, old(self).pool@.len()),
        ensures
            final(self).grows_from(old(self)),
            final(self).sigs.procs_view() == old(self).sigs.procs_view().insert(proc as u128, sig),
            final(self).sigs.names_view() == old(self).sigs.names_view(),
            final(self).pool == old(self).pool,
            final(self).types == old(self).types,
            final(self).diags == old(self).diags,
            final(self).finished == old(self).finished,
    {
        self.sigs.insert_proc(proc, sig);
    }

    /// Records the library a `#foreign` procedure binds to.
    pub fn record_foreign_library(&mut self, proc: ProcId, library: PoolId)
        requires
            old(self).inv(),
        ensures
            final(self).grows_from(old(self)),
            final(self).sigs.foreign_libraries_view() == old(self).sigs.foreign_libraries_view().insert(
                proc as u128,
                library,
            ),
            final(self).sigs.names_view() == old(self).sigs.names_view(),
            final(self).sigs.procs_view() == old(self).sigs.procs_view(),
            final(self).pool == old(self).pool,
            final(self).types == old(self).types,
            final(self).diags == old(self).diags,
            final(self).finished == old(self).finished,
    {
        self.sigs.insert_foreign_library(proc, library);
    }

    /// Records a struct's resolved field list, both in the pool, where a field access
    /// reads it, and in the signatures, where an importer's pool gets it from.
    pub fn record_struct_body(&mut self, decl: DeclId, fields: Vec<Field>)
        requires
            old(self).inv(),
            fields_fit(fields_view(fields@), old(self).pool@.len()),
        ensures
            final(self).grows_from(old(self)),
            final(self).pool@ == old(self).pool@,
            final(self).pool.fields_of(decl) == Some(fields_view(fields@)),
            final(self).sigs.names_view() == old(self).sigs.names_view(),
            final(self).types == old(self).types,
            final(self).diags == old(self).diags,
    {
        let copy = clone_fields(&fields);
        let ghost n = self.pool@.len();
        let ghost before = self.pool;
        self.pool.set_struct_fields(decl, copy);
        proof {
            assert forall|d: DeclId| (#[trigger] self.pool.fields_of(d) is Some) implies fields_fit(
                self.pool.fields_of(d)->0,
                n,
            ) by {
                if d != decl {
                    assert(before.fields_of(d) == self.pool.fields_of(d));
                }
            }
        }
        let ghost sb = self.sigs.struct_bodies_view();
        self.sigs.insert_struct_body(decl, fields);
        proof {
            let nb = self.sigs.struct_bodies_view();
            assert forall|k: int| 0 <= k < nb.len() implies fields_fit(#[trigger] nb[k].1, n) by {
                if k < sb.len() {
                    assert(nb[k] == sb[k]);
                }
            }
        }
    }

    /// The signature of a name reached through an `#import`: `import` is the position of
    /// the module in the import list.
    pub fn entry_for_import(&self, import: u32, sym: Symbol) -> (r: Option<SigEntry>)
        requires
            self.inv(),
        ensures
            r matches Some(e) ==> entry_fits(e, self.pool@.len()),
            r == (if import < self.imports@.len() && self.imports@[import as int].1.names_view().contains_key(
                sym as u128,
            ) {
                Some(self.imports@[import as int].1.names_view()[sym as u128])
            } else {
                None
            }),
    {
        if (import as usize) < self.imports.len() {
            let sigs = self.imports[import as usize].1;
            proof {
                assert(entries_valid(*self.imports@[import as int].1, self.pool@.len()));
            }
            sigs.lookup(sym)
        } else {
            None
        }
    }

    /// Reports a constant whose type depends on itself (E0226).
    pub fn report_constant_cycle(&mut self, item: ItemId)
        requires
            old(self).inv(),
            item < old(self).hir.items@.len(),
        ensures
            final(self).only_diags_changed(old(self)),
            final(self).grows_from(old(self)),
            pushed(old(self).diags@, final(self).diags@, Code::E0226, old(self).hir.items@[item as int].span),
            final(self).pool == old(self).pool,
            final(self).types == old(self).types,
            final(self).sigs == old(self).sigs,
    {
        let hir = self.hir;
        let interner = self.interner;
        let declaration = &hir.items[item as usize];
        let name = match declaration.name {
            Some(n) => interner.text(n),
            None => "<unnamed>",
        };
        let message = concat3("the type of `", name, "` depends on itself");
        let mut notes: Vec<String> = Vec::new();
        notes.push("a constant's type comes from its value, so a cycle has no type".to_owned());
        let help = "annotate one of the declarations in the cycle with an explicit type".to_owned();
        self.report_full(Code::E0226, declaration.span, message, notes, Some(help));
    }

    /// Reports a type used where a runtime value is expected (E0261).
    pub fn reject_type_as_value(&mut self, span: Span)
        requires
            old(self).inv(),
        ensures
            final(self).only_diags_changed(old(self)),
            final(self).grows_from(old(self)),
            pushed(old(self).diags@, final(self).diags@, Code::E0261, span),
            final(self).pool == old(self).pool,
            final(self).types == old(self).types,
            final(self).sigs == old(self).sigs,
    {
        let mut notes: Vec<String> = Vec::new();
        notes.push("a type has no runtime representation, so there is nothing to store".to_owned());
        let help = "bind it with `::`, e.g. `T :: Point;`, or write it as a type annotation".to_owned();
        self.report_full(
            Code::E0261,
            span,
            "a type is a compile-time value, not a runtime one".to_owned(),
            notes,
            Some(help),
        );
    }

    /// Reports a type annotation that names something which is not a type (E0213).
    pub fn not_a_type(&mut self, sym: Symbol, kind: SigKind, span: Span)
        requires
            old(self).inv(),
        ensures
            final(self).only_diags_changed(old(self)),
            final(self).grows_from(old(self)),
            pushed(old(self).diags@, final(self).diags@, Code::E0213, span),
            final(self).pool == old(self).pool,
            final(self).types == old(self).types,
            final(self).sigs == old(self).sigs,
    {
        let name = self.interner.text(sym);
        let what = match kind {
            SigKind::Const => "a constant",
            SigKind::Var => "a variable",
            SigKind::Proc => "a procedure",
            SigKind::Operator => "an operator overload",
            SigKind::Struct | SigKind::Union | SigKind::Variant | SigKind::Enum => "a type",
        };
        let message = concat5("`", name, "` is ", what, ", not a type");
        self.report(Code::E0213, span, message);
    }

    /// Resolves a `#foreign` procedure's library operand to an interned library: the
    /// constant it names must be declared by a `#system_library` directive. `None` for a
    /// procedure that is not `#foreign`, names no library, or names anything else.
    pub fn foreign_library_of(&mut self, proc: ProcId) -> (r: Option<PoolId>)
        requires
            old(self).inv(),
        ensures
            final(self).grows_from(old(self)),
            final(self).only_pool_changed(old(self)),
            r is Some <==> spec_foreign_library_name(old(self).hir, proc) is Some,
            r matches Some(l) ==> l < final(self).pool@.len() && final(self).pool@[l as int] == Shape::LibraryValue(
                spec_foreign_library_name(old(self).hir, proc)->0,
            ),
    {
        let hir = self.hir;
        if (proc as usize) >= hir.procs.len() {
            return None;
        }
        let library = match &hir.procs[proc as usize].foreign {
            Some(info) => match info.library {
                Some(l) => l,
                None => {
                    return None;
                },
            },
            None => {
                return None;
            },
        };
        let item = match hir.item_named(library) {
            Some(i) => i,
            None => {
                return None;
            },
        };
        let value = match &hir.items[item as usize].kind {
            ItemKind::Const { value } => *value,
            _ => {
                return None;
            },
        };
        if (value as usize) >= hir.exprs.len() {
            return None;
        }
        match &hir.exprs[value as usize] {
            Expr::SystemLibrary(Some(name), _) => {
                let id = self.intern_type(TypeItem::ForeignLibraryValue(name.clone()));
                Some(id)
            },
            _ => None,
        }
    }


    /// Types a literal against its context.
    pub fn check_literal(&mut self, literal: &Literal, expected: Option<PoolId>, span: Span) -> (r: PoolId)
        requires
            old(self).inv(),
            expected matches Some(w) ==> w < old(self).pool@.len(),
        ensures
            final(self).grows_from(old(self)),
            final(self).only_diags_changed(old(self)),
            r < final(self).pool@.len(),
            r == spec_literal_type(old(self).pool@, *literal, expected),
            *literal matches Literal::Bool(_) ==> (crate::ctx::expect_mismatch(expected, BOOL) ==> pushed(
                old(self).diags@,
                final(self).diags@,
                crate::ctx::mismatch_code(old(self).pool@, expected->0, BOOL),
                span,
            )),
            *literal matches Literal::Int(v) ==> match int_literal_code(old(self).pool@, v, expected) {
                Some(code) => pushed(old(self).diags@, final(self).diags@, code, span),
                None => final(self).diags@ == old(self).diags@,
            },
    {
        match literal {
            Literal::Bool(_) => self.expect(expected, BOOL, span),
            Literal::Str(_) => self.expect(expected, STRING, span),
            Literal::Int(value) => self.check_int_literal(*value, expected, span),
            Literal::Null => self.check_null_literal(expected, span),
        }
    }

    /// Resolves a type name that no builtin and no declaration of this file provides,
    /// through the imports: exactly one must provide it, and it must denote a type.
    pub fn resolve_imported_type_name(&mut self, sym: Symbol, span: Span) -> (r: PoolId)
        requires
            old(self).inv(),
        ensures
            final(self).grows_from(old(self)),
            r < final(self).pool@.len(),
            final(self).pool == old(self).pool,
            final(self).types == old(self).types,
            old(self).imports@.len() == 0 ==> r == ERROR && pushed(old(self).diags@, final(self).diags@, Code::E0212, span),
    {
        let n = self.imports.len();
        let mut count: usize = 0;
        let mut first: Option<(usize, SigEntry)> = None;
        let mut modules = String::new();
        let mut i: usize = 0;
        while i < n
            invariant
                n == self.imports@.len(),
                i <= n,
                count <= i,
                self.inv(),
                first matches Some((k, e)) ==> k < n && entry_fits(e, self.pool@.len()),
                count > 0 ==> first is Some,
            decreases n - i,
        {
            let (module, sigs) = self.imports[i];
            proof {
                assert(entries_valid(*self.imports@[i as int].1, self.pool@.len()));
            }
            match sigs.lookup(sym) {
                Some(entry) => {
                    if count == 0 {
                        first = Some((i, entry));
                    } else {
                        modules.append(", ");
                    }
                    modules.append("`");
                    modules.append(module);
                    modules.append("`");
                    count = count + 1;
                },
                None => {},
            }
            i = i + 1;
        }
        if count == 0 {
            self.unknown_type(sym, span);
            return ERROR;
        }
        if count > 1 {
            let name = self.interner.text(sym);
            let message = concat5("ambiguous type name `", name, "`: provided by multiple imported modules: ", modules.as_str(), "");
            let help = "declare the type in this file to shadow both, or rename one".to_owned();
            self.report_full(Code::E0211, span, message, Vec::new(), Some(help));
            return ERROR;
        }
        match first {
            Some((k, entry)) => match entry.type_value {
                Some(ty) => {
                    let module = self.imports[k].0;
                    self.record_type_name_import(sym, module);
                    ty
                },
                None => {
                    self.not_a_type(sym, entry.kind, span);
                    ERROR
                },
            },
            None => ERROR,
        }
    }

    /// Reports a type annotation that names nothing (E0212), with the nearest name that
    /// does denote a type as a "did you mean".
    pub fn unknown_type(&mut self, sym: Symbol, span: Span)
        requires
            old(self).inv(),
        ensures
            final(self).only_diags_changed(old(self)),
            final(self).grows_from(old(self)),
            pushed(old(self).diags@, final(self).diags@, Code::E0212, span),
            final(self).pool == old(self).pool,
            final(self).types == old(self).types,
            final(self).sigs == old(self).sigs,
    {
        let name = self.interner.text(sym);
        if crate::suggest::str_eq(name, "void") {
            let mut notes: Vec<String> = Vec::new();
            notes.push("`void` is a real type and `size_of(void)` is 0, but it has no spelling in a type annotation".to_owned());
            let help = "a procedure that returns nothing omits the `->` entirely; there is no `x: void` and no `*void`".to_owned();
            self.report_full(Code::E0212, span, "`void` cannot be used in type position".to_owned(), notes, Some(help));
            return;
        }
        let message = concat3("unknown type name `", name, "`");
        let mut notes: Vec<String> = Vec::new();
        notes.push("the builtin types are `s8`, `s16`, `s32`, `s64`, `u8`, `u16`, `u32`, `u64`, `bool` and `string`".to_owned());
        let help = match self.nearest_type_name(name) {
            Some(near) => Some(concat3("did you mean `", near, "`?")),
            None => None,
        };
        self.report_full(Code::E0212, span, message, notes, help);
    }

    /// The nearest name denoting a type to one that does not exist, searched in the order
    /// resolution uses — builtins, this file, then the imports — so that of two equally
    /// near names the one resolution would pick is the one suggested.
    pub fn nearest_type_name(&self, wanted: &str) -> (r: Option<&'a str>)
        requires
            self.inv(),
            wanted@.len() < usize::MAX,
        ensures
            exists|cands: Seq<&'a str>| #[trigger] texts_of(cands) == spec_type_candidates(self) && nearest_answer(
                wanted@,
                cands,
                r,
            ),
    {
        proof {
            reveal_strlit("s8");
            reveal_strlit("s16");
            reveal_strlit("s32");
            reveal_strlit("s64");
            reveal_strlit("u8");
            reveal_strlit("u16");
            reveal_strlit("u32");
            reveal_strlit("u64");
            reveal_strlit("bool");
            reveal_strlit("string");
        }
        let interner = self.interner;
        let mut candidates: Vec<&'a str> = Vec::new();
        candidates.push("s8");
        candidates.push("s16");
        candidates.push("s32");
        candidates.push("s64");
        candidates.push("u8");
        candidates.push("u16");
        candidates.push("u32");
        candidates.push("u64");
        candidates.push("bool");
        candidates.push("string");
        proof {
            assert(texts_of(candidates@) =~= spec_builtin_type_names());
        }
        let own = self.sigs.declared_names();
        let ghost order = self.sigs.name_order();
        let mut i: usize = 0;
        while i < own.len()
            invariant
                self.inv(),
                interner == self.interner,
                i <= own@.len(),
                own@.len() == order.len(),
                order == self.sigs.name_order(),
                forall|k: int| 0 <= k < own@.len() ==> #[trigger] own@[k] as u128 == order[k],
                forall|k: int| 0 <= k < candidates@.len() ==> (#[trigger] candidates@[k])@.len() < usize::MAX,
                texts_of(candidates@) == spec_builtin_type_names() + spec_type_texts(
                    self.sigs,
                    order.subrange(0, i as int),
                    interner@,
                ),
            decreases own@.len() - i,
        {
            let sym = own[i];
            let ghost before = candidates@;
            proof {
                assert(order.subrange(0, i + 1).drop_last() =~= order.subrange(0, i as int));
                assert(order.subrange(0, i + 1).last() == sym as u128);
                assert((sym as u128) as Symbol == sym);
            }
            match self.sigs.lookup(sym) {
                Some(entry) => {
                    if entry.type_value.is_some() {
                        let text = interner.text(sym);
                        proof {
                            if sym < interner@.len() {
                                assert(interner@[sym as int].len() < usize::MAX);
                            }
                        }
                        candidates.push(text);
                    }
                },
                None => {},
            }
            proof {
                let prefix = order.subrange(0, i + 1);
                assert(spec_type_texts(self.sigs, prefix, interner@) == if self.sigs.names_view().contains_key(sym as u128)
                    && self.sigs.names_view()[sym as u128].type_value is Some {
                    spec_type_texts(self.sigs, order.subrange(0, i as int), interner@).push(spec_text(interner@, sym))
                } else {
                    spec_type_texts(self.sigs, order.subrange(0, i as int), interner@)
                });
                if candidates@.len() > before.len() {
                    assert(candidates@ == before.push(candidates@.last()));
                    assert(texts_of(candidates@) =~= texts_of(before).push(candidates@.last()@));
                } else {
                    assert(candidates@ == before);
                }
                assert(texts_of(candidates@) =~= spec_builtin_type_names() + spec_type_texts(
                    self.sigs,
                    order.subrange(0, i + 1),
                    interner@,
                ));
            }
            i = i + 1;
        }
        proof {
            assert(order.subrange(0, order.len() as int) =~= order);
            assert(texts_of(candidates@) =~= spec_builtin_type_names() + spec_type_texts(self.sigs, order, interner@)
                + spec_import_type_texts(self.imports@, 0, interner@));
        }
        let mut m: usize = 0;
        while m < self.imports.len()
            invariant
                self.inv(),
                interner == self.interner,
                m <= self.imports@.len(),
                order == self.sigs.name_order(),
                forall|k: int| 0 <= k < candidates@.len() ==> (#[trigger] candidates@[k])@.len() < usize::MAX,
                texts_of(candidates@) == spec_builtin_type_names() + spec_type_texts(self.sigs, order, interner@)
                    + spec_import_type_texts(self.imports@, m as int, interner@),
            decreases self.imports@.len() - m,
        {
            let sigs = self.imports[m].1;
            proof {
                assert(sigs.wf());
            }
            let theirs = sigs.declared_names();
            let ghost their_order = sigs.name_order();
            let ghost head = spec_builtin_type_names() + spec_type_texts(self.sigs, order, interner@)
                + spec_import_type_texts(self.imports@, m as int, interner@);
            proof {
                assert(their_order.subrange(0, 0) =~= Seq::<u128>::empty());
                assert(texts_of(candidates@) =~= head + spec_type_texts(*sigs, their_order.subrange(0, 0), interner@));
            }
            let mut j: usize = 0;
            while j < theirs.len()
                invariant
                    self.inv(),
                    interner == self.interner,
                    sigs.wf(),
                    j <= theirs@.len(),
                    theirs@.len() == their_order.len(),
                    their_order == sigs.name_order(),
                    forall|k: int| 0 <= k < theirs@.len() ==> #[trigger] theirs@[k] as u128 == their_order[k],
                    forall|k: int| 0 <= k < candidates@.len() ==> (#[trigger] candidates@[k])@.len() < usize::MAX,
                    texts_of(candidates@) == head + spec_type_texts(*sigs, their_order.subrange(0, j as int), interner@),
                decreases theirs@.len() - j,
            {
                let sym = theirs[j];
                let ghost inner_before = candidates@;
                proof {
                    assert(their_order.subrange(0, j + 1).drop_last() =~= their_order.subrange(0, j as int));
                    assert(their_order.subrange(0, j + 1).last() == sym as u128);
                    assert((sym as u128) as Symbol == sym);
                }
                match sigs.lookup(sym) {
                    Some(entry) => {
                        if entry.type_value.is_some() {
                            let text = interner.text(sym);
                            proof {
                                if sym < interner@.len() {
                                    assert(interner@[sym as int].len() < usize::MAX);
                                }
                            }
                            candidates.push(text);
                        }
                    },
                    None => {},
                }
                proof {
                    let prefix = their_order.subrange(0, j + 1);
                    assert(spec_type_texts(*sigs, prefix, interner@) == if sigs.names_view().contains_key(sym as u128)
                        && sigs.names_view()[sym as u128].type_value is Some {
                        spec_type_texts(*sigs, their_order.subrange(0, j as int), interner@).push(spec_text(interner@, sym))
                    } else {
                        spec_type_texts(*sigs, their_order.subrange(0, j as int), interner@)
                    });
                    if candidates@.len() > inner_before.len() {
                        assert(candidates@ == inner_before.push(candidates@.last()));
                        assert(texts_of(candidates@) =~= texts_of(inner_before).push(candidates@.last()@));
                    } else {
                        assert(candidates@ == inner_before);
                    }
                    assert(texts_of(candidates@) =~= head + spec_type_texts(
                        *sigs,
                        their_order.subrange(0, j + 1),
                        interner@,
                    ));
                }
                j = j + 1;
            }
            proof {
                assert(their_order.subrange(0, their_order.len() as int) =~= their_order);
                assert(spec_import_type_texts(self.imports@, m + 1, interner@) == spec_import_type_texts(
                    self.imports@,
                    m as int,
                    interner@,
                ) + spec_type_texts(*sigs, their_order, interner@));
                assert(texts_of(candidates@) =~= spec_builtin_type_names() + spec_type_texts(self.sigs, order, interner@)
                    + spec_import_type_texts(self.imports@, m + 1, interner@));
            }
            m = m + 1;
        }
        let slice = candidates.as_slice();
        let r = crate::suggest::nearest(wanted, slice);
        proof {
            assert(slice@ == candidates@);
            assert(texts_of(candidates@) == spec_type_candidates(self));
        }
        r
    }

    /// Whether `ty` is a nominal type declared in this file.
    pub fn declared_here(&self, ty: PoolId) -> (r: bool)
        requires
            ty < self.pool@.len(),
        ensures
            r == spec_declared_in(self.pool@, ty, self.file),
    {
        match self.pool.item(ty) {
            TypeItem::StructType(decl) => decl.file == self.file,
            TypeItem::EnumType { decl, .. } => decl.file == self.file,
            _ => false,
        }
    }

    /// Checks an operator overload and registers it, or reports why it cannot be one
    /// (E0246): it must take exactly two operands, overload an operator that may be
    /// overloaded, have an operand type declared in this file, and not repeat an
    /// overload already registered for the same operand types.
    pub fn check_operator_overload(&mut self, op: BinOp, sig: &ProcSig, proc: ProcId, span: Span)
        requires
            old(self).inv(),
            sig_fits(*sig, old(self).pool@.len()),
        ensures
            final(self).grows_from(old(self)),
            final(self).pool == old(self).pool,
            final(self).types == old(self).types,
            final(self).sigs.names_view() == old(self).sigs.names_view(),
            overload_refusal(old(self), op, *sig) ==> pushed(old(self).diags@, final(self).diags@, Code::E0246, span)
                && final(self).sigs.operators_view() == old(self).sigs.operators_view(),
            overload_accepted(old(self), op, *sig) ==> match old(self).sigs.spec_operator(op, sig.params@[0], sig.params@[1]) {
                Some(_) => pushed(old(self).diags@, final(self).diags@, Code::E0246, span)
                    && final(self).sigs.operators_view() == old(self).sigs.operators_view(),
                None => final(self).diags@ == old(self).diags@ && final(self).sigs.operators_view()
                    == old(self).sigs.operators_view().push((op, sig.params@[0], sig.params@[1], proc)),
            },
    {
        let text = bin_op_text(op);
        if sig.params.len() != 2 {
            let mut message = concat3("an overload of `", text, "` must take exactly two parameters, not ");
            push_digits(&mut message, sig.params.len() as u128);
            let mut notes: Vec<String> = Vec::new();
            notes.push("unary operator overloading is not supported".to_owned());
            self.report_full(Code::E0246, span, message, notes, None);
            return;
        }
        let lhs = sig.params[0];
        let rhs = sig.params[1];
        if lhs == ERROR || rhs == ERROR {
            return;
        }
        let refusal = match op {
            BinOp::WrapAdd | BinOp::WrapSub | BinOp::WrapMul => Some(
                "the wrapping operators mean \"wrap the machine integer at this width\", which has no meaning for a user type",
            ),
            BinOp::BitAnd | BinOp::BitOr | BinOp::BitXor | BinOp::Shl | BinOp::Shr => Some(
                "the bitwise operators are reserved for `enum_flags`, whose design is that `&` on a flags type yields the flags type",
            ),
            BinOp::And | BinOp::Or => Some(
                "`&&` and `||` are control flow rather than operators, so an overload could not short-circuit",
            ),
            _ => None,
        };
        match refusal {
            Some(note) => {
                let message = concat3("`", text, "` cannot be overloaded");
                let mut notes: Vec<String> = Vec::new();
                notes.push(note.to_owned());
                self.report_full(Code::E0246, span, message, notes, None);
                return;
            },
            None => {},
        }
        if !self.declared_here(lhs) && !self.declared_here(rhs) {
            let lt = self.describe(lhs);
            let rt = self.describe(rhs);
            let mut message = concat5("an overload of `", text, "` for `", lt.as_str(), "` and `");
            message.append(rt.as_str());
            message.append("` needs a type declared in this file");
            let mut notes: Vec<String> = Vec::new();
            notes.push("at least one operand must be a struct, union or enum declared here, so an `#import` cannot change what an operator means for types it does not own".to_owned());
            self.report_full(Code::E0246, span, message, notes, None);
            return;
        }
        match self.sigs.insert_operator(op, lhs, rhs, proc) {
            Ok(()) => {},
            Err(_) => {
                let lt = self.describe(lhs);
                let rt = self.describe(rhs);
                let mut message = concat5("`", text, "` is already overloaded for `", lt.as_str(), "` and `");
                message.append(rt.as_str());
                message.append("`");
                let mut notes: Vec<String> = Vec::new();
                notes.push("resolution is an exact match on both operand types, so two overloads for the same pair have no way to be told apart".to_owned());
                self.report_full(Code::E0246, span, message, notes, None);
            },
        }
    }

    /// Whether `ty` is an aggregate, which `==` has no meaning for: a `string` or a struct.
    pub fn is_aggregate(&self, ty: PoolId) -> (r: bool)
        requires
            ty < self.pool@.len(),
        ensures
            r == spec_is_aggregate(self.pool@, ty),
    {
        match self.pool.item(ty) {
            TypeItem::StringType => true,
            TypeItem::StructType(_) => true,
            TypeItem::ArrayType { .. } => true,
            TypeItem::ViewType { .. } => true,
            TypeItem::ResultsType { .. } => true,
            _ => false,
        }
    }

    /// Reports an operator that does not apply to its operand type (E0223).
    pub fn reject_operator(&mut self, op: BinOp, ty_text: &str, span: Span)
        requires
            old(self).inv(),
        ensures
            final(self).only_diags_changed(old(self)),
            final(self).grows_from(old(self)),
            pushed(old(self).diags@, final(self).diags@, Code::E0223, span),
            final(self).pool == old(self).pool,
            final(self).types == old(self).types,
            final(self).sigs == old(self).sigs,
    {
        let message = concat5("operator `", bin_op_text(op), "` is not supported for `", ty_text, "`");
        self.report(Code::E0223, span, message);
    }

    /// Reports an operator an enum does not have (E0223), and says how to get the number.
    pub fn reject_enum_operator(&mut self, op: BinOp, ty_text: &str, span: Span)
        requires
            old(self).inv(),
        ensures
            final(self).only_diags_changed(old(self)),
            final(self).grows_from(old(self)),
            pushed(old(self).diags@, final(self).diags@, Code::E0223, span),
            final(self).pool == old(self).pool,
            final(self).types == old(self).types,
            final(self).sigs == old(self).sigs,
    {
        let message = concat5("operator `", bin_op_text(op), "` is not supported for `", ty_text, "`");
        let note = if is_arithmetic(op) {
            "an enum's members are named alternatives, not magnitudes, so arithmetic on one has no meaning as a member"
        } else {
            "an enum's members are named alternatives, not magnitudes: with auto-numbering an ordering would be true by an accident of declaration order"
        };
        let mut notes: Vec<String> = Vec::new();
        notes.push(note.to_owned());
        let help = "compare with `==`, or use `cast(s64, x)` to work with the number".to_owned();
        self.report_full(Code::E0223, span, message, notes, Some(help));
    }

    /// Reports a bitwise operator on a type with no bits to work on (E0223).
    pub fn reject_bitwise(&mut self, op: BinOp, ty_text: &str, span: Span)
        requires
            old(self).inv(),
        ensures
            final(self).only_diags_changed(old(self)),
            final(self).grows_from(old(self)),
            pushed(old(self).diags@, final(self).diags@, Code::E0223, span),
            final(self).pool == old(self).pool,
            final(self).types == old(self).types,
            final(self).sigs == old(self).sigs,
    {
        let message = concat5("operator `", bin_op_text(op), "` is not supported for `", ty_text, "`");
        let mut notes: Vec<String> = Vec::new();
        notes.push("bitwise operators apply to integers and to `enum_flags`".to_owned());
        self.report_full(Code::E0223, span, message, notes, None);
    }

    /// Reports a bitwise operator on a plain enum (E0223), naming `enum_flags`.
    pub fn reject_bitwise_on_plain_enum(&mut self, op: BinOp, ty_text: &str, span: Span)
        requires
            old(self).inv(),
        ensures
            final(self).only_diags_changed(old(self)),
            final(self).grows_from(old(self)),
            pushed(old(self).diags@, final(self).diags@, Code::E0223, span),
            final(self).pool == old(self).pool,
            final(self).types == old(self).types,
            final(self).sigs == old(self).sigs,
    {
        let message = concat5("operator `", bin_op_text(op), "` is not supported for `", ty_text, "`");
        let mut notes: Vec<String> = Vec::new();
        notes.push("a plain `enum`'s members are named alternatives, so combining two of them bitwise names no member".to_owned());
        let help = "declare it `enum_flags` if its members are meant to combine".to_owned();
        self.report_full(Code::E0223, span, message, notes, Some(help));
    }

    /// Reports a shift on a flags enum (E0223), which accepts every other bitwise operator.
    pub fn reject_shift_on_flags(&mut self, op: BinOp, ty_text: &str, span: Span)
        requires
            old(self).inv(),
        ensures
            final(self).only_diags_changed(old(self)),
            final(self).grows_from(old(self)),
            pushed(old(self).diags@, final(self).diags@, Code::E0223, span),
            final(self).pool == old(self).pool,
            final(self).types == old(self).types,
            final(self).sigs == old(self).sigs,
    {
        let message = concat5("operator `", bin_op_text(op), "` is not supported for `", ty_text, "`");
        let mut notes: Vec<String> = Vec::new();
        notes.push("shifting a flag set would produce another member by an accident of the numbering; `& | ^ ~` are the operators a flag set has".to_owned());
        let help = "use `cast(s64, x)` if the numeric value is what you want to shift".to_owned();
        self.report_full(Code::E0223, span, message, notes, Some(help));
    }

    /// Whether this file or any import declares an overload at all.
    pub fn any_operators_in_scope(&self) -> (r: bool)
        ensures
            r == spec_any_overloads(self),
    {
        if self.sigs.has_operators() {
            return true;
        }
        let mut i: usize = 0;
        while i < self.imports.len()
            invariant
                i <= self.imports@.len(),
                forall|k: int| 0 <= k < i ==> (#[trigger] self.imports@[k]).1.operators_view().len() == 0,
            decreases self.imports@.len() - i,
        {
            if self.imports[i].1.has_operators() {
                return true;
            }
            i = i + 1;
        }
        false
    }

    /// The overload for `op` on this exact operand pair and its return type: this
    /// file's first, then the imports', where two imports offering it is E0211.
    pub fn find_operator(&mut self, op: BinOp, lhs: PoolId, rhs: PoolId, span: Span) -> (r: Option<PoolId>)
        requires
            old(self).inv(),
        ensures
            final(self).grows_from(old(self)),
            final(self).pool == old(self).pool,
            final(self).types == old(self).types,
            r matches Some(t) ==> t < final(self).pool@.len(),
            old(self).sigs.spec_operator(op, lhs, rhs) is Some ==> r is Some && final(self).diags@ == old(self).diags@,
    {
        match self.sigs.operator(op, lhs, rhs) {
            Some(proc) => {
                return Some(self.ret_of(None, proc));
            },
            None => {},
        }
        let mut found: Option<(usize, ProcId)> = None;
        let mut first_name: &str = "";
        let mut modules = String::new();
        let mut ambiguous = false;
        let mut i: usize = 0;
        while i < self.imports.len()
            invariant
                self.inv(),
                i <= self.imports@.len(),
                found matches Some((k, _)) ==> k < self.imports@.len(),
            decreases self.imports@.len() - i,
        {
            let (name, sigs) = self.imports[i];
            proof {
                assert(sigs.wf());
            }
            match sigs.operator(op, lhs, rhs) {
                Some(proc) => match found {
                    None => {
                        found = Some((i, proc));
                        first_name = name;
                    },
                    Some(_) => {
                        if !ambiguous {
                            modules.append("`");
                            modules.append(first_name);
                            ambiguous = true;
                        }
                        modules.append("` and `");
                        modules.append(name);
                    },
                },
                None => {},
            }
            i = i + 1;
        }
        if ambiguous {
            modules.append("` each declare this overload");
            let mut notes: Vec<String> = Vec::new();
            notes.push(modules);
            let help = "declare one in this file, which shadows both".to_owned();
            self.report_full(
                Code::E0211,
                span,
                "operator overload is provided by more than one module".to_owned(),
                notes,
                Some(help),
            );
            return None;
        }
        match found {
            Some((k, proc)) => Some(self.ret_of(Some(k), proc)),
            None => None,
        }
    }

    /// The return type of procedure `proc` in this file's signatures (`None`) or in the
    /// import at position `k`; poison when the procedure has no recorded signature.
    pub fn ret_of(&self, import: Option<usize>, proc: ProcId) -> (r: PoolId)
        requires
            self.inv(),
            import matches Some(k) ==> k < self.imports@.len(),
        ensures
            r < self.pool@.len(),
    {
        let sigs = match import {
            None => &self.sigs,
            Some(k) => self.imports[k].1,
        };
        proof {
            assert(sigs.wf() && entries_valid(*sigs, self.pool@.len()));
        }
        match sigs.proc_sig(proc) {
            Some(sig) => sig.ret,
            None => ERROR,
        }
    }

    /// Reports a field that does not exist (E0218), with the nearest one as a "did you mean".
    pub fn no_such_field(&mut self, ty: PoolId, field: &str, span: Span)
        requires
            old(self).inv(),
            ty < old(self).pool@.len(),
            field@.len() < usize::MAX,
        ensures
            final(self).only_diags_changed(old(self)),
            final(self).grows_from(old(self)),
            pushed(old(self).diags@, final(self).diags@, Code::E0218, span),
            final(self).pool == old(self).pool,
            final(self).types == old(self).types,
            final(self).sigs == old(self).sigs,
    {
        proof {
            reveal_strlit("data");
            reveal_strlit("count");
        }
        let text = self.describe(ty);
        let names: Vec<String> = match self.pool.item(ty) {
            TypeItem::StringType => {
                let mut v: Vec<String> = Vec::new();
                v.push("data".to_owned());
                v.push("count".to_owned());
                v
            },
            TypeItem::StructType(decl) => self.pool.field_names(*decl),
            _ => Vec::new(),
        };
        proof {
            match self.pool@[ty as int] {
                Shape::Struct(decl) => {
                    assert(self.pool.fields_valid());
                    if self.pool.fields_of(decl) is Some {
                        assert(fields_fit(self.pool.fields_of(decl)->0, self.pool@.len()));
                    }
                },
                _ => {},
            }
        }
        let mut candidates: Vec<&str> = Vec::new();
        let mut i: usize = 0;
        while i < names.len()
            invariant
                i <= names@.len(),
                candidates@.len() == i,
                forall|k: int| 0 <= k < i ==> (#[trigger] candidates@[k])@ == names@[k]@,
            decreases names@.len() - i,
        {
            candidates.push(names[i].as_str());
            i = i + 1;
        }
        let help = match crate::suggest::nearest(field, candidates.as_slice()) {
            Some(near) => Some(concat3("did you mean `", near, "`?")),
            None => None,
        };
        let mut message = concat5("no field `", field, "` on type `", text.as_str(), "`");
        self.report_full(Code::E0218, span, message, Vec::new(), help);
    }

    /// The integer a constant's name denotes, when the constant's initialiser is an
    /// integer literal of this file. No evaluation: one level of naming only.
    pub fn named_constant_int(&self, res: Res) -> (r: Option<i128>)
        ensures
            r == spec_named_constant_int(self.hir, res),
    {
        let hir = self.hir;
        match res {
            Res::Item(item) => {
                if (item as usize) >= hir.items.len() {
                    return None;
                }
                match &hir.items[item as usize].kind {
                    ItemKind::Const { value } => match expr_at(hir, ExprScope::TopLevel, *value) {
                        Some(Expr::Literal(Literal::Int(v), _)) => Some(*v),
                        _ => None,
                    },
                    _ => None,
                }
            },
            _ => None,
        }
    }

    /// Reports an enum member whose value is not a usable constant (E0237).
    pub fn enum_member_not_constant(&mut self, was_a_name: bool, span: Span)
        requires
            old(self).inv(),
        ensures
            final(self).grows_from(old(self)),
            final(self).only_diags_changed(old(self)),
            pushed(old(self).diags@, final(self).diags@, Code::E0237, span),
    {
        if was_a_name {
            let mut notes: Vec<String> = Vec::new();
            notes.push("a member's value may be an integer literal, or a name for a constant whose value is one; a computed constant, a `#run`, or one from another file needs the compile-time evaluator, which semantic analysis runs before".to_owned());
            let help = "give the constant a literal value, e.g. `NOT_FOUND :: 404;`".to_owned();
            self.report_full(Code::E0237, span, "this enum member's value is not a usable constant".to_owned(), notes, Some(help));
        } else {
            let mut notes: Vec<String> = Vec::new();
            notes.push("an enum's members are typed with its declaration, before the compile-time evaluator runs, so an arithmetic or `#run` value is not available here".to_owned());
            let help = "write the value as a literal, e.g. `NOT_FOUND :: 404;`, or name a constant".to_owned();
            self.report_full(
                Code::E0237,
                span,
                "an enum member's value must be a literal or a named constant".to_owned(),
                notes,
                Some(help),
            );
        }
    }

    /// The value an enum member's written value expression gives it: an integer literal,
    /// or the name of a constant whose initialiser is one, either fitting `s64`; anything
    /// else is E0237.
    pub fn enum_member_literal(&mut self, expr: ExprId, span: Span) -> (r: Option<i64>)
        requires
            old(self).inv(),
        ensures
            final(self).grows_from(old(self)),
            final(self).only_diags_changed(old(self)),
            r == spec_member_literal(old(self).hir, expr),
            r is None ==> pushed(old(self).diags@, final(self).diags@, Code::E0237, span),
            r is Some ==> final(self).diags@ == old(self).diags@,
    {
        let hir = self.hir;
        match expr_at(hir, ExprScope::TopLevel, expr) {
            Some(Expr::Literal(Literal::Int(value), _)) => {
                if i64::MIN as i128 <= *value && *value <= i64::MAX as i128 {
                    return Some(*value as i64);
                }
                self.enum_member_not_constant(true, span);
                None
            },
            Some(Expr::Name { res, .. }) => match self.named_constant_int(*res) {
                Some(value) => {
                    if i64::MIN as i128 <= value && value <= i64::MAX as i128 {
                        return Some(value as i64);
                    }
                    self.enum_member_not_constant(true, span);
                    None
                },
                None => {
                    self.enum_member_not_constant(true, span);
                    None
                },
            },
            _ => {
                self.enum_member_not_constant(false, span);
                None
            },
        }
    }

    /// Resolves an enum's member values and records them: a written value is taken as
    /// it is, and a member without one takes the previous value plus one — or, for
    /// `enum_flags`, the next power of two above it — starting from 0, or 1 for flags.
    pub fn resolve_enum_body(&mut self, decl: DeclId, flags: bool, members: &Vec<EnumMember>)
        requires
            old(self).inv(),
            old(self).mode == crate::ctx::Mode::Signatures,
        ensures
            final(self).grows_from(old(self)),
            final(self).pool@ == old(self).pool@,
            final(self).types == old(self).types,
            final(self).sigs == old(self).sigs,
            final(self).pool.members_of(decl) is Some,
            enum_values_follow(old(self).hir, members@, flags, final(self).pool.members_of(decl)->0),
    {
        let ghost start = *self;
        let mut resolved: Vec<(u32, i64)> = Vec::new();
        let mut next: i64 = if flags {
            1
        } else {
            0
        };
        let mut i: usize = 0;
        while i < members.len()
            invariant
                self.grows_from(&start),
                start.inv(),
                self.hir == start.hir,
                self.pool == start.pool,
                self.types == start.types,
                self.sigs == start.sigs,
                i <= members@.len(),
                resolved@.len() == i,
                forall|k: int| 0 <= k < i ==> member_follows(start.hir, members@, flags, resolved@, k),
                i == 0 ==> next == (if flags {
                    1i64
                } else {
                    0i64
                }),
                i > 0 ==> auto_follows(flags, resolved@[i - 1].1, next),
            decreases members@.len() - i,
        {
            let member = &members[i];
            let ghost before = *self;
            let value = match member.value {
                Some(expr) => match self.enum_member_literal(expr, member.span) {
                    Some(v) => v,
                    None => next,
                },
                None => next,
            };
            proof {
                lemma_grows_trans(&start, &before, &*self);
            }
            let ghost prev = resolved@;
            resolved.push((member.name, value));
            proof {
                assert(resolved@[i as int] == (member.name, value));
                assert(members@[i as int] == *member);
                if i > 0 {
                    assert(resolved@[i - 1] == prev[i - 1]);
                }
                assert(member_follows(start.hir, members@, flags, resolved@, i as int));
                assert forall|k: int| 0 <= k < i + 1 implies member_follows(start.hir, members@, flags, resolved@, k) by {
                    if k < i {
                        assert(member_follows(start.hir, members@, flags, prev, k));
                        assert(resolved@[k] == prev[k]);
                        if k > 0 {
                            assert(resolved@[k - 1] == prev[k - 1]);
                        }
                    }
                }
            }
            next = if flags {
                next_power_of_two_above(value)
            } else {
                if value == i64::MAX {
                    i64::MAX
                } else {
                    value + 1
                }
            };
            i = i + 1;
        }
        self.pool.set_enum_members(decl, resolved);
    }

    /// The module path an aliased `#import` of this file binds to `alias`.
    pub fn module_path_of_alias(&self, alias: Symbol) -> (r: Option<&'a str>)
        ensures
            match spec_alias_path(self.hir.items@, alias, 0) {
                Some(path) => r matches Some(p) && p@ == path,
                None => r is None,
            },
    {
        let hir = self.hir;
        let mut i: usize = 0;
        while i < hir.items.len()
            invariant
                hir == self.hir,
                i <= hir.items@.len(),
                spec_alias_path(hir.items@, alias, 0) == spec_alias_path(hir.items@, alias, i as int),
            decreases hir.items@.len() - i,
        {
            match &hir.items[i].kind {
                ItemKind::Import { path, alias: Some(bound) } => {
                    if *bound == alias {
                        return Some(path.as_str());
                    }
                },
                _ => {},
            }
            i = i + 1;
        }
        None
    }

    /// The position of the first import whose module is `path`.
    pub fn import_position(&self, path: &str) -> (r: Option<usize>)
        ensures
            r matches Some(k) ==> k < self.imports@.len() && spec_import_at(self.imports@, path@, 0) == Some(k as int),
            r is None ==> spec_import_at(self.imports@, path@, 0) is None,
    {
        let n = self.imports.len();
        let mut i: usize = 0;
        while i < n
            invariant
                n == self.imports@.len(),
                i <= n,
                spec_import_at(self.imports@, path@, 0) == spec_import_at(self.imports@, path@, i as int),
            decreases n - i,
        {
            if crate::suggest::str_eq(self.imports[i].0, path) {
                return Some(i);
            }
            i = i + 1;
        }
        None
    }

    /// Resolves `Module.Name`: a type the module bound to the alias `module` exports.
    /// An alias that binds no import, or a module that was not loaded, is already
    /// reported elsewhere and poisons silently; a name the module lacks is E0212, and
    /// one that is not a type E0213. A resolved name records its module as used in type
    /// position.
    pub fn resolve_qualified_type_name(&mut self, module: Symbol, name: Symbol, span: Span) -> (r: PoolId)
        requires
            old(self).inv(),
        ensures
            final(self).grows_from(old(self)),
            r < final(self).pool@.len(),
            final(self).pool == old(self).pool,
            final(self).types == old(self).types,
            r == qualified_type(old(self), module, name),
            match qualified_code(old(self), module, name) {
                Some(code) => pushed(old(self).diags@, final(self).diags@, code, span),
                None => final(self).diags@ == old(self).diags@,
            },
            match spec_alias_path(old(self).hir.items@, module, 0) {
                None => r == ERROR && final(self).diags@ == old(self).diags@,
                Some(path) => match spec_import_at(old(self).imports@, path, 0) {
                    None => r == ERROR && final(self).diags@ == old(self).diags@,
                    Some(k) => {
                        let names = old(self).imports@[k].1.names_view();
                        if !names.contains_key(name as u128) {
                            r == ERROR && pushed(old(self).diags@, final(self).diags@, Code::E0212, span)
                        } else {
                            match names[name as u128].type_value {
                                Some(t) => r == t && final(self).diags@ == old(self).diags@
                                    && final(self).sigs.type_name_imports_view() == old(self).sigs.type_name_imports_view().insert(
                                    name as u128,
                                    path,
                                ),
                                None => r == ERROR && pushed(old(self).diags@, final(self).diags@, Code::E0213, span),
                            }
                        }
                    },
                },
            },
    {
        let path = match self.module_path_of_alias(module) {
            Some(p) => p,
            None => {
                return ERROR;
            },
        };
        let k = match self.import_position(path) {
            Some(k) => k,
            None => {
                return ERROR;
            },
        };
        let sigs = self.imports[k].1;
        proof {
            assert(sigs.wf());
            assert(entries_valid(*sigs, self.pool@.len()));
        }
        match sigs.lookup(name) {
            None => {
                let text = self.interner.text(name);
                let message = concat5("no exported type `", text, "` in module `", path, "`");
                let help = Some("check the spelling, or the module's exports".to_owned());
                self.report_full(Code::E0212, span, message, Vec::new(), help);
                ERROR
            },
            Some(entry) => match entry.type_value {
                Some(ty) => {
                    self.record_type_name_import(name, path);
                    ty
                },
                None => {
                    self.not_a_type(name, entry.kind, span);
                    ERROR
                },
            },
        }
    }

    /// The length a constant's name denotes as an array length: its literal value, when
    /// the first item of that name is a constant with a literal value no array length
    /// exceeds.
    pub fn constant_array_length(&self, name: Symbol) -> (r: Option<u64>)
        requires
            self.inv(),
        ensures
            r == spec_constant_array_length(self.hir, name),
    {
        let hir = self.hir;
        let item = match hir.item_named(name) {
            Some(item) => item,
            None => {
                return None;
            },
        };
        match self.named_constant_int(Res::Item(item)) {
            Some(v) => {
                if 0 <= v && v <= u64::MAX as i128 {
                    Some(v as u64)
                } else {
                    None
                }
            },
            None => None,
        }
    }

    /// Reports an array length that is not usable (E0233): it says which side of the
    /// line the length is on, a name of an unusable constant or no name at all.
    pub fn array_length_not_literal(&mut self, was_a_name: bool, span: Span)
        requires
            old(self).inv(),
        ensures
            final(self).grows_from(old(self)),
            final(self).only_diags_changed(old(self)),
            pushed(old(self).diags@, final(self).diags@, Code::E0233, span),
    {
        if was_a_name {
            let mut notes: Vec<String> = Vec::new();
            notes.push(
                "a length may be an integer literal, or a name for a constant whose value is one — a computed constant, a `#run`, or one from another file needs the compile-time evaluator, which sema runs before".to_owned(),
            );
            let help = Some("give the constant a literal value, e.g. `N :: 20;`".to_owned());
            self.report_full(Code::E0233, span, "this array length is not a usable constant".to_owned(), notes, help);
        } else {
            let mut notes: Vec<String> = Vec::new();
            notes.push(
                "an arithmetic or `#run` length needs the compile-time evaluator, which sema runs before".to_owned(),
            );
            let help = Some("write the length as a literal, e.g. `[20]u8`, or name a constant".to_owned());
            self.report_full(
                Code::E0233,
                span,
                "an array length must be a literal or a named constant".to_owned(),
                notes,
                help,
            );
        }
    }

    /// Whether a resolved name is a `#foreign` procedure: one of this file's, or an
    /// imported one, recognised by the C calling convention of its type.
    pub fn is_foreign_proc(&self, res: Res) -> (r: bool)
        requires
            self.inv(),
        ensures
            r == spec_is_foreign_proc(self, res),
    {
        let hir = self.hir;
        match res {
            Res::Item(item) => {
                if (item as usize) >= hir.items.len() {
                    return false;
                }
                match &hir.items[item as usize].kind {
                    ItemKind::Proc(proc) => (*proc as usize) < hir.procs.len() && hir.procs[*proc as usize].foreign.is_some(),
                    _ => false,
                }
            },
            Res::Imported(import, name) => match self.entry_for_import(import, name) {
                Some(entry) => match self.pool.item(entry.ty) {
                    TypeItem::ProcType { c_call, .. } => *c_call,
                    _ => false,
                },
                None => false,
            },
            _ => false,
        }
    }

    /// Refuses a `#foreign` procedure taken as a value (E0256): it is reached through a
    /// foreign call rather than an ordinary one, and an indirect call to it is not
    /// supported.
    pub fn reject_foreign_value(&mut self, span: Span)
        requires
            old(self).inv(),
        ensures
            final(self).grows_from(old(self)),
            final(self).only_diags_changed(old(self)),
            pushed(old(self).diags@, final(self).diags@, Code::E0256, span),
    {
        let message = "a `#foreign` procedure cannot be used as a value yet".to_owned();
        let note = "an indirect call to a foreign procedure needs machinery a later wave adds".to_owned();
        self.report_with_note(Code::E0256, span, message, note);
    }

    /// Whether a value of type `from` converts to type `to` under `cast` and `xx`.
    pub fn conversion_allowed(&self, from: PoolId, to: PoolId) -> (r: bool)
        requires
            from < self.pool@.len(),
            to < self.pool@.len(),
        ensures
            r == conversion_allowed(self.pool@, from, to),
    {
        let from_ok = match self.pool.item(from) {
            TypeItem::IntType { .. } | TypeItem::EnumType { .. } => true,
            _ => false,
        };
        let to_ok = match self.pool.item(to) {
            TypeItem::IntType { .. } => true,
            _ => false,
        };
        from_ok && to_ok
    }

    /// Types a bare `.NAME`: it names a member of the enum its context expects. With no
    /// context there is no enum to look in (E0244); a context that is not an enum cannot
    /// have one either (E0244, the context's type kept); a member the enum lacks is
    /// E0238.
    pub fn check_bare_member(&mut self, name: Symbol, name_span: Span, expected: Option<PoolId>, span: Span) -> (r: PoolId)
        requires
            old(self).inv(),
            expected matches Some(w) ==> w < old(self).pool@.len(),
        ensures
            final(self).grows_from(old(self)),
            final(self).types == old(self).types,
            final(self).sigs == old(self).sigs,
            match expected {
                None => r == ERROR && pushed(old(self).diags@, final(self).diags@, Code::E0244, span),
                Some(t) => if t == ERROR {
                    r == ERROR && final(self).diags@ == old(self).diags@
                } else {
                    match old(self).pool@[t as int] {
                        Shape::Enum { decl, .. } => if spec_member_known(old(self).pool.members_of(decl), name) {
                            r == t && final(self).diags@ == old(self).diags@
                        } else {
                            r == ERROR && pushed(old(self).diags@, final(self).diags@, Code::E0238, name_span)
                        },
                        _ => r == t && pushed(old(self).diags@, final(self).diags@, Code::E0244, span),
                    }
                },
            },
    {
        let target = match expected {
            None => {
                let message = "the enum a bare `.` member belongs to cannot be inferred here".to_owned();
                let mut notes: Vec<String> = Vec::new();
                notes.push(
                    "a bare member takes its enum from the context — an annotation, a parameter, or the other side of a comparison".to_owned(),
                );
                let help = Some("name the enum, e.g. `Colour.RED`".to_owned());
                self.report_full(Code::E0244, span, message, notes, help);
                return ERROR;
            },
            Some(t) => t,
        };
        if target == ERROR {
            return ERROR;
        }
        let (decl, flags) = match self.pool.item(target) {
            TypeItem::EnumType { decl, flags } => (*decl, *flags),
            _ => {
                let text = self.describe(target);
                let message = concat3("expected `", text.as_str(), "`, and a bare `.` member needs an enum");
                let note = "a bare member is only meaningful where the context type is an enum".to_owned();
                self.report_with_note(Code::E0244, span, message, note);
                return target;
            },
        };
        if self.pool.member_value(decl, name).is_some() {
            return target;
        }
        let interner = self.interner;
        let text = interner.text(name);
        proof {
            if name < interner@.len() {
                assert(interner@[name as int].len() < usize::MAX);
            }
        }
        self.no_such_member(decl, flags, text, name_span);
        ERROR
    }

    /// Reports an enum member that does not exist (E0238), with the nearest member as a
    /// "did you mean".
    pub fn no_such_member(&mut self, decl: DeclId, flags: bool, member: &str, span: Span)
        requires
            old(self).inv(),
            member@.len() < usize::MAX,
        ensures
            final(self).grows_from(old(self)),
            pushed(old(self).diags@, final(self).diags@, Code::E0238, span),
            final(self).types == old(self).types,
            final(self).sigs == old(self).sigs,
    {
        let interner = self.interner;
        let mut candidates: Vec<&str> = Vec::new();
        match self.pool.member_list(decl) {
            Some(list) => {
                let mut i: usize = 0;
                while i < list.len()
                    invariant
                        interner.wf(),
                        i <= list@.len(),
                        forall|k: int| 0 <= k < candidates@.len() ==> (#[trigger] candidates@[k])@.len() < usize::MAX,
                    decreases list@.len() - i,
                {
                    let text = interner.text(list[i].0);
                    proof {
                        if list@[i as int].0 < interner@.len() {
                            assert(interner@[list@[i as int].0 as int].len() < usize::MAX);
                        }
                    }
                    candidates.push(text);
                    i = i + 1;
                }
            },
            None => {},
        }
        let help = match crate::suggest::nearest(member, candidates.as_slice()) {
            Some(near) => Some(concat3("did you mean `", near, "`?")),
            None => None,
        };
        let ty = self.intern_type(TypeItem::EnumType { decl, flags });
        let text = self.describe(ty);
        let message = concat5("`", text.as_str(), "` has no member `", member, "`");
        self.report_full(Code::E0238, span, message, Vec::new(), help);
    }
}

} // verus!
