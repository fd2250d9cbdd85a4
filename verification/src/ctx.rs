//! The analysis context shared by both phases, and the typing judgments that do not
//! recurse: expectation, operand unification, literals, bindings, conditions, returns
//! and the rendering of a type for a diagnostic.
//!
//! Poison propagates silently. `ERROR` flows through every judgment here without
//! producing a diagnostic, so one mistake is reported once rather than at every node
//! that contains it.

use std::collections::HashMap;
use vstd::prelude::*;
use crate::hir::{BodyId, ExprId, ExprScope, FileHir, Interner, ItemKind, LocalId, ProcId, Span, Symbol, spec_proc_binding};
use crate::ints::{literal_fits, spec_int_min, spec_int_max, valid_bits, spec_digits, push_digits};
use crate::map::{TypeMap, expr_key, expr_key_of, local_key, local_key_of};
use crate::pool::{DeclId, refers_below, well_known_prefix, Pool, PoolId, Shape, TypeItem, ERROR, VOID, BOOL, S64, spec_int_info, spec_pointee};
use crate::sigs::FileSignatures;
use crate::table::{Slots, Table};
use crate::args::ArgSlot;

verus! {

broadcast use vstd::std_specs::hash::group_hash_axioms;

/// A diagnostic code owned by semantic analysis.
#[derive(Clone, Copy, Debug, PartialEq, Eq, Structural)]
pub enum Code {
    /// An integer literal does not fit its contextual type.
    E0204,
    /// A type name provided by more than one imported module.
    E0211,
    /// An unknown type name.
    E0212,
    /// A name that is not a type, used as one.
    E0213,
    /// Mismatched types.
    E0214,
    /// An expression that is not callable, called.
    E0215,
    /// The wrong number of arguments.
    E0216,
    /// The result of a procedure that returns nothing, bound.
    E0217,
    /// No such field.
    E0218,
    /// A dereference of something that is not a pointer.
    E0219,
    /// An invalid assignment target.
    E0220,
    /// The address of something that has none.
    E0221,
    /// A condition that is not `bool`.
    E0222,
    /// An operator not supported for this type.
    E0223,
    /// A `return` that disagrees with the procedure's return type.
    E0224,
    /// A `#foreign` library operand that is not a library.
    E0225,
    /// A constant's type that depends on itself.
    E0226,
    /// A conversion between types that do not convert.
    E0232,
    /// An array length that is not a literal or a constant with a literal value.
    E0233,
    /// An index into something that cannot be indexed.
    E0234,
    /// An index that is not an integer.
    E0235,
    /// A literal index out of an array's range.
    E0236,
    /// An enum member's value that is not a usable constant.
    E0237,
    /// An enum member that does not exist.
    E0238,
    /// A slice of something that is not an array, or of an array with no storage.
    E0239,
    /// An array where a view of its elements is expected.
    E0240,
    /// An `xx` whose target type the context does not give.
    E0242,
    /// An `xx` on a literal, which already takes its context's type.
    E0243,
    /// A bare `.` member whose context is not an enum.
    E0244,
    /// An operator overload that cannot be declared.
    E0246,
    /// A `for` over something that cannot be iterated.
    E0247,
    /// Several results where one value is expected, or a count of them that does not match.
    E0251,
    /// A named argument or a default value that breaks the rules for them.
    E0252,
    /// A `#foreign` procedure used as a value rather than called.
    E0256,
    /// `null` without a pointer type from its context.
    E0257,
    /// A `switch` on an enum that handles neither every member nor has an `else`.
    E0258,
    /// A `case` or an `else` that can never run because an earlier arm handles it.
    E0259,
    /// An `else` that can never run because every member is handled.
    E0260,
    /// A type used where a runtime value is expected.
    E0261,
    /// A call to a polymorphic procedure from which not every type variable can be inferred.
    E0268,
    /// `==` or `!=` on an aggregate.
    E0278,
    /// A `#foreign` signature carrying a type that cannot cross a C boundary.
    E0286,
    /// The result of a `#must` procedure dropped by a statement.
    E0287,
    /// `#must` on a procedure that returns nothing.
    E0288,
}

/// The text a code is printed as.
pub open spec fn spec_code_text(code: Code) -> Seq<char> {
    match code {
        Code::E0204 => "E0204"@,
        Code::E0211 => "E0211"@,
        Code::E0212 => "E0212"@,
        Code::E0213 => "E0213"@,
        Code::E0214 => "E0214"@,
        Code::E0215 => "E0215"@,
        Code::E0216 => "E0216"@,
        Code::E0217 => "E0217"@,
        Code::E0218 => "E0218"@,
        Code::E0219 => "E0219"@,
        Code::E0220 => "E0220"@,
        Code::E0221 => "E0221"@,
        Code::E0222 => "E0222"@,
        Code::E0223 => "E0223"@,
        Code::E0224 => "E0224"@,
        Code::E0225 => "E0225"@,
        Code::E0226 => "E0226"@,
        Code::E0232 => "E0232"@,
        Code::E0233 => "E0233"@,
        Code::E0234 => "E0234"@,
        Code::E0235 => "E0235"@,
        Code::E0236 => "E0236"@,
        Code::E0237 => "E0237"@,
        Code::E0238 => "E0238"@,
        Code::E0239 => "E0239"@,
        Code::E0240 => "E0240"@,
        Code::E0242 => "E0242"@,
        Code::E0243 => "E0243"@,
        Code::E0244 => "E0244"@,
        Code::E0246 => "E0246"@,
        Code::E0247 => "E0247"@,
        Code::E0251 => "E0251"@,
        Code::E0252 => "E0252"@,
        Code::E0256 => "E0256"@,
        Code::E0257 => "E0257"@,
        Code::E0258 => "E0258"@,
        Code::E0259 => "E0259"@,
        Code::E0260 => "E0260"@,
        Code::E0261 => "E0261"@,
        Code::E0268 => "E0268"@,
        Code::E0278 => "E0278"@,
        Code::E0286 => "E0286"@,
        Code::E0287 => "E0287"@,
        Code::E0288 => "E0288"@,
    }
}

impl Code {
    /// The code as it is printed.
    pub fn as_str(&self) -> (r: &'static str)
        ensures
            r@ == spec_code_text(*self),
    {
        match self {
            Code::E0204 => "E0204",
            Code::E0211 => "E0211",
            Code::E0212 => "E0212",
            Code::E0213 => "E0213",
            Code::E0214 => "E0214",
            Code::E0215 => "E0215",
            Code::E0216 => "E0216",
            Code::E0217 => "E0217",
            Code::E0218 => "E0218",
            Code::E0219 => "E0219",
            Code::E0220 => "E0220",
            Code::E0221 => "E0221",
            Code::E0222 => "E0222",
            Code::E0223 => "E0223",
            Code::E0224 => "E0224",
            Code::E0225 => "E0225",
            Code::E0226 => "E0226",
            Code::E0232 => "E0232",
            Code::E0233 => "E0233",
            Code::E0234 => "E0234",
            Code::E0235 => "E0235",
            Code::E0236 => "E0236",
            Code::E0237 => "E0237",
            Code::E0238 => "E0238",
            Code::E0239 => "E0239",
            Code::E0240 => "E0240",
            Code::E0242 => "E0242",
            Code::E0243 => "E0243",
            Code::E0244 => "E0244",
            Code::E0246 => "E0246",
            Code::E0247 => "E0247",
            Code::E0251 => "E0251",
            Code::E0252 => "E0252",
            Code::E0256 => "E0256",
            Code::E0257 => "E0257",
            Code::E0258 => "E0258",
            Code::E0259 => "E0259",
            Code::E0260 => "E0260",
            Code::E0261 => "E0261",
            Code::E0268 => "E0268",
            Code::E0278 => "E0278",
            Code::E0286 => "E0286",
            Code::E0287 => "E0287",
            Code::E0288 => "E0288",
        }
    }
}

/// One error: its code, where it is, what it says, the notes under it, and the help
/// line that says what to do, if there is one.
#[derive(Debug)]
pub struct Diagnostic {
    pub code: Code,
    pub span: Span,
    pub message: String,
    pub notes: Vec<String>,
    pub help: Option<String>,
}

/// `new` is `old` with one diagnostic of `code` at `span` appended.
pub open spec fn pushed(old: Seq<Diagnostic>, new: Seq<Diagnostic>, code: Code, span: Span) -> bool {
    &&& new.len() == old.len() + 1
    &&& forall|k: int| 0 <= k < old.len() ==> #[trigger] new[k] == old[k]
    &&& new[old.len() as int].code == code
    &&& new[old.len() as int].span == span
}

/// The type the last pair naming `var` gives it.
pub open spec fn spec_last_binding(pairs: Seq<(Symbol, PoolId)>, var: Symbol) -> Option<PoolId>
    decreases pairs.len(),
{
    if pairs.len() == 0 {
        None
    } else if pairs.last().0 == var {
        Some(pairs.last().1)
    } else {
        spec_last_binding(pairs.drop_last(), var)
    }
}

/// A named declaration whose signature is finished has its entry recorded under its name;
/// where no other item shares the name, that entry is the declaration's own and has the
/// shape its kind gives it.
pub open spec fn finished_recorded(hir: &FileHir, file: u32, pool: Seq<Shape>, sigs: FileSignatures, i: int) -> bool {
    i < hir.items@.len() ==> match hir.items@[i].name {
        Some(name) => !(hir.items@[i].kind is Run) && !(hir.items@[i].kind is Import) ==> {
            &&& sigs.names_view().contains_key(name as u128)
            &&& name_unique(hir, i) ==> sigs.names_view()[name as u128].item == i && kind_of(hir.items@[i].kind)
                == Some(sigs.names_view()[name as u128].kind) && entry_shape(
                hir,
                file,
                pool,
                i,
                sigs.names_view()[name as u128],
            )
        },
        None => true,
    }
}

/// What a declaration's entry says for each kind of declaration: a procedure or an
/// operator has a procedure type; a struct or an enum is a value of type `type` that
/// denotes its own nominal type; only a `type`-typed constant denotes a type, and one
/// whose initialiser is a literal has the literal's type; a variable denotes no type, and
/// one with neither annotation nor initialiser is poisoned.
pub open spec fn entry_shape(hir: &FileHir, file: u32, pool: Seq<Shape>, i: int, e: crate::sigs::SigEntry) -> bool {
    match hir.items@[i].kind {
        ItemKind::Proc(p) => e.type_value is None && (p < hir.procs@.len() ==> pool[e.ty as int] is Proc),
        ItemKind::Operator { proc: p, .. } => e.type_value is None && (p < hir.procs@.len() ==> pool[e.ty as int] is Proc),
        ItemKind::Struct { .. } => e.ty == crate::pool::TYPE && (e.type_value matches Some(t) && pool[t as int]
            == Shape::Struct(DeclId { file, index: i as u32 })),
        ItemKind::Enum { flags, .. } => e.ty == crate::pool::TYPE && (e.type_value matches Some(t) && pool[t as int]
            == Shape::Enum { decl: DeclId { file, index: i as u32 }, flags }),
        ItemKind::Const { value } => (e.type_value is Some ==> e.ty == crate::pool::TYPE) && (crate::hir::spec_expr_at(
            hir,
            ExprScope::TopLevel,
            value,
        ) matches Some(crate::hir::Expr::Literal(lit, _)) ==> e.ty == crate::scope::spec_literal_type(pool, lit, None)),
        ItemKind::Var { ty, init } => e.type_value is None && (ty is None && init is None ==> e.ty == ERROR),
        _ => true,
    }
}

/// What a finished declaration's entry says stays true as the pool grows.
pub proof fn lemma_finished_recorded_grow(
    hir: &FileHir,
    file: u32,
    a: Seq<Shape>,
    b: Seq<Shape>,
    sigs: FileSignatures,
    i: int,
)
    requires
        finished_recorded(hir, file, a, sigs, i),
        entries_valid(sigs, a.len()),
        pool_extends(a, b),
    ensures
        finished_recorded(hir, file, b, sigs, i),
{
    if 0 <= i < hir.items@.len() {
        if let Some(name) = hir.items@[i].name {
            if !(hir.items@[i].kind is Run) && !(hir.items@[i].kind is Import) && name_unique(hir, i) {
                let e = sigs.names_view()[name as u128];
                assert(e.ty < a.len());
                assert(b[e.ty as int] == a[e.ty as int]);
                if let Some(t) = e.type_value {
                    assert(b[t as int] == a[t as int]);
                }
            }
        }
    }
}

/// Type `k` of the pool is the nominal type of a named struct or enum of this file, and
/// `text` is that declaration's name: what a recorded type name must be.
pub open spec fn named_nominal(hir: &FileHir, file: u32, names: Seq<Seq<char>>, pool: Seq<Shape>, k: u128, text: Seq<char>) -> bool {
    &&& k < pool.len()
    &&& match pool[k as int] {
        Shape::Struct(d) => d.file == file && d.index < hir.items@.len() && (hir.items@[d.index as int].name matches Some(n)
            && text == crate::hir::spec_text(names, n)),
        Shape::Enum { decl: d, .. } => d.file == file && d.index < hir.items@.len() && (hir.items@[d.index as int].name matches Some(
            n,
        ) && text == crate::hir::spec_text(names, n)),
        _ => false,
    }
}

/// No other item of the file has item `i`'s name.
pub open spec fn name_unique(hir: &FileHir, i: int) -> bool {
    forall|j: int| 0 <= j < hir.items@.len() && j != i ==> (#[trigger] hir.items@[j]).name != hir.items@[i].name
}

/// The kind of entry a declaration of this kind gets.
pub open spec fn kind_of(kind: ItemKind) -> Option<crate::sigs::SigKind> {
    match kind {
        ItemKind::Const { .. } => Some(crate::sigs::SigKind::Const),
        ItemKind::Var { .. } => Some(crate::sigs::SigKind::Var),
        ItemKind::Proc(_) => Some(crate::sigs::SigKind::Proc),
        ItemKind::Struct { .. } => Some(crate::sigs::SigKind::Struct),
        ItemKind::Enum { .. } => Some(crate::sigs::SigKind::Enum),
        ItemKind::Operator { .. } => Some(crate::sigs::SigKind::Operator),
        _ => None,
    }
}

/// Some diagnostic appended after `old` to make `new` carries `code` at `span`.
pub open spec fn reported(old: Seq<Diagnostic>, new: Seq<Diagnostic>, code: Code, span: Span) -> bool {
    exists|k: int| old.len() <= k < new.len() && (#[trigger] new[k]).code == code && new[k].span == span
}

/// A diagnostic reported between two states is still there after more are appended,
/// and counts as reported since any earlier state.
pub proof fn lemma_reported_kept(a: Seq<Diagnostic>, b: Seq<Diagnostic>, c: Seq<Diagnostic>, code: Code, span: Span)
    requires
        extends(a, b),
        extends(b, c),
        reported(a, b, code, span) || reported(b, c, code, span),
    ensures
        reported(a, c, code, span),
{
    if reported(a, b, code, span) {
        let k = choose|k: int| a.len() <= k < b.len() && (#[trigger] b[k]).code == code && b[k].span == span;
        assert(c[k] == b[k]);
    } else {
        let k = choose|k: int| b.len() <= k < c.len() && (#[trigger] c[k]).code == code && c[k].span == span;
        assert(c[k].code == code);
    }
}

/// `new` is `old` with zero or more diagnostics appended.
pub open spec fn extends(old: Seq<Diagnostic>, new: Seq<Diagnostic>) -> bool {
    old.len() <= new.len() && forall|k: int| 0 <= k < old.len() ==> #[trigger] new[k] == old[k]
}

/// `new` is `old` with zero or more types interned after it.
pub open spec fn pool_extends(old: Seq<Shape>, new: Seq<Shape>) -> bool {
    old.len() <= new.len() && forall|k: int| 0 <= k < old.len() ==> new[k] == old[k]
}

/// Which phase the context is running.
#[derive(Clone, Copy, Debug, PartialEq, Eq, Structural)]
pub enum Mode {
    /// Computing this file's signatures: file-level names are typed on demand.
    Signatures,
    /// Checking this file's bodies: file-level names are already typed.
    Check,
}

/// The procedure a body is being checked in.
pub struct BodyEnv {
    pub id: BodyId,
    pub params: Vec<PoolId>,
    pub ret: PoolId,
}

/// The state shared by type resolution, signature computation and checking.
pub struct Ctx<'a> {
    pub hir: &'a FileHir,
    pub file: u32,
    pub interner: &'a Interner,
    pub pool: Pool,
    pub sigs: FileSignatures,
    pub imports: Vec<(&'a str, &'a FileSignatures)>,
    pub types: TypeMap,
    pub diags: Vec<Diagnostic>,
    pub body: Option<BodyEnv>,
    pub locals: Table<PoolId>,
    pub mode: Mode,
    /// The items whose signature is being computed right now, one flag per item: the
    /// guard that turns a constant depending on itself into E0226 instead of a loop.
    pub in_progress: Vec<bool>,
    pub finished: Vec<bool>,
    pub type_position: Table<bool>,
    /// The slots of every call resolved through parameter names or defaults, keyed by
    /// the call expression.
    pub filled_calls: Slots<Vec<ArgSlot>>,
    /// The expressions in callee position, where a `#foreign` procedure may be named.
    pub call_position: Table<bool>,
    /// The type each type variable is bound to while a polymorphic signature, an
    /// instantiation's body or a polymorphic call is being resolved.
    pub type_bindings: HashMap<Symbol, PoolId>,
    /// Each polymorphic call and the instantiation it needs: the template and the types
    /// bound to its variables, in the order the signature introduces them.
    pub instantiations: Slots<(ProcId, Vec<PoolId>)>,
}

/// Every type a signature table names is in a pool of `n` types.
pub open spec fn entries_valid(sigs: FileSignatures, n: nat) -> bool {
    &&& forall|k: u128| #[trigger] sigs.names_view().contains_key(k) ==> sigs.names_view()[k].ty < n
        && (sigs.names_view()[k].type_value matches Some(t) ==> t < n)
    &&& forall|k: u128| #[trigger] sigs.procs_view().contains_key(k) ==> sigs.procs_view()[k].ret < n
        && forall|j: int| 0 <= j < sigs.procs_view()[k].params@.len() ==> sigs.procs_view()[k].params@[j] < n
    &&& forall|k: int| 0 <= k < sigs.struct_bodies_view().len() ==> crate::pool::fields_fit(
        #[trigger] sigs.struct_bodies_view()[k].1,
        n,
    )
}

/// Every integer type in the pool has a width the literal check can bound.
pub open spec fn int_widths_valid(items: Seq<Shape>) -> bool {
    forall|k: int| 0 <= k < items.len() ==> (#[trigger] items[k] matches Shape::Int { bits, .. } ==> valid_bits(bits))
}

impl<'a> Ctx<'a> {
    /// The context's tables are well formed and every type they hold is interned.
    pub open spec fn inv(&self) -> bool {
        let n = self.pool@.len();
        &&& self.hir.wf()
        &&& self.pool.wf()
        &&& self.pool.fields_unique()
        &&& self.pool.fields_valid()
        &&& int_widths_valid(self.pool@)
        &&& self.interner.wf()
        &&& forall|k: u128| #[trigger] self.types.expr_entries().contains_key(k) ==> self.types.expr_entries()[k] < n
        &&& forall|k: u128| #[trigger] self.types.local_entries().contains_key(k) ==> self.types.local_entries()[k] < n
        &&& self.sigs.wf()
        &&& entries_valid(self.sigs, n)
        &&& forall|i: int| 0 <= i < self.imports@.len() ==> (#[trigger] self.imports@[i]).1.wf()
            && entries_valid(*self.imports@[i].1, n)
        &&& self.imports@.len() < u32::MAX
        &&& self.types.wf()
        &&& self.locals.wf()
        &&& forall|k: u128| #[trigger] self.locals.view().contains_key(k) ==> self.locals.view()[k] < n
        &&& (self.body matches Some(b) ==> b.ret < n && forall|j: int| 0 <= j < b.params@.len() ==> b.params@[j] < n)
        &&& self.in_progress@.len() == self.hir.items@.len()
        &&& self.finished@.len() == self.hir.items@.len()
        &&& self.type_position.wf()
        &&& self.filled_calls.wf()
        &&& self.call_position.wf()
        &&& self.interner@.len() <= u32::MAX
        &&& forall|v: Symbol| #[trigger] self.type_bindings@.contains_key(v) ==> self.type_bindings@[v] < n
        &&& self.instantiations.wf()
        &&& self.hir.bindings_fit(n)
        &&& forall|i: int| 0 <= i < self.in_progress@.len() && #[trigger] self.in_progress@[i] ==> !self.finished@[i]
        &&& forall|i: int| 0 <= i < self.finished@.len() && #[trigger] self.finished@[i] ==> finished_recorded(
            self.hir,
            self.file,
            self.pool@,
            self.sigs,
            i,
        )
        &&& self.mode == Mode::Signatures ==> forall|k: u128| #[trigger] self.sigs.type_names_view().contains_key(k)
            ==> named_nominal(self.hir, self.file, self.interner@, self.pool@, k, self.sigs.type_names_view()[k])
    }

    /// Nothing but the type bindings changed.
    pub open spec fn only_bindings_changed(&self, old: &Ctx<'a>) -> bool {
        &&& self.hir == old.hir
        &&& self.file == old.file
        &&& self.interner == old.interner
        &&& self.pool == old.pool
        &&& self.sigs == old.sigs
        &&& self.imports == old.imports
        &&& self.types == old.types
        &&& self.diags == old.diags
        &&& self.body == old.body
        &&& self.locals == old.locals
        &&& self.mode == old.mode
        &&& self.in_progress == old.in_progress
        &&& self.finished == old.finished
        &&& self.type_position == old.type_position
        &&& self.filled_calls == old.filled_calls
        &&& self.call_position == old.call_position
        &&& self.instantiations == old.instantiations
    }

    /// Binds each of `vars` to the type the instantiation `proc` gives it, or to `ERROR`
    /// where `proc` gives it none, as a template's signature does.
    pub fn bind_variables(&mut self, proc: ProcId, vars: &Vec<Symbol>)
        requires
            old(self).inv(),
        ensures
            final(self).inv(),
            final(self).only_bindings_changed(old(self)),
            forall|v: Symbol| #[trigger] final(self).spec_bound(v) == if vars@.contains(v) {
                Some(
                    match spec_proc_binding(old(self).hir.proc_bindings@, proc, v) {
                        Some(t) => t,
                        None => ERROR,
                    },
                )
            } else {
                old(self).spec_bound(v)
            },
    {
        let ghost start = *self;
        let mut i: usize = 0;
        while i < vars.len()
            invariant
                self.inv(),
                self.only_bindings_changed(&start),
                i <= vars@.len(),
                forall|v: Symbol| #[trigger] self.spec_bound(v) == if vars@.subrange(0, i as int).contains(v) {
                    Some(
                        match spec_proc_binding(start.hir.proc_bindings@, proc, v) {
                            Some(t) => t,
                            None => ERROR,
                        },
                    )
                } else {
                    start.spec_bound(v)
                },
            decreases vars@.len() - i,
        {
            let var = vars[i];
            let bound = match self.hir.proc_binding(proc, var) {
                Some(t) => t,
                None => ERROR,
            };
            let ghost prev = self.type_bindings@;
            let ghost before = *self;
            self.type_bindings.insert(var, bound);
            proof {
                assert(self.type_bindings@ == prev.insert(var, bound));
                assert forall|v: Symbol| #[trigger] self.spec_bound(v) == if vars@.subrange(0, i + 1).contains(v) {
                    Some(
                        match spec_proc_binding(start.hir.proc_bindings@, proc, v) {
                            Some(t) => t,
                            None => ERROR,
                        },
                    )
                } else {
                    start.spec_bound(v)
                } by {
                    assert(before.spec_bound(v) == if vars@.subrange(0, i as int).contains(v) {
                        before.spec_bound(v)
                    } else {
                        before.spec_bound(v)
                    });
                    if v != var {
                        if vars@.subrange(0, i + 1).contains(v) {
                            let k = choose|k: int| #![trigger vars@.subrange(0, i + 1)[k]] 0 <= k < i + 1 && vars@.subrange(0, i + 1)[k] == v;
                            assert(vars@.subrange(0, i as int)[k] == v);
                        }
                        if vars@.subrange(0, i as int).contains(v) {
                            let k = choose|k: int| #![trigger vars@.subrange(0, i as int)[k]] 0 <= k < i && vars@.subrange(0, i as int)[k] == v;
                            assert(vars@.subrange(0, i + 1)[k] == v);
                        }
                    } else {
                        assert(vars@.subrange(0, i + 1)[i as int] == v);
                    }
                }
            }
            i = i + 1;
        }
        proof {
            assert(vars@.subrange(0, vars@.len() as int) =~= vars@);
        }
    }

    /// Binds each variable of `pairs` to its type, in order, so that where a variable
    /// occurs twice its last type wins.
    pub fn bind_pairs(&mut self, pairs: &Vec<(Symbol, PoolId)>)
        requires
            old(self).inv(),
            forall|k: int| 0 <= k < pairs@.len() ==> (#[trigger] pairs@[k]).1 < old(self).pool@.len(),
        ensures
            final(self).inv(),
            final(self).only_bindings_changed(old(self)),
            forall|v: Symbol| #[trigger] final(self).spec_bound(v) == match spec_last_binding(pairs@, v) {
                Some(t) => Some(t),
                None => old(self).spec_bound(v),
            },
    {
        let ghost start = *self;
        let mut i: usize = 0;
        while i < pairs.len()
            invariant
                self.inv(),
                self.only_bindings_changed(&start),
                i <= pairs@.len(),
                forall|k: int| 0 <= k < pairs@.len() ==> (#[trigger] pairs@[k]).1 < self.pool@.len(),
                forall|v: Symbol| #[trigger] self.spec_bound(v) == match spec_last_binding(pairs@.subrange(0, i as int), v) {
                    Some(t) => Some(t),
                    None => start.spec_bound(v),
                },
            decreases pairs@.len() - i,
        {
            let (var, ty) = pairs[i];
            let ghost prev = self.type_bindings@;
            let ghost before = *self;
            self.type_bindings.insert(var, ty);
            proof {
                assert(self.type_bindings@ == prev.insert(var, ty));
                let front = pairs@.subrange(0, i + 1);
                assert(front.drop_last() =~= pairs@.subrange(0, i as int));
                assert(front.last() == (var, ty));
                assert forall|v: Symbol| #[trigger] self.spec_bound(v) == match spec_last_binding(front, v) {
                    Some(t) => Some(t),
                    None => start.spec_bound(v),
                } by {
                    assert(before.spec_bound(v) == match spec_last_binding(pairs@.subrange(0, i as int), v) {
                        Some(t) => Some(t),
                        None => start.spec_bound(v),
                    });
                }
            }
            i = i + 1;
        }
        proof {
            assert(pairs@.subrange(0, pairs@.len() as int) =~= pairs@);
        }
    }

    /// Removes the bindings of `vars`, bound or not before.
    pub fn unbind_variables(&mut self, vars: &Vec<Symbol>)
        requires
            old(self).inv(),
        ensures
            final(self).inv(),
            final(self).only_bindings_changed(old(self)),
            forall|v: Symbol| #[trigger] final(self).spec_bound(v) == if vars@.contains(v) {
                None
            } else {
                old(self).spec_bound(v)
            },
    {
        let ghost start = *self;
        let mut i: usize = 0;
        while i < vars.len()
            invariant
                self.inv(),
                self.only_bindings_changed(&start),
                i <= vars@.len(),
                forall|v: Symbol| #[trigger] self.spec_bound(v) == if vars@.subrange(0, i as int).contains(v) {
                    None
                } else {
                    start.spec_bound(v)
                },
            decreases vars@.len() - i,
        {
            let var = vars[i];
            let ghost prev = self.type_bindings@;
            let ghost before = *self;
            self.type_bindings.remove(&var);
            proof {
                assert(self.type_bindings@ == prev.remove(var));
                assert forall|v: Symbol| #[trigger] self.spec_bound(v) == if vars@.subrange(0, i + 1).contains(v) {
                    None
                } else {
                    start.spec_bound(v)
                } by {
                    assert(before.spec_bound(v) == if vars@.subrange(0, i as int).contains(v) {
                        before.spec_bound(v)
                    } else {
                        before.spec_bound(v)
                    });
                    if v != var {
                        if vars@.subrange(0, i + 1).contains(v) {
                            let k = choose|k: int| #![trigger vars@.subrange(0, i + 1)[k]] 0 <= k < i + 1 && vars@.subrange(0, i + 1)[k] == v;
                            assert(vars@.subrange(0, i as int)[k] == v);
                        }
                        if vars@.subrange(0, i as int).contains(v) {
                            let k = choose|k: int| #![trigger vars@.subrange(0, i as int)[k]] 0 <= k < i && vars@.subrange(0, i as int)[k] == v;
                            assert(vars@.subrange(0, i + 1)[k] == v);
                        }
                    } else {
                        assert(vars@.subrange(0, i + 1)[i as int] == v);
                    }
                }
            }
            i = i + 1;
        }
        proof {
            assert(vars@.subrange(0, vars@.len() as int) =~= vars@);
        }
    }

    /// The type `var` is bound to, if it is bound.
    pub open spec fn spec_bound(&self, var: Symbol) -> Option<PoolId> {
        if self.type_bindings@.contains_key(var) {
            Some(self.type_bindings@[var])
        } else {
            None
        }
    }

    /// Only the diagnostics changed.
    pub open spec fn only_diags_changed(&self, old: &Ctx<'a>) -> bool {
        &&& self.type_bindings@ == old.type_bindings@
        &&& self.hir == old.hir
        &&& self.file == old.file
        &&& self.interner == old.interner
        &&& self.pool == old.pool
        &&& self.sigs == old.sigs
        &&& self.imports == old.imports
        &&& self.types == old.types
        &&& self.body == old.body
        &&& self.locals == old.locals
        &&& self.mode == old.mode
        &&& self.in_progress == old.in_progress
        &&& self.finished == old.finished
        &&& self.type_position == old.type_position
        &&& self.call_position == old.call_position
    }

    /// Nothing but the diagnostics and the recorded types changed.
    pub open spec fn only_judged(&self, old: &Ctx<'a>) -> bool {
        &&& self.type_bindings@ == old.type_bindings@
        &&& self.hir == old.hir
        &&& self.file == old.file
        &&& self.interner == old.interner
        &&& self.pool == old.pool
        &&& self.sigs == old.sigs
        &&& self.imports == old.imports
        &&& self.body == old.body
        &&& self.locals == old.locals
        &&& self.mode == old.mode
        &&& self.in_progress == old.in_progress
        &&& self.finished == old.finished
        &&& self.type_position == old.type_position
        &&& self.call_position == old.call_position
    }

    /// What every judgment keeps: the file, the phase, the body and the guard are as
    /// they were, the pool and the diagnostics only grow, and the invariant holds.
    pub open spec fn grows_from(&self, old: &Ctx<'a>) -> bool {
        &&& self.inv()
        &&& self.hir == old.hir
        &&& self.file == old.file
        &&& self.interner == old.interner
        &&& self.imports == old.imports
        &&& self.body == old.body
        &&& self.mode == old.mode
        &&& forall|k: u128| #[trigger] old.types.expr_entries().contains_key(k) ==> self.types.expr_entries().contains_key(k)
        &&& forall|k: u128| #[trigger] old.types.local_entries().contains_key(k) ==> self.types.local_entries().contains_key(k)
        &&& forall|v: Symbol| #[trigger] self.type_bindings@.contains_key(v) ==> old.type_bindings@.contains_key(v)
            && self.type_bindings@[v] == old.type_bindings@[v]
        &&& old.mode == Mode::Check ==> forall|d: DeclId| #[trigger] self.pool.members_of(d) == old.pool.members_of(d)
        &&& self.sigs.file_view() == old.sigs.file_view()
        &&& forall|k: u128| #[trigger] old.type_position.view().contains_key(k) ==> self.type_position.view().contains_key(k)
        &&& forall|k: u128| #[trigger] old.sigs.type_names_view().contains_key(k) ==> self.sigs.type_names_view().contains_key(k)
            && self.sigs.type_names_view()[k] == old.sigs.type_names_view()[k]
        &&& forall|k: u128| #[trigger] old.sigs.names_view().contains_key(k) ==> self.sigs.names_view().contains_key(k)
        &&& old.mode == Mode::Check ==> self.sigs.procs_view() == old.sigs.procs_view() && self.sigs.names_view()
            == old.sigs.names_view()
        &&& forall|i: int| 0 <= i < old.finished@.len() && #[trigger] old.finished@[i] ==> self.finished@[i]
        &&& self.in_progress@ == old.in_progress@
        &&& pool_extends(old.pool@, self.pool@)
        &&& extends(old.diags@, self.diags@)
        &&& self.finished@.len() == old.finished@.len()
    }

    /// The display name of a nominal type: this file's, then the first import's that has one.
    pub open spec fn spec_type_name(&self, ty: PoolId) -> Option<Seq<char>> {
        if self.sigs.type_names_view().contains_key(ty as u128) {
            Some(self.sigs.type_names_view()[ty as u128])
        } else {
            import_type_name(self.imports@, ty, 0)
        }
    }

    /// The number of items whose signature is not being computed: what shrinks each
    /// time signature computation descends into another item.
    pub open spec fn budget(&self) -> nat {
        unset(self.in_progress@)
    }

    /// Reports a diagnostic.
    pub fn report(&mut self, code: Code, span: Span, message: String)
        ensures
            pushed(old(self).diags@, final(self).diags@, code, span),
            final(self).diags@.last().message@ == message@,
            final(self).diags@.last().help is None,
            final(self).only_diags_changed(old(self)),
            old(self).inv() ==> final(self).grows_from(old(self)),
    {
        self.diags.push(Diagnostic { code, span, message, notes: Vec::new(), help: None });
    }

    /// Reports a diagnostic carrying one note.
    pub fn report_with_note(&mut self, code: Code, span: Span, message: String, note: String)
        ensures
            pushed(old(self).diags@, final(self).diags@, code, span),
            final(self).diags@.last().message@ == message@,
            final(self).diags@.last().notes@.len() == 1,
            final(self).diags@.last().notes@[0]@ == note@,
            final(self).diags@.last().help is None,
            final(self).only_diags_changed(old(self)),
            old(self).inv() ==> final(self).grows_from(old(self)),
    {
        let mut notes: Vec<String> = Vec::new();
        notes.push(note);
        self.diags.push(Diagnostic { code, span, message, notes, help: None });
    }

    /// Reports a diagnostic with its notes and its help line.
    pub fn report_full(&mut self, code: Code, span: Span, message: String, notes: Vec<String>, help: Option<String>)
        ensures
            pushed(old(self).diags@, final(self).diags@, code, span),
            final(self).diags@.last().message@ == message@,
            final(self).diags@.last().notes@ == notes@,
            final(self).diags@.last().help == help,
            final(self).only_diags_changed(old(self)),
            old(self).inv() ==> final(self).grows_from(old(self)),
    {
        self.diags.push(Diagnostic { code, span, message, notes, help });
    }

    /// Requires `actual` where `expected` was wanted, reporting a mismatch (E0214).
    ///
    /// Hands back the expected type on a mismatch, so one wrong expression does not
    /// produce an error at every enclosing node, and stays silent when either side is
    /// already poisoned.
    pub fn expect(&mut self, expected: Option<PoolId>, actual: PoolId, span: Span) -> (r: PoolId)
        requires
            old(self).inv(),
            actual < old(self).pool@.len(),
            expected matches Some(w) ==> w < old(self).pool@.len(),
        ensures
            final(self).grows_from(old(self)),
            r == spec_expect(expected, actual),
            final(self).only_diags_changed(old(self)),
            expect_mismatch(expected, actual) ==> pushed(
                old(self).diags@,
                final(self).diags@,
                mismatch_code(old(self).pool@, expected->0, actual),
                span,
            )
                && final(self).diags@.last().message@ == "mismatched types: expected `"@
                    + spec_describe(old(self), expected->0) + "`, found `"@ + spec_describe(old(self), actual) + "`"@,
            !expect_mismatch(expected, actual) ==> final(self).diags@ == old(self).diags@,
    {
        let want = match expected {
            None => {
                return actual;
            },
            Some(w) => w,
        };
        if want == ERROR {
            return actual;
        }
        if actual == ERROR {
            return ERROR;
        }
        if want == actual {
            return actual;
        }
        let want_text = self.describe(want);
        let actual_text = self.describe(actual);
        let message = concat5("mismatched types: expected `", want_text.as_str(), "`, found `", actual_text.as_str(), "`");
        let array_for_view = match (self.pool.item(want), self.pool.item(actual)) {
            (TypeItem::ViewType { elem: w }, TypeItem::ArrayType { elem: a, .. }) => *w == *a,
            _ => false,
        };
        if array_for_view {
            let mut notes: Vec<String> = Vec::new();
            notes.push("Jairs has no implicit conversion from an array to a view".to_owned());
            let help = Some("write `[]` to make a view of it, e.g. `buf[]`".to_owned());
            self.report_full(Code::E0240, span, message, notes, help);
        } else {
            self.report(Code::E0214, span, message);
        }
        want
    }

    /// Requires both operands of a binary operation to have the same type (E0214),
    /// returning it; poison on either side is silent.
    pub fn unify_operands(&mut self, left: PoolId, right: PoolId, span: Span) -> (r: PoolId)
        requires
            old(self).inv(),
            left < old(self).pool@.len(),
            right < old(self).pool@.len(),
        ensures
            final(self).grows_from(old(self)),
            r == spec_unify(left, right),
            final(self).only_diags_changed(old(self)),
            unify_mismatch(left, right) ==> pushed(old(self).diags@, final(self).diags@, Code::E0214, span)
                && final(self).diags@.last().message@ == "mismatched operand types: `"@
                    + spec_describe(old(self), left) + "` and `"@ + spec_describe(old(self), right) + "`"@,
            !unify_mismatch(left, right) ==> final(self).diags@ == old(self).diags@,
    {
        if left == ERROR || right == ERROR {
            return ERROR;
        }
        if left == right {
            return left;
        }
        let left_text = self.describe(left);
        let right_text = self.describe(right);
        let message = concat5("mismatched operand types: `", left_text.as_str(), "` and `", right_text.as_str(), "`");
        self.report(Code::E0214, span, message);
        ERROR
    }

    /// Types an integer literal against its context.
    ///
    /// The literal has no intrinsic type: it takes its context's, defaults to `s64`
    /// when there is none, and must fit whichever type it ends up with (E0204). A
    /// context that is not an integer type is a mismatch (E0214).
    pub fn check_int_literal(&mut self, value: i128, expected: Option<PoolId>, span: Span) -> (r: PoolId)
        requires
            old(self).inv(),
            expected matches Some(w) ==> w < old(self).pool@.len(),
        ensures
            final(self).grows_from(old(self)),
            r == spec_int_literal_type(old(self).pool@, expected),
            final(self).only_diags_changed(old(self)),
            match int_literal_code(old(self).pool@, value, expected) {
                Some(code) => pushed(old(self).diags@, final(self).diags@, code, span),
                None => final(self).diags@ == old(self).diags@,
            },
    {
        let target = match expected {
            None => S64,
            Some(want) => {
                if want == ERROR {
                    return ERROR;
                }
                if self.pool.int_info(want).is_none() {
                    let text = self.describe(want);
                    let message = concat3("mismatched types: expected `", text.as_str(), "`, found an integer literal");
                    self.report(Code::E0214, span, message);
                    return want;
                }
                want
            },
        };
        proof {
            assert(well_known_prefix(self.pool@));
        }
        match self.pool.int_info(target) {
            Some((signed, bits)) => {
                proof {
                    assert(int_widths_valid(self.pool@));
                    assert(self.pool@[target as int] matches Shape::Int { .. });
                }
                if !literal_fits(signed, bits, value) {
                    let text = self.describe(target);
                    let message = concat3("integer literal does not fit `", text.as_str(), "`");
                    let range = crate::ints::int_range(signed, bits);
                    let note = concat4("the range of `", text.as_str(), "` is ", range.as_str());
                    self.report_with_note(Code::E0204, span, message, note);
                }
            },
            None => {},
        }
        target
    }

    /// Types `null` against its context: it takes a pointer context's type, and has no
    /// default, so a missing or non-pointer context is E0257.
    pub fn check_null_literal(&mut self, expected: Option<PoolId>, span: Span) -> (r: PoolId)
        requires
            old(self).inv(),
            expected matches Some(w) ==> w < old(self).pool@.len(),
        ensures
            final(self).grows_from(old(self)),
            r == (match expected {
                Some(w) => if w != ERROR && spec_pointee(old(self).pool@, w) is Some { w } else { ERROR },
                None => ERROR,
            }),
            final(self).only_diags_changed(old(self)),
            (match expected {
                Some(w) => w != ERROR && spec_pointee(old(self).pool@, w) is None,
                None => true,
            }) ==> pushed(old(self).diags@, final(self).diags@, Code::E0257, span),
            (match expected {
                Some(w) => w == ERROR || spec_pointee(old(self).pool@, w) is Some,
                None => false,
            }) ==> final(self).diags@ == old(self).diags@,
    {
        proof {
            reveal_strlit("`null` needs a pointer type from its context");
        }
        match expected {
            Some(want) => {
                if want == ERROR {
                    return ERROR;
                }
                if self.pool.pointee(want).is_some() {
                    return want;
                }
                let text = self.describe(want);
                let message = concat3("mismatched types: expected `", text.as_str(), "`, found `null`");
                self.report(Code::E0257, span, message);
                ERROR
            },
            None => {
                self.report(Code::E0257, span, "`null` needs a pointer type from its context".to_owned());
                ERROR
            },
        }
    }

    /// Rejects binding several results, which are not one value to store (E0251), and
    /// the result of a procedure that returns nothing (E0217).
    pub fn reject_void_binding(&mut self, ty: PoolId, span: Span) -> (r: PoolId)
        requires
            old(self).inv(),
            ty < old(self).pool@.len(),
        ensures
            final(self).grows_from(old(self)),
            r == (if ty == VOID || old(self).pool@[ty as int] is Results { ERROR } else { ty }),
            final(self).only_diags_changed(old(self)),
            old(self).pool@[ty as int] is Results ==> pushed(old(self).diags@, final(self).diags@, Code::E0251, span),
            ty == VOID ==> pushed(old(self).diags@, final(self).diags@, Code::E0217, span),
            ty != VOID && !(old(self).pool@[ty as int] is Results) ==> final(self).diags@ == old(self).diags@,
    {
        proof {
            assert(well_known_prefix(self.pool@));
        }
        match self.pool.item(ty) {
            TypeItem::ResultsType { .. } => {
                let text = self.describe(ty);
                let message = concat3("cannot bind `", text.as_str(), "`: a multi-result call needs one name per result");
                let mut notes: Vec<String> = Vec::new();
                notes.push("several results are not a value, so there is nothing to store".to_owned());
                let help = Some("write `a, b := f();`, naming every result, or `_` to discard one".to_owned());
                self.report_full(Code::E0251, span, message, notes, help);
                return ERROR;
            },
            _ => {},
        }
        if ty != VOID {
            return ty;
        }
        self.report(Code::E0217, span, "cannot bind the result of a procedure that returns nothing".to_owned());
        ERROR
    }

    /// Requires a condition to be `bool` (E0222); poison is silent.
    pub fn check_condition_type(&mut self, ty: PoolId, span: Span, is_while: bool)
        requires
            old(self).inv(),
            ty < old(self).pool@.len(),
        ensures
            final(self).grows_from(old(self)),
            final(self).only_diags_changed(old(self)),
            ty != ERROR && ty != BOOL ==> pushed(old(self).diags@, final(self).diags@, Code::E0222, span),
            ty == ERROR || ty == BOOL ==> final(self).diags@ == old(self).diags@,
    {
        if ty == ERROR || ty == BOOL {
            return;
        }
        let text = self.describe(ty);
        let keyword = if is_while { "while" } else { "if" };
        let message = concat5("the condition of `", keyword, "` must be `bool`, found `", text.as_str(), "`");
        self.report(Code::E0222, span, message);
    }

    /// The display name of a nominal type, if one is known.
    pub fn type_name_of(&self, ty: PoolId) -> (r: Option<String>)
        requires
            self.inv(),
        ensures
            r matches Some(s) ==> self.spec_type_name(ty) == Some(s@),
            r is None ==> self.spec_type_name(ty) is None,
    {
        match self.sigs.name_of_type(ty) {
            Some(s) => Some(s.to_owned()),
            None => {
                let n = self.imports.len();
                let mut i: usize = 0;
                while i < n
                    invariant
                        n == self.imports@.len(),
                        i <= n,
                        forall|j: int| 0 <= j < self.imports@.len() ==> (#[trigger] self.imports@[j]).1.wf(),
                        import_type_name(self.imports@, ty, 0) == import_type_name(self.imports@, ty, i as int),
                        !self.sigs.type_names_view().contains_key(ty as u128),
                    decreases n - i,
                {
                    let sigs = self.imports[i].1;
                    match sigs.name_of_type(ty) {
                        Some(s) => {
                            return Some(s.to_owned());
                        },
                        None => {},
                    }
                    i = i + 1;
                }
                None
            },
        }
    }

    /// Renders a type the way the source spells it.
    pub fn describe(&self, ty: PoolId) -> (r: String)
        requires
            self.inv(),
            ty < self.pool@.len(),
        ensures
            r@ == spec_describe(self, ty),
        decreases ty,
    {
        proof {
            reveal_strlit("void");
            reveal_strlit("bool");
            reveal_strlit("string");
            reveal_strlit("type");
            reveal_strlit("<unknown>");
            reveal_strlit("foreign library");
            reveal_strlit("s");
            reveal_strlit("u");
            reveal_strlit("*");
            reveal_strlit("[");
            reveal_strlit("]");
            reveal_strlit("[]");
            reveal_strlit("struct");
            reveal_strlit("enum");
        }
        match self.pool.item(ty) {
            TypeItem::VoidType => "void".to_owned(),
            TypeItem::BoolType => "bool".to_owned(),
            TypeItem::StringType => "string".to_owned(),
            TypeItem::TypeType => "type".to_owned(),
            TypeItem::ErrorType => "<unknown>".to_owned(),
            TypeItem::ForeignLibraryType => "foreign library".to_owned(),
            TypeItem::ForeignLibraryValue(_) => "foreign library".to_owned(),
            TypeItem::BoolValue(_) => "bool".to_owned(),
            TypeItem::StrValue(_) => "string".to_owned(),
            TypeItem::IntValue { ty: of, .. } => self.describe(*of),
            TypeItem::ArrayType { elem, len } => {
                let mut out = "[".to_owned();
                push_digits(&mut out, *len as u128);
                out.append("]");
                let rest = self.describe(*elem);
                out.append(rest.as_str());
                out
            },
            TypeItem::ViewType { elem } => {
                let mut out = "[]".to_owned();
                let rest = self.describe(*elem);
                out.append(rest.as_str());
                out
            },
            TypeItem::ResultsType { elems } => {
                let mut out = "(".to_owned();
                proof {
                    reveal_strlit("(");
                    reveal_strlit(", ");
                    reveal_strlit(")");
                }
                assert(self.pool@[ty as int] == (Shape::Results { elems: elems@ }));
                assert(refers_below(self.pool@[ty as int], ty as int));
                assert forall|k: int| 0 <= k < elems@.len() implies elems@[k] < ty by {
                    let sh = self.pool@[ty as int];
                    assert(sh->elems == elems@);
                    assert(sh->elems[k] < ty as int);
                }
                let mut i: usize = 0;
                while i < elems.len()
                    invariant
                        forall|k: int| 0 <= k < elems@.len() ==> elems@[k] < ty,
                        self.inv(),
                        ty < self.pool@.len(),
                        i <= elems@.len(),
                        out@ == seq!['('] + describe_list(self, elems@.subrange(0, i as int), ty),
                    decreases elems@.len() - i,
                {
                    let e = elems[i];
                    if i > 0 {
                        out.append(", ");
                    }
                    let d = self.describe(e);
                    out.append(d.as_str());
                    proof {
                        let before = elems@.subrange(0, i as int);
                        let after = elems@.subrange(0, i + 1);
                        assert(after.drop_last() == before);
                        assert(after.last() == e);
                    }
                    i = i + 1;
                }
                assert(elems@.subrange(0, elems@.len() as int) == elems@);
                out.append(")");
                out
            },
            TypeItem::IntType { signed, bits } => {
                let mut out = if *signed { "s".to_owned() } else { "u".to_owned() };
                push_digits(&mut out, *bits as u128);
                out
            },
            TypeItem::PointerType(inner) => {
                let mut out = "*".to_owned();
                let rest = self.describe(*inner);
                out.append(rest.as_str());
                out
            },
            TypeItem::StructType(_) => match self.type_name_of(ty) {
                Some(s) => s,
                None => "struct".to_owned(),
            },
            TypeItem::EnumType { .. } => match self.type_name_of(ty) {
                Some(s) => s,
                None => "enum".to_owned(),
            },
            TypeItem::ProcType { params, ret, must, c_call } => {
                let mut out = "(".to_owned();
                proof {
                    reveal_strlit("(");
                    reveal_strlit(", ");
                    reveal_strlit(") -> ");
                }
                assert(self.pool@[ty as int] == (Shape::Proc { params: params@, ret: *ret, must: *must, c_call: *c_call }));
                assert(refers_below(self.pool@[ty as int], ty as int));
                assert(*ret < ty);
                assert forall|k: int| 0 <= k < params@.len() implies params@[k] < ty by {
                    let sh = self.pool@[ty as int];
                    assert(sh->params == params@);
                    assert(sh->params[k] < ty as int);
                }
                let mut i: usize = 0;
                while i < params.len()
                    invariant
                        forall|k: int| 0 <= k < params@.len() ==> params@[k] < ty,
                        self.inv(),
                        ty < self.pool@.len(),
                        self.pool@[ty as int] == (Shape::Proc { params: params@, ret: *ret, must: *must, c_call: *c_call }),
                        i <= params@.len(),
                        out@ == seq!['('] + describe_list(self, params@.subrange(0, i as int), ty),
                    decreases params@.len() - i,
                {
                    let p = params[i];
                    if i > 0 {
                        out.append(", ");
                    }
                    let d = self.describe(p);
                    out.append(d.as_str());
                    proof {
                        let before = params@.subrange(0, i as int);
                        let after = params@.subrange(0, i + 1);
                        assert(after.drop_last() == before);
                        assert(after.last() == p);
                    }
                    i = i + 1;
                }
                assert(params@.subrange(0, params@.len() as int) == params@);
                out.append(") -> ");
                let r = self.describe(*ret);
                out.append(r.as_str());
                if *c_call {
                    out.append(" #c_call");
                }
                out
            },
        }
    }
}

impl<'a> Ctx<'a> {
    /// Everything but the pool is as it was.
    pub open spec fn only_pool_changed(&self, old: &Ctx<'a>) -> bool {
        &&& self.hir == old.hir
        &&& self.file == old.file
        &&& self.interner == old.interner
        &&& self.sigs == old.sigs
        &&& self.imports == old.imports
        &&& self.types == old.types
        &&& self.diags == old.diags
        &&& self.body == old.body
        &&& self.locals == old.locals
        &&& self.mode == old.mode
        &&& self.in_progress == old.in_progress
        &&& self.finished == old.finished
        &&& self.type_position == old.type_position
    }

    /// Interns a type, keeping every id already handed out.
    pub fn intern_type(&mut self, item: TypeItem) -> (r: PoolId)
        requires
            old(self).inv(),
            refers_below(item@, old(self).pool@.len() as int),
            item@ matches Shape::Int { bits, .. } ==> valid_bits(bits),
        ensures
            final(self).grows_from(old(self)),
            final(self).only_pool_changed(old(self)),
            r < final(self).pool@.len(),
            final(self).pool@[r as int] == item@,
            old(self).pool@.contains(item@) ==> final(self).pool@ == old(self).pool@,
            forall|d: DeclId| #[trigger] final(self).pool.members_of(d) == old(self).pool.members_of(d),
            forall|d: DeclId| #[trigger] final(self).pool.fields_of(d) == old(self).pool.fields_of(d),
    {
        let ghost before = self.pool@;
        let ghost shape = item@;
        let r = self.pool.intern(item);
        proof {
            let n = self.pool@.len();
            assert(pool_extends(before, self.pool@));
            assert forall|d: DeclId| (#[trigger] self.pool.fields_of(d) is Some) implies crate::pool::fields_fit(
                self.pool.fields_of(d)->0,
                n,
            ) by {
                assert(old(self).pool.fields_of(d) == self.pool.fields_of(d));
            }
            assert forall|k: int| 0 <= k < n implies (#[trigger] self.pool@[k] matches Shape::Int { bits, .. } ==> valid_bits(bits)) by {
                if k < before.len() {
                    assert(self.pool@[k] == before[k]);
                }
            }
            lemma_entries_valid_grow(self.sigs, before.len(), n);
            assert forall|i: int| 0 <= i < self.imports@.len() implies (#[trigger] self.imports@[i]).1.wf()
                && entries_valid(*self.imports@[i].1, n) by {
                lemma_entries_valid_grow(*self.imports@[i].1, before.len(), n);
            }
            assert forall|k: u128| self.mode == Mode::Signatures && #[trigger] self.sigs.type_names_view().contains_key(k)
                implies named_nominal(self.hir, self.file, self.interner@, self.pool@, k, self.sigs.type_names_view()[k]) by {
                assert(self.pool@[k as int] == before[k as int]);
            }
            assert forall|i: int| 0 <= i < self.finished@.len() && #[trigger] self.finished@[i] implies finished_recorded(
                self.hir,
                self.file,
                self.pool@,
                self.sigs,
                i,
            ) by {
                lemma_finished_recorded_grow(self.hir, self.file, before, self.pool@, self.sigs, i);
            }
        }
        r
    }

    /// Interns the pointer type to `ty`.
    pub fn pointer_type(&mut self, ty: PoolId) -> (r: PoolId)
        requires
            old(self).inv(),
            ty < old(self).pool@.len(),
        ensures
            final(self).grows_from(old(self)),
            final(self).only_pool_changed(old(self)),
            r < final(self).pool@.len(),
            final(self).pool@[r as int] == Shape::Pointer(ty),
    {
        self.intern_type(TypeItem::PointerType(ty))
    }

    /// Records the type of an expression.
    pub fn record_expr(&mut self, scope: ExprScope, id: ExprId, ty: PoolId)
        requires
            old(self).inv(),
            ty < old(self).pool@.len(),
        ensures
            final(self).grows_from(old(self)),
            final(self).types.expr_entries() == old(self).types.expr_entries().insert(expr_key(scope, id), ty),
            final(self).types.local_entries() == old(self).types.local_entries(),
            final(self).pool == old(self).pool,
            final(self).diags == old(self).diags,
            final(self).sigs == old(self).sigs,
            final(self).locals == old(self).locals,
            final(self).type_position == old(self).type_position,
            final(self).finished == old(self).finished,
            final(self).only_judged(old(self)),
            final(self).diags == old(self).diags,
    {
        self.types.set_expr(scope, id, ty);
    }

    /// Records the type of a local of the body being checked.
    pub fn record_local(&mut self, body: BodyId, local: LocalId, ty: PoolId)
        requires
            old(self).inv(),
            ty < old(self).pool@.len(),
        ensures
            final(self).grows_from(old(self)),
            final(self).types.local_entries() == old(self).types.local_entries().insert(local_key(body, local), ty),
            final(self).types.expr_entries() == old(self).types.expr_entries(),
            final(self).locals.view() == old(self).locals.view().insert(local_key(body, local), ty),
            final(self).pool == old(self).pool,
            final(self).diags == old(self).diags,
            final(self).sigs == old(self).sigs,
            final(self).type_position == old(self).type_position,
            final(self).finished == old(self).finished,
    {
        let key = local_key_of(body, local);
        self.locals.insert(key, ty);
        self.types.set_local(body, local, ty);
    }

    /// Marks an expression as one of the positions where a type is accepted as a value.
    pub fn mark_type_position(&mut self, scope: ExprScope, id: ExprId)
        requires
            old(self).inv(),
        ensures
            final(self).grows_from(old(self)),
            final(self).type_position.view() == old(self).type_position.view().insert(expr_key(scope, id), true),
            final(self).pool == old(self).pool,
            final(self).diags == old(self).diags,
            final(self).types == old(self).types,
            final(self).sigs == old(self).sigs,
            final(self).locals == old(self).locals,
            final(self).finished == old(self).finished,
    {
        self.type_position.insert(expr_key_of(scope, id), true);
    }

    /// Marks an expression as a call's callee.
    pub fn mark_call_position(&mut self, scope: ExprScope, id: ExprId)
        requires
            old(self).inv(),
        ensures
            final(self).grows_from(old(self)),
            final(self).call_position.view() == old(self).call_position.view().insert(expr_key(scope, id), true),
            final(self).pool == old(self).pool,
            final(self).diags == old(self).diags,
            final(self).types == old(self).types,
            final(self).sigs == old(self).sigs,
            final(self).locals == old(self).locals,
            final(self).finished == old(self).finished,
    {
        self.call_position.insert(expr_key_of(scope, id), true);
    }

    /// Whether an expression is a call's callee.
    pub fn in_call_position(&self, scope: ExprScope, id: ExprId) -> (r: bool)
        ensures
            r == self.call_position.view().contains_key(expr_key(scope, id)),
    {
        self.call_position.get(expr_key_of(scope, id)).is_some()
    }

    /// Whether an expression is in a position that accepts a type as a value: a field
    /// access's receiver, or a `::` constant's initialiser.
    pub fn in_type_position(&self, scope: ExprScope, id: ExprId) -> (r: bool)
        ensures
            r == self.type_position.view().contains_key(expr_key(scope, id)),
    {
        self.type_position.get(expr_key_of(scope, id)).is_some()
    }
}


/// A pool the checker can work in: well formed, every struct's field list recorded
/// once and fitting the pool, and every integer type of a width the literal check can
/// bound.
pub open spec fn pool_ready(pool: &Pool) -> bool {
    &&& pool.wf()
    &&& pool.fields_unique()
    &&& pool.fields_valid()
    &&& int_widths_valid(pool@)
}

/// Imported signatures that are well formed and name only types of a pool of `n`.
pub open spec fn imports_ready(imports: Seq<(&str, &FileSignatures)>, n: nat) -> bool {
    forall|i: int| 0 <= i < imports.len() ==> (#[trigger] imports[i]).1.wf() && entries_valid(*imports[i].1, n)
}

impl<'a> Ctx<'a> {
    /// A context for one file, with nothing typed yet and no guard raised.
    pub fn new(
        hir: &'a FileHir,
        file: u32,
        interner: &'a Interner,
        pool: Pool,
        imports: Vec<(&'a str, &'a FileSignatures)>,
        sigs: FileSignatures,
        mode: Mode,
    ) -> (r: Ctx<'a>)
        requires
            hir.wf(),
            interner.wf(),
            interner@.len() <= u32::MAX,
            pool_ready(&pool),
            sigs.wf(),
            entries_valid(sigs, pool@.len()),
            imports_ready(imports@, pool@.len()),
            imports@.len() < u32::MAX,
            hir.bindings_fit(pool@.len()),
            mode == Mode::Signatures ==> sigs.type_names_view() == Map::<u128, Seq<char>>::empty(),
        ensures
            r.inv(),
            r.hir == hir,
            r.file == file,
            r.interner == interner,
            r.pool == pool,
            r.sigs == sigs,
            r.imports == imports,
            r.mode == mode,
            r.body is None,
            r.diags@.len() == 0,
            r.types.expr_entries() == Map::<u128, PoolId>::empty(),
            r.types.local_entries() == Map::<u128, PoolId>::empty(),
            forall|i: int| 0 <= i < r.in_progress@.len() ==> !r.in_progress@[i],
            forall|i: int| 0 <= i < r.finished@.len() ==> !r.finished@[i],
            r.type_bindings@ == Map::<Symbol, PoolId>::empty(),
    {
        let n = hir.items.len();
        let mut in_progress: Vec<bool> = Vec::new();
        let mut finished: Vec<bool> = Vec::new();
        let mut i: usize = 0;
        while i < n
            invariant
                n == hir.items@.len(),
                i <= n,
                in_progress@.len() == i,
                finished@.len() == i,
                forall|k: int| 0 <= k < i ==> !in_progress@[k] && !finished@[k],
            decreases n - i,
        {
            in_progress.push(false);
            finished.push(false);
            i = i + 1;
        }
        Ctx {
            hir,
            file,
            interner,
            pool,
            sigs,
            imports,
            types: TypeMap::new(),
            diags: Vec::new(),
            body: None,
            locals: Table::new(),
            mode,
            in_progress,
            finished,
            type_position: Table::new(),
            filled_calls: Slots::new(),
            call_position: Table::new(),
            type_bindings: HashMap::new(),
            instantiations: Slots::new(),
        }
    }
}

/// A signature table valid for a pool of `n` types stays valid as the pool grows.
pub proof fn lemma_entries_valid_grow(sigs: FileSignatures, n: nat, m: nat)
    requires
        entries_valid(sigs, n),
        n <= m,
    ensures
        entries_valid(sigs, m),
{
    assert forall|k: int| 0 <= k < sigs.struct_bodies_view().len() implies crate::pool::fields_fit(
        #[trigger] sigs.struct_bodies_view()[k].1,
        m,
    ) by {
        assert(crate::pool::fields_fit(sigs.struct_bodies_view()[k].1, n));
    }
}

/// The number of `false` flags in `flags`.
pub open spec fn unset(flags: Seq<bool>) -> nat
    decreases flags.len(),
{
    if flags.len() == 0 {
        0
    } else {
        unset(flags.drop_last()) + if flags.last() {
            0nat
        } else {
            1nat
        }
    }
}

/// Raising one lowered flag lowers the count of lowered flags by one.
pub proof fn lemma_unset_raise(flags: Seq<bool>, i: int)
    requires
        0 <= i < flags.len(),
        !flags[i],
    ensures
        unset(flags.update(i, true)) + 1 == unset(flags),
    decreases flags.len(),
{
    let raised = flags.update(i, true);
    if i == flags.len() - 1 {
        assert(raised.drop_last() =~= flags.drop_last());
    } else {
        lemma_unset_raise(flags.drop_last(), i);
        assert(raised.drop_last() =~= flags.drop_last().update(i, true));
    }
}

/// What every judgment keeps is kept across any number of them.
pub proof fn lemma_grows_trans<'a>(a: &Ctx<'a>, b: &Ctx<'a>, c: &Ctx<'a>)
    requires
        b.grows_from(a),
        c.grows_from(b),
    ensures
        c.grows_from(a),
{
}

/// Binding some variables, doing work that only grows the context, and removing those
/// variables again grows the context from where it started: no binding is left that
/// was not there before.
pub proof fn lemma_grows_around_bindings<'a>(
    start: &Ctx<'a>,
    bound: &Ctx<'a>,
    worked: &Ctx<'a>,
    done: &Ctx<'a>,
    vars: Seq<Symbol>,
)
    requires
        start.inv(),
        bound.only_bindings_changed(start),
        forall|v: Symbol| !vars.contains(v) ==> #[trigger] bound.spec_bound(v) == start.spec_bound(v),
        worked.grows_from(bound),
        done.inv(),
        done.only_bindings_changed(worked),
        forall|v: Symbol| #[trigger] done.spec_bound(v) == if vars.contains(v) {
            None
        } else {
            worked.spec_bound(v)
        },
    ensures
        done.grows_from(start),
{
    assert forall|v: Symbol| #[trigger] done.type_bindings@.contains_key(v) implies start.type_bindings@.contains_key(v)
        && done.type_bindings@[v] == start.type_bindings@[v] by {
        assert(done.spec_bound(v) is Some);
        assert(!vars.contains(v));
        assert(worked.type_bindings@.contains_key(v));
        assert(bound.spec_bound(v) == start.spec_bound(v));
    }
}

/// The type `expect` hands back: the actual type, unless a real expectation was
/// contradicted, in which case the expected one; poison wins over a real type.
pub open spec fn spec_expect(expected: Option<PoolId>, actual: PoolId) -> PoolId {
    match expected {
        None => actual,
        Some(want) => if want == ERROR {
            actual
        } else if actual == ERROR {
            ERROR
        } else if want == actual {
            actual
        } else {
            want
        },
    }
}

/// The code of a mismatch: an array where a view of its elements was wanted is the one
/// with a fix of its own, E0240; any other is E0214.
pub open spec fn mismatch_code(items: Seq<Shape>, want: PoolId, actual: PoolId) -> Code {
    match (items[want as int], items[actual as int]) {
        (Shape::View { elem: w }, Shape::Array { elem: a, .. }) => if w == a {
            Code::E0240
        } else {
            Code::E0214
        },
        _ => Code::E0214,
    }
}

/// A real expectation contradicted by a real type.
pub open spec fn expect_mismatch(expected: Option<PoolId>, actual: PoolId) -> bool {
    expected matches Some(want) && want != ERROR && actual != ERROR && want != actual
}

/// The common type of two operands, or poison.
pub open spec fn spec_unify(left: PoolId, right: PoolId) -> PoolId {
    if left == ERROR || right == ERROR || left != right {
        ERROR
    } else {
        left
    }
}

/// Two real operand types that differ.
pub open spec fn unify_mismatch(left: PoolId, right: PoolId) -> bool {
    left != ERROR && right != ERROR && left != right
}

/// The type an integer literal takes: the context's when there is one, `s64` otherwise.
pub open spec fn spec_int_literal_type(items: Seq<Shape>, expected: Option<PoolId>) -> PoolId {
    match expected {
        None => S64,
        Some(want) => want,
    }
}

/// The diagnostic an integer literal raises: E0214 for a context that is not an
/// integer type, E0204 for a value outside the type's range, none otherwise.
pub open spec fn int_literal_code(items: Seq<Shape>, value: i128, expected: Option<PoolId>) -> Option<Code> {
    let target = spec_int_literal_type(items, expected);
    if target == ERROR {
        None
    } else {
        match spec_int_info(items, target) {
            None => Some(Code::E0214),
            Some((signed, bits)) => if spec_int_min(signed, bits) <= value && value <= spec_int_max(signed, bits) {
                None
            } else {
                Some(Code::E0204)
            },
        }
    }
}

/// `a + b + c`.
pub fn concat3(a: &str, b: &str, c: &str) -> (r: String)
    ensures
        r@ == a@ + b@ + c@,
{
    let mut out = a.to_owned();
    out.append(b);
    out.append(c);
    out
}

/// `a + b + c + d`.
pub fn concat4(a: &str, b: &str, c: &str, d: &str) -> (r: String)
    ensures
        r@ == a@ + b@ + c@ + d@,
{
    let mut out = concat3(a, b, c);
    out.append(d);
    out
}

/// `a + b + c + d + e`.
pub fn concat5(a: &str, b: &str, c: &str, d: &str, e: &str) -> (r: String)
    ensures
        r@ == a@ + b@ + c@ + d@ + e@,
{
    let mut out = concat4(a, b, c, d);
    out.append(e);
    out
}

/// The display name of `ty` in the first of `imports[i..]` that names it.
pub open spec fn import_type_name(imports: Seq<(&str, &FileSignatures)>, ty: PoolId, i: int) -> Option<Seq<char>>
    decreases imports.len() - i,
{
    if i < 0 || i >= imports.len() {
        None
    } else if imports[i].1.type_names_view().contains_key(ty as u128) {
        Some(imports[i].1.type_names_view()[ty as u128])
    } else {
        import_type_name(imports, ty, i + 1)
    }
}

/// How a type is spelled in a diagnostic.
pub open spec fn spec_describe(ctx: &Ctx, ty: PoolId) -> Seq<char>
    decreases ty, 1nat,
{
    if ty >= ctx.pool@.len() {
        Seq::empty()
    } else {
        match ctx.pool@[ty as int] {
            Shape::Void => "void"@,
            Shape::Bool => "bool"@,
            Shape::Str => "string"@,
            Shape::Type => "type"@,
            Shape::Error => "<unknown>"@,
            Shape::ForeignLibrary => "foreign library"@,
            Shape::LibraryValue(_) => "foreign library"@,
            Shape::BoolValue(_) => "bool"@,
            Shape::StrValue(_) => "string"@,
            Shape::Array { elem, len } => if elem < ty {
                "["@ + spec_digits(len as nat) + "]"@ + spec_describe(ctx, elem)
            } else {
                Seq::empty()
            },
            Shape::View { elem } => if elem < ty {
                "[]"@ + spec_describe(ctx, elem)
            } else {
                Seq::empty()
            },
            Shape::Results { elems } => "("@ + describe_list(ctx, elems, ty) + ")"@,
            Shape::IntValue { ty: of, .. } => if of < ty {
                spec_describe(ctx, of)
            } else {
                Seq::empty()
            },
            Shape::Int { signed, bits } => (if signed { "s"@ } else { "u"@ }) + spec_digits(bits as nat),
            Shape::Pointer(inner) => if inner < ty {
                "*"@ + spec_describe(ctx, inner)
            } else {
                Seq::empty()
            },
            Shape::Struct(_) => match ctx.spec_type_name(ty) {
                Some(s) => s,
                None => "struct"@,
            },
            Shape::Enum { .. } => match ctx.spec_type_name(ty) {
                Some(s) => s,
                None => "enum"@,
            },
            Shape::Proc { params, ret, c_call, .. } => if ret < ty {
                "("@ + describe_list(ctx, params, ty) + ") -> "@ + spec_describe(ctx, ret) + if c_call {
                    " #c_call"@
                } else {
                    Seq::empty()
                }
            } else {
                Seq::empty()
            },
        }
    }
}

/// Parameter types spelled and joined with `, `; each must be below `bound`.
pub open spec fn describe_list(ctx: &Ctx, params: Seq<PoolId>, bound: PoolId) -> Seq<char>
    decreases bound, 0nat, params.len(),
{
    if params.len() == 0 {
        Seq::empty()
    } else {
        let last = params.last();
        let head = describe_list(ctx, params.drop_last(), bound);
        let one = if last < bound { spec_describe(ctx, last) } else { Seq::empty() };
        if params.len() == 1 {
            one
        } else {
            head + ", "@ + one
        }
    }
}

} // verus!
