//! Signatures: everything about a file that another file is allowed to see.
//!
//! Typing a call into an imported module reads only that module's signatures, and
//! computing signatures depends only on the file's own declarations — never on another
//! file's full check — so two modules that import each other still terminate.

use vstd::prelude::*;
use crate::hir::{BinOp, ItemId, ProcId, Symbol};
use crate::pool::{DeclId, Field, Pool, PoolId};
use crate::table::{Slots, Table};

verus! {

/// What kind of declaration a name came from.
#[derive(Clone, Copy, Debug, PartialEq, Eq, Structural)]
pub enum SigKind {
    /// `name :: value` where the value is neither a procedure nor a type.
    Const,
    /// `name := value` or `name: T` at file scope.
    Var,
    /// `name :: (params) -> T { … }`, or a `#foreign` declaration.
    Proc,
    /// `name :: struct { … }`.
    Struct,
    /// `name :: union { … }`.
    Union,
    /// `name :: variant { … }`.
    Variant,
    /// `operator + :: (…) -> T { … }`.
    Operator,
    /// `name :: enum { … }`.
    Enum,
}

/// What one exported name means.
#[derive(Clone, Copy, Debug)]
pub struct SigEntry {
    /// The type of the name used as a value; `TYPE` for a name that denotes a type, and
    /// `ERROR` for an entry that could not be typed.
    pub ty: PoolId,
    /// The type this name denotes, when it denotes one.
    pub type_value: Option<PoolId>,
    /// Which kind of declaration this was.
    pub kind: SigKind,
    /// The declaring item.
    pub item: ItemId,
}

impl SigEntry {
    /// Whether assigning to this name is legal: only a variable is assignable, never a
    /// constant, a procedure, an operator or a type.
    pub fn is_assignable(&self) -> (r: bool)
        ensures
            r == (self.kind == SigKind::Var),
    {
        match self.kind {
            SigKind::Var => true,
            SigKind::Const
            | SigKind::Proc
            | SigKind::Operator
            | SigKind::Struct
            | SigKind::Union
            | SigKind::Variant
            | SigKind::Enum => false,
        }
    }
}

/// A procedure's resolved signature.
#[derive(Debug)]
pub struct ProcSig {
    /// The parameter types, in order; `ERROR` where one could not be resolved.
    pub params: Vec<PoolId>,
    /// The parameter names, parallel to `params`.
    pub names: Vec<Symbol>,
    /// The default value of each parameter, parallel to `params`.
    pub defaults: Vec<Option<PoolId>>,
    /// The return type; `VOID` when the source omitted the arrow.
    pub ret: PoolId,
    /// The polymorphic type-variable names this signature introduces.
    pub poly_vars: Vec<Symbol>,
    /// The interned procedure type.
    pub ty: PoolId,
}

/// The signature-level view of one file.
pub struct FileSignatures {
    names: Table<SigEntry>,
    procs: Slots<ProcSig>,
    file: Option<u32>,
    operators: Vec<(BinOp, PoolId, PoolId, ProcId)>,
    struct_bodies: Vec<(DeclId, Vec<Field>)>,
    type_names: Slots<String>,
    foreign_libraries: Table<PoolId>,
    type_name_imports: Slots<String>,
}

/// The operator table holds `(op, lhs, rhs)` at position `k`.
pub open spec fn operator_at(ops: Seq<(BinOp, PoolId, PoolId, ProcId)>, k: int, op: BinOp, lhs: PoolId, rhs: PoolId) -> bool {
    0 <= k < ops.len() && ops[k].0 == op && ops[k].1 == lhs && ops[k].2 == rhs
}

impl FileSignatures {
    /// Every named declaration, by symbol.
    pub closed spec fn names_view(&self) -> Map<u128, SigEntry> {
        self.names.view()
    }

    /// The names in declaration order.
    pub closed spec fn name_order(&self) -> Seq<u128> {
        self.names.keys()
    }

    /// Each procedure's resolved signature, by procedure id.
    pub closed spec fn procs_view(&self) -> Map<u128, ProcSig> {
        self.procs.view()
    }

    /// The display name of each nominal type declared here, by type id.
    pub closed spec fn type_names_view(&self) -> Map<u128, Seq<char>> {
        Map::new(|k: u128| self.type_names.view().contains_key(k), |k: u128| self.type_names.view()[k]@)
    }

    /// The resolved library of each `#foreign` procedure, by procedure id.
    pub closed spec fn foreign_libraries_view(&self) -> Map<u128, PoolId> {
        self.foreign_libraries.view()
    }

    /// The module each imported type name resolved from, by symbol.
    pub closed spec fn type_name_imports_view(&self) -> Map<u128, Seq<char>> {
        Map::new(
            |k: u128| self.type_name_imports.view().contains_key(k),
            |k: u128| self.type_name_imports.view()[k]@,
        )
    }

    /// The imported type names, in the order they were first recorded.
    pub closed spec fn type_name_import_order(&self) -> Seq<u128> {
        self.type_name_imports.keys()
    }

    /// The operator overloads, by operator and operand types.
    pub closed spec fn operators_view(&self) -> Seq<(BinOp, PoolId, PoolId, ProcId)> {
        self.operators@
    }

    /// The file these signatures describe, once recorded.
    pub closed spec fn file_view(&self) -> Option<u32> {
        self.file
    }

    /// The struct bodies recorded, in the order they were recorded.
    pub closed spec fn struct_bodies_view(&self) -> Seq<(DeclId, Seq<(Seq<char>, PoolId)>)> {
        Seq::new(self.struct_bodies@.len(), |i: int| (self.struct_bodies@[i].0, crate::pool::fields_view(self.struct_bodies@[i].1@)))
    }

    /// The overload registered for `(op, lhs, rhs)`, if any.
    pub open spec fn spec_operator(&self, op: BinOp, lhs: PoolId, rhs: PoolId) -> Option<ProcId> {
        if exists|k: int| #[trigger] operator_at(self.operators_view(), k, op, lhs, rhs) {
            let k = choose|k: int| #[trigger] operator_at(self.operators_view(), k, op, lhs, rhs);
            Some(self.operators_view()[k].3)
        } else {
            None
        }
    }

    /// The tables are well formed and each operator key occurs once.
    pub closed spec fn wf(&self) -> bool {
        &&& self.names.wf()
        &&& forall|k: u128| #[trigger] self.names.view().contains_key(k) ==> k < 0x1_0000_0000
        &&& self.procs.wf()
        &&& self.type_names.wf()
        &&& self.foreign_libraries.wf()
        &&& self.type_name_imports.wf()
        &&& forall|i: int, j: int|
            0 <= i < j < self.operators@.len() ==> !(#[trigger] self.operators@[i].0 == #[trigger] self.operators@[j].0
                && self.operators@[i].1 == self.operators@[j].1 && self.operators@[i].2 == self.operators@[j].2)
    }

    /// An empty set of signatures.
    pub fn new() -> (r: FileSignatures)
        ensures
            r.wf(),
            r.names_view() == Map::<u128, SigEntry>::empty(),
            r.procs_view() == Map::<u128, ProcSig>::empty(),
            r.operators_view() == Seq::<(BinOp, PoolId, PoolId, ProcId)>::empty(),
            r.file_view() is None,
            r.struct_bodies_view() == Seq::<(DeclId, Seq<(Seq<char>, PoolId)>)>::empty(),
            r.type_names_view() == Map::<u128, Seq<char>>::empty(),
            r.foreign_libraries_view() == Map::<u128, PoolId>::empty(),
            r.type_name_imports_view() == Map::<u128, Seq<char>>::empty(),
    {
        let r = FileSignatures {
            names: Table::new(),
            procs: Slots::new(),
            file: None,
            operators: Vec::new(),
            struct_bodies: Vec::new(),
            type_names: Slots::new(),
            foreign_libraries: Table::new(),
            type_name_imports: Slots::new(),
        };
        assert(r.struct_bodies_view() =~= Seq::<(DeclId, Seq<(Seq<char>, PoolId)>)>::empty());
        assert(r.type_names_view() =~= Map::<u128, Seq<char>>::empty());
        assert(r.type_name_imports_view() =~= Map::<u128, Seq<char>>::empty());
        r
    }

    /// Looks a name up.
    pub fn lookup(&self, name: Symbol) -> (r: Option<SigEntry>)
        ensures
            r == (if self.names_view().contains_key(name as u128) {
                Some(self.names_view()[name as u128])
            } else {
                None
            }),
    {
        self.names.get(name as u128)
    }

    /// A procedure's resolved signature.
    pub fn proc_sig(&self, proc: ProcId) -> (r: Option<&ProcSig>)
        requires
            self.wf(),
        ensures
            r matches Some(s) ==> self.procs_view().contains_key(proc as u128) && *s == self.procs_view()[proc as u128],
            r is None ==> !self.procs_view().contains_key(proc as u128),
    {
        self.procs.get(proc as u128)
    }

    /// The file these signatures were computed for; file 0 when none was recorded.
    pub fn file(&self) -> (r: u32)
        ensures
            r == match self.file_view() {
                Some(f) => f,
                None => 0,
            },
    {
        match self.file {
            Some(f) => f,
            None => 0,
        }
    }

    /// Records which file these signatures describe.
    pub fn set_file(&mut self, file: u32)
        requires
            old(self).wf(),
        ensures
            final(self).wf(),
            final(self).file_view() == Some(file),
            final(self).names_view() == old(self).names_view(),
            final(self).name_order() == old(self).name_order(),
            final(self).procs_view() == old(self).procs_view(),
            final(self).operators_view() == old(self).operators_view(),
            final(self).struct_bodies_view() == old(self).struct_bodies_view(),
            final(self).type_names_view() == old(self).type_names_view(),
            final(self).foreign_libraries_view() == old(self).foreign_libraries_view(),
            final(self).type_name_imports_view() == old(self).type_name_imports_view(),
    {
        self.file = Some(file);
    }

    /// The overload for `op` on exactly this pair of operand types, if one is declared.
    pub fn operator(&self, op: BinOp, lhs: PoolId, rhs: PoolId) -> (r: Option<ProcId>)
        requires
            self.wf(),
        ensures
            r == self.spec_operator(op, lhs, rhs),
    {
        let n = self.operators.len();
        let mut k: usize = 0;
        while k < n
            invariant
                self.wf(),
                n == self.operators@.len(),
                k <= n,
                forall|m: int| 0 <= m < k ==> !operator_at(self.operators@, m, op, lhs, rhs),
            decreases n - k,
        {
            let entry = self.operators[k];
            if entry.0 == op && entry.1 == lhs && entry.2 == rhs {
                proof {
                    assert(operator_at(self.operators@, k as int, op, lhs, rhs));
                    let c = choose|c: int| #[trigger] operator_at(self.operators_view(), c, op, lhs, rhs);
                    if c != k {
                        if c < k {
                            assert(!(self.operators@[c].0 == self.operators@[k as int].0 && self.operators@[c].1
                                == self.operators@[k as int].1 && self.operators@[c].2 == self.operators@[k as int].2));
                        } else {
                            assert(!(self.operators@[k as int].0 == self.operators@[c].0 && self.operators@[k as int].1
                                == self.operators@[c].1 && self.operators@[k as int].2 == self.operators@[c].2));
                        }
                    }
                }
                return Some(entry.3);
            }
            k = k + 1;
        }
        None
    }

    /// Records an overload, or reports the procedure already registered for that exact
    /// key. A duplicate keeps the first declaration, so only the later one is the error.
    pub fn insert_operator(&mut self, op: BinOp, lhs: PoolId, rhs: PoolId, proc: ProcId) -> (r: Result<(), ProcId>)
        requires
            old(self).wf(),
        ensures
            final(self).wf(),
            match old(self).spec_operator(op, lhs, rhs) {
                Some(previous) => r == Err::<(), ProcId>(previous) && final(self).operators_view() == old(self).operators_view(),
                None => r == Ok::<(), ProcId>(()) && final(self).operators_view() == old(self).operators_view().push((op, lhs, rhs, proc)),
            },
            final(self).names_view() == old(self).names_view(),
            final(self).name_order() == old(self).name_order(),
            final(self).procs_view() == old(self).procs_view(),
            final(self).file_view() == old(self).file_view(),
            final(self).type_names_view() == old(self).type_names_view(),
            final(self).struct_bodies_view() == old(self).struct_bodies_view(),
            final(self).foreign_libraries_view() == old(self).foreign_libraries_view(),
            final(self).type_name_imports_view() == old(self).type_name_imports_view(),
            final(self).spec_operator(op, lhs, rhs) == Some(
                match old(self).spec_operator(op, lhs, rhs) {
                    Some(previous) => previous,
                    None => proc,
                },
            ),
            forall|o: BinOp, l: PoolId, t: PoolId| !(o == op && l == lhs && t == rhs) ==> #[trigger] final(self).spec_operator(o, l, t)
                == old(self).spec_operator(o, l, t),
    {
        match self.operator(op, lhs, rhs) {
            Some(previous) => Err(previous),
            None => {
                let ghost before = self.operators@;
                self.operators.push((op, lhs, rhs, proc));
                proof {
                    assert forall|i: int, j: int| 0 <= i < j < self.operators@.len() implies !(#[trigger] self.operators@[i].0
                        == #[trigger] self.operators@[j].0 && self.operators@[i].1 == self.operators@[j].1
                        && self.operators@[i].2 == self.operators@[j].2) by {
                        if j == before.len() {
                            assert(!operator_at(old(self).operators_view(), i, op, lhs, rhs));
                        } else {
                            assert(self.operators@[i] == before[i]);
                            assert(self.operators@[j] == before[j]);
                        }
                    }
                    let ops = self.operators_view();
                    assert(operator_at(ops, before.len() as int, op, lhs, rhs));
                    let c = choose|k: int| #[trigger] operator_at(ops, k, op, lhs, rhs);
                    if c != before.len() {
                        assert(ops[c] == before[c]);
                        assert(operator_at(old(self).operators_view(), c, op, lhs, rhs));
                    }
                    assert forall|o: BinOp, l: PoolId, t: PoolId| !(o == op && l == lhs && t == rhs) implies #[trigger] self.spec_operator(
                        o,
                        l,
                        t,
                    ) == old(self).spec_operator(o, l, t) by {
                        let olds = old(self).operators_view();
                        if exists|k: int| #[trigger] operator_at(olds, k, o, l, t) {
                            let k = choose|k: int| #[trigger] operator_at(olds, k, o, l, t);
                            assert(ops[k] == olds[k]);
                            assert(operator_at(ops, k, o, l, t));
                            let c2 = choose|k: int| #[trigger] operator_at(ops, k, o, l, t);
                            assert(c2 < before.len());
                            assert(ops[c2] == olds[c2]);
                            if c2 != k {
                                assert(operator_at(olds, c2, o, l, t));
                            }
                        }
                        if exists|k: int| #[trigger] operator_at(ops, k, o, l, t) {
                            let k = choose|k: int| #[trigger] operator_at(ops, k, o, l, t);
                            assert(k < before.len());
                            assert(ops[k] == olds[k]);
                            assert(operator_at(olds, k, o, l, t));
                        }
                    }
                }
                Ok(())
            },
        }
    }

    /// Whether this file declares any overload at all.
    pub fn has_operators(&self) -> (r: bool)
        ensures
            r == (self.operators_view().len() > 0),
    {
        self.operators.len() > 0
    }

    /// The display name of a nominal type declared in this file.
    pub fn name_of_type(&self, ty: PoolId) -> (r: Option<&str>)
        requires
            self.wf(),
        ensures
            r matches Some(s) ==> self.type_names_view().contains_key(ty as u128) && s@ == self.type_names_view()[ty as u128],
            r is None ==> !self.type_names_view().contains_key(ty as u128),
    {
        match self.type_names.get(ty as u128) {
            Some(s) => Some(s.as_str()),
            None => None,
        }
    }

    /// The interned library of a `#foreign` procedure; `None` when it is not `#foreign`,
    /// names no library, or names something that is not a `#system_library`.
    pub fn foreign_library(&self, proc: ProcId) -> (r: Option<PoolId>)
        ensures
            r == (if self.foreign_libraries_view().contains_key(proc as u128) {
                Some(self.foreign_libraries_view()[proc as u128])
            } else {
                None
            }),
    {
        self.foreign_libraries.get(proc as u128)
    }

    /// Every module this file resolved a type name from, one entry per imported name.
    pub fn modules_used_in_type_position(&self) -> (r: Vec<String>)
        requires
            self.wf(),
        ensures
            r@.len() == self.type_name_import_order().len(),
            forall|i: int| 0 <= i < r@.len() ==> #[trigger] r@[i]@ == self.type_name_imports_view()[self.type_name_import_order()[i]],
    {
        let n = self.type_name_imports.len();
        let mut out: Vec<String> = Vec::new();
        let mut i: usize = 0;
        while i < n
            invariant
                self.wf(),
                n == self.type_name_imports.keys().len(),
                i <= n,
                out@.len() == i,
                forall|m: int| 0 <= m < i ==> #[trigger] out@[m]@ == self.type_name_imports_view()[self.type_name_imports.keys()[m]],
            decreases n - i,
        {
            let k = self.type_name_imports.key_at(i);
            proof {
                self.type_name_imports.lemma_keys_are_entries(i as int);
            }
            match self.type_name_imports.get(k) {
                Some(module) => out.push(module.clone()),
                None => {
                    assert(false);
                },
            }
            i = i + 1;
        }
        out
    }

    /// The number of named declarations.
    pub fn len(&self) -> (r: usize)
        requires
            self.wf(),
        ensures
            r == self.names_view().len(),
    {
        self.names.len()
    }

    /// Whether the file declares no names at all.
    pub fn is_empty(&self) -> (r: bool)
        requires
            self.wf(),
        ensures
            r == (self.names_view().len() == 0),
    {
        self.names.len() == 0
    }

    /// Records this file's struct bodies in `pool`, replacing any recorded before, so it
    /// may be called any number of times.
    pub fn record_in(&self, pool: &mut Pool)
        requires
            old(pool).fields_unique(),
            old(pool).fields_valid(),
            forall|k: int| 0 <= k < self.struct_bodies_view().len() ==> crate::pool::fields_fit(
                #[trigger] self.struct_bodies_view()[k].1,
                old(pool)@.len(),
            ),
        ensures
            final(pool).fields_valid(),
            final(pool)@ == old(pool)@,
            final(pool).wf() == old(pool).wf(),
            final(pool).fields_unique(),
            forall|d: DeclId| (forall|k: int| 0 <= k < self.struct_bodies_view().len() ==> self.struct_bodies_view()[k].0 != d)
                ==> #[trigger] final(pool).fields_of(d) == old(pool).fields_of(d),
            forall|k: int| 0 <= k < self.struct_bodies_view().len()
                && (forall|m: int| k < m < self.struct_bodies_view().len() ==> self.struct_bodies_view()[m].0 != self.struct_bodies_view()[k].0)
                ==> final(pool).fields_of(#[trigger] self.struct_bodies_view()[k].0) == Some(self.struct_bodies_view()[k].1),
            forall|d: DeclId| #[trigger] final(pool).members_of(d) == old(pool).members_of(d),
    {
        let n = self.struct_bodies.len();
        let ghost start = *pool;
        let mut i: usize = 0;
        while i < n
            invariant
                n == self.struct_bodies@.len(),
                i <= n,
                pool@ == start@,
                pool.wf() == start.wf(),
                pool.fields_unique(),
                pool.fields_valid(),
                forall|d: DeclId| #[trigger] pool.members_of(d) == start.members_of(d),
                forall|k: int| 0 <= k < self.struct_bodies_view().len() ==> crate::pool::fields_fit(
                    #[trigger] self.struct_bodies_view()[k].1,
                    start@.len(),
                ),
                forall|d: DeclId| (forall|k: int| 0 <= k < i ==> self.struct_bodies_view()[k].0 != d)
                    ==> #[trigger] pool.fields_of(d) == start.fields_of(d),
                forall|k: int| 0 <= k < i
                    && (forall|m: int| k < m < i ==> self.struct_bodies_view()[m].0 != self.struct_bodies_view()[k].0)
                    ==> pool.fields_of(#[trigger] self.struct_bodies_view()[k].0) == Some(self.struct_bodies_view()[k].1),
            decreases n - i,
        {
            let decl = self.struct_bodies[i].0;
            let fields = clone_fields(&self.struct_bodies[i].1);
            let ghost mid = *pool;
            pool.set_struct_fields(decl, fields);
            proof {
                let sb = self.struct_bodies_view();
                assert(sb[i as int].0 == decl);
                assert(sb[i as int].1 == crate::pool::fields_view(fields@));
                assert forall|d: DeclId| #[trigger] pool.fields_of(d) is Some implies crate::pool::fields_fit(pool.fields_of(d)->0, pool@.len()) by {
                    if d == decl {
                        assert(crate::pool::fields_fit(sb[i as int].1, start@.len()));
                    } else {
                        assert(pool.fields_of(d) == mid.fields_of(d));
                    }
                }
                assert forall|d: DeclId| (forall|k: int| 0 <= k < i + 1 ==> sb[k].0 != d)
                    implies #[trigger] pool.fields_of(d) == start.fields_of(d) by {
                    assert(sb[i as int].0 != d);
                    assert(pool.fields_of(d) == mid.fields_of(d));
                }
                assert forall|k: int| 0 <= k < i + 1
                    && (forall|m: int| k < m < i + 1 ==> sb[m].0 != sb[k].0)
                    implies pool.fields_of(#[trigger] sb[k].0) == Some(sb[k].1) by {
                    if k < i {
                        assert(sb[i as int].0 != sb[k].0);
                        assert(pool.fields_of(sb[k].0) == mid.fields_of(sb[k].0));
                    }
                }
            }
            i = i + 1;
        }
    }

    /// Records a named declaration.
    pub fn insert(&mut self, name: Symbol, entry: SigEntry)
        requires
            old(self).wf(),
        ensures
            final(self).wf(),
            final(self).names_view() == old(self).names_view().insert(name as u128, entry),
            final(self).procs_view() == old(self).procs_view(),
            final(self).file_view() == old(self).file_view(),
            final(self).operators_view() == old(self).operators_view(),
            final(self).type_names_view() == old(self).type_names_view(),
            final(self).struct_bodies_view() == old(self).struct_bodies_view(),
            final(self).foreign_libraries_view() == old(self).foreign_libraries_view(),
    {
        self.names.insert(name as u128, entry);
    }

    /// Records a procedure's resolved signature.
    pub fn insert_proc(&mut self, proc: ProcId, sig: ProcSig)
        requires
            old(self).wf(),
        ensures
            final(self).wf(),
            final(self).procs_view() == old(self).procs_view().insert(proc as u128, sig),
            final(self).names_view() == old(self).names_view(),
            final(self).name_order() == old(self).name_order(),
            final(self).file_view() == old(self).file_view(),
            final(self).operators_view() == old(self).operators_view(),
            final(self).type_names_view() == old(self).type_names_view(),
            final(self).struct_bodies_view() == old(self).struct_bodies_view(),
            final(self).foreign_libraries_view() == old(self).foreign_libraries_view(),
    {
        self.procs.insert(proc as u128, sig);
    }

    /// Records a struct's resolved field list.
    pub fn insert_struct_body(&mut self, decl: DeclId, fields: Vec<Field>)
        requires
            old(self).wf(),
        ensures
            final(self).wf(),
            final(self).struct_bodies_view() == old(self).struct_bodies_view().push((decl, crate::pool::fields_view(fields@))),
            final(self).names_view() == old(self).names_view(),
            final(self).name_order() == old(self).name_order(),
            final(self).procs_view() == old(self).procs_view(),
            final(self).file_view() == old(self).file_view(),
            final(self).operators_view() == old(self).operators_view(),
            final(self).type_names_view() == old(self).type_names_view(),
            final(self).foreign_libraries_view() == old(self).foreign_libraries_view(),
    {
        let ghost before = self.struct_bodies_view();
        let ghost fv = crate::pool::fields_view(fields@);
        self.struct_bodies.push((decl, fields));
        assert(self.struct_bodies_view() =~= before.push((decl, fv)));
    }

    /// Records the display name of a nominal type.
    pub fn insert_type_name(&mut self, ty: PoolId, name: String)
        requires
            old(self).wf(),
        ensures
            final(self).wf(),
            final(self).type_names_view() == old(self).type_names_view().insert(ty as u128, name@),
            final(self).names_view() == old(self).names_view(),
            final(self).name_order() == old(self).name_order(),
            final(self).procs_view() == old(self).procs_view(),
            final(self).file_view() == old(self).file_view(),
            final(self).operators_view() == old(self).operators_view(),
            final(self).struct_bodies_view() == old(self).struct_bodies_view(),
            final(self).foreign_libraries_view() == old(self).foreign_libraries_view(),
    {
        let ghost before = self.type_names_view();
        let ghost text = name@;
        self.type_names.insert(ty as u128, name);
        assert(self.type_names_view() =~= before.insert(ty as u128, text));
    }

    /// Records a `#foreign` procedure's resolved library.
    pub fn insert_foreign_library(&mut self, proc: ProcId, library: PoolId)
        requires
            old(self).wf(),
        ensures
            final(self).wf(),
            final(self).foreign_libraries_view() == old(self).foreign_libraries_view().insert(proc as u128, library),
            final(self).names_view() == old(self).names_view(),
            final(self).name_order() == old(self).name_order(),
            final(self).procs_view() == old(self).procs_view(),
            final(self).file_view() == old(self).file_view(),
            final(self).operators_view() == old(self).operators_view(),
            final(self).type_names_view() == old(self).type_names_view(),
            final(self).struct_bodies_view() == old(self).struct_bodies_view(),
    {
        self.foreign_libraries.insert(proc as u128, library);
    }

    /// Records that a type name resolved to a declaration in an imported module.
    pub fn insert_type_name_import(&mut self, name: Symbol, module: &str)
        requires
            old(self).wf(),
        ensures
            final(self).wf(),
            final(self).type_name_imports_view() == old(self).type_name_imports_view().insert(name as u128, module@),
            final(self).names_view() == old(self).names_view(),
            final(self).name_order() == old(self).name_order(),
            final(self).procs_view() == old(self).procs_view(),
            final(self).file_view() == old(self).file_view(),
            final(self).operators_view() == old(self).operators_view(),
            final(self).type_names_view() == old(self).type_names_view(),
            final(self).struct_bodies_view() == old(self).struct_bodies_view(),
            final(self).foreign_libraries_view() == old(self).foreign_libraries_view(),
    {
        let ghost before = self.type_name_imports_view();
        self.type_name_imports.insert(name as u128, module.to_owned());
        assert(self.type_name_imports_view() =~= before.insert(name as u128, module@));
    }


    /// A copy of these signatures.
    pub fn duplicate(&self) -> (r: FileSignatures)
        requires
            self.wf(),
        ensures
            r.wf(),
            r.names_view() == self.names_view(),
            r.name_order() == self.name_order(),
            r.procs_view().dom() == self.procs_view().dom(),
            forall|k: u128| #[trigger] self.procs_view().contains_key(k) ==> same_sig(r.procs_view()[k], self.procs_view()[k]),
            r.type_names_view() == self.type_names_view(),
            r.type_name_imports_view() == self.type_name_imports_view(),
            r.type_name_import_order() == self.type_name_import_order(),
            r.operators_view() == self.operators_view(),
            r.file_view() == self.file_view(),
            r.struct_bodies_view() == self.struct_bodies_view(),
            r.foreign_libraries_view() == self.foreign_libraries_view(),
    {
        let mut operators: Vec<(BinOp, PoolId, PoolId, ProcId)> = Vec::new();
        let mut i: usize = 0;
        while i < self.operators.len()
            invariant
                i <= self.operators@.len(),
                operators@ == self.operators@.subrange(0, i as int),
            decreases self.operators@.len() - i,
        {
            operators.push(self.operators[i]);
            i = i + 1;
        }
        assert(operators@ =~= self.operators@);
        let mut struct_bodies: Vec<(DeclId, Vec<Field>)> = Vec::new();
        let mut j: usize = 0;
        while j < self.struct_bodies.len()
            invariant
                j <= self.struct_bodies@.len(),
                struct_bodies@.len() == j,
                forall|m: int| 0 <= m < j ==> (#[trigger] struct_bodies@[m]).0 == self.struct_bodies@[m].0
                    && crate::pool::fields_view(struct_bodies@[m].1@) == crate::pool::fields_view(self.struct_bodies@[m].1@),
            decreases self.struct_bodies@.len() - j,
        {
            let fields = clone_fields(&self.struct_bodies[j].1);
            struct_bodies.push((self.struct_bodies[j].0, fields));
            j = j + 1;
        }
        let r = FileSignatures {
            names: self.names.copy(),
            procs: copy_proc_slots(&self.procs),
            file: self.file,
            operators,
            struct_bodies,
            type_names: copy_string_slots(&self.type_names),
            foreign_libraries: self.foreign_libraries.copy(),
            type_name_imports: copy_string_slots(&self.type_name_imports),
        };
        proof {
            assert(r.struct_bodies_view() =~= self.struct_bodies_view());
            assert(r.type_names_view() =~= self.type_names_view());
            assert(r.type_name_imports_view() =~= self.type_name_imports_view());
        }
        r
    }

    /// The names this file declares, in declaration order, for a "did you mean".
    pub fn declared_names(&self) -> (r: Vec<Symbol>)
        requires
            self.wf(),
        ensures
            r@.len() == self.name_order().len(),
            forall|i: int| 0 <= i < r@.len() ==> #[trigger] r@[i] as u128 == self.name_order()[i],
    {
        let n = self.names.len();
        let mut out: Vec<Symbol> = Vec::new();
        let mut i: usize = 0;
        while i < n
            invariant
                self.wf(),
                n == self.name_order().len(),
                i <= n,
                out@.len() == i,
                forall|m: int| 0 <= m < i ==> #[trigger] out@[m] as u128 == self.name_order()[m],
            decreases n - i,
        {
            let k = self.names.key_at(i);
            proof {
                self.names.lemma_keys_are_entries(i as int);
            }
            out.push(k as u32);
            i = i + 1;
        }
        out
    }
}

/// A copy of a field list.
pub fn clone_fields(fields: &Vec<Field>) -> (r: Vec<Field>)
    ensures
        crate::pool::fields_view(r@) == crate::pool::fields_view(fields@),
{
    let mut out: Vec<Field> = Vec::new();
    let mut i: usize = 0;
    while i < fields.len()
        invariant
            i <= fields@.len(),
            out@.len() == i,
            forall|m: int| 0 <= m < i ==> (#[trigger] out@[m]).name@ == fields@[m].name@ && out@[m].ty == fields@[m].ty,
        decreases fields@.len() - i,
    {
        out.push(Field { name: fields[i].name.clone(), ty: fields[i].ty });
        i = i + 1;
    }
    assert(crate::pool::fields_view(out@) =~= crate::pool::fields_view(fields@));
    out
}

/// Two signatures with the same parameters, names, defaults, result and type.
pub open spec fn same_sig(a: ProcSig, b: ProcSig) -> bool {
    &&& a.params@ == b.params@
    &&& a.names@ == b.names@
    &&& a.defaults@ == b.defaults@
    &&& a.ret == b.ret
    &&& a.poly_vars@ == b.poly_vars@
    &&& a.ty == b.ty
}

/// A copy of a table of signatures.
fn copy_proc_slots(slots: &Slots<ProcSig>) -> (r: Slots<ProcSig>)
    requires
        slots.wf(),
    ensures
        r.wf(),
        r.keys() == slots.keys(),
        r.view().dom() == slots.view().dom(),
        forall|k: u128| #[trigger] slots.view().contains_key(k) ==> same_sig(r.view()[k], slots.view()[k]),
{
    let mut out: Slots<ProcSig> = Slots::new();
    let n = slots.len();
    let mut i: usize = 0;
    proof {
        slots.lemma_dom_is_keys();
    }
    while i < n
        invariant
            slots.wf(),
            out.wf(),
            n == slots.keys().len(),
            slots.keys().no_duplicates(),
            forall|k: u128| slots.view().contains_key(k) <==> slots.keys().contains(k),
            i <= n,
            out.keys() == slots.keys().subrange(0, i as int),
            forall|j: int| 0 <= j < i ==> out.view().contains_key(#[trigger] slots.keys()[j])
                && same_sig(out.view()[slots.keys()[j]], slots.view()[slots.keys()[j]]),
        decreases n - i,
    {
        let k = slots.key_at(i);
        proof {
            slots.lemma_keys_are_entries(i as int);
            out.lemma_dom_is_keys();
            assert(!out.keys().contains(k)) by {
                if out.keys().contains(k) {
                    let j = choose|j: int| 0 <= j < out.keys().len() && out.keys()[j] == k;
                    assert(slots.keys()[j] == slots.keys()[i as int]);
                }
            }
        }
        match slots.get(k) {
            Some(sig) => {
                out.insert(k, copy_sig(sig));
                proof {
                    assert(out.keys() =~= slots.keys().subrange(0, i + 1));
                    assert forall|j: int| 0 <= j < i + 1 implies out.view().contains_key(#[trigger] slots.keys()[j])
                        && same_sig(out.view()[slots.keys()[j]], slots.view()[slots.keys()[j]]) by {
                        if j < i {
                            assert(slots.keys()[j] != k);
                        }
                    }
                }
            },
            None => {},
        }
        i = i + 1;
    }
    proof {
        out.lemma_dom_is_keys();
        assert(out.keys() =~= slots.keys());
        assert forall|k: u128| out.view().contains_key(k) <==> slots.view().contains_key(k) by {
            if slots.view().contains_key(k) {
                assert(slots.keys().contains(k));
                let j = choose|j: int| 0 <= j < slots.keys().len() && slots.keys()[j] == k;
                assert(out.view().contains_key(slots.keys()[j]));
            }
            if out.view().contains_key(k) {
                assert(out.keys().contains(k));
            }
        }
        assert(out.view().dom() =~= slots.view().dom());
        assert forall|k: u128| #[trigger] slots.view().contains_key(k) implies same_sig(out.view()[k], slots.view()[k]) by {
            assert(slots.keys().contains(k));
            let j = choose|j: int| 0 <= j < slots.keys().len() && slots.keys()[j] == k;
            assert(out.view().contains_key(slots.keys()[j]));
        }
    }
    out
}

/// A copy of a table of strings.
fn copy_string_slots(slots: &Slots<String>) -> (r: Slots<String>)
    requires
        slots.wf(),
    ensures
        r.wf(),
        r.keys() == slots.keys(),
        r.view() == slots.view(),
{
    let mut out: Slots<String> = Slots::new();
    let n = slots.len();
    let mut i: usize = 0;
    proof {
        slots.lemma_dom_is_keys();
    }
    while i < n
        invariant
            slots.wf(),
            out.wf(),
            n == slots.keys().len(),
            slots.keys().no_duplicates(),
            forall|k: u128| slots.view().contains_key(k) <==> slots.keys().contains(k),
            i <= n,
            out.keys() == slots.keys().subrange(0, i as int),
            forall|j: int| 0 <= j < i ==> out.view().contains_key(#[trigger] slots.keys()[j])
                && out.view()[slots.keys()[j]] == slots.view()[slots.keys()[j]],
        decreases n - i,
    {
        let k = slots.key_at(i);
        proof {
            slots.lemma_keys_are_entries(i as int);
            out.lemma_dom_is_keys();
            assert(!out.keys().contains(k)) by {
                if out.keys().contains(k) {
                    let j = choose|j: int| 0 <= j < out.keys().len() && out.keys()[j] == k;
                    assert(slots.keys()[j] == slots.keys()[i as int]);
                }
            }
        }
        match slots.get(k) {
            Some(text) => {
                out.insert(k, text.clone());
                proof {
                    assert(out.keys() =~= slots.keys().subrange(0, i + 1));
                    assert forall|j: int| 0 <= j < i + 1 implies out.view().contains_key(#[trigger] slots.keys()[j])
                        && out.view()[slots.keys()[j]] == slots.view()[slots.keys()[j]] by {
                        if j < i {
                            assert(slots.keys()[j] != k);
                        }
                    }
                }
            },
            None => {},
        }
        i = i + 1;
    }
    proof {
        out.lemma_dom_is_keys();
        assert(out.keys() =~= slots.keys());
        assert forall|k: u128| out.view().contains_key(k) <==> slots.view().contains_key(k) by {
            if slots.view().contains_key(k) {
                assert(slots.keys().contains(k));
                let j = choose|j: int| 0 <= j < slots.keys().len() && slots.keys()[j] == k;
                assert(out.view().contains_key(slots.keys()[j]));
            }
            if out.view().contains_key(k) {
                assert(out.keys().contains(k));
            }
        }
        assert forall|k: u128| #[trigger] out.view().contains_key(k) implies out.view()[k] == slots.view()[k] by {
            assert(slots.keys().contains(k));
            let j = choose|j: int| 0 <= j < slots.keys().len() && slots.keys()[j] == k;
            assert(out.view().contains_key(slots.keys()[j]));
        }
        assert(out.view() =~= slots.view());
    }
    out
}

/// A copy of a list of type ids.
pub fn copy_ids(ids: &Vec<PoolId>) -> (r: Vec<PoolId>)
    ensures
        r@ == ids@,
{
    let mut out: Vec<PoolId> = Vec::new();
    let mut i: usize = 0;
    while i < ids.len()
        invariant
            i <= ids@.len(),
            out@ == ids@.subrange(0, i as int),
        decreases ids@.len() - i,
    {
        out.push(ids[i]);
        i = i + 1;
    }
    assert(ids@.subrange(0, ids@.len() as int) == ids@);
    out
}

/// A copy of a list of symbols.
pub fn copy_symbols(syms: &Vec<Symbol>) -> (r: Vec<Symbol>)
    ensures
        r@ == syms@,
{
    let mut out: Vec<Symbol> = Vec::new();
    let mut i: usize = 0;
    while i < syms.len()
        invariant
            i <= syms@.len(),
            out@ == syms@.subrange(0, i as int),
        decreases syms@.len() - i,
    {
        out.push(syms[i]);
        i = i + 1;
    }
    assert(syms@.subrange(0, syms@.len() as int) == syms@);
    out
}

/// A copy of a list of parameter defaults.
pub fn copy_defaults(defaults: &Vec<Option<PoolId>>) -> (r: Vec<Option<PoolId>>)
    ensures
        r@ == defaults@,
{
    let mut out: Vec<Option<PoolId>> = Vec::new();
    let mut i: usize = 0;
    while i < defaults.len()
        invariant
            i <= defaults@.len(),
            out@ == defaults@.subrange(0, i as int),
        decreases defaults@.len() - i,
    {
        out.push(defaults[i]);
        i = i + 1;
    }
    assert(defaults@.subrange(0, defaults@.len() as int) == defaults@);
    out
}

/// A copy of a procedure signature.
pub fn copy_sig(sig: &ProcSig) -> (r: ProcSig)
    ensures
        r.params@ == sig.params@,
        r.names@ == sig.names@,
        r.defaults@ == sig.defaults@,
        r.ret == sig.ret,
        r.poly_vars@ == sig.poly_vars@,
        r.ty == sig.ty,
{
    ProcSig {
        params: copy_ids(&sig.params),
        names: copy_symbols(&sig.names),
        defaults: copy_defaults(&sig.defaults),
        ret: sig.ret,
        poly_vars: copy_symbols(&sig.poly_vars),
        ty: sig.ty,
    }
}


} // verus!
