//! The lowered, name-resolved form of one file that semantic analysis reads.
//!
//! Expressions, statements and type references live in arenas and refer to each other
//! by index. A file's top-level expressions and each body's expressions are separate
//! arenas that all start at 0, so an expression id means nothing without the
//! [`ExprScope`] that says which arena it indexes.
//!
//! Children are lowered before their parents, so in a well-formed arena every child
//! index is below its parent's: that is what makes every walk over the tree terminate.

use vstd::prelude::*;
use crate::suggest::str_eq;
use crate::pool::PoolId;

verus! {

/// An index into an expression arena.
pub type ExprId = u32;
/// An index into a statement arena.
pub type StmtId = u32;
/// An index into a body's locals.
pub type LocalId = u32;
/// An index into a type-reference arena.
pub type TypeRefId = u32;
/// An index into the file's bodies.
pub type BodyId = u32;
/// An index into the file's procedures.
pub type ProcId = u32;
/// An index into the file's items.
pub type ItemId = u32;
/// An interned name.
pub type Symbol = u32;

/// Which expression arena an [`ExprId`] indexes.
#[derive(Clone, Copy, Debug, PartialEq, Eq, Structural)]
pub enum ExprScope {
    /// The file's own arena: constant initialisers and `#run` items.
    TopLevel,
    /// A procedure body's arena.
    Body(BodyId),
}

/// A source range in one file.
#[derive(Clone, Copy, Debug, PartialEq, Eq, Structural)]
pub struct Span {
    pub file: u32,
    pub start: u32,
    pub end: u32,
}

/// A literal. An integer literal stores its value with no sign: `-1` is negation
/// applied to `1`.
#[derive(Debug)]
pub enum Literal {
    Int(i128),
    Bool(bool),
    Str(String),
    Null,
}

/// A binary operator.
#[derive(Clone, Copy, Debug, PartialEq, Eq, Structural)]
pub enum BinOp {
    Add,
    Sub,
    Mul,
    Div,
    Rem,
    WrapAdd,
    WrapSub,
    WrapMul,
    Eq,
    Ne,
    Lt,
    Le,
    Gt,
    Ge,
    And,
    Or,
    BitAnd,
    BitOr,
    BitXor,
    Shl,
    Shr,
}

/// A unary operator.
#[derive(Clone, Copy, Debug, PartialEq, Eq, Structural)]
pub enum UnOp {
    /// `-x`.
    Neg,
    /// `!x`.
    Not,
    /// `~x`.
    BitNot,
    /// `*x`, the address of a place.
    AddrOf,
}

/// An assignment operator.
#[derive(Clone, Copy, Debug, PartialEq, Eq, Structural)]
pub enum AssignOp {
    Assign,
    AddAssign,
    SubAssign,
    MulAssign,
    DivAssign,
    RemAssign,
    WrapAddAssign,
    WrapSubAssign,
    WrapMulAssign,
    BitAndAssign,
    BitOrAssign,
    BitXorAssign,
    ShlAssign,
    ShrAssign,
}

/// What a name in an expression resolved to.
#[derive(Clone, Copy, Debug, PartialEq, Eq, Structural)]
pub enum Res {
    /// A local of the enclosing body.
    Local(LocalId),
    /// A parameter of the enclosing procedure, by position.
    Param(u32),
    /// A file-level declaration of this file.
    Item(ItemId),
    /// A name exported by the imported module at this position of the import list.
    Imported(u32, Symbol),
    /// Resolution already failed and reported it.
    Error,
}

/// An expression.
#[allow(inconsistent_fields)]
#[derive(Debug)]
pub enum Expr {
    Literal(Literal, Span),
    Name { res: Res, span: Span },
    Binary { op: BinOp, lhs: ExprId, rhs: ExprId, span: Span },
    Unary { op: UnOp, operand: ExprId, span: Span },
    /// `callee(args)`; `arg_names` holds, per argument, the parameter name it was written
    /// with (`f(count = 3)`), if any.
    Call { callee: ExprId, args: Vec<ExprId>, arg_names: Vec<Option<Symbol>>, span: Span },
    /// `receiver.name`.
    Field { receiver: ExprId, name: Symbol, span: Span },
    /// `.NAME`: a member of the enum its context expects.
    Member { name: Symbol, name_span: Span, span: Span },
    /// `cast(T, operand)`, `T` in the same arena's type references.
    Cast { ty: TypeRefId, operand: ExprId, span: Span },
    /// `xx operand`: a cast to whatever type the context expects.
    Autocast { operand: ExprId, span: Span },
    /// `base[index]`.
    Index { base: ExprId, index: ExprId, index_span: Span, span: Span },
    /// `base[]`: a view over an array.
    Slice { base: ExprId, span: Span },
    /// `pointer.*`.
    Deref(ExprId, Span),
    /// `#run e`.
    Run(ExprId, Span),
    /// `#system_library "name"`, the name absent when none was written.
    SystemLibrary(Option<String>, Span),
    /// An expression that failed to lower.
    Error(Span),
}

/// A type annotation.
#[derive(Debug)]
pub enum TypeRef {
    /// A type named by an identifier.
    Name(Symbol, Span),
    /// `*T`.
    Pointer(TypeRefId),
    /// `Module.Name`: a type exported by the module an aliased `#import` binds.
    Qualified { module: Symbol, name: Symbol },
    /// `[N]T`: the length as a literal, or as the name written in its place, which
    /// must denote a constant whose value is one.
    Array { elem: TypeRefId, len: Option<u64>, len_name: Option<Symbol>, len_span: Span },
    /// `[]T`.
    View(TypeRefId),
    /// `(T, U)` in result position: several results.
    Results(Vec<TypeRefId>),
    /// `$T`: a type variable that a polymorphic procedure's parameter introduces.
    Poly(Symbol),
    /// An annotation that failed to parse.
    Error,
}

/// A local declaration: `name: T = init`, `name := init` or `name: T`.
#[derive(Debug)]
pub struct Local {
    pub name: Symbol,
    pub ty: Option<TypeRefId>,
    pub init: Option<ExprId>,
    pub span: Span,
}

/// A statement.
#[allow(inconsistent_fields)]
#[derive(Debug)]
pub enum Stmt {
    /// A local declaration.
    Local(LocalId),
    /// An expression whose value is dropped.
    Expr(ExprId),
    /// `_ = e;`, a value received and thrown away on purpose.
    Discard(ExprId),
    Assign { lhs: ExprId, op: AssignOp, rhs: ExprId, span: Span },
    If { cond: ExprId, then: StmtId, else_: Option<StmtId> },
    While { cond: ExprId, body: StmtId },
    Block(Vec<StmtId>),
    /// `switch value { case v; … else; … }`.
    Switch { value: ExprId, arms: Vec<SwitchArm>, span: Span },
    Return(Option<ExprId>, Span),
    /// `return a, b;`
    ReturnTuple(Vec<ExprId>, Span),
    /// `a, _ := f();`: one local per result, `None` where a result is discarded.
    LocalTuple { targets: Vec<Option<LocalId>>, call: ExprId, span: Span },
    /// `a, _ = f();`: one target per result, `None` where a result is discarded.
    AssignTuple { targets: Vec<Option<ExprId>>, call: ExprId, span: Span },
    /// `for value, index: iterable { body }`: `value` is each element, `index` its
    /// position.
    For { value: LocalId, index: Option<LocalId>, iterable: ForIterable, body: StmtId, span: Span },
    Break,
    Continue,
    Error,
}

/// What a `for` iterates.
#[derive(Debug)]
pub enum ForIterable {
    /// An array or a view, or a pointer to one.
    Sequence(ExprId),
    /// `start..end`.
    Range { start: ExprId, end: ExprId },
}

/// One arm of a `switch`: `case value;` or, without a value, `else;`, and the
/// statement it runs.
#[derive(Debug)]
pub struct SwitchArm {
    pub value: Option<ExprId>,
    pub body: StmtId,
    pub span: Span,
}

/// A procedure body.
#[derive(Debug)]
pub struct Body {
    pub exprs: Vec<Expr>,
    pub stmts: Vec<Stmt>,
    pub locals: Vec<Local>,
    pub type_refs: Vec<TypeRef>,
    pub root: StmtId,
}

/// A parameter: its name, its annotation in the file's type-reference arena (absent
/// when the type is inferred from the default, as in `amount := 9`), and its default
/// value, an expression in the file's own arena.
#[derive(Debug)]
pub struct Param {
    pub name: Symbol,
    pub ty: Option<TypeRefId>,
    pub default: Option<ExprId>,
    pub span: Span,
}

/// The `#foreign` attribute of a procedure: the library constant it names, if any.
#[derive(Debug)]
pub struct ForeignInfo {
    pub library: Option<Symbol>,
    pub span: Span,
}

/// A procedure declaration. Its types index the file's type-reference arena.
#[derive(Debug)]
pub struct Proc {
    pub name: Symbol,
    pub params: Vec<Param>,
    pub ret: Option<TypeRefId>,
    pub body: Option<BodyId>,
    pub foreign: Option<ForeignInfo>,
    /// `#must`: a caller has to receive the result.
    pub must: bool,
    /// `#c_call`: the procedure takes the C calling convention and no implicit context.
    pub c_call: bool,
    pub span: Span,
}

/// What a file-level item declares.
#[derive(Debug)]
pub enum ItemKind {
    /// `name :: value`: the value is not annotated, so it types itself.
    Const { value: ExprId },
    /// `name := value` or `name: T` at file scope.
    Var { ty: Option<TypeRefId>, init: Option<ExprId> },
    /// `name :: (params) -> T { … }`.
    Proc(ProcId),
    /// `name :: struct { … }`: its fields, each a name and a type reference.
    Struct { fields: Vec<(Symbol, TypeRefId)> },
    /// `name :: enum { … }` or `enum_flags`, with its members.
    Enum { flags: bool, members: Vec<EnumMember> },
    /// `operator + :: (a: T, b: U) -> R { … }`: an overload of a binary operator.
    Operator { proc: ProcId, op: BinOp },
    /// An unnamed `#run e`.
    Run(ExprId),
    /// `#import "path"`, or `Alias :: #import "path"` when it binds an alias.
    Import { path: String, alias: Option<Symbol> },
}

/// An enum member: its name and, when one was written, the expression of its value, in
/// the file's own arena.
#[derive(Debug)]
pub struct EnumMember {
    pub name: Symbol,
    pub value: Option<ExprId>,
    pub span: Span,
}

/// A file-level item.
#[derive(Debug)]
pub struct Item {
    pub name: Option<Symbol>,
    pub kind: ItemKind,
    pub span: Span,
}

/// One file, lowered and resolved.
#[derive(Debug)]
pub struct FileHir {
    pub items: Vec<Item>,
    pub procs: Vec<Proc>,
    pub bodies: Vec<Body>,
    /// The file's own expression arena.
    pub exprs: Vec<Expr>,
    /// The file's own type-reference arena: parameter, return, field and constant types.
    pub type_refs: Vec<TypeRef>,
    /// The type each instantiated procedure binds its type variables to: one entry per
    /// `(procedure, variable, type)`. A procedure with an entry is an instantiation; a
    /// polymorphic procedure without one is a template.
    pub proc_bindings: Vec<(ProcId, Symbol, PoolId)>,
}

/// The names of a file and its imports, interned: a name is its index.
pub struct Interner {
    names: Vec<String>,
}

impl View for Interner {
    type V = Seq<Seq<char>>;

    closed spec fn view(&self) -> Seq<Seq<char>> {
        Seq::new(self.names@.len(), |i: int| self.names@[i]@)
    }
}

impl Interner {
    /// No name occurs twice.
    pub open spec fn wf(&self) -> bool {
        &&& forall|i: int, j: int| 0 <= i < j < self@.len() ==> #[trigger] self@[i] != #[trigger] self@[j]
        &&& forall|i: int| 0 <= i < self@.len() ==> (#[trigger] self@[i]).len() < usize::MAX
    }

    /// An interner holding no name.
    pub fn new() -> (r: Interner)
        ensures
            r.wf(),
            r@ == Seq::<Seq<char>>::empty(),
    {
        let r = Interner { names: Vec::new() };
        assert(r@ =~= Seq::<Seq<char>>::empty());
        r
    }

    /// The symbol of `name`, interning it if it is new.
    pub fn intern(&mut self, name: &str) -> (r: Symbol)
        requires
            old(self).wf(),
            old(self)@.len() < u32::MAX,
            name@.len() < usize::MAX,
        ensures
            final(self).wf(),
            r < final(self)@.len(),
            final(self)@[r as int] == name@,
            old(self)@.contains(name@) ==> final(self)@ == old(self)@,
            !old(self)@.contains(name@) ==> final(self)@ == old(self)@.push(name@),
    {
        match self.get(name) {
            Some(s) => s,
            None => {
                let ghost before = self@;
                let n = self.names.len();
                self.names.push(name.to_owned());
                proof {
                    assert(self@ =~= before.push(name@));
                    assert forall|i: int| 0 <= i < self@.len() implies (#[trigger] self@[i]).len() < usize::MAX by {
                        if i < n {
                            assert(self@[i] == before[i]);
                        }
                    }
                    assert forall|i: int, j: int| 0 <= i < j < self@.len() implies #[trigger] self@[i]
                        != #[trigger] self@[j] by {
                        if j == n {
                            assert(self@[i] == before[i]);
                            assert(before.contains(before[i]));
                        }
                    }
                }
                n as u32
            },
        }
    }

    /// The symbol of `name`, if it is interned.
    pub fn get(&self, name: &str) -> (r: Option<Symbol>)
        requires
            self@.len() <= u32::MAX,
        ensures
            r matches Some(s) ==> s < self@.len() && self@[s as int] == name@,
            r is None ==> !self@.contains(name@),
    {
        let n = self.names.len();
        let mut i: usize = 0;
        while i < n
            invariant
                n == self@.len(),
                n <= u32::MAX,
                i <= n,
                forall|k: int| 0 <= k < i ==> self@[k] != name@,
            decreases n - i,
        {
            if str_eq(self.names[i].as_str(), name) {
                return Some(i as u32);
            }
            i = i + 1;
        }
        None
    }

    /// The text of an interned symbol.
    pub fn resolve(&self, sym: Symbol) -> (r: &str)
        requires
            sym < self@.len(),
        ensures
            r@ == self@[sym as int],
    {
        self.names[sym as usize].as_str()
    }

    /// The text of a symbol; empty for one this interner never produced.
    pub fn text(&self, sym: Symbol) -> (r: &str)
        ensures
            r@ == spec_text(self@, sym),
    {
        if (sym as usize) < self.names.len() {
            self.names[sym as usize].as_str()
        } else {
            proof {
                reveal_strlit("");
            }
            ""
        }
    }
}


/// The text of `sym` in `names`; empty when out of range.
pub open spec fn spec_text(names: Seq<Seq<char>>, sym: Symbol) -> Seq<char> {
    if sym < names.len() {
        names[sym as int]
    } else {
        Seq::empty()
    }
}

/// Every expression an expression refers to is below `id`.
pub open spec fn expr_children_below(e: Expr, id: int) -> bool {
    match e {
        Expr::Binary { lhs, rhs, .. } => lhs < id && rhs < id,
        Expr::Unary { operand, .. } => operand < id,
        Expr::Call { callee, args, .. } => callee < id && forall|k: int| 0 <= k < args@.len() ==> args@[k] < id,
        Expr::Field { receiver, .. } => receiver < id,
        Expr::Deref(pointer, _) => pointer < id,
        Expr::Run(inner, _) => inner < id,
        Expr::Cast { operand, .. } => operand < id,
        Expr::Autocast { operand, .. } => operand < id,
        Expr::Index { base, index, .. } => base < id && index < id,
        Expr::Slice { base, .. } => base < id,
        _ => true,
    }
}

/// Every statement a statement refers to is below `id`.
pub open spec fn stmt_children_below(s: Stmt, id: int) -> bool {
    match s {
        Stmt::If { then, else_, .. } => then < id && (else_ matches Some(e) ==> e < id),
        Stmt::While { body, .. } => body < id,
        Stmt::For { body, .. } => body < id,
        Stmt::Block(stmts) => forall|k: int| 0 <= k < stmts@.len() ==> stmts@[k] < id,
        Stmt::Switch { arms, .. } => forall|k: int| 0 <= k < arms@.len() ==> arms@[k].body < id,
        _ => true,
    }
}

/// Every type reference a type reference refers to is below `id`.
pub open spec fn type_ref_children_below(t: TypeRef, id: int) -> bool {
    match t {
        TypeRef::Pointer(inner) => inner < id,
        TypeRef::Array { elem, .. } => elem < id,
        TypeRef::View(elem) => elem < id,
        TypeRef::Results(elems) => forall|k: int| 0 <= k < elems@.len() ==> elems@[k] < id,
        _ => true,
    }
}

/// An expression arena in which children precede their parents.
pub open spec fn exprs_wf(exprs: Seq<Expr>) -> bool {
    forall|i: int| 0 <= i < exprs.len() ==> expr_children_below(#[trigger] exprs[i], i)
}

/// A statement arena in which children precede their parents.
pub open spec fn stmts_wf(stmts: Seq<Stmt>) -> bool {
    forall|i: int| 0 <= i < stmts.len() ==> stmt_children_below(#[trigger] stmts[i], i)
}

/// A type-reference arena in which children precede their parents.
pub open spec fn type_refs_wf(refs: Seq<TypeRef>) -> bool {
    forall|i: int| 0 <= i < refs.len() ==> type_ref_children_below(#[trigger] refs[i], i)
}

impl Body {
    /// Children precede parents in every arena of the body.
    pub open spec fn wf(&self) -> bool {
        &&& exprs_wf(self.exprs@)
        &&& stmts_wf(self.stmts@)
        &&& type_refs_wf(self.type_refs@)
    }
}

impl FileHir {
    /// Children precede parents in every arena, and every index fits its id type.
    pub open spec fn wf(&self) -> bool {
        &&& exprs_wf(self.exprs@)
        &&& type_refs_wf(self.type_refs@)
        &&& forall|b: int| 0 <= b < self.bodies@.len() ==> (#[trigger] self.bodies@[b]).wf()
        &&& self.items@.len() < u32::MAX
        &&& self.procs@.len() < u32::MAX
        &&& self.bodies@.len() < u32::MAX
    }
}

/// The expression arena `scope` selects, if the file has it.
pub open spec fn spec_expr_arena(hir: &FileHir, scope: ExprScope) -> Option<Seq<Expr>> {
    match scope {
        ExprScope::TopLevel => Some(hir.exprs@),
        ExprScope::Body(b) => if b < hir.bodies@.len() {
            Some(hir.bodies@[b as int].exprs@)
        } else {
            None
        },
    }
}

/// The expression `id` of the arena `scope` selects; `None` outside it.
pub open spec fn spec_expr_at(hir: &FileHir, scope: ExprScope, id: ExprId) -> Option<Expr> {
    match spec_expr_arena(hir, scope) {
        Some(arena) => if id < arena.len() {
            Some(arena[id as int])
        } else {
            None
        },
        None => None,
    }
}

/// The type-reference arena `scope` selects, if the file has it.
pub open spec fn spec_type_ref_arena(hir: &FileHir, scope: ExprScope) -> Option<Seq<TypeRef>> {
    match scope {
        ExprScope::TopLevel => Some(hir.type_refs@),
        ExprScope::Body(b) => if b < hir.bodies@.len() {
            Some(hir.bodies@[b as int].type_refs@)
        } else {
            None
        },
    }
}

/// The type reference `id` of the arena `scope` selects; `None` outside it.
pub open spec fn spec_type_ref_at(hir: &FileHir, scope: ExprScope, id: TypeRefId) -> Option<TypeRef> {
    match spec_type_ref_arena(hir, scope) {
        Some(arena) => if id < arena.len() {
            Some(arena[id as int])
        } else {
            None
        },
        None => None,
    }
}

/// The expression `id` of the arena `scope` selects. An index outside that arena, or
/// a body the file does not have, yields `None`, so a mismatched arena degrades to
/// poison instead of reading a node from the wrong one.
pub fn expr_at<'a>(hir: &'a FileHir, scope: ExprScope, id: ExprId) -> (r: Option<&'a Expr>)
    ensures
        r matches Some(e) ==> spec_expr_at(hir, scope, id) == Some(*e),
        r is None ==> spec_expr_at(hir, scope, id) is None,
{
    let arena = match scope {
        ExprScope::TopLevel => &hir.exprs,
        ExprScope::Body(b) => {
            if (b as usize) < hir.bodies.len() {
                &hir.bodies[b as usize].exprs
            } else {
                return None;
            }
        },
    };
    if (id as usize) < arena.len() {
        Some(&arena[id as usize])
    } else {
        None
    }
}

/// The type reference `id` of the arena `scope` selects; `None` outside it.
pub fn type_ref_at<'a>(hir: &'a FileHir, scope: ExprScope, id: TypeRefId) -> (r: Option<&'a TypeRef>)
    ensures
        r matches Some(t) ==> spec_type_ref_at(hir, scope, id) == Some(*t),
        r is None ==> spec_type_ref_at(hir, scope, id) is None,
{
    let arena = match scope {
        ExprScope::TopLevel => &hir.type_refs,
        ExprScope::Body(b) => {
            if (b as usize) < hir.bodies.len() {
                &hir.bodies[b as usize].type_refs
            } else {
                return None;
            }
        },
    };
    if (id as usize) < arena.len() {
        Some(&arena[id as usize])
    } else {
        None
    }
}


/// The statement `id` of body `body`; `None` outside it.
pub open spec fn spec_stmt_at(hir: &FileHir, body: BodyId, id: StmtId) -> Option<Stmt> {
    if body < hir.bodies@.len() && id < hir.bodies@[body as int].stmts@.len() {
        Some(hir.bodies@[body as int].stmts@[id as int])
    } else {
        None
    }
}

/// The statement `id` of body `body`, if the file has both.
pub fn stmt_at<'a>(hir: &'a FileHir, body: BodyId, id: StmtId) -> (r: Option<&'a Stmt>)
    ensures
        r matches Some(s) ==> spec_stmt_at(hir, body, id) == Some(*s),
        r is None ==> spec_stmt_at(hir, body, id) is None,
{
    if (body as usize) < hir.bodies.len() && (id as usize) < hir.bodies[body as usize].stmts.len() {
        Some(&hir.bodies[body as usize].stmts[id as usize])
    } else {
        None
    }
}

/// In a well-formed file every statement's children precede it in its body.
pub proof fn lemma_stmt_children_below(hir: &FileHir, body: BodyId, id: StmtId)
    requires
        hir.wf(),
        spec_stmt_at(hir, body, id) is Some,
    ensures
        stmt_children_below(spec_stmt_at(hir, body, id)->0, id as int),
{
    assert(hir.bodies@[body as int].wf());
    assert(stmt_children_below(hir.bodies@[body as int].stmts@[id as int], id as int));
}

/// The local `id` of body `body`, if the file has both.
pub fn local_at<'a>(hir: &'a FileHir, body: BodyId, id: LocalId) -> (r: Option<&'a Local>)
    ensures
        r matches Some(l) ==> body < hir.bodies@.len() && id < hir.bodies@[body as int].locals@.len()
            && *l == hir.bodies@[body as int].locals@[id as int],
        r is None ==> !(body < hir.bodies@.len() && id < hir.bodies@[body as int].locals@.len()),
{
    if (body as usize) < hir.bodies.len() && (id as usize) < hir.bodies[body as usize].locals.len() {
        Some(&hir.bodies[body as usize].locals[id as usize])
    } else {
        None
    }
}

/// The span an expression covers.
pub open spec fn spec_span_of(e: Expr) -> Span {
    match e {
        Expr::Literal(_, span) => span,
        Expr::Name { span, .. } => span,
        Expr::Binary { span, .. } => span,
        Expr::Unary { span, .. } => span,
        Expr::Call { span, .. } => span,
        Expr::Field { span, .. } => span,
        Expr::Member { span, .. } => span,
        Expr::Cast { span, .. } => span,
        Expr::Autocast { span, .. } => span,
        Expr::Index { span, .. } => span,
        Expr::Slice { span, .. } => span,
        Expr::Deref(_, span) => span,
        Expr::Run(_, span) => span,
        Expr::SystemLibrary(_, span) => span,
        Expr::Error(span) => span,
    }
}

/// The span an expression covers.
pub fn span_of(e: &Expr) -> (r: Span)
    ensures
        r == spec_span_of(*e),
{
    match e {
        Expr::Literal(_, span) => *span,
        Expr::Name { span, .. } => *span,
        Expr::Binary { span, .. } => *span,
        Expr::Unary { span, .. } => *span,
        Expr::Call { span, .. } => *span,
        Expr::Field { span, .. } => *span,
        Expr::Member { span, .. } => *span,
        Expr::Cast { span, .. } => *span,
        Expr::Autocast { span, .. } => *span,
        Expr::Index { span, .. } => *span,
        Expr::Slice { span, .. } => *span,
        Expr::Deref(_, span) => *span,
        Expr::Run(_, span) => *span,
        Expr::SystemLibrary(_, span) => *span,
        Expr::Error(span) => *span,
    }
}

/// In a well-formed file every expression's children precede it in its arena.
pub proof fn lemma_expr_children_below(hir: &FileHir, scope: ExprScope, id: ExprId)
    requires
        hir.wf(),
        spec_expr_at(hir, scope, id) is Some,
    ensures
        expr_children_below(spec_expr_at(hir, scope, id)->0, id as int),
{
    match scope {
        ExprScope::TopLevel => {
            assert(expr_children_below(hir.exprs@[id as int], id as int));
        },
        ExprScope::Body(b) => {
            assert(hir.bodies@[b as int].wf());
            assert(expr_children_below(hir.bodies@[b as int].exprs@[id as int], id as int));
        },
    }
}

/// In a well-formed file every type reference's children precede it in its arena.
pub proof fn lemma_type_ref_children_below(hir: &FileHir, scope: ExprScope, id: TypeRefId)
    requires
        hir.wf(),
        spec_type_ref_at(hir, scope, id) is Some,
    ensures
        type_ref_children_below(spec_type_ref_at(hir, scope, id)->0, id as int),
{
    match scope {
        ExprScope::TopLevel => {
            assert(type_ref_children_below(hir.type_refs@[id as int], id as int));
        },
        ExprScope::Body(b) => {
            assert(hir.bodies@[b as int].wf());
            assert(type_ref_children_below(hir.bodies@[b as int].type_refs@[id as int], id as int));
        },
    }
}

/// The type the first entry for `proc` and `var` binds, if there is one.
pub open spec fn spec_proc_binding(bindings: Seq<(ProcId, Symbol, PoolId)>, proc: ProcId, var: Symbol) -> Option<PoolId>
    decreases bindings.len(),
{
    if bindings.len() == 0 {
        None
    } else if bindings[0].0 == proc && bindings[0].1 == var {
        Some(bindings[0].2)
    } else {
        spec_proc_binding(bindings.drop_first(), proc, var)
    }
}

impl FileHir {
    /// Every type an instantiation binds a variable to is in a pool of `n` types.
    pub open spec fn bindings_fit(&self, n: nat) -> bool {
        forall|k: int| 0 <= k < self.proc_bindings@.len() ==> (#[trigger] self.proc_bindings@[k]).2 < n
    }
}

/// Whether any entry binds a variable of `proc`: whether `proc` is an instantiation.
pub open spec fn spec_is_instantiation(bindings: Seq<(ProcId, Symbol, PoolId)>, proc: ProcId) -> bool {
    exists|k: int| 0 <= k < bindings.len() && (#[trigger] bindings[k]).0 == proc
}

impl FileHir {
    /// The type the instantiation `proc` binds `var` to.
    pub fn proc_binding(&self, proc: ProcId, var: Symbol) -> (r: Option<PoolId>)
        ensures
            r == spec_proc_binding(self.proc_bindings@, proc, var),
            r matches Some(t) ==> exists|k: int| 0 <= k < self.proc_bindings@.len() && (#[trigger] self.proc_bindings@[k]).2 == t,
    {
        let n = self.proc_bindings.len();
        proof {
            assert(self.proc_bindings@.subrange(0, n as int) =~= self.proc_bindings@);
        }
        let mut i: usize = 0;
        while i < n
            invariant
                n == self.proc_bindings@.len(),
                i <= n,
                spec_proc_binding(self.proc_bindings@, proc, var) == spec_proc_binding(
                    self.proc_bindings@.subrange(i as int, n as int),
                    proc,
                    var,
                ),
            decreases n - i,
        {
            let entry = self.proc_bindings[i];
            proof {
                let rest = self.proc_bindings@.subrange(i as int, n as int);
                assert(rest.drop_first() =~= self.proc_bindings@.subrange(i + 1, n as int));
            }
            if entry.0 == proc && entry.1 == var {
                return Some(entry.2);
            }
            i = i + 1;
        }
        proof {
            assert(self.proc_bindings@.subrange(n as int, n as int).len() == 0);
        }
        None
    }

    /// Whether `proc` is an instantiation: whether an entry binds one of its variables.
    pub fn is_instantiation(&self, proc: ProcId) -> (r: bool)
        ensures
            r == spec_is_instantiation(self.proc_bindings@, proc),
    {
        let n = self.proc_bindings.len();
        let mut i: usize = 0;
        while i < n
            invariant
                n == self.proc_bindings@.len(),
                i <= n,
                forall|k: int| 0 <= k < i ==> self.proc_bindings@[k].0 != proc,
            decreases n - i,
        {
            if self.proc_bindings[i].0 == proc {
                return true;
            }
            i = i + 1;
        }
        false
    }
}

impl FileHir {
    /// The first item declaring `name`: the file's scope, which is what a type name
    /// resolves through before the imports are consulted.
    pub fn item_named(&self, name: Symbol) -> (r: Option<ItemId>)
        requires
            self.items@.len() < u32::MAX,
        ensures
            r matches Some(i) ==> i < self.items@.len() && self.items@[i as int].name == Some(name)
                && forall|j: int| 0 <= j < i ==> self.items@[j].name != Some(name),
            r is None ==> forall|j: int| 0 <= j < self.items@.len() ==> self.items@[j].name != Some(name),
    {
        let n = self.items.len();
        let mut i: usize = 0;
        while i < n
            invariant
                n == self.items@.len(),
                n < u32::MAX,
                i <= n,
                forall|j: int| 0 <= j < i ==> self.items@[j].name != Some(name),
            decreases n - i,
        {
            match self.items[i].name {
                Some(s) => {
                    if s == name {
                        return Some(i as u32);
                    }
                },
                None => {},
            }
            i = i + 1;
        }
        None
    }
}

} // verus!
