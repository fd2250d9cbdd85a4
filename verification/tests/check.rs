use jr_sema::check::{ArgSlot, check_file};
use jr_sema::map::expr_key_of;
use jr_sema::table::Slots;
use jr_sema::ctx::Code;
use jr_sema::hir::{
    AssignOp, BinOp, Body, EnumMember, Expr, ExprScope, FileHir, ForIterable, ForeignInfo, Interner, Item, ItemKind, Literal, Local, Param,
    Proc, Res, Span, Stmt, SwitchArm, TypeRef, UnOp,
};
use jr_sema::map::TypeMap;
use jr_sema::pool::{Pool, PoolId, TypeItem, BOOL, ERROR, FOREIGN_LIBRARY, PTR_U8, S64, STRING, TYPE, U8};
use jr_sema::signature::{ImportedFile, file_signatures};
use jr_sema::sigs::FileSignatures;

fn span(n: u32) -> Span {
    Span { file: 0, start: n, end: n + 1 }
}

/// A procedure body under construction: every node is appended after its children.
struct BodyBuilder {
    exprs: Vec<Expr>,
    stmts: Vec<Stmt>,
    locals: Vec<Local>,
    type_refs: Vec<TypeRef>,
}

impl BodyBuilder {
    fn new() -> Self {
        BodyBuilder { exprs: Vec::new(), stmts: Vec::new(), locals: Vec::new(), type_refs: Vec::new() }
    }
    fn expr(&mut self, e: Expr) -> u32 {
        self.exprs.push(e);
        (self.exprs.len() - 1) as u32
    }
    fn integer(&mut self, v: i128) -> u32 {
        let n = self.exprs.len() as u32;
        self.expr(Expr::Literal(Literal::Int(v), span(100 + n)))
    }
    fn string(&mut self, v: &str) -> u32 {
        let n = self.exprs.len() as u32;
        self.expr(Expr::Literal(Literal::Str(v.to_owned()), span(100 + n)))
    }
    fn name(&mut self, res: Res) -> u32 {
        let n = self.exprs.len() as u32;
        self.expr(Expr::Name { res, span: span(100 + n) })
    }
    fn binary(&mut self, op: BinOp, lhs: u32, rhs: u32) -> u32 {
        let n = self.exprs.len() as u32;
        self.expr(Expr::Binary { op, lhs, rhs, span: span(100 + n) })
    }
    fn call(&mut self, callee: u32, args: Vec<u32>) -> u32 {
        let n = self.exprs.len() as u32;
        let arg_names = vec![None; args.len()];
        self.expr(Expr::Call { callee, args, arg_names, span: span(100 + n) })
    }
    /// A call whose arguments are each written positionally (`None`) or by name.
    fn named_call(&mut self, callee: u32, written: Vec<(Option<u32>, u32)>) -> u32 {
        let n = self.exprs.len() as u32;
        let arg_names = written.iter().map(|(name, _)| *name).collect();
        let args = written.iter().map(|(_, arg)| *arg).collect();
        self.expr(Expr::Call { callee, args, arg_names, span: span(100 + n) })
    }
    fn boolean(&mut self, v: bool) -> u32 {
        let n = self.exprs.len() as u32;
        self.expr(Expr::Literal(Literal::Bool(v), span(100 + n)))
    }
    fn annotation(&mut self, sym: u32) -> u32 {
        self.type_refs.push(TypeRef::Name(sym, span(0)));
        (self.type_refs.len() - 1) as u32
    }
    fn local(&mut self, name: u32, ty: Option<u32>, init: Option<u32>) -> u32 {
        self.locals.push(Local { name, ty, init, span: span(200 + self.locals.len() as u32) });
        let local = (self.locals.len() - 1) as u32;
        self.stmt(Stmt::Local(local))
    }
    fn stmt(&mut self, s: Stmt) -> u32 {
        self.stmts.push(s);
        (self.stmts.len() - 1) as u32
    }
    /// Closes the body: a block holding every statement that is not already nested.
    fn finish(mut self, top: Vec<u32>) -> Body {
        let root = self.stmt(Stmt::Block(top));
        Body { exprs: self.exprs, stmts: self.stmts, locals: self.locals, type_refs: self.type_refs, root }
    }
}

/// A file under construction.
struct FileBuilder {
    interner: Interner,
    hir: FileHir,
}

impl FileBuilder {
    fn new() -> Self {
        FileBuilder {
            interner: Interner::new(),
            hir: FileHir { items: Vec::new(), procs: Vec::new(), bodies: Vec::new(), exprs: Vec::new(), type_refs: Vec::new(), proc_bindings: Vec::new() },
        }
    }
    fn sym(&mut self, name: &str) -> u32 {
        self.interner.intern(name)
    }
    fn item(&mut self, name: Option<&str>, kind: ItemKind) -> u32 {
        let name = name.map(|n| self.sym(n));
        let n = self.hir.items.len() as u32;
        self.hir.items.push(Item { name, kind, span: span(n) });
        n
    }
    fn top_expr(&mut self, e: Expr) -> u32 {
        self.hir.exprs.push(e);
        (self.hir.exprs.len() - 1) as u32
    }
    fn top_type(&mut self, name: &str) -> u32 {
        let sym = self.sym(name);
        self.hir.type_refs.push(TypeRef::Name(sym, span(0)));
        (self.hir.type_refs.len() - 1) as u32
    }
    fn top_pointer(&mut self, inner: u32) -> u32 {
        self.hir.type_refs.push(TypeRef::Pointer(inner));
        (self.hir.type_refs.len() - 1) as u32
    }
    fn constant(&mut self, name: &str, e: Expr) -> u32 {
        let value = self.top_expr(e);
        self.item(Some(name), ItemKind::Const { value })
    }
    /// A procedure; `params` are names and type names, `ret` a type name.
    fn procedure(&mut self, name: &str, params: &[(&str, &str)], ret: Option<&str>, body: Option<Body>) -> u32 {
        let mut ps = Vec::new();
        for (pname, pty) in params {
            let ty = self.top_type(pty);
            let name = self.sym(pname);
            ps.push(Param { name, ty: Some(ty), default: None, span: span(60) });
        }
        let ret = ret.map(|r| self.top_type(r));
        let body = body.map(|b| {
            self.hir.bodies.push(b);
            (self.hir.bodies.len() - 1) as u32
        });
        let name_sym = self.sym(name);
        self.hir.procs.push(Proc { name: name_sym, params: ps, ret, body, foreign: None, must: false, c_call: false, span: span(55) });
        let proc = (self.hir.procs.len() - 1) as u32;
        self.item(Some(name), ItemKind::Proc(proc))
    }
    /// A parameter with an optional annotation and an optional default expression.
    fn param(&mut self, name: &str, ty: Option<u32>, default: Option<Expr>) -> Param {
        let default = default.map(|e| self.top_expr(e));
        let name = self.sym(name);
        Param { name, ty, default, span: span(70 + name) }
    }
    /// A procedure with parameters built by `param`.
    fn procedure_with(&mut self, name: &str, params: Vec<Param>, ret: Option<&str>, body: Option<Body>, foreign: Option<ForeignInfo>) -> u32 {
        let ret = ret.map(|r| self.top_type(r));
        let body = body.map(|b| {
            self.hir.bodies.push(b);
            (self.hir.bodies.len() - 1) as u32
        });
        let name_sym = self.sym(name);
        self.hir.procs.push(Proc { name: name_sym, params, ret, body, foreign, must: false, c_call: false, span: span(55) });
        let proc = (self.hir.procs.len() - 1) as u32;
        self.item(Some(name), ItemKind::Proc(proc))
    }
    fn structure(&mut self, name: &str, fields: &[(&str, u32)]) -> u32 {
        let fields = fields.iter().map(|(f, t)| (self.interner.intern(f), *t)).collect();
        self.item(Some(name), ItemKind::Struct { fields })
    }
}

struct Analysis {
    signatures: FileSignatures,
    types: TypeMap,
    codes: Vec<Code>,
    filled: Slots<Vec<ArgSlot>>,
}

fn analyse(file: &FileBuilder, pool: &mut Pool) -> Analysis {
    let sig = file_signatures(&file.hir, 0, &[], pool, &file.interner);
    let checked = check_file(&file.hir, 0, &sig.signatures, &[], pool, &file.interner);
    let mut codes: Vec<Code> = sig.diagnostics.iter().map(|d| d.code).collect();
    codes.extend(checked.diagnostics.iter().map(|d| d.code));
    let mut types = sig.types;
    types.absorb(&checked.types);
    Analysis { signatures: sig.signatures, types, codes, filled: checked.filled_calls }
}

fn type_of(file: &FileBuilder, analysis: &Analysis, name: &str) -> Option<PoolId> {
    let sym = file.interner.get(name)?;
    analysis.signatures.lookup(sym).map(|entry| entry.ty)
}

#[test]
fn an_integer_literal_takes_its_type_from_its_context() {
    let mut f = FileBuilder::new();
    let g = f.sym("g");
    let u8_name = f.sym("u8");
    let mut b = BodyBuilder::new();
    let lit = b.integer(255);
    let ty = b.annotation(u8_name);
    let s = b.local(g, Some(ty), Some(lit));
    let body = b.finish(vec![s]);
    f.procedure("main", &[], None, Some(body));
    let mut pool = Pool::new();
    let analysis = analyse(&f, &mut pool);
    assert!(analysis.codes.is_empty());
    assert_eq!(analysis.types.local_type(0, 0), Some(U8));
}

#[test]
fn an_integer_literal_with_no_context_defaults_to_s64() {
    let mut f = FileBuilder::new();
    let count = f.sym("count");
    let mut b = BodyBuilder::new();
    let lit = b.integer(10);
    let s = b.local(count, None, Some(lit));
    let body = b.finish(vec![s]);
    f.procedure("main", &[], None, Some(body));
    let mut pool = Pool::new();
    let analysis = analyse(&f, &mut pool);
    assert!(analysis.codes.is_empty());
    assert_eq!(analysis.types.local_type(0, 0), Some(S64));
}

#[test]
fn a_literal_that_does_not_fit_its_contextual_type_is_e0204() {
    let mut f = FileBuilder::new();
    let g = f.sym("g");
    let u8_name = f.sym("u8");
    let mut b = BodyBuilder::new();
    let lit = b.integer(300);
    let ty = b.annotation(u8_name);
    let s = b.local(g, Some(ty), Some(lit));
    let body = b.finish(vec![s]);
    f.procedure("main", &[], None, Some(body));
    let mut pool = Pool::new();
    assert_eq!(analyse(&f, &mut pool).codes, vec![Code::E0204]);
}

#[test]
fn a_literal_too_large_for_s64_is_reported_by_sema_not_lowering() {
    let mut f = FileBuilder::new();
    f.constant("X", Expr::Literal(Literal::Int(9223372036854775808), span(1)));
    let mut pool = Pool::new();
    assert_eq!(analyse(&f, &mut pool).codes, vec![Code::E0204]);
}

#[test]
fn context_typing_reaches_through_arithmetic() {
    let mut f = FileBuilder::new();
    let g = f.sym("g");
    let u8_name = f.sym("u8");
    let mut b = BodyBuilder::new();
    let one = b.integer(1);
    let two = b.integer(2);
    let sum = b.binary(BinOp::Add, one, two);
    let ty = b.annotation(u8_name);
    let s = b.local(g, Some(ty), Some(sum));
    let body = b.finish(vec![s]);
    f.procedure("main", &[], None, Some(body));
    let mut pool = Pool::new();
    let analysis = analyse(&f, &mut pool);
    assert!(analysis.codes.is_empty());
    assert_eq!(analysis.types.expr_type(jr_sema::hir::ExprScope::Body(0), one), Some(U8));
}

#[test]
fn a_literal_compared_with_a_typed_value_adopts_its_type() {
    let mut f = FileBuilder::new();
    let g = f.sym("g");
    let same = f.sym("same");
    let also = f.sym("also");
    let u8_name = f.sym("u8");
    let mut b = BodyBuilder::new();
    let lit = b.integer(200);
    let ty = b.annotation(u8_name);
    let s0 = b.local(g, Some(ty), Some(lit));
    let g1 = b.name(Res::Local(0));
    let l1 = b.integer(200);
    let eq1 = b.binary(BinOp::Eq, g1, l1);
    let s1 = b.local(same, None, Some(eq1));
    let l2 = b.integer(200);
    let g2 = b.name(Res::Local(0));
    let eq2 = b.binary(BinOp::Eq, l2, g2);
    let s2 = b.local(also, None, Some(eq2));
    let body = b.finish(vec![s0, s1, s2]);
    f.procedure("main", &[], None, Some(body));
    let mut pool = Pool::new();
    let analysis = analyse(&f, &mut pool);
    assert!(analysis.codes.is_empty());
    assert_eq!(analysis.types.local_type(0, 1), Some(BOOL));
    assert_eq!(analysis.types.local_type(0, 2), Some(BOOL));
}

#[test]
fn binding_the_result_of_a_void_procedure_is_e0217() {
    let mut f = FileBuilder::new();
    let x = f.sym("x");
    f.procedure("nothing", &[], None, Some(BodyBuilder::new().finish(vec![])));
    let mut b = BodyBuilder::new();
    let callee = b.name(Res::Item(0));
    let call = b.call(callee, vec![]);
    let s = b.local(x, None, Some(call));
    let body = b.finish(vec![s]);
    f.procedure("main", &[], None, Some(body));
    let mut pool = Pool::new();
    assert_eq!(analyse(&f, &mut pool).codes, vec![Code::E0217]);
}

#[test]
fn calling_a_void_procedure_as_a_statement_is_fine() {
    let mut f = FileBuilder::new();
    f.procedure("nothing", &[], None, Some(BodyBuilder::new().finish(vec![])));
    let mut b = BodyBuilder::new();
    let callee = b.name(Res::Item(0));
    let call = b.call(callee, vec![]);
    let s = b.stmt(Stmt::Expr(call));
    let body = b.finish(vec![s]);
    f.procedure("main", &[], None, Some(body));
    let mut pool = Pool::new();
    assert!(analyse(&f, &mut pool).codes.is_empty());
}

#[test]
fn a_system_library_constant_has_the_foreign_library_type() {
    let mut f = FileBuilder::new();
    f.constant("libc", Expr::SystemLibrary(Some("c".to_owned()), span(1)));
    let mut pool = Pool::new();
    let analysis = analyse(&f, &mut pool);
    assert!(analysis.codes.is_empty());
    assert_eq!(type_of(&f, &analysis, "libc"), Some(FOREIGN_LIBRARY));
}

/// `libc :: #system_library "c";` (or `operand :: 1;`) and a `#foreign` procedure
/// naming `operand` as its library.
fn foreign_file(library: Expr, operand: &str) -> FileBuilder {
    let mut f = FileBuilder::new();
    f.constant(operand, library);
    let fd = f.top_type("s64");
    let fd_name = f.sym("fd");
    let ret = f.top_type("s64");
    let write = f.sym("write");
    let lib = f.sym(operand);
    f.hir.procs.push(Proc {
        name: write,
        params: vec![Param { name: fd_name, ty: Some(fd), default: None, span: span(60) }],
        ret: Some(ret),
        body: None,
        foreign: Some(ForeignInfo { library: Some(lib), span: span(50) }),
        must: false,
        c_call: false,
        span: span(55),
    });
    f.item(Some("write"), ItemKind::Proc(0));
    f
}

#[test]
fn a_foreign_binding_against_a_real_library_checks() {
    let f = foreign_file(Expr::SystemLibrary(Some("c".to_owned()), span(1)), "libc");
    let mut pool = Pool::new();
    assert!(analyse(&f, &mut pool).codes.is_empty());
}

#[test]
fn a_foreign_binding_against_something_else_is_e0225() {
    let f = foreign_file(Expr::Literal(Literal::Int(1), span(1)), "nope");
    let mut pool = Pool::new();
    assert_eq!(analyse(&f, &mut pool).codes, vec![Code::E0225]);
}

#[test]
fn a_foreign_procedures_library_is_resolved_and_interned() {
    let f = foreign_file(Expr::SystemLibrary(Some("c".to_owned()), span(1)), "libc");
    let mut pool = Pool::new();
    let analysis = analyse(&f, &mut pool);
    assert!(analysis.codes.is_empty());
    let library = analysis.signatures.foreign_library(0).expect("the library is recorded");
    assert_eq!(pool.foreign_library_name(library), Some("c"));
}

#[test]
fn a_foreign_library_that_is_not_a_system_library_records_nothing() {
    let f = foreign_file(Expr::Literal(Literal::Int(42), span(1)), "NOT_A_LIBRARY");
    let mut pool = Pool::new();
    let analysis = analyse(&f, &mut pool);
    assert_eq!(analysis.codes, vec![Code::E0225]);
    assert_eq!(analysis.signatures.foreign_library(0), None);
}

#[test]
fn a_procedure_that_is_not_foreign_records_no_library() {
    let mut f = FileBuilder::new();
    let mut b = BodyBuilder::new();
    let a = b.name(Res::Param(0));
    let r = b.stmt(Stmt::Return(Some(a), span(9)));
    let body = b.finish(vec![r]);
    f.procedure("add", &[("a", "s64")], Some("s64"), Some(body));
    let mut pool = Pool::new();
    let analysis = analyse(&f, &mut pool);
    assert!(analysis.codes.is_empty());
    assert_eq!(analysis.signatures.foreign_library(0), None);
}

#[test]
fn run_has_the_type_of_its_expression() {
    let mut f = FileBuilder::new();
    // COMPUTED :: #run add(2, 3);
    let callee = f.top_expr(Expr::Name { res: Res::Item(1), span: span(1) });
    let two = f.top_expr(Expr::Literal(Literal::Int(2), span(2)));
    let three = f.top_expr(Expr::Literal(Literal::Int(3), span(3)));
    let call = f.top_expr(Expr::Call { callee, args: vec![two, three], arg_names: vec![None, None], span: span(4) });
    let run = f.top_expr(Expr::Run(call, span(5)));
    f.item(Some("COMPUTED"), ItemKind::Const { value: run });
    let mut b = BodyBuilder::new();
    let a = b.name(Res::Param(0));
    let c = b.name(Res::Param(1));
    let sum = b.binary(BinOp::Add, a, c);
    let r = b.stmt(Stmt::Return(Some(sum), span(9)));
    let body = b.finish(vec![r]);
    f.procedure("add", &[("a", "s64"), ("b", "s64")], Some("s64"), Some(body));
    let mut pool = Pool::new();
    let analysis = analyse(&f, &mut pool);
    assert!(analysis.codes.is_empty());
    assert_eq!(type_of(&f, &analysis, "COMPUTED"), Some(S64));
}

#[test]
fn a_struct_may_hold_a_pointer_to_itself() {
    let mut f = FileBuilder::new();
    let node = f.top_type("Node");
    let ptr = f.top_pointer(node);
    f.structure("Node", &[("next", ptr)]);
    let mut pool = Pool::new();
    assert!(analyse(&f, &mut pool).codes.is_empty());
}

#[test]
fn two_structs_may_point_at_each_other() {
    let mut f = FileBuilder::new();
    let right = f.top_type("Right");
    let to_right = f.top_pointer(right);
    f.structure("Left", &[("other", to_right)]);
    let left = f.top_type("Left");
    let to_left = f.top_pointer(left);
    f.structure("Right", &[("other", to_left)]);
    let mut pool = Pool::new();
    assert!(analyse(&f, &mut pool).codes.is_empty());
}

#[test]
fn two_structs_with_identical_fields_are_different_types() {
    let mut f = FileBuilder::new();
    let s64a = f.top_type("s64");
    f.structure("A", &[("x", s64a)]);
    let s64b = f.top_type("s64");
    f.structure("B", &[("x", s64b)]);
    let a = f.sym("a");
    let b_name = f.sym("b");
    let a_ty = f.sym("A");
    let b_ty = f.sym("B");
    let mut b = BodyBuilder::new();
    let ta = b.annotation(a_ty);
    let s0 = b.local(a, Some(ta), None);
    let tb = b.annotation(b_ty);
    let s1 = b.local(b_name, Some(tb), None);
    let lhs = b.name(Res::Local(1));
    let rhs = b.name(Res::Local(0));
    let s2 = b.stmt(Stmt::Assign { lhs, op: AssignOp::Assign, rhs, span: span(10) });
    let body = b.finish(vec![s0, s1, s2]);
    f.procedure("main", &[], None, Some(body));
    let mut pool = Pool::new();
    assert_eq!(analyse(&f, &mut pool).codes, vec![Code::E0214]);
}

#[test]
fn field_access_through_a_pointer_is_assignable() {
    let mut f = FileBuilder::new();
    let s64t = f.top_type("s64");
    f.structure("Point", &[("x", s64t)]);
    let origin = f.sym("origin");
    let pp = f.sym("pp");
    let point = f.sym("Point");
    let x = f.sym("x");
    let mut b = BodyBuilder::new();
    let tp = b.annotation(point);
    let s0 = b.local(origin, Some(tp), None);
    let o = b.name(Res::Local(0));
    let addr = b.expr(Expr::Unary { op: UnOp::AddrOf, operand: o, span: span(20) });
    let s1 = b.local(pp, None, Some(addr));
    let p = b.name(Res::Local(1));
    let field = b.expr(Expr::Field { receiver: p, name: x, span: span(21) });
    let one = b.integer(1);
    let s2 = b.stmt(Stmt::Assign { lhs: field, op: AssignOp::Assign, rhs: one, span: span(22) });
    let body = b.finish(vec![s0, s1, s2]);
    f.procedure("main", &[], None, Some(body));
    let mut pool = Pool::new();
    assert!(analyse(&f, &mut pool).codes.is_empty());
}

#[test]
fn a_dereference_is_assignable() {
    let mut f = FileBuilder::new();
    let n = f.sym("n");
    let p = f.sym("p");
    let mut b = BodyBuilder::new();
    let one = b.integer(1);
    let s0 = b.local(n, None, Some(one));
    let nn = b.name(Res::Local(0));
    let addr = b.expr(Expr::Unary { op: UnOp::AddrOf, operand: nn, span: span(20) });
    let s1 = b.local(p, None, Some(addr));
    let pn = b.name(Res::Local(1));
    let deref = b.expr(Expr::Deref(pn, span(21)));
    let two = b.integer(2);
    let s2 = b.stmt(Stmt::Assign { lhs: deref, op: AssignOp::Assign, rhs: two, span: span(22) });
    let body = b.finish(vec![s0, s1, s2]);
    f.procedure("main", &[], None, Some(body));
    let mut pool = Pool::new();
    assert!(analyse(&f, &mut pool).codes.is_empty());
}

#[test]
fn a_string_exposes_data_and_count() {
    let mut f = FileBuilder::new();
    let s = f.sym("s");
    let n = f.sym("n");
    let d = f.sym("d");
    let count = f.sym("count");
    let data = f.sym("data");
    let mut b = BodyBuilder::new();
    let text = b.string("text");
    let s0 = b.local(s, None, Some(text));
    let r1 = b.name(Res::Local(0));
    let c = b.expr(Expr::Field { receiver: r1, name: count, span: span(20) });
    let s1 = b.local(n, None, Some(c));
    let r2 = b.name(Res::Local(0));
    let dd = b.expr(Expr::Field { receiver: r2, name: data, span: span(21) });
    let s2 = b.local(d, None, Some(dd));
    let body = b.finish(vec![s0, s1, s2]);
    f.procedure("main", &[], None, Some(body));
    let mut pool = Pool::new();
    let analysis = analyse(&f, &mut pool);
    assert!(analysis.codes.is_empty());
    assert_eq!(analysis.types.local_type(0, 1), Some(S64));
    assert_eq!(analysis.types.local_type(0, 2), Some(PTR_U8));
}

#[test]
fn a_parse_error_does_not_become_a_type_error() {
    let mut f = FileBuilder::new();
    let a = f.sym("a");
    let b_name = f.sym("b");
    let mut b = BodyBuilder::new();
    let broken = b.expr(Expr::Error(span(30)));
    let s0 = b.local(a, None, Some(broken));
    let two = b.integer(2);
    let s1 = b.local(b_name, None, Some(two));
    let s2 = b.stmt(Stmt::Error);
    let body = b.finish(vec![s0, s1, s2]);
    f.procedure("main", &[], None, Some(body));
    let mut pool = Pool::new();
    assert!(analyse(&f, &mut pool).codes.is_empty());
}

#[test]
fn an_unresolved_name_does_not_become_a_type_error() {
    let mut f = FileBuilder::new();
    let x = f.sym("x");
    let mut b = BodyBuilder::new();
    let missing = b.name(Res::Error);
    let s0 = b.local(x, None, Some(missing));
    let body = b.finish(vec![s0]);
    f.procedure("main", &[], None, Some(body));
    let mut pool = Pool::new();
    assert!(analyse(&f, &mut pool).codes.is_empty());
}

#[test]
fn an_unknown_type_poisons_rather_than_cascades() {
    let mut f = FileBuilder::new();
    let n = f.sym("n");
    let m = f.sym("m");
    let nonesuch = f.sym("nonesuch");
    let mut b = BodyBuilder::new();
    let one = b.integer(1);
    let two = b.integer(2);
    let sum = b.binary(BinOp::Add, one, two);
    let ty = b.annotation(nonesuch);
    let s0 = b.local(n, Some(ty), Some(sum));
    let nn = b.name(Res::Local(0));
    let one2 = b.integer(1);
    let sum2 = b.binary(BinOp::Add, nn, one2);
    let s1 = b.local(m, None, Some(sum2));
    let body = b.finish(vec![s0, s1]);
    f.procedure("main", &[], None, Some(body));
    let mut pool = Pool::new();
    assert_eq!(analyse(&f, &mut pool).codes, vec![Code::E0212]);
}

#[test]
fn expression_ids_from_different_arenas_get_different_types() {
    let mut f = FileBuilder::new();
    f.constant("FLAG", Expr::Literal(Literal::Bool(true), span(1)));
    let n = f.sym("n");
    let mut b = BodyBuilder::new();
    let one = b.integer(1);
    let s0 = b.local(n, None, Some(one));
    let body = b.finish(vec![s0]);
    f.procedure("main", &[], None, Some(body));
    let mut pool = Pool::new();
    let analysis = analyse(&f, &mut pool);
    assert!(analysis.codes.is_empty());
    assert_eq!(analysis.types.expr_type(jr_sema::hir::ExprScope::TopLevel, 0), Some(BOOL));
    assert_eq!(analysis.types.expr_type(jr_sema::hir::ExprScope::Body(0), 0), Some(S64));
}

#[test]
fn a_constant_may_refer_to_one_declared_later() {
    let mut f = FileBuilder::new();
    f.constant("LIMIT", Expr::Name { res: Res::Item(1), span: span(1) });
    f.constant("MAX", Expr::Literal(Literal::Int(4096), span(2)));
    let mut pool = Pool::new();
    let analysis = analyse(&f, &mut pool);
    assert!(analysis.codes.is_empty());
    assert_eq!(type_of(&f, &analysis, "LIMIT"), Some(S64));
}

#[test]
fn a_constant_cycle_is_reported_once() {
    let mut f = FileBuilder::new();
    f.constant("FIRST", Expr::Name { res: Res::Item(1), span: span(1) });
    f.constant("SECOND", Expr::Name { res: Res::Item(0), span: span(2) });
    let mut pool = Pool::new();
    assert_eq!(analyse(&f, &mut pool).codes, vec![Code::E0226]);
}

#[test]
fn a_call_checks_its_arguments_against_the_parameters() {
    let mut f = FileBuilder::new();
    f.procedure("takes_bool", &[("flag", "bool")], None, Some(BodyBuilder::new().finish(vec![])));
    let mut b = BodyBuilder::new();
    let callee = b.name(Res::Item(0));
    let one = b.integer(1);
    let call = b.call(callee, vec![one]);
    let s = b.stmt(Stmt::Expr(call));
    let body = b.finish(vec![s]);
    f.procedure("main", &[], None, Some(body));
    let mut pool = Pool::new();
    assert_eq!(analyse(&f, &mut pool).codes, vec![Code::E0214]);
}

#[test]
fn a_call_with_the_wrong_arity_is_e0216() {
    let mut f = FileBuilder::new();
    let mut b = BodyBuilder::new();
    let a = b.name(Res::Param(0));
    let r = b.stmt(Stmt::Return(Some(a), span(9)));
    let body = b.finish(vec![r]);
    f.procedure("one", &[("a", "s64")], Some("s64"), Some(body));
    let x = f.sym("x");
    let mut b = BodyBuilder::new();
    let callee = b.name(Res::Item(0));
    let call = b.call(callee, vec![]);
    let s = b.local(x, None, Some(call));
    let body = b.finish(vec![s]);
    f.procedure("main", &[], None, Some(body));
    let mut pool = Pool::new();
    assert_eq!(analyse(&f, &mut pool).codes, vec![Code::E0216]);
}

#[test]
fn a_return_type_mismatch_is_reported_against_the_signature() {
    let mut f = FileBuilder::new();
    let mut b = BodyBuilder::new();
    let one = b.integer(1);
    let r = b.stmt(Stmt::Return(Some(one), span(9)));
    let body = b.finish(vec![r]);
    f.procedure("flag", &[], Some("bool"), Some(body));
    let mut pool = Pool::new();
    assert_eq!(analyse(&f, &mut pool).codes, vec![Code::E0214]);
}

/// `Point :: struct { x: s64; }` followed by a `main` whose body is built by `fill`.
fn point_file(fill: impl FnOnce(&mut FileBuilder, &mut BodyBuilder) -> Vec<u32>) -> FileBuilder {
    let mut f = FileBuilder::new();
    let s64t = f.top_type("s64");
    f.structure("Point", &[("x", s64t)]);
    let mut b = BodyBuilder::new();
    let top = fill(&mut f, &mut b);
    let body = b.finish(top);
    f.procedure("main", &[], None, Some(body));
    f
}

#[test]
fn a_type_bound_to_a_local_is_refused() {
    let f = point_file(|f, b| {
        let t = f.sym("t");
        let point = b.name(Res::Item(0));
        vec![b.local(t, None, Some(point))]
    });
    let mut pool = Pool::new();
    assert_eq!(analyse(&f, &mut pool).codes, vec![Code::E0261]);
}

#[test]
fn a_type_named_as_a_bare_statement_is_refused() {
    let f = point_file(|_, b| {
        let point = b.name(Res::Item(0));
        vec![b.stmt(Stmt::Expr(point))]
    });
    let mut pool = Pool::new();
    assert_eq!(analyse(&f, &mut pool).codes, vec![Code::E0261]);
}

#[test]
fn a_poisoned_context_suppresses_the_type_refusal() {
    let f = point_file(|f, b| {
        let n = f.sym("n");
        let nosuchtype = f.sym("nosuchtype");
        let point = b.name(Res::Item(0));
        let ty = b.annotation(nosuchtype);
        vec![b.local(n, Some(ty), Some(point))]
    });
    let mut pool = Pool::new();
    assert_eq!(analyse(&f, &mut pool).codes, vec![Code::E0212]);
}

#[test]
fn a_field_access_receiver_may_name_a_type() {
    let mut f = FileBuilder::new();
    let red = f.sym("RED");
    let green = f.sym("GREEN");
    let members = vec![
        EnumMember { name: red, value: None, span: span(2) },
        EnumMember { name: green, value: None, span: span(3) },
    ];
    f.item(Some("Colour"), ItemKind::Enum { flags: false, members });
    let c = f.sym("c");
    let mut b = BodyBuilder::new();
    let colour = b.name(Res::Item(0));
    let member = b.expr(Expr::Field { receiver: colour, name: red, span: span(20) });
    let s = b.local(c, None, Some(member));
    let body = b.finish(vec![s]);
    f.procedure("main", &[], None, Some(body));
    let mut pool = Pool::new();
    let analysis = analyse(&f, &mut pool);
    assert!(analysis.codes.is_empty());
    let colour_ty = analysis.signatures.lookup(f.interner.get("Colour").unwrap()).unwrap().type_value;
    assert_eq!(analysis.types.local_type(0, 0), colour_ty);
}

#[test]
fn a_type_valued_constant_denotes_the_type_it_aliases() {
    let mut f = FileBuilder::new();
    let s64t = f.top_type("s64");
    f.structure("Point", &[("x", s64t)]);
    f.constant("Pair", Expr::Name { res: Res::Item(0), span: span(1) });
    let mut pool = Pool::new();
    let analysis = analyse(&f, &mut pool);
    assert!(analysis.codes.is_empty());
    let point = f.interner.get("Point").unwrap();
    let pair = f.interner.get("Pair").unwrap();
    let denoted = analysis.signatures.lookup(pair).unwrap().type_value;
    let aliased = analysis.signatures.lookup(point).unwrap().type_value;
    assert!(aliased.is_some());
    assert_eq!(denoted, aliased);
}

#[test]
fn an_alias_of_an_alias_is_not_followed() {
    let mut f = FileBuilder::new();
    let s64t = f.top_type("s64");
    f.structure("Point", &[("x", s64t)]);
    f.constant("First", Expr::Name { res: Res::Item(0), span: span(1) });
    f.constant("Second", Expr::Name { res: Res::Item(1), span: span(2) });
    let mut pool = Pool::new();
    let analysis = analyse(&f, &mut pool);
    assert!(analysis.codes.is_empty());
    let second = f.interner.get("Second").unwrap();
    assert_eq!(analysis.signatures.lookup(second).unwrap().type_value, None);
    assert_eq!(analysis.signatures.lookup(second).unwrap().ty, TYPE);
}

#[test]
fn an_unknown_field_is_e0218() {
    let f = point_file(|f, b| {
        let p = f.sym("p");
        let point = f.sym("Point");
        let y = f.sym("y");
        let t = b.annotation(point);
        let s0 = b.local(p, Some(t), None);
        let recv = b.name(Res::Local(0));
        let field = b.expr(Expr::Field { receiver: recv, name: y, span: span(40) });
        let s1 = b.stmt(Stmt::Expr(field));
        vec![s0, s1]
    });
    let mut pool = Pool::new();
    assert_eq!(analyse(&f, &mut pool).codes, vec![Code::E0218]);
}

#[test]
fn a_non_bool_condition_is_e0222() {
    let mut f = FileBuilder::new();
    let mut b = BodyBuilder::new();
    let one = b.integer(1);
    let then = b.stmt(Stmt::Block(vec![]));
    let s = b.stmt(Stmt::If { cond: one, then, else_: None });
    let body = b.finish(vec![s]);
    f.procedure("main", &[], None, Some(body));
    let mut pool = Pool::new();
    assert_eq!(analyse(&f, &mut pool).codes, vec![Code::E0222]);
}

#[test]
fn assigning_to_a_constant_is_e0220() {
    let mut f = FileBuilder::new();
    f.constant("LIMIT", Expr::Literal(Literal::Int(4), span(1)));
    let mut b = BodyBuilder::new();
    let lhs = b.name(Res::Item(0));
    let rhs = b.integer(5);
    let s = b.stmt(Stmt::Assign { lhs, op: AssignOp::Assign, rhs, span: span(10) });
    let body = b.finish(vec![s]);
    f.procedure("main", &[], None, Some(body));
    let mut pool = Pool::new();
    assert_eq!(analyse(&f, &mut pool).codes, vec![Code::E0220]);
}

#[test]
fn a_value_returned_from_a_void_procedure_is_e0224() {
    let mut f = FileBuilder::new();
    let mut b = BodyBuilder::new();
    let one = b.integer(1);
    let r = b.stmt(Stmt::Return(Some(one), span(9)));
    let body = b.finish(vec![r]);
    f.procedure("main", &[], None, Some(body));
    let mut pool = Pool::new();
    assert_eq!(analyse(&f, &mut pool).codes, vec![Code::E0224]);
}

#[test]
fn dereferencing_a_non_pointer_is_e0219() {
    let mut f = FileBuilder::new();
    let n = f.sym("n");
    let mut b = BodyBuilder::new();
    let one = b.integer(1);
    let s0 = b.local(n, None, Some(one));
    let nn = b.name(Res::Local(0));
    let deref = b.expr(Expr::Deref(nn, span(21)));
    let s1 = b.stmt(Stmt::Expr(deref));
    let body = b.finish(vec![s0, s1]);
    f.procedure("main", &[], None, Some(body));
    let mut pool = Pool::new();
    assert_eq!(analyse(&f, &mut pool).codes, vec![Code::E0219]);
}

#[test]
fn equality_on_strings_is_e0278() {
    let mut f = FileBuilder::new();
    let same = f.sym("same");
    let mut b = BodyBuilder::new();
    let a = b.string("a");
    let x = b.string("x");
    let eq = b.binary(BinOp::Eq, a, x);
    let s = b.local(same, None, Some(eq));
    let body = b.finish(vec![s]);
    f.procedure("main", &[], None, Some(body));
    let mut pool = Pool::new();
    let analysis = analyse(&f, &mut pool);
    assert_eq!(analysis.codes, vec![Code::E0278]);
    assert_eq!(analysis.types.local_type(0, 0), Some(BOOL));
}

#[test]
fn a_self_dependent_name_is_error_typed() {
    let mut f = FileBuilder::new();
    f.constant("SELF", Expr::Name { res: Res::Item(0), span: span(1) });
    let mut pool = Pool::new();
    let analysis = analyse(&f, &mut pool);
    assert_eq!(analysis.codes, vec![Code::E0226]);
    assert_eq!(type_of(&f, &analysis, "SELF"), Some(ERROR));
}

/// `main :: () { n := 1; switch n { … } }` with the given arms: `Some(v)` is `case v;`,
/// `None` is `else;`.
fn integer_switch(cases: &[Option<i128>]) -> FileBuilder {
    let mut f = FileBuilder::new();
    let n = f.sym("n");
    let mut b = BodyBuilder::new();
    let one = b.integer(1);
    let s0 = b.local(n, None, Some(one));
    let scrutinee = b.name(Res::Local(0));
    let mut arms = Vec::new();
    for (k, case) in cases.iter().enumerate() {
        let value = case.map(|v| b.integer(v));
        let body = b.stmt(Stmt::Block(vec![]));
        arms.push(SwitchArm { value, body, span: span(300 + k as u32) });
    }
    let s1 = b.stmt(Stmt::Switch { value: scrutinee, arms, span: span(299) });
    let body = b.finish(vec![s0, s1]);
    f.procedure("main", &[], None, Some(body));
    f
}

#[test]
fn switch_integer_cases_compare_decoded_values() {
    // `case 1;` and `case 0x1;` lower to the same value.
    let f = integer_switch(&[Some(1), Some(1), None]);
    let mut pool = Pool::new();
    assert_eq!(analyse(&f, &mut pool).codes, vec![Code::E0259]);
}

#[test]
fn a_second_switch_else_remains_e0259() {
    let f = integer_switch(&[None, None]);
    let mut pool = Pool::new();
    assert_eq!(analyse(&f, &mut pool).codes, vec![Code::E0259]);
}

/// `Status :: enum { … }` with the given members and values, and
/// `pick :: (s: Status) { switch s { case .X; … } }` over the given cases.
fn status_switch(members: &[(&str, Option<i128>)], cases: &[Option<&str>]) -> (FileBuilder, Analysis) {
    let mut f = FileBuilder::new();
    let mut resolved = Vec::new();
    for (name, value) in members {
        let sym = f.sym(name);
        let value = value.map(|v| f.top_expr(Expr::Literal(Literal::Int(v), span(1))));
        resolved.push(EnumMember { name: sym, value, span: span(2) });
    }
    f.item(Some("Status"), ItemKind::Enum { flags: false, members: resolved });
    let mut b = BodyBuilder::new();
    let scrutinee = b.name(Res::Param(0));
    let mut arms = Vec::new();
    for (k, case) in cases.iter().enumerate() {
        let value = case.map(|member| {
            let sym = f.sym(member);
            b.expr(Expr::Member { name: sym, name_span: span(400 + k as u32), span: span(400 + k as u32) })
        });
        let body = b.stmt(Stmt::Block(vec![]));
        arms.push(SwitchArm { value, body, span: span(300 + k as u32) });
    }
    let s = b.stmt(Stmt::Switch { value: scrutinee, arms, span: span(299) });
    let body = b.finish(vec![s]);
    f.procedure("pick", &[("s", "Status")], None, Some(body));
    let mut pool = Pool::new();
    let analysis = analyse(&f, &mut pool);
    (f, analysis)
}

#[test]
fn one_enum_alias_covers_its_runtime_value_class() {
    let (_, analysis) = status_switch(
        &[("OK", Some(200)), ("ALSO_OK", Some(200)), ("MISSING", Some(404))],
        &[Some("OK"), Some("MISSING")],
    );
    assert!(analysis.codes.is_empty());
}

#[test]
fn two_enum_alias_cases_are_e0259() {
    let (_, analysis) = status_switch(&[("OK", Some(200)), ("ALSO_OK", Some(200))], &[Some("OK"), Some("ALSO_OK")]);
    assert_eq!(analysis.codes, vec![Code::E0259]);
}

#[test]
fn enum_alias_missing_note_names_only_uncovered_value_classes() {
    let mut f = FileBuilder::new();
    let mut resolved = Vec::new();
    for (name, value) in [("OK", 200), ("ALSO_OK", 200), ("MISSING", 404)] {
        let sym = f.sym(name);
        let value = f.top_expr(Expr::Literal(Literal::Int(value), span(1)));
        resolved.push(EnumMember { name: sym, value: Some(value), span: span(2) });
    }
    f.item(Some("Status"), ItemKind::Enum { flags: false, members: resolved });
    let also_ok = f.sym("ALSO_OK");
    let mut b = BodyBuilder::new();
    let scrutinee = b.name(Res::Param(0));
    let case = b.expr(Expr::Member { name: also_ok, name_span: span(400), span: span(400) });
    let arm_body = b.stmt(Stmt::Block(vec![]));
    let arms = vec![SwitchArm { value: Some(case), body: arm_body, span: span(300) }];
    let s = b.stmt(Stmt::Switch { value: scrutinee, arms, span: span(299) });
    let body = b.finish(vec![s]);
    f.procedure("pick", &[("s", "Status")], None, Some(body));
    let mut pool = Pool::new();
    let sig = file_signatures(&f.hir, 0, &[], &mut pool, &f.interner);
    let checked = check_file(&f.hir, 0, &sig.signatures, &[], &mut pool, &f.interner);
    let codes: Vec<Code> = sig.diagnostics.iter().chain(checked.diagnostics.iter()).map(|d| d.code).collect();
    assert_eq!(codes, vec![Code::E0258]);
    let diagnostic = checked.diagnostics.iter().find(|d| d.code == Code::E0258).expect("the missing-value diagnostic");
    assert!(diagnostic.notes.iter().any(|note| note == "missing: `MISSING`"));
}

#[test]
fn an_else_after_every_member_is_e0260() {
    let (_, analysis) = status_switch(&[("OK", None), ("MISSING", None)], &[Some("OK"), Some("MISSING"), None]);
    assert_eq!(analysis.codes, vec![Code::E0260]);
}

#[test]
fn enum_members_number_from_zero_and_flags_from_one() {
    let mut f = FileBuilder::new();
    let mut plain = Vec::new();
    for name in ["A", "B"] {
        let sym = f.sym(name);
        plain.push(EnumMember { name: sym, value: None, span: span(2) });
    }
    let three = f.top_expr(Expr::Literal(Literal::Int(3), span(1)));
    let mut flags = Vec::new();
    for (name, value) in [("READ", None), ("WRITE", None), ("BOTH", Some(three)), ("EXEC", None)] {
        let sym = f.sym(name);
        flags.push(EnumMember { name: sym, value, span: span(2) });
    }
    f.item(Some("Plain"), ItemKind::Enum { flags: false, members: plain });
    f.item(Some("Perm"), ItemKind::Enum { flags: true, members: flags });
    let mut pool = Pool::new();
    let analysis = analyse(&f, &mut pool);
    assert!(analysis.codes.is_empty());
    let plain_decl = jr_sema::pool::DeclId { file: 0, index: 0 };
    let perm_decl = jr_sema::pool::DeclId { file: 0, index: 1 };
    assert_eq!(pool.member_value(plain_decl, f.interner.get("A").unwrap()), Some(0));
    assert_eq!(pool.member_value(plain_decl, f.interner.get("B").unwrap()), Some(1));
    assert_eq!(pool.member_value(perm_decl, f.interner.get("READ").unwrap()), Some(1));
    assert_eq!(pool.member_value(perm_decl, f.interner.get("WRITE").unwrap()), Some(2));
    assert_eq!(pool.member_value(perm_decl, f.interner.get("BOTH").unwrap()), Some(3));
    assert_eq!(pool.member_value(perm_decl, f.interner.get("EXEC").unwrap()), Some(4));
}

#[test]
fn an_enum_member_value_that_is_not_a_constant_is_e0237() {
    let mut f = FileBuilder::new();
    let one = f.top_expr(Expr::Literal(Literal::Int(1), span(1)));
    let sum = f.top_expr(Expr::Binary { op: BinOp::Add, lhs: one, rhs: one, span: span(2) });
    let name = f.sym("TWO");
    f.item(Some("E"), ItemKind::Enum { flags: false, members: vec![EnumMember { name, value: Some(sum), span: span(3) }] });
    let mut pool = Pool::new();
    assert_eq!(analyse(&f, &mut pool).codes, vec![Code::E0237]);
}

#[test]
fn an_unknown_enum_member_is_e0238() {
    let (_, analysis) = status_switch(&[("OK", None)], &[Some("KO"), None]);
    assert_eq!(analysis.codes, vec![Code::E0238]);
}

fn int_literal(v: i128) -> Expr {
    Expr::Literal(Literal::Int(v), span(90))
}

/// `take :: (count: s64, flag: bool) {}`, then `main`'s body; `take` is item 0 and its
/// body is body 0, so `main`'s is body 1.
fn take_count_and_flag(f: &mut FileBuilder) {
    let s64 = f.top_type("s64");
    let bool_ty = f.top_type("bool");
    let count = f.param("count", Some(s64), None);
    let flag = f.param("flag", Some(bool_ty), None);
    f.procedure_with("take", vec![count, flag], None, Some(BodyBuilder::new().finish(vec![])), None);
}

/// `take :: (count: s64, scale: s64 = 2) {}`.
fn take_count_and_scale(f: &mut FileBuilder) {
    let s64 = f.top_type("s64");
    let count = f.param("count", Some(s64), None);
    let scale = f.param("scale", Some(s64), Some(int_literal(2)));
    f.procedure_with("take", vec![count, scale], None, Some(BodyBuilder::new().finish(vec![])), None);
}

#[test]
fn named_arguments_are_placed_by_parameter_name() {
    let mut f = FileBuilder::new();
    take_count_and_flag(&mut f);
    let count = f.sym("count");
    let flag = f.sym("flag");
    let mut b = BodyBuilder::new();
    let callee = b.name(Res::Item(0));
    let yes = b.boolean(true);
    let one = b.integer(1);
    let call = b.named_call(callee, vec![(Some(flag), yes), (Some(count), one)]);
    let st = b.stmt(Stmt::Expr(call));
    f.procedure("main", &[], None, Some(b.finish(vec![st])));
    let mut pool = Pool::new();
    let analysis = analyse(&f, &mut pool);
    assert!(analysis.codes.is_empty());
    let slots = analysis.filled.get(expr_key_of(ExprScope::Body(1), call)).unwrap();
    assert_eq!(slots, &vec![ArgSlot::Given(one), ArgSlot::Given(yes)]);
    assert_eq!(analysis.types.expr_type(ExprScope::Body(1), one), Some(S64));
}

#[test]
fn a_positional_call_with_no_defaults_records_no_slots() {
    let mut f = FileBuilder::new();
    take_count_and_flag(&mut f);
    let mut b = BodyBuilder::new();
    let callee = b.name(Res::Item(0));
    let one = b.integer(1);
    let yes = b.boolean(true);
    let call = b.call(callee, vec![one, yes]);
    let st = b.stmt(Stmt::Expr(call));
    f.procedure("main", &[], None, Some(b.finish(vec![st])));
    let mut pool = Pool::new();
    let analysis = analyse(&f, &mut pool);
    assert!(analysis.codes.is_empty());
    assert!(analysis.filled.get(expr_key_of(ExprScope::Body(1), call)).is_none());
}

#[test]
fn a_left_out_parameter_takes_its_default() {
    let mut f = FileBuilder::new();
    take_count_and_scale(&mut f);
    let mut b = BodyBuilder::new();
    let callee = b.name(Res::Item(0));
    let five = b.integer(5);
    let call = b.call(callee, vec![five]);
    let st = b.stmt(Stmt::Expr(call));
    f.procedure("main", &[], None, Some(b.finish(vec![st])));
    let mut pool = Pool::new();
    let analysis = analyse(&f, &mut pool);
    assert!(analysis.codes.is_empty());
    let slots = analysis.filled.get(expr_key_of(ExprScope::Body(1), call)).unwrap();
    assert_eq!(slots.len(), 2);
    assert_eq!(slots[0], ArgSlot::Given(five));
    match slots[1] {
        ArgSlot::Default(value) => {
            assert!(matches!(pool.item(value), TypeItem::IntValue { ty, value: 2 } if *ty == S64));
        },
        ArgSlot::Given(_) => panic!("the left-out parameter must take its default"),
    }
}

#[test]
fn a_named_argument_overrides_a_default() {
    let mut f = FileBuilder::new();
    take_count_and_scale(&mut f);
    let scale = f.sym("scale");
    let count = f.sym("count");
    let mut b = BodyBuilder::new();
    let callee = b.name(Res::Item(0));
    let seven = b.integer(7);
    let five = b.integer(5);
    let call = b.named_call(callee, vec![(Some(scale), seven), (Some(count), five)]);
    let st = b.stmt(Stmt::Expr(call));
    f.procedure("main", &[], None, Some(b.finish(vec![st])));
    let mut pool = Pool::new();
    let analysis = analyse(&f, &mut pool);
    assert!(analysis.codes.is_empty());
    let slots = analysis.filled.get(expr_key_of(ExprScope::Body(1), call)).unwrap();
    assert_eq!(slots, &vec![ArgSlot::Given(five), ArgSlot::Given(seven)]);
}

/// `main :: () { x := take(<written>); }` after `take`, returning the codes and the
/// type of `x`.
fn call_take(f: &mut FileBuilder, written: Vec<(Option<&str>, Expr)>) -> (Vec<Code>, Option<PoolId>) {
    let names: Vec<Option<u32>> = written.iter().map(|(n, _)| n.map(|n| f.sym(n))).collect();
    let x = f.sym("x");
    let mut b = BodyBuilder::new();
    let callee = b.name(Res::Item(0));
    let mut args = Vec::new();
    for ((_, e), name) in written.into_iter().zip(names) {
        let arg = b.expr(e);
        args.push((name, arg));
    }
    let call = b.named_call(callee, args);
    let st = b.local(x, None, Some(call));
    f.procedure("main", &[], None, Some(b.finish(vec![st])));
    let mut pool = Pool::new();
    let analysis = analyse(f, &mut pool);
    (analysis.codes, analysis.types.local_type(1, 0))
}

#[test]
fn an_unknown_parameter_name_is_e0252() {
    let mut f = FileBuilder::new();
    take_count_and_flag(&mut f);
    let (codes, ty) = call_take(&mut f, vec![(Some("cuont"), int_literal(1)), (Some("flag"), Expr::Literal(Literal::Bool(true), span(91)))]);
    assert_eq!(codes, vec![Code::E0252]);
    assert_eq!(ty, Some(ERROR));
}

#[test]
fn a_parameter_supplied_twice_is_e0252() {
    let mut f = FileBuilder::new();
    take_count_and_flag(&mut f);
    let (codes, _) = call_take(&mut f, vec![(None, int_literal(1)), (Some("count"), int_literal(2))]);
    assert_eq!(codes, vec![Code::E0252]);
}

#[test]
fn a_positional_argument_after_a_named_one_is_e0252() {
    let mut f = FileBuilder::new();
    take_count_and_flag(&mut f);
    let (codes, _) = call_take(&mut f, vec![(Some("flag"), Expr::Literal(Literal::Bool(true), span(91))), (None, int_literal(1))]);
    assert_eq!(codes, vec![Code::E0252]);
}

#[test]
fn too_many_positional_arguments_with_a_default_is_e0252() {
    let mut f = FileBuilder::new();
    take_count_and_scale(&mut f);
    let (codes, ty) = call_take(&mut f, vec![(None, int_literal(1)), (None, int_literal(2)), (None, int_literal(3))]);
    assert_eq!(codes, vec![Code::E0252]);
    assert_eq!(ty, Some(ERROR));
}

#[test]
fn a_parameter_with_neither_argument_nor_default_is_e0252() {
    let mut f = FileBuilder::new();
    take_count_and_scale(&mut f);
    let (codes, _) = call_take(&mut f, vec![(Some("scale"), int_literal(3))]);
    assert_eq!(codes, vec![Code::E0252]);
}

#[test]
fn an_argument_that_cannot_be_placed_is_still_checked() {
    let mut f = FileBuilder::new();
    take_count_and_flag(&mut f);
    let (codes, _) = call_take(&mut f, vec![(Some("nope"), Expr::Name { res: Res::Item(0), span: span(92) })]);
    assert_eq!(codes, vec![Code::E0252]);
}

/// `take :: (<param>) {}` alone, returning the codes and `take`'s signature.
fn declare_take(f: &mut FileBuilder, param: Param, foreign: Option<ForeignInfo>) -> (Vec<Code>, Vec<PoolId>, Vec<Option<PoolId>>, Pool) {
    let body = if foreign.is_none() { Some(BodyBuilder::new().finish(vec![])) } else { None };
    f.procedure_with("take", vec![param], None, body, foreign);
    let mut pool = Pool::new();
    let analysis = analyse(f, &mut pool);
    let proc = (f.hir.procs.len() - 1) as u32;
    let sig = analysis.signatures.proc_sig(proc).unwrap();
    (analysis.codes, sig.params.clone(), sig.defaults.clone(), pool)
}

#[test]
fn a_default_that_does_not_fit_its_parameter_is_e0204() {
    let mut f = FileBuilder::new();
    let u8_ty = f.top_type("u8");
    let p = f.param("small", Some(u8_ty), Some(int_literal(300)));
    let (codes, params, defaults, _) = declare_take(&mut f, p, None);
    assert_eq!(codes, vec![Code::E0204]);
    assert_eq!(params, vec![U8]);
    assert_eq!(defaults, vec![None]);
}

#[test]
fn a_default_of_the_wrong_kind_is_e0214() {
    let mut f = FileBuilder::new();
    let s64 = f.top_type("s64");
    let p = f.param("count", Some(s64), Some(Expr::Literal(Literal::Bool(true), span(91))));
    let (codes, _, defaults, _) = declare_take(&mut f, p, None);
    assert_eq!(codes, vec![Code::E0214]);
    assert_eq!(defaults, vec![None]);
}

#[test]
fn a_null_default_needs_a_pointer_parameter() {
    let mut f = FileBuilder::new();
    let s64 = f.top_type("s64");
    let p = f.param("count", Some(s64), Some(Expr::Literal(Literal::Null, span(91))));
    let (codes, _, _, _) = declare_take(&mut f, p, None);
    assert_eq!(codes, vec![Code::E0214]);

    let mut g = FileBuilder::new();
    let u8_ty = g.top_type("u8");
    let ptr = g.top_pointer(u8_ty);
    let p = g.param("data", Some(ptr), Some(Expr::Literal(Literal::Null, span(91))));
    let (codes, params, defaults, pool) = declare_take(&mut g, p, None);
    assert!(codes.is_empty());
    assert_eq!(params, vec![PTR_U8]);
    let value = defaults[0].unwrap();
    assert!(matches!(pool.item(value), TypeItem::IntValue { ty, value: 0 } if *ty == PTR_U8));
}

#[test]
fn a_string_default_is_interned_as_its_text() {
    let mut f = FileBuilder::new();
    let string = f.top_type("string");
    let p = f.param("label", Some(string), Some(Expr::Literal(Literal::Str("item".to_owned()), span(91))));
    let (codes, params, defaults, pool) = declare_take(&mut f, p, None);
    assert!(codes.is_empty());
    assert_eq!(params, vec![STRING]);
    assert!(matches!(pool.item(defaults[0].unwrap()), TypeItem::StrValue(text) if text == "item"));
}

#[test]
fn a_typed_foreign_parameter_cannot_have_a_default() {
    let mut f = FileBuilder::new();
    let s64 = f.top_type("s64");
    let p = f.param("fd", Some(s64), Some(int_literal(1)));
    let (codes, _, defaults, _) = declare_take(&mut f, p, Some(ForeignInfo { library: None, span: span(50) }));
    assert_eq!(codes, vec![Code::E0252]);
    assert_eq!(defaults, vec![None]);
}

#[test]
fn inferred_parameter_defaults_get_fixed_natural_types() {
    // inferred :: (whole := 9, flag := true, label := "x", negative := -9) -> s64 {
    //     return whole + negative;
    // }
    // main :: () {
    //     a := inferred();
    //     b := inferred(10, flag = false, label = "y", negative = -10);
    // }
    let mut f = FileBuilder::new();
    let whole = f.param("whole", None, Some(int_literal(9)));
    let flag = f.param("flag", None, Some(Expr::Literal(Literal::Bool(true), span(91))));
    let label = f.param("label", None, Some(Expr::Literal(Literal::Str("x".to_owned()), span(92))));
    let negative = f.param("negative", None, Some(int_literal(-9)));
    let mut body = BodyBuilder::new();
    let w = body.name(Res::Param(0));
    let n = body.name(Res::Param(3));
    let sum = body.binary(BinOp::Add, w, n);
    let ret = body.stmt(Stmt::Return(Some(sum), span(93)));
    f.procedure_with("inferred", vec![whole, flag, label, negative], Some("s64"), Some(body.finish(vec![ret])), None);
    let a = f.sym("a");
    let bname = f.sym("b");
    let flag_sym = f.sym("flag");
    let label_sym = f.sym("label");
    let negative_sym = f.sym("negative");
    let mut b = BodyBuilder::new();
    let c1 = b.name(Res::Item(0));
    let call1 = b.named_call(c1, vec![]);
    let s1 = b.local(a, None, Some(call1));
    let c2 = b.name(Res::Item(0));
    let ten = b.integer(10);
    let no = b.boolean(false);
    let y = b.string("y");
    let minus_ten = b.integer(-10);
    let call2 = b.named_call(c2, vec![(None, ten), (Some(flag_sym), no), (Some(label_sym), y), (Some(negative_sym), minus_ten)]);
    let s2 = b.local(bname, None, Some(call2));
    f.procedure("main", &[], None, Some(b.finish(vec![s1, s2])));
    let mut pool = Pool::new();
    let analysis = analyse(&f, &mut pool);
    assert!(analysis.codes.is_empty(), "{:?}", analysis.codes);
    let sig = analysis.signatures.proc_sig(0).unwrap();
    assert_eq!(sig.params, vec![S64, BOOL, STRING, S64]);
    assert!(sig.defaults.iter().all(Option::is_some));
    assert_eq!(analysis.types.local_type(1, 0), Some(S64));
    assert_eq!(analysis.types.local_type(1, 1), Some(S64));
}

#[test]
fn supplied_arguments_do_not_reinfer_an_inferred_parameter() {
    // take :: (amount := 9) {}
    // main :: () { take(true); }
    let mut f = FileBuilder::new();
    let amount = f.param("amount", None, Some(int_literal(9)));
    f.procedure_with("take", vec![amount], None, Some(BodyBuilder::new().finish(vec![])), None);
    let mut b = BodyBuilder::new();
    let callee = b.name(Res::Item(0));
    let yes = b.boolean(true);
    let call = b.call(callee, vec![yes]);
    let st = b.stmt(Stmt::Expr(call));
    f.procedure("main", &[], None, Some(b.finish(vec![st])));
    let mut pool = Pool::new();
    assert_eq!(analyse(&f, &mut pool).codes, vec![Code::E0214]);
}

#[test]
fn null_cannot_infer_a_parameter_type() {
    // take :: (pointer := null) {}
    let mut f = FileBuilder::new();
    let p = f.param("pointer", None, Some(Expr::Literal(Literal::Null, span(91))));
    let (codes, params, defaults, _) = declare_take(&mut f, p, None);
    assert_eq!(codes, vec![Code::E0257]);
    assert_eq!(params, vec![ERROR]);
    assert_eq!(defaults, vec![None]);
}

#[test]
fn inferred_parameter_defaults_are_still_literal_only() {
    // SIZE :: 9;
    // take :: (amount := SIZE) {}
    let mut f = FileBuilder::new();
    f.constant("SIZE", int_literal(9));
    let p = f.param("amount", None, Some(Expr::Name { res: Res::Item(0), span: span(91) }));
    let (codes, _, defaults, _) = declare_take(&mut f, p, None);
    assert_eq!(codes, vec![Code::E0252]);
    assert_eq!(defaults, vec![None]);
}

#[test]
fn inferred_defaults_remain_illegal_on_foreign_parameters() {
    // libc :: #system_library "c";
    // read :: (fd := 1, data: *u8, count: s64) -> s64 #foreign libc "read";
    let mut f = FileBuilder::new();
    f.constant("libc", Expr::SystemLibrary(Some("c".to_owned()), span(1)));
    let fd = f.param("fd", None, Some(int_literal(1)));
    let u8_ty = f.top_type("u8");
    let ptr = f.top_pointer(u8_ty);
    let data = f.param("data", Some(ptr), None);
    let s64 = f.top_type("s64");
    let count = f.param("count", Some(s64), None);
    let lib = f.sym("libc");
    f.procedure_with("read", vec![fd, data, count], Some("s64"), None, Some(ForeignInfo { library: Some(lib), span: span(50) }));
    let mut pool = Pool::new();
    assert_eq!(analyse(&f, &mut pool).codes, vec![Code::E0252]);
}

/// `libc :: #system_library "c";` and `name :: (params) -> ret #foreign libc "name";`,
/// the parameter types given as type references.
fn foreign_declaration(f: &mut FileBuilder, name: &str, params: Vec<(&str, u32)>, ret: Option<&str>) -> Vec<Code> {
    f.constant("libc", Expr::SystemLibrary(Some("c".to_owned()), span(1)));
    let params = params.into_iter().map(|(p, ty)| f.param(p, Some(ty), None)).collect();
    let lib = f.sym("libc");
    f.procedure_with(name, params, ret, None, Some(ForeignInfo { library: Some(lib), span: span(50) }));
    let mut pool = Pool::new();
    analyse(f, &mut pool).codes
}

#[test]
fn a_foreign_string_parameter_cannot_cross_the_boundary() {
    let mut f = FileBuilder::new();
    let string = f.top_type("string");
    assert_eq!(foreign_declaration(&mut f, "puts", vec![("text", string)], Some("s64")), vec![Code::E0286]);
}

#[test]
fn a_foreign_procedure_cannot_return_a_struct() {
    let mut f = FileBuilder::new();
    let s64 = f.top_type("s64");
    f.structure("Point", &[("x", s64)]);
    assert_eq!(foreign_declaration(&mut f, "make", vec![], Some("Point")), vec![Code::E0286]);
}

#[test]
fn each_refused_foreign_type_is_reported_once() {
    let mut f = FileBuilder::new();
    let s64 = f.top_type("s64");
    f.structure("Point", &[("x", s64)]);
    let string = f.top_type("string");
    let point = f.top_type("Point");
    let codes = foreign_declaration(&mut f, "both", vec![("text", string), ("at", point)], Some("string"));
    assert_eq!(codes, vec![Code::E0286, Code::E0286, Code::E0286]);
}

#[test]
fn a_foreign_signature_of_scalars_and_pointers_is_accepted() {
    let mut f = FileBuilder::new();
    let s64 = f.top_type("s64");
    let u8_ty = f.top_type("u8");
    let ptr = f.top_pointer(u8_ty);
    let flag = f.top_type("bool");
    let codes = foreign_declaration(&mut f, "write", vec![("fd", s64), ("data", ptr), ("flush", flag)], Some("s64"));
    assert!(codes.is_empty());
}

#[test]
fn a_qualified_case_counts_like_a_bare_one() {
    // pick :: (s: Status) { switch s { case Status.OK; case .MISSING; } }
    let mut f = FileBuilder::new();
    let mut resolved = Vec::new();
    for name in ["OK", "MISSING"] {
        let sym = f.sym(name);
        resolved.push(EnumMember { name: sym, value: None, span: span(2) });
    }
    f.item(Some("Status"), ItemKind::Enum { flags: false, members: resolved });
    let ok = f.sym("OK");
    let missing = f.sym("MISSING");
    let mut b = BodyBuilder::new();
    let scrutinee = b.name(Res::Param(0));
    let receiver = b.name(Res::Item(0));
    let first = b.expr(Expr::Field { receiver, name: ok, span: span(400) });
    let second = b.expr(Expr::Member { name: missing, name_span: span(401), span: span(401) });
    let a1 = b.stmt(Stmt::Block(vec![]));
    let a2 = b.stmt(Stmt::Block(vec![]));
    let arms = vec![
        SwitchArm { value: Some(first), body: a1, span: span(300) },
        SwitchArm { value: Some(second), body: a2, span: span(301) },
    ];
    let s = b.stmt(Stmt::Switch { value: scrutinee, arms, span: span(299) });
    f.procedure("pick", &[("s", "Status")], None, Some(b.finish(vec![s])));
    let mut pool = Pool::new();
    assert!(analyse(&f, &mut pool).codes.is_empty());
}

/// `Colour :: enum { RED; GREEN; }` and `main :: () { c[: ty] = .<member>; }`.
fn bare_member_file(annotation: Option<&str>, member: &str) -> (Vec<Code>, Option<PoolId>, Pool) {
    let mut f = FileBuilder::new();
    let mut members = Vec::new();
    for name in ["RED", "GREEN"] {
        let sym = f.sym(name);
        members.push(EnumMember { name: sym, value: None, span: span(2) });
    }
    f.item(Some("Colour"), ItemKind::Enum { flags: false, members });
    let c = f.sym("c");
    let name = f.sym(member);
    let ty = annotation.map(|t| f.sym(t));
    let mut b = BodyBuilder::new();
    let value = b.expr(Expr::Member { name, name_span: span(41), span: span(40) });
    let ty = ty.map(|t| b.annotation(t));
    let st = b.local(c, ty, Some(value));
    f.procedure("main", &[], None, Some(b.finish(vec![st])));
    let mut pool = Pool::new();
    let analysis = analyse(&f, &mut pool);
    let local = analysis.types.local_type(0, 0);
    (analysis.codes, local, pool)
}

#[test]
fn a_bare_member_takes_its_enum_from_the_annotation() {
    let (codes, ty, pool) = bare_member_file(Some("Colour"), "GREEN");
    assert!(codes.is_empty());
    assert!(matches!(pool.item(ty.unwrap()), TypeItem::EnumType { .. }));
}

#[test]
fn a_bare_member_with_no_context_is_e0244() {
    let (codes, ty, _) = bare_member_file(None, "RED");
    assert_eq!(codes, vec![Code::E0244]);
    assert_eq!(ty, Some(ERROR));
}

#[test]
fn a_bare_member_against_a_type_that_is_not_an_enum_is_e0244() {
    let (codes, ty, _) = bare_member_file(Some("s64"), "RED");
    assert_eq!(codes, vec![Code::E0244]);
    assert_eq!(ty, Some(S64));
}

#[test]
fn a_bare_member_the_enum_lacks_is_e0238() {
    let (codes, _, _) = bare_member_file(Some("Colour"), "PURPLE");
    assert_eq!(codes, vec![Code::E0238]);
}

/// `main :: () { n := 7; c: Colour; x[: ty] = <value>; }` after `Colour :: enum { RED; }`,
/// returning the codes and the type of `x`.
fn conversion_file(annotation: Option<&str>, value: impl FnOnce(&mut FileBuilder, &mut BodyBuilder) -> u32) -> (Vec<Code>, Option<PoolId>) {
    let mut f = FileBuilder::new();
    let red = f.sym("RED");
    f.item(Some("Colour"), ItemKind::Enum { flags: false, members: vec![EnumMember { name: red, value: None, span: span(2) }] });
    let n = f.sym("n");
    let c = f.sym("c");
    let x = f.sym("x");
    let colour = f.sym("Colour");
    let ty = annotation.map(|t| f.sym(t));
    let mut b = BodyBuilder::new();
    let seven = b.integer(7);
    let s0 = b.local(n, None, Some(seven));
    let colour_ty = b.annotation(colour);
    let s1 = b.local(c, Some(colour_ty), None);
    let v = value(&mut f, &mut b);
    let ty = ty.map(|t| b.annotation(t));
    let s2 = b.local(x, ty, Some(v));
    f.procedure("main", &[], None, Some(b.finish(vec![s0, s1, s2])));
    let mut pool = Pool::new();
    let analysis = analyse(&f, &mut pool);
    (analysis.codes, analysis.types.local_type(0, 2))
}

fn cast_to(f: &mut FileBuilder, b: &mut BodyBuilder, target: &str, operand: u32) -> u32 {
    let sym = f.sym(target);
    let ty = b.annotation(sym);
    b.expr(Expr::Cast { ty, operand, span: span(60) })
}

#[test]
fn a_cast_converts_an_integer_to_another_integer() {
    let (codes, ty) = conversion_file(None, |f, b| {
        let n = b.name(Res::Local(0));
        cast_to(f, b, "u8", n)
    });
    assert!(codes.is_empty());
    assert_eq!(ty, Some(U8));
}

#[test]
fn a_cast_literal_is_range_checked_against_the_target() {
    let (codes, _) = conversion_file(None, |f, b| {
        let big = b.integer(300);
        cast_to(f, b, "u8", big)
    });
    assert_eq!(codes, vec![Code::E0204]);
}

#[test]
fn a_cast_from_an_enum_to_an_integer_is_allowed() {
    let (codes, ty) = conversion_file(None, |f, b| {
        let c = b.name(Res::Local(1));
        cast_to(f, b, "s64", c)
    });
    assert!(codes.is_empty());
    assert_eq!(ty, Some(S64));
}

#[test]
fn a_cast_to_an_enum_is_e0232() {
    let (codes, _) = conversion_file(None, |f, b| {
        let n = b.name(Res::Local(0));
        cast_to(f, b, "Colour", n)
    });
    assert_eq!(codes, vec![Code::E0232]);
}

#[test]
fn a_cast_from_a_bool_is_e0232() {
    let (codes, ty) = conversion_file(None, |f, b| {
        let yes = b.boolean(true);
        cast_to(f, b, "s64", yes)
    });
    assert_eq!(codes, vec![Code::E0232]);
    assert_eq!(ty, Some(S64));
}

#[test]
fn xx_converts_to_the_type_its_context_expects() {
    let (codes, ty) = conversion_file(Some("u8"), |_, b| {
        let n = b.name(Res::Local(0));
        b.expr(Expr::Autocast { operand: n, span: span(61) })
    });
    assert!(codes.is_empty());
    assert_eq!(ty, Some(U8));
}

#[test]
fn xx_with_no_context_is_e0242() {
    let (codes, ty) = conversion_file(None, |_, b| {
        let n = b.name(Res::Local(0));
        b.expr(Expr::Autocast { operand: n, span: span(61) })
    });
    assert_eq!(codes, vec![Code::E0242]);
    assert_eq!(ty, Some(ERROR));
}

#[test]
fn xx_on_a_literal_is_e0243() {
    let (codes, ty) = conversion_file(Some("u8"), |_, b| {
        let one = b.integer(1);
        b.expr(Expr::Autocast { operand: one, span: span(61) })
    });
    assert_eq!(codes, vec![Code::E0243]);
    assert_eq!(ty, Some(U8));
}

#[test]
fn xx_to_a_bool_is_e0232() {
    let (codes, _) = conversion_file(Some("bool"), |_, b| {
        let n = b.name(Res::Local(0));
        b.expr(Expr::Autocast { operand: n, span: span(61) })
    });
    assert_eq!(codes, vec![Code::E0232]);
}

/// Signatures of a module standing alone, as file `file`.
fn module_signatures(hir: &FileHir, file: u32, pool: &mut Pool, interner: &Interner) -> FileSignatures {
    file_signatures(hir, file, &[], pool, interner).signatures
}

/// Both phases of file 0 against the given imports: each a module name, its file, its
/// HIR and its signatures.
fn analyse_with_imports(f: &FileBuilder, imports: &[(&str, u32, &FileHir, &FileSignatures)], pool: &mut Pool) -> Vec<Code> {
    let imported: Vec<ImportedFile> = imports.iter().map(|(name, file, hir, _)| ImportedFile { name, file: *file, hir }).collect();
    let sig = file_signatures(&f.hir, 0, &imported, pool, &f.interner);
    let sigs: Vec<(&str, &FileSignatures)> = imports.iter().map(|(name, _, _, s)| (*name, *s)).collect();
    let checked = check_file(&f.hir, 0, &sig.signatures, &sigs, pool, &f.interner);
    let mut codes: Vec<Code> = sig.diagnostics.iter().map(|d| d.code).collect();
    codes.extend(checked.diagnostics.iter().map(|d| d.code));
    codes
}

/// The `Shapes` module: `Rect :: struct { w: s64; h: s64; }`,
/// `area :: (r: Rect) -> s64 { return r.w * r.h; }` and `SHAPES_VERSION :: 1;`.
fn shapes_module(f: &mut FileBuilder) {
    let s64a = f.top_type("s64");
    let s64b = f.top_type("s64");
    f.structure("Rect", &[("w", s64a), ("h", s64b)]);
    let w = f.sym("w");
    let h = f.sym("h");
    let mut b = BodyBuilder::new();
    let r1 = b.name(Res::Param(0));
    let rw = b.expr(Expr::Field { receiver: r1, name: w, span: span(30) });
    let r2 = b.name(Res::Param(0));
    let rh = b.expr(Expr::Field { receiver: r2, name: h, span: span(31) });
    let product = b.binary(BinOp::Mul, rw, rh);
    let ret = b.stmt(Stmt::Return(Some(product), span(32)));
    f.procedure("area", &[("r", "Rect")], Some("s64"), Some(b.finish(vec![ret])));
    f.constant("SHAPES_VERSION", int_literal(1));
}

/// A file builder that shares `module`'s names, for a file that imports it.
fn importer_of(module: FileBuilder) -> (FileBuilder, FileHir) {
    let FileBuilder { interner, hir } = module;
    let importer = FileBuilder {
        interner,
        hir: FileHir { items: Vec::new(), procs: Vec::new(), bodies: Vec::new(), exprs: Vec::new(), type_refs: Vec::new(), proc_bindings: Vec::new() },
    };
    (importer, hir)
}

#[test]
fn an_imported_struct_type_is_the_same_type_as_the_exporter_declared() {
    let mut m = FileBuilder::new();
    shapes_module(&mut m);
    let (mut f, shapes) = importer_of(m);
    let r = f.sym("r");
    let a = f.sym("a");
    let v = f.sym("v");
    let w = f.sym("w");
    let h = f.sym("h");
    let rect = f.sym("Rect");
    let area = f.sym("area");
    let version = f.sym("SHAPES_VERSION");
    let mut b = BodyBuilder::new();
    let rect_ty = b.annotation(rect);
    let s0 = b.local(r, Some(rect_ty), None);
    let r1 = b.name(Res::Local(0));
    let rw = b.expr(Expr::Field { receiver: r1, name: w, span: span(40) });
    let three = b.integer(3);
    let s1 = b.stmt(Stmt::Assign { lhs: rw, op: AssignOp::Assign, rhs: three, span: span(41) });
    let r2 = b.name(Res::Local(0));
    let rh = b.expr(Expr::Field { receiver: r2, name: h, span: span(42) });
    let four = b.integer(4);
    let s2 = b.stmt(Stmt::Assign { lhs: rh, op: AssignOp::Assign, rhs: four, span: span(43) });
    let callee = b.name(Res::Imported(0, area));
    let r3 = b.name(Res::Local(0));
    let call = b.call(callee, vec![r3]);
    let s3 = b.local(a, None, Some(call));
    let value = b.name(Res::Imported(0, version));
    let s4 = b.local(v, None, Some(value));
    f.procedure("main", &[], None, Some(b.finish(vec![s0, s1, s2, s3, s4])));
    let mut pool = Pool::new();
    let shapes_sigs = module_signatures(&shapes, 1, &mut pool, &f.interner);
    let codes = analyse_with_imports(&f, &[("Shapes", 1, &shapes, &shapes_sigs)], &mut pool);
    assert!(codes.is_empty(), "{:?}", codes);
}

#[test]
fn passing_the_wrong_type_to_an_imported_procedure_is_still_caught() {
    let mut m = FileBuilder::new();
    shapes_module(&mut m);
    let (mut f, shapes) = importer_of(m);
    let a = f.sym("a");
    let area = f.sym("area");
    let mut b = BodyBuilder::new();
    let callee = b.name(Res::Imported(0, area));
    let one = b.integer(1);
    let call = b.call(callee, vec![one]);
    let s0 = b.local(a, None, Some(call));
    f.procedure("main", &[], None, Some(b.finish(vec![s0])));
    let mut pool = Pool::new();
    let shapes_sigs = module_signatures(&shapes, 1, &mut pool, &f.interner);
    assert_eq!(analyse_with_imports(&f, &[("Shapes", 1, &shapes, &shapes_sigs)], &mut pool), vec![Code::E0214]);
}

#[test]
fn an_imported_constant_keeps_its_type() {
    let mut m = FileBuilder::new();
    m.constant("BLACK", int_literal(0));
    m.constant("LABEL", Expr::Literal(Literal::Str("black".to_owned()), span(1)));
    let (mut f, colors) = importer_of(m);
    let n = f.sym("n");
    let s = f.sym("s");
    let bad = f.sym("bad");
    let black = f.sym("BLACK");
    let label = f.sym("LABEL");
    let bool_name = f.sym("bool");
    let mut b = BodyBuilder::new();
    let v0 = b.name(Res::Imported(0, black));
    let s0 = b.local(n, None, Some(v0));
    let v1 = b.name(Res::Imported(0, label));
    let s1 = b.local(s, None, Some(v1));
    let v2 = b.name(Res::Imported(0, label));
    let ty = b.annotation(bool_name);
    let s2 = b.local(bad, Some(ty), Some(v2));
    f.procedure("main", &[], None, Some(b.finish(vec![s0, s1, s2])));
    let mut pool = Pool::new();
    let colors_sigs = module_signatures(&colors, 1, &mut pool, &f.interner);
    assert_eq!(analyse_with_imports(&f, &[("Colors", 1, &colors, &colors_sigs)], &mut pool), vec![Code::E0214]);
    assert_eq!(colors_sigs.lookup(black).map(|e| e.ty), Some(S64));
}

#[test]
fn a_type_name_provided_by_two_modules_is_ambiguous() {
    let mut first = FileBuilder::new();
    let s64 = first.top_type("s64");
    first.structure("Shape", &[("x", s64)]);
    let (mut second, first_hir) = importer_of(first);
    let s64 = second.top_type("s64");
    second.structure("Shape", &[("x", s64)]);
    let (mut f, second_hir) = importer_of(second);
    let s = f.sym("s");
    let shape = f.sym("Shape");
    let mut b = BodyBuilder::new();
    let ty = b.annotation(shape);
    let s0 = b.local(s, Some(ty), None);
    f.procedure("main", &[], None, Some(b.finish(vec![s0])));
    let mut pool = Pool::new();
    let first_sigs = module_signatures(&first_hir, 1, &mut pool, &f.interner);
    let second_sigs = module_signatures(&second_hir, 2, &mut pool, &f.interner);
    let codes = analyse_with_imports(
        &f,
        &[("First", 1, &first_hir, &first_sigs), ("Second", 2, &second_hir, &second_sigs)],
        &mut pool,
    );
    assert_eq!(codes, vec![Code::E0211]);
}

#[test]
fn a_file_level_declaration_shadows_an_imported_one() {
    let mut m = FileBuilder::new();
    let s64 = m.top_type("s64");
    m.structure("Shape", &[("x", s64)]);
    let (mut f, module) = importer_of(m);
    let bool_ty = f.top_type("bool");
    f.structure("Shape", &[("y", bool_ty)]);
    let s = f.sym("s");
    let y = f.sym("y");
    let shape = f.sym("Shape");
    let mut b = BodyBuilder::new();
    let ty = b.annotation(shape);
    let s0 = b.local(s, Some(ty), None);
    let recv = b.name(Res::Local(0));
    let field = b.expr(Expr::Field { receiver: recv, name: y, span: span(40) });
    let yes = b.boolean(true);
    let s1 = b.stmt(Stmt::Assign { lhs: field, op: AssignOp::Assign, rhs: yes, span: span(41) });
    f.procedure("main", &[], None, Some(b.finish(vec![s0, s1])));
    let mut pool = Pool::new();
    let module_sigs = module_signatures(&module, 1, &mut pool, &f.interner);
    assert!(analyse_with_imports(&f, &[("Shapes", 1, &module, &module_sigs)], &mut pool).is_empty());
}

#[test]
fn a_module_cycle_types_in_both_directions() {
    // Cycle_A: A_VALUE :: 1; a_calls_b :: () -> s64 { return b_value(); }   (imports Cycle_B)
    // Cycle_B: b_value :: () -> s64 { return A_VALUE; }                     (imports Cycle_A)
    let mut a = FileBuilder::new();
    let b_value = a.sym("b_value");
    let a_value = a.sym("A_VALUE");
    a.constant("A_VALUE", int_literal(1));
    let mut body = BodyBuilder::new();
    let callee = body.name(Res::Imported(0, b_value));
    let call = body.call(callee, vec![]);
    let ret = body.stmt(Stmt::Return(Some(call), span(32)));
    a.procedure("a_calls_b", &[], Some("s64"), Some(body.finish(vec![ret])));
    let (mut b, a_hir) = importer_of(a);
    let mut body = BodyBuilder::new();
    let value = body.name(Res::Imported(0, a_value));
    let ret = body.stmt(Stmt::Return(Some(value), span(33)));
    b.procedure("b_value", &[], Some("s64"), Some(body.finish(vec![ret])));
    let (names, b_hir) = importer_of(b);
    let mut pool = Pool::new();
    let a_sigs = module_signatures(&a_hir, 0, &mut pool, &names.interner);
    let b_sigs = module_signatures(&b_hir, 1, &mut pool, &names.interner);
    let a_file = FileBuilder { interner: names.interner, hir: a_hir };
    assert!(analyse_with_imports(&a_file, &[("Cycle_B", 1, &b_hir, &b_sigs)], &mut pool).is_empty());
    let b_file = FileBuilder { interner: a_file.interner, hir: b_hir };
    let a_hir = a_file.hir;
    let imported = [ImportedFile { name: "Cycle_A", file: 0, hir: &a_hir }];
    let sig = file_signatures(&b_file.hir, 1, &imported, &mut pool, &b_file.interner);
    let checked = check_file(&b_file.hir, 1, &sig.signatures, &[("Cycle_A", &a_sigs)], &mut pool, &b_file.interner);
    assert!(sig.diagnostics.is_empty());
    assert!(checked.diagnostics.is_empty());
}

/// `Geo :: #import "Shapes";` and `main :: () { r: <module>.<name>; }`, returning the
/// codes and the type of `r` and whether `Shapes` was recorded as used in type position.
fn qualified_annotation(module: &str, name: &str) -> (Vec<Code>, Option<PoolId>, bool) {
    let mut m = FileBuilder::new();
    shapes_module(&mut m);
    let (mut f, shapes) = importer_of(m);
    f.item(Some("Geo"), ItemKind::Import { path: "Shapes".to_owned(), alias: Some(0) });
    let alias = f.sym("Geo");
    f.hir.items[0].kind = ItemKind::Import { path: "Shapes".to_owned(), alias: Some(alias) };
    let r = f.sym("r");
    let module = f.sym(module);
    let name = f.sym(name);
    let mut b = BodyBuilder::new();
    b.type_refs.push(TypeRef::Qualified { module, name });
    let ty = (b.type_refs.len() - 1) as u32;
    let s0 = b.local(r, Some(ty), None);
    f.procedure("main", &[], None, Some(b.finish(vec![s0])));
    let mut pool = Pool::new();
    let shapes_sigs = module_signatures(&shapes, 1, &mut pool, &f.interner);
    let imported = [ImportedFile { name: "Shapes", file: 1, hir: &shapes }];
    let sig = file_signatures(&f.hir, 0, &imported, &mut pool, &f.interner);
    let checked = check_file(&f.hir, 0, &sig.signatures, &[("Shapes", &shapes_sigs)], &mut pool, &f.interner);
    let mut codes: Vec<Code> = sig.diagnostics.iter().map(|d| d.code).collect();
    codes.extend(checked.diagnostics.iter().map(|d| d.code));
    let recorded = checked.type_name_imports.iter().any(|module| module == "Shapes");
    (codes, checked.types.local_type(0, 0), recorded)
}

#[test]
fn a_qualified_type_name_reaches_the_aliased_module() {
    let (codes, ty, recorded) = qualified_annotation("Geo", "Rect");
    assert!(codes.is_empty(), "{:?}", codes);
    assert!(ty.is_some() && ty != Some(ERROR));
    assert!(recorded);
}

#[test]
fn a_qualified_name_the_module_lacks_is_e0212() {
    let (codes, ty, _) = qualified_annotation("Geo", "Circle");
    assert_eq!(codes, vec![Code::E0212]);
    assert_eq!(ty, Some(ERROR));
}

#[test]
fn a_qualified_name_that_is_not_a_type_is_e0213() {
    let (codes, _, _) = qualified_annotation("Geo", "area");
    assert_eq!(codes, vec![Code::E0213]);
}

#[test]
fn a_qualifier_that_binds_no_import_poisons_silently() {
    let (codes, ty, _) = qualified_annotation("Elsewhere", "Rect");
    assert!(codes.is_empty());
    assert_eq!(ty, Some(ERROR));
}

/// `main :: () { buf: [4]u8; <rest> }`, where `rest` builds statements from the
/// builder and the id of `buf`'s local; returns the codes, the messages and the types.
fn array_body(rest: impl FnOnce(&mut FileBuilder, &mut BodyBuilder) -> Vec<u32>) -> (Vec<Code>, Vec<String>, TypeMap, Pool) {
    let mut f = FileBuilder::new();
    let buf = f.sym("buf");
    let u8_name = f.sym("u8");
    let mut b = BodyBuilder::new();
    let elem = b.annotation(u8_name);
    b.type_refs.push(TypeRef::Array { elem, len: Some(4), len_name: None, len_span: span(9) });
    let ty = (b.type_refs.len() - 1) as u32;
    let s0 = b.local(buf, Some(ty), None);
    let mut stmts = vec![s0];
    stmts.extend(rest(&mut f, &mut b));
    f.procedure("main", &[], None, Some(b.finish(stmts)));
    let mut pool = Pool::new();
    let sig = file_signatures(&f.hir, 0, &[], &mut pool, &f.interner);
    let checked = check_file(&f.hir, 0, &sig.signatures, &[], &mut pool, &f.interner);
    let codes = sig.diagnostics.iter().chain(checked.diagnostics.iter()).map(|d| d.code).collect();
    let messages = checked.diagnostics.iter().map(|d| d.message.clone()).collect();
    (codes, messages, checked.types, pool)
}

fn index_of(f: &mut FileBuilder, b: &mut BodyBuilder, name: &str, index: u32) -> u32 {
    let x = f.sym(name);
    let base = b.name(Res::Local(0));
    let e = b.expr(Expr::Index { base, index, index_span: span(70), span: span(71) });
    b.local(x, None, Some(e))
}

#[test]
fn indexing_an_array_gives_its_element_type() {
    let (codes, _, types, _) = array_body(|f, b| {
        let two = b.integer(2);
        vec![index_of(f, b, "x", two)]
    });
    assert!(codes.is_empty());
    assert_eq!(types.local_type(0, 1), Some(U8));
}

#[test]
fn a_literal_index_past_the_end_is_e0236() {
    let (codes, messages, _, _) = array_body(|f, b| {
        let four = b.integer(4);
        vec![index_of(f, b, "x", four)]
    });
    assert_eq!(codes, vec![Code::E0236]);
    assert_eq!(messages, vec!["index 4 is out of range for `[4]u8`".to_owned()]);
}

#[test]
fn a_bool_index_mismatches_its_s64_context() {
    let (codes, _, types, _) = array_body(|f, b| {
        let yes = b.boolean(true);
        vec![index_of(f, b, "x", yes)]
    });
    assert_eq!(codes, vec![Code::E0214]);
    assert_eq!(types.local_type(0, 1), Some(U8));
}

#[test]
fn an_array_where_a_view_is_expected_is_e0240() {
    let (codes, _, _, _) = array_body(|f, b| {
        let v = f.sym("v");
        let u8_name = f.sym("u8");
        let elem = b.annotation(u8_name);
        b.type_refs.push(TypeRef::View(elem));
        let ty = (b.type_refs.len() - 1) as u32;
        let value = b.name(Res::Local(0));
        vec![b.local(v, Some(ty), Some(value))]
    });
    assert_eq!(codes, vec![Code::E0240]);
}

#[test]
fn indexing_something_that_is_not_an_array_is_e0234() {
    let (codes, _, types, _) = array_body(|f, b| {
        let n = f.sym("n");
        let seven = b.integer(7);
        let s = b.local(n, None, Some(seven));
        let base = b.name(Res::Local(1));
        let zero = b.integer(0);
        let e = b.expr(Expr::Index { base, index: zero, index_span: span(70), span: span(71) });
        let x = f.sym("x");
        vec![s, b.local(x, None, Some(e))]
    });
    assert_eq!(codes, vec![Code::E0234]);
    assert_eq!(types.local_type(0, 2), Some(ERROR));
}

#[test]
fn a_slice_of_an_array_is_a_view_of_its_elements() {
    let (codes, _, types, pool) = array_body(|f, b| {
        let v = f.sym("v");
        let base = b.name(Res::Local(0));
        let e = b.expr(Expr::Slice { base, span: span(72) });
        let s1 = b.local(v, None, Some(e));
        let count = f.sym("count");
        let n = f.sym("n");
        let recv = b.name(Res::Local(1));
        let c = b.expr(Expr::Field { receiver: recv, name: count, span: span(73) });
        vec![s1, b.local(n, None, Some(c))]
    });
    assert!(codes.is_empty());
    let view = types.local_type(0, 1).unwrap();
    assert!(matches!(pool.item(view), TypeItem::ViewType { elem } if *elem == U8));
    assert_eq!(types.local_type(0, 2), Some(S64));
}

#[test]
fn slicing_a_view_again_is_e0239() {
    let (codes, _, _, _) = array_body(|f, b| {
        let v = f.sym("v");
        let base = b.name(Res::Local(0));
        let e = b.expr(Expr::Slice { base, span: span(72) });
        let s1 = b.local(v, None, Some(e));
        let w = f.sym("w");
        let again = b.name(Res::Local(1));
        let e2 = b.expr(Expr::Slice { base: again, span: span(74) });
        vec![s1, b.local(w, None, Some(e2))]
    });
    assert_eq!(codes, vec![Code::E0239]);
}

#[test]
fn an_array_is_described_with_its_length() {
    let (codes, messages, _, _) = array_body(|f, b| {
        let flag = f.sym("flag");
        let bool_name = f.sym("bool");
        let ty = b.annotation(bool_name);
        let value = b.name(Res::Local(0));
        vec![b.local(flag, Some(ty), Some(value))]
    });
    assert_eq!(codes, vec![Code::E0214]);
    assert!(messages[0].contains("`[4]u8`"), "{:?}", messages);
}

#[test]
fn an_array_length_may_name_a_literal_constant() {
    // N :: 8;  main :: () { buf: [N]u8; n := buf.count; }
    let mut f = FileBuilder::new();
    f.constant("N", int_literal(8));
    let n_sym = f.sym("N");
    let buf = f.sym("buf");
    let n = f.sym("n");
    let count = f.sym("count");
    let u8_name = f.sym("u8");
    let mut b = BodyBuilder::new();
    let elem = b.annotation(u8_name);
    b.type_refs.push(TypeRef::Array { elem, len: None, len_name: Some(n_sym), len_span: span(9) });
    let ty = (b.type_refs.len() - 1) as u32;
    let s0 = b.local(buf, Some(ty), None);
    let recv = b.name(Res::Local(0));
    let c = b.expr(Expr::Field { receiver: recv, name: count, span: span(73) });
    let s1 = b.local(n, None, Some(c));
    f.procedure("main", &[], None, Some(b.finish(vec![s0, s1])));
    let mut pool = Pool::new();
    let analysis = analyse(&f, &mut pool);
    assert!(analysis.codes.is_empty());
    let array = analysis.types.local_type(0, 0).unwrap();
    assert!(matches!(pool.item(array), TypeItem::ArrayType { elem, len: 8 } if *elem == U8));
    assert_eq!(analysis.types.local_type(0, 1), Some(S64));
}

#[test]
fn an_array_length_naming_a_computed_constant_is_e0233() {
    // M :: 2 + 2;  main :: () { buf: [M]u8; }
    let mut f = FileBuilder::new();
    let two = f.top_expr(int_literal(2));
    let two_again = f.top_expr(int_literal(2));
    f.constant("M", Expr::Binary { op: BinOp::Add, lhs: two, rhs: two_again, span: span(3) });
    let m = f.sym("M");
    let buf = f.sym("buf");
    let u8_name = f.sym("u8");
    let mut b = BodyBuilder::new();
    let elem = b.annotation(u8_name);
    b.type_refs.push(TypeRef::Array { elem, len: None, len_name: Some(m), len_span: span(9) });
    let ty = (b.type_refs.len() - 1) as u32;
    let s0 = b.local(buf, Some(ty), None);
    f.procedure("main", &[], None, Some(b.finish(vec![s0])));
    let mut pool = Pool::new();
    assert_eq!(analyse(&f, &mut pool).codes, vec![Code::E0233]);
}

/// `for x[, i]: <iterable> {}` after `buf: [4]u8;`, the loop locals being locals 1
/// and 2.
fn for_loop(with_index: bool, iterable: impl FnOnce(&mut FileBuilder, &mut BodyBuilder) -> ForIterable) -> (Vec<Code>, TypeMap) {
    let (codes, _, types, _) = array_body(|f, b| {
        let x = f.sym("x");
        let i = f.sym("i");
        b.locals.push(Local { name: x, ty: None, init: None, span: span(80) });
        if with_index {
            b.locals.push(Local { name: i, ty: None, init: None, span: span(81) });
        }
        let iterable = iterable(f, b);
        let body = b.stmt(Stmt::Block(vec![]));
        let index = if with_index { Some(2) } else { None };
        vec![b.stmt(Stmt::For { value: 1, index, iterable, body, span: span(82) })]
    });
    (codes, types)
}

#[test]
fn a_for_over_an_array_binds_its_elements() {
    let (codes, types) = for_loop(true, |_, b| ForIterable::Sequence(b.name(Res::Local(0))));
    assert!(codes.is_empty());
    assert_eq!(types.local_type(0, 1), Some(U8));
    assert_eq!(types.local_type(0, 2), Some(S64));
}

#[test]
fn a_for_through_a_pointer_to_an_array_binds_its_elements() {
    let (codes, types) = for_loop(false, |_, b| {
        let buf = b.name(Res::Local(0));
        let n = b.exprs.len() as u32;
        let address = b.expr(Expr::Unary { op: UnOp::AddrOf, operand: buf, span: span(100 + n) });
        ForIterable::Sequence(address)
    });
    assert!(codes.is_empty());
    assert_eq!(types.local_type(0, 1), Some(U8));
}

#[test]
fn a_for_over_a_range_binds_an_s64() {
    let (codes, types) = for_loop(false, |_, b| {
        let start = b.integer(0);
        let end = b.integer(10);
        ForIterable::Range { start, end }
    });
    assert!(codes.is_empty());
    assert_eq!(types.local_type(0, 1), Some(S64));
}

#[test]
fn a_for_over_an_integer_is_e0247() {
    let (codes, types) = for_loop(false, |_, b| ForIterable::Sequence(b.integer(3)));
    assert_eq!(codes, vec![Code::E0247]);
    assert_eq!(types.local_type(0, 1), Some(ERROR));
}

/// `divide :: (a: s64, b: s64) -> (s64, bool) { return a, true; }`, item 0, body 0.
fn divide_procedure(f: &mut FileBuilder) {
    let s64a = f.top_type("s64");
    let s64b = f.top_type("s64");
    let a = f.param("a", Some(s64a), None);
    let b_param = f.param("b", Some(s64b), None);
    let r0 = f.top_type("s64");
    let r1 = f.top_type("bool");
    f.hir.type_refs.push(TypeRef::Results(vec![r0, r1]));
    let ret = (f.hir.type_refs.len() - 1) as u32;
    let mut body = BodyBuilder::new();
    let value = body.name(Res::Param(0));
    let yes = body.boolean(true);
    let st = body.stmt(Stmt::ReturnTuple(vec![value, yes], span(33)));
    f.hir.bodies.push(body.finish(vec![st]));
    let body_id = (f.hir.bodies.len() - 1) as u32;
    let name = f.sym("divide");
    f.hir.procs.push(Proc { name, params: vec![a, b_param], ret: Some(ret), body: Some(body_id), foreign: None, must: false, c_call: false, span: span(55) });
    let proc = (f.hir.procs.len() - 1) as u32;
    f.item(Some("divide"), ItemKind::Proc(proc));
}

/// `main`, body 1, after `divide`: builds statements given `divide(7, 2)`'s builder.
fn with_divide(statements: impl FnOnce(&mut FileBuilder, &mut BodyBuilder) -> Vec<u32>) -> (Vec<Code>, Vec<String>, TypeMap) {
    let mut f = FileBuilder::new();
    divide_procedure(&mut f);
    let mut b = BodyBuilder::new();
    let stmts = statements(&mut f, &mut b);
    f.procedure("main", &[], None, Some(b.finish(stmts)));
    let mut pool = Pool::new();
    let sig = file_signatures(&f.hir, 0, &[], &mut pool, &f.interner);
    let checked = check_file(&f.hir, 0, &sig.signatures, &[], &mut pool, &f.interner);
    let codes = sig.diagnostics.iter().chain(checked.diagnostics.iter()).map(|d| d.code).collect();
    let messages = checked.diagnostics.iter().map(|d| d.message.clone()).collect();
    (codes, messages, checked.types)
}

fn divide_call(b: &mut BodyBuilder) -> u32 {
    let callee = b.name(Res::Item(0));
    let seven = b.integer(7);
    let two = b.integer(2);
    b.call(callee, vec![seven, two])
}

#[test]
fn a_destructuring_declaration_takes_each_result() {
    let (codes, _, types) = with_divide(|f, b| {
        let q = f.sym("q");
        let ok = f.sym("ok");
        b.locals.push(Local { name: q, ty: None, init: None, span: span(80) });
        b.locals.push(Local { name: ok, ty: None, init: None, span: span(81) });
        let call = divide_call(b);
        vec![b.stmt(Stmt::LocalTuple { targets: vec![Some(0), Some(1)], call, span: span(82) })]
    });
    assert!(codes.is_empty(), "{:?}", codes);
    assert_eq!(types.local_type(1, 0), Some(S64));
    assert_eq!(types.local_type(1, 1), Some(BOOL));
}

#[test]
fn binding_several_results_to_one_name_is_e0251() {
    let (codes, messages, types) = with_divide(|f, b| {
        let q = f.sym("q");
        let call = divide_call(b);
        vec![b.local(q, None, Some(call))]
    });
    assert_eq!(codes, vec![Code::E0251]);
    assert!(messages[0].contains("`(s64, bool)`"), "{:?}", messages);
    assert_eq!(types.local_type(1, 0), Some(ERROR));
}

#[test]
fn destructuring_into_the_wrong_number_of_names_is_e0251() {
    let (codes, _, types) = with_divide(|f, b| {
        for name in ["a", "b", "c"] {
            let sym = f.sym(name);
            b.locals.push(Local { name: sym, ty: None, init: None, span: span(80) });
        }
        let call = divide_call(b);
        vec![b.stmt(Stmt::LocalTuple { targets: vec![Some(0), Some(1), Some(2)], call, span: span(82) })]
    });
    assert_eq!(codes, vec![Code::E0251]);
    assert_eq!(types.local_type(1, 0), Some(ERROR));
}

#[test]
fn a_discarded_result_declares_nothing() {
    let (codes, _, types) = with_divide(|f, b| {
        let q = f.sym("q");
        b.locals.push(Local { name: q, ty: None, init: None, span: span(80) });
        let call = divide_call(b);
        vec![b.stmt(Stmt::LocalTuple { targets: vec![Some(0), None], call, span: span(82) })]
    });
    assert!(codes.is_empty());
    assert_eq!(types.local_type(1, 0), Some(S64));
}

#[test]
fn destructuring_assignment_checks_each_target() {
    // q: s64; ok: s64; q, ok = divide(7, 2);   -- `ok` cannot take a `bool`
    let (codes, _, _) = with_divide(|f, b| {
        let q = f.sym("q");
        let ok = f.sym("ok");
        let s64_name = f.sym("s64");
        let t0 = b.annotation(s64_name);
        let s0 = b.local(q, Some(t0), None);
        let t1 = b.annotation(s64_name);
        let s1 = b.local(ok, Some(t1), None);
        let q_ref = b.name(Res::Local(0));
        let ok_ref = b.name(Res::Local(1));
        let call = divide_call(b);
        let s2 = b.stmt(Stmt::AssignTuple { targets: vec![Some(q_ref), Some(ok_ref)], call, span: span(83) });
        vec![s0, s1, s2]
    });
    assert_eq!(codes, vec![Code::E0214]);
}

#[test]
fn a_destructuring_target_that_is_not_a_place_is_e0251() {
    let (codes, _, _) = with_divide(|_, b| {
        let one = b.integer(1);
        let call = divide_call(b);
        vec![b.stmt(Stmt::AssignTuple { targets: vec![Some(one), None], call, span: span(83) })]
    });
    assert_eq!(codes, vec![Code::E0251]);
}

#[test]
fn returning_several_values_from_a_single_result_procedure_is_e0251() {
    // one :: () -> s64 { return 1, 2; }
    let mut f = FileBuilder::new();
    let mut b = BodyBuilder::new();
    let one = b.integer(1);
    let two = b.integer(2);
    let st = b.stmt(Stmt::ReturnTuple(vec![one, two], span(33)));
    f.procedure("one", &[], Some("s64"), Some(b.finish(vec![st])));
    let mut pool = Pool::new();
    assert_eq!(analyse(&f, &mut pool).codes, vec![Code::E0251]);
}

#[test]
fn returning_the_wrong_number_of_results_is_e0251() {
    let mut f = FileBuilder::new();
    divide_procedure(&mut f);
    f.hir.bodies[0].stmts[0] = Stmt::ReturnTuple(vec![0], span(33));
    let mut pool = Pool::new();
    assert_eq!(analyse(&f, &mut pool).codes, vec![Code::E0251]);
}

/// `libc :: #system_library "c"; write :: (fd: s64) -> s64 #foreign libc "write";` and
/// a `main` built from the builder, `write` being item 1.
fn foreign_write_and_main(statements: impl FnOnce(&mut FileBuilder, &mut BodyBuilder) -> Vec<u32>) -> Vec<Code> {
    let mut f = foreign_file(Expr::SystemLibrary(Some("c".to_owned()), span(1)), "libc");
    let mut b = BodyBuilder::new();
    let stmts = statements(&mut f, &mut b);
    f.procedure("main", &[], None, Some(b.finish(stmts)));
    let mut pool = Pool::new();
    analyse(&f, &mut pool).codes
}

#[test]
fn calling_a_foreign_procedure_is_fine() {
    let codes = foreign_write_and_main(|_, b| {
        let callee = b.name(Res::Item(1));
        let one = b.integer(1);
        let call = b.call(callee, vec![one]);
        vec![b.stmt(Stmt::Expr(call))]
    });
    assert!(codes.is_empty(), "{:?}", codes);
}

#[test]
fn a_foreign_procedure_taken_as_a_value_is_e0256() {
    let codes = foreign_write_and_main(|f, b| {
        let p = f.sym("p");
        let value = b.name(Res::Item(1));
        vec![b.local(p, None, Some(value))]
    });
    assert_eq!(codes, vec![Code::E0256]);
}


/// `checked :: () -> bool #must { return true; }` (or `-> void` when `returns` is false),
/// item 0, and `main` built from the builder.
fn must_file(returns: bool, statements: impl FnOnce(&mut FileBuilder, &mut BodyBuilder) -> Vec<u32>) -> Vec<Code> {
    let mut f = FileBuilder::new();
    let mut body = BodyBuilder::new();
    let stmts = if returns {
        let yes = body.boolean(true);
        vec![body.stmt(Stmt::Return(Some(yes), span(33)))]
    } else {
        vec![]
    };
    f.procedure("checked", &[], if returns { Some("bool") } else { None }, Some(body.finish(stmts)));
    f.hir.procs[0].must = true;
    let mut b = BodyBuilder::new();
    let main_stmts = statements(&mut f, &mut b);
    f.procedure("main", &[], None, Some(b.finish(main_stmts)));
    let mut pool = Pool::new();
    analyse(&f, &mut pool).codes
}

#[test]
fn dropping_the_result_of_a_must_call_is_e0287() {
    let codes = must_file(true, |_, b| {
        let callee = b.name(Res::Item(0));
        let call = b.call(callee, vec![]);
        vec![b.stmt(Stmt::Expr(call))]
    });
    assert_eq!(codes, vec![Code::E0287]);
}

#[test]
fn a_discarded_or_bound_must_result_is_received() {
    let codes = must_file(true, |f, b| {
        let c1 = b.name(Res::Item(0));
        let call1 = b.call(c1, vec![]);
        let s1 = b.stmt(Stmt::Discard(call1));
        let ok = f.sym("ok");
        let c2 = b.name(Res::Item(0));
        let call2 = b.call(c2, vec![]);
        let s2 = b.local(ok, None, Some(call2));
        vec![s1, s2]
    });
    assert!(codes.is_empty(), "{:?}", codes);
}

#[test]
fn must_on_a_procedure_that_returns_nothing_is_e0288() {
    let codes = must_file(false, |_, b| {
        let callee = b.name(Res::Item(0));
        let call = b.call(callee, vec![]);
        vec![b.stmt(Stmt::Expr(call))]
    });
    assert_eq!(codes, vec![Code::E0288]);
}

#[test]
fn an_imported_foreign_procedure_taken_as_a_value_is_e0256() {
    let m = foreign_file(Expr::SystemLibrary(Some("c".to_owned()), span(1)), "libc");
    let (mut f, lib) = importer_of(m);
    let write = f.sym("write");
    let p = f.sym("p");
    let mut b = BodyBuilder::new();
    let value = b.name(Res::Imported(0, write));
    let s0 = b.local(p, None, Some(value));
    f.procedure("main", &[], None, Some(b.finish(vec![s0])));
    let mut pool = Pool::new();
    let lib_sigs = module_signatures(&lib, 1, &mut pool, &f.interner);
    assert_eq!(analyse_with_imports(&f, &[("Lib", 1, &lib, &lib_sigs)], &mut pool), vec![Code::E0256]);
}

#[test]
fn calling_an_imported_foreign_procedure_is_fine() {
    let m = foreign_file(Expr::SystemLibrary(Some("c".to_owned()), span(1)), "libc");
    let (mut f, lib) = importer_of(m);
    let write = f.sym("write");
    let mut b = BodyBuilder::new();
    let callee = b.name(Res::Imported(0, write));
    let one = b.integer(1);
    let call = b.call(callee, vec![one]);
    let s0 = b.stmt(Stmt::Expr(call));
    f.procedure("main", &[], None, Some(b.finish(vec![s0])));
    let mut pool = Pool::new();
    let lib_sigs = module_signatures(&lib, 1, &mut pool, &f.interner);
    assert!(analyse_with_imports(&f, &[("Lib", 1, &lib, &lib_sigs)], &mut pool).is_empty());
}

#[test]
fn an_unknown_annotation_on_a_literal_is_only_e0212_and_poisons_the_local() {
    let mut f = FileBuilder::new();
    let n = f.sym("n");
    let nonesuch = f.sym("nonesuch");
    let mut b = BodyBuilder::new();
    let lit = b.integer(300);
    let ty = b.annotation(nonesuch);
    let s = b.local(n, Some(ty), Some(lit));
    let body = b.finish(vec![s]);
    f.procedure("main", &[], None, Some(body));
    let mut pool = Pool::new();
    let analysis = analyse(&f, &mut pool);
    assert_eq!(analysis.codes, vec![Code::E0212]);
    assert_eq!(analysis.types.local_type(0, 0), Some(ERROR));
}

#[test]
fn each_misfitting_literal_of_a_block_is_reported_in_order() {
    let mut f = FileBuilder::new();
    let a = f.sym("a");
    let c = f.sym("c");
    let u8_name = f.sym("u8");
    let mut b = BodyBuilder::new();
    let big = b.integer(256);
    let ty = b.annotation(u8_name);
    let s0 = b.local(a, Some(ty), Some(big));
    let small = b.integer(7);
    let s1 = b.local(c, None, Some(small));
    let s2 = b.stmt(Stmt::Error);
    let body = b.finish(vec![s0, s1, s2]);
    f.procedure("main", &[], None, Some(body));
    let mut pool = Pool::new();
    let analysis = analyse(&f, &mut pool);
    assert_eq!(analysis.codes, vec![Code::E0204]);
    assert_eq!(analysis.types.local_type(0, 0), Some(U8));
    assert_eq!(analysis.types.local_type(0, 1), Some(S64));
}
