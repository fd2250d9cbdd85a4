//! The type map: what the checker learned, as opposed to what it complained about.
//!
//! Expressions are keyed on their arena and index together, because an expression id
//! is not unique within a file: the file's arena and every body's arena all start at
//! 0, and a map keyed on the bare id would silently let the last writer win.

use vstd::prelude::*;
use crate::hir::{BodyId, ExprId, ExprScope, LocalId, Span};
use crate::pool::PoolId;
use crate::table::Table;

verus! {

/// The arena part of an expression key: 0 for the file's arena, one past the body
/// index for a body's.
pub open spec fn scope_code(scope: ExprScope) -> int {
    match scope {
        ExprScope::TopLevel => 0,
        ExprScope::Body(b) => b + 1,
    }
}

/// The packed key of an expression: its arena above its index.
pub open spec fn expr_key(scope: ExprScope, id: ExprId) -> u128 {
    (scope_code(scope) * 0x1_0000_0000 + id) as u128
}

/// The packed key of a local: its body above its index.
pub open spec fn local_key(body: BodyId, local: LocalId) -> u128 {
    (body * 0x1_0000_0000 + local) as u128
}

/// The packed key of a span: file, then start, then end.
pub open spec fn span_key(span: Span) -> u128 {
    (span.file * 0x1_0000_0000_0000_0000 + span.start * 0x1_0000_0000 + span.end) as u128
}

/// Computes [`expr_key`].
pub fn expr_key_of(scope: ExprScope, id: ExprId) -> (r: u128)
    ensures
        r == expr_key(scope, id),
{
    let code: u128 = match scope {
        ExprScope::TopLevel => 0,
        ExprScope::Body(b) => b as u128 + 1,
    };
    code * 0x1_0000_0000 + id as u128
}

/// Computes [`local_key`].
pub fn local_key_of(body: BodyId, local: LocalId) -> (r: u128)
    ensures
        r == local_key(body, local),
{
    body as u128 * 0x1_0000_0000 + local as u128
}

/// Computes [`span_key`].
pub fn span_key_of(span: Span) -> (r: u128)
    ensures
        r == span_key(span),
{
    span.file as u128 * 0x1_0000_0000_0000_0000 + span.start as u128 * 0x1_0000_0000 + span.end as u128
}

/// Two expressions share a key only if they are the same expression of the same arena:
/// the same index in two arenas stays two entries.
pub proof fn lemma_expr_key_injective(s1: ExprScope, i1: ExprId, s2: ExprScope, i2: ExprId)
    ensures
        expr_key(s1, i1) == expr_key(s2, i2) <==> (s1 == s2 && i1 == i2),
{
    let c1 = scope_code(s1);
    let c2 = scope_code(s2);
    if expr_key(s1, i1) == expr_key(s2, i2) {
        assert(c1 * 0x1_0000_0000 + i1 == c2 * 0x1_0000_0000 + i2);
        assert(c1 == c2 && i1 == i2) by (nonlinear_arith)
            requires
                c1 * 0x1_0000_0000 + i1 == c2 * 0x1_0000_0000 + i2,
                0 <= i1 < 0x1_0000_0000,
                0 <= i2 < 0x1_0000_0000,
                0 <= c1,
                0 <= c2,
        ;
        match s1 {
            ExprScope::TopLevel => {},
            ExprScope::Body(b1) => match s2 {
                ExprScope::TopLevel => {},
                ExprScope::Body(b2) => {
                    assert(b1 == b2);
                },
            },
        }
    }
}

/// Two locals share a key only if they are the same local of the same body.
pub proof fn lemma_local_key_injective(b1: BodyId, l1: LocalId, b2: BodyId, l2: LocalId)
    ensures
        local_key(b1, l1) == local_key(b2, l2) <==> (b1 == b2 && l1 == l2),
{
    if local_key(b1, l1) == local_key(b2, l2) {
        assert(b1 == b2 && l1 == l2) by (nonlinear_arith)
            requires
                b1 * 0x1_0000_0000 + l1 == b2 * 0x1_0000_0000 + l2,
                0 <= l1 < 0x1_0000_0000,
                0 <= l2 < 0x1_0000_0000,
                0 <= b1,
                0 <= b2,
        ;
    }
}

/// Two spans share a key only if they are the same span.
pub proof fn lemma_span_key_injective(a: Span, b: Span)
    ensures
        span_key(a) == span_key(b) <==> a == b,
{
    if span_key(a) == span_key(b) {
        let (f1, s1, e1) = (a.file as int, a.start as int, a.end as int);
        let (f2, s2, e2) = (b.file as int, b.start as int, b.end as int);
        assert(s1 * 0x1_0000_0000 + e1 < 0x1_0000_0000_0000_0000) by (nonlinear_arith)
            requires 0 <= s1 < 0x1_0000_0000, 0 <= e1 < 0x1_0000_0000;
        assert(s2 * 0x1_0000_0000 + e2 < 0x1_0000_0000_0000_0000) by (nonlinear_arith)
            requires 0 <= s2 < 0x1_0000_0000, 0 <= e2 < 0x1_0000_0000;
        assert(f1 == f2 && s1 * 0x1_0000_0000 + e1 == s2 * 0x1_0000_0000 + e2) by (nonlinear_arith)
            requires
                f1 * 0x1_0000_0000_0000_0000 + (s1 * 0x1_0000_0000 + e1) == f2 * 0x1_0000_0000_0000_0000 + (s2 * 0x1_0000_0000 + e2),
                0 <= s1 * 0x1_0000_0000 + e1 < 0x1_0000_0000_0000_0000,
                0 <= s2 * 0x1_0000_0000 + e2 < 0x1_0000_0000_0000_0000,
                0 <= f1,
                0 <= f2,
        ;
        assert(s1 == s2 && e1 == e2) by (nonlinear_arith)
            requires
                s1 * 0x1_0000_0000 + e1 == s2 * 0x1_0000_0000 + e2,
                0 <= e1 < 0x1_0000_0000,
                0 <= e2 < 0x1_0000_0000,
                0 <= s1,
                0 <= s2,
        ;
    }
}

/// The type of every expression and every local the checker visited.
pub struct TypeMap {
    exprs: Table<PoolId>,
    locals: Table<PoolId>,
}

impl TypeMap {
    /// The recorded expression types, by packed key.
    pub closed spec fn expr_entries(&self) -> Map<u128, PoolId> {
        self.exprs.view()
    }

    /// The recorded local types, by packed key.
    pub closed spec fn local_entries(&self) -> Map<u128, PoolId> {
        self.locals.view()
    }

    /// Both tables are well formed.
    pub closed spec fn wf(&self) -> bool {
        self.exprs.wf() && self.locals.wf()
    }

    /// The type recorded for an expression, if any.
    pub open spec fn spec_expr_type(&self, scope: ExprScope, id: ExprId) -> Option<PoolId> {
        if self.expr_entries().contains_key(expr_key(scope, id)) {
            Some(self.expr_entries()[expr_key(scope, id)])
        } else {
            None
        }
    }

    /// An empty map.
    pub fn new() -> (r: TypeMap)
        ensures
            r.wf(),
            r.expr_entries() == Map::<u128, PoolId>::empty(),
            r.local_entries() == Map::<u128, PoolId>::empty(),
    {
        TypeMap { exprs: Table::new(), locals: Table::new() }
    }

    /// The type of an expression, if the checker reached it. Absent means "not
    /// visited", not "untyped".
    pub fn expr_type(&self, scope: ExprScope, id: ExprId) -> (r: Option<PoolId>)
        ensures
            r == self.spec_expr_type(scope, id),
    {
        self.exprs.get(expr_key_of(scope, id))
    }

    /// The type of a local, if the checker reached its declaration.
    pub fn local_type(&self, body: BodyId, local: LocalId) -> (r: Option<PoolId>)
        ensures
            r == (if self.local_entries().contains_key(local_key(body, local)) {
                Some(self.local_entries()[local_key(body, local)])
            } else {
                None
            }),
    {
        self.locals.get(local_key_of(body, local))
    }

    /// The number of typed expressions.
    pub fn expr_count(&self) -> (r: usize)
        requires
            self.wf(),
        ensures
            r == self.expr_entries().len(),
    {
        self.exprs.len()
    }

    /// The number of typed locals.
    pub fn local_count(&self) -> (r: usize)
        requires
            self.wf(),
        ensures
            r == self.local_entries().len(),
    {
        self.locals.len()
    }

    /// Records an expression's type.
    pub fn set_expr(&mut self, scope: ExprScope, id: ExprId, ty: PoolId)
        requires
            old(self).wf(),
        ensures
            final(self).wf(),
            final(self).expr_entries() == old(self).expr_entries().insert(expr_key(scope, id), ty),
            final(self).local_entries() == old(self).local_entries(),
    {
        self.exprs.insert(expr_key_of(scope, id), ty);
    }

    /// Records a local's type.
    pub fn set_local(&mut self, body: BodyId, local: LocalId, ty: PoolId)
        requires
            old(self).wf(),
        ensures
            final(self).wf(),
            final(self).local_entries() == old(self).local_entries().insert(local_key(body, local), ty),
            final(self).expr_entries() == old(self).expr_entries(),
    {
        self.locals.insert(local_key_of(body, local), ty);
    }

    /// Merges another map into this one; where both typed a key, `other` wins.
    pub fn absorb(&mut self, other: &TypeMap)
        requires
            old(self).wf(),
            other.wf(),
        ensures
            final(self).wf(),
            final(self).expr_entries() == old(self).expr_entries().union_prefer_right(other.expr_entries()),
            final(self).local_entries() == old(self).local_entries().union_prefer_right(other.local_entries()),
    {
        self.exprs.absorb(&other.exprs);
        self.locals.absorb(&other.locals);
    }
}

} // verus!
