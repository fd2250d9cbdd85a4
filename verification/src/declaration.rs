//! Evaluated integer values consumed while declarations are shaped.
//!
//! The evaluator does not live here: each retained expression is evaluated elsewhere
//! and only the resulting integers come back through this map, so no second evaluator
//! appears in semantic analysis.

use vstd::prelude::*;
use crate::hir::{ExprId, ExprScope, Span};
use crate::map::{expr_key, expr_key_of, span_key, span_key_of};
use crate::table::Table;

verus! {

/// Integer values available while resolving declaration shapes.
pub struct DeclarationValues {
    ints: Table<i128>,
    spans: Table<i128>,
}

impl DeclarationValues {
    /// The values recorded by arena identity, by packed expression key.
    pub closed spec fn by_expr(&self) -> Map<u128, i128> {
        self.ints.view()
    }

    /// The values recorded by source span, by packed span key.
    pub closed spec fn by_span(&self) -> Map<u128, i128> {
        self.spans.view()
    }

    /// Both tables are well formed.
    pub closed spec fn wf(&self) -> bool {
        self.ints.wf() && self.spans.wf()
    }

    /// The value recorded for an expression, if any.
    pub open spec fn spec_int(&self, scope: ExprScope, expr: ExprId) -> Option<i128> {
        if self.by_expr().contains_key(expr_key(scope, expr)) {
            Some(self.by_expr()[expr_key(scope, expr)])
        } else {
            None
        }
    }

    /// No value recorded.
    pub fn new() -> (r: DeclarationValues)
        ensures
            r.wf(),
            r.by_expr() == Map::<u128, i128>::empty(),
            r.by_span() == Map::<u128, i128>::empty(),
    {
        DeclarationValues { ints: Table::new(), spans: Table::new() }
    }

    /// Records one evaluated expression.
    pub fn insert_int(&mut self, scope: ExprScope, expr: ExprId, value: i128)
        requires
            old(self).wf(),
        ensures
            final(self).wf(),
            final(self).by_expr() == old(self).by_expr().insert(expr_key(scope, expr), value),
            final(self).by_span() == old(self).by_span(),
    {
        self.ints.insert(expr_key_of(scope, expr), value);
    }

    /// Records one evaluated expression under both its arena identity and its span.
    pub fn insert_int_at(&mut self, scope: ExprScope, expr: ExprId, span: Span, value: i128)
        requires
            old(self).wf(),
        ensures
            final(self).wf(),
            final(self).by_expr() == old(self).by_expr().insert(expr_key(scope, expr), value),
            final(self).by_span() == old(self).by_span().insert(span_key(span), value),
    {
        self.insert_int(scope, expr, value);
        self.spans.insert(span_key_of(span), value);
    }

    /// The evaluated integer for one expression.
    pub fn int_of(&self, scope: ExprScope, expr: ExprId) -> (r: Option<i128>)
        ensures
            r == self.spec_int(scope, expr),
    {
        self.ints.get(expr_key_of(scope, expr))
    }

    /// An evaluated integer, preferring the source span: expansion may put a different
    /// expression at the arena index this value was recorded under, and the span
    /// survives it. The arena key is the fallback for an expression with no span entry.
    pub fn int_at(&self, scope: ExprScope, expr: ExprId, span: Span) -> (r: Option<i128>)
        ensures
            r == (if self.by_span().contains_key(span_key(span)) {
                Some(self.by_span()[span_key(span)])
            } else {
                self.spec_int(scope, expr)
            }),
    {
        match self.spans.get(span_key_of(span)) {
            Some(v) => Some(v),
            None => self.int_of(scope, expr),
        }
    }
}

} // verus!
