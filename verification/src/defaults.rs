//! Parameter defaults: a default is a literal, interned as a value of its parameter's
//! type when it fits that type, and a parameter written without a type takes the type
//! its default literal has on its own.

use vstd::prelude::*;
use crate::ctx::{Code, Ctx, concat3, pushed};
use crate::hir::{Expr, ExprScope, FileHir, Literal, Param, Span, expr_at, spec_expr_at};
use crate::ints::{literal_fits, spec_int_max, spec_int_min};
use crate::pool::{PoolId, Shape, TypeItem, BOOL, ERROR, S64, STRING, spec_int_info, spec_pointee};

verus! {

/// The value a literal default interns to for a parameter of type `ty`, or `None` when
/// the literal cannot be a value of that type.
pub open spec fn spec_default_value(items: Seq<Shape>, literal: Literal, ty: PoolId) -> Option<Shape> {
    match literal {
        Literal::Bool(b) => if ty == BOOL { Some(Shape::BoolValue(b)) } else { None },
        Literal::Str(text) => if ty == STRING { Some(Shape::StrValue(text@)) } else { None },
        Literal::Int(value) => match spec_int_info(items, ty) {
            Some((signed, bits)) => if spec_int_min(signed, bits) <= value <= spec_int_max(signed, bits) {
                Some(Shape::IntValue { ty, value })
            } else {
                None
            },
            None => None,
        },
        Literal::Null => if spec_pointee(items, ty) is Some {
            Some(Shape::IntValue { ty, value: 0 })
        } else {
            None
        },
    }
}

/// The diagnostic a literal default for a parameter of type `ty` draws: a literal of
/// the wrong kind is a mismatch, an integer out of range does not fit, and an integer
/// default for a parameter that is not an integer is left to the mismatch the
/// parameter's own annotation already drew.
pub open spec fn default_code(items: Seq<Shape>, literal: Literal, ty: PoolId) -> Option<Code> {
    match literal {
        Literal::Bool(_) => if ty == BOOL { None } else { Some(Code::E0214) },
        Literal::Str(_) => if ty == STRING { None } else { Some(Code::E0214) },
        Literal::Int(value) => match spec_int_info(items, ty) {
            Some((signed, bits)) => if spec_int_min(signed, bits) <= value <= spec_int_max(signed, bits) {
                None
            } else {
                Some(Code::E0204)
            },
            None => None,
        },
        Literal::Null => if spec_pointee(items, ty) is Some { None } else { Some(Code::E0214) },
    }
}

/// What a parameter's default is: `None` when it has none, `Some(None)` when it is not
/// a literal, and the literal and its span otherwise.
pub open spec fn spec_default_literal(hir: &FileHir, param: Param) -> Option<Option<(Literal, Span)>> {
    match param.default {
        None => None,
        Some(e) => match spec_expr_at(hir, ExprScope::TopLevel, e) {
            Some(Expr::Literal(literal, span)) => Some(Some((literal, span))),
            _ => Some(None),
        },
    }
}

/// The type a parameter written without one takes from its default: an integer is
/// `s64`, a `bool` and a `string` are themselves, and `null`, which has no type of its
/// own, gives none. A default that is not a literal leaves the type unknown.
pub open spec fn spec_inferred_param_type(hir: &FileHir, param: Param) -> Option<PoolId> {
    match spec_default_literal(hir, param) {
        Some(Some((Literal::Int(_), _))) => Some(S64),
        Some(Some((Literal::Bool(_), _))) => Some(BOOL),
        Some(Some((Literal::Str(_), _))) => Some(STRING),
        Some(Some((Literal::Null, _))) => None,
        _ => Some(ERROR),
    }
}

/// The value a parameter of type `ty` defaults to: its literal default as a value of
/// `ty`, when it has one, the literal fits, and the procedure is not `#foreign`.
pub open spec fn spec_param_default(items: Seq<Shape>, hir: &FileHir, param: Param, ty: PoolId, foreign: bool) -> Option<Shape> {
    if foreign {
        None
    } else {
        match spec_default_literal(hir, param) {
            Some(Some((literal, _))) => spec_default_value(items, literal, ty),
            _ => None,
        }
    }
}

/// Interning more types does not change what a default of an already interned type is.
pub proof fn lemma_default_value_stable(before: Seq<Shape>, after: Seq<Shape>, literal: Literal, ty: PoolId)
    requires
        ty < before.len() <= after.len(),
        forall|k: int| 0 <= k < before.len() ==> after[k] == before[k],
    ensures
        spec_default_value(after, literal, ty) == spec_default_value(before, literal, ty),
        default_code(after, literal, ty) == default_code(before, literal, ty),
{
    assert(after[ty as int] == before[ty as int]);
}

impl<'a> Ctx<'a> {
    /// Reports a default whose literal kind is not its parameter's type.
    pub fn expect_default(&mut self, declared: PoolId, actual: PoolId, span: Span) -> (r: bool)
        requires
            old(self).inv(),
            declared < old(self).pool@.len(),
            actual < old(self).pool@.len(),
        ensures
            final(self).grows_from(old(self)),
            final(self).only_diags_changed(old(self)),
            r == (declared == actual),
            r ==> final(self).diags@ == old(self).diags@,
            !r ==> pushed(old(self).diags@, final(self).diags@, Code::E0214, span),
    {
        if declared == actual {
            return true;
        }
        let want = self.describe(declared);
        let got = self.describe(actual);
        let mut message = concat3("a default of type `", got.as_str(), "` cannot be used for a `");
        message.append(want.as_str());
        message.append("` parameter");
        self.report(Code::E0214, span, message);
        false
    }

    /// Interns a literal default as a value of the parameter type `ty`, reporting a
    /// literal of the wrong kind (E0214) or an integer out of `ty`'s range (E0204).
    pub fn intern_default(&mut self, literal: &Literal, ty: PoolId, span: Span) -> (r: Option<PoolId>)
        requires
            old(self).inv(),
            ty < old(self).pool@.len(),
        ensures
            final(self).grows_from(old(self)),
            final(self).sigs == old(self).sigs,
            final(self).types == old(self).types,
            r is Some <==> spec_default_value(old(self).pool@, *literal, ty) is Some,
            r matches Some(v) ==> v < final(self).pool@.len() && final(self).pool@[v as int] == spec_default_value(
                old(self).pool@,
                *literal,
                ty,
            )->0,
            match default_code(old(self).pool@, *literal, ty) {
                Some(code) => pushed(old(self).diags@, final(self).diags@, code, span),
                None => final(self).diags@ == old(self).diags@,
            },
    {
        proof {
            reveal_strlit("a `null` default cannot be used for a `");
            reveal_strlit("` parameter");
        }
        match literal {
            Literal::Bool(value) => {
                if !self.expect_default(ty, BOOL, span) {
                    return None;
                }
                Some(self.intern_type(TypeItem::BoolValue(*value)))
            },
            Literal::Str(text) => {
                if !self.expect_default(ty, STRING, span) {
                    return None;
                }
                Some(self.intern_type(TypeItem::StrValue(text.clone())))
            },
            Literal::Int(value) => {
                match self.pool.int_info(ty) {
                    None => None,
                    Some((signed, bits)) => {
                        proof {
                            assert(crate::ctx::int_widths_valid(self.pool@));
                            assert(self.pool@[ty as int] matches Shape::Int { .. });
                        }
                        if !literal_fits(signed, bits, *value) {
                            let text = self.describe(ty);
                            let message = concat3("the default value does not fit in `", text.as_str(), "`");
                            self.report(Code::E0204, span, message);
                            return None;
                        }
                        Some(self.intern_type(TypeItem::IntValue { ty, value: *value }))
                    },
                }
            },
            Literal::Null => {
                if self.pool.pointee(ty).is_none() {
                    let want = self.describe(ty);
                    let message = concat3("a `null` default cannot be used for a `", want.as_str(), "` parameter");
                    self.report(Code::E0214, span, message);
                    return None;
                }
                Some(self.intern_type(TypeItem::IntValue { ty, value: 0 }))
            },
        }
    }

    /// A parameter's default, interned as a value of its type `ty`. A `#foreign`
    /// procedure's parameter cannot have one (E0252): the C function's own callers are
    /// not this compiler's to fill in. Nor can a default be anything but a literal
    /// (E0252), because constants are evaluated after signatures.
    pub fn param_default(&mut self, param: &Param, ty: PoolId, foreign: bool) -> (r: Option<PoolId>)
        requires
            old(self).inv(),
            ty < old(self).pool@.len(),
        ensures
            final(self).grows_from(old(self)),
            final(self).sigs == old(self).sigs,
            final(self).types == old(self).types,
            match spec_default_literal(old(self).hir, *param) {
                None => r is None && final(self).diags@ == old(self).diags@,
                Some(_) if foreign => r is None && pushed(old(self).diags@, final(self).diags@, Code::E0252, param.span),
                Some(None) => r is None && pushed(old(self).diags@, final(self).diags@, Code::E0252, param.span),
                Some(Some((literal, span))) => {
                    &&& (r is Some <==> spec_default_value(old(self).pool@, literal, ty) is Some)
                    &&& (r matches Some(v) ==> v < final(self).pool@.len() && final(self).pool@[v as int]
                        == spec_default_value(old(self).pool@, literal, ty)->0)
                    &&& match default_code(old(self).pool@, literal, ty) {
                        Some(code) => pushed(old(self).diags@, final(self).diags@, code, span),
                        None => final(self).diags@ == old(self).diags@,
                    }
                },
            },
    {
        let expr = match param.default {
            None => {
                return None;
            },
            Some(e) => e,
        };
        if foreign {
            let message = "a `#foreign` parameter cannot have a default value".to_owned();
            let note = "the C function's own call sites are not Jairs's to fill in".to_owned();
            self.report_with_note(Code::E0252, param.span, message, note);
            return None;
        }
        let hir = self.hir;
        let literal = match expr_at(hir, ExprScope::TopLevel, expr) {
            Some(Expr::Literal(literal, span)) => Some((literal, *span)),
            _ => None,
        };
        match literal {
            None => {
                let mut notes: Vec<String> = Vec::new();
                notes.push("constants are evaluated after signatures are resolved, so a signature cannot depend on one".to_owned());
                let help = Some("write the value directly, as in `= 10`".to_owned());
                self.report_full(Code::E0252, param.span, "a default value must be a literal".to_owned(), notes, help);
                None
            },
            Some((literal, span)) => self.intern_default(literal, ty, span),
        }
    }

    /// The type of a parameter written without one: the type its literal default has on
    /// its own. `null` has none and says so (E0257), giving `None`.
    pub fn inferred_param_type(&mut self, param: &Param) -> (r: Option<PoolId>)
        requires
            old(self).inv(),
        ensures
            final(self).grows_from(old(self)),
            final(self).only_diags_changed(old(self)),
            r == spec_inferred_param_type(old(self).hir, *param),
            r is None ==> pushed(old(self).diags@, final(self).diags@, Code::E0257, param.span),
            r is Some ==> final(self).diags@ == old(self).diags@,
    {
        let expr = match param.default {
            None => {
                return Some(ERROR);
            },
            Some(e) => e,
        };
        let hir = self.hir;
        match expr_at(hir, ExprScope::TopLevel, expr) {
            Some(Expr::Literal(Literal::Int(_), _)) => Some(S64),
            Some(Expr::Literal(Literal::Bool(_), _)) => Some(BOOL),
            Some(Expr::Literal(Literal::Str(_), _)) => Some(STRING),
            Some(Expr::Literal(Literal::Null, _)) => {
                self.check_null_literal(None, param.span);
                None
            },
            _ => Some(ERROR),
        }
    }
}

} // verus!
