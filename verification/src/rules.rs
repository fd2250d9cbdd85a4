//! The typing rules of the builtin operators and of calls, decided from operand types
//! that are already known. The judgments that type the operands call these, so each
//! rule is stated once, exactly: the type it gives and the diagnostics it raises.

use vstd::prelude::*;
use crate::ctx::{Code, Ctx, Diagnostic, concat3, mismatch_code, pushed, spec_expect, spec_unify, expect_mismatch, unify_mismatch};
use crate::hir::{BinOp, Span};
use crate::ints::{push_decimal, push_digits};
use crate::pool::{PoolId, Shape, TypeItem, ERROR, BOOL, STRING, spec_int_info, spec_pointee};
use crate::scope::spec_is_aggregate;

verus! {

/// `new` is `old` with one diagnostic for each of `codes` appended, all at `span`.
pub open spec fn appended(old: Seq<Diagnostic>, new: Seq<Diagnostic>, codes: Seq<Code>, span: Span) -> bool {
    &&& new.len() == old.len() + codes.len()
    &&& forall|k: int| 0 <= k < old.len() ==> #[trigger] new[k] == old[k]
    &&& forall|k: int| 0 <= k < codes.len() ==> #[trigger] new[old.len() + k].code == codes[k] && new[old.len()
        + k].span == span
}

/// The diagnostic `expect` raises: E0214 for a real expectation a real type contradicts.
pub open spec fn expect_codes(items: Seq<Shape>, expected: Option<PoolId>, actual: PoolId) -> Seq<Code> {
    if expect_mismatch(expected, actual) {
        seq![mismatch_code(items, expected->0, actual)]
    } else {
        Seq::empty()
    }
}

/// Whether `t` is an integer type or an `enum_flags` type: what `&`, `|`, `^` and `~`
/// accept.
pub open spec fn spec_bitwise_operand(items: Seq<Shape>, t: PoolId) -> bool {
    spec_int_info(items, t) is Some || (items[t as int] matches Shape::Enum { flags, .. } && flags)
}

/// The type of `value << count` or `value >> count`: the value's type, when both are
/// integers.
pub open spec fn spec_shift(items: Seq<Shape>, value: PoolId, count: PoolId, expected: Option<PoolId>) -> PoolId {
    if value != ERROR && spec_int_info(items, value) is None {
        ERROR
    } else if count != ERROR && spec_int_info(items, count) is None {
        ERROR
    } else {
        spec_expect(expected, value)
    }
}

/// The diagnostics of a shift: E0223 for a value or a count that is not an integer.
pub open spec fn shift_codes(items: Seq<Shape>, value: PoolId, count: PoolId, expected: Option<PoolId>) -> Seq<Code> {
    if value != ERROR && spec_int_info(items, value) is None {
        seq![Code::E0223]
    } else if count != ERROR && spec_int_info(items, count) is None {
        seq![Code::E0223]
    } else {
        expect_codes(items, expected, value)
    }
}

/// The type of `&`, `|` or `^`: the operands' common type, when it is an integer or a
/// flags enum.
pub open spec fn spec_bitwise(items: Seq<Shape>, left: PoolId, right: PoolId, expected: Option<PoolId>) -> PoolId {
    let u = spec_unify(left, right);
    if u != ERROR && !spec_bitwise_operand(items, u) {
        ERROR
    } else {
        spec_expect(expected, u)
    }
}

/// The diagnostics of `&`, `|` or `^`: E0214 for operands of different types, E0223 for
/// a common type with no bits to combine.
pub open spec fn bitwise_codes(items: Seq<Shape>, left: PoolId, right: PoolId, expected: Option<PoolId>) -> Seq<Code> {
    let u = spec_unify(left, right);
    if unify_mismatch(left, right) {
        seq![Code::E0214]
    } else if u != ERROR && !spec_bitwise_operand(items, u) {
        seq![Code::E0223]
    } else {
        expect_codes(items, expected, u)
    }
}

/// The type of an arithmetic operation on two numbers: their common type, when it is an
/// integer.
pub open spec fn spec_arithmetic(items: Seq<Shape>, left: PoolId, right: PoolId, expected: Option<PoolId>) -> PoolId {
    let u = spec_unify(left, right);
    if u == ERROR {
        spec_expect(expected, ERROR)
    } else if spec_int_info(items, u) is None {
        ERROR
    } else {
        spec_expect(expected, u)
    }
}

/// The diagnostics of an arithmetic operation on two numbers.
pub open spec fn arithmetic_codes(items: Seq<Shape>, left: PoolId, right: PoolId, expected: Option<PoolId>) -> Seq<
    Code,
> {
    let u = spec_unify(left, right);
    if unify_mismatch(left, right) {
        seq![Code::E0214]
    } else if u == ERROR {
        Seq::empty()
    } else if spec_int_info(items, u) is None {
        seq![Code::E0223]
    } else {
        expect_codes(items, expected, u)
    }
}

/// The type of `==` or `!=`: `bool`, and `bool` too for the aggregates it refuses.
pub open spec fn spec_equality(items: Seq<Shape>, left: PoolId, right: PoolId, expected: Option<PoolId>) -> PoolId {
    let u = spec_unify(left, right);
    if u != ERROR && spec_is_aggregate(items, u) {
        BOOL
    } else {
        spec_expect(expected, BOOL)
    }
}

/// The diagnostics of `==` or `!=`: E0214 for operands of different types, E0278 for an
/// aggregate, and E0214 for a context that is not `bool`.
pub open spec fn equality_codes(items: Seq<Shape>, left: PoolId, right: PoolId, expected: Option<PoolId>) -> Seq<Code> {
    let u = spec_unify(left, right);
    let first = if unify_mismatch(left, right) {
        seq![Code::E0214]
    } else {
        Seq::empty()
    };
    if u != ERROR && spec_is_aggregate(items, u) {
        first.push(Code::E0278)
    } else {
        first + expect_codes(items, expected, BOOL)
    }
}

/// The diagnostics of `<`, `<=`, `>` or `>=`: E0214 for operands of different types,
/// E0223 for a common type that is not a number, and E0214 for a context that is not
/// `bool`. The type is always the context's reading of `bool`.
pub open spec fn ordering_codes(items: Seq<Shape>, left: PoolId, right: PoolId, expected: Option<PoolId>) -> Seq<Code> {
    let u = spec_unify(left, right);
    let first = if unify_mismatch(left, right) {
        seq![Code::E0214]
    } else {
        Seq::empty()
    };
    let second = if u != ERROR && spec_int_info(items, u) is None {
        seq![Code::E0223]
    } else {
        Seq::empty()
    };
    first + second + expect_codes(items, expected, BOOL)
}

/// The type of `p + n`, `n + p` or `p - n`, or `None` when neither operand is a pointer.
pub open spec fn spec_pointer_arithmetic(items: Seq<Shape>, op: BinOp, left: PoolId, right: PoolId) -> Option<PoolId> {
    let lp = spec_pointee(items, left) is Some;
    let rp = spec_pointee(items, right) is Some;
    if !lp && !rp {
        None
    } else if lp && rp {
        Some(ERROR)
    } else if lp {
        if spec_int_info(items, right) is Some {
            Some(left)
        } else {
            Some(ERROR)
        }
    } else if op == BinOp::Add && spec_int_info(items, left) is Some {
        Some(right)
    } else {
        Some(ERROR)
    }
}

/// The type of a call whose callee has type `callee`: its return type, when it is a
/// procedure type.
pub open spec fn spec_call(items: Seq<Shape>, callee: PoolId) -> PoolId {
    match items[callee as int] {
        Shape::Proc { ret, .. } => ret,
        _ => ERROR,
    }
}

/// The first diagnostic of a call whose callee has type `callee` and which supplies
/// `args` arguments: E0215 for a callee that is not a procedure, E0216 for the wrong
/// number of arguments.
pub open spec fn call_codes(items: Seq<Shape>, callee: PoolId, args: nat) -> Option<Code> {
    match items[callee as int] {
        Shape::Proc { params, .. } => if params.len() != args {
            Some(Code::E0216)
        } else {
            None
        },
        _ => if callee != ERROR {
            Some(Code::E0215)
        } else {
            None
        },
    }
}


/// Poison is silent: an operand that could not be typed never makes an operator report
/// anything, in either position; only a context that the operator's own type
/// contradicts can, and an operand's poison reaches the result.
pub proof fn lemma_poisoned_operands_are_silent(items: Seq<Shape>, other: PoolId, expected: Option<PoolId>)
    ensures
        expect_codes(items, expected, ERROR) == Seq::<Code>::empty(),
        expect_codes(items, Some(ERROR), other) == Seq::<Code>::empty(),
        bitwise_codes(items, ERROR, other, expected) == Seq::<Code>::empty(),
        bitwise_codes(items, other, ERROR, expected) == Seq::<Code>::empty(),
        arithmetic_codes(items, ERROR, other, expected) == Seq::<Code>::empty(),
        arithmetic_codes(items, other, ERROR, expected) == Seq::<Code>::empty(),
        equality_codes(items, ERROR, other, expected) == expect_codes(items, expected, BOOL),
        equality_codes(items, other, ERROR, expected) == expect_codes(items, expected, BOOL),
        ordering_codes(items, ERROR, other, expected) == expect_codes(items, expected, BOOL),
        ordering_codes(items, other, ERROR, expected) == expect_codes(items, expected, BOOL),
        shift_codes(items, ERROR, ERROR, expected) == Seq::<Code>::empty(),
        spec_bitwise(items, ERROR, other, expected) == spec_expect(expected, ERROR),
        spec_arithmetic(items, other, ERROR, expected) == spec_expect(expected, ERROR),
        spec_shift(items, ERROR, ERROR, expected) == spec_expect(expected, ERROR),
{
    assert(Seq::<Code>::empty() + expect_codes(items, expected, BOOL) =~= expect_codes(items, expected, BOOL));
    assert(Seq::<Code>::empty() + Seq::<Code>::empty() + expect_codes(items, expected, BOOL) =~= expect_codes(items, expected, BOOL));
}

/// What indexing a value of (pointer-stripped) type `base` reaches: the element type and,
/// for an array, its length.
pub open spec fn spec_indexable(items: Seq<Shape>, base: PoolId) -> Option<(PoolId, Option<u64>)> {
    match items[base as int] {
        Shape::Array { elem, len } => Some((elem, Some(len))),
        Shape::View { elem } => Some((elem, None)),
        _ => None,
    }
}

/// The type of `base[index]`: the element type, or the poison type when the base
/// cannot be indexed.
pub open spec fn spec_index(items: Seq<Shape>, base: PoolId) -> PoolId {
    match spec_indexable(items, base) {
        Some((elem, _)) => elem,
        None => ERROR,
    }
}

/// The diagnostic indexing raises, if any: a base that cannot be indexed (E0234), an
/// index that is not an integer (E0235), or a literal index outside an array (E0236).
/// Poison raises none.
pub open spec fn index_code(items: Seq<Shape>, base: PoolId, index: PoolId, literal: Option<i128>) -> Option<Code> {
    match spec_indexable(items, base) {
        None => if base == ERROR { None } else { Some(Code::E0234) },
        Some((_, len)) => if index != ERROR && !(items[index as int] is Int) {
            Some(Code::E0235)
        } else {
            match (len, literal) {
                (Some(n), Some(v)) => if v < 0 || v >= n { Some(Code::E0236) } else { None },
                _ => None,
            }
        },
    }
}

/// The type of `base[]`: a view of the array's elements, or the poison type.
pub open spec fn spec_slice(items: Seq<Shape>, base: PoolId) -> Option<Shape> {
    match items[base as int] {
        Shape::Array { elem, .. } => Some(Shape::View { elem }),
        _ => None,
    }
}

/// The element type a `for` over a value of (pointer-stripped) type `seq` binds: an
/// array's or a view's element.
pub open spec fn spec_iterated(items: Seq<Shape>, seq: PoolId) -> Option<PoolId> {
    match items[seq as int] {
        Shape::Array { elem, .. } => Some(elem),
        Shape::View { elem } => Some(elem),
        _ => None,
    }
}

/// What a destructuring of `want` targets receives from a value of type `ty`: the
/// results, one per target, when there are exactly that many, and poison for each
/// otherwise.
pub open spec fn spec_destructured(items: Seq<Shape>, ty: PoolId, want: nat) -> Seq<PoolId> {
    match items[ty as int] {
        Shape::Results { elems } => if ty != ERROR && elems.len() == want {
            elems
        } else {
            Seq::new(want, |k: int| ERROR)
        },
        _ => Seq::new(want, |k: int| ERROR),
    }
}

/// Whether a destructuring of `want` targets from a value of type `ty` is refused
/// (E0251): the value is not several results, or not that many. Poison is silent.
pub open spec fn destructuring_refused(items: Seq<Shape>, ty: PoolId, want: nat) -> bool {
    ty != ERROR && match items[ty as int] {
        Shape::Results { elems } => elems.len() != want,
        _ => true,
    }
}

impl<'a> Ctx<'a> {
    /// Decides what a destructuring statement of `want` targets receives from a value of
    /// type `ty`: one result per target, or poison for each when the value is not that
    /// many results (E0251, unless the value is itself poison).
    pub fn decide_destructuring(&mut self, ty: PoolId, want: usize, span: Span) -> (r: Vec<PoolId>)
        requires
            old(self).inv(),
            ty < old(self).pool@.len(),
        ensures
            final(self).grows_from(old(self)),
            final(self).only_diags_changed(old(self)),
            r@ == spec_destructured(old(self).pool@, ty, want as nat),
            forall|k: int| 0 <= k < r@.len() ==> r@[k] < final(self).pool@.len(),
            destructuring_refused(old(self).pool@, ty, want as nat) ==> pushed(old(self).diags@, final(self).diags@, Code::E0251, span),
            !destructuring_refused(old(self).pool@, ty, want as nat) ==> final(self).diags@ == old(self).diags@,
    {
        proof {
            assert(crate::pool::refers_below(self.pool@[ty as int], ty as int));
            assert(crate::pool::well_known_prefix(self.pool@));
        }
        let mut poison: Vec<PoolId> = Vec::new();
        let mut k: usize = 0;
        while k < want
            invariant
                k <= want,
                poison@ == Seq::new(k as nat, |j: int| ERROR),
            decreases want - k,
        {
            poison.push(ERROR);
            k = k + 1;
            proof {
                assert(poison@ =~= Seq::new(k as nat, |j: int| ERROR));
            }
        }
        if ty == ERROR {
            return poison;
        }
        let elems = match self.pool.item(ty) {
            TypeItem::ResultsType { elems } => crate::sigs::copy_ids(elems),
            _ => {
                let text = self.describe(ty);
                let mut message = "this call returns one value of type `".to_owned();
                message.append(text.as_str());
                message.append("`, not ");
                push_digits(&mut message, want as u128);
                let mut notes: Vec<String> = Vec::new();
                notes.push("a destructuring statement needs a procedure returning several values".to_owned());
                notes.push("for a single result, write `x := f();`".to_owned());
                self.report_full(Code::E0251, span, message, notes, None);
                return poison;
            },
        };
        proof {
            let sh = self.pool@[ty as int];
            assert(sh->elems == elems@);
            assert forall|j: int| 0 <= j < elems@.len() implies elems@[j] < self.pool@.len() by {
                assert(sh->elems[j] < ty as int);
            }
        }
        if elems.len() != want {
            let text = self.describe(ty);
            let mut message = "this call returns ".to_owned();
            push_digits(&mut message, elems.len() as u128);
            message.append(" values, but ");
            push_digits(&mut message, want as u128);
            if want == 1 {
                message.append(" is named");
            } else {
                message.append(" are named");
            }
            let mut notes: Vec<String> = Vec::new();
            notes.push(concat3("it returns `", text.as_str(), "`"));
            notes.push("the counts must match exactly; write `_` to discard a result you do not want".to_owned());
            self.report_full(Code::E0251, span, message, notes, None);
            return poison;
        }
        elems
    }

    /// Decides what a `for` over a value of type `seq`, pointers followed, binds: the
    /// element type, or poison, having reported E0247 unless `seq` is itself poison.
    pub fn decide_iteration(&mut self, seq: PoolId, span: Span) -> (r: PoolId)
        requires
            old(self).inv(),
            seq < old(self).pool@.len(),
        ensures
            final(self).grows_from(old(self)),
            final(self).only_diags_changed(old(self)),
            r < final(self).pool@.len(),
            r == match spec_iterated(old(self).pool@, seq) {
                Some(elem) => elem,
                None => ERROR,
            },
            spec_iterated(old(self).pool@, seq) is None && seq != ERROR ==> pushed(
                old(self).diags@,
                final(self).diags@,
                Code::E0247,
                span,
            ),
            spec_iterated(old(self).pool@, seq) is Some || seq == ERROR ==> final(self).diags@ == old(self).diags@,
    {
        proof {
            assert(crate::pool::refers_below(self.pool@[seq as int], seq as int));
        }
        match self.pool.item(seq) {
            TypeItem::ArrayType { elem, .. } => *elem,
            TypeItem::ViewType { elem } => *elem,
            _ => {
                if seq != ERROR {
                    let text = self.describe(seq);
                    let message = concat3("cannot iterate over a value of type `", text.as_str(), "`");
                    let mut notes: Vec<String> = Vec::new();
                    notes.push("a `for` iterates a fixed-size array `[N]T`, a view `[]T`, or a range `a..b`".to_owned());
                    let help = Some(
                        "a user type cannot be iterated: the macros such a protocol would be built on exist, but no iteration protocol is defined and no wave owns one".to_owned(),
                    );
                    self.report_full(Code::E0247, span, message, notes, help);
                }
                ERROR
            },
        }
    }

    /// Requires an end of a range to be an integer (E0247); poison is silent.
    pub fn check_range_end(&mut self, ty: PoolId, which: &str, span: Span)
        requires
            old(self).inv(),
            ty < old(self).pool@.len(),
        ensures
            final(self).grows_from(old(self)),
            final(self).only_diags_changed(old(self)),
            ty != ERROR && spec_int_info(old(self).pool@, ty) is None ==> pushed(
                old(self).diags@,
                final(self).diags@,
                Code::E0247,
                span,
            ),
            ty == ERROR || spec_int_info(old(self).pool@, ty) is Some ==> final(self).diags@ == old(self).diags@,
    {
        if ty != ERROR && self.pool.int_info(ty).is_none() {
            let text = self.describe(ty);
            let mut message = "the ".to_owned();
            message.append(which);
            message.append(" of a range must be an integer, not `");
            message.append(text.as_str());
            message.append("`");
            self.report(Code::E0247, span, message);
        }
    }

    /// `ty` with every pointer followed.
    pub fn strip_pointers(&self, ty: PoolId) -> (r: PoolId)
        requires
            self.inv(),
            ty < self.pool@.len(),
        ensures
            r == crate::typing::spec_strip(self.pool@, ty),
            r < self.pool@.len(),
            spec_pointee(self.pool@, r) is None,
    {
        let mut t = ty;
        loop
            invariant
                self.inv(),
                t < self.pool@.len(),
                crate::typing::spec_strip(self.pool@, t) == crate::typing::spec_strip(self.pool@, ty),
            ensures
                spec_pointee(self.pool@, t) is None,
            decreases t,
        {
            match self.pool.pointee(t) {
                Some(inner) => {
                    proof {
                        assert(crate::pool::refers_below(self.pool@[t as int], t as int));
                    }
                    t = inner;
                },
                None => {
                    break;
                },
            }
        }
        t
    }

    /// Decides `base[index]` from the types of the base, with its pointers followed, and
    /// of the index, and from the index's value when it is an integer literal.
    pub fn decide_index(&mut self, base: PoolId, index: PoolId, literal: Option<i128>, index_span: Span, span: Span) -> (r:
        PoolId)
        requires
            old(self).inv(),
            base < old(self).pool@.len(),
            index < old(self).pool@.len(),
            spec_pointee(old(self).pool@, base) is None,
        ensures
            final(self).grows_from(old(self)),
            final(self).only_diags_changed(old(self)),
            r == spec_index(old(self).pool@, base),
            r < final(self).pool@.len(),
            match index_code(old(self).pool@, base, index, literal) {
                Some(Code::E0234) => pushed(old(self).diags@, final(self).diags@, Code::E0234, span),
                Some(code) => pushed(old(self).diags@, final(self).diags@, code, index_span),
                None => final(self).diags@ == old(self).diags@,
            },
    {
        proof {
            assert(crate::pool::refers_below(self.pool@[base as int], base as int));
        }
        let parts = match self.pool.item(base) {
            TypeItem::ArrayType { elem, len } => Some((*elem, Some(*len))),
            TypeItem::ViewType { elem } => Some((*elem, None)),
            _ => None,
        };
        let (elem, len) = match parts {
            None => {
                if base != ERROR {
                    let text = self.describe(base);
                    let message = concat3("cannot index a value of type `", text.as_str(), "`");
                    let mut notes: Vec<String> = Vec::new();
                    notes.push("only a fixed-size array `[N]T` and a view `[]T` can be indexed".to_owned());
                    let help = Some("dynamic arrays `[..]T` arrive in a later wave".to_owned());
                    self.report_full(Code::E0234, span, message, notes, help);
                }
                return ERROR;
            },
            Some(p) => p,
        };
        if index != ERROR && self.pool.int_info(index).is_none() {
            let text = self.describe(index);
            let message = concat3("an index must be an integer, not `", text.as_str(), "`");
            self.report(Code::E0235, index_span, message);
            return elem;
        }
        match (len, literal) {
            (Some(n), Some(v)) => {
                if v < 0 || v >= n as i128 {
                    let text = self.describe(base);
                    let mut message = "index ".to_owned();
                    push_decimal(&mut message, v);
                    message.append(" is out of range for `");
                    message.append(text.as_str());
                    message.append("`");
                    let note = if n == 0 {
                        "this array has no elements, so no index is in range".to_owned()
                    } else {
                        let mut note = "valid indices are 0 to ".to_owned();
                        push_digits(&mut note, (n - 1) as u128);
                        note
                    };
                    self.report_with_note(Code::E0236, index_span, message, note);
                }
            },
            _ => {},
        }
        elem
    }

    /// Decides `base[]` from the type of the base, with its pointers followed, and from
    /// whether the base names storage: only an array slices (E0239), into a view of its
    /// elements, and only one with storage, because the view points into it (E0239,
    /// the view's type kept).
    pub fn decide_slice(&mut self, base: PoolId, is_place: bool, span: Span) -> (r: PoolId)
        requires
            old(self).inv(),
            base < old(self).pool@.len(),
        ensures
            final(self).grows_from(old(self)),
            r < final(self).pool@.len(),
            match spec_slice(old(self).pool@, base) {
                Some(view) => final(self).pool@[r as int] == view && if is_place {
                    final(self).diags@ == old(self).diags@
                } else {
                    pushed(old(self).diags@, final(self).diags@, Code::E0239, span)
                },
                None => r == ERROR && if base == ERROR {
                    final(self).diags@ == old(self).diags@
                } else {
                    pushed(old(self).diags@, final(self).diags@, Code::E0239, span)
                },
            },
            final(self).types == old(self).types,
    {
        if base == ERROR {
            return ERROR;
        }
        proof {
            assert(crate::pool::refers_below(self.pool@[base as int], base as int));
        }
        let elem = match self.pool.item(base) {
            TypeItem::ArrayType { elem, .. } => *elem,
            other => {
                let is_view = match other {
                    TypeItem::ViewType { .. } => true,
                    _ => false,
                };
                let text = self.describe(base);
                let message = concat3("cannot slice a value of type `", text.as_str(), "`");
                let mut notes: Vec<String> = Vec::new();
                notes.push("`[]` makes a view over a fixed-size array `[N]T`".to_owned());
                let help = if is_view {
                    Some("this is already a view — drop the `[]`".to_owned())
                } else {
                    None
                };
                self.report_full(Code::E0239, span, message, notes, help);
                return ERROR;
            },
        };
        if !is_place {
            let mut notes: Vec<String> = Vec::new();
            notes.push("`[]` takes the address of its operand, so it needs storage".to_owned());
            let help = Some("assign it to a variable first, then slice that".to_owned());
            self.report_full(Code::E0239, span, "cannot slice this expression".to_owned(), notes, help);
        }
        self.intern_type(TypeItem::ViewType { elem })
    }
    /// Decides a shift from its operands' types (E0223 for either not an integer).
    pub fn decide_shift(&mut self, op: BinOp, value: PoolId, count: PoolId, expected: Option<PoolId>, span: Span) -> (r:
        PoolId)
        requires
            old(self).inv(),
            value < old(self).pool@.len(),
            count < old(self).pool@.len(),
            expected matches Some(w) ==> w < old(self).pool@.len(),
        ensures
            final(self).grows_from(old(self)),
            final(self).only_diags_changed(old(self)),
            r == spec_shift(old(self).pool@, value, count, expected),
            appended(old(self).diags@, final(self).diags@, shift_codes(old(self).pool@, value, count, expected), span),
    {
        if value != ERROR && self.pool.int_info(value).is_none() {
            let text = self.describe(value);
            if self.pool.is_flags(value) {
                self.reject_shift_on_flags(op, text.as_str(), span);
            } else {
                self.reject_bitwise(op, text.as_str(), span);
            }
            return ERROR;
        }
        if count != ERROR && self.pool.int_info(count).is_none() {
            let text = self.describe(count);
            let message = concat3("a shift count must be an integer, not `", text.as_str(), "`");
            self.report(Code::E0223, span, message);
            return ERROR;
        }
        self.expect(expected, value, span)
    }

    /// Decides `&`, `|` or `^` from its operands' types.
    pub fn decide_bitwise(&mut self, op: BinOp, left: PoolId, right: PoolId, expected: Option<PoolId>, span: Span) -> (r:
        PoolId)
        requires
            old(self).inv(),
            left < old(self).pool@.len(),
            right < old(self).pool@.len(),
            expected matches Some(w) ==> w < old(self).pool@.len(),
        ensures
            final(self).grows_from(old(self)),
            final(self).only_diags_changed(old(self)),
            r == spec_bitwise(old(self).pool@, left, right, expected),
            appended(old(self).diags@, final(self).diags@, bitwise_codes(old(self).pool@, left, right, expected), span),
    {
        let result = self.unify_operands(left, right, span);
        if result != ERROR && self.pool.int_info(result).is_none() && !self.pool.is_flags(result) {
            let text = self.describe(result);
            if self.pool.is_enum(result) {
                self.reject_bitwise_on_plain_enum(op, text.as_str(), span);
            } else {
                self.reject_bitwise(op, text.as_str(), span);
            }
            return ERROR;
        }
        self.expect(expected, result, span)
    }

    /// Decides an arithmetic operation on two non-pointer operands from their types.
    pub fn decide_arithmetic(&mut self, op: BinOp, left: PoolId, right: PoolId, expected: Option<PoolId>, span: Span) -> (r:
        PoolId)
        requires
            old(self).inv(),
            left < old(self).pool@.len(),
            right < old(self).pool@.len(),
            expected matches Some(w) ==> w < old(self).pool@.len(),
        ensures
            final(self).grows_from(old(self)),
            final(self).only_diags_changed(old(self)),
            r == spec_arithmetic(old(self).pool@, left, right, expected),
            appended(old(self).diags@, final(self).diags@, arithmetic_codes(old(self).pool@, left, right, expected), span),
    {
        let result = self.unify_operands(left, right, span);
        if result == ERROR {
            return self.expect(expected, result, span);
        }
        if self.pool.int_info(result).is_none() {
            let text = self.describe(result);
            if self.pool.is_enum(result) {
                self.reject_enum_operator(op, text.as_str(), span);
            } else {
                self.reject_operator(op, text.as_str(), span);
            }
            return ERROR;
        }
        self.expect(expected, result, span)
    }

    /// Decides `==` or `!=` from its operands' types.
    pub fn decide_equality(&mut self, op: BinOp, left: PoolId, right: PoolId, expected: Option<PoolId>, span: Span) -> (r:
        PoolId)
        requires
            old(self).inv(),
            left < old(self).pool@.len(),
            right < old(self).pool@.len(),
            expected matches Some(w) ==> w < old(self).pool@.len(),
        ensures
            final(self).grows_from(old(self)),
            final(self).only_diags_changed(old(self)),
            r == spec_equality(old(self).pool@, left, right, expected),
            appended(old(self).diags@, final(self).diags@, equality_codes(old(self).pool@, left, right, expected), span),
    {
        let ghost start = *self;
        let operand = self.unify_operands(left, right, span);
        let ghost mid = *self;
        if operand != ERROR && self.is_aggregate(operand) {
            let text = self.describe(operand);
            let message = concat3("`", crate::ops::bin_op_text(op), "` is not supported for `");
            let mut message = message;
            message.append(text.as_str());
            message.append("`");
            let note = if operand == STRING {
                "two strings could compare as the same bytes or as the same pointer, and Jairs does not pick one for you"
            } else {
                "an aggregate's equality would have to be field by field, and Jairs does not generate one for you"
            };
            let mut notes: Vec<String> = Vec::new();
            notes.push(note.to_owned());
            let help = "compare `.count`, or compare fields one at a time".to_owned();
            self.report_full(Code::E0278, span, message, notes, Some(help));
            proof {
                let codes = equality_codes(start.pool@, left, right, expected);
                assert(self.diags@.len() == start.diags@.len() + codes.len());
                assert forall|k: int| 0 <= k < codes.len() implies #[trigger] self.diags@[start.diags@.len() + k].code
                    == codes[k] && self.diags@[start.diags@.len() + k].span == span by {
                    if k + 1 < codes.len() {
                        assert(self.diags@[start.diags@.len() + k] == mid.diags@[start.diags@.len() + k]);
                    }
                }
            }
            return BOOL;
        }
        let r = self.expect(expected, BOOL, span);
        proof {
            let codes = equality_codes(start.pool@, left, right, expected);
            assert(self.diags@.len() == start.diags@.len() + codes.len());
            assert forall|k: int| 0 <= k < codes.len() implies #[trigger] self.diags@[start.diags@.len() + k].code
                == codes[k] && self.diags@[start.diags@.len() + k].span == span by {
                if k < mid.diags@.len() - start.diags@.len() {
                    assert(self.diags@[start.diags@.len() + k] == mid.diags@[start.diags@.len() + k]);
                }
            }
        }
        r
    }

    /// Decides `<`, `<=`, `>` or `>=` from its operands' types.
    pub fn decide_ordering(&mut self, op: BinOp, left: PoolId, right: PoolId, expected: Option<PoolId>, span: Span) -> (r:
        PoolId)
        requires
            old(self).inv(),
            left < old(self).pool@.len(),
            right < old(self).pool@.len(),
            expected matches Some(w) ==> w < old(self).pool@.len(),
        ensures
            final(self).grows_from(old(self)),
            final(self).only_diags_changed(old(self)),
            r == spec_expect(expected, BOOL),
            appended(old(self).diags@, final(self).diags@, ordering_codes(old(self).pool@, left, right, expected), span),
    {
        let ghost start = *self;
        let operand = self.unify_operands(left, right, span);
        let ghost mid = *self;
        if operand != ERROR && self.pool.int_info(operand).is_none() {
            let text = self.describe(operand);
            if self.pool.is_enum(operand) {
                self.reject_enum_operator(op, text.as_str(), span);
            } else {
                self.reject_operator(op, text.as_str(), span);
            }
        }
        let ghost mid2 = *self;
        let r = self.expect(expected, BOOL, span);
        proof {
            let codes = ordering_codes(start.pool@, left, right, expected);
            assert(self.diags@.len() == start.diags@.len() + codes.len());
            assert forall|k: int| 0 <= k < codes.len() implies #[trigger] self.diags@[start.diags@.len() + k].code
                == codes[k] && self.diags@[start.diags@.len() + k].span == span by {
                if k < mid.diags@.len() - start.diags@.len() {
                    assert(self.diags@[start.diags@.len() + k] == mid.diags@[start.diags@.len() + k]);
                    assert(self.diags@[start.diags@.len() + k] == mid2.diags@[start.diags@.len() + k]);
                } else if k < mid2.diags@.len() - start.diags@.len() {
                    assert(self.diags@[start.diags@.len() + k] == mid2.diags@[start.diags@.len() + k]);
                }
            }
        }
        r
    }

    /// Decides `p + n`, `n + p` and `p - n` from the operands' types; `None` when neither
    /// is a pointer, which leaves the numeric rule to decide.
    pub fn decide_pointer_arithmetic(&mut self, op: BinOp, left: PoolId, right: PoolId, span: Span) -> (r: Option<PoolId>)
        requires
            old(self).inv(),
            left < old(self).pool@.len(),
            right < old(self).pool@.len(),
        ensures
            final(self).grows_from(old(self)),
            final(self).only_diags_changed(old(self)),
            r == spec_pointer_arithmetic(old(self).pool@, op, left, right),
            r == Some(ERROR) ==> pushed(old(self).diags@, final(self).diags@, Code::E0223, span),
            r != Some(ERROR) ==> final(self).diags@ == old(self).diags@,
    {
        let left_ptr = self.pool.pointee(left).is_some();
        let right_ptr = self.pool.pointee(right).is_some();
        if !left_ptr && !right_ptr {
            return None;
        }
        if left_ptr && right_ptr {
            let text = self.describe(left);
            self.reject_operator(op, text.as_str(), span);
            return Some(ERROR);
        }
        if left_ptr {
            if self.pool.int_info(right).is_some() {
                return Some(left);
            }
            let text = self.describe(right);
            let message = concat3("a pointer can only be offset by an integer, not `", text.as_str(), "`");
            self.report(Code::E0223, span, message);
            return Some(ERROR);
        }
        if op == BinOp::Add && self.pool.int_info(left).is_some() {
            return Some(right);
        }
        let text = self.describe(left);
        if op == BinOp::Sub {
            let message = concat3("cannot subtract a pointer from `", text.as_str(), "`");
            let mut notes: Vec<String> = Vec::new();
            notes.push("write `p - n` to move a pointer back, not `n - p`".to_owned());
            self.report_full(Code::E0223, span, message, notes, None);
        } else {
            let message = concat3("a pointer can only be offset by an integer, not `", text.as_str(), "`");
            self.report(Code::E0223, span, message);
        }
        Some(ERROR)
    }

    /// Reports a call whose argument count differs from its parameter count (E0216).
    pub fn check_arity(&mut self, params: usize, args: usize, span: Span)
        requires
            old(self).inv(),
        ensures
            final(self).grows_from(old(self)),
            final(self).only_diags_changed(old(self)),
            params != args ==> pushed(old(self).diags@, final(self).diags@, Code::E0216, span),
            params == args ==> final(self).diags@ == old(self).diags@,
    {
        if params == args {
            return;
        }
        let mut message = "this procedure takes ".to_owned();
        push_digits(&mut message, params as u128);
        message.append(if params == 1 {
            " argument, but "
        } else {
            " arguments, but "
        });
        push_digits(&mut message, args as u128);
        message.append(if args == 1 {
            " was supplied"
        } else {
            " were supplied"
        });
        self.report(Code::E0216, span, message);
    }
}

} // verus!
