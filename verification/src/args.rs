//! Named arguments and defaults: a call's arguments, written positionally or by name,
//! are resolved into one slot per parameter before the call is typed, and a parameter
//! the call leaves out takes its default.

use vstd::prelude::*;
use crate::ctx::{Code, Ctx, concat3, pushed};
use crate::hir::{Expr, ExprId, ExprScope, ItemKind, Res, Span, Symbol, expr_at, spec_expr_at};
use crate::ints::push_digits;
use crate::pool::{PoolId, ERROR};
use crate::rules::spec_call;
use crate::sigs::{ProcSig, same_sig};
use crate::scope::copy_sig;

verus! {

/// One resolved argument position.
#[derive(Clone, Copy, Debug, PartialEq, Eq, Structural)]
pub enum ArgSlot {
    /// An argument the call site wrote, positionally or by name.
    Given(ExprId),
    /// A parameter's default value, already interned.
    Default(PoolId),
}

/// The first position at or after `from` whose parameter is called `name`.
pub open spec fn first_position(names: Seq<Symbol>, name: Symbol, from: int) -> Option<int>
    decreases names.len() - from,
{
    if from < 0 || from >= names.len() {
        None
    } else if names[from] == name {
        Some(from)
    } else {
        first_position(names, name, from + 1)
    }
}

/// The name argument `i` was written with, if any.
pub open spec fn written_name(arg_names: Seq<Option<Symbol>>, i: int) -> Option<Symbol> {
    if 0 <= i < arg_names.len() {
        arg_names[i]
    } else {
        None
    }
}

/// Places arguments `i..` into `slots`, in source order: a named argument goes to its
/// parameter, which must exist and be still empty, and a positional one to its own
/// position, which must exist and must not come after a named one. `None` at the first
/// argument that breaks one of these rules.
pub open spec fn spec_place(
    arg_names: Seq<Option<Symbol>>,
    args: Seq<ExprId>,
    names: Seq<Symbol>,
    i: int,
    slots: Seq<Option<ArgSlot>>,
    seen_named: bool,
) -> Option<Seq<Option<ArgSlot>>>
    decreases args.len() - i,
{
    if i < 0 || i >= args.len() {
        Some(slots)
    } else {
        match written_name(arg_names, i) {
            Some(name) => match first_position(names, name, 0) {
                None => None,
                Some(p) => if 0 <= p < slots.len() && slots[p] is None {
                    spec_place(arg_names, args, names, i + 1, slots.update(p, Some(ArgSlot::Given(args[i]))), true)
                } else {
                    None
                },
            },
            None => if seen_named || i >= slots.len() {
                None
            } else {
                spec_place(arg_names, args, names, i + 1, slots.update(i, Some(ArgSlot::Given(args[i]))), seen_named)
            },
        }
    }
}

/// Every parameter the arguments left empty has a default.
pub open spec fn all_filled(slots: Seq<Option<ArgSlot>>, defaults: Seq<Option<PoolId>>) -> bool {
    forall|p: int| 0 <= p < slots.len() ==> #[trigger] slots[p] is Some || (p < defaults.len() && defaults[p] is Some)
}

/// The slots with every empty one filled by its parameter's default, or `None` when some
/// parameter has neither an argument nor a default.
pub open spec fn spec_complete(slots: Seq<Option<ArgSlot>>, defaults: Seq<Option<PoolId>>) -> Option<Seq<ArgSlot>> {
    if all_filled(slots, defaults) {
        Some(
            Seq::new(
                slots.len(),
                |p: int|
                    match slots[p] {
                        Some(s) => s,
                        None => ArgSlot::Default(defaults[p]->0),
                    },
            ),
        )
    } else {
        None
    }
}

/// A call's arguments resolved into one slot per parameter of a procedure with these
/// parameter names and defaults, or `None` when the call breaks a rule.
pub open spec fn spec_fill(
    arg_names: Seq<Option<Symbol>>,
    args: Seq<ExprId>,
    names: Seq<Symbol>,
    defaults: Seq<Option<PoolId>>,
) -> Option<Seq<ArgSlot>> {
    match spec_place(arg_names, args, names, 0, Seq::new(names.len(), |p: int| None), false) {
        Some(slots) => spec_complete(slots, defaults),
        None => None,
    }
}

/// The signature of the procedure a callee names, when it names one of this file's
/// procedures directly.
pub open spec fn spec_callee_sig(ctx: &Ctx, scope: ExprScope, callee: ExprId) -> Option<ProcSig> {
    match spec_expr_at(ctx.hir, scope, callee) {
        Some(Expr::Name { res: Res::Item(item), .. }) => if item < ctx.hir.items@.len() {
            match ctx.hir.items@[item as int].kind {
                ItemKind::Proc(proc) => if ctx.sigs.procs_view().contains_key(proc as u128) {
                    Some(ctx.sigs.procs_view()[proc as u128])
                } else {
                    None
                },
                _ => None,
            }
        } else {
            None
        },
        _ => None,
    }
}

/// Whether some argument was written with a name.
pub open spec fn any_named(arg_names: Seq<Option<Symbol>>) -> bool {
    exists|i: int| 0 <= i < arg_names.len() && #[trigger] arg_names[i] is Some
}

/// Whether some parameter has a default.
pub open spec fn any_default(defaults: Seq<Option<PoolId>>) -> bool {
    exists|i: int| 0 <= i < defaults.len() && #[trigger] defaults[i] is Some
}

/// Whether a call goes through slots rather than through its source order: some
/// argument is named, or the callee has a default.
pub open spec fn uses_slots(ctx: &Ctx, scope: ExprScope, callee: ExprId, arg_names: Seq<Option<Symbol>>) -> bool {
    any_named(arg_names) || (spec_callee_sig(ctx, scope, callee) matches Some(sig) && any_default(sig.defaults@))
}

/// A call's slots, given what it calls: `None` when the callee names no procedure of
/// this file, or when the call breaks a rule.
pub open spec fn spec_call_slots(
    ctx: &Ctx,
    scope: ExprScope,
    callee: ExprId,
    args: Seq<ExprId>,
    arg_names: Seq<Option<Symbol>>,
) -> Option<Seq<ArgSlot>> {
    match spec_callee_sig(ctx, scope, callee) {
        Some(sig) => spec_fill(arg_names, args, sig.names@, sig.defaults@),
        None => None,
    }
}

/// Every argument a slot holds is below `bound` when every argument is.
pub open spec fn given_below(slots: Seq<Option<ArgSlot>>, bound: int) -> bool {
    forall|p: int| 0 <= p < slots.len() ==> (#[trigger] slots[p] matches Some(ArgSlot::Given(e)) ==> e < bound)
}

/// Placing arguments that are all below `bound` keeps every given slot below it.
proof fn lemma_place_below(
    arg_names: Seq<Option<Symbol>>,
    args: Seq<ExprId>,
    names: Seq<Symbol>,
    i: int,
    slots: Seq<Option<ArgSlot>>,
    seen_named: bool,
    bound: int,
)
    requires
        forall|k: int| 0 <= k < args.len() ==> args[k] < bound,
        given_below(slots, bound),
    ensures
        spec_place(arg_names, args, names, i, slots, seen_named) matches Some(out) ==> out.len() == slots.len()
            && given_below(out, bound),
    decreases args.len() - i,
{
    if i < 0 || i >= args.len() {
    } else {
        match written_name(arg_names, i) {
            Some(name) => match first_position(names, name, 0) {
                None => {},
                Some(p) => if 0 <= p < slots.len() && slots[p] is None {
                    let next = slots.update(p, Some(ArgSlot::Given(args[i])));
                    assert(given_below(next, bound));
                    lemma_place_below(arg_names, args, names, i + 1, next, true, bound);
                },
            },
            None => if !(seen_named || i >= slots.len()) {
                let next = slots.update(i, Some(ArgSlot::Given(args[i])));
                assert(given_below(next, bound));
                lemma_place_below(arg_names, args, names, i + 1, next, seen_named, bound);
            },
        }
    }
}

/// A resolved call has one slot per parameter, and every argument it holds is one of
/// the call's own, so below any bound they all are.
pub proof fn lemma_fill_below(
    arg_names: Seq<Option<Symbol>>,
    args: Seq<ExprId>,
    names: Seq<Symbol>,
    defaults: Seq<Option<PoolId>>,
    bound: int,
)
    requires
        forall|k: int| 0 <= k < args.len() ==> args[k] < bound,
    ensures
        spec_fill(arg_names, args, names, defaults) matches Some(out) ==> out.len() == names.len() && forall|p: int|
            0 <= p < out.len() ==> (#[trigger] out[p] matches ArgSlot::Given(e) ==> e < bound),
{
    let start = Seq::new(names.len(), |p: int| None::<ArgSlot>);
    assert(given_below(start, bound));
    lemma_place_below(arg_names, args, names, 0, start, false, bound);
    match spec_place(arg_names, args, names, 0, start, false) {
        Some(slots) => {
            if all_filled(slots, defaults) {
                let out = spec_complete(slots, defaults)->0;
                assert forall|p: int| 0 <= p < out.len() implies (#[trigger] out[p] matches ArgSlot::Given(e) ==> e < bound) by {
                    assert(slots[p] matches Some(ArgSlot::Given(e)) ==> e < bound);
                }
            }
        },
        None => {},
    }
}

/// Whether a call to a procedure of type `callee` goes through slots.
pub open spec fn spec_slotted(ctx: &Ctx, scope: ExprScope, callee_expr: ExprId, callee: PoolId, arg_names: Seq<Option<Symbol>>) -> bool {
    &&& callee < ctx.pool@.len()
    &&& ctx.pool@[callee as int] is Proc
    &&& uses_slots(ctx, scope, callee_expr, arg_names)
}

/// The type of a call: the callee's return type, or the poison type when the callee is
/// not a procedure, or when the call goes through slots and they cannot be filled.
pub open spec fn spec_slotted_call(
    ctx: &Ctx,
    scope: ExprScope,
    callee_expr: ExprId,
    callee: PoolId,
    args: Seq<ExprId>,
    arg_names: Seq<Option<Symbol>>,
) -> PoolId {
    if spec_slotted(ctx, scope, callee_expr, callee, arg_names) && spec_call_slots(ctx, scope, callee_expr, args, arg_names)
        is None {
        ERROR
    } else {
        spec_call(ctx.pool@, callee)
    }
}

/// The slots after the first `i` of `args` were placed positionally.
pub open spec fn positional_prefix(args: Seq<ExprId>, n: nat, i: int) -> Seq<Option<ArgSlot>> {
    Seq::new(n, |p: int| if p < i { Some(ArgSlot::Given(args[p])) } else { None })
}

proof fn lemma_place_positional(arg_names: Seq<Option<Symbol>>, args: Seq<ExprId>, names: Seq<Symbol>, i: int)
    requires
        args.len() <= names.len(),
        0 <= i <= args.len(),
        forall|k: int| 0 <= k < arg_names.len() ==> #[trigger] arg_names[k] is None,
    ensures
        spec_place(arg_names, args, names, i, positional_prefix(args, names.len(), i), false) == Some(
            positional_prefix(args, names.len(), args.len() as int),
        ),
    decreases args.len() - i,
{
    if i < args.len() {
        assert(written_name(arg_names, i) is None);
        let next = positional_prefix(args, names.len(), i).update(i, Some(ArgSlot::Given(args[i])));
        assert(next =~= positional_prefix(args, names.len(), i + 1));
        lemma_place_positional(arg_names, args, names, i + 1);
    }
}

/// A call that names no argument and supplies one for every parameter resolves to its
/// arguments in source order, whatever the defaults: naming is what can reorder a call,
/// and a default only fills a parameter nothing was written for.
pub proof fn lemma_positional_call_keeps_source_order(
    arg_names: Seq<Option<Symbol>>,
    args: Seq<ExprId>,
    names: Seq<Symbol>,
    defaults: Seq<Option<PoolId>>,
)
    requires
        args.len() == names.len(),
        forall|k: int| 0 <= k < arg_names.len() ==> #[trigger] arg_names[k] is None,
    ensures
        spec_fill(arg_names, args, names, defaults) == Some(Seq::new(args.len(), |p: int| ArgSlot::Given(args[p]))),
{
    let start = Seq::new(names.len(), |p: int| None::<ArgSlot>);
    assert(start =~= positional_prefix(args, names.len(), 0));
    lemma_place_positional(arg_names, args, names, 0);
    let full = positional_prefix(args, names.len(), args.len() as int);
    assert(all_filled(full, defaults));
    assert(spec_complete(full, defaults)->0 =~= Seq::new(args.len(), |p: int| ArgSlot::Given(args[p])));
}

/// The slots after the first `i` arguments were placed by name, argument `k` naming
/// parameter `perm[k]`.
pub open spec fn named_prefix(args: Seq<ExprId>, perm: Seq<int>, n: nat, i: int) -> Seq<Option<ArgSlot>>
    decreases i,
{
    if i <= 0 {
        Seq::new(n, |p: int| None)
    } else {
        named_prefix(args, perm, n, i - 1).update(perm[i - 1], Some(ArgSlot::Given(args[i - 1])))
    }
}

/// Some argument names parameter `p`.
pub open spec fn is_named(perm: Seq<int>, p: int) -> bool {
    exists|k: int| 0 <= k < perm.len() && #[trigger] perm[k] == p
}

/// No two of `xs` are equal.
pub open spec fn all_distinct<T>(xs: Seq<T>) -> bool {
    forall|i: int, j: int| 0 <= i < j < xs.len() ==> xs[i] != xs[j]
}

proof fn lemma_named_prefix(args: Seq<ExprId>, perm: Seq<int>, n: nat, i: int)
    requires
        0 <= i <= perm.len(),
        all_distinct(perm),
        forall|k: int| 0 <= k < perm.len() ==> 0 <= #[trigger] perm[k] < n,
    ensures
        named_prefix(args, perm, n, i).len() == n,
        forall|k: int| 0 <= k < i ==> named_prefix(args, perm, n, i)[#[trigger] perm[k]] == Some(ArgSlot::Given(args[k])),
        forall|p: int|
            0 <= p < n && (forall|k: int| 0 <= k < i ==> perm[k] != p) ==> (#[trigger] named_prefix(args, perm, n, i)[p])
                is None,
    decreases i,
{
    if i > 0 {
        lemma_named_prefix(args, perm, n, i - 1);
        let before = named_prefix(args, perm, n, i - 1);
        assert forall|k: int| 0 <= k < i implies named_prefix(args, perm, n, i)[#[trigger] perm[k]] == Some(
            ArgSlot::Given(args[k]),
        ) by {
            if k < i - 1 {
                assert(perm[k] != perm[i - 1]);
                assert(before[perm[k]] == Some(ArgSlot::Given(args[k])));
            }
        }
        assert forall|p: int|
            0 <= p < n && (forall|k: int| 0 <= k < i ==> perm[k] != p) implies (#[trigger] named_prefix(
            args,
            perm,
            n,
            i,
        )[p]) is None by {
            assert(perm[i - 1] != p);
            assert(forall|k: int| 0 <= k < i - 1 ==> perm[k] != p);
        }
    }
}

proof fn lemma_first_position_of_distinct(names: Seq<Symbol>, q: int, from: int)
    requires
        all_distinct(names),
        0 <= from <= q < names.len(),
    ensures
        first_position(names, names[q], from) == Some(q),
    decreases q - from,
{
    if from < q {
        assert(names[from] != names[q]);
        lemma_first_position_of_distinct(names, q, from + 1);
    }
}

proof fn lemma_place_named(
    arg_names: Seq<Option<Symbol>>,
    args: Seq<ExprId>,
    names: Seq<Symbol>,
    perm: Seq<int>,
    i: int,
    seen_named: bool,
)
    requires
        args.len() == names.len() == arg_names.len() == perm.len(),
        all_distinct(names),
        all_distinct(perm),
        forall|k: int| 0 <= k < perm.len() ==> 0 <= #[trigger] perm[k] < names.len(),
        forall|k: int| 0 <= k < arg_names.len() ==> #[trigger] arg_names[k] == Some(names[perm[k]]),
        0 <= i <= args.len(),
    ensures
        spec_place(arg_names, args, names, i, named_prefix(args, perm, names.len(), i), seen_named) == Some(
            named_prefix(args, perm, names.len(), args.len() as int),
        ),
    decreases args.len() - i,
{
    if i < args.len() {
        let n = names.len();
        lemma_named_prefix(args, perm, n, i);
        assert(written_name(arg_names, i) == Some(names[perm[i]]));
        lemma_first_position_of_distinct(names, perm[i], 0);
        assert forall|k: int| 0 <= k < i implies perm[k] != perm[i] by {}
        assert(named_prefix(args, perm, n, i)[perm[i]] is None);
        assert(named_prefix(args, perm, n, i + 1) == named_prefix(args, perm, n, i).update(
            perm[i],
            Some(ArgSlot::Given(args[i])),
        ));
        lemma_place_named(arg_names, args, names, perm, i + 1, true);
    }
}

/// Naming every parameter exactly once places each argument in the parameter it names,
/// whatever order the arguments are written in: argument `k`, written with the name of
/// parameter `perm[k]`, fills that parameter's slot, and no default is used.
pub proof fn lemma_named_arguments_ignore_order(
    arg_names: Seq<Option<Symbol>>,
    args: Seq<ExprId>,
    names: Seq<Symbol>,
    defaults: Seq<Option<PoolId>>,
    perm: Seq<int>,
)
    requires
        args.len() == names.len() == arg_names.len() == perm.len(),
        all_distinct(names),
        all_distinct(perm),
        forall|k: int| 0 <= k < perm.len() ==> 0 <= #[trigger] perm[k] < names.len(),
        forall|p: int| 0 <= p < names.len() ==> #[trigger] is_named(perm, p),
        forall|k: int| 0 <= k < arg_names.len() ==> #[trigger] arg_names[k] == Some(names[perm[k]]),
    ensures
        spec_fill(arg_names, args, names, defaults) matches Some(out) && out.len() == names.len() && forall|k: int|
            0 <= k < args.len() ==> out[#[trigger] perm[k]] == ArgSlot::Given(args[k]),
{
    let n = names.len();
    assert(Seq::new(n, |p: int| None::<ArgSlot>) == named_prefix(args, perm, n, 0));
    lemma_place_named(arg_names, args, names, perm, 0, false);
    let full = named_prefix(args, perm, n, args.len() as int);
    lemma_named_prefix(args, perm, n, args.len() as int);
    assert forall|p: int| 0 <= p < full.len() implies #[trigger] full[p] is Some || (p < defaults.len() && defaults[p]
        is Some) by {
        assert(is_named(perm, p));
        let k = choose|k: int| 0 <= k < perm.len() && #[trigger] perm[k] == p;
        assert(full[perm[k]] == Some(ArgSlot::Given(args[k])));
    }
    assert(all_filled(full, defaults));
}

/// A call that names no argument and leaves out trailing parameters that all have
/// defaults takes its arguments in source order and the defaults for the rest.
pub proof fn lemma_left_out_parameters_take_their_defaults(
    arg_names: Seq<Option<Symbol>>,
    args: Seq<ExprId>,
    names: Seq<Symbol>,
    defaults: Seq<Option<PoolId>>,
)
    requires
        args.len() <= names.len(),
        defaults.len() == names.len(),
        forall|k: int| 0 <= k < arg_names.len() ==> #[trigger] arg_names[k] is None,
        forall|p: int| args.len() <= p < names.len() ==> #[trigger] defaults[p] is Some,
    ensures
        spec_fill(arg_names, args, names, defaults) == Some(
            Seq::new(
                names.len(),
                |p: int|
                    if p < args.len() {
                        ArgSlot::Given(args[p])
                    } else {
                        ArgSlot::Default(defaults[p]->0)
                    },
            ),
        ),
{
    let start = Seq::new(names.len(), |p: int| None::<ArgSlot>);
    assert(start =~= positional_prefix(args, names.len(), 0));
    lemma_place_positional(arg_names, args, names, 0);
    let full = positional_prefix(args, names.len(), args.len() as int);
    assert(all_filled(full, defaults));
    assert(spec_complete(full, defaults)->0 =~= Seq::new(
        names.len(),
        |p: int|
            if p < args.len() {
                ArgSlot::Given(args[p])
            } else {
                ArgSlot::Default(defaults[p]->0)
            },
    ));
}

/// The first position of `name` in `names`.
pub fn position_of(names: &Vec<Symbol>, name: Symbol) -> (r: Option<usize>)
    ensures
        r matches Some(p) ==> p < names@.len() && first_position(names@, name, 0) == Some(p as int),
        r is None ==> first_position(names@, name, 0) is None,
{
    let mut i: usize = 0;
    while i < names.len()
        invariant
            i <= names@.len(),
            first_position(names@, name, 0) == first_position(names@, name, i as int),
        decreases names@.len() - i,
    {
        if names[i] == name {
            return Some(i);
        }
        i = i + 1;
    }
    None
}

/// Whether some argument was written with a name.
pub fn has_named(arg_names: &Vec<Option<Symbol>>) -> (r: bool)
    ensures
        r == any_named(arg_names@),
{
    let mut i: usize = 0;
    while i < arg_names.len()
        invariant
            i <= arg_names@.len(),
            forall|k: int| 0 <= k < i ==> arg_names@[k] is None,
        decreases arg_names@.len() - i,
    {
        if arg_names[i].is_some() {
            return true;
        }
        i = i + 1;
    }
    false
}

/// Whether some parameter has a default.
pub fn has_default(defaults: &Vec<Option<PoolId>>) -> (r: bool)
    ensures
        r == any_default(defaults@),
{
    let mut i: usize = 0;
    while i < defaults.len()
        invariant
            i <= defaults@.len(),
            forall|k: int| 0 <= k < i ==> defaults@[k] is None,
        decreases defaults@.len() - i,
    {
        if defaults[i].is_some() {
            return true;
        }
        i = i + 1;
    }
    false
}

impl<'a> Ctx<'a> {
    /// The signature of the procedure `callee` names, when it names one of this file's
    /// procedures directly. Parameter names and defaults live there, not in the
    /// procedure's type.
    pub fn callee_sig(&self, scope: ExprScope, callee: ExprId) -> (r: Option<ProcSig>)
        requires
            self.inv(),
        ensures
            r is None <==> spec_callee_sig(self, scope, callee) is None,
            r matches Some(sig) ==> same_sig(sig, spec_callee_sig(self, scope, callee)->0),
    {
        let hir = self.hir;
        let item = match expr_at(hir, scope, callee) {
            Some(Expr::Name { res: Res::Item(item), .. }) => *item,
            _ => {
                return None;
            },
        };
        if (item as usize) >= hir.items.len() {
            return None;
        }
        match &hir.items[item as usize].kind {
            ItemKind::Proc(proc) => match self.sigs.proc_sig(*proc) {
                Some(sig) => Some(copy_sig(sig)),
                None => None,
            },
            _ => None,
        }
    }

    /// Resolves a call's arguments into one slot per parameter of `sig`. `None`, having
    /// reported E0252, when a name is not a parameter, a parameter is supplied twice, a
    /// positional argument follows a named one or has no parameter, or a parameter is
    /// left with neither an argument nor a default. The rules are checked in source
    /// order, so the first mistake is the one reported.
    pub fn fill_arguments(
        &mut self,
        sig: &ProcSig,
        args: &Vec<ExprId>,
        arg_names: &Vec<Option<Symbol>>,
        span: Span,
    ) -> (r: Option<Vec<ArgSlot>>)
        requires
            old(self).inv(),
        ensures
            final(self).grows_from(old(self)),
            final(self).only_diags_changed(old(self)),
            r is Some <==> spec_fill(arg_names@, args@, sig.names@, sig.defaults@) is Some,
            r matches Some(slots) ==> slots@ == spec_fill(arg_names@, args@, sig.names@, sig.defaults@)->0,
            r matches Some(_) ==> final(self).diags@ == old(self).diags@,
            r is None ==> pushed(old(self).diags@, final(self).diags@, Code::E0252, span),
    {
        let n = sig.names.len();
        let mut slots: Vec<Option<ArgSlot>> = Vec::new();
        let mut k: usize = 0;
        while k < n
            invariant
                n == sig.names@.len(),
                k <= n,
                slots@ == Seq::new(k as nat, |p: int| None::<ArgSlot>),
            decreases n - k,
        {
            slots.push(None);
            k = k + 1;
            proof {
                assert(slots@ =~= Seq::new(k as nat, |p: int| None::<ArgSlot>));
            }
        }
        let ghost start = slots@;
        let mut seen_named = false;
        let mut index: usize = 0;
        while index < args.len()
            invariant
                n == sig.names@.len(),
                slots@.len() == n,
                index <= args@.len(),
                start == Seq::new(n as nat, |p: int| None::<ArgSlot>),
                spec_place(arg_names@, args@, sig.names@, 0, start, false) == spec_place(
                    arg_names@,
                    args@,
                    sig.names@,
                    index as int,
                    slots@,
                    seen_named,
                ),
                self == old(self),
                self.inv(),
            decreases args@.len() - index,
        {
            let written = if index < arg_names.len() {
                arg_names[index]
            } else {
                None
            };
            let ghost before = slots@;
            proof {
                assert(written == written_name(arg_names@, index as int));
            }
            match written {
                Some(name) => {
                    match position_of(&sig.names, name) {
                        None => {
                            self.report_unknown_parameter(sig, name, span);
                            return None;
                        },
                        Some(position) => {
                            if slots[position].is_some() {
                                proof {
                                    assert(spec_place(arg_names@, args@, sig.names@, index as int, slots@, seen_named) is None);
                                }
                                let text = self.interner.text(name);
                                let message = concat3("`", text, "` is supplied more than once");
                                let note = "a parameter already filled positionally cannot be named".to_owned();
                                self.report_with_note(Code::E0252, span, message, note);
                                return None;
                            }
                            slots.set(position, Some(ArgSlot::Given(args[index])));
                            proof {
                                assert(spec_place(arg_names@, args@, sig.names@, index as int, before, seen_named)
                                    == spec_place(arg_names@, args@, sig.names@, index + 1, slots@, true));
                            }
                            seen_named = true;
                        },
                    }
                },
                None => {
                    if seen_named {
                        let message = "a positional argument cannot follow a named one".to_owned();
                        let note = "otherwise a positional argument's meaning would depend on which names came before it".to_owned();
                        self.report_with_note(Code::E0252, span, message, note);
                        return None;
                    }
                    if index >= n {
                        let mut message = "this procedure takes ".to_owned();
                        push_digits(&mut message, n as u128);
                        if n == 1 {
                            message.append(" argument, but more were supplied");
                        } else {
                            message.append(" arguments, but more were supplied");
                        }
                        self.report(Code::E0252, span, message);
                        return None;
                    }
                    slots.set(index, Some(ArgSlot::Given(args[index])));
                    proof {
                        assert(spec_place(arg_names@, args@, sig.names@, index as int, before, seen_named)
                            == spec_place(arg_names@, args@, sig.names@, index + 1, slots@, seen_named));
                    }
                },
            }
            index = index + 1;
        }
        let ghost placed = slots@;
        proof {
            assert(spec_place(arg_names@, args@, sig.names@, index as int, slots@, seen_named) == Some(slots@));
        }
        let mut filled: Vec<ArgSlot> = Vec::new();
        let mut p: usize = 0;
        while p < n
            invariant
                n == sig.names@.len(),
                slots@ == placed,
                placed.len() == n,
                p <= n,
                filled@.len() == p,
                forall|q: int| 0 <= q < p ==> #[trigger] placed[q] is Some || (q < sig.defaults@.len() && sig.defaults@[q] is Some),
                forall|q: int| 0 <= q < p ==> #[trigger] filled@[q] == match placed[q] {
                    Some(s) => s,
                    None => ArgSlot::Default(sig.defaults@[q]->0),
                },
                self == old(self),
                self.inv(),
                spec_place(arg_names@, args@, sig.names@, 0, Seq::new(n as nat, |p: int| None::<ArgSlot>), false) == Some(placed),
            decreases n - p,
        {
            match slots[p] {
                Some(slot) => filled.push(slot),
                None => {
                    let default = if p < sig.defaults.len() {
                        sig.defaults[p]
                    } else {
                        None
                    };
                    match default {
                        Some(value) => filled.push(ArgSlot::Default(value)),
                        None => {
                            let text = self.interner.text(sig.names[p]);
                            let message = concat3("`", text, "` has no argument and no default value");
                            self.report(Code::E0252, span, message);
                            proof {
                                assert(!all_filled(placed, sig.defaults@));
                            }
                            return None;
                        },
                    }
                },
            }
            p = p + 1;
        }
        proof {
            assert(all_filled(placed, sig.defaults@));
            assert(filled@ =~= spec_complete(placed, sig.defaults@)->0);
        }
        Some(filled)
    }

    /// Reports a named argument whose name is not a parameter, with the nearest
    /// parameter name as a suggestion.
    fn report_unknown_parameter(&mut self, sig: &ProcSig, name: Symbol, span: Span)
        requires
            old(self).inv(),
        ensures
            final(self).grows_from(old(self)),
            final(self).only_diags_changed(old(self)),
            pushed(old(self).diags@, final(self).diags@, Code::E0252, span),
    {
        let interner = self.interner;
        let text = interner.text(name);
        let mut candidates: Vec<&str> = Vec::new();
        let mut i: usize = 0;
        while i < sig.names.len()
            invariant
                interner.wf(),
                i <= sig.names@.len(),
                forall|k: int| 0 <= k < candidates@.len() ==> (#[trigger] candidates@[k])@.len() < usize::MAX,
            decreases sig.names@.len() - i,
        {
            let sym = sig.names[i];
            let candidate = interner.text(sym);
            proof {
                if sym < interner@.len() {
                    assert(interner@[sym as int].len() < usize::MAX);
                }
            }
            candidates.push(candidate);
            i = i + 1;
        }
        proof {
            if name < interner@.len() {
                assert(interner@[name as int].len() < usize::MAX);
            }
        }
        let message = concat3("this procedure has no parameter named `", text, "`");
        let help = match crate::suggest::nearest(text, candidates.as_slice()) {
            Some(suggestion) => Some(concat3("did you mean `", suggestion, "`?")),
            None => None,
        };
        self.report_full(Code::E0252, span, message, Vec::new(), help);
    }
}

} // verus!
