use jr_sema::hir::{BodyId, ExprId, ExprScope};
use jr_sema::map::TypeMap;
use jr_sema::pool::{BOOL, S64};

#[test]
fn expr_ids_from_different_arenas_do_not_collide() {
    // The same index in two arenas must stay two entries.
    let mut map = TypeMap::new();
    let id: ExprId = 0;
    let body: BodyId = 0;
    map.set_expr(ExprScope::TopLevel, id, S64);
    map.set_expr(ExprScope::Body(body), id, BOOL);
    assert_eq!(map.expr_type(ExprScope::TopLevel, id), Some(S64));
    assert_eq!(map.expr_type(ExprScope::Body(body), id), Some(BOOL));
    assert_eq!(map.expr_count(), 2);
}

#[test]
fn absent_is_distinguishable_from_error() {
    let map = TypeMap::new();
    assert_eq!(map.expr_type(ExprScope::TopLevel, 7), None);
}

#[test]
fn absorb_takes_the_other_maps_entries() {
    let mut first = TypeMap::new();
    first.set_expr(ExprScope::TopLevel, 1, S64);
    let mut second = TypeMap::new();
    second.set_expr(ExprScope::Body(3), 1, BOOL);
    second.set_local(3, 0, S64);
    first.absorb(&second);
    assert_eq!(first.expr_type(ExprScope::TopLevel, 1), Some(S64));
    assert_eq!(first.expr_type(ExprScope::Body(3), 1), Some(BOOL));
    assert_eq!(first.local_type(3, 0), Some(S64));
    assert_eq!(first.expr_count(), 2);
    assert_eq!(first.local_count(), 1);
}
