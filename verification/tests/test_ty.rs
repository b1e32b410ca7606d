use analyzer::ty::{HirId, Type, TypeMap};

#[test]
fn test_type_map_new_is_empty() {
    let map = TypeMap::new();
    assert_eq!(map.expr_types.len(), 0);
    assert_eq!(map.get_expr_type(HirId(0)), None);
}

#[test]
fn test_type_map_set_and_get() {
    let mut map = TypeMap::new();
    map.set_expr_type(HirId(3), Type(7));
    map.set_expr_type(HirId(5), Type(9));
    assert_eq!(map.get_expr_type(HirId(3)), Some(&Type(7)));
    assert_eq!(map.get_expr_type(HirId(5)), Some(&Type(9)));
    assert_eq!(map.get_expr_type(HirId(4)), None);
}

#[test]
fn test_type_map_overwrites_earlier_record() {
    let mut map = TypeMap::new();
    map.set_expr_type(HirId(1), Type(2));
    map.set_expr_type(HirId(1), Type(8));
    assert_eq!(map.get_expr_type(HirId(1)), Some(&Type(8)));
    assert_eq!(map.expr_types.len(), 1);
}
