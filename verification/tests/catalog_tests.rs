use sum_search::catalog::{Catalog, Item};

fn item(name: &str, value: u64) -> Item {
    Item { name: String::from(name), value }
}

#[test]
fn catalog_accepts_positive_values() {
    let cat = Catalog::new(vec![item("a", 215), item("b", 275)]).unwrap();
    assert_eq!(cat.len(), 2);
    assert_eq!(cat.item_at(0).value, 215);
    assert_eq!(cat.item_at(0).name, "a");
    assert_eq!(cat.item_at(1).value, 275);
}

#[test]
fn catalog_rejects_zero_value() {
    assert!(Catalog::new(vec![item("a", 215), item("bad", 0)]).is_none());
}

#[test]
fn catalog_accepts_empty_list() {
    let cat = Catalog::new(Vec::new()).unwrap();
    assert_eq!(cat.len(), 0);
}

#[test]
fn item_clone_keeps_fields() {
    let it = item("fruit", 215);
    let copy = it.clone();
    assert_eq!(copy.name, "fruit");
    assert_eq!(copy.value, 215);
}
