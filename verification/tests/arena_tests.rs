use sum_search::arena::{Arena, Node, SearchError};
use sum_search::catalog::{Catalog, Item};

fn item(name: &str, value: u64) -> Item {
    Item { name: String::from(name), value }
}

fn two_item_catalog() -> Catalog {
    Catalog::new(vec![item("small", 2), item("big", 3)]).unwrap()
}

#[test]
fn new_arena_holds_only_the_root() {
    let arena = Arena::new();
    assert_eq!(arena.len(), 1);
    let root = arena.node(0);
    assert!(root.item.is_none());
    assert!(root.parent.is_none());
    assert_eq!(root.total, 0);
}

#[test]
fn expand_appends_one_child_per_item_in_order() {
    let cat = two_item_catalog();
    let mut arena = Arena::new();
    let children = arena.expand(&cat, 0);
    assert_eq!(children, vec![1, 2]);
    assert_eq!(arena.len(), 3);
    let first = arena.node(1);
    assert_eq!(first.item, Some(0));
    assert_eq!(first.total, 2);
    assert_eq!(first.parent, Some(0));
    let second = arena.node(2);
    assert_eq!(second.item, Some(1));
    assert_eq!(second.total, 3);
    assert_eq!(second.parent, Some(0));
}

#[test]
fn expand_builds_totals_from_the_parent() {
    let cat = two_item_catalog();
    let mut arena = Arena::new();
    arena.expand(&cat, 0);
    let children = arena.expand(&cat, 2);
    assert_eq!(children, vec![3, 4]);
    assert_eq!(arena.node(3).total, 5);
    assert_eq!(arena.node(4).total, 6);
}

#[test]
fn visit_classifies_against_the_target() {
    let cat = two_item_catalog();
    let mut arena = Arena::new();
    arena.expand(&cat, 0);
    // node 2 has total 3
    assert!(matches!(arena.visit(&cat, 2, 2), Err(SearchError::PassedTarget)));
    assert!(matches!(arena.visit(&cat, 2, 7), Err(SearchError::NoSolutionYet)));
    let path = arena.visit(&cat, 2, 3).unwrap();
    assert_eq!(path.len(), 1);
    assert_eq!(path[0].value, 3);
    assert_eq!(path[0].name, "big");
}

#[test]
fn visit_returns_the_path_leaf_first() {
    let cat = two_item_catalog();
    let mut arena = Arena::new();
    arena.expand(&cat, 0);
    arena.expand(&cat, 2);
    // node 3 is "small" on top of "big": total 5
    let path = arena.visit(&cat, 3, 5).unwrap();
    let values: Vec<u64> = path.iter().map(|it| it.value).collect();
    assert_eq!(values, vec![2, 3]);
}

#[test]
fn reconstruct_reports_an_orphan_node() {
    let root = Node { item: None, total: 0, parent: None };
    let orphan = Node { item: Some(0), total: 5, parent: None };
    let arena = Arena::from_nodes(vec![root, orphan]).unwrap();
    assert_eq!(arena.reconstruct_indices(1), Err(SearchError::OrphanNode));
}

#[test]
fn reconstruct_collects_indices_leaf_first() {
    let root = Node { item: None, total: 0, parent: None };
    let a = Node { item: Some(1), total: 3, parent: Some(0) };
    let b = Node { item: Some(0), total: 5, parent: Some(1) };
    let arena = Arena::from_nodes(vec![root, a, b]).unwrap();
    assert_eq!(arena.reconstruct_indices(2), Ok(vec![0, 1]));
    assert_eq!(arena.reconstruct_indices(0), Ok(Vec::new()));
}

#[test]
fn from_nodes_rejects_forward_parent_links() {
    let root = Node { item: None, total: 0, parent: None };
    let bad = Node { item: Some(0), total: 2, parent: Some(2) };
    assert!(Arena::from_nodes(vec![root, bad]).is_none());
}
