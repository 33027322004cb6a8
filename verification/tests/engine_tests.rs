use std::collections::VecDeque;

use sum_search::arena::Arena;
use sum_search::catalog::{Catalog, Item};
use sum_search::engine::{bfs, dfs, search, search_in, Mode};

fn item(name: &str, value: u64) -> Item {
    Item { name: String::from(name), value }
}

fn catalog_of(values: &[u64]) -> Catalog {
    let items: Vec<Item> = values.iter().map(|v| item(&format!("item{}", v), *v)).collect();
    Catalog::new(items).unwrap()
}

/// The six appetizer values, in minor currency units.
fn lunch_catalog() -> Catalog {
    Catalog::new(vec![
        item("Mixed Fruit", 215),
        item("French Fries", 275),
        item("Side Salad", 335),
        item("Hot Wings", 355),
        item("Mozzarella Sticks", 420),
        item("Sampler Plate", 580),
    ])
    .unwrap()
}

fn sum_of(path: &[Item]) -> u64 {
    path.iter().map(|it| it.value).sum()
}

#[test]
fn zero_target_matches_root_with_empty_path() {
    let cat = lunch_catalog();
    let b = bfs(&cat, 0).unwrap();
    assert!(b.is_empty());
    let d = dfs(&cat, 0).unwrap();
    assert!(d.is_empty());
}

#[test]
fn zero_target_expands_nothing() {
    let cat = lunch_catalog();
    let mut arena = Arena::new();
    let r = search_in(&mut arena, &cat, 0, VecDeque::<usize>::new());
    assert_eq!(r.map(|v| v.len()), Some(0));
    assert_eq!(arena.len(), 1);
}

#[test]
fn unreachable_target_yields_no_solution() {
    let cat = lunch_catalog();
    assert!(bfs(&cat, 1).is_none());
    assert!(dfs(&cat, 1).is_none());
}

#[test]
fn empty_catalog_reaches_only_zero() {
    let cat = catalog_of(&[]);
    assert!(bfs(&cat, 7).is_none());
    assert!(bfs(&cat, 0).unwrap().is_empty());
}

#[test]
fn lunch_order_1505_has_a_solution() {
    let cat = lunch_catalog();
    let d = dfs(&cat, 1505).unwrap();
    assert_eq!(sum_of(&d), 1505);
    let b = bfs(&cat, 1505).unwrap();
    assert_eq!(sum_of(&b), 1505);
}

#[test]
fn lunch_order_4235_has_a_solution() {
    let cat = lunch_catalog();
    let d = dfs(&cat, 4235).unwrap();
    assert_eq!(sum_of(&d), 4235);
}

#[test]
fn returned_items_come_from_the_catalog() {
    let cat = lunch_catalog();
    let d = dfs(&cat, 1505).unwrap();
    for it in &d {
        let mut found = false;
        for j in 0..cat.len() {
            let c = cat.item_at(j);
            if c.name == it.name && c.value == it.value {
                found = true;
            }
        }
        assert!(found);
    }
}

#[test]
fn strategies_agree_on_existence() {
    let cat = catalog_of(&[3, 5]);
    for target in 0..40u64 {
        let b = bfs(&cat, target);
        let d = dfs(&cat, target);
        assert_eq!(b.is_some(), d.is_some());
        if let Some(path) = b {
            assert_eq!(sum_of(&path), target);
        }
        if let Some(path) = d {
            assert_eq!(sum_of(&path), target);
        }
    }
}

#[test]
fn pruned_nodes_are_never_expanded() {
    let cat = catalog_of(&[3, 5]);
    let mut arena = Arena::new();
    let r = search_in(&mut arena, &cat, 4, VecDeque::<usize>::new());
    assert!(r.is_none());
    for i in 1..arena.len() {
        let parent = arena.node(i).parent.unwrap();
        assert!(arena.node(parent).total < 4);
    }
}

#[test]
fn dfs_path_is_leaf_first() {
    let cat = catalog_of(&[2, 3]);
    let d = dfs(&cat, 5).unwrap();
    let values: Vec<u64> = d.iter().map(|it| it.value).collect();
    assert_eq!(values, vec![2, 3]);
}

#[test]
fn bfs_path_is_leaf_first() {
    let cat = catalog_of(&[2, 3]);
    let b = bfs(&cat, 5).unwrap();
    let values: Vec<u64> = b.iter().map(|it| it.value).collect();
    assert_eq!(values, vec![3, 2]);
}

#[test]
fn search_dispatches_on_mode() {
    let cat = catalog_of(&[2, 3]);
    let b = search(&cat, 5, Mode::BreadthFirst).unwrap();
    let d = search(&cat, 5, Mode::DepthFirst).unwrap();
    assert_eq!(sum_of(&b), 5);
    assert_eq!(sum_of(&d), 5);
    let bv: Vec<u64> = b.iter().map(|it| it.value).collect();
    let dv: Vec<u64> = d.iter().map(|it| it.value).collect();
    assert_eq!(bv, vec![3, 2]);
    assert_eq!(dv, vec![2, 3]);
}

#[test]
fn exact_single_item_match() {
    let cat = lunch_catalog();
    let d = dfs(&cat, 580).unwrap();
    assert_eq!(sum_of(&d), 580);
    let b = bfs(&cat, 215).unwrap();
    assert_eq!(sum_of(&b), 215);
}
