use watchsync::diff::owned_diff;
use watchsync::types::{Item, Type};

fn item(name: &str, ty: Type) -> Item {
    Item { name: String::from(name), ty }
}

fn holds(v: &Vec<Item>, x: &Item) -> bool {
    let mut found = false;
    for it in v.iter() {
        if it == x {
            found = true;
        }
    }
    found
}

#[test]
fn identical_snapshots_diff_to_nothing() {
    let snap = vec![item("a.txt", Type::File), item("sub", Type::Folder)];
    let d = owned_diff(&snap, &snap);
    assert_eq!(d.added.len(), 0);
    assert_eq!(d.removed.len(), 0);
}

#[test]
fn diff_from_empty_adds_everything() {
    let old: Vec<Item> = vec![];
    let new = vec![item("a.txt", Type::File), item("b", Type::Folder)];
    let d = owned_diff(&old, &new);
    assert_eq!(d.removed.len(), 0);
    assert_eq!(d.added.len(), 2);
    assert!(holds(&d.added, &item("a.txt", Type::File)));
    assert!(holds(&d.added, &item("b", Type::Folder)));
}

#[test]
fn diff_to_empty_removes_everything() {
    let old = vec![item("a.txt", Type::File), item("b", Type::Folder)];
    let new: Vec<Item> = vec![];
    let d = owned_diff(&old, &new);
    assert_eq!(d.added.len(), 0);
    assert_eq!(d.removed.len(), 2);
    assert!(holds(&d.removed, &item("a.txt", Type::File)));
    assert!(holds(&d.removed, &item("b", Type::Folder)));
}

#[test]
fn diff_rebuilds_the_new_snapshot() {
    let old = vec![item("a", Type::File), item("b", Type::File), item("c", Type::Folder)];
    let new = vec![item("b", Type::File), item("c", Type::Folder), item("d", Type::File)];
    let d = owned_diff(&old, &new);
    assert_eq!(d.added.len(), 1);
    assert!(holds(&d.added, &item("d", Type::File)));
    assert_eq!(d.removed.len(), 1);
    assert!(holds(&d.removed, &item("a", Type::File)));

    // old \ removed ∪ added == new, elementwise
    let mut rebuilt: Vec<Item> = vec![];
    for it in old.iter() {
        if !holds(&d.removed, it) {
            rebuilt.push(Item { name: it.name.clone(), ty: it.ty });
        }
    }
    for it in d.added.iter() {
        rebuilt.push(Item { name: it.name.clone(), ty: it.ty });
    }
    assert_eq!(rebuilt.len(), new.len());
    for it in new.iter() {
        assert!(holds(&rebuilt, it));
    }
}

#[test]
fn duplicates_in_a_snapshot_collapse() {
    let old: Vec<Item> = vec![];
    let new = vec![item("a", Type::File), item("a", Type::File)];
    let d = owned_diff(&old, &new);
    assert_eq!(d.added.len(), 1);
    assert!(holds(&d.added, &item("a", Type::File)));
}

#[test]
fn same_name_different_kind_are_distinct() {
    let old = vec![item("x", Type::File)];
    let new = vec![item("x", Type::Folder)];
    let d = owned_diff(&old, &new);
    assert_eq!(d.added.len(), 1);
    assert!(holds(&d.added, &item("x", Type::Folder)));
    assert_eq!(d.removed.len(), 1);
    assert!(holds(&d.removed, &item("x", Type::File)));
}
