use watchsync::api::apply_message;
use watchsync::state::State;
use watchsync::types::{Item, Type};
use watchsync::watcher::Watcher;

fn item(name: &str, ty: Type) -> Item {
    Item { name: String::from(name), ty }
}

fn holds(v: &Vec<Item>, x: &Item) -> bool {
    let mut found = false;
    for it in v.iter() {
        if it == x {
            found = true;
        }
    }
    found
}

#[test]
fn the_first_report_is_a_full_one() {
    let mut w = Watcher::new(String::from("w1"));
    let msg = w.prepare_report(vec![item("a.txt", Type::File)]);
    assert_eq!(msg.id, "w1");
    assert!(msg.first);
    assert_eq!(msg.diff.added.len(), 1);
    assert!(holds(&msg.diff.added, &item("a.txt", Type::File)));
    assert_eq!(msg.diff.removed.len(), 0);
}

#[test]
fn after_a_success_only_changes_are_reported() {
    let mut w = Watcher::new(String::from("w1"));
    let _ = w.prepare_report(vec![item("a", Type::File)]);
    w.record_outcome(true);
    let msg = w.prepare_report(vec![item("a", Type::File), item("b", Type::Folder)]);
    assert!(!msg.first);
    assert_eq!(msg.diff.added.len(), 1);
    assert!(holds(&msg.diff.added, &item("b", Type::Folder)));
    assert_eq!(msg.diff.removed.len(), 0);
}

#[test]
fn a_failed_send_forces_a_full_resync() {
    let mut w = Watcher::new(String::from("w1"));
    let _ = w.prepare_report(vec![item("a", Type::File)]);
    w.record_outcome(true);
    let _ = w.prepare_report(vec![item("a", Type::File), item("b", Type::File)]);
    // the send of this report failed
    w.record_outcome(false);
    // next tick: the full current listing is reported as added, first is set
    let listing = vec![item("a", Type::File), item("b", Type::File)];
    let msg = w.prepare_report(listing);
    assert!(msg.first);
    assert_eq!(msg.diff.added.len(), 2);
    assert!(holds(&msg.diff.added, &item("a", Type::File)));
    assert!(holds(&msg.diff.added, &item("b", Type::File)));
    assert_eq!(msg.diff.removed.len(), 0);
}

#[test]
fn watcher_and_store_agree_end_to_end() {
    let mut w = Watcher::new(String::from("agent"));
    let mut st = State::new();

    let msg1 = w.prepare_report(vec![item("a.txt", Type::File)]);
    assert!(msg1.first);
    apply_message(&mut st, msg1, 0);
    w.record_outcome(true);

    let msg2 = w.prepare_report(vec![item("b", Type::Folder)]);
    assert!(!msg2.first);
    assert_eq!(msg2.diff.added.len(), 1);
    assert!(holds(&msg2.diff.added, &item("b", Type::Folder)));
    assert_eq!(msg2.diff.removed.len(), 1);
    assert!(holds(&msg2.diff.removed, &item("a.txt", Type::File)));
    apply_message(&mut st, msg2, 100);

    let rows = st.list(100);
    assert_eq!(rows.len(), 1);
    assert_eq!(rows[0].name, "b");
    assert!(matches!(rows[0].ty, Type::Folder));
    assert_eq!(rows[0].from, "agent");
    assert!(!rows[0].stale);
}
