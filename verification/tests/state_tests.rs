use watchsync::state::State;
use watchsync::timings;
use watchsync::types::{Diff, Item, Type};

fn item(name: &str, ty: Type) -> Item {
    Item { name: String::from(name), ty }
}

#[test]
fn replace_then_list_shows_exactly_the_items() {
    let mut st = State::new();
    st.set(
        String::from("src-1"),
        vec![item("a.txt", Type::File), item("sub", Type::Folder)],
        1000,
    );
    let rows = st.list(1000);
    assert_eq!(rows.len(), 2);
    assert_eq!(rows[0].name, "a.txt");
    assert!(matches!(rows[0].ty, Type::File));
    assert_eq!(rows[0].from, "src-1");
    assert!(!rows[0].stale);
    assert_eq!(rows[1].name, "sub");
    assert!(matches!(rows[1].ty, Type::Folder));
    assert_eq!(rows[1].from, "src-1");
    assert!(!rows[1].stale);
}

#[test]
fn replace_then_apply_merges_the_diff() {
    let mut st = State::new();
    st.set(
        String::from("s"),
        vec![item("a", Type::File), item("b", Type::File), item("c", Type::Folder)],
        0,
    );
    st.update(
        String::from("s"),
        Diff { added: vec![item("d", Type::File)], removed: vec![item("a", Type::File)] },
        100,
    );
    let rows = st.list(100);
    // kept items stay in their old order, added items follow
    assert_eq!(rows.len(), 3);
    assert_eq!(rows[0].name, "b");
    assert_eq!(rows[1].name, "c");
    assert_eq!(rows[2].name, "d");
    assert!(!rows[0].stale && !rows[1].stale && !rows[2].stale);
}

#[test]
fn added_wins_over_an_item_on_both_sides() {
    let mut st = State::new();
    st.set(String::from("s"), vec![item("x", Type::File)], 0);
    st.update(
        String::from("s"),
        Diff {
            added: vec![item("x", Type::File)],
            removed: vec![item("x", Type::File)],
        },
        1,
    );
    let rows = st.list(1);
    assert_eq!(rows.len(), 1);
    assert_eq!(rows[0].name, "x");
}

#[test]
fn apply_to_an_absent_id_starts_from_nothing() {
    let mut st = State::new();
    st.update(
        String::from("ghost-src"),
        Diff {
            added: vec![item("n", Type::File)],
            removed: vec![item("gone", Type::File)],
        },
        50,
    );
    let rows = st.list(50);
    assert_eq!(rows.len(), 1);
    assert_eq!(rows[0].name, "n");
    assert_eq!(rows[0].from, "ghost-src");
}

#[test]
fn removals_of_absent_items_are_ignored() {
    let mut st = State::new();
    st.set(String::from("s"), vec![item("a", Type::File)], 0);
    st.update(
        String::from("s"),
        Diff { added: vec![], removed: vec![item("never-there", Type::File)] },
        1,
    );
    let rows = st.list(1);
    assert_eq!(rows.len(), 1);
    assert_eq!(rows[0].name, "a");
}

#[test]
fn an_empty_diff_still_refreshes_the_record() {
    let mut st = State::new();
    st.set(String::from("s"), vec![item("a", Type::File)], 0);
    // at 2500 the record would be stale; the empty diff at 2400 renews it
    st.update(String::from("s"), Diff { added: vec![], removed: vec![] }, 2400);
    let rows = st.list(2500);
    assert_eq!(rows.len(), 1);
    assert!(!rows[0].stale);
}

#[test]
fn staleness_appears_past_the_stale_threshold() {
    let mut st = State::new();
    st.set(String::from("s"), vec![item("a", Type::File)], 0);
    let fresh = st.list(timings::stale());
    assert!(!fresh[0].stale);
    let later = st.list(timings::stale() + 1);
    assert!(later[0].stale);
}

#[test]
fn expiry_removes_only_sources_past_the_threshold() {
    let mut st = State::new();
    st.set(String::from("old"), vec![item("a", Type::File)], 0);
    st.set(String::from("young"), vec![item("b", Type::File)], 3000);
    // at 5500 the old source is 5500ms old (past 5000), the young one 2500ms
    st.remove_older_than(timings::expiration(), 5500);
    let rows = st.list(5500);
    assert_eq!(rows.len(), 1);
    assert_eq!(rows[0].from, "young");
    assert!(rows[0].stale); // 2500 > 2000: shown, but stale
}

#[test]
fn a_source_reappears_after_expiry_on_its_next_report() {
    let mut st = State::new();
    st.set(String::from("s"), vec![item("a", Type::File)], 0);
    st.remove_older_than(timings::expiration(), 6000);
    assert_eq!(st.list(6000).len(), 0);
    // the watcher does not know it was dropped; a later diff starts from nothing
    st.update(
        String::from("s"),
        Diff { added: vec![item("a", Type::File)], removed: vec![] },
        6500,
    );
    let rows = st.list(6500);
    assert_eq!(rows.len(), 1);
    assert_eq!(rows[0].name, "a");
}

#[test]
fn two_sources_keep_their_own_rows() {
    let mut st = State::new();
    st.set(String::from("one"), vec![item("a", Type::File)], 0);
    st.set(String::from("two"), vec![item("b", Type::Folder)], 0);
    let rows = st.list(0);
    assert_eq!(rows.len(), 2);
    assert_eq!(rows[0].from, "one");
    assert_eq!(rows[0].name, "a");
    assert_eq!(rows[1].from, "two");
    assert_eq!(rows[1].name, "b");
    assert!(st.well_formed());
}

#[test]
fn a_second_replace_overwrites_wholesale() {
    let mut st = State::new();
    st.set(String::from("s"), vec![item("a", Type::File), item("b", Type::File)], 0);
    st.set(String::from("s"), vec![item("c", Type::Folder)], 10);
    let rows = st.list(10);
    assert_eq!(rows.len(), 1);
    assert_eq!(rows[0].name, "c");
    assert!(matches!(rows[0].ty, Type::Folder));
}
