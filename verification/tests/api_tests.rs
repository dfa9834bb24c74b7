use watchsync::api::{apply_message, fallback_status, intake_body_status, intake_precheck};
use watchsync::state::State;
use watchsync::types::{Diff, FromWatcher, Item, Type};

fn item(name: &str, ty: Type) -> Item {
    Item { name: String::from(name), ty }
}

#[test]
fn only_posts_are_accepted() {
    assert_eq!(intake_precheck(false, true), Some(405));
    assert_eq!(intake_precheck(false, false), Some(405));
}

#[test]
fn json_content_type_is_required() {
    assert_eq!(intake_precheck(true, false), Some(415));
}

#[test]
fn a_json_post_passes_the_precheck() {
    assert_eq!(intake_precheck(true, true), None);
}

#[test]
fn body_verdicts() {
    assert_eq!(intake_body_status(false), 400);
    assert_eq!(intake_body_status(true), 200);
}

#[test]
fn fallback_verdicts() {
    assert_eq!(fallback_status(true), 404);
    assert_eq!(fallback_status(false), 400);
}

#[test]
fn a_first_message_replaces_and_a_later_one_applies() {
    let mut st = State::new();
    apply_message(
        &mut st,
        FromWatcher {
            id: String::from("s"),
            diff: Diff {
                added: vec![item("a", Type::File)],
                removed: vec![item("ignored", Type::File)],
            },
            first: true,
        },
        0,
    );
    // first=true takes the added side as the complete listing
    let rows = st.list(0);
    assert_eq!(rows.len(), 1);
    assert_eq!(rows[0].name, "a");

    apply_message(
        &mut st,
        FromWatcher {
            id: String::from("s"),
            diff: Diff {
                added: vec![item("b", Type::Folder)],
                removed: vec![item("a", Type::File)],
            },
            first: false,
        },
        10,
    );
    let rows = st.list(10);
    assert_eq!(rows.len(), 1);
    assert_eq!(rows[0].name, "b");
}
