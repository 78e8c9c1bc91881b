use note_store::facade::{handle_create, handle_delete, handle_list};
use note_store::store::NoteStore;

#[test]
fn create_request_appends_note() {
    let mut st = NoteStore::new();
    let n = handle_create(&mut st, Some("hello".to_string())).expect("fresh random id");
    assert_eq!(n.text, "hello");
    let listed = handle_list(&st);
    assert_eq!(listed.len(), 1);
    assert_eq!(listed[0].id, n.id);
    assert_eq!(listed[0].text, "hello");
}

#[test]
fn create_request_without_text_is_rejected() {
    let mut st = NoteStore::new();
    assert!(handle_create(&mut st, Some("kept".to_string())).is_some());
    let r = handle_create(&mut st, None);
    assert!(r.is_none());
    let listed = handle_list(&st);
    assert_eq!(listed.len(), 1);
    assert_eq!(listed[0].text, "kept");
}

#[test]
fn delete_request_with_malformed_id_is_rejected() {
    let mut st = NoteStore::new();
    assert!(handle_create(&mut st, Some("kept".to_string())).is_some());
    let r = handle_delete(&mut st, "not-a-valid-id");
    assert!(r.is_none());
    let listed = handle_list(&st);
    assert_eq!(listed.len(), 1);
    assert_eq!(listed[0].text, "kept");
}

#[test]
fn delete_request_parses_hyphenated_id() {
    let mut st = NoteStore::new();
    assert!(st.insert_fresh(0xa1a2a3a4b1b2c1c2d1d2d3d4d5d6d7d8, "k".to_string()).is_some());
    let r = handle_delete(&mut st, "a1a2a3a4-b1b2-c1c2-d1d2-d3d4d5d6d7d8");
    assert_eq!(r, Some(true));
    assert_eq!(st.len(), 0);
}

#[test]
fn delete_request_round_trips_created_id() {
    let mut st = NoteStore::new();
    let a = handle_create(&mut st, Some("a".to_string())).expect("fresh random id");
    let b = handle_create(&mut st, Some("b".to_string())).expect("fresh random id");
    let path_id = uuid::Uuid::from_u128(a.id).hyphenated().to_string();
    assert_eq!(handle_delete(&mut st, &path_id), Some(true));
    assert_eq!(handle_delete(&mut st, &path_id), Some(false));
    let listed = handle_list(&st);
    assert_eq!(listed.len(), 1);
    assert_eq!(listed[0].id, b.id);
    assert_eq!(listed[0].text, "b");
}

#[test]
fn delete_request_with_unused_id_changes_nothing() {
    let mut st = NoteStore::new();
    let a = handle_create(&mut st, Some("a".to_string())).expect("fresh random id");
    let mut unused: u128 = 0;
    while st.contains_id(unused) {
        unused += 1;
    }
    let path_id = uuid::Uuid::from_u128(unused).hyphenated().to_string();
    assert_eq!(handle_delete(&mut st, &path_id), Some(false));
    let listed = handle_list(&st);
    assert_eq!(listed.len(), 1);
    assert_eq!(listed[0].id, a.id);
    assert_eq!(listed[0].text, "a");
}
