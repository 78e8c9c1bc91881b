use note_store::store::NoteStore;

#[test]
fn create_then_list_reflects() {
    let mut st = NoteStore::new();
    let n = st.create("hello".to_string()).expect("fresh random id");
    let listed = st.list();
    assert_eq!(listed.len(), 1);
    assert_eq!(listed[0].id, n.id);
    assert_eq!(listed[0].text, "hello");
    assert_eq!(n.text, "hello");
}

#[test]
fn two_creates_keep_order_and_distinct_ids() {
    let mut st = NoteStore::new();
    let a = st.create("a".to_string()).expect("fresh random id");
    let b = st.create("b".to_string()).expect("fresh random id");
    assert_ne!(a.id, b.id);
    let listed = st.list();
    assert_eq!(listed.len(), 2);
    assert_eq!(listed[0].id, a.id);
    assert_eq!(listed[0].text, "a");
    assert_eq!(listed[1].id, b.id);
    assert_eq!(listed[1].text, "b");
}

#[test]
fn delete_present_removes_exactly_that_note() {
    let mut st = NoteStore::new();
    let a = st.create("a".to_string()).expect("fresh random id");
    let b = st.create("b".to_string()).expect("fresh random id");
    assert!(st.delete(a.id));
    let listed = st.list();
    assert_eq!(listed.len(), 1);
    assert_eq!(listed[0].id, b.id);
    assert_eq!(listed[0].text, "b");
}

#[test]
fn delete_absent_changes_nothing() {
    let mut st = NoteStore::new();
    assert!(st.insert_fresh(1, "x".to_string()).is_some());
    assert!(st.insert_fresh(2, "y".to_string()).is_some());
    assert!(!st.delete(3));
    let listed = st.list();
    assert_eq!(listed.len(), 2);
    assert_eq!(listed[0].id, 1);
    assert_eq!(listed[0].text, "x");
    assert_eq!(listed[1].id, 2);
    assert_eq!(listed[1].text, "y");
}

#[test]
fn delete_twice_second_is_false() {
    let mut st = NoteStore::new();
    let n = st.create("once".to_string()).expect("fresh random id");
    assert!(st.delete(n.id));
    assert!(!st.delete(n.id));
    assert_eq!(st.len(), 0);
}

#[test]
fn delete_on_empty_store() {
    let mut st = NoteStore::new();
    assert!(!st.delete(0));
    assert_eq!(st.len(), 0);
}

#[test]
fn insert_fresh_rejects_taken_id() {
    let mut st = NoteStore::new();
    assert!(st.insert_fresh(7, "x".to_string()).is_some());
    assert!(st.insert_fresh(7, "y".to_string()).is_none());
    let listed = st.list();
    assert_eq!(listed.len(), 1);
    assert_eq!(listed[0].text, "x");
}

#[test]
fn empty_text_accepted() {
    let mut st = NoteStore::new();
    let n = st.create(String::new()).expect("fresh random id");
    assert_eq!(n.text, "");
    let listed = st.list();
    assert_eq!(listed.len(), 1);
    assert_eq!(listed[0].text, "");
}

#[test]
fn contains_id_and_len_track_contents() {
    let mut st = NoteStore::new();
    assert_eq!(st.len(), 0);
    assert!(!st.contains_id(5));
    assert!(st.insert_fresh(5, "v".to_string()).is_some());
    assert_eq!(st.len(), 1);
    assert!(st.contains_id(5));
    assert!(st.delete(5));
    assert!(!st.contains_id(5));
    assert_eq!(st.len(), 0);
}

#[test]
fn create_with_retries_succeeds_on_empty_store() {
    let mut st = NoteStore::new();
    let n = st
        .create_with_retries("hello".to_string(), 128)
        .expect("an empty store takes any drawn id");
    assert_eq!(n.text, "hello");
    assert_eq!(st.len(), 1);
}

#[test]
fn create_with_zero_tries_changes_nothing() {
    let mut st = NoteStore::new();
    assert!(st.create_with_retries("hello".to_string(), 0).is_none());
    assert_eq!(st.len(), 0);
}

#[test]
fn note_survives_other_operations() {
    let mut st = NoteStore::new();
    assert!(st.insert_fresh(1, "a".to_string()).is_some());
    assert!(st.insert_fresh(2, "b".to_string()).is_some());
    assert!(st.delete(2));
    let c = st.create("c".to_string()).expect("fresh random id");
    let listed = st.list();
    assert_eq!(listed.len(), 2);
    let with_id1: Vec<_> = listed.iter().filter(|n| n.id == 1).collect();
    assert_eq!(with_id1.len(), 1);
    assert_eq!(with_id1[0].text, "a");
    assert_eq!(listed[0].id, 1);
    assert_eq!(listed[1].id, c.id);
}

#[test]
fn duplicate_is_exact_copy() {
    let mut st = NoteStore::new();
    assert!(st.insert_fresh(9, "copy me".to_string()).is_some());
    let listed = st.list();
    let d = listed[0].duplicate();
    assert_eq!(d.id, 9);
    assert_eq!(d.text, "copy me");
}
