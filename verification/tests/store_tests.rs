use note_taking_backend::{NoteError, NoteStore, Owner};

fn owner(bytes: &[u8]) -> Owner {
    Owner::new(bytes.to_vec())
}

fn anonymous() -> Owner {
    Owner::new(vec![4u8])
}

fn titles_and_ids(store: &NoteStore, o: &Owner) -> Vec<(u64, String)> {
    store
        .get_notes(o)
        .into_iter()
        .map(|n| (n.display_id, n.title))
        .collect()
}

#[test]
fn create_assigns_sequential_display_ids() {
    let mut store = NoteStore::new();
    let u = owner(&[1, 2, 3]);
    assert_eq!(
        store
            .create(owner(&[1, 2, 3]), "a".to_string(), "one".to_string())
            .unwrap(),
        "Note created successfully"
    );
    store
        .create(owner(&[1, 2, 3]), "b".to_string(), "two".to_string())
        .unwrap();
    store
        .create(owner(&[1, 2, 3]), "c".to_string(), "three".to_string())
        .unwrap();
    assert_eq!(
        titles_and_ids(&store, &u),
        vec![
            (1, "a".to_string()),
            (2, "b".to_string()),
            (3, "c".to_string())
        ]
    );
}

#[test]
fn delete_renumbers_survivors() {
    let mut store = NoteStore::new();
    let u = owner(&[7]);
    store
        .create(owner(&[7]), "a".to_string(), "one".to_string())
        .unwrap();
    store
        .create(owner(&[7]), "b".to_string(), "two".to_string())
        .unwrap();
    store
        .create(owner(&[7]), "c".to_string(), "three".to_string())
        .unwrap();
    assert_eq!(
        store.delete(&u, 2).unwrap(),
        "Note deleted successfully"
    );
    assert_eq!(
        titles_and_ids(&store, &u),
        vec![(1, "a".to_string()), (2, "c".to_string())]
    );
}

#[test]
fn numbering_is_per_owner() {
    let mut store = NoteStore::new();
    let u = owner(&[10]);
    let v = owner(&[20]);
    store
        .create(owner(&[10]), "mine".to_string(), "u".to_string())
        .unwrap();
    store
        .create(owner(&[20]), "yours".to_string(), "v".to_string())
        .unwrap();
    assert_eq!(titles_and_ids(&store, &u), vec![(1, "mine".to_string())]);
    assert_eq!(titles_and_ids(&store, &v), vec![(1, "yours".to_string())]);
}

#[test]
fn edit_of_missing_display_id_is_not_found() {
    let mut store = NoteStore::new();
    let u = owner(&[5]);
    store
        .create(owner(&[5]), "only".to_string(), "note".to_string())
        .unwrap();
    let r = store.edit(&u, 99, "x".to_string(), "y".to_string());
    assert_eq!(r.unwrap_err(), NoteError::NotFound);
}

#[test]
fn delete_last_note_then_create_starts_at_one() {
    let mut store = NoteStore::new();
    let u = owner(&[9]);
    store
        .create(owner(&[9]), "solo".to_string(), "note".to_string())
        .unwrap();
    store.delete(&u, 1).unwrap();
    assert!(store.get_notes(&u).is_empty());
    store
        .create(owner(&[9]), "again".to_string(), "note".to_string())
        .unwrap();
    assert_eq!(titles_and_ids(&store, &u), vec![(1, "again".to_string())]);
}

#[test]
fn edit_rewrites_title_and_content_in_place() {
    let mut store = NoteStore::new();
    let u = owner(&[5, 5]);
    store
        .create(owner(&[5, 5]), "before".to_string(), "old".to_string())
        .unwrap();
    assert_eq!(
        store
            .edit(&u, 1, "after".to_string(), "new".to_string())
            .unwrap(),
        "Note updated successfully"
    );
    let notes = store.get_notes(&u);
    assert_eq!(notes.len(), 1);
    assert_eq!(notes[0].display_id, 1);
    assert_eq!(notes[0].title, "after");
    assert_eq!(notes[0].content, "new");
}

#[test]
fn edit_and_delete_do_not_touch_other_owners() {
    let mut store = NoteStore::new();
    let a = owner(&[1]);
    let b = owner(&[2]);
    store
        .create(owner(&[1]), "a1".to_string(), "x".to_string())
        .unwrap();
    store
        .create(owner(&[2]), "b1".to_string(), "y".to_string())
        .unwrap();
    store
        .create(owner(&[2]), "b2".to_string(), "z".to_string())
        .unwrap();
    // A has no note numbered 2; B's second note must not match.
    assert_eq!(
        store
            .edit(&a, 2, "hijack".to_string(), "w".to_string())
            .unwrap_err(),
        NoteError::NotFound
    );
    assert_eq!(store.delete(&a, 2).unwrap_err(), NoteError::NotFound);
    store.delete(&b, 1).unwrap();
    assert_eq!(titles_and_ids(&store, &a), vec![(1, "a1".to_string())]);
    assert_eq!(titles_and_ids(&store, &b), vec![(1, "b2".to_string())]);
}

#[test]
fn listing_is_stable_without_mutation() {
    let mut store = NoteStore::new();
    let u = owner(&[3, 3]);
    store
        .create(owner(&[3, 3]), "a".to_string(), "1".to_string())
        .unwrap();
    store
        .create(owner(&[3, 3]), "b".to_string(), "2".to_string())
        .unwrap();
    let first = titles_and_ids(&store, &u);
    let second = titles_and_ids(&store, &u);
    assert_eq!(first, second);
}

#[test]
fn anonymous_mutations_are_rejected_and_change_nothing() {
    let mut store = NoteStore::new();
    let u = owner(&[8]);
    store
        .create(owner(&[8]), "keep".to_string(), "me".to_string())
        .unwrap();
    let anon = anonymous();
    assert_eq!(
        store
            .create(anonymous(), "t".to_string(), "c".to_string())
            .unwrap_err(),
        NoteError::Unauthenticated
    );
    assert_eq!(
        store
            .edit(&anon, 1, "t".to_string(), "c".to_string())
            .unwrap_err(),
        NoteError::Unauthenticated
    );
    assert_eq!(store.delete(&anon, 1).unwrap_err(), NoteError::Unauthenticated);
    assert_eq!(titles_and_ids(&store, &u), vec![(1, "keep".to_string())]);
}

#[test]
fn anonymous_listing_is_empty() {
    let store = NoteStore::new();
    assert!(store.get_notes(&anonymous()).is_empty());
}

#[test]
fn oversized_note_is_rejected() {
    let mut store = NoteStore::new();
    let u = owner(&[6]);
    let big = "x".repeat(3000);
    assert_eq!(
        store
            .create(owner(&[6]), "t".to_string(), big.clone())
            .unwrap_err(),
        NoteError::PayloadTooLarge
    );
    assert!(store.get_notes(&u).is_empty());
    store
        .create(owner(&[6]), "small".to_string(), "ok".to_string())
        .unwrap();
    assert_eq!(
        store.edit(&u, 1, "t".to_string(), big).unwrap_err(),
        NoteError::PayloadTooLarge
    );
    let notes = store.get_notes(&u);
    assert_eq!(notes[0].title, "small");
}

#[test]
fn note_at_size_bound_is_accepted() {
    let mut store = NoteStore::new();
    let u = owner(&[6, 6]);
    // 12 header bytes + 2 owner bytes + 10 title bytes leave 2024 for content.
    let content = "y".repeat(2024);
    store
        .create(owner(&[6, 6]), "0123456789".to_string(), content.clone())
        .unwrap();
    let notes = store.get_notes(&u);
    assert_eq!(notes[0].content, content);
    // One byte more crosses the bound.
    let over = "y".repeat(2025);
    assert_eq!(
        store
            .create(owner(&[6, 6]), "0123456789".to_string(), over)
            .unwrap_err(),
        NoteError::PayloadTooLarge
    );
}

#[test]
fn non_ascii_payload_round_trips_through_storage() {
    let mut store = NoteStore::new();
    let u = owner(&[11]);
    store
        .create(
            owner(&[11]),
            "héllo ☃".to_string(),
            "日本語のメモ".to_string(),
        )
        .unwrap();
    store
        .create(owner(&[11]), "plain".to_string(), "text".to_string())
        .unwrap();
    let notes = store.get_notes(&u);
    assert_eq!(notes[0].title, "héllo ☃");
    assert_eq!(notes[0].content, "日本語のメモ");
    assert_eq!(notes[1].title, "plain");
}

#[test]
fn internal_keys_start_at_one_and_advance_per_create() {
    let mut store = NoteStore::new();
    assert_eq!(store.next_internal_key(), 1);
    store
        .create(owner(&[13]), "t".to_string(), "c".to_string())
        .unwrap();
    store
        .create(owner(&[14]), "t".to_string(), "c".to_string())
        .unwrap();
    assert_eq!(store.next_internal_key(), 3);
    // A rejected mutation does not consume a key.
    store
        .create(anonymous(), "t".to_string(), "c".to_string())
        .unwrap_err();
    assert_eq!(store.next_internal_key(), 3);
}

#[test]
fn loaded_store_supports_the_full_lifecycle() {
    // In this process the backing memory is fresh, so `load` opens an
    // empty, well-formed store.
    let mut store = NoteStore::load();
    let u = owner(&[15]);
    assert!(store.get_notes(&u).is_empty());
    store
        .create(owner(&[15]), "a".to_string(), "1".to_string())
        .unwrap();
    store
        .create(owner(&[15]), "b".to_string(), "2".to_string())
        .unwrap();
    store.delete(&u, 1).unwrap();
    assert_eq!(titles_and_ids(&store, &u), vec![(1, "b".to_string())]);
}

#[test]
fn delete_of_missing_note_is_not_found() {
    let mut store = NoteStore::new();
    let u = owner(&[12]);
    assert_eq!(store.delete(&u, 1).unwrap_err(), NoteError::NotFound);
}
