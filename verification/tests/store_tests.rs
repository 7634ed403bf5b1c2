use imagev::{CacheEntry, TimestampStore};

fn rows(entries: &[CacheEntry]) -> Vec<(String, i64)> {
    entries.iter().map(|e| (e.filename.clone(), e.captured_at)).collect()
}

#[test]
fn upsert_inserts_and_list_sorted_orders_by_instant() {
    let mut store = TimestampStore::new();
    let scope = "s".to_string();
    store.ensure_scope(&scope);
    store.upsert(&scope, &"c.jpg".to_string(), 300);
    store.upsert(&scope, &"a.jpg".to_string(), 100);
    store.upsert(&scope, &"b.jpg".to_string(), 200);
    let listed = store.list_sorted(&scope);
    assert_eq!(
        rows(&listed),
        vec![("a.jpg".to_string(), 100), ("b.jpg".to_string(), 200), ("c.jpg".to_string(), 300)]
    );
}

#[test]
fn upsert_replaces_and_last_write_wins() {
    let mut store = TimestampStore::new();
    let scope = "s".to_string();
    store.ensure_scope(&scope);
    store.upsert(&scope, &"a.jpg".to_string(), 100);
    store.upsert(&scope, &"a.jpg".to_string(), 500);
    let listed = store.list_sorted(&scope);
    assert_eq!(rows(&listed), vec![("a.jpg".to_string(), 500)]);
}

#[test]
fn ensure_scope_is_idempotent() {
    let mut store = TimestampStore::new();
    let scope = "s".to_string();
    store.ensure_scope(&scope);
    store.upsert(&scope, &"a.jpg".to_string(), 1);
    store.ensure_scope(&scope);
    assert_eq!(store.list_filenames(&scope), vec!["a.jpg".to_string()]);
}

#[test]
fn delete_many_removes_all_listed_names_and_nothing_else() {
    let mut store = TimestampStore::new();
    let scope = "s".to_string();
    store.ensure_scope(&scope);
    store.upsert(&scope, &"a.jpg".to_string(), 1);
    store.upsert(&scope, &"b.jpg".to_string(), 2);
    store.upsert(&scope, &"c.jpg".to_string(), 3);
    // A name that is already absent is no error.
    let doomed = vec!["a.jpg".to_string(), "c.jpg".to_string(), "ghost.jpg".to_string()];
    store.delete_many(&scope, &doomed);
    let listed = store.list_sorted(&scope);
    assert_eq!(rows(&listed), vec![("b.jpg".to_string(), 2)]);
}

#[test]
fn scopes_are_isolated() {
    let mut store = TimestampStore::new();
    let one = "one".to_string();
    let two = "two".to_string();
    store.ensure_scope(&one);
    store.ensure_scope(&two);
    store.upsert(&one, &"a.jpg".to_string(), 1);
    store.upsert(&two, &"b.jpg".to_string(), 2);
    store.delete_many(&one, &vec!["a.jpg".to_string()]);
    assert_eq!(store.list_filenames(&one), Vec::<String>::new());
    assert_eq!(store.list_filenames(&two), vec!["b.jpg".to_string()]);
}

#[test]
fn equal_instants_keep_a_stable_order_across_calls() {
    let mut store = TimestampStore::new();
    let scope = "s".to_string();
    store.ensure_scope(&scope);
    store.upsert(&scope, &"x.jpg".to_string(), 7);
    store.upsert(&scope, &"y.jpg".to_string(), 7);
    store.upsert(&scope, &"z.jpg".to_string(), 7);
    let first = rows(&store.list_sorted(&scope));
    let second = rows(&store.list_sorted(&scope));
    assert_eq!(first, second);
    assert_eq!(first.len(), 3);
}
