use imagev::{
    commit_reconcile, compute_diff, join_path, plan_reconcile, resolve_effective_dir, ImageInfo,
    ReconcileError, TimestampStore,
};

fn rows(infos: &[ImageInfo]) -> Vec<(String, i64)> {
    infos.iter().map(|i| (i.path.clone(), i.shot_at)).collect()
}

#[test]
fn effective_dir_of_a_directory_is_itself() {
    let r = resolve_effective_dir(&"/pics".to_string(), true);
    assert_eq!(r.unwrap(), "/pics".to_string());
}

#[test]
fn effective_dir_of_a_file_is_its_parent() {
    let r = resolve_effective_dir(&"/pics/a.jpg".to_string(), false);
    assert_eq!(r.unwrap(), "/pics".to_string());
    let r = resolve_effective_dir(&"/a.jpg".to_string(), false);
    assert_eq!(r.unwrap(), "/".to_string());
}

#[test]
fn paths_without_a_parent_are_not_resolvable() {
    assert_eq!(
        resolve_effective_dir(&"a.jpg".to_string(), false),
        Err(ReconcileError::NotResolvable)
    );
    assert_eq!(resolve_effective_dir(&"/".to_string(), false), Err(ReconcileError::NotResolvable));
}

#[test]
fn error_messages_describe_each_failure() {
    assert_eq!(ReconcileError::NotResolvable.message(), "Could not get parent directory");
    assert_eq!(ReconcileError::FilesystemError.message(), "Could not read the directory");
    assert_eq!(ReconcileError::StoreError.message(), "Could not access the timestamp store");
}

#[test]
fn join_path_inserts_a_separator_only_when_needed() {
    assert_eq!(join_path(&"/pics".to_string(), &"a.jpg".to_string()), "/pics/a.jpg");
    assert_eq!(join_path(&"/".to_string(), &"a.jpg".to_string()), "/a.jpg");
}

#[test]
fn diff_is_a_pair_of_set_differences() {
    let fs = vec!["a.jpg".to_string(), "b.jpg".to_string(), "c.jpg".to_string()];
    let cache = vec!["b.jpg".to_string(), "d.jpg".to_string()];
    let (to_add, to_remove) = compute_diff(&fs, &cache);
    assert_eq!(to_add, vec!["a.jpg".to_string(), "c.jpg".to_string()]);
    assert_eq!(to_remove, vec!["d.jpg".to_string()]);
}

#[test]
fn ordering_is_ascending_by_capture_instant() {
    // Entries resolved with capturedAt 300, 100, 200 come back as 100, 200, 300.
    let mut store = TimestampStore::new();
    let dir = "/pics".to_string();
    let fs = vec!["x.jpg".to_string(), "y.jpg".to_string(), "z.jpg".to_string()];
    let plan = plan_reconcile(&mut store, &dir, &fs);
    let additions = vec![
        ("x.jpg".to_string(), 300i64),
        ("y.jpg".to_string(), 100i64),
        ("z.jpg".to_string(), 200i64),
    ];
    let out = commit_reconcile(&mut store, &dir, &plan, &additions);
    assert_eq!(
        rows(&out),
        vec![
            ("/pics/y.jpg".to_string(), 100),
            ("/pics/z.jpg".to_string(), 200),
            ("/pics/x.jpg".to_string(), 300),
        ]
    );
}

#[test]
fn reconcile_is_idempotent_without_filesystem_changes() {
    let mut store = TimestampStore::new();
    let dir = "/pics".to_string();
    let fs = vec!["a.jpg".to_string(), "b.png".to_string()];
    let plan1 = plan_reconcile(&mut store, &dir, &fs);
    assert_eq!(plan1.scope, "_pics");
    assert_eq!(plan1.to_add, fs);
    assert!(plan1.to_remove.is_empty());
    let additions = vec![("a.jpg".to_string(), 1000i64), ("b.png".to_string(), 2000i64)];
    let first = commit_reconcile(&mut store, &dir, &plan1, &additions);

    // Second pass: no filesystem change, so there is nothing to do, no write
    // happens, and the output is identical.
    let plan2 = plan_reconcile(&mut store, &dir, &fs);
    assert!(plan2.to_add.is_empty());
    assert!(plan2.to_remove.is_empty());
    let second = commit_reconcile(&mut store, &dir, &plan2, &Vec::new());
    assert_eq!(rows(&first), rows(&second));
}

#[test]
fn converged_cache_is_filesystem_minus_unresolved() {
    let mut store = TimestampStore::new();
    let dir = "/pics".to_string();
    let fs = vec!["ok.jpg".to_string(), "broken.jpg".to_string()];
    let plan = plan_reconcile(&mut store, &dir, &fs);
    // The resolver failed on broken.jpg: it is skipped, not cached.
    let additions = vec![("ok.jpg".to_string(), 5i64)];
    let out = commit_reconcile(&mut store, &dir, &plan, &additions);
    assert_eq!(rows(&out), vec![("/pics/ok.jpg".to_string(), 5)]);

    // The skipped file stays absent from the cache, so the next pass retries it.
    let plan2 = plan_reconcile(&mut store, &dir, &fs);
    assert_eq!(plan2.to_add, vec!["broken.jpg".to_string()]);
    assert!(plan2.to_remove.is_empty());
}

#[test]
fn scenario_two_passes_with_a_deletion_and_an_addition() {
    let mut store = TimestampStore::new();
    let dir = "/pics".to_string();

    // First pass: a.jpg resolved from its modification time, b.png from an
    // embedded capture datetime.
    let fs1 = vec!["a.jpg".to_string(), "b.png".to_string()];
    let plan1 = plan_reconcile(&mut store, &dir, &fs1);
    let adds1 = vec![("a.jpg".to_string(), 1000i64), ("b.png".to_string(), 2000i64)];
    let out1 = commit_reconcile(&mut store, &dir, &plan1, &adds1);
    assert_eq!(
        rows(&out1),
        vec![("/pics/a.jpg".to_string(), 1000), ("/pics/b.png".to_string(), 2000)]
    );

    // a.jpg vanishes from disk; c.heic appears.
    let fs2 = vec!["b.png".to_string(), "c.heic".to_string()];
    let plan2 = plan_reconcile(&mut store, &dir, &fs2);
    assert_eq!(plan2.to_add, vec!["c.heic".to_string()]);
    assert_eq!(plan2.to_remove, vec!["a.jpg".to_string()]);
    let adds2 = vec![("c.heic".to_string(), 1500i64)];
    let out2 = commit_reconcile(&mut store, &dir, &plan2, &adds2);
    assert_eq!(
        rows(&out2),
        vec![("/pics/c.heic".to_string(), 1500), ("/pics/b.png".to_string(), 2000)]
    );
}
