use hippo::journaling::managed_file::{
    default_comment, ManagedFile, ManagedFileError, Snapshot, SnapshotEntry, SyntheticSnapshot, Timestamp,
};

fn managed(target: &str, entries: Vec<SnapshotEntry>) -> ManagedFile {
    ManagedFile::new(
        target.to_string(),
        "/tmp/t1/u/__snaps_journal".to_string(),
        "/tmp/t1/u".to_string(),
        entries,
    )
}

fn entry(name: &str, secs: i64, nanos: u32) -> SnapshotEntry {
    SnapshotEntry {
        snapshot_name: name.to_string(),
        comment: String::new(),
        created_time: Timestamp { secs, nanos },
        relative_file_path: format!("f-{}", name),
        author: "alice".to_string(),
    }
}

fn names(mf: &ManagedFile) -> Vec<String> {
    let listing = mf.get_snapshots();
    listing
        .snapshots
        .iter()
        .map(|s| match s {
            Snapshot::Synthetic(SyntheticSnapshot::Null) => "(null)".to_string(),
            Snapshot::Tangible(e) => e.snapshot_name.clone(),
        })
        .collect()
}

#[test]
fn snapshot_with_name_and_author() {
    let mf = managed("/etc/app.conf", vec![]);
    let copy = mf
        .snap_current_state(Some("v1".to_string()), None, Some("alice".to_string()))
        .ok()
        .unwrap();
    assert_eq!(copy.snapshot_name, "v1");
    assert_eq!(copy.author, "alice");
    assert_eq!(copy.stored_file_name, "app.conf-v1");
    assert_eq!(copy.source, "/etc/app.conf");
    assert_eq!(copy.destination, "/tmp/t1/u/app.conf-v1");
    assert!(copy.comment.starts_with("Created snapshot by alice on "));
    assert!(copy.comment.len() > "Created snapshot by alice on ".len());
}

#[test]
fn snapshot_entry_records_the_copy() {
    let mut mf = managed("/etc/app.conf", vec![]);
    let copy = mf
        .snap_current_state(Some("v1".to_string()), None, Some("alice".to_string()))
        .ok()
        .unwrap();
    let e = mf.add_snapshot(copy, Timestamp { secs: 100, nanos: 5 });
    assert_eq!(e.snapshot_name, "v1");
    assert_eq!(e.author, "alice");
    assert_eq!(e.relative_file_path, "app.conf-v1");
    assert_eq!(e.created_time, Timestamp { secs: 100, nanos: 5 });
    assert!(mf.tangible_snapshot_journal.is_dirty());
    assert_eq!(mf.tangible_snapshot_journal.entries().len(), 1);
}

#[test]
fn snapshot_given_everything_keeps_it() {
    let mf = managed("/etc/app.conf", vec![]);
    let copy = mf
        .snapshot_copy("v2".to_string(), "my comment".to_string(), "bob".to_string())
        .ok()
        .unwrap();
    assert_eq!(copy.comment, "my comment");
    assert_eq!(copy.author, "bob");
    assert_eq!(copy.stored_file_name, "app.conf-v2");
}

#[test]
fn default_name_is_a_time_token() {
    let mf = managed("/etc/app.conf", vec![]);
    let copy = mf
        .snap_current_state(None, Some("c".to_string()), Some("alice".to_string()))
        .ok()
        .unwrap();
    let n = copy.snapshot_name.as_bytes();
    assert_eq!(n.len(), 17);
    assert_eq!(n[6], b'.');
    assert_eq!(n[9], b'.');
    assert_eq!(n[14], b'.');
    assert!(n.iter().enumerate().all(|(i, c)| i == 6 || i == 9 || i == 14 || c.is_ascii_digit()));
    assert_eq!(copy.stored_file_name, format!("app.conf-{}", copy.snapshot_name));
}

#[test]
fn default_author_is_current_user_or_unknown() {
    let mf = managed("/etc/app.conf", vec![]);
    match mf.snap_current_state(Some("v".to_string()), Some("c".to_string()), None) {
        Ok(copy) => assert!(!copy.author.is_empty()),
        Err(e) => assert_eq!(e, ManagedFileError::UnknownAuthor),
    }
}

#[test]
fn path_without_file_name_is_refused() {
    let mf = managed("/etc/", vec![]);
    let r = mf.snapshot_copy("v".to_string(), "c".to_string(), "a".to_string());
    assert!(matches!(r, Err(ManagedFileError::NoFileName)));
    let r = mf.snap_current_state(Some("v".to_string()), Some("c".to_string()), Some("a".to_string()));
    assert!(r.is_err());
}

#[test]
fn default_comment_text() {
    assert_eq!(
        default_comment(&"alice".to_string(), &"Sun Oct 18 12:00:00 2026".to_string()),
        "Created snapshot by alice on Sun Oct 18 12:00:00 2026"
    );
}

#[test]
fn listing_is_ordered_by_time_after_placeholder() {
    let mf = managed("/etc/app.conf", vec![entry("c", 30, 0), entry("a", 10, 0), entry("b", 20, 0)]);
    assert_eq!(names(&mf), vec!["(null)", "a", "b", "c"]);
    let listing = mf.get_snapshots();
    assert_eq!(listing.synthetic_count, 1);
    assert_eq!(listing.tangible_count, 3);
}

#[test]
fn listing_uses_nanoseconds_then_names() {
    let mf = managed(
        "/etc/app.conf",
        vec![entry("z", 10, 2), entry("y", 10, 1), entry("b", 5, 0), entry("a", 5, 0)],
    );
    assert_eq!(names(&mf), vec!["(null)", "a", "b", "y", "z"]);
}

#[test]
fn listing_of_no_snapshots_is_the_placeholder() {
    let mf = managed("/etc/app.conf", vec![]);
    assert_eq!(names(&mf), vec!["(null)"]);
    assert_eq!(mf.get_snapshots().tangible_count, 0);
}

#[test]
fn snapshot_with_existing_name_replaces_it() {
    let mut mf = managed("/etc/app.conf", vec![entry("v1", 10, 0)]);
    let copy = mf
        .snapshot_copy("v1".to_string(), "again".to_string(), "bob".to_string())
        .ok()
        .unwrap();
    mf.add_snapshot(copy, Timestamp { secs: 20, nanos: 0 });
    let listing = mf.get_snapshots();
    assert_eq!(listing.tangible_count, 1);
    match &listing.snapshots[1] {
        Snapshot::Tangible(e) => {
            assert_eq!(e.comment, "again");
            assert_eq!(e.created_time.secs, 20);
        }
        Snapshot::Synthetic(_) => panic!("expected an entry"),
    }
}

#[test]
fn record_snapshot_stamps_a_time() {
    let mut mf = managed("/etc/app.conf", vec![]);
    let copy = mf
        .snapshot_copy("v1".to_string(), "c".to_string(), "a".to_string())
        .ok()
        .unwrap();
    let e = mf.record_snapshot(copy);
    assert!(e.created_time.secs > 1_500_000_000);
}
