use hippo::journaling::journal::{join, Journal};
use hippo::journaling::managed_file_journal::{ManagedFileJournal, Resolution};

#[test]
fn initialize_names_the_root_journal_file() {
    let journal = Journal::initialize("/tmp/t1".to_string(), &vec![]);
    assert_eq!(journal.root, "/tmp/t1");
    assert_eq!(journal.root_journal_config.file_path(), "/tmp/t1/__hippo_journal");
    assert_eq!(Journal::get_root_journal_path(&"/tmp/t1/".to_string()), "/tmp/t1/__hippo_journal");
    assert_eq!(journal.root_journal_config.write(), Ok(None));
}

#[test]
fn join_adds_one_separator() {
    assert_eq!(join(&"/a".to_string(), "b"), "/a/b");
    assert_eq!(join(&"/a/".to_string(), "b"), "/a/b");
    assert_eq!(join(&"".to_string(), "b"), "b");
}

#[test]
fn journal_records_and_looks_up_files() {
    let mut journal = Journal::initialize("/tmp/t1".to_string(), &b"000002/a/tmp/t1/x\n\n".to_vec());
    assert!(journal.contains_record(&"/a".to_string()));
    assert_eq!(journal.get_record(&"/a".to_string()).unwrap().root, "/tmp/t1/x");
    assert!(!journal.contains_record(&"/b".to_string()));
    assert!(journal.get_record(&"/b".to_string()).is_none());
    journal.add_record("/b".to_string(), "/tmp/t1/y".to_string());
    assert!(journal.contains_record(&"/b".to_string()));
}

#[test]
fn first_resolution_creates_site_and_registers_it() {
    let journal = Journal::initialize("/tmp/t1".to_string(), &vec![]);
    let mut registry = ManagedFileJournal::for_journal(journal);
    let path = "/etc/app.conf".to_string();
    let site = match registry.resolve_with_key(&path, &"uuid-1".to_string()) {
        Resolution::Unmanaged(site) => site,
        Resolution::Managed(_) => panic!("file should not be managed yet"),
    };
    assert_eq!(site.target_file, "/etc/app.conf");
    assert_eq!(site.snapshot_storage, "/tmp/t1/uuid-1");
    assert_eq!(site.snapshot_journal_file, "/tmp/t1/uuid-1/__snaps_journal");
    assert!(registry.get_managed_file(&path).is_none());
    registry.register(&site);
    let journal = registry.into_journal();
    let bytes = journal.root_journal_config.write().ok().unwrap().unwrap();
    assert_eq!(bytes, b"000013/etc/app.conf/tmp/t1/uuid-1\n\n".to_vec());
}

#[test]
fn second_resolution_gives_the_same_directory() {
    let journal = Journal::initialize("/tmp/t1".to_string(), &vec![]);
    let mut registry = ManagedFileJournal::for_journal(journal);
    let path = "/etc/app.conf".to_string();
    let first = match registry.create_or_get_managed_file(&path) {
        Resolution::Unmanaged(site) => site,
        Resolution::Managed(_) => panic!("file should not be managed yet"),
    };
    assert_eq!(first.snapshot_storage.len(), "/tmp/t1/".len() + 36);
    registry.register(&first);
    match registry.create_or_get_managed_file(&path) {
        Resolution::Managed(site) => {
            assert_eq!(site.snapshot_storage, first.snapshot_storage);
            assert_eq!(site.snapshot_journal_file, first.snapshot_journal_file);
        }
        Resolution::Unmanaged(_) => panic!("file should be managed"),
    }
    let got = registry.get_managed_file(&path).unwrap();
    assert_eq!(got.snapshot_storage, first.snapshot_storage);
}

#[test]
fn fresh_directories_differ() {
    let journal = Journal::initialize("/tmp/t1".to_string(), &vec![]);
    let registry = ManagedFileJournal::for_journal(journal);
    let path = "/etc/app.conf".to_string();
    let a = registry.create_or_get_managed_file(&path);
    let b = registry.create_or_get_managed_file(&path);
    match (a, b) {
        (Resolution::Unmanaged(x), Resolution::Unmanaged(y)) => {
            assert_ne!(x.snapshot_storage, y.snapshot_storage)
        }
        _ => panic!("file should not be managed"),
    }
}
