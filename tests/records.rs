use hippo::journaling::journal::RootJournalEntry;
use hippo::utils::simple_file_records::SimpleFileRecords;

fn entry(key: &str, root: &str) -> RootJournalEntry {
    RootJournalEntry { key: key.to_string(), root: root.to_string() }
}

fn open(content: &[u8]) -> SimpleFileRecords<RootJournalEntry> {
    SimpleFileRecords::new("test".to_string(), "/tmp/store".to_string(), &content.to_vec())
}

#[test]
fn clean_store_writes_nothing() {
    let store = open(b"000001ab\n\n");
    assert!(!store.is_dirty());
    assert_eq!(store.write(), Ok(None));
}

#[test]
fn new_store_from_empty_file_is_empty() {
    let store = open(b"");
    assert!(store.entries().is_empty());
    assert_eq!(store.skipped_lines(), 0);
    assert_eq!(store.file_path(), "/tmp/store");
    assert_eq!(store.name(), "test");
}

#[test]
fn adding_marks_dirty_and_is_written() {
    let mut store = open(b"");
    store.add(entry("k", "v"));
    assert!(store.is_dirty());
    assert_eq!(store.write(), Ok(Some(b"000001kv\n\n".to_vec())));
}

#[test]
fn adding_an_existing_key_replaces_it() {
    let mut store = open(b"000001k1\n000001j2\n\n");
    store.add(entry("k", "3"));
    assert_eq!(store.entries().len(), 2);
    assert_eq!(store.get_record(&"k".to_string()).unwrap().root, "3");
    assert_eq!(store.get_record(&"j".to_string()).unwrap().root, "2");
    assert!(store.get_record(&"x".to_string()).is_none());
}

#[test]
fn later_line_replaces_earlier_one() {
    let store = open(b"000001k1\n000001k2\n\n");
    assert_eq!(store.entries().len(), 1);
    assert_eq!(store.get_record(&"k".to_string()).unwrap().root, "2");
}

#[test]
fn flushed_records_reopen_unchanged() {
    let mut store = open(b"");
    store.add(entry("/etc/app.conf", "/tmp/t1/a"));
    store.add(entry("/etc/hosts", "/tmp/t1/b"));
    store.add(entry("/etc/app.conf", "/tmp/t1/c"));
    let bytes = store.write().ok().unwrap().unwrap();
    let reopened = open(&bytes);
    assert_eq!(reopened.skipped_lines(), 0);
    assert_eq!(reopened.entries().len(), 2);
    assert_eq!(reopened.get_record(&"/etc/app.conf".to_string()).unwrap().root, "/tmp/t1/c");
    assert_eq!(reopened.get_record(&"/etc/hosts".to_string()).unwrap().root, "/tmp/t1/b");
    assert!(reopened.contains_key(&"/etc/hosts".to_string()));
}

#[test]
fn values_are_written_under_entry_keys() {
    let mut store: SimpleFileRecords<RootJournalEntry> =
        SimpleFileRecords::with_entries("t".to_string(), "/tmp/x".to_string(), vec![]);
    assert_eq!(store.write_with_values(&vec![]), Ok(None));
    store.add(entry("a", "ignored"));
    assert_eq!(store.write_with_values(&vec!["{}".to_string()]), Ok(Some(b"000001a{}\n\n".to_vec())));
}
