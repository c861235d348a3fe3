//! The root journal: which files are managed, and where its snapshots are kept.
use vstd::prelude::*;
use crate::utils::line_format::{decode_lines, RecordView, SimpleRecord};
use crate::utils::simple_file_records::{
    records_map, MapsToSimpleRecord, RecordKey, SimpleFileRecords,
};

verus! {

/// The name of the root journal's file inside the root directory.
pub const ROOT_JOURNAL_FILE_NAME: &'static str = "__hippo_journal";

/// `name` inside the directory `dir`.
pub open spec fn join_path(dir: Seq<char>, name: Seq<char>) -> Seq<char> {
    if dir.len() == 0 || dir.last() == '/' {
        dir + name
    } else {
        dir + seq!['/'] + name
    }
}

/// The path of `name` inside the directory `dir`.
pub fn join(dir: &String, name: &str) -> (r: String)
    ensures
        r@ == join_path(dir@, name@),
{
    let mut r = dir.clone();
    let n = dir.as_str().unicode_len();
    if n > 0 && dir.as_str().get_char(n - 1) != '/' {
        let sep = "/";
        proof {
            reveal_strlit("/");
        }
        r.append(sep);
    }
    r.append(name);
    r
}

/// A managed file's path and the directory that keeps its snapshots.
pub struct RootJournalEntry {
    pub key: String,
    pub root: String,
}

impl RecordKey for RootJournalEntry {
    open spec fn record_key(&self) -> Seq<char> {
        self.key@
    }

    fn key(&self) -> (k: String) {
        self.key.clone()
    }
}

impl MapsToSimpleRecord for RootJournalEntry {
    open spec fn spec_to(&self) -> RecordView {
        (self.key@, self.root@)
    }

    proof fn lemma_record_key(&self) {
    }

    fn from(simple_record: SimpleRecord) -> (e: Self) {
        RootJournalEntry { key: simple_record.key, root: simple_record.value }
    }

    fn to(&self) -> (r: SimpleRecord) {
        SimpleRecord { key: self.key.clone(), value: self.root.clone() }
    }
}

/// The root directory and its journal.
pub struct Journal {
    pub root: String,
    pub root_journal_config: SimpleFileRecords<RootJournalEntry>,
}

impl Journal {
    pub open spec fn wf(&self) -> bool {
        self.root_journal_config.wf()
    }

    /// Each managed file's path, with the directory that keeps its snapshots.
    pub open spec fn managed_dirs(&self) -> Map<Seq<char>, Seq<char>> {
        self.root_journal_config.record_map()
    }

    /// The journal of the root directory `root`, whose journal file holds `content`.
    pub fn initialize(root: String, content: &Vec<u8>) -> (j: Journal)
        ensures
            j.wf(),
            j.root@ == root@,
            j.managed_dirs() == records_map(decode_lines(content@)),
            j.root_journal_config.spec_path() == join_path(root@, ROOT_JOURNAL_FILE_NAME@),
            !j.root_journal_config.spec_dirty(),
    {
        let path = Journal::get_root_journal_path(&root);
        let name = String::from_str("root_journal");
        let root_journal = SimpleFileRecords::new(name, path, content);
        Journal { root, root_journal_config: root_journal }
    }

    /// Whether the file at `key` is managed.
    pub fn contains_record(&self, key: &String) -> (r: bool)
        requires
            self.wf(),
        ensures
            r == self.managed_dirs().contains_key(key@),
    {
        self.root_journal_config.contains_key(key)
    }

    /// The entry of the file at `key`, if it is managed.
    pub fn get_record(&self, key: &String) -> (r: Option<&RootJournalEntry>)
        requires
            self.wf(),
        ensures
            r is Some <==> self.managed_dirs().contains_key(key@),
            r matches Some(e) ==> e.key@ == key@ && e.root@ == self.managed_dirs()[key@],
    {
        self.root_journal_config.get_record(key)
    }

    /// Manages the file at `file_path`, its snapshots kept in `managed_root`.
    pub fn add_record(&mut self, file_path: String, managed_root: String)
        requires
            old(self).wf(),
        ensures
            final(self).wf(),
            final(self).managed_dirs() == old(self).managed_dirs().insert(file_path@, managed_root@),
            final(self).root == old(self).root,
            final(self).root_journal_config.spec_dirty(),
            final(self).root_journal_config.spec_path() == old(self).root_journal_config.spec_path(),
    {
        let entry = RootJournalEntry { key: file_path, root: managed_root };
        self.root_journal_config.add(entry);
        proof {
            assert(self.managed_dirs() =~= old(self).managed_dirs().insert(file_path@, managed_root@));
        }
    }

    /// The path of the root journal's file in the root directory `root`.
    pub fn get_root_journal_path(root: &String) -> (r: String)
        ensures
            r@ == join_path(root@, ROOT_JOURNAL_FILE_NAME@),
    {
        join(root, ROOT_JOURNAL_FILE_NAME)
    }
}

} // verus!
