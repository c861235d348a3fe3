//! Resolves a file to the directory that keeps its snapshots, giving a file that
//! is not yet managed a fresh directory of its own.
use vstd::prelude::*;
use super::journal::{join, join_path, Journal};

verus! {

/// The name of a managed file's snapshot journal inside its storage directory.
pub const MANAGED_FILE_SNAPSHOT_JOURNAL_FILE_NAME: &'static str = "__snaps_journal";

/// Relies on `uuid::Uuid::new_v4` for a random identifier, written in the
/// hyphenated form of uuid's `Display` (36 characters).
#[verifier::external_body]
fn new_directory_key() -> (r: String)
    ensures
        r@.len() == 36,
{
    uuid::Uuid::new_v4().to_string()
}

/// Where a managed file's snapshots are kept.
pub struct ManagedFileSite {
    /// The managed file.
    pub target_file: String,
    /// The directory that keeps its snapshots.
    pub snapshot_storage: String,
    /// The snapshot journal's file inside that directory.
    pub snapshot_journal_file: String,
}

impl ManagedFileSite {
    /// This site keeps the snapshots of `target` in `storage`.
    pub open spec fn is_site(&self, target: Seq<char>, storage: Seq<char>) -> bool {
        &&& self.target_file@ == target
        &&& self.snapshot_storage@ == storage
        &&& self.snapshot_journal_file@ == join_path(storage, MANAGED_FILE_SNAPSHOT_JOURNAL_FILE_NAME@)
    }
}

/// What resolving a file found.
pub enum Resolution {
    /// The file is managed; its storage directory is recorded in the root journal.
    Managed(ManagedFileSite),
    /// The file is not managed. Its storage directory and an empty snapshot
    /// journal in it are to be created, and then registered.
    Unmanaged(ManagedFileSite),
}

impl Resolution {
    pub open spec fn site(&self) -> ManagedFileSite {
        match self {
            Resolution::Managed(s) => *s,
            Resolution::Unmanaged(s) => *s,
        }
    }
}

/// The storage directory that resolving `path` gives, in a root journal that maps
/// managed files to `dirs`, with `key` as the name of a fresh directory.
pub open spec fn storage_for(
    dirs: Map<Seq<char>, Seq<char>>,
    root: Seq<char>,
    path: Seq<char>,
    key: Seq<char>,
) -> Seq<char> {
    if dirs.contains_key(path) {
        dirs[path]
    } else {
        join_path(root, key)
    }
}

/// The root journal after `path` is resolved and, if it was not managed,
/// registered with its fresh directory.
pub open spec fn after_resolution(
    dirs: Map<Seq<char>, Seq<char>>,
    root: Seq<char>,
    path: Seq<char>,
    key: Seq<char>,
) -> Map<Seq<char>, Seq<char>> {
    if dirs.contains_key(path) {
        dirs
    } else {
        dirs.insert(path, storage_for(dirs, root, path, key))
    }
}

/// Resolution is idempotent: once a path has been resolved (and registered if it
/// was new), the root journal holds an entry for it, and resolving it again,
/// whatever fresh key is at hand, gives the same storage directory.
pub proof fn lemma_resolution_idempotent(
    dirs: Map<Seq<char>, Seq<char>>,
    root: Seq<char>,
    path: Seq<char>,
    key1: Seq<char>,
    key2: Seq<char>,
)
    ensures
        after_resolution(dirs, root, path, key1).contains_key(path),
        storage_for(after_resolution(dirs, root, path, key1), root, path, key2) == storage_for(
            dirs,
            root,
            path,
            key1,
        ),
        after_resolution(after_resolution(dirs, root, path, key1), root, path, key2)
            == after_resolution(dirs, root, path, key1),
{
}

/// Resolves files against a root journal, which it owns while it works.
pub struct ManagedFileJournal {
    pub root_journal: Journal,
}

impl ManagedFileJournal {
    pub fn for_journal(root_journal: Journal) -> (r: ManagedFileJournal)
        ensures
            r.root_journal == root_journal,
    {
        ManagedFileJournal { root_journal }
    }

    /// Hands the root journal back.
    pub fn into_journal(self) -> (r: Journal)
        ensures
            r == self.root_journal,
    {
        self.root_journal
    }

    /// The site of the file at `file_path`, if it is managed.
    pub fn get_managed_file(&self, file_path: &String) -> (r: Option<ManagedFileSite>)
        requires
            self.root_journal.wf(),
        ensures
            r is Some <==> self.root_journal.managed_dirs().contains_key(file_path@),
            r matches Some(site) ==> site.is_site(
                file_path@,
                self.root_journal.managed_dirs()[file_path@],
            ),
    {
        match self.root_journal.get_record(file_path) {
            Some(entry) => {
                let storage = entry.root.clone();
                let journal_file = join(&storage, MANAGED_FILE_SNAPSHOT_JOURNAL_FILE_NAME);
                Some(
                    ManagedFileSite {
                        target_file: file_path.clone(),
                        snapshot_storage: storage,
                        snapshot_journal_file: journal_file,
                    },
                )
            },
            None => None,
        }
    }

    /// Resolves the file at `file_path`, with `dir_key` as the name of the fresh
    /// directory that a file not yet managed gets under the root. The root
    /// journal is left as it is.
    pub fn resolve_with_key(&self, file_path: &String, dir_key: &String) -> (r: Resolution)
        requires
            self.root_journal.wf(),
        ensures
            r is Managed <==> self.root_journal.managed_dirs().contains_key(file_path@),
            r.site().is_site(
                file_path@,
                storage_for(
                    self.root_journal.managed_dirs(),
                    self.root_journal.root@,
                    file_path@,
                    dir_key@,
                ),
            ),
    {
        match self.get_managed_file(file_path) {
            Some(site) => Resolution::Managed(site),
            None => {
                let storage = join(&self.root_journal.root, dir_key.as_str());
                let journal_file = join(&storage, MANAGED_FILE_SNAPSHOT_JOURNAL_FILE_NAME);
                Resolution::Unmanaged(
                    ManagedFileSite {
                        target_file: file_path.clone(),
                        snapshot_storage: storage,
                        snapshot_journal_file: journal_file,
                    },
                )
            },
        }
    }

    /// Resolves the file at `file_path`; a file not yet managed gets a fresh,
    /// randomly named directory under the root. The root journal is left as it
    /// is: an unmanaged file's directory is to be created, then registered.
    pub fn create_or_get_managed_file(&self, file_path: &String) -> (r: Resolution)
        requires
            self.root_journal.wf(),
        ensures
            r is Managed <==> self.root_journal.managed_dirs().contains_key(file_path@),
            r matches Resolution::Managed(site) ==> site.is_site(
                file_path@,
                self.root_journal.managed_dirs()[file_path@],
            ),
            r matches Resolution::Unmanaged(site) ==> exists|key: Seq<char>|
                key.len() == 36 && #[trigger] site.is_site(
                    file_path@,
                    join_path(self.root_journal.root@, key),
                ),
    {
        let key = new_directory_key();
        let r = self.resolve_with_key(file_path, &key);
        proof {
            if r is Unmanaged {
                assert(r.site().is_site(file_path@, join_path(self.root_journal.root@, key@)));
            }
        }
        r
    }

    /// Records in the root journal that the site's file is managed, its snapshots
    /// kept in the site's storage directory. Called once that directory and its
    /// snapshot journal exist, so that no entry names a missing directory.
    pub fn register(&mut self, site: &ManagedFileSite)
        requires
            old(self).root_journal.wf(),
        ensures
            final(self).root_journal.wf(),
            final(self).root_journal.managed_dirs() == old(self).root_journal.managed_dirs().insert(
                site.target_file@,
                site.snapshot_storage@,
            ),
            final(self).root_journal.root == old(self).root_journal.root,
    {
        self.root_journal.add_record(site.target_file.clone(), site.snapshot_storage.clone());
    }
}

} // verus!
