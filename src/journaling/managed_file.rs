//! A managed file's snapshots: taking one, and listing them in order.
use vstd::prelude::*;
use vstd::seq_lib::{to_multiset_build, to_multiset_insert};
use crate::utils::simple_file_records::{entries_map, keys_unique, RecordKey, SimpleFileRecords};
use super::journal::{join, join_path};

verus! {

/// How the default name of a snapshot writes its UTC creation time.
pub const SNAPSHOT_NAME_FORMAT: &'static str = "%Y%m.%d.%H%M.%S";

/// How the default comment of a snapshot writes its local creation time.
pub const SNAPSHOT_COMMENT_TIME_FORMAT: &'static str = "%a %b %e %T %Y";

/// An instant, as seconds and nanoseconds since 1970-01-01 00:00:00 UTC.
#[derive(Clone, Copy, Debug, PartialEq, Eq, Structural)]
pub struct Timestamp {
    pub secs: i64,
    pub nanos: u32,
}

/// `a` comes strictly before `b`.
pub open spec fn time_lt(a: Timestamp, b: Timestamp) -> bool {
    a.secs < b.secs || (a.secs == b.secs && a.nanos < b.nanos)
}

/// The snapshot `snapshot_name` of a managed file, kept in its storage directory
/// as `relative_file_path`.
pub struct SnapshotEntry {
    pub snapshot_name: String,
    pub comment: String,
    pub created_time: Timestamp,
    pub relative_file_path: String,
    pub author: String,
}

impl SnapshotEntry {
    /// A copy of this entry.
    pub fn duplicate(&self) -> (r: SnapshotEntry)
        ensures
            r == *self,
    {
        SnapshotEntry {
            snapshot_name: self.snapshot_name.clone(),
            comment: self.comment.clone(),
            created_time: self.created_time,
            relative_file_path: self.relative_file_path.clone(),
            author: self.author.clone(),
        }
    }
}

impl RecordKey for SnapshotEntry {
    open spec fn record_key(&self) -> Seq<char> {
        self.snapshot_name@
    }

    fn key(&self) -> (k: String) {
        self.snapshot_name.clone()
    }
}

/// `a` comes before `b` or equals it, comparing code points from the left.
pub open spec fn name_le(a: Seq<char>, b: Seq<char>) -> bool
    decreases a.len(),
{
    if a.len() == 0 {
        true
    } else if b.len() == 0 {
        false
    } else if a[0] != b[0] {
        (a[0] as u32) < (b[0] as u32)
    } else {
        name_le(a.drop_first(), b.drop_first())
    }
}

/// The order of a listing: by creation time, then by name.
pub open spec fn entry_le(a: SnapshotEntry, b: SnapshotEntry) -> bool {
    time_lt(a.created_time, b.created_time) || (a.created_time == b.created_time && name_le(
        a.snapshot_name@,
        b.snapshot_name@,
    ))
}

pub open spec fn sorted_entries(s: Seq<SnapshotEntry>) -> bool {
    forall|i: int, j: int| 0 <= i < j < s.len() ==> entry_le(#[trigger] s[i], #[trigger] s[j])
}

proof fn lemma_name_le_total(a: Seq<char>, b: Seq<char>)
    ensures
        name_le(a, b) || name_le(b, a),
    decreases a.len(),
{
    if a.len() > 0 && b.len() > 0 && a[0] == b[0] {
        lemma_name_le_total(a.drop_first(), b.drop_first());
    } else if a.len() > 0 && b.len() > 0 {
        assert((a[0] as u32) != (b[0] as u32)) by {
            vstd::utf8::char_u32_cast(a[0], a[0] as u32);
            vstd::utf8::char_u32_cast(b[0], b[0] as u32);
        }
    }
}

proof fn lemma_name_le_transitive(a: Seq<char>, b: Seq<char>, c: Seq<char>)
    requires
        name_le(a, b),
        name_le(b, c),
    ensures
        name_le(a, c),
    decreases a.len(),
{
    if a.len() > 0 && b.len() > 0 && c.len() > 0 && a[0] == b[0] && b[0] == c[0] {
        lemma_name_le_transitive(a.drop_first(), b.drop_first(), c.drop_first());
    }
}

proof fn lemma_entry_le_total(a: SnapshotEntry, b: SnapshotEntry)
    ensures
        entry_le(a, b) || entry_le(b, a),
{
    lemma_name_le_total(a.snapshot_name@, b.snapshot_name@);
}

proof fn lemma_entry_le_transitive(a: SnapshotEntry, b: SnapshotEntry, c: SnapshotEntry)
    requires
        entry_le(a, b),
        entry_le(b, c),
    ensures
        entry_le(a, c),
{
    if a.created_time == b.created_time && b.created_time == c.created_time {
        lemma_name_le_transitive(a.snapshot_name@, b.snapshot_name@, c.snapshot_name@);
    }
}

/// Whether `a` comes before `b`, or equals it, comparing code points.
fn name_le_exec(a: &String, b: &String) -> (r: bool)
    ensures
        r == name_le(a@, b@),
{
    let sa = a.as_str();
    let sb = b.as_str();
    let na = sa.unicode_len();
    let nb = sb.unicode_len();
    let mut i: usize = 0;
    assert(a@.subrange(0, na as int) =~= a@);
    assert(b@.subrange(0, nb as int) =~= b@);
    while i < na && i < nb
        invariant
            sa@ == a@,
            sb@ == b@,
            na == a@.len(),
            nb == b@.len(),
            i <= na,
            i <= nb,
            name_le(a@, b@) == name_le(a@.subrange(i as int, na as int), b@.subrange(i as int, nb as int)),
        decreases na - i,
    {
        let ca = sa.get_char(i);
        let cb = sb.get_char(i);
        if ca != cb {
            return (ca as u32) < (cb as u32);
        }
        assert(a@.subrange(i as int, na as int).drop_first() =~= a@.subrange(i + 1, na as int));
        assert(b@.subrange(i as int, nb as int).drop_first() =~= b@.subrange(i + 1, nb as int));
        i = i + 1;
    }
    i == na
}

/// Whether `a` comes before `b` in a listing, or equals it.
fn entry_le_exec(a: &SnapshotEntry, b: &SnapshotEntry) -> (r: bool)
    ensures
        r == entry_le(*a, *b),
{
    if a.created_time.secs != b.created_time.secs {
        a.created_time.secs < b.created_time.secs
    } else if a.created_time.nanos != b.created_time.nanos {
        a.created_time.nanos < b.created_time.nanos
    } else {
        name_le_exec(&a.snapshot_name, &b.snapshot_name)
    }
}

/// Inserts `x` into the sorted `v`, keeping it sorted.
fn insert_sorted(v: &mut Vec<SnapshotEntry>, x: SnapshotEntry)
    requires
        sorted_entries(old(v)@),
    ensures
        sorted_entries(final(v)@),
        final(v)@.to_multiset() == old(v)@.to_multiset().insert(x),
{
    let mut p: usize = 0;
    while p < v.len() && entry_le_exec(&v[p], &x)
        invariant
            p <= v@.len(),
            v@ == old(v)@,
            forall|j: int| 0 <= j < p ==> entry_le(#[trigger] v@[j], x),
        decreases v@.len() - p,
    {
        p = p + 1;
    }
    let ghost s = v@;
    proof {
        if p < s.len() {
            lemma_entry_le_total(s[p as int], x);
        }
        assert forall|j: int| p <= j < s.len() implies entry_le(x, #[trigger] s[j]) by {
            if j > p {
                lemma_entry_le_transitive(x, s[p as int], s[j]);
            }
        }
        to_multiset_insert(s, p as int, x);
    }
    v.insert(p, x);
    proof {
        let t = v@;
        assert forall|i: int, j: int| 0 <= i < j < t.len() implies entry_le(
            #[trigger] t[i],
            #[trigger] t[j],
        ) by {
            if j < p {
                assert(t[i] == s[i] && t[j] == s[j]);
            } else if j == p {
                assert(t[i] == s[i]);
            } else if i < p {
                assert(t[i] == s[i] && t[j] == s[j - 1]);
                lemma_entry_le_transitive(s[i], x, s[j - 1]);
            } else if i == p {
                assert(t[j] == s[j - 1]);
            } else {
                assert(t[i] == s[i - 1] && t[j] == s[j - 1]);
            }
        }
    }
}

/// In a sorted listing an entry created earlier than another stands before it.
pub proof fn lemma_sorted_by_time(s: Seq<SnapshotEntry>, i: int, j: int)
    requires
        sorted_entries(s),
        0 <= i < s.len(),
        0 <= j < s.len(),
        time_lt(s[i].created_time, s[j].created_time),
    ensures
        i < j,
{
    if j < i {
        assert(entry_le(s[j], s[i]));
    }
}

/// The placeholder that stands before all snapshots: the file before any was taken.
#[derive(Clone, Copy, Debug, PartialEq, Eq, Structural)]
pub enum SyntheticSnapshot {
    Null,
}

/// One item of a listing.
pub enum Snapshot {
    Synthetic(SyntheticSnapshot),
    Tangible(SnapshotEntry),
}

/// The snapshots of a managed file: the placeholder, then every snapshot by
/// creation time (and by name where times are equal).
pub struct SnapshotsListing {
    pub snapshots: Vec<Snapshot>,
    pub synthetic_count: usize,
    pub tangible_count: usize,
}

/// The snapshot entries of a listing, after its placeholder.
pub open spec fn tangible_entries(s: Seq<Snapshot>) -> Seq<SnapshotEntry> {
    s.drop_first().map_values(|x: Snapshot| x->Tangible_0)
}

/// Why a snapshot cannot be taken.
#[derive(Clone, Copy, Debug, PartialEq, Eq, Structural)]
pub enum ManagedFileError {
    /// The managed file's path has no file name to build the stored name from.
    NoFileName,
    /// No author was given and the current user has no name.
    UnknownAuthor,
    /// The clock gave a time that cannot be written as a date.
    TimeOutOfRange,
    /// The file could not be read or its copy written.
    Io,
}

/// The last component of `p`: what follows its last `/`.
pub open spec fn base_name(p: Seq<char>) -> Seq<char>
    decreases p.len(),
{
    if p.len() == 0 || p.last() == '/' {
        Seq::empty()
    } else {
        base_name(p.drop_last()).push(p.last())
    }
}

proof fn lemma_base_name(p: Seq<char>, k: int)
    requires
        0 <= k <= p.len(),
        k == 0 || p[k - 1] == '/',
        forall|j: int| k <= j < p.len() ==> p[j] != '/',
    ensures
        base_name(p) == p.subrange(k, p.len() as int),
    decreases p.len(),
{
    if p.len() > k {
        lemma_base_name(p.drop_last(), k);
        assert(p.drop_last().subrange(k, p.len() - 1).push(p.last()) =~= p.subrange(k, p.len() as int));
    } else if k > 0 {
        assert(p.subrange(k, p.len() as int) =~= Seq::<char>::empty());
    }
}

/// The last component of `path`.
fn file_base_name(path: &String) -> (r: String)
    ensures
        r@ == base_name(path@),
{
    let s = path.as_str();
    let n = s.unicode_len();
    let mut k: usize = n;
    while k > 0 && s.get_char(k - 1) != '/'
        invariant
            s@ == path@,
            n == path@.len(),
            k <= n,
            forall|j: int| k <= j < n ==> path@[j] != '/',
        decreases k,
    {
        k = k - 1;
    }
    proof {
        lemma_base_name(path@, k as int);
    }
    s.substring_char(k, n).to_owned()
}

/// The name under which the snapshot `snapshot_name` of the file at `target`
/// is stored.
pub open spec fn stored_file_name(target: Seq<char>, snapshot_name: Seq<char>) -> Seq<char> {
    base_name(target) + seq!['-'] + snapshot_name
}

/// The comment a snapshot gets when none is given.
pub open spec fn default_comment_text(author: Seq<char>, local_time: Seq<char>) -> Seq<char> {
    "Created snapshot by "@ + author + " on "@ + local_time
}

/// The comment a snapshot by `author`, taken at `local_time`, gets when none is given.
pub fn default_comment(author: &String, local_time: &String) -> (r: String)
    ensures
        r@ == default_comment_text(author@, local_time@),
{
    let mut r = String::from_str("Created snapshot by ");
    r.append(author.as_str());
    r.append(" on ");
    r.append(local_time.as_str());
    r
}

/// Relies on `chrono::Utc::now`: the current time, as its Unix timestamp and the
/// nanoseconds since that second.
#[verifier::external_body]
fn utc_now() -> (r: Timestamp) {
    let now = chrono::Utc::now();
    Timestamp { secs: now.timestamp(), nanos: now.timestamp_subsec_nanos() }
}

/// What chrono writes for the UTC time `secs`, `nanos` with `format`, if the time
/// is in its range.
pub uninterp spec fn utc_formatted(secs: int, nanos: int, format: Seq<char>) -> Option<Seq<char>>;

/// Relies on chrono's `DateTime::from_timestamp` and `DateTime::format`: the UTC
/// time `t` written with the strftime-style `format`, or nothing when `t` is out
/// of chrono's range.
#[verifier::external_body]
fn format_utc(t: &Timestamp, format: &str) -> (r: Option<String>)
    requires
        format@ == SNAPSHOT_NAME_FORMAT@,
    ensures
        r is Some <==> utc_formatted(t.secs as int, t.nanos as int, format@) is Some,
        r matches Some(s) ==> s@ == utc_formatted(t.secs as int, t.nanos as int, format@)->Some_0,
{
    match chrono::DateTime::from_timestamp(t.secs, t.nanos) {
        Some(d) => Some(d.format(format).to_string()),
        None => None,
    }
}

/// Relies on chrono's `DateTime::with_timezone` with `Local`, and `format`: the
/// time `t` in the machine's time zone, written with `format`. The zone is the
/// machine's, so nothing is promised of the text.
#[verifier::external_body]
fn format_local(t: &Timestamp, format: &str) -> (r: Option<String>)
    requires
        format@ == SNAPSHOT_COMMENT_TIME_FORMAT@,
{
    match chrono::DateTime::from_timestamp(t.secs, t.nanos) {
        Some(d) => Some(d.with_timezone(&chrono::Local).format(format).to_string()),
        None => None,
    }
}

/// Relies on `users::get_current_uid`: the real user id of this process.
#[verifier::external_body]
fn current_uid() -> (r: u32) {
    users::get_current_uid()
}

/// Relies on `users::get_user_by_uid` and `User::name`: the name of the user with
/// id `uid`, if the system knows that user and the name is valid UTF-8.
#[verifier::external_body]
fn user_name_by_uid(uid: u32) -> (r: Option<String>) {
    match users::get_user_by_uid(uid) {
        Some(user) => match user.name().to_str() {
            Some(name) => Some(name.to_string()),
            None => None,
        },
        None => None,
    }
}

/// A snapshot about to be taken: what is copied where, and what is recorded.
pub struct SnapshotCopy {
    pub snapshot_name: String,
    pub comment: String,
    pub author: String,
    /// The stored copy's name inside the storage directory.
    pub stored_file_name: String,
    /// The file to copy.
    pub source: String,
    /// Where its copy goes.
    pub destination: String,
}

/// A managed file, bound to its storage directory and its snapshot journal.
pub struct ManagedFile {
    pub tangible_snapshot_journal: SimpleFileRecords<SnapshotEntry>,
    pub snapshot_storage: String,
    pub target_file: String,
}

impl ManagedFile {
    pub open spec fn wf(&self) -> bool {
        self.tangible_snapshot_journal.wf()
    }

    /// The snapshots, by name.
    pub open spec fn snapshots(&self) -> Map<Seq<char>, SnapshotEntry> {
        self.tangible_snapshot_journal.spec_map()
    }

    /// The managed file at `file_key`, whose snapshots are kept in
    /// `snapshot_storage` and listed in `snapshot_journal_file`, which holds
    /// `entries` (a later entry replaces an earlier one with its name).
    pub fn new(
        file_key: String,
        snapshot_journal_file: String,
        snapshot_storage: String,
        entries: Vec<SnapshotEntry>,
    ) -> (r: ManagedFile)
        ensures
            r.wf(),
            r.snapshots() == entries_map(entries@),
            r.target_file@ == file_key@,
            r.snapshot_storage@ == snapshot_storage@,
            r.tangible_snapshot_journal.spec_path() == snapshot_journal_file@,
            !r.tangible_snapshot_journal.spec_dirty(),
    {
        let mut name = String::from_str("snapshot_journal(");
        name.append(file_key.as_str());
        name.append(")");
        ManagedFile {
            tangible_snapshot_journal: SimpleFileRecords::with_entries(
                name,
                snapshot_journal_file,
                entries,
            ),
            snapshot_storage,
            target_file: file_key,
        }
    }

    /// The copy that takes the snapshot `snapshot_name`, with `comment` and
    /// `author`: the managed file goes into the storage directory under its
    /// file name, a dash and the snapshot's name.
    pub fn snapshot_copy(&self, snapshot_name: String, comment: String, author: String) -> (r:
        Result<SnapshotCopy, ManagedFileError>)
        ensures
            base_name(self.target_file@).len() == 0 <==> r == Err::<SnapshotCopy, ManagedFileError>(
                ManagedFileError::NoFileName,
            ),
            base_name(self.target_file@).len() > 0 <==> r is Ok,
            r matches Ok(c) ==> {
                &&& c.snapshot_name@ == snapshot_name@
                &&& c.comment@ == comment@
                &&& c.author@ == author@
                &&& c.stored_file_name@ == stored_file_name(self.target_file@, snapshot_name@)
                &&& c.source@ == self.target_file@
                &&& c.destination@ == join_path(self.snapshot_storage@, c.stored_file_name@)
            },
    {
        let base = file_base_name(&self.target_file);
        if base.as_str().unicode_len() == 0 {
            return Err(ManagedFileError::NoFileName);
        }
        let mut stored = base;
        stored.append("-");
        stored.append(snapshot_name.as_str());
        proof {
            reveal_strlit("-");
            assert(stored@ =~= stored_file_name(self.target_file@, snapshot_name@));
        }
        let destination = join(&self.snapshot_storage, stored.as_str());
        Ok(
            SnapshotCopy {
                snapshot_name,
                comment,
                author,
                stored_file_name: stored,
                source: self.target_file.clone(),
                destination,
            },
        )
    }

    /// Plans a snapshot of the file as it is now. A missing name is the current
    /// UTC time written as a sortable token; a missing author is the current
    /// user's name; a missing comment says who took the snapshot and when, in
    /// local time.
    pub fn snap_current_state(
        &self,
        snapshot_name: Option<String>,
        comment: Option<String>,
        author: Option<String>,
    ) -> (r: Result<SnapshotCopy, ManagedFileError>)
        ensures
            base_name(self.target_file@).len() == 0 ==> r is Err,
            base_name(self.target_file@).len() > 0 && snapshot_name is Some && comment is Some
                && author is Some ==> r is Ok,
            r matches Ok(c) ==> {
                &&& (snapshot_name matches Some(n) ==> c.snapshot_name@ == n@)
                &&& (snapshot_name is None ==> exists|t: Timestamp|
                    utc_formatted(t.secs as int, t.nanos as int, SNAPSHOT_NAME_FORMAT@) == Some(
                        c.snapshot_name@,
                    ))
                &&& (comment matches Some(m) ==> c.comment@ == m@)
                &&& (author matches Some(a) ==> c.author@ == a@)
                &&& (comment is None ==> exists|local: Seq<char>|
                    c.comment@ == default_comment_text(c.author@, local))
                &&& c.stored_file_name@ == stored_file_name(self.target_file@, c.snapshot_name@)
                &&& c.source@ == self.target_file@
                &&& c.destination@ == join_path(self.snapshot_storage@, c.stored_file_name@)
            },
    {
        let now = utc_now();
        let author = match author {
            Some(a) => a,
            None => match user_name_by_uid(current_uid()) {
                Some(name) => name,
                None => {
                    return Err(ManagedFileError::UnknownAuthor);
                },
            },
        };
        let snapshot_name = match snapshot_name {
            Some(n) => n,
            None => match format_utc(&now, SNAPSHOT_NAME_FORMAT) {
                Some(token) => token,
                None => {
                    return Err(ManagedFileError::TimeOutOfRange);
                },
            },
        };
        let comment = match comment {
            Some(c) => c,
            None => match format_local(&now, SNAPSHOT_COMMENT_TIME_FORMAT) {
                Some(local) => default_comment(&author, &local),
                None => {
                    return Err(ManagedFileError::TimeOutOfRange);
                },
            },
        };
        self.snapshot_copy(snapshot_name, comment, author)
    }

    /// Records the snapshot that `copy` took, completed at `created_time`: an
    /// entry under the snapshot's name, which replaces any entry of that name.
    pub fn add_snapshot(&mut self, copy: SnapshotCopy, created_time: Timestamp) -> (e: SnapshotEntry)
        requires
            old(self).wf(),
        ensures
            final(self).wf(),
            e.snapshot_name@ == copy.snapshot_name@,
            e.comment@ == copy.comment@,
            e.author@ == copy.author@,
            e.relative_file_path@ == copy.stored_file_name@,
            e.created_time == created_time,
            final(self).snapshots() == old(self).snapshots().insert(copy.snapshot_name@, e),
            keys_unique(final(self).tangible_snapshot_journal.spec_entries()),
            final(self).tangible_snapshot_journal.spec_dirty(),
            final(self).tangible_snapshot_journal.spec_path()
                == old(self).tangible_snapshot_journal.spec_path(),
            final(self).target_file == old(self).target_file,
            final(self).snapshot_storage == old(self).snapshot_storage,
    {
        let entry = SnapshotEntry {
            snapshot_name: copy.snapshot_name,
            comment: copy.comment,
            created_time,
            relative_file_path: copy.stored_file_name,
            author: copy.author,
        };
        let e = entry.duplicate();
        self.tangible_snapshot_journal.add(entry);
        proof {
            self.tangible_snapshot_journal.lemma_entries();
        }
        e
    }

    /// Records the snapshot that `copy` took, completed now.
    pub fn record_snapshot(&mut self, copy: SnapshotCopy) -> (e: SnapshotEntry)
        requires
            old(self).wf(),
        ensures
            final(self).wf(),
            e.snapshot_name@ == copy.snapshot_name@,
            e.comment@ == copy.comment@,
            e.author@ == copy.author@,
            e.relative_file_path@ == copy.stored_file_name@,
            final(self).snapshots() == old(self).snapshots().insert(copy.snapshot_name@, e),
            final(self).tangible_snapshot_journal.spec_dirty(),
            final(self).tangible_snapshot_journal.spec_path()
                == old(self).tangible_snapshot_journal.spec_path(),
    {
        let now = utc_now();
        self.add_snapshot(copy, now)
    }

    /// The listing of the snapshots: the placeholder, then every snapshot
    /// entry, by creation time and then by name. The journal is left as it is.
    pub fn get_snapshots(&self) -> (r: SnapshotsListing)
        requires
            self.wf(),
        ensures
            r.snapshots@.len() == self.tangible_snapshot_journal.spec_entries().len() + 1,
            r.snapshots@[0] == Snapshot::Synthetic(SyntheticSnapshot::Null),
            forall|i: int| 1 <= i < r.snapshots@.len() ==> #[trigger] r.snapshots@[i] is Tangible,
            sorted_entries(tangible_entries(r.snapshots@)),
            tangible_entries(r.snapshots@).to_multiset()
                == self.tangible_snapshot_journal.spec_entries().to_multiset(),
            r.synthetic_count == 1,
            r.tangible_count == self.tangible_snapshot_journal.spec_entries().len(),
    {
        let entries = self.tangible_snapshot_journal.entries();
        let mut sorted: Vec<SnapshotEntry> = Vec::new();
        let mut i: usize = 0;
        assert(entries@.subrange(0, 0) =~= sorted@);
        while i < entries.len()
            invariant
                i <= entries@.len(),
                sorted_entries(sorted@),
                sorted@.to_multiset() == entries@.subrange(0, i as int).to_multiset(),
            decreases entries@.len() - i,
        {
            let x = entries[i].duplicate();
            insert_sorted(&mut sorted, x);
            proof {
                assert(entries@.subrange(0, i + 1) =~= entries@.subrange(0, i as int).push(x));
                to_multiset_build(entries@.subrange(0, i as int), x);
            }
            i = i + 1;
        }
        assert(entries@.subrange(0, i as int) =~= entries@);
        proof {
            vstd::seq_lib::to_multiset_len(sorted@);
            vstd::seq_lib::to_multiset_len(entries@);
        }
        let mut snapshots: Vec<Snapshot> = Vec::new();
        snapshots.push(Snapshot::Synthetic(SyntheticSnapshot::Null));
        let mut j: usize = 0;
        while j < sorted.len()
            invariant
                j <= sorted@.len(),
                snapshots@.len() == j + 1,
                snapshots@[0] == Snapshot::Synthetic(SyntheticSnapshot::Null),
                forall|k: int| 1 <= k <= j ==> #[trigger] snapshots@[k] == Snapshot::Tangible(
                    sorted@[k - 1],
                ),
            decreases sorted@.len() - j,
        {
            snapshots.push(Snapshot::Tangible(sorted[j].duplicate()));
            j = j + 1;
        }
        assert(tangible_entries(snapshots@) =~= sorted@);
        SnapshotsListing { snapshots, synthetic_count: 1, tangible_count: j }
    }
}

} // verus!
