//! A file-backed store of entries, each filed under a key of its own.
use vstd::prelude::*;
use super::line_format::{
    decode_lines, decode_records, encode_file, encode_records, lemma_decode_encode_file,
    malformed_lines, record_views, representable, EncodingError, RecordView, SimpleRecord,
};

verus! {

/// A value that a store files under a key.
pub trait RecordKey {
    spec fn record_key(&self) -> Seq<char>;

    fn key(&self) -> (k: String)
        ensures
            k@ == self.record_key(),
    ;
}

/// An entry that is written as one record and read back from it.
pub trait MapsToSimpleRecord: RecordKey + Sized {
    /// The record that stands for this entry.
    spec fn spec_to(&self) -> RecordView;

    /// An entry's record is filed under the entry's key.
    proof fn lemma_record_key(&self)
        ensures
            self.spec_to().0 == self.record_key(),
    ;

    fn from(simple_record: SimpleRecord) -> (e: Self)
        ensures
            e.spec_to() == simple_record@,
    ;

    fn to(&self) -> (r: SimpleRecord)
        ensures
            r@ == self.spec_to(),
    ;
}

/// No two entries of `s` share a key.
pub open spec fn keys_unique<T: RecordKey>(s: Seq<T>) -> bool {
    forall|i: int, j: int|
        0 <= i < j < s.len() ==> (#[trigger] s[i]).record_key() != (#[trigger] s[j]).record_key()
}

/// The entries of `s` by key; a later entry replaces an earlier one with its key.
pub open spec fn entries_map<T: RecordKey>(s: Seq<T>) -> Map<Seq<char>, T>
    decreases s.len(),
{
    if s.len() == 0 {
        Map::empty()
    } else {
        entries_map(s.drop_last()).insert(s.last().record_key(), s.last())
    }
}

/// The values of records by key; a later record replaces an earlier one with its key.
pub open spec fn records_map(rs: Seq<RecordView>) -> Map<Seq<char>, Seq<char>>
    decreases rs.len(),
{
    if rs.len() == 0 {
        Map::empty()
    } else {
        records_map(rs.drop_last()).insert(rs.last().0, rs.last().1)
    }
}

pub proof fn lemma_entries_map_dom<T: RecordKey>(s: Seq<T>, k: Seq<char>)
    ensures
        entries_map(s).contains_key(k) <==> exists|i: int|
            0 <= i < s.len() && (#[trigger] s[i]).record_key() == k,
    decreases s.len(),
{
    if s.len() > 0 {
        lemma_entries_map_dom(s.drop_last(), k);
        if entries_map(s).contains_key(k) && k != s.last().record_key() {
            let i = choose|i: int| 0 <= i < s.drop_last().len() && (#[trigger] s.drop_last()[i]).record_key() == k;
            assert(s[i] == s.drop_last()[i]);
        }
        if exists|i: int| 0 <= i < s.len() && (#[trigger] s[i]).record_key() == k {
            let i = choose|i: int| 0 <= i < s.len() && (#[trigger] s[i]).record_key() == k;
            if i < s.len() - 1 {
                assert(s.drop_last()[i] == s[i]);
            }
        }
    }
}

pub proof fn lemma_entries_map_index<T: RecordKey>(s: Seq<T>, i: int)
    requires
        keys_unique(s),
        0 <= i < s.len(),
    ensures
        entries_map(s).contains_key(s[i].record_key()),
        entries_map(s)[s[i].record_key()] == s[i],
    decreases s.len(),
{
    if i < s.len() - 1 {
        assert(s.drop_last()[i] == s[i]);
        assert(keys_unique(s.drop_last())) by {
            assert forall|a: int, b: int|
                0 <= a < b < s.drop_last().len() implies (#[trigger] s.drop_last()[a]).record_key()
                != (#[trigger] s.drop_last()[b]).record_key() by {
                assert(s.drop_last()[a] == s[a] && s.drop_last()[b] == s[b]);
            }
        }
        lemma_entries_map_index(s.drop_last(), i);
        assert(s[i].record_key() != s[s.len() - 1].record_key());
    }
}

/// Replacing the entry at `i` by one with the same key replaces it in the map.
proof fn lemma_entries_map_update<T: RecordKey>(s: Seq<T>, i: int, x: T)
    requires
        keys_unique(s),
        0 <= i < s.len(),
        x.record_key() == s[i].record_key(),
    ensures
        keys_unique(s.update(i, x)),
        entries_map(s.update(i, x)) == entries_map(s).insert(x.record_key(), x),
{
    let t = s.update(i, x);
    assert(keys_unique(t)) by {
        assert forall|a: int, b: int| 0 <= a < b < t.len() implies (#[trigger] t[a]).record_key()
            != (#[trigger] t[b]).record_key() by {
            assert(t[a].record_key() == s[a].record_key());
            assert(t[b].record_key() == s[b].record_key());
        }
    }
    let m = entries_map(s).insert(x.record_key(), x);
    assert forall|k: Seq<char>| entries_map(t).contains_key(k) <==> m.contains_key(k) by {
        lemma_entries_map_dom(t, k);
        lemma_entries_map_dom(s, k);
        if exists|j: int| 0 <= j < s.len() && (#[trigger] s[j]).record_key() == k {
            let j = choose|j: int| 0 <= j < s.len() && (#[trigger] s[j]).record_key() == k;
            assert(t[j].record_key() == k);
        }
        if exists|j: int| 0 <= j < t.len() && (#[trigger] t[j]).record_key() == k {
            let j = choose|j: int| 0 <= j < t.len() && (#[trigger] t[j]).record_key() == k;
            assert(s[j].record_key() == k);
        }
    }
    assert forall|k: Seq<char>| #[trigger] entries_map(t).contains_key(k) implies entries_map(t)[k]
        == m[k] by {
        lemma_entries_map_dom(t, k);
        let j = choose|j: int| 0 <= j < t.len() && (#[trigger] t[j]).record_key() == k;
        lemma_entries_map_index(t, j);
        if j != i {
            lemma_entries_map_index(s, j);
        }
    }
    assert(entries_map(t) =~= m);
}

/// A store of entries backed by a record file.
///
/// The store owns the entries read from its file; a change is kept in memory,
/// marks the store dirty, and reaches the file with the next flush.
pub struct SimpleFileRecords<T> {
    dirty: bool,
    file_path: String,
    name: String,
    records: Vec<T>,
    skipped: usize,
}

impl<T: RecordKey> SimpleFileRecords<T> {
    /// The entries, by key.
    pub closed spec fn spec_map(&self) -> Map<Seq<char>, T> {
        entries_map(self.records@)
    }

    /// The entries in the order in which a flush writes them.
    pub closed spec fn spec_entries(&self) -> Seq<T> {
        self.records@
    }

    pub closed spec fn spec_dirty(&self) -> bool {
        self.dirty
    }

    pub closed spec fn spec_path(&self) -> Seq<char> {
        self.file_path@
    }

    pub closed spec fn spec_name(&self) -> Seq<char> {
        self.name@
    }

    pub closed spec fn spec_skipped(&self) -> nat {
        self.skipped as nat
    }

    /// No two entries share a key, and the map holds exactly the entries.
    pub closed spec fn wf(&self) -> bool {
        keys_unique(self.records@)
    }

    pub proof fn lemma_entries(&self)
        requires
            self.wf(),
        ensures
            keys_unique(self.spec_entries()),
            entries_map(self.spec_entries()) == self.spec_map(),
    {
    }

    /// A store that holds `entries`, read from the file at `file_path`; of two
    /// entries with one key the later stays.
    pub fn with_entries(record_set_name: String, file_path: String, entries: Vec<T>) -> (r: Self)
        ensures
            r.wf(),
            r.spec_map() == entries_map(entries@),
            !r.spec_dirty(),
            r.spec_path() == file_path@,
            r.spec_name() == record_set_name@,
            r.spec_skipped() == 0,
    {
        let mut r = SimpleFileRecords {
            dirty: false,
            file_path,
            name: record_set_name,
            records: Vec::new(),
            skipped: 0,
        };
        let mut entries = entries;
        let ghost all = entries@;
        let mut rev: Vec<T> = Vec::new();
        while entries.len() > 0
            invariant
                all == entries@ + rev@.reverse(),
            decreases entries@.len(),
        {
            let e = entries.pop().unwrap();
            rev.push(e);
            proof {
                assert(all =~= entries@ + rev@.reverse());
            }
        }
        let ghost done: Seq<T> = Seq::empty();
        while rev.len() > 0
            invariant
                r.wf(),
                all == done + rev@.reverse(),
                r.spec_map() == entries_map(done),
                !r.dirty,
                r.file_path@ == file_path@,
                r.name@ == record_set_name@,
                r.skipped == 0,
            decreases rev@.len(),
        {
            let e = rev.pop().unwrap();
            proof {
                assert(all =~= done.push(e) + rev@.reverse());
                assert(done.push(e).drop_last() =~= done);
                done = done.push(e);
            }
            r.upsert(e);
        }
        assert(all =~= done);
        r
    }

    /// Files `entry` under its key, replacing what was filed there.
    fn upsert(&mut self, entry: T)
        requires
            old(self).wf(),
        ensures
            final(self).wf(),
            final(self).spec_map() == old(self).spec_map().insert(entry.record_key(), entry),
            final(self).dirty == old(self).dirty,
            final(self).file_path == old(self).file_path,
            final(self).name == old(self).name,
            final(self).skipped == old(self).skipped,
    {
        let k = entry.key();
        let mut i: usize = 0;
        while i < self.records.len()
            invariant
                i <= self.records@.len(),
                self.records@ == old(self).records@,
                self.dirty == old(self).dirty,
                self.file_path == old(self).file_path,
                self.name == old(self).name,
                self.skipped == old(self).skipped,
                keys_unique(self.records@),
                k@ == entry.record_key(),
                forall|j: int| 0 <= j < i ==> (#[trigger] self.records@[j]).record_key() != k@,
            decreases self.records@.len() - i,
        {
            if self.records[i].key() == k {
                proof {
                    lemma_entries_map_update(self.records@, i as int, entry);
                }
                self.records.set(i, entry);
                return;
            }
            i = i + 1;
        }
        proof {
            let s = self.records@;
            assert(s.push(entry).drop_last() =~= s);
            assert(keys_unique(s.push(entry))) by {
                assert forall|a: int, b: int| 0 <= a < b < s.push(entry).len() implies (
                #[trigger] s.push(entry)[a]).record_key() != (#[trigger] s.push(
                    entry,
                )[b]).record_key() by {
                    if b == s.len() {
                        assert(s.push(entry)[a] == s[a]);
                    } else {
                        assert(s.push(entry)[a] == s[a] && s.push(entry)[b] == s[b]);
                    }
                }
            }
        }
        self.records.push(entry);
    }

    /// Files `record` under its key, replacing what was filed there, and marks
    /// the store dirty.
    pub fn add(&mut self, record: T)
        requires
            old(self).wf(),
        ensures
            final(self).wf(),
            final(self).spec_map() == old(self).spec_map().insert(record.record_key(), record),
            final(self).spec_dirty(),
            final(self).spec_path() == old(self).spec_path(),
            final(self).spec_name() == old(self).spec_name(),
            final(self).spec_skipped() == old(self).spec_skipped(),
    {
        self.dirty = true;
        self.upsert(record);
    }

    /// Whether an entry is filed under `key`.
    pub fn contains_key(&self, key: &String) -> (r: bool)
        requires
            self.wf(),
        ensures
            r == self.spec_map().contains_key(key@),
    {
        self.find(key).is_some()
    }

    fn find(&self, key: &String) -> (r: Option<usize>)
        requires
            self.wf(),
        ensures
            r is None <==> !self.spec_map().contains_key(key@),
            r matches Some(i) ==> i < self.records@.len() && self.records@[i as int]
                == self.spec_map()[key@] && self.records@[i as int].record_key() == key@,
    {
        let mut i: usize = 0;
        while i < self.records.len()
            invariant
                i <= self.records@.len(),
                keys_unique(self.records@),
                forall|j: int| 0 <= j < i ==> (#[trigger] self.records@[j]).record_key() != key@,
            decreases self.records@.len() - i,
        {
            if self.records[i].key() == *key {
                proof {
                    lemma_entries_map_index(self.records@, i as int);
                }
                return Some(i);
            }
            i = i + 1;
        }
        proof {
            lemma_entries_map_dom(self.records@, key@);
        }
        None
    }

    /// The entry filed under `key`, if there is one.
    pub fn get_record(&self, key: &String) -> (r: Option<&T>)
        requires
            self.wf(),
        ensures
            r is Some <==> self.spec_map().contains_key(key@),
            r matches Some(e) ==> *e == self.spec_map()[key@] && e.record_key() == key@,
    {
        match self.find(key) {
            Some(i) => Some(&self.records[i]),
            None => None,
        }
    }

    /// The entries, in the order in which a flush writes them.
    pub fn entries(&self) -> (r: &Vec<T>)
        ensures
            r@ == self.spec_entries(),
    {
        &self.records
    }

    /// Whether the store holds changes that its file does not.
    pub fn is_dirty(&self) -> (r: bool)
        ensures
            r == self.spec_dirty(),
    {
        self.dirty
    }

    /// The path of the file behind the store.
    pub fn file_path(&self) -> (r: &String)
        ensures
            r@ == self.spec_path(),
    {
        &self.file_path
    }

    /// The name that the store goes by in messages.
    pub fn name(&self) -> (r: &String)
        ensures
            r@ == self.spec_name(),
    {
        &self.name
    }

    /// How many malformed lines were skipped when the file was read.
    pub fn skipped_lines(&self) -> (r: usize)
        ensures
            r == self.spec_skipped(),
    {
        self.skipped
    }
}

/// The characters of each string of `v`.
pub open spec fn string_views(v: Seq<String>) -> Seq<Seq<char>> {
    v.map_values(|s: String| s@)
}

/// The records that a flush writes: each entry's key with the value given for it.
pub open spec fn keyed_records<T: RecordKey>(s: Seq<T>, values: Seq<Seq<char>>) -> Seq<RecordView> {
    Seq::new(s.len(), |i: int| (s[i].record_key(), values[i]))
}

pub proof fn lemma_records_map_of_entries<T: MapsToSimpleRecord>(s: Seq<T>)
    ensures
        records_map(s.map_values(|e: T| e.spec_to())) == entries_map(s).map_values(
            |e: T| e.spec_to().1,
        ),
    decreases s.len(),
{
    let f = |e: T| e.spec_to();
    if s.len() == 0 {
        assert(records_map(s.map_values(f)) =~= entries_map(s).map_values(|e: T| e.spec_to().1));
    } else {
        lemma_records_map_of_entries(s.drop_last());
        s.last().lemma_record_key();
        assert(s.map_values(f).drop_last() =~= s.drop_last().map_values(f));
        assert(records_map(s.map_values(f)) =~= entries_map(s).map_values(|e: T| e.spec_to().1));
    }
}

impl<T: RecordKey> SimpleFileRecords<T> {
    /// The bytes that a flush writes to the file, given the value of each entry's
    /// record in `values` (in the order of `entries()`): nothing when the store is
    /// not dirty, so that the file stays as it is.
    pub fn write_with_values(&self, values: &Vec<String>) -> (r: Result<Option<Vec<u8>>, EncodingError>)
        requires
            values@.len() == self.spec_entries().len(),
        ensures
            !self.spec_dirty() ==> r == Ok::<Option<Vec<u8>>, EncodingError>(None),
            self.spec_dirty() ==> (r is Ok <==> forall|i: int|
                0 <= i < values@.len() ==> representable(
                    #[trigger] keyed_records(self.spec_entries(), string_views(values@))[i],
                )),
            r matches Ok(Some(b)) ==> b@ == encode_file(
                keyed_records(self.spec_entries(), string_views(values@)),
            ),
            r matches Ok(o) ==> (o is Some <==> self.spec_dirty()),
    {
        if !self.dirty {
            return Ok(None);
        }
        let ghost ks = keyed_records(self.records@, string_views(values@));
        let mut recs: Vec<SimpleRecord> = Vec::new();
        let mut i: usize = 0;
        while i < self.records.len()
            invariant
                i <= self.records@.len() == values@.len(),
                ks == keyed_records(self.records@, string_views(values@)),
                record_views(recs@) == ks.subrange(0, i as int),
            decreases self.records@.len() - i,
        {
            let rec = SimpleRecord { key: self.records[i].key(), value: values[i].clone() };
            assert(string_views(values@)[i as int] == values@[i as int]@);
            assert(rec@ == ks[i as int]);
            let ghost before = recs@;
            assert(record_views(before).len() == before.len());
            assert(ks.subrange(0, i as int).len() == i);
            assert(before.len() == i);
            recs.push(rec);
            assert(recs@ =~= before.push(rec));
            assert forall|j: int| 0 <= j < i + 1 implies #[trigger] record_views(recs@)[j] == ks.subrange(0, i + 1)[j] by {
                if j < i {
                    assert(recs@[j] == before[j]);
                    assert(record_views(before)[j] == ks.subrange(0, i as int)[j]);
                }
            }
            i = i + 1;
            assert(record_views(recs@) =~= ks.subrange(0, i as int));
        }
        assert(ks.subrange(0, i as int) =~= ks);
        match encode_records(&recs) {
            Ok(bytes) => Ok(Some(bytes)),
            Err(e) => {
                proof {
                    let j = choose|j: int| 0 <= j < recs@.len() && !representable(#[trigger] recs@[j]@);
                    assert(recs@[j]@ == record_views(recs@)[j]);
                }
                Err(e)
            },
        }
    }
}

impl<T: MapsToSimpleRecord> SimpleFileRecords<T> {
    /// Each key with the value of the record of the entry filed under it.
    pub open spec fn record_map(&self) -> Map<Seq<char>, Seq<char>> {
        self.spec_map().map_values(|e: T| e.spec_to().1)
    }

    /// Opens the store whose file holds `content`: every well-formed line gives
    /// an entry (a later line replaces an earlier one with its key), and the
    /// malformed lines are counted and skipped.
    pub fn new(record_set_name: String, file_path: String, content: &Vec<u8>) -> (r: Self)
        ensures
            r.wf(),
            r.record_map() == records_map(decode_lines(content@)),
            !r.spec_dirty(),
            r.spec_path() == file_path@,
            r.spec_name() == record_set_name@,
            r.spec_skipped() == malformed_lines(content@),
    {
        let (records, skipped) = decode_records(content);
        let ghost views = record_views(records@);
        let mut records = records;
        let mut entries: Vec<T> = Vec::new();
        let mut rest: Vec<SimpleRecord> = Vec::new();
        while records.len() > 0
            invariant
                views == record_views(records@) + record_views(rest@.reverse()),
            decreases records@.len(),
        {
            let x = records.pop().unwrap();
            rest.push(x);
            proof {
                assert(views =~= record_views(records@)
                    + record_views(rest@.reverse()));
            }
        }
        assert(views =~= record_views(rest@.reverse()));
        let ghost taken: Seq<RecordView> = Seq::empty();
        while rest.len() > 0
            invariant
                views == taken + record_views(rest@.reverse()),
                entries@.map_values(|e: T| e.spec_to()) == taken,
            decreases rest@.len(),
        {
            let x = rest.pop().unwrap();
            proof {
                assert(views =~= taken.push(x@) + record_views(rest@.reverse()));
                taken = taken.push(x@);
            }
            entries.push(<T as MapsToSimpleRecord>::from(x));
            assert(entries@.map_values(|e: T| e.spec_to()) =~= taken);
        }
        assert(views =~= taken);
        proof {
            lemma_records_map_of_entries(entries@);
        }
        let mut r = Self::with_entries(record_set_name, file_path, entries);
        r.skipped = skipped;
        r
    }

    /// The bytes that a flush writes to the file: nothing when the store is not
    /// dirty, so that the file stays as it is; else every entry's record, which
    /// read back give the store's records again.
    pub fn write(&self) -> (r: Result<Option<Vec<u8>>, EncodingError>)
        requires
            self.wf(),
        ensures
            !self.spec_dirty() ==> r == Ok::<Option<Vec<u8>>, EncodingError>(None),
            self.spec_dirty() ==> (r is Ok <==> forall|i: int|
                0 <= i < self.spec_entries().len() ==> representable(
                    (#[trigger] self.spec_entries()[i]).spec_to(),
                )),
            r matches Ok(Some(b)) ==> b@ == encode_file(
                self.spec_entries().map_values(|e: T| e.spec_to()),
            ),
            r matches Ok(Some(b)) ==> records_map(decode_lines(b@)) == self.record_map()
                && malformed_lines(b@) == 0,
            r matches Ok(o) ==> (o is Some <==> self.spec_dirty()),
    {
        let mut values: Vec<String> = Vec::new();
        let mut i: usize = 0;
        while i < self.records.len()
            invariant
                i <= self.records@.len(),
                values@.len() == i,
                forall|j: int| 0 <= j < i ==> (#[trigger] values@[j])@ == self.records@[j].spec_to().1,
            decreases self.records@.len() - i,
        {
            let rec = self.records[i].to();
            values.push(rec.value);
            i = i + 1;
        }
        let ghost rs = self.records@.map_values(|e: T| e.spec_to());
        proof {
            let ks = keyed_records(self.records@, string_views(values@));
            assert forall|j: int| 0 <= j < ks.len() implies #[trigger] ks[j] == rs[j] by {
                self.records@[j].lemma_record_key();
            }
            assert(ks =~= rs);
        }
        let r = self.write_with_values(&values);
        proof {
            if self.dirty && (forall|j: int|
                0 <= j < self.records@.len() ==> representable((#[trigger] self.records@[j]).spec_to())) {
                assert forall|j: int| 0 <= j < rs.len() implies representable(#[trigger] rs[j]) by {
                    assert(rs[j] == self.records@[j].spec_to());
                }
            }
            if r is Ok && self.dirty {
                assert forall|j: int| 0 <= j < self.records@.len() implies representable(
                    (#[trigger] self.records@[j]).spec_to(),
                ) by {
                    assert(rs[j] == self.records@[j].spec_to());
                }
                lemma_flush_then_reopen(*self);
            }
        }
        r
    }
}

/// Flushing a store and reopening its file gives back the records that were
/// flushed, with no line skipped: reopened, each key holds the value it held.
pub proof fn lemma_flush_then_reopen<T: MapsToSimpleRecord>(store: SimpleFileRecords<T>)
    requires
        store.wf(),
        forall|i: int|
            0 <= i < store.spec_entries().len() ==> representable(
                (#[trigger] store.spec_entries()[i]).spec_to(),
            ),
    ensures
        records_map(decode_lines(encode_file(store.spec_entries().map_values(|e: T| e.spec_to()))))
            == store.record_map(),
        malformed_lines(encode_file(store.spec_entries().map_values(|e: T| e.spec_to()))) == 0,
{
    let rs = store.spec_entries().map_values(|e: T| e.spec_to());
    assert forall|j: int| 0 <= j < rs.len() implies representable(#[trigger] rs[j]) by {
        assert(rs[j] == store.spec_entries()[j].spec_to());
    }
    lemma_decode_encode_file(rs);
    store.lemma_entries();
    lemma_records_map_of_entries(store.spec_entries());
}

} // verus!
