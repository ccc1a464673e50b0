use vstd::prelude::*;
use std::collections::BTreeMap;
use vstd::laws_cmp::group_laws_cmp;
use vstd::std_specs::btree::{group_btree_axioms, increasing_seq};
use vstd::std_specs::iter::IteratorSpec;
use vstd::std_specs::cmp::OrdSpec;
use vstd::slice::slice_to_vec;
use crate::codec::{KeyValue, records_of, record_of};
use crate::store::{StoredFile, stored_view, load_files, decimal, file_bytes, decode_file, parse_key, decimal_name, encode_file, lemma_key_of_decimal, lemma_file_entry, lemma_load_prefix_none};

verus! {

broadcast use {group_laws_cmp, group_btree_axioms};

/// A stored key's per-key version and value.
pub type Stored = (u32, Seq<u8>);

/// A record as seen by a reader: key, per-key version, value.
pub type Record = (usize, u32, Seq<u8>);

/// The persisted unit of one key.
struct File {
    version: u32,
    data: Vec<u8>,
}

/// A record that borrows its value from the database.
pub struct KeyValueRef<'a> {
    pub key: usize,
    pub version: u32,
    pub value: &'a Vec<u8>,
}

/// One logical database: its shard fan-out, its version and its keys in order.
pub struct Database {
    hash_divider: usize,
    version: u32,
    data: BTreeMap<usize, File>,
}

/// Why a database folder could not be loaded.
#[derive(Clone, Copy, Debug, PartialEq, Eq)]
pub enum LoadError {
    /// A file name is not a decimal `u32`, or a file is too short to hold a version or its
    /// value is longer than `u32::MAX` bytes.
    CorruptStore,
}

/// Why a `set` was refused; the database is left as it was.
#[derive(Clone, Copy, Debug, PartialEq, Eq)]
pub enum SetError {
    /// The expected version is not the database's version.
    VersionMismatch,
    /// The database version or a per-key version would pass `u32::MAX`.
    VersionOverflow,
}

/// A reader's view of a `KeyValueRef`.
pub open spec fn ref_record(r: KeyValueRef) -> Record {
    (r.key, r.version, r.value@)
}

/// `r` lists, in strictly ascending key order, exactly the entries of `m` whose key lies in
/// `[k1, k2]`.
pub open spec fn is_range(m: Map<usize, Stored>, k1: usize, k2: usize, r: Seq<Record>) -> bool {
    &&& forall|i: int, j: int| 0 <= i < j < r.len() ==> r[i].0 < r[j].0
    &&& forall|i: int|
        0 <= i < r.len() ==> {
            &&& k1 <= (#[trigger] r[i]).0 <= k2
            &&& m.contains_key(r[i].0)
            &&& m[r[i].0] == (r[i].1, r[i].2)
        }
    &&& forall|k: usize|
        #![trigger m.contains_key(k)]
        m.contains_key(k) && k1 <= k <= k2 ==> exists|i: int| 0 <= i < r.len() && r[i].0 == k
}

/// `o` is the entry of `m` with the greatest key in `[k1, k2]`, or none if there is none.
pub open spec fn is_last(m: Map<usize, Stored>, k1: usize, k2: usize, o: Option<Record>) -> bool {
    match o {
        None => forall|k: usize| #[trigger] m.contains_key(k) ==> !(k1 <= k <= k2),
        Some(x) => {
            &&& k1 <= x.0 <= k2
            &&& m.contains_key(x.0)
            &&& m[x.0] == (x.1, x.2)
            &&& forall|k: usize| #[trigger] m.contains_key(k) && x.0 < k ==> k2 < k
        },
    }
}

/// The per-key version of `key`, or 0 if it is absent.
pub open spec fn current_version(m: Map<usize, Stored>, key: usize) -> int {
    if m.contains_key(key) {
        m[key].0 as int
    } else {
        0
    }
}

/// The entries of `m` with a key in `[k1, k2]`, in ascending key order.
pub open spec fn range_records(m: Map<usize, Stored>, k1: usize, k2: usize) -> Seq<Record> {
    choose|r: Seq<Record>| is_range(m, k1, k2, r)
}

/// The last entry of a range, if the range is not empty.
pub open spec fn last_record(r: Seq<Record>) -> Option<Record> {
    if r.len() == 0 {
        None
    } else {
        Some(r.last())
    }
}

/// A range result is unique: the entries of `m` in `[k1, k2]` have one ascending order.
pub proof fn lemma_range_unique(m: Map<usize, Stored>, k1: usize, k2: usize, r1: Seq<Record>, r2: Seq<Record>)
    requires
        is_range(m, k1, k2, r1),
        is_range(m, k1, k2, r2),
    ensures
        r1 == r2,
    decreases r1.len() + r2.len(),
{
    if r1.len() > 0 && r2.len() > 0 {
        // both start with the smallest key in range
        let a = r1[0].0;
        let b = r2[0].0;
        assert(m.contains_key(a));
        assert(m.contains_key(b));
        let j = choose|j: int| 0 <= j < r2.len() && r2[j].0 == a;
        let i = choose|i: int| 0 <= i < r1.len() && r1[i].0 == b;
        assert(b <= a) by {
            if j > 0 {
                assert(r2[0].0 < r2[j].0);
            }
        }
        assert(a <= b) by {
            if i > 0 {
                assert(r1[0].0 < r1[i].0);
            }
        }
        let t1 = r1.drop_first();
        let t2 = r2.drop_first();
        let m2 = m.remove(a);
        assert forall|k: usize| #[trigger] m2.contains_key(k) && k1 <= k <= k2 implies exists|x: int|
            0 <= x < t1.len() && t1[x].0 == k by {
            let x = choose|x: int| 0 <= x < r1.len() && r1[x].0 == k;
            assert(x != 0);
            assert(t1[x - 1].0 == k);
        }
        assert forall|k: usize| #[trigger] m2.contains_key(k) && k1 <= k <= k2 implies exists|x: int|
            0 <= x < t2.len() && t2[x].0 == k by {
            let x = choose|x: int| 0 <= x < r2.len() && r2[x].0 == k;
            assert(x != 0);
            assert(t2[x - 1].0 == k);
        }
        assert forall|x: int| 0 <= x < t1.len() implies m2.contains_key((#[trigger] t1[x]).0) by {
            assert(r1[0].0 < r1[x + 1].0);
        }
        assert forall|x: int| 0 <= x < t2.len() implies m2.contains_key((#[trigger] t2[x]).0) by {
            assert(r2[0].0 < r2[x + 1].0);
        }
        lemma_range_unique(m2, k1, k2, t1, t2);
        assert(r1 =~= seq![r1[0]] + t1);
        assert(r2 =~= seq![r2[0]] + t2);
    } else if r1.len() > 0 {
        assert(m.contains_key(r1[0].0));
    } else if r2.len() > 0 {
        assert(m.contains_key(r2[0].0));
    }
}

/// A range result is the range of the entries.
pub proof fn lemma_range_records(m: Map<usize, Stored>, k1: usize, k2: usize, r: Seq<Record>)
    requires
        is_range(m, k1, k2, r),
    ensures
        range_records(m, k1, k2) == r,
{
    lemma_range_unique(m, k1, k2, range_records(m, k1, k2), r);
}

/// What `get_last` returns is the last element of what `get` returns on the same
/// interval, or none when that is empty.
pub proof fn lemma_last_of_range(m: Map<usize, Stored>, k1: usize, k2: usize, r: Seq<Record>, o: Option<Record>)
    requires
        is_range(m, k1, k2, r),
        is_last(m, k1, k2, o),
    ensures
        o == last_record(r),
{
    if r.len() == 0 {
        if let Some(x) = o {
            assert(m.contains_key(x.0));
        }
    } else {
        let l = r.last();
        assert(m.contains_key(l.0));
        match o {
            None => {},
            Some(x) => {
                assert(m.contains_key(x.0));
                let i = choose|i: int| 0 <= i < r.len() && r[i].0 == x.0;
                if i < r.len() - 1 {
                    assert(r[i].0 < r[r.len() - 1].0);
                }
            },
        }
    }
}

/// Per-key versions: a write to a present key raises its version by one, a write to an
/// absent key starts it at 1, and a delete leaves the key absent.
pub proof fn lemma_key_version_step(m: Map<usize, Stored>, key: usize, value: Seq<u8>)
    requires
        assigned_version(m, key, value) <= u32::MAX,
    ensures
        value.len() > 0 && m.contains_key(key) ==> apply_record(m, key, value)[key].0 == m[key].0 + 1,
        value.len() > 0 && !m.contains_key(key) ==> apply_record(m, key, value)[key].0 == 1,
        value.len() > 0 ==> apply_record(m, key, value).contains_key(key),
        value.len() == 0 ==> !apply_record(m, key, value).contains_key(key),
        forall|k: usize|
            k != key ==> #[trigger] apply_record(m, key, value).contains_key(k) == m.contains_key(k)
                && (m.contains_key(k) ==> apply_record(m, key, value)[k] == m[k]),
{
}

/// The version a write of `value` to `key` gives that key, or 0 for a delete.
pub open spec fn assigned_version(m: Map<usize, Stored>, key: usize, value: Seq<u8>) -> int {
    if value.len() == 0 {
        0
    } else {
        current_version(m, key) + 1
    }
}

/// The entries after one record of a batch: an empty value deletes the key, any other
/// value is stored under the next per-key version.
pub open spec fn apply_record(m: Map<usize, Stored>, key: usize, value: Seq<u8>) -> Map<usize, Stored> {
    if value.len() == 0 {
        m.remove(key)
    } else {
        m.insert(key, (assigned_version(m, key, value) as u32, value))
    }
}

/// The entries after the records of `recs`, in order.
pub open spec fn apply_records(m: Map<usize, Stored>, recs: Seq<(usize, Seq<u8>)>) -> Map<usize, Stored>
    decreases recs.len(),
{
    if recs.len() == 0 {
        m
    } else {
        let prev = apply_records(m, recs.drop_last());
        apply_record(prev, recs.last().0, recs.last().1)
    }
}

/// The version assigned to the `i`-th record of `recs`.
pub open spec fn version_at(m: Map<usize, Stored>, recs: Seq<(usize, Seq<u8>)>, i: int) -> int {
    assigned_version(apply_records(m, recs.subrange(0, i)), recs[i].0, recs[i].1)
}

/// Every per-key version that `recs` assigns fits in a `u32`.
pub open spec fn versions_fit(m: Map<usize, Stored>, recs: Seq<(usize, Seq<u8>)>) -> bool {
    forall|i: int| 0 <= i < recs.len() ==> #[trigger] version_at(m, recs, i) <= u32::MAX
}

/// `ops` are the records of `recs`, each with the version it is assigned in turn.
pub open spec fn is_plan(m: Map<usize, Stored>, recs: Seq<(usize, Seq<u8>)>, ops: Seq<KeyValue>) -> bool {
    &&& ops.len() == recs.len()
    &&& forall|i: int|
        0 <= i < ops.len() ==> {
            &&& (#[trigger] ops[i]).key == recs[i].0
            &&& ops[i].value@ == recs[i].1
            &&& ops[i].version == version_at(m, recs, i)
        }
}

/// The entries after committing one planned record: an empty value removes the key.
pub open spec fn commit_entry(m: Map<usize, Stored>, op: KeyValue) -> Map<usize, Stored> {
    if op.value@.len() == 0 {
        m.remove(op.key)
    } else {
        m.insert(op.key, (op.version, op.value@))
    }
}

/// The entries after committing `ops` in order.
pub open spec fn commit_all(m: Map<usize, Stored>, ops: Seq<KeyValue>) -> Map<usize, Stored>
    decreases ops.len(),
{
    if ops.len() == 0 {
        m
    } else {
        commit_entry(commit_all(m, ops.drop_last()), ops.last())
    }
}

/// The stored form of a map of files.
spec fn file_map(data: Map<usize, File>) -> Map<usize, Stored> {
    Map::new(|k: usize| data.contains_key(k), |k: usize| (data[k].version, data[k].data@))
}

/// Keys and value lengths fit the wire format.
pub open spec fn valid_entries(m: Map<usize, Stored>) -> bool {
    forall|k: usize| #[trigger] m.contains_key(k) ==> k <= u32::MAX && m[k].1.len() <= u32::MAX
}

/// A planned record that can be committed: its key and value length fit the wire format.
pub open spec fn valid_op(op: KeyValue) -> bool {
    op.key <= u32::MAX && op.value@.len() <= u32::MAX
}

/// The files of a database holding `m`, by (shard, key): the shard of a key is
/// `key / hash_divider`, and its file holds its version and then its value.
pub open spec fn disk_image(m: Map<usize, Stored>, hash_divider: usize) -> Map<(usize, usize), Seq<u8>> {
    Map::new(
        |p: (usize, usize)| m.contains_key(p.1) && p.0 == p.1 / hash_divider,
        |p: (usize, usize)| file_bytes(m[p.1].0, m[p.1].1),
    )
}

/// The files after persisting one planned record: its file is written, or removed for an
/// empty value.
pub open spec fn disk_commit(disk: Map<(usize, usize), Seq<u8>>, hash_divider: usize, op: KeyValue) -> Map<
    (usize, usize),
    Seq<u8>,
> {
    if op.value@.len() == 0 {
        disk.remove((op.key / hash_divider, op.key))
    } else {
        disk.insert((op.key / hash_divider, op.key), file_bytes(op.version, op.value@))
    }
}

/// The files after persisting `ops` in order.
pub open spec fn disk_commit_all(
    disk: Map<(usize, usize), Seq<u8>>,
    hash_divider: usize,
    ops: Seq<KeyValue>,
) -> Map<(usize, usize), Seq<u8>>
    decreases ops.len(),
{
    if ops.len() == 0 {
        disk
    } else {
        disk_commit(disk_commit_all(disk, hash_divider, ops.drop_last()), hash_divider, ops.last())
    }
}

/// `files` is a listing of `disk`: each listed file is on disk, named by its key, and every
/// file on disk is listed.
pub open spec fn is_listing(
    disk: Map<(usize, usize), Seq<u8>>,
    listing: Seq<(usize, usize)>,
    files: Seq<(Seq<u8>, Seq<u8>)>,
) -> bool {
    &&& files.len() == listing.len()
    &&& forall|i: int|
        0 <= i < listing.len() ==> {
            &&& disk.contains_key(#[trigger] listing[i])
            &&& files[i] == (decimal(listing[i].1 as nat), disk[listing[i]])
        }
    &&& forall|p: (usize, usize)| #[trigger] disk.contains_key(p) ==> listing.contains(p)
}

/// Committing the planned records of a batch in order gives the entries that the batch
/// describes: each write takes the next per-key version, each empty value deletes.
pub proof fn lemma_commit_plan(m: Map<usize, Stored>, recs: Seq<(usize, Seq<u8>)>, ops: Seq<KeyValue>)
    requires
        is_plan(m, recs, ops),
    ensures
        commit_all(m, ops) == apply_records(m, recs),
    decreases ops.len(),
{
    if ops.len() > 0 {
        let n = ops.len() - 1;
        let r2 = recs.drop_last();
        let o2 = ops.drop_last();
        assert forall|i: int| 0 <= i < o2.len() implies #[trigger] o2[i].version == version_at(m, r2, i) by {
            assert(r2.subrange(0, i) =~= recs.subrange(0, i));
        }
        lemma_commit_plan(m, r2, o2);
        assert(recs.subrange(0, n) =~= r2);
        assert(ops[n].version == version_at(m, recs, n));
    }
}

/// Persisting a planned record keeps the files in step with the entries.
pub proof fn lemma_disk_follows_commit(m: Map<usize, Stored>, hash_divider: usize, op: KeyValue)
    requires
        hash_divider > 0,
    ensures
        disk_commit(disk_image(m, hash_divider), hash_divider, op) == disk_image(
            commit_entry(m, op),
            hash_divider,
        ),
{
    assert(disk_commit(disk_image(m, hash_divider), hash_divider, op) =~= disk_image(
        commit_entry(m, op),
        hash_divider,
    ));
}

/// Reading back a listing of the files of `m` gives `m`.
pub proof fn lemma_reopen(
    m: Map<usize, Stored>,
    hash_divider: usize,
    listing: Seq<(usize, usize)>,
    files: Seq<(Seq<u8>, Seq<u8>)>,
)
    requires
        hash_divider > 0,
        valid_entries(m),
        is_listing(disk_image(m, hash_divider), listing, files),
    ensures
        load_files(files) == Some(m),
{
    let disk = disk_image(m, hash_divider);
    lemma_reopen_prefix(m, hash_divider, listing, files, files.len() as int);
    assert(files.subrange(0, files.len() as int) =~= files);
    let keys = Set::new(|k: usize| exists|j: int| 0 <= j < files.len() && listing[j].1 == k);
    assert forall|k: usize| #[trigger] m.contains_key(k) implies keys.contains(k) by {
        let p = (k / hash_divider, k);
        assert(disk.contains_key(p));
        let j = choose|j: int| 0 <= j < listing.len() && listing[j] == p;
        assert(listing[j].1 == k);
    }
    assert(m.restrict(keys) =~= m);
}

proof fn lemma_reopen_prefix(
    m: Map<usize, Stored>,
    hash_divider: usize,
    listing: Seq<(usize, usize)>,
    files: Seq<(Seq<u8>, Seq<u8>)>,
    n: int,
)
    requires
        hash_divider > 0,
        valid_entries(m),
        is_listing(disk_image(m, hash_divider), listing, files),
        0 <= n <= files.len(),
    ensures
        load_files(files.subrange(0, n)) == Some(
            m.restrict(Set::new(|k: usize| exists|j: int| 0 <= j < n && listing[j].1 == k)),
        ),
    decreases n,
{
    let disk = disk_image(m, hash_divider);
    let keys = Set::new(|k: usize| exists|j: int| 0 <= j < n && listing[j].1 == k);
    if n == 0 {
        assert(m.restrict(keys) =~= Map::empty());
    } else {
        lemma_reopen_prefix(m, hash_divider, listing, files, n - 1);
        let prev = Set::new(|k: usize| exists|j: int| 0 <= j < n - 1 && listing[j].1 == k);
        let f = files.subrange(0, n);
        assert(f.drop_last() =~= files.subrange(0, n - 1));
        let p = listing[n - 1];
        assert(disk.contains_key(p));
        let k = p.1;
        assert(m.contains_key(k));
        lemma_key_of_decimal(k);
        lemma_file_entry(m[k].0, m[k].1);
        assert(f.last() == files[n - 1]);
        assert(keys =~= prev.insert(k));
        assert(m.restrict(keys) =~= m.restrict(prev).insert(k, m[k]));
    }
}

/// Whatever planned records are persisted and committed in step, reading the files back
/// gives the entries held in memory.
pub proof fn lemma_persistence_round_trip(
    m: Map<usize, Stored>,
    hash_divider: usize,
    ops: Seq<KeyValue>,
    listing: Seq<(usize, usize)>,
    files: Seq<(Seq<u8>, Seq<u8>)>,
)
    requires
        hash_divider > 0,
        valid_entries(m),
        forall|i: int| 0 <= i < ops.len() ==> valid_op(#[trigger] ops[i]),
        is_listing(disk_commit_all(disk_image(m, hash_divider), hash_divider, ops), listing, files),
    ensures
        load_files(files) == Some(commit_all(m, ops)),
{
    lemma_disk_follows_commit_all(m, hash_divider, ops);
    lemma_reopen(commit_all(m, ops), hash_divider, listing, files);
}

proof fn lemma_disk_follows_commit_all(m: Map<usize, Stored>, hash_divider: usize, ops: Seq<KeyValue>)
    requires
        hash_divider > 0,
        valid_entries(m),
        forall|i: int| 0 <= i < ops.len() ==> valid_op(#[trigger] ops[i]),
    ensures
        disk_commit_all(disk_image(m, hash_divider), hash_divider, ops) == disk_image(
            commit_all(m, ops),
            hash_divider,
        ),
        valid_entries(commit_all(m, ops)),
    decreases ops.len(),
{
    if ops.len() > 0 {
        let o2 = ops.drop_last();
        assert forall|i: int| 0 <= i < o2.len() implies valid_op(#[trigger] o2[i]) by {
            assert(o2[i] == ops[i]);
        }
        lemma_disk_follows_commit_all(m, hash_divider, o2);
        lemma_disk_follows_commit(commit_all(m, o2), hash_divider, ops.last());
        assert(valid_op(ops[ops.len() - 1]));
    }
}

impl Database {
    /// The database version.
    pub closed spec fn spec_version(&self) -> u32 {
        self.version
    }

    /// The shard fan-out.
    pub closed spec fn spec_hash_divider(&self) -> usize {
        self.hash_divider
    }

    /// The stored keys, each with its per-key version and value.
    pub closed spec fn entries(&self) -> Map<usize, Stored> {
        file_map(self.data@)
    }

    /// Keys and value lengths fit the wire format, and the fan-out is positive.
    pub closed spec fn wf(&self) -> bool {
        &&& self.hash_divider > 0
        &&& forall|k: usize|
            #[trigger] self.data@.contains_key(k) ==> k <= u32::MAX && self.data@[k].data@.len()
                <= u32::MAX
    }

    /// A well-formed database holds valid entries and has a positive fan-out.
    pub proof fn lemma_wf_entries(&self)
        requires
            self.wf(),
        ensures
            valid_entries(self.entries()),
            self.spec_hash_divider() > 0,
    {
    }

    /// Loads a database, at version 1, from the files found in the shard folders under its
    /// folder.
    pub fn new(hash_divider: usize, files: Vec<StoredFile>) -> (r: Result<
        Database,
        LoadError,
    >)
        requires
            hash_divider > 0,
        ensures
            match r {
                Ok(db) => {
                    &&& db.wf()
                    &&& load_files(files@.map_values(|f: StoredFile| stored_view(f))) == Some(
                        db.entries(),
                    )
                    &&& db.spec_version() == 1
                    &&& db.spec_hash_divider() == hash_divider
                },
                Err(e) => {
                    &&& e == LoadError::CorruptStore
                    &&& load_files(files@.map_values(|f: StoredFile| stored_view(f))) is None
                },
            },
    {
        let ghost views = files@.map_values(|f: StoredFile| stored_view(f));
        let mut data: BTreeMap<usize, File> = BTreeMap::new();
        let mut i: usize = 0;
        assert(views.subrange(0, 0) =~= Seq::<(Seq<u8>, Seq<u8>)>::empty());
        assert(file_map(data@) =~= Map::empty());
        while i < files.len()
            invariant
                i <= files@.len(),
                views == files@.map_values(|f: StoredFile| stored_view(f)),
                load_files(views.subrange(0, i as int)) == Some(file_map(data@)),
                forall|k: usize|
                    #[trigger] data@.contains_key(k) ==> k <= u32::MAX && data@[k].data@.len()
                        <= u32::MAX,
            decreases files@.len() - i,
        {
            let ghost sub = views.subrange(0, i + 1);
            assert(sub.drop_last() =~= views.subrange(0, i as int));
            assert(sub.last() == stored_view(files@[i as int]));
            let key = match parse_key(files[i].name.as_slice()) {
                Some(k) => k,
                None => {
                    proof {
                        lemma_load_prefix_none(views, i + 1);
                    }
                    return Err(LoadError::CorruptStore);
                },
            };
            let (version, value) = match decode_file(files[i].contents.as_slice()) {
                Some(e) => e,
                None => {
                    proof {
                        lemma_load_prefix_none(views, i + 1);
                    }
                    return Err(LoadError::CorruptStore);
                },
            };
            let ghost before = data@;
            data.insert(key, File { version, data: value });
            assert(file_map(data@) =~= file_map(before).insert(key, (version, value@)));
            i = i + 1;
        }
        assert(views.subrange(0, files@.len() as int) =~= views);
        Ok(Database { hash_divider, version: 1, data })
    }

    /// The shard folder name and the file name under which `key` is stored.
    pub fn file_location(&self, key: usize) -> (r: (Vec<u8>, Vec<u8>))
        requires
            self.wf(),
        ensures
            r.0@ == decimal((key / self.spec_hash_divider()) as nat),
            r.1@ == decimal(key as nat),
    {
        (decimal_name(key / self.hash_divider), decimal_name(key))
    }

    /// The contents of the file that persists a planned record.
    pub fn file_contents(op: &KeyValue) -> (r: Vec<u8>)
        ensures
            r@ == file_bytes(op.version, op.value@),
    {
        encode_file(op.version, op.value.as_slice())
    }

    /// Starts a batch under optimistic concurrency control. When `expected_version` is the
    /// database version and every assigned version fits, the version goes up by one and
    /// the records come back with their per-key versions, to be persisted and committed in
    /// order; otherwise nothing changes.
    pub fn set(&mut self, expected_version: u32, data: Vec<KeyValue>) -> (r: Result<
        Vec<KeyValue>,
        SetError,
    >)
        requires
            old(self).wf(),
        ensures
            final(self).wf(),
            final(self).entries() == old(self).entries(),
            final(self).spec_hash_divider() == old(self).spec_hash_divider(),
            expected_version != old(self).spec_version() ==> r == Err::<Vec<KeyValue>, SetError>(
                SetError::VersionMismatch,
            ),
            expected_version == old(self).spec_version() && (old(self).spec_version() == u32::MAX
                || !versions_fit(old(self).entries(), records_of(data@))) ==> r == Err::<
                Vec<KeyValue>,
                SetError,
            >(SetError::VersionOverflow),
            r is Err ==> final(self).spec_version() == old(self).spec_version(),
            r is Err ==> expected_version != old(self).spec_version() || old(self).spec_version()
                == u32::MAX || !versions_fit(old(self).entries(), records_of(data@)),
            r matches Ok(ops) ==> {
                &&& expected_version == old(self).spec_version()
                &&& old(self).spec_version() < u32::MAX
                &&& versions_fit(old(self).entries(), records_of(data@))
                &&& final(self).spec_version() == old(self).spec_version() + 1
                &&& is_plan(old(self).entries(), records_of(data@), ops@)
            },
    {
        if expected_version != self.version {
            return Err(SetError::VersionMismatch);
        }
        if self.version == u32::MAX {
            return Err(SetError::VersionOverflow);
        }
        let ghost m = self.entries();
        let ghost recs = records_of(data@);
        let mut pending: BTreeMap<usize, u32> = BTreeMap::new();
        let mut ops: Vec<KeyValue> = Vec::new();
        let mut i: usize = 0;
        assert(apply_records(m, recs.subrange(0, 0)) == m) by {
            assert(recs.subrange(0, 0) =~= Seq::<(usize, Seq<u8>)>::empty());
        }
        while i < data.len()
            invariant
                i <= data@.len(),
                self.wf(),
                self.version == expected_version,
                self.version < u32::MAX,
                m == self.entries(),
                recs == records_of(data@),
                ops@.len() == i,
                forall|j: int|
                    0 <= j < i ==> {
                        &&& (#[trigger] ops@[j]).key == recs[j].0
                        &&& ops@[j].value@ == recs[j].1
                        &&& ops@[j].version == version_at(m, recs, j)
                    },
                forall|j: int| 0 <= j < i ==> #[trigger] version_at(m, recs, j) <= u32::MAX,
                forall|k: usize|
                    #[trigger] current_version(apply_records(m, recs.subrange(0, i as int)), k) == if pending@.contains_key(k) {
                        pending@[k] as int
                    } else {
                        current_version(m, k)
                    },
            decreases data@.len() - i,
        {
            let kv = &data[i];
            let ghost cur = apply_records(m, recs.subrange(0, i as int));
            assert(recs[i as int] == record_of(data@[i as int]));
            let cv: u32 = match pending.get(&kv.key) {
                Some(v) => *v,
                None => match self.data.get(&kv.key) {
                    Some(f) => f.version,
                    None => 0,
                },
            };
            assert(cv == current_version(cur, kv.key));
            let nv: u32 = if kv.value.len() == 0 {
                0
            } else if cv == u32::MAX {
                assert(version_at(m, recs, i as int) > u32::MAX);
                return Err(SetError::VersionOverflow);
            } else {
                cv + 1
            };
            assert(nv == version_at(m, recs, i as int));
            let ghost next = apply_records(m, recs.subrange(0, i + 1));
            assert(recs.subrange(0, i + 1).drop_last() =~= recs.subrange(0, i as int));
            assert(next == apply_record(cur, kv.key, kv.value@));
            pending.insert(kv.key, nv);
            assert forall|k: usize| #[trigger] current_version(next, k) == if pending@.contains_key(k) {
                pending@[k] as int
            } else {
                current_version(m, k)
            } by {
                if k != kv.key {
                    assert(current_version(cur, k) == current_version(next, k));
                }
            }
            ops.push(KeyValue { key: kv.key, version: nv, value: slice_to_vec(kv.value.as_slice()) });
            i = i + 1;
        }
        self.version = self.version + 1;
        Ok(ops)
    }

    /// Commits one planned record to memory, once it has been persisted: an empty value
    /// removes the key, any other value is stored with the record's version.
    pub fn commit(&mut self, op: &KeyValue)
        requires
            old(self).wf(),
            valid_op(*op),
        ensures
            final(self).wf(),
            final(self).entries() == commit_entry(old(self).entries(), *op),
            final(self).spec_version() == old(self).spec_version(),
            final(self).spec_hash_divider() == old(self).spec_hash_divider(),
    {
        let ghost before = self.data@;
        if op.value.len() == 0 {
            self.data.remove(&op.key);
            assert(file_map(self.data@) =~= file_map(before).remove(op.key));
        } else {
            self.data.insert(op.key, File { version: op.version, data: slice_to_vec(op.value.as_slice()) });
            assert(file_map(self.data@) =~= file_map(before).insert(op.key, (op.version, op.value@)));
        }
    }

    /// The database version.
    pub fn get_version(&self) -> (r: u32)
        ensures
            r == self.spec_version(),
    {
        self.version
    }

    /// All entries with `key1 <= key <= key2`, in ascending key order.
    pub fn get(&self, key1: usize, key2: usize) -> (r: Vec<KeyValueRef<'_>>)
        ensures
            is_range(self.entries(), key1, key2, r@.map_values(|x: KeyValueRef| ref_record(x))),
    {
        let mut r: Vec<KeyValueRef<'_>> = Vec::new();
        let iter = self.data.iter();
        let ghost items = iter.remaining();
        let ghost keys = items.map_values(|kv: (&usize, &File)| *kv.0);
        let ghost m = self.entries();
        assert(increasing_seq(keys));
        assert forall|i: int, j: int| 0 <= i < j < keys.len() implies keys[i] < keys[j] by {
            assert(keys[i].cmp_spec(&keys[j]) is Less);
        }
        assert forall|i: int| 0 <= i < keys.len() implies m.contains_key(keys[i]) && m[keys[i]] == (
        items[i].1.version, items[i].1.data@) by {
            assert(self.data@.contains_key(*items[i].0) && self.data@[*items[i].0] == *items[i].1);
        }
        for (k, f) in it: iter
            invariant
                items == it.seq(),
                m == self.entries(),
                keys == items.map_values(|kv: (&usize, &File)| *kv.0),
                forall|i: int, j: int| 0 <= i < j < keys.len() ==> keys[i] < keys[j],
                forall|i: int|
                    0 <= i < keys.len() ==> m.contains_key(keys[i]) && m[keys[i]] == (
                    items[i].1.version, items[i].1.data@),
                forall|i: int, j: int| 0 <= i < j < r@.len() ==> r@[i].key < r@[j].key,
                forall|i: int|
                    0 <= i < r@.len() ==> {
                        &&& key1 <= (#[trigger] r@[i]).key <= key2
                        &&& m.contains_key(r@[i].key)
                        &&& m[r@[i].key] == (r@[i].version, r@[i].value@)
                    },
                forall|i: int|
                    0 <= i < r@.len() && it.index() < keys.len() ==> r@[i].key < keys[it.index()],
                forall|j: int|
                    0 <= j < it.index() && key1 <= #[trigger] keys[j] <= key2 ==> exists|t: int|
                        0 <= t < r@.len() && r@[t].key == keys[j],
        {
            assert(*k == keys[it.index()]);
            let ghost r0 = r@;
            if key1 <= *k && *k <= key2 {
                r.push(KeyValueRef { key: *k, version: f.version, value: &f.data });
            }
            assert forall|j: int| 0 <= j <= it.index() && key1 <= #[trigger] keys[j] <= key2 implies exists|t: int|
                0 <= t < r@.len() && r@[t].key == keys[j] by {
                if j < it.index() {
                    let t = choose|t: int| 0 <= t < r0.len() && r0[t].key == keys[j];
                    assert(r@[t].key == keys[j]);
                } else {
                    assert(r@[r@.len() - 1].key == keys[j]);
                }
            }
        }
        let ghost rv = r@.map_values(|x: KeyValueRef| ref_record(x));
        assert forall|k: usize| #[trigger] m.contains_key(k) && key1 <= k <= key2 implies exists|i: int|
            0 <= i < rv.len() && rv[i].0 == k by {
            assert(self.data@.contains_key(k));
            assert(items.contains((&k, &self.data@[k])));
            let j = choose|j: int| 0 <= j < items.len() && items[j] == (&k, &self.data@[k]);
            assert(keys[j] == k);
            let t = choose|t: int| 0 <= t < r@.len() && r@[t].key == keys[j];
            assert(rv[t].0 == k);
        }
        r
    }

    /// The entry with the greatest key in `[key1, key2]`, if any.
    pub fn get_last(&self, key1: usize, key2: usize) -> (r: Option<KeyValueRef<'_>>)
        ensures
            is_last(
                self.entries(),
                key1,
                key2,
                match r {
                    Some(x) => Some(ref_record(x)),
                    None => None,
                },
            ),
            match r {
                Some(x) => Some(ref_record(x)),
                None => None,
            } == last_record(range_records(self.entries(), key1, key2)),
    {
        let found = self.get(key1, key2);
        let n = found.len();
        let ghost rv = found@.map_values(|x: KeyValueRef| ref_record(x));
        proof {
            lemma_range_records(self.entries(), key1, key2, rv);
        }
        if n == 0 {
            assert forall|k: usize| #[trigger] self.entries().contains_key(k) implies !(key1 <= k
                <= key2) by {
                if key1 <= k <= key2 {
                    let i = choose|i: int| 0 <= i < rv.len() && rv[i].0 == k;
                }
            }
            proof {
                lemma_last_of_range(self.entries(), key1, key2, rv, None);
            }
            None
        } else {
            let last = &found[n - 1];
            let x = KeyValueRef { key: last.key, version: last.version, value: last.value };
            assert(rv[n - 1] == ref_record(x));
            assert forall|k: usize| #[trigger]
                self.entries().contains_key(k) && x.key < k implies key2 < k by {
                if k <= key2 {
                    let i = choose|i: int| 0 <= i < rv.len() && rv[i].0 == k;
                    assert(i < n - 1 ==> rv[i].0 < rv[n - 1].0);
                }
            }
            proof {
                lemma_last_of_range(self.entries(), key1, key2, rv, Some(ref_record(x)));
            }
            Some(x)
        }
    }

    /// The per-key version of `key`, or none if the key is absent.
    pub fn get_file_version(&self, key: usize) -> (r: Option<u32>)
        ensures
            match r {
                Some(v) => self.entries().contains_key(key) && v == self.entries()[key].0,
                None => !self.entries().contains_key(key),
            },
    {
        match self.data.get(&key) {
            Some(f) => Some(f.version),
            None => None,
        }
    }
}

} // verus!
