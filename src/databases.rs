use vstd::prelude::*;
use vstd::slice::slice_to_vec;
use crate::codec::{KeyValue, records_of};
use crate::store::{StoredFile, stored_view, decimal, decimal_name};
use crate::database::{
    Database, SetError, Stored, Record, ref_record, is_range, is_last, range_records,
    last_record, lemma_range_records, valid_op, commit_entry, versions_fit,
    is_plan,
};

verus! {

/// The registry of databases by name.
pub struct Databases {
    base_path: String,
    hash_divider: usize,
    names: Vec<String>,
    data: Vec<Database>,
}

/// A reader's view of a `KeyValue`.
pub open spec fn kv_record(kv: KeyValue) -> Record {
    (kv.key, kv.version, kv.value@)
}

/// `a` and `b` show the same databases under every name but `name`.
pub open spec fn same_except(a: Databases, b: Databases, name: Seq<char>) -> bool {
    forall|n: Seq<char>|
        n != name ==> {
            &&& #[trigger] a.contains(n) == b.contains(n)
            &&& a.version_of(n) == b.version_of(n)
            &&& a.entries_of(n) == b.entries_of(n)
        }
}

/// `a` and `b` show the same databases under every name.
pub open spec fn same_all(a: Databases, b: Databases) -> bool {
    forall|n: Seq<char>|
        {
            &&& #[trigger] a.contains(n) == b.contains(n)
            &&& a.version_of(n) == b.version_of(n)
            &&& a.entries_of(n) == b.entries_of(n)
        }
}

impl Databases {
    /// The base folder whose subfolders hold the databases.
    pub closed spec fn spec_base_path(&self) -> Seq<char> {
        self.base_path@
    }

    /// The shard fan-out of every database.
    pub closed spec fn spec_hash_divider(&self) -> usize {
        self.hash_divider
    }

    /// The position of the database called `name`.
    pub closed spec fn index_of(&self, name: Seq<char>) -> int {
        choose|i: int| 0 <= i < self.names@.len() && self.names@[i]@ == name
    }

    /// Whether a database is called `name`.
    pub closed spec fn contains(&self, name: Seq<char>) -> bool {
        exists|i: int| 0 <= i < self.names@.len() && self.names@[i]@ == name
    }

    /// The database called `name`, if `contains(name)`.
    pub closed spec fn database(&self, name: Seq<char>) -> Database {
        self.data@[self.index_of(name)]
    }

    /// The version a reader sees for `name`: that of the database, or 1 if there is none.
    pub open spec fn version_of(&self, name: Seq<char>) -> u32 {
        if self.contains(name) {
            self.database(name).spec_version()
        } else {
            1
        }
    }

    /// The entries a reader sees for `name`: those of the database, or none if there is none.
    pub open spec fn entries_of(&self, name: Seq<char>) -> Map<usize, Stored> {
        if self.contains(name) {
            self.database(name).entries()
        } else {
            Map::empty()
        }
    }

    /// Names are unique, and every database is well formed with the registry's fan-out.
    pub closed spec fn wf(&self) -> bool {
        &&& self.hash_divider > 0
        &&& self.names@.len() == self.data@.len()
        &&& forall|i: int, j: int|
            0 <= i < j < self.names@.len() ==> self.names@[i]@ != self.names@[j]@
        &&& forall|i: int|
            0 <= i < self.data@.len() ==> (#[trigger] self.data@[i]).wf()
                && self.data@[i].spec_hash_divider() == self.hash_divider
    }

    /// A well-formed registry holds well-formed databases with its fan-out.
    pub proof fn lemma_wf_database(&self, name: Seq<char>)
        requires
            self.wf(),
            self.contains(name),
        ensures
            self.database(name).wf(),
            self.database(name).spec_hash_divider() == self.spec_hash_divider(),
            self.spec_hash_divider() > 0,
    {
    }

    /// An empty registry over `base_folder`.
    pub fn new(base_folder: String, hash_divider: usize) -> (r: Databases)
        requires
            hash_divider > 0,
        ensures
            r.wf(),
            r.spec_base_path() == base_folder@,
            r.spec_hash_divider() == hash_divider,
            forall|n: Seq<char>| !r.contains(n),
    {
        Databases { base_path: base_folder, hash_divider, names: Vec::new(), data: Vec::new() }
    }

    /// The base folder whose subfolders hold the databases.
    pub fn base_path(&self) -> (r: &String)
        ensures
            r@ == self.spec_base_path(),
    {
        &self.base_path
    }

    /// The shard fan-out of every database.
    pub fn hash_divider(&self) -> (r: usize)
        ensures
            r == self.spec_hash_divider(),
    {
        self.hash_divider
    }

    /// The shard folder name and the file name under which `key` is stored in any database.
    pub fn file_location(&self, key: usize) -> (r: (Vec<u8>, Vec<u8>))
        requires
            self.wf(),
        ensures
            r.0@ == decimal((key / self.spec_hash_divider()) as nat),
            r.1@ == decimal(key as nat),
    {
        (decimal_name(key / self.hash_divider), decimal_name(key))
    }

    /// Finds the database called `name`.
    fn find(&self, name: &String) -> (r: Option<usize>)
        requires
            self.wf(),
        ensures
            match r {
                Some(i) => self.contains(name@) && i < self.data@.len() && i == self.index_of(name@),
                None => !self.contains(name@),
            },
    {
        let mut i: usize = 0;
        while i < self.names.len()
            invariant
                self.wf(),
                i <= self.names@.len(),
                forall|j: int| 0 <= j < i ==> self.names@[j]@ != name@,
            decreases self.names@.len() - i,
        {
            if self.names[i] == *name {
                assert(self.contains(name@));
                let ghost c = self.index_of(name@);
                assert(c == i as int);
                return Some(i);
            }
            i = i + 1;
        }
        None
    }

    /// Adds a loaded database under `name`, replacing any database of that name.
    pub fn add(&mut self, name: String, database: Database)
        requires
            old(self).wf(),
            database.wf(),
            database.spec_hash_divider() == old(self).spec_hash_divider(),
        ensures
            final(self).wf(),
            final(self).spec_base_path() == old(self).spec_base_path(),
            final(self).spec_hash_divider() == old(self).spec_hash_divider(),
            final(self).contains(name@),
            final(self).database(name@) == database,
            forall|n: Seq<char>| n != name@ ==> #[trigger] final(self).contains(n) == old(self).contains(n),
            forall|n: Seq<char>|
                n != name@ && old(self).contains(n) ==> #[trigger] final(self).database(n) == old(
                    self,
                ).database(n),
    {
        match self.find(&name) {
            Some(i) => {
                let ghost before = *self;
                self.data[i] = database;
                assert(self.names@ == before.names@);
                assert forall|n: Seq<char>| n != name@ implies self.contains(n) == before.contains(n) && (before.contains(n) ==> self.database(n) == before.database(n)) by {
                    if before.contains(n) {
                        let j = before.index_of(n);
                        assert(self.index_of(n) == j);
                        assert(j != i);
                    }
                    if self.contains(n) {
                        let j = self.index_of(n);
                        assert(before.names@[j]@ == n);
                    }
                }
                assert(self.index_of(name@) == i);
            },
            None => {
                let ghost before = *self;
                let ghost n0 = name@;
                self.names.push(name);
                self.data.push(database);
                let last = self.names.len() - 1;
                assert(self.names@[last as int]@ == n0);
                assert(self.index_of(n0) == last);
                assert forall|n: Seq<char>| n != n0 implies self.contains(n) == before.contains(n) && (before.contains(n) ==> self.database(n) == before.database(n)) by {
                    if before.contains(n) {
                        let j = before.index_of(n);
                        assert(self.names@[j] == before.names@[j]);
                        assert(self.index_of(n) == j);
                    }
                    if self.contains(n) {
                        let j = self.index_of(n);
                        assert(j != last);
                        assert(before.names@[j]@ == n);
                    }
                }
            },
        }
    }

    /// All entries of database `database` with `key1 <= key <= key2`, in ascending key
    /// order, with the database version; an unknown database reads as version 1 with no
    /// entries.
    pub fn get(&self, database: String, key1: usize, key2: usize) -> (r: (u32, Vec<KeyValue>))
        requires
            self.wf(),
        ensures
            r.0 == self.version_of(database@),
            r.1@.map_values(|kv: KeyValue| kv_record(kv)) == range_records(
                self.entries_of(database@),
                key1,
                key2,
            ),
            forall|i: int| 0 <= i < r.1@.len() ==> (#[trigger] r.1@[i]).key <= u32::MAX && r.1@[i].value@.len() <= u32::MAX,
    {
        match self.find(&database) {
            Some(i) => {
                let db = &self.data[i];
                let found = db.get(key1, key2);
                let ghost fv = found@.map_values(|x: crate::database::KeyValueRef| ref_record(x));
                let mut result: Vec<KeyValue> = Vec::new();
                let mut j: usize = 0;
                while j < found.len()
                    invariant
                        j <= found@.len(),
                        fv == found@.map_values(|x: crate::database::KeyValueRef| ref_record(x)),
                        result@.len() == j,
                        forall|t: int| 0 <= t < j ==> kv_record(#[trigger] result@[t]) == fv[t],
                    decreases found@.len() - j,
                {
                    let x = &found[j];
                    result.push(KeyValue { key: x.key, version: x.version, value: slice_to_vec(x.value.as_slice()) });
                    j = j + 1;
                }
                let ghost rv = result@.map_values(|kv: KeyValue| kv_record(kv));
                assert(rv =~= fv);
                proof {
                    lemma_range_records(db.entries(), key1, key2, fv);
                    db.lemma_wf_entries();
                    assert forall|t: int| 0 <= t < result@.len() implies (#[trigger] result@[t]).key <= u32::MAX && result@[t].value@.len() <= u32::MAX by {
                        assert(kv_record(result@[t]) == fv[t]);
                        assert(db.entries().contains_key(fv[t].0));
                    }
                }
                (db.get_version(), result)
            },
            None => {
                let result: Vec<KeyValue> = Vec::new();
                proof {
                    let e = Seq::<Record>::empty();
                    assert(is_range(Map::<usize, Stored>::empty(), key1, key2, e));
                    lemma_range_records(Map::<usize, Stored>::empty(), key1, key2, e);
                    assert(result@.map_values(|kv: KeyValue| kv_record(kv)) =~= e);
                }
                (1, result)
            },
        }
    }

    /// The entry of database `database` with the greatest key in `[key1, key2]`, if any,
    /// with the database version; an unknown database reads as version 1 with none.
    pub fn get_last(&self, database: String, key1: usize, key2: usize) -> (r: (u32, Option<KeyValue>))
        requires
            self.wf(),
        ensures
            r.0 == self.version_of(database@),
            is_last(
                self.entries_of(database@),
                key1,
                key2,
                match r.1 {
                    Some(kv) => Some(kv_record(kv)),
                    None => None,
                },
            ),
            match r.1 {
                Some(kv) => Some(kv_record(kv)),
                None => None,
            } == last_record(range_records(self.entries_of(database@), key1, key2)),
            r.1 matches Some(kv) ==> kv.key <= u32::MAX && kv.value@.len() <= u32::MAX,
    {
        match self.find(&database) {
            Some(i) => {
                let db = &self.data[i];
                let found = db.get_last(key1, key2);
                proof {
                    db.lemma_wf_entries();
                }
                let result = match found {
                    Some(x) => Some(KeyValue { key: x.key, version: x.version, value: slice_to_vec(x.value.as_slice()) }),
                    None => None,
                };
                (db.get_version(), result)
            },
            None => {
                proof {
                    let e = Seq::<Record>::empty();
                    assert(is_range(Map::<usize, Stored>::empty(), key1, key2, e));
                    lemma_range_records(Map::<usize, Stored>::empty(), key1, key2, e);
                }
                (1, None)
            },
        }
    }

    /// The per-key version of `key` in database `database`, if present, with the database
    /// version; an unknown database reads as version 1 with none.
    pub fn get_file_version(&self, database: String, key: usize) -> (r: (u32, Option<u32>))
        requires
            self.wf(),
        ensures
            r.0 == self.version_of(database@),
            match r.1 {
                Some(v) => self.entries_of(database@).contains_key(key) && v == self.entries_of(database@)[key].0,
                None => !self.entries_of(database@).contains_key(key),
            },
    {
        match self.find(&database) {
            Some(i) => {
                let db = &self.data[i];
                (db.get_version(), db.get_file_version(key))
            },
            None => (1, None),
        }
    }

    /// Starts a batch on database `database` under optimistic concurrency control. An
    /// unknown database is created empty at version 1 when the batch succeeds there; the
    /// planned records come back, to be persisted and committed in order.
    pub fn set(&mut self, database: String, expected_version: u32, data: Vec<KeyValue>) -> (r: Result<
        Vec<KeyValue>,
        SetError,
    >)
        requires
            old(self).wf(),
        ensures
            final(self).wf(),
            final(self).spec_base_path() == old(self).spec_base_path(),
            final(self).spec_hash_divider() == old(self).spec_hash_divider(),
            expected_version != old(self).version_of(database@) ==> r == Err::<Vec<KeyValue>, SetError>(
                SetError::VersionMismatch,
            ),
            expected_version == old(self).version_of(database@) && (old(self).version_of(database@) == u32::MAX
                || !versions_fit(old(self).entries_of(database@), records_of(data@))) ==> r == Err::<
                Vec<KeyValue>,
                SetError,
            >(SetError::VersionOverflow),
            r is Err ==> same_all(*final(self), *old(self)),
            r is Err ==> expected_version != old(self).version_of(database@) || old(self).version_of(
                database@,
            ) == u32::MAX || !versions_fit(old(self).entries_of(database@), records_of(data@)),
            r matches Ok(ops) ==> {
                &&& expected_version == old(self).version_of(database@)
                &&& final(self).contains(database@)
                &&& final(self).version_of(database@) == old(self).version_of(database@) + 1
                &&& final(self).entries_of(database@) == old(self).entries_of(database@)
                &&& is_plan(old(self).entries_of(database@), records_of(data@), ops@)
                &&& same_except(*final(self), *old(self), database@)
            },
    {
        match self.find(&database) {
            Some(i) => {
                let ghost before = *self;
                let r = self.data[i].set(expected_version, data);
                assert(self.names@ == before.names@);
                assert forall|n: Seq<char>| n != database@ implies #[trigger] self.contains(n) == before.contains(n) && self.version_of(n) == before.version_of(n) && self.entries_of(n) == before.entries_of(n) by {
                    if before.contains(n) {
                        let j = before.index_of(n);
                        assert(self.index_of(n) == j);
                        assert(j != i);
                    }
                    if self.contains(n) {
                        let j = self.index_of(n);
                        assert(before.names@[j]@ == n);
                    }
                }
                assert(self.index_of(database@) == i);
                r
            },
            None => {
                let mut db = match Database::new(self.hash_divider, Vec::new()) {
                    Ok(db) => db,
                    Err(e) => {
                        // an empty folder always loads
                        assert(false);
                        return Err(SetError::VersionMismatch);
                    },
                };
                proof {
                    assert(Seq::<StoredFile>::empty().map_values(|f: StoredFile| stored_view(f)) =~= Seq::<(Seq<u8>, Seq<u8>)>::empty());
                    assert(db.entries() == Map::<usize, Stored>::empty());
                }
                let r = db.set(expected_version, data);
                if r.is_ok() {
                    self.add(database, db);
                }
                r
            },
        }
    }

    /// Commits one planned record of database `database` to memory, once it has been
    /// persisted.
    pub fn commit(&mut self, database: &String, op: &KeyValue)
        requires
            old(self).wf(),
            old(self).contains(database@),
            valid_op(*op),
        ensures
            final(self).wf(),
            final(self).spec_base_path() == old(self).spec_base_path(),
            final(self).spec_hash_divider() == old(self).spec_hash_divider(),
            final(self).contains(database@),
            final(self).version_of(database@) == old(self).version_of(database@),
            final(self).entries_of(database@) == commit_entry(old(self).entries_of(database@), *op),
            same_except(*final(self), *old(self), database@),
    {
        match self.find(database) {
            Some(i) => {
                let ghost before = *self;
                self.data[i].commit(op);
                assert(self.names@ == before.names@);
                assert forall|n: Seq<char>| n != database@ implies #[trigger] self.contains(n) == before.contains(n) && self.version_of(n) == before.version_of(n) && self.entries_of(n) == before.entries_of(n) by {
                    if before.contains(n) {
                        let j = before.index_of(n);
                        assert(self.index_of(n) == j);
                        assert(j != i);
                    }
                    if self.contains(n) {
                        let j = self.index_of(n);
                        assert(before.names@[j]@ == n);
                    }
                }
                assert(self.index_of(database@) == i);
            },
            None => {},
        }
    }
}

} // verus!
