use vstd::prelude::*;
use std::collections::HashMap;
use vstd::utf8::{valid_utf8, decode_utf8};
use vstd::bytes::{spec_u32_to_le_bytes, u32_to_le_bytes};
use vstd::slice::slice_to_vec;
use vstd::std_specs::hash::group_hash_axioms;
use crate::codec::{KeyValue, u32_at, read_u32, batch_records, record_bytes, records_of};
use crate::database::{Record, Stored, SetError, range_records, last_record, current_version, versions_fit, is_plan, valid_op, commit_entry};
use crate::databases::{Databases, kv_record, same_except, same_all};
use crate::store::decimal;
use crate::access::{UserWithKey, grant_of, allows};

verus! {

broadcast use group_hash_axioms;

/// Why a command failed; the framing layer reports it.
#[derive(Clone, Copy, Debug, PartialEq, Eq)]
pub enum CommandError {
    /// A field is missing, too long, or followed by stray bytes, or a name is not UTF-8.
    Malformed,
    /// The opcode is unknown.
    InvalidCommand,
    /// The user may not read or write that database.
    AccessDenied,
    /// The expected version of a write is not the database version.
    VersionMismatch,
    /// A version would pass `u32::MAX`.
    VersionOverflow,
    /// The message prefix names no configured user.
    UnknownUser,
}

/// Serves the commands of authenticated users against the databases.
pub struct UserCommandProcessor {
    data: Databases,
    user_map: HashMap<u32, UserWithKey>,
}

/// Relies on `String::from_utf8`: it succeeds exactly on valid UTF-8 and then holds the
/// characters that the bytes encode.
#[verifier::external_body]
fn utf8_to_string(bytes: Vec<u8>) -> (r: Option<String>)
    ensures
        match r {
            Some(s) => valid_utf8(bytes@) && s@ == decode_utf8(bytes@),
            None => !valid_utf8(bytes@),
        },
{
    match String::from_utf8(bytes) {
        Ok(s) => Some(s),
        Err(_) => None,
    }
}

/// The database name at the start of a command body (a length byte, then that many UTF-8
/// bytes; the length is not 0), and where the parameters start.
pub open spec fn name_field(body: Seq<u8>) -> Option<(Seq<char>, int)> {
    if body.len() >= 1 && body[0] > 0 && 1 + body[0] <= body.len() && valid_utf8(
        body.subrange(1, 1 + body[0]),
    ) {
        Some((decode_utf8(body.subrange(1, 1 + body[0])), 1 + body[0]))
    } else {
        None
    }
}

/// The database name of a command body, if it has one.
pub open spec fn name_of(body: Seq<u8>) -> Seq<char> {
    match name_field(body) {
        Some((name, _)) => name,
        None => Seq::empty(),
    }
}

/// The reply encodings of records, one after the other.
pub open spec fn records_bytes(recs: Seq<Record>) -> Seq<u8>
    decreases recs.len(),
{
    if recs.len() == 0 {
        Seq::empty()
    } else {
        records_bytes(recs.drop_last()) + record_bytes(
            recs.last().1,
            recs.last().0 as nat,
            recs.last().2,
        )
    }
}

/// A count as the wire's `u32`.
pub open spec fn count_u32(n: nat) -> u32 {
    (n % 0x1_0000_0000) as u32
}

/// The reply to GET: no-error flag, database version, record count, records.
pub open spec fn get_reply(version: u32, recs: Seq<Record>) -> Seq<u8> {
    seq![0u8] + spec_u32_to_le_bytes(version) + spec_u32_to_le_bytes(count_u32(recs.len()))
        + records_bytes(recs)
}

/// The reply to GET_LAST: no-error flag, database version, presence flag, the record if any.
pub open spec fn get_last_reply(version: u32, last: Option<Record>) -> Seq<u8> {
    seq![0u8] + spec_u32_to_le_bytes(version) + match last {
        None => seq![0u8],
        Some(x) => seq![1u8] + record_bytes(x.1, x.0 as nat, x.2),
    }
}

/// The reply to GET_FILE_VERSION: no-error flag, database version, per-key version.
pub open spec fn file_version_reply(version: u32, file_version: u32) -> Seq<u8> {
    seq![0u8] + spec_u32_to_le_bytes(version) + spec_u32_to_le_bytes(file_version)
}

/// The name and key range of a GET or GET_LAST body, whose parameters are exactly two keys.
pub open spec fn range_request(body: Seq<u8>) -> Option<(Seq<char>, usize, usize)> {
    match name_field(body) {
        Some((name, idx)) => if idx + 8 == body.len() {
            Some((name, u32_at(body, idx) as usize, u32_at(body, idx + 4) as usize))
        } else {
            None
        },
        None => None,
    }
}

/// The name and key of a GET_FILE_VERSION body, whose parameter is exactly one key.
pub open spec fn key_request(body: Seq<u8>) -> Option<(Seq<char>, usize)> {
    match name_field(body) {
        Some((name, idx)) => if idx + 4 == body.len() {
            Some((name, u32_at(body, idx) as usize))
        } else {
            None
        },
        None => None,
    }
}

/// A read command's checks in order: the name parses, the user may read it, the
/// parameters parse.
pub open spec fn read_check(grants: Seq<(String, bool)>, body: Seq<u8>, params_ok: bool) -> Result<
    Seq<char>,
    CommandError,
> {
    match name_field(body) {
        None => Err(CommandError::Malformed),
        Some((name, _)) => if !allows(grant_of(grants, name), true) {
            Err(CommandError::AccessDenied)
        } else if !params_ok {
            Err(CommandError::Malformed)
        } else {
            Ok(name)
        },
    }
}

/// The outcome of GET on body `body` for a user with `grants`.
pub open spec fn get_outcome(dbs: Databases, grants: Seq<(String, bool)>, body: Seq<u8>) -> Result<
    Seq<u8>,
    CommandError,
> {
    match read_check(grants, body, range_request(body) is Some) {
        Err(e) => Err(e),
        Ok(name) => {
            let (_, from, to) = range_request(body)->0;
            Ok(get_reply(dbs.version_of(name), range_records(dbs.entries_of(name), from, to)))
        },
    }
}

/// The outcome of GET_LAST on body `body` for a user with `grants`.
pub open spec fn get_last_outcome(dbs: Databases, grants: Seq<(String, bool)>, body: Seq<u8>) -> Result<
    Seq<u8>,
    CommandError,
> {
    match read_check(grants, body, range_request(body) is Some) {
        Err(e) => Err(e),
        Ok(name) => {
            let (_, from, to) = range_request(body)->0;
            Ok(
                get_last_reply(
                    dbs.version_of(name),
                    last_record(range_records(dbs.entries_of(name), from, to)),
                ),
            )
        },
    }
}

/// The outcome of GET_FILE_VERSION on body `body` for a user with `grants`; an absent key
/// has version 0.
pub open spec fn file_version_outcome(
    dbs: Databases,
    grants: Seq<(String, bool)>,
    body: Seq<u8>,
) -> Result<Seq<u8>, CommandError> {
    match read_check(grants, body, key_request(body) is Some) {
        Err(e) => Err(e),
        Ok(name) => {
            let (_, key) = key_request(body)->0;
            Ok(
                file_version_reply(
                    dbs.version_of(name),
                    current_version(dbs.entries_of(name), key) as u32,
                ),
            )
        },
    }
}

/// A SET body's checks in order: the name parses, the user may write it, then the
/// expected version and the batch parse. On success: name, expected version, records.
pub open spec fn set_request(grants: Seq<(String, bool)>, body: Seq<u8>) -> Result<
    (Seq<char>, u32, Seq<(usize, Seq<u8>)>),
    CommandError,
> {
    match name_field(body) {
        None => Err(CommandError::Malformed),
        Some((name, idx)) => if !allows(grant_of(grants, name), false) {
            Err(CommandError::AccessDenied)
        } else if idx + 4 > body.len() {
            Err(CommandError::Malformed)
        } else {
            match batch_records(body.subrange(idx + 4, body.len() as int)) {
                None => Err(CommandError::Malformed),
                Some(recs) => Ok((name, u32_at(body, idx) as u32, recs)),
            }
        },
    }
}

/// A reply as bytes.
pub open spec fn reply_view(r: Result<Vec<u8>, CommandError>) -> Result<Seq<u8>, CommandError> {
    match r {
        Ok(v) => Ok(v@),
        Err(e) => Err(e),
    }
}

/// Whether a command body changes state: its opcode is SET.
pub open spec fn is_write(command: Seq<u8>) -> bool {
    command.len() > 0 && command[0] == 1
}

/// The user that a message prefix names: a little-endian user id.
pub open spec fn user_of(users: Map<u32, UserWithKey>, prefix: Seq<u8>) -> Option<UserWithKey> {
    if prefix.len() == 4 && users.contains_key(u32_at(prefix, 0) as u32) {
        Some(users[u32_at(prefix, 0) as u32])
    } else {
        None
    }
}

/// The outcome of a read command (GET, GET_LAST, GET_FILE_VERSION, or an unknown opcode).
pub open spec fn read_outcome(
    dbs: Databases,
    users: Map<u32, UserWithKey>,
    command: Seq<u8>,
    prefix: Seq<u8>,
) -> Result<Seq<u8>, CommandError> {
    match user_of(users, prefix) {
        None => Err(CommandError::UnknownUser),
        Some(user) => if command.len() == 0 {
            Err(CommandError::Malformed)
        } else {
            let body = command.drop_first();
            if command[0] == 0 {
                get_outcome(dbs, user.databases@, body)
            } else if command[0] == 2 {
                get_last_outcome(dbs, user.databases@, body)
            } else if command[0] == 3 {
                file_version_outcome(dbs, user.databases@, body)
            } else {
                Err(CommandError::InvalidCommand)
            }
        },
    }
}

/// Reads the database name at the start of a command body.
fn get_database_name(command: &[u8]) -> (r: Result<(String, usize), CommandError>)
    ensures
        match name_field(command@) {
            Some((name, idx)) => r matches Ok((s, i)) && s@ == name && i == idx,
            None => r == Err::<(String, usize), CommandError>(CommandError::Malformed),
        },
{
    if command.len() < 1 {
        return Err(CommandError::Malformed);
    }
    let length = command[0] as usize;
    if length == 0 || length > command.len() - 1 {
        return Err(CommandError::Malformed);
    }
    let bytes = slice_to_vec(&command[1..length + 1]);
    match utf8_to_string(bytes) {
        Some(name) => Ok((name, length + 1)),
        None => Err(CommandError::Malformed),
    }
}

/// Reads the database name and the key range of a GET or GET_LAST body.
fn parse_get_command_parameters(command: &[u8]) -> (r: Result<(String, usize, usize), CommandError>)
    ensures
        match range_request(command@) {
            Some((name, from, to)) => r matches Ok((s, f, t)) && s@ == name && f == from && t
                == to,
            None => r == Err::<(String, usize, usize), CommandError>(CommandError::Malformed),
        },
{
    let (database, idx) = match get_database_name(command) {
        Ok(x) => x,
        Err(e) => return Err(e),
    };
    if command.len() < 8 || idx != command.len() - 8 {
        return Err(CommandError::Malformed);
    }
    let from = read_u32(command, idx) as usize;
    let to = read_u32(command, idx + 4) as usize;
    Ok((database, from, to))
}

/// Reads the database name and the key of a GET_FILE_VERSION body.
fn parse_get_file_version_command_parameters(command: &[u8]) -> (r: Result<(String, usize), CommandError>)
    ensures
        match key_request(command@) {
            Some((name, key)) => r matches Ok((s, k)) && s@ == name && k == key,
            None => r == Err::<(String, usize), CommandError>(CommandError::Malformed),
        },
{
    let (database, idx) = match get_database_name(command) {
        Ok(x) => x,
        Err(e) => return Err(e),
    };
    if command.len() < 4 || idx != command.len() - 4 {
        return Err(CommandError::Malformed);
    }
    let key = read_u32(command, idx) as usize;
    Ok((database, key))
}

/// The reply that carries no data: the no-error flag alone.
pub fn ok_reply() -> (r: Vec<u8>)
    ensures
        r@ == seq![0u8],
{
    let mut r: Vec<u8> = Vec::new();
    r.push(0);
    r
}

/// Whether a command body changes state, and so needs exclusive access.
pub fn is_write_command(command: &[u8]) -> (r: bool)
    ensures
        r == is_write(command@),
{
    command.len() > 0 && command[0] == 1
}

impl UserCommandProcessor {
    /// The databases served.
    pub closed spec fn databases(&self) -> Databases {
        self.data
    }

    /// The users, by id.
    pub closed spec fn users(&self) -> Map<u32, UserWithKey> {
        self.user_map@
    }

    /// The databases are well formed.
    pub closed spec fn wf(&self) -> bool {
        self.data.wf()
    }

    /// A processor over loaded databases and configured users.
    pub fn new(data: Databases, user_map: HashMap<u32, UserWithKey>) -> (r: UserCommandProcessor)
        requires
            data.wf(),
        ensures
            r.wf(),
            r.databases() == data,
            r.users() == user_map@,
    {
        UserCommandProcessor { data, user_map }
    }

    /// The shard folder name and the file name under which `key` is stored.
    pub fn file_location(&self, key: usize) -> (r: (Vec<u8>, Vec<u8>))
        requires
            self.wf(),
        ensures
            r.0@ == decimal((key / self.databases().spec_hash_divider()) as nat),
            r.1@ == decimal(key as nat),
    {
        self.data.file_location(key)
    }

    /// How many bytes of each message name its user.
    pub fn get_message_prefix_length(&self) -> (r: usize)
        ensures
            r == 4,
    {
        4
    }

    /// Whether a decrypted body is long enough to hold a command: an opcode, a name length,
    /// a name byte and four parameter bytes.
    pub fn check_message_length(&self, length: usize) -> (r: bool)
        ensures
            r == (length > 6),
    {
        length > 6
    }

    /// The key of the user that a message prefix names.
    pub fn get_key(&self, message_prefix: &[u8]) -> (r: Result<[u8; 32], CommandError>)
        ensures
            match user_of(self.users(), message_prefix@) {
                Some(u) => r == Ok::<[u8; 32], CommandError>(u.key),
                None => r == Err::<[u8; 32], CommandError>(CommandError::UnknownUser),
            },
    {
        match self.find_user(message_prefix) {
            Some(user) => Ok(user.key),
            None => Err(CommandError::UnknownUser),
        }
    }

    fn find_user(&self, message_prefix: &[u8]) -> (r: Option<&UserWithKey>)
        ensures
            match user_of(self.users(), message_prefix@) {
                Some(u) => r == Some(&u),
                None => r is None,
            },
    {
        if message_prefix.len() != 4 {
            return None;
        }
        let id = read_u32(message_prefix, 0);
        self.user_map.get(&id)
    }

    /// Runs a read command (every opcode but SET) for the user that the prefix names.
    pub fn execute(&self, command: &[u8], message_prefix: &[u8]) -> (r: Result<Vec<u8>, CommandError>)
        requires
            self.wf(),
            !is_write(command@),
        ensures
            reply_view(r) == read_outcome(self.databases(), self.users(), command@, message_prefix@),
    {
        let user = match self.find_user(message_prefix) {
            Some(u) => u,
            None => return Err(CommandError::UnknownUser),
        };
        if command.len() == 0 {
            return Err(CommandError::Malformed);
        }
        let body = &command[1..command.len()];
        assert(body@ == command@.drop_first());
        if command[0] == 0 {
            self.run_get_command(user, body)
        } else if command[0] == 2 {
            self.run_get_last_command(user, body)
        } else if command[0] == 3 {
            self.run_get_file_version_command(user, body)
        } else {
            Err(CommandError::InvalidCommand)
        }
    }

    fn run_get_command(&self, user: &UserWithKey, command: &[u8]) -> (r: Result<Vec<u8>, CommandError>)
        requires
            self.wf(),
        ensures
            reply_view(r) == get_outcome(self.databases(), user.databases@, command@),
    {
        let (name, _) = match get_database_name(command) {
            Ok(x) => x,
            Err(e) => return Err(e),
        };
        match user.validate_access(&name, true) {
            Ok(()) => {},
            Err(_) => return Err(CommandError::AccessDenied),
        }
        let (database, from, to) = match parse_get_command_parameters(command) {
            Ok(x) => x,
            Err(e) => return Err(e),
        };
        let (version, result) = self.data.get(database, from, to);
        let ghost recs = result@.map_values(|kv: KeyValue| kv_record(kv));
        let mut data: Vec<u8> = Vec::new();
        data.push(0);
        let mut v = u32_to_le_bytes(version);
        data.append(&mut v);
        let mut c = u32_to_le_bytes((result.len() as u64 % 0x1_0000_0000u64) as u32);
        data.append(&mut c);
        let ghost head = data@;
        let mut i: usize = 0;
        assert(recs.subrange(0, 0) =~= Seq::<Record>::empty());
        assert(head + records_bytes(recs.subrange(0, 0)) =~= head);
        while i < result.len()
            invariant
                i <= result@.len(),
                recs == result@.map_values(|kv: KeyValue| kv_record(kv)),
                forall|t: int| 0 <= t < result@.len() ==> (#[trigger] result@[t]).key <= u32::MAX && result@[t].value@.len() <= u32::MAX,
                data@ == head + records_bytes(recs.subrange(0, i as int)),
            decreases result@.len() - i,
        {
            let mut b = result[i].to_binary();
            let ghost before = data@;
            data.append(&mut b);
            let ghost sub = recs.subrange(0, i + 1);
            assert(sub.drop_last() =~= recs.subrange(0, i as int));
            assert(sub.last() == kv_record(result@[i as int]));
            assert(data@ =~= head + records_bytes(sub));
            i = i + 1;
        }
        assert(recs.subrange(0, recs.len() as int) =~= recs);
        assert(data@ =~= get_reply(version, recs));
        Ok(data)
    }

    fn run_get_last_command(&self, user: &UserWithKey, command: &[u8]) -> (r: Result<Vec<u8>, CommandError>)
        requires
            self.wf(),
        ensures
            reply_view(r) == get_last_outcome(self.databases(), user.databases@, command@),
    {
        let (name, _) = match get_database_name(command) {
            Ok(x) => x,
            Err(e) => return Err(e),
        };
        match user.validate_access(&name, true) {
            Ok(()) => {},
            Err(_) => return Err(CommandError::AccessDenied),
        }
        let (database, from, to) = match parse_get_command_parameters(command) {
            Ok(x) => x,
            Err(e) => return Err(e),
        };
        let (version, result) = self.data.get_last(database, from, to);
        let mut data: Vec<u8> = Vec::new();
        data.push(0);
        let mut v = u32_to_le_bytes(version);
        data.append(&mut v);
        match result {
            Some(kv) => {
                data.push(1);
                let mut b = kv.to_binary();
                data.append(&mut b);
            },
            None => {
                data.push(0);
            },
        }
        assert(data@ =~= get_last_reply(
            version,
            match result {
                Some(kv) => Some(kv_record(kv)),
                None => None,
            },
        ));
        Ok(data)
    }

    fn run_get_file_version_command(&self, user: &UserWithKey, command: &[u8]) -> (r: Result<Vec<u8>, CommandError>)
        requires
            self.wf(),
        ensures
            reply_view(r) == file_version_outcome(self.databases(), user.databases@, command@),
    {
        let (name, _) = match get_database_name(command) {
            Ok(x) => x,
            Err(e) => return Err(e),
        };
        match user.validate_access(&name, true) {
            Ok(()) => {},
            Err(_) => return Err(CommandError::AccessDenied),
        }
        let (database, key) = match parse_get_file_version_command_parameters(command) {
            Ok(x) => x,
            Err(e) => return Err(e),
        };
        let (db_version, file_version) = self.data.get_file_version(database, key);
        let fv: u32 = match file_version {
            Some(v) => v,
            None => 0,
        };
        let mut data: Vec<u8> = Vec::new();
        data.push(0);
        let mut v = u32_to_le_bytes(db_version);
        data.append(&mut v);
        let mut f = u32_to_le_bytes(fv);
        data.append(&mut f);
        assert(data@ =~= file_version_reply(db_version, fv));
        Ok(data)
    }

    /// Starts a SET for the user that the prefix names. On success the database version has
    /// gone up by one and the planned records come back with the database name; each is to
    /// be persisted and then passed to `commit`, in order. On failure nothing changes.
    pub fn execute_write(&mut self, command: &[u8], message_prefix: &[u8]) -> (r: Result<
        (String, Vec<KeyValue>),
        CommandError,
    >)
        requires
            old(self).wf(),
            is_write(command@),
        ensures
            final(self).wf(),
            final(self).users() == old(self).users(),
            user_of(old(self).users(), message_prefix@) is None ==> r == Err::<
                (String, Vec<KeyValue>),
                CommandError,
            >(CommandError::UnknownUser),
            user_of(old(self).users(), message_prefix@) matches Some(u) ==> set_outcome(
                *old(self),
                *final(self),
                u.databases@,
                command@.drop_first(),
                r,
            ),
            r is Err ==> same_all(final(self).databases(), old(self).databases()),
    {
        let user = match self.find_user(message_prefix) {
            Some(u) => u,
            None => return Err(CommandError::UnknownUser),
        };
        let body = &command[1..command.len()];
        assert(body@ == command@.drop_first());
        let user = UserWithKey {
            id: user.id,
            name: user.name.clone(),
            key: user.key,
            databases: copy_grants(&user.databases),
        };
        self.run_set_command(&user, body)
    }

    fn run_set_command(&mut self, user: &UserWithKey, command: &[u8]) -> (r: Result<
        (String, Vec<KeyValue>),
        CommandError,
    >)
        requires
            old(self).wf(),
        ensures
            final(self).wf(),
            final(self).users() == old(self).users(),
            set_outcome(*old(self), *final(self), user.databases@, command@, r),
            r is Err ==> same_all(final(self).databases(), old(self).databases()),
    {
        let (database, mut idx) = match get_database_name(command) {
            Ok(x) => x,
            Err(e) => return Err(e),
        };
        match user.validate_access(&database, false) {
            Ok(()) => {},
            Err(_) => return Err(CommandError::AccessDenied),
        }
        if command.len() - idx < 4 {
            return Err(CommandError::Malformed);
        }
        let expected_version = read_u32(command, idx);
        idx = idx + 4;
        let data = match KeyValue::from(&command[idx..command.len()]) {
            Ok(d) => d,
            Err(_) => return Err(CommandError::Malformed),
        };
        let ghost recs = records_of(data@);
        let ghost dv = data@;
        match self.data.set(database.clone(), expected_version, data) {
            Ok(ops) => {
                proof {
                    assert forall|i: int| 0 <= i < ops@.len() implies valid_op(#[trigger] ops@[i]) by {
                        assert(recs[i] == crate::codec::record_of(dv[i]));
                        assert(ops@[i].key == recs[i].0);
                        assert(dv[i].key <= u32::MAX);
                    }
                    assert(set_request(user.databases@, command@) == Ok::<(Seq<char>, u32, Seq<(usize, Seq<u8>)>), CommandError>((database@, expected_version, recs)));
                    assert(is_plan(old(self).databases().entries_of(database@), recs, ops@));
                }
                Ok((database, ops))
            },
            Err(SetError::VersionMismatch) => Err(CommandError::VersionMismatch),
            Err(SetError::VersionOverflow) => Err(CommandError::VersionOverflow),
        }
    }

    /// Commits a planned record of database `database` to memory, once it has been
    /// persisted.
    pub fn commit(&mut self, database: &String, op: &KeyValue)
        requires
            old(self).wf(),
            old(self).databases().contains(database@),
            valid_op(*op),
        ensures
            final(self).wf(),
            final(self).users() == old(self).users(),
            final(self).databases().contains(database@),
            final(self).databases().version_of(database@) == old(self).databases().version_of(
                database@,
            ),
            final(self).databases().entries_of(database@) == commit_entry(
                old(self).databases().entries_of(database@),
                *op,
            ),
            same_except(final(self).databases(), old(self).databases(), database@),
    {
        self.data.commit(database, op);
    }
}

/// A copy of a user's grants.
fn copy_grants(grants: &Vec<(String, bool)>) -> (r: Vec<(String, bool)>)
    ensures
        r@ == grants@,
{
    let mut r: Vec<(String, bool)> = Vec::new();
    let mut i: usize = 0;
    while i < grants.len()
        invariant
            i <= grants@.len(),
            r@.len() == i,
            forall|j: int| 0 <= j < i ==> #[trigger] r@[j] == grants@[j],
        decreases grants@.len() - i,
    {
        r.push((grants[i].0.clone(), grants[i].1));
        i = i + 1;
    }
    assert(r@ =~= grants@);
    r
}

/// `r` holds database `name` and the plan of `recs` over `m`, each record committable.
pub open spec fn planned(
    r: Result<(String, Vec<KeyValue>), CommandError>,
    name: Seq<char>,
    m: Map<usize, Stored>,
    recs: Seq<(usize, Seq<u8>)>,
) -> bool {
    match r {
        Ok((s, ops)) => {
            &&& s@ == name
            &&& is_plan(m, recs, ops@)
            &&& forall|i: int| 0 <= i < ops@.len() ==> valid_op(#[trigger] ops@[i])
        },
        Err(_) => false,
    }
}

/// What a SET on body `body` by a user with `grants` did to the databases, going from
/// `before` to `after`, with result `r`: a request error or an OCC refusal changes
/// nothing; success raises the database version by one and plans the records.
pub open spec fn set_outcome(
    before: UserCommandProcessor,
    after: UserCommandProcessor,
    grants: Seq<(String, bool)>,
    body: Seq<u8>,
    r: Result<(String, Vec<KeyValue>), CommandError>,
) -> bool {
    match set_request(grants, body) {
        Err(e) => r == Err::<(String, Vec<KeyValue>), CommandError>(e),
        Ok((name, expected, recs)) => {
            let old_dbs = before.databases();
            let v = old_dbs.version_of(name);
            let m = old_dbs.entries_of(name);
            if expected != v {
                r == Err::<(String, Vec<KeyValue>), CommandError>(CommandError::VersionMismatch)
            } else if v == u32::MAX || !versions_fit(m, recs) {
                r == Err::<(String, Vec<KeyValue>), CommandError>(CommandError::VersionOverflow)
            } else {
                &&& planned(r, name, m, recs)
                &&& after.databases().contains(name)
                &&& after.databases().version_of(name) == v + 1
                &&& after.databases().entries_of(name) == m
                &&& same_except(after.databases(), old_dbs, name)
            }
        },
    }
}

/// Access rules: without a grant a user can neither read nor write a database; with a
/// read-only grant reads pass the access check and writes are denied; with a read-write
/// grant both pass it.
pub proof fn lemma_access_rules(dbs: Databases, grants: Seq<(String, bool)>, body: Seq<u8>)
    requires
        name_field(body) is Some,
    ensures
        ({
            let name = name_of(body);
            &&& grant_of(grants, name) is None ==> {
                &&& get_outcome(dbs, grants, body) == Err::<Seq<u8>, CommandError>(
                    CommandError::AccessDenied,
                )
                &&& get_last_outcome(dbs, grants, body) == Err::<Seq<u8>, CommandError>(
                    CommandError::AccessDenied,
                )
                &&& file_version_outcome(dbs, grants, body) == Err::<Seq<u8>, CommandError>(
                    CommandError::AccessDenied,
                )
                &&& set_request(grants, body) == Err::<
                    (Seq<char>, u32, Seq<(usize, Seq<u8>)>),
                    CommandError,
                >(CommandError::AccessDenied)
            }
            &&& grant_of(grants, name) == Some(false) ==> {
                &&& set_request(grants, body) == Err::<
                    (Seq<char>, u32, Seq<(usize, Seq<u8>)>),
                    CommandError,
                >(CommandError::AccessDenied)
                &&& range_request(body) is Some ==> get_outcome(dbs, grants, body) is Ok
                &&& key_request(body) is Some ==> file_version_outcome(dbs, grants, body) is Ok
            }
            &&& grant_of(grants, name) == Some(true) ==> {
                &&& set_request(grants, body) != Err::<
                    (Seq<char>, u32, Seq<(usize, Seq<u8>)>),
                    CommandError,
                >(CommandError::AccessDenied)
                &&& range_request(body) is Some ==> get_outcome(dbs, grants, body) is Ok
                &&& key_request(body) is Some ==> file_version_outcome(dbs, grants, body) is Ok
            }
        }),
{
}

/// Reads of a database that does not exist answer version 1 and nothing found: GET
/// returns no records, GET_LAST none, GET_FILE_VERSION 0.
pub proof fn lemma_unknown_database_reads(
    dbs: Databases,
    grants: Seq<(String, bool)>,
    body: Seq<u8>,
)
    requires
        range_request(body) is Some || key_request(body) is Some,
        !dbs.contains(name_of(body)),
        allows(grant_of(grants, name_of(body)), true),
    ensures
        range_request(body) is Some ==> get_outcome(dbs, grants, body) == Ok::<Seq<u8>, CommandError>(
            get_reply(1, Seq::empty()),
        ),
        range_request(body) is Some ==> get_last_outcome(dbs, grants, body) == Ok::<
            Seq<u8>,
            CommandError,
        >(get_last_reply(1, None)),
        key_request(body) is Some ==> file_version_outcome(dbs, grants, body) == Ok::<
            Seq<u8>,
            CommandError,
        >(file_version_reply(1, 0)),
{
    let e = Seq::<Record>::empty();
    if range_request(body) is Some {
        let (_, from, to) = range_request(body)->0;
        assert(crate::database::is_range(Map::<usize, Stored>::empty(), from, to, e));
        crate::database::lemma_range_records(Map::<usize, Stored>::empty(), from, to, e);
    }
}

} // verus!
