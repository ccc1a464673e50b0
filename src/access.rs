use vstd::prelude::*;
use vstd::string::StrSliceExecFns;
use crate::configuration::User;

verus! {

/// A user with the key that authenticates their messages and their grants: for each
/// database name, whether the grant is read-write (true) or read-only (false).
pub struct UserWithKey {
    pub id: u32,
    pub name: String,
    pub key: [u8; 32],
    pub databases: Vec<(String, bool)>,
}

/// Why a request was refused.
#[derive(Clone, Copy, Debug, PartialEq, Eq)]
pub enum AccessError {
    /// The user has no grant for the database, or a read-only grant and asked to write.
    Denied,
}

/// The grant held for `name` (true for read-write); a later grant for the same name wins.
pub open spec fn grant_of(grants: Seq<(String, bool)>, name: Seq<char>) -> Option<bool>
    decreases grants.len(),
{
    if grants.len() == 0 {
        None
    } else if grants.last().0@ == name {
        Some(grants.last().1)
    } else {
        grant_of(grants.drop_last(), name)
    }
}

/// Whether a grant allows a request: any grant allows reads, only read-write allows writes.
pub open spec fn allows(grant: Option<bool>, read: bool) -> bool {
    match grant {
        Some(rw) => read || rw,
        None => false,
    }
}

/// The grants of a configured user: "rw" is read-write, anything else read-only.
pub open spec fn grants_of(databases: Seq<(String, String)>) -> Seq<(Seq<char>, bool)> {
    databases.map_values(|d: (String, String)| (d.0@, d.1@ == seq!['r', 'w']))
}

/// A user's grants as (name, read-write).
pub open spec fn grant_view(grants: Seq<(String, bool)>) -> Seq<(Seq<char>, bool)> {
    grants.map_values(|g: (String, bool)| (g.0@, g.1))
}

/// Whether a configured grant is "rw".
fn is_read_write(grant: &String) -> (r: bool)
    ensures
        r == (grant@ == seq!['r', 'w']),
{
    let s = grant.as_str();
    if s.unicode_len() != 2 {
        return false;
    }
    let r = s.get_char(0) == 'r' && s.get_char(1) == 'w';
    assert(r ==> grant@ =~= seq!['r', 'w']);
    r
}

impl UserWithKey {
    /// Checks that this user may read (`get_request`) or write database `db_name`.
    pub fn validate_access(&self, db_name: &String, get_request: bool) -> (r: Result<(), AccessError>)
        ensures
            r is Ok <==> allows(grant_of(self.databases@, db_name@), get_request),
    {
        let mut i: usize = self.databases.len();
        assert(self.databases@.subrange(0, i as int) =~= self.databases@);
        while i > 0
            invariant
                i <= self.databases@.len(),
                grant_of(self.databases@.subrange(0, i as int), db_name@) == grant_of(
                    self.databases@,
                    db_name@,
                ),
            decreases i,
        {
            let ghost pre = self.databases@.subrange(0, i as int);
            assert(pre.drop_last() =~= self.databases@.subrange(0, i - 1));
            let g = &self.databases[i - 1];
            if g.0 == *db_name {
                if get_request || g.1 {
                    return Ok(());
                } else {
                    return Err(AccessError::Denied);
                }
            }
            i = i - 1;
        }
        Err(AccessError::Denied)
    }

    /// The user of a configuration entry with its key.
    pub fn from(user: &User, key: [u8; 32]) -> (r: UserWithKey)
        ensures
            r.id == user.id,
            r.name@ == user.name@,
            r.key == key,
            grant_view(r.databases@) == grants_of(user.databases@),
    {
        let mut databases: Vec<(String, bool)> = Vec::new();
        let mut i: usize = 0;
        while i < user.databases.len()
            invariant
                i <= user.databases@.len(),
                grant_view(databases@) == grants_of(user.databases@.subrange(0, i as int)),
            decreases user.databases@.len() - i,
        {
            let d = &user.databases[i];
            let rw = is_read_write(&d.1);
            databases.push((d.0.clone(), rw));
            assert(grants_of(user.databases@.subrange(0, i + 1)) =~= grants_of(
                user.databases@.subrange(0, i as int),
            ).push((d.0@, rw)));
            assert(grant_view(databases@) =~= grant_view(databases@.drop_last()).push((d.0@, rw)));
            i = i + 1;
        }
        assert(user.databases@.subrange(0, user.databases@.len() as int) =~= user.databases@);
        UserWithKey { id: user.id, name: user.name.clone(), key, databases }
    }
}

} // verus!
