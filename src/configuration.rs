use vstd::prelude::*;

verus! {

/// A configured user: id, name, key file, and a grant per database name ("r" or "rw").
pub struct User {
    pub id: u32,
    pub name: String,
    pub key_file_name: String,
    pub databases: Vec<(String, String)>,
}

/// The server configuration: port, base folder, shard fan-out and users.
pub struct Configuration {
    pub port_number: u16,
    pub base_folder: String,
    pub hash_divider: usize,
    pub users: Vec<User>,
}

/// Why a configuration was rejected.
#[derive(Clone, Copy, Debug, PartialEq, Eq)]
pub enum ConfigError {
    /// No users, port 0, an empty base folder or a zero fan-out.
    IncorrectParameters,
    /// A user with an empty name or key file name.
    IncorrectUsers,
    /// Two users with one id.
    DuplicateUser,
}

/// The server-wide settings are usable.
pub open spec fn parameters_ok(c: Configuration) -> bool {
    &&& c.users@.len() > 0
    &&& c.port_number != 0
    &&& c.base_folder@.len() > 0
    &&& c.hash_divider > 0
}

/// A user has a name and a key file name.
pub open spec fn user_ok(u: User) -> bool {
    u.name@.len() > 0 && u.key_file_name@.len() > 0
}

/// The first problem among the first `n` users, checked in order: for each user, first
/// its name and key file, then whether an earlier user has its id.
pub open spec fn users_check(users: Seq<User>, n: int) -> Result<(), ConfigError>
    decreases n,
{
    if n <= 0 {
        Ok(())
    } else {
        match users_check(users, n - 1) {
            Err(e) => Err(e),
            Ok(()) => if !user_ok(users[n - 1]) {
                Err(ConfigError::IncorrectUsers)
            } else if exists|j: int| 0 <= j < n - 1 && (#[trigger] users[j]).id == users[n - 1].id {
                Err(ConfigError::DuplicateUser)
            } else {
                Ok(())
            },
        }
    }
}

proof fn lemma_users_check_extends(users: Seq<User>, n: int, m: int)
    requires
        0 <= n <= m,
        users_check(users, n) is Err,
    ensures
        users_check(users, m) == users_check(users, n),
    decreases m - n,
{
    if m > n {
        lemma_users_check_extends(users, n, m - 1);
    }
}

/// The verdict on a configuration.
pub open spec fn configuration_check(c: Configuration) -> Result<(), ConfigError> {
    if !parameters_ok(c) {
        Err(ConfigError::IncorrectParameters)
    } else {
        users_check(c.users@, c.users@.len() as int)
    }
}

/// Checks a loaded configuration before the server starts.
pub fn validate_configuration(config: &Configuration) -> (r: Result<(), ConfigError>)
    ensures
        r == configuration_check(*config),
{
    if config.users.len() == 0 || config.port_number == 0 || config.base_folder.as_str().unicode_len() == 0
        || config.hash_divider == 0 {
        return Err(ConfigError::IncorrectParameters);
    }
    let users = &config.users;
    let mut i: usize = 0;
    while i < users.len()
        invariant
            i <= users@.len(),
            users@ == config.users@,
            parameters_ok(*config),
            users_check(users@, i as int) == Ok::<(), ConfigError>(()),
        decreases users@.len() - i,
    {
        let u = &users[i];
        if u.key_file_name.as_str().unicode_len() == 0 || u.name.as_str().unicode_len() == 0 {
            proof {
                lemma_users_check_extends(users@, i + 1, users@.len() as int);
            }
            return Err(ConfigError::IncorrectUsers);
        }
        let mut j: usize = 0;
        while j < i
            invariant
                j <= i < users@.len(),
                users@ == config.users@,
                users@[i as int].id == u.id,
                user_ok(users@[i as int]),
                parameters_ok(*config),
                users_check(users@, i as int) == Ok::<(), ConfigError>(()),
                forall|t: int| 0 <= t < j ==> users@[t].id != users@[i as int].id,
            decreases i - j,
        {
            if users[j].id == u.id {
                assert(0 <= j < i && users@[j as int].id == users@[i as int].id);
                proof {
                    lemma_users_check_extends(users@, i + 1, users@.len() as int);
                }
                return Err(ConfigError::DuplicateUser);
            }
            j = j + 1;
        }
        assert(!exists|t: int| 0 <= t < i && (#[trigger] users@[t]).id == users@[i as int].id);
        i = i + 1;
    }
    Ok(())
}

} // verus!
