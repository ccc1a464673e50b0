use file_server::access::{AccessError, UserWithKey};
use file_server::configuration::{validate_configuration, ConfigError, Configuration, User};

fn user(id: u32, name: &str, key_file: &str) -> User {
    User {
        id,
        name: name.to_string(),
        key_file_name: key_file.to_string(),
        databases: vec![
            ("db1".to_string(), "rw".to_string()),
            ("db2".to_string(), "r".to_string()),
        ],
    }
}

fn configuration(users: Vec<User>) -> Configuration {
    Configuration { port_number: 59999, base_folder: "/tmp".to_string(), hash_divider: 10000, users }
}

#[test]
fn valid_configuration() {
    assert_eq!(validate_configuration(&configuration(vec![user(11223344, "User1", "key.dat")])), Ok(()));
}

#[test]
fn configuration_parameters() {
    assert_eq!(validate_configuration(&configuration(vec![])), Err(ConfigError::IncorrectParameters));
    let mut c = configuration(vec![user(1, "a", "k")]);
    c.port_number = 0;
    assert_eq!(validate_configuration(&c), Err(ConfigError::IncorrectParameters));
    let mut c = configuration(vec![user(1, "a", "k")]);
    c.base_folder = String::new();
    assert_eq!(validate_configuration(&c), Err(ConfigError::IncorrectParameters));
    let mut c = configuration(vec![user(1, "a", "k")]);
    c.hash_divider = 0;
    assert_eq!(validate_configuration(&c), Err(ConfigError::IncorrectParameters));
}

#[test]
fn configuration_users() {
    let c = configuration(vec![user(1, "a", "k"), user(2, "", "k")]);
    assert_eq!(validate_configuration(&c), Err(ConfigError::IncorrectUsers));
    let c = configuration(vec![user(1, "a", "")]);
    assert_eq!(validate_configuration(&c), Err(ConfigError::IncorrectUsers));
    let c = configuration(vec![user(1, "a", "k"), user(2, "b", "k"), user(1, "c", "k")]);
    assert_eq!(validate_configuration(&c), Err(ConfigError::DuplicateUser));
    // users are checked in order: the duplicate comes first here
    let c = configuration(vec![user(1, "a", "k"), user(1, "b", "k"), user(3, "", "k")]);
    assert_eq!(validate_configuration(&c), Err(ConfigError::DuplicateUser));
}

#[test]
fn grants_from_configuration() {
    let u = UserWithKey::from(&user(5, "User1", "key.dat"), [3u8; 32]);
    assert_eq!(u.id, 5);
    assert_eq!(u.name, "User1");
    assert_eq!(u.key, [3u8; 32]);
    assert_eq!(u.databases, vec![("db1".to_string(), true), ("db2".to_string(), false)]);
    assert_eq!(u.validate_access(&"db1".to_string(), true), Ok(()));
    assert_eq!(u.validate_access(&"db1".to_string(), false), Ok(()));
    assert_eq!(u.validate_access(&"db2".to_string(), true), Ok(()));
    assert_eq!(u.validate_access(&"db2".to_string(), false), Err(AccessError::Denied));
    assert_eq!(u.validate_access(&"db3".to_string(), true), Err(AccessError::Denied));
    assert_eq!(u.validate_access(&"db3".to_string(), false), Err(AccessError::Denied));
}

#[test]
fn only_exact_rw_is_read_write() {
    let mut u = user(5, "n", "k");
    u.databases = vec![("a".to_string(), "RW".to_string()), ("b".to_string(), "rwx".to_string())];
    let u = UserWithKey::from(&u, [0u8; 32]);
    assert_eq!(u.validate_access(&"a".to_string(), false), Err(AccessError::Denied));
    assert_eq!(u.validate_access(&"b".to_string(), false), Err(AccessError::Denied));
}
