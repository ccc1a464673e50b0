use std::collections::HashMap;

use file_server::access::UserWithKey;
use file_server::command_processor::{is_write_command, ok_reply, CommandError, UserCommandProcessor};
use file_server::databases::Databases;

const USER_ID: u32 = 11223344;

fn prefix(id: u32) -> Vec<u8> {
    id.to_le_bytes().to_vec()
}

fn processor(grants: Vec<(&str, bool)>) -> UserCommandProcessor {
    let user = UserWithKey {
        id: USER_ID,
        name: "User1".to_string(),
        key: [7u8; 32],
        databases: grants.into_iter().map(|(n, rw)| (n.to_string(), rw)).collect(),
    };
    let mut users = HashMap::new();
    users.insert(USER_ID, user);
    UserCommandProcessor::new(Databases::new("/tmp/base".to_string(), 10000), users)
}

/// Runs a command the way the server does: writes are planned, then each record is
/// committed in order.
fn run(p: &mut UserCommandProcessor, command: &[u8]) -> Result<Vec<u8>, CommandError> {
    let pre = prefix(USER_ID);
    if is_write_command(command) {
        let (name, ops) = p.execute_write(command, &pre)?;
        for op in &ops {
            p.commit(&name, op);
        }
        Ok(ok_reply())
    } else {
        p.execute(command, &pre)
    }
}

fn s1_set() -> Vec<u8> {
    let mut v = vec![0x01, 0x01, b'd', 0x01, 0, 0, 0, 0x01, 0, 0, 0, 0x2A, 0, 0, 0, 0x03, 0, 0, 0];
    v.extend_from_slice(b"abc");
    v
}

fn get_all(name: u8) -> Vec<u8> {
    vec![0x00, 0x01, name, 0, 0, 0, 0, 0xFF, 0xFF, 0xFF, 0xFF]
}

fn s1_get_reply() -> Vec<u8> {
    let mut v = vec![0x00, 0x02, 0, 0, 0, 0x01, 0, 0, 0, 0x01, 0, 0, 0, 0x2A, 0, 0, 0, 0x03, 0, 0, 0];
    v.extend_from_slice(b"abc");
    v
}

#[test]
fn s1_set_then_get_single_key() {
    let mut p = processor(vec![("d", true)]);
    assert_eq!(run(&mut p, &s1_set()), Ok(vec![0x00]));
    assert_eq!(run(&mut p, &get_all(b'd')), Ok(s1_get_reply()));
}

#[test]
fn s2_occ_rejection() {
    let mut p = processor(vec![("d", true)]);
    assert_eq!(run(&mut p, &s1_set()), Ok(vec![0x00]));
    assert_eq!(run(&mut p, &s1_set()), Err(CommandError::VersionMismatch));
    assert_eq!(run(&mut p, &get_all(b'd')), Ok(s1_get_reply()));
}

#[test]
fn s3_delete() {
    let mut p = processor(vec![("d", true)]);
    assert_eq!(run(&mut p, &s1_set()), Ok(vec![0x00]));
    let delete = vec![0x01, 0x01, b'd', 0x02, 0, 0, 0, 0x01, 0, 0, 0, 0x2A, 0, 0, 0, 0, 0, 0, 0];
    assert_eq!(run(&mut p, &delete), Ok(vec![0x00]));
    assert_eq!(run(&mut p, &get_all(b'd')), Ok(vec![0x00, 0x03, 0, 0, 0, 0, 0, 0, 0]));
    let file_version = vec![0x03, 0x01, b'd', 0x2A, 0, 0, 0];
    assert_eq!(run(&mut p, &file_version), Ok(vec![0x00, 0x03, 0, 0, 0, 0, 0, 0, 0]));
}

fn set_keys(version: u32, keys: &[u32]) -> Vec<u8> {
    let mut v = vec![0x01, 0x01, b'd'];
    v.extend_from_slice(&version.to_le_bytes());
    v.extend_from_slice(&(keys.len() as u32).to_le_bytes());
    for k in keys {
        v.extend_from_slice(&k.to_le_bytes());
        v.extend_from_slice(&1u32.to_le_bytes());
        v.push(*k as u8);
    }
    v
}

fn get_last(from: u32, to: u32) -> Vec<u8> {
    let mut v = vec![0x02, 0x01, b'd'];
    v.extend_from_slice(&from.to_le_bytes());
    v.extend_from_slice(&to.to_le_bytes());
    v
}

#[test]
fn s4_get_last_on_gap() {
    let mut p = processor(vec![("d", true)]);
    assert_eq!(run(&mut p, &set_keys(1, &[5, 17, 42])), Ok(vec![0x00]));
    let reply = run(&mut p, &get_last(10, 30)).unwrap();
    let mut expected = vec![0x00, 0x02, 0, 0, 0, 0x01];
    expected.extend_from_slice(&[0x01, 0, 0, 0, 17, 0, 0, 0, 0x01, 0, 0, 0, 17]);
    assert_eq!(reply, expected);
    assert_eq!(run(&mut p, &get_last(100, 200)), Ok(vec![0x00, 0x02, 0, 0, 0, 0x00]));
}

#[test]
fn s5_unknown_database() {
    let mut p = processor(vec![("x", false)]);
    assert_eq!(run(&mut p, &get_all(b'x')), Ok(vec![0x00, 0x01, 0, 0, 0, 0, 0, 0, 0]));
    let last = vec![0x02, 0x01, b'x', 0, 0, 0, 0, 0xFF, 0xFF, 0xFF, 0xFF];
    assert_eq!(run(&mut p, &last), Ok(vec![0x00, 0x01, 0, 0, 0, 0x00]));
    let file_version = vec![0x03, 0x01, b'x', 0x2A, 0, 0, 0];
    assert_eq!(run(&mut p, &file_version), Ok(vec![0x00, 0x01, 0, 0, 0, 0, 0, 0, 0]));
}

#[test]
fn reads_do_not_create_a_database() {
    let mut p = processor(vec![("x", true)]);
    assert_eq!(run(&mut p, &get_all(b'x')), Ok(vec![0x00, 0x01, 0, 0, 0, 0, 0, 0, 0]));
    let mut set = vec![0x01, 0x01, b'x', 0x02, 0, 0, 0, 0, 0, 0, 0];
    assert_eq!(run(&mut p, &set), Err(CommandError::VersionMismatch));
    set[3] = 0x01;
    assert_eq!(run(&mut p, &set), Ok(vec![0x00]));
    assert_eq!(run(&mut p, &get_all(b'x')), Ok(vec![0x00, 0x02, 0, 0, 0, 0, 0, 0, 0]));
}

#[test]
fn s6_acl_denial() {
    let mut p = processor(vec![("d", false)]);
    assert_eq!(run(&mut p, &s1_set()), Err(CommandError::AccessDenied));
    assert_eq!(run(&mut p, &get_all(b'd')), Ok(vec![0x00, 0x01, 0, 0, 0, 0, 0, 0, 0]));
}

#[test]
fn no_grant_cannot_read_or_write() {
    let mut p = processor(vec![("e", true)]);
    assert_eq!(run(&mut p, &s1_set()), Err(CommandError::AccessDenied));
    assert_eq!(run(&mut p, &get_all(b'd')), Err(CommandError::AccessDenied));
    assert_eq!(run(&mut p, &get_last(0, 1)), Err(CommandError::AccessDenied));
}

#[test]
fn read_write_grant_reads_and_writes() {
    let mut p = processor(vec![("d", true)]);
    assert_eq!(run(&mut p, &s1_set()), Ok(vec![0x00]));
    assert_eq!(run(&mut p, &get_all(b'd')), Ok(s1_get_reply()));
}

#[test]
fn version_increases_per_batch_and_per_key() {
    let mut p = processor(vec![("d", true)]);
    assert_eq!(run(&mut p, &set_keys(1, &[42])), Ok(vec![0x00]));
    assert_eq!(run(&mut p, &set_keys(2, &[42])), Ok(vec![0x00]));
    let file_version = vec![0x03, 0x01, b'd', 0x2A, 0, 0, 0];
    assert_eq!(run(&mut p, &file_version), Ok(vec![0x00, 0x03, 0, 0, 0, 0x02, 0, 0, 0]));
    // an empty batch only raises the database version
    assert_eq!(run(&mut p, &set_keys(3, &[])), Ok(vec![0x00]));
    assert_eq!(run(&mut p, &file_version), Ok(vec![0x00, 0x04, 0, 0, 0, 0x02, 0, 0, 0]));
}

#[test]
fn new_database_needs_expected_version_one() {
    let mut p = processor(vec![("d", true)]);
    assert_eq!(run(&mut p, &set_keys(2, &[1])), Err(CommandError::VersionMismatch));
    assert_eq!(run(&mut p, &get_all(b'd')), Ok(vec![0x00, 0x01, 0, 0, 0, 0, 0, 0, 0]));
}

#[test]
fn malformed_commands() {
    let mut p = processor(vec![("d", true)]);
    // name length zero
    assert_eq!(run(&mut p, &[0x00, 0x00, 0, 0, 0, 0, 0, 0, 0, 0]), Err(CommandError::Malformed));
    // name longer than the body
    assert_eq!(run(&mut p, &[0x00, 0x09, b'd', 0, 0, 0, 0]), Err(CommandError::Malformed));
    // trailing byte after the GET parameters
    let mut long = get_all(b'd');
    long.push(0);
    assert_eq!(run(&mut p, &long), Err(CommandError::Malformed));
    // missing byte of the GET parameters
    let short = &get_all(b'd')[..10];
    assert_eq!(run(&mut p, short), Err(CommandError::Malformed));
    // a name that is not UTF-8
    assert_eq!(run(&mut p, &[0x00, 0x01, 0xFF, 0, 0, 0, 0, 0, 0, 0, 0]), Err(CommandError::Malformed));
    // a batch whose count exceeds its records
    let mut bad = set_keys(1, &[5]);
    bad[7] = 2;
    assert_eq!(run(&mut p, &bad), Err(CommandError::Malformed));
    // a SET without a full expected version
    assert_eq!(run(&mut p, &[0x01, 0x01, b'd', 0x01, 0x00]), Err(CommandError::Malformed));
    // nothing was written
    assert_eq!(run(&mut p, &get_all(b'd')), Ok(vec![0x00, 0x01, 0, 0, 0, 0, 0, 0, 0]));
}

#[test]
fn unknown_opcode_is_invalid() {
    let mut p = processor(vec![("d", true)]);
    assert_eq!(run(&mut p, &[0x04, 0x01, b'd', 0, 0, 0, 0]), Err(CommandError::InvalidCommand));
}

#[test]
fn access_is_checked_before_parameters() {
    let mut p = processor(vec![("e", true)]);
    assert_eq!(run(&mut p, &[0x00, 0x01, b'd', 0, 0]), Err(CommandError::AccessDenied));
}

#[test]
fn bridge_contract() {
    let p = processor(vec![("d", true)]);
    assert_eq!(p.get_message_prefix_length(), 4);
    assert!(!p.check_message_length(6));
    assert!(p.check_message_length(7));
    assert_eq!(p.get_key(&prefix(USER_ID)), Ok([7u8; 32]));
    assert_eq!(p.get_key(&prefix(USER_ID + 1)), Err(CommandError::UnknownUser));
    assert_eq!(p.get_key(&[1, 2, 3]), Err(CommandError::UnknownUser));
    assert_eq!(p.execute(&get_all(b'd'), &prefix(5)), Err(CommandError::UnknownUser));
}

#[test]
fn get_range_is_inclusive_and_ordered() {
    let mut p = processor(vec![("d", true)]);
    assert_eq!(run(&mut p, &set_keys(1, &[30, 10, 20, 40])), Ok(vec![0x00]));
    let mut get = vec![0x00, 0x01, b'd'];
    get.extend_from_slice(&10u32.to_le_bytes());
    get.extend_from_slice(&30u32.to_le_bytes());
    let mut expected = vec![0x00, 0x02, 0, 0, 0, 0x03, 0, 0, 0];
    for k in [10u8, 20, 30] {
        expected.extend_from_slice(&[0x01, 0, 0, 0, k, 0, 0, 0, 0x01, 0, 0, 0, k]);
    }
    assert_eq!(run(&mut p, &get), Ok(expected));
}

#[test]
fn utf8_database_names() {
    let mut p = processor(vec![("ä", true)]);
    let name = "ä".as_bytes();
    let mut set = vec![0x01, name.len() as u8];
    set.extend_from_slice(name);
    set.extend_from_slice(&[0x01, 0, 0, 0, 0x01, 0, 0, 0, 0x05, 0, 0, 0, 0x01, 0, 0, 0, b'v']);
    assert_eq!(run(&mut p, &set), Ok(vec![0x00]));
    let mut get = vec![0x03, name.len() as u8];
    get.extend_from_slice(name);
    get.extend_from_slice(&[0x05, 0, 0, 0]);
    assert_eq!(run(&mut p, &get), Ok(vec![0x00, 0x02, 0, 0, 0, 0x01, 0, 0, 0]));
    // the same bytes cut short are not UTF-8
    let cut = vec![0x03, 0x01, name[0], 0x05, 0, 0, 0];
    assert_eq!(run(&mut p, &cut), Err(CommandError::Malformed));
}
