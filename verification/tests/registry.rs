//! Registry operations: uniqueness, removal, listing.

use jump::profile::{AuthMethod, Error, Registry, ServerProfile};

fn key_profile(name: &str, address: &str, port: u32, user: &str, path: &str) -> ServerProfile {
    ServerProfile {
        name: name.as_bytes().to_vec(),
        address: address.as_bytes().to_vec(),
        port,
        auth: AuthMethod::KeyAuth {
            username: user.as_bytes().to_vec(),
            key_path: path.as_bytes().to_vec(),
        },
    }
}

fn pw_profile(name: &str, address: &str, port: u32, user: &str, pw: &str) -> ServerProfile {
    ServerProfile {
        name: name.as_bytes().to_vec(),
        address: address.as_bytes().to_vec(),
        port,
        auth: AuthMethod::PasswordAuth {
            username: user.as_bytes().to_vec(),
            password: pw.as_bytes().to_vec(),
        },
    }
}

#[test]
fn add_then_list_single_profile() {
    let mut reg = Registry::new();
    let p = key_profile("box1", "10.0.0.5", 22, "alice", "~/.ssh/id_rsa");
    assert!(reg.add(p).is_ok());
    let listing = reg.list();
    assert_eq!(listing.len(), 1);
    assert_eq!(listing[0].0, b"box1".to_vec());
    assert_eq!(listing[0].1, b"10.0.0.5".to_vec());
}

#[test]
fn duplicate_name_is_rejected_and_registry_unchanged() {
    let mut reg = Registry::new();
    assert!(reg.add(key_profile("box1", "10.0.0.5", 22, "alice", "~/.ssh/id_rsa")).is_ok());
    let second = key_profile("box1", "192.168.1.9", 2222, "bob", "~/.ssh/other");
    assert_eq!(reg.add(second), Err(Error::DuplicateNameError));
    let listing = reg.list();
    assert_eq!(listing.len(), 1);
    assert_eq!(listing[0].1, b"10.0.0.5".to_vec());
}

#[test]
fn remove_is_idempotent() {
    let mut reg = Registry::new();
    assert!(reg.add(key_profile("box1", "10.0.0.5", 22, "alice", "~/.ssh/id_rsa")).is_ok());
    reg.remove(&b"box1".to_vec());
    assert_eq!(reg.len(), 0);
    reg.remove(&b"box1".to_vec());
    assert_eq!(reg.len(), 0);
}

#[test]
fn remove_of_absent_name_is_a_noop() {
    let mut reg = Registry::new();
    assert!(reg.add(pw_profile("keep", "1.2.3.4", 22, "u", "pw")).is_ok());
    reg.remove(&b"other".to_vec());
    assert_eq!(reg.len(), 1);
}

#[test]
fn insertion_order_is_preserved() {
    let mut reg = Registry::new();
    assert!(reg.add(key_profile("a", "1.1.1.1", 22, "u", "k")).is_ok());
    assert!(reg.add(pw_profile("b", "2.2.2.2", 23, "v", "s")).is_ok());
    assert!(reg.add(key_profile("c", "3.3.3.3", 24, "w", "k2")).is_ok());
    reg.remove(&b"b".to_vec());
    let listing = reg.list();
    assert_eq!(listing.len(), 2);
    assert_eq!(listing[0].0, b"a".to_vec());
    assert_eq!(listing[1].0, b"c".to_vec());
}

#[test]
fn find_returns_the_named_profile() {
    let mut reg = Registry::new();
    assert!(reg.add(key_profile("a", "1.1.1.1", 22, "u", "k")).is_ok());
    assert!(reg.add(pw_profile("b", "2.2.2.2", 23, "v", "s")).is_ok());
    let found = reg.find(&b"b".to_vec()).expect("profile b should be present");
    assert_eq!(found.address, b"2.2.2.2".to_vec());
    assert!(reg.find(&b"zz".to_vec()).is_none());
}

#[test]
fn auth_labels_match_the_variants() {
    let key = AuthMethod::KeyAuth { username: b"u".to_vec(), key_path: b"k".to_vec() };
    let pw = AuthMethod::PasswordAuth { username: b"u".to_vec(), password: b"p".to_vec() };
    assert_eq!(key.label(), "ssh");
    assert_eq!(pw.label(), "pass");
}

#[test]
fn error_messages_are_nonempty_and_distinct() {
    let all = [
        Error::ParseError,
        Error::IoError,
        Error::DuplicateNameError,
        Error::NotFoundError,
        Error::InvalidPathError,
        Error::LaunchError,
    ];
    for (i, a) in all.iter().enumerate() {
        assert!(!a.message().is_empty());
        for b in all.iter().skip(i + 1) {
            assert_ne!(a.message(), b.message());
        }
    }
}

#[test]
fn parse_ssh_path_keeps_the_bytes() {
    assert_eq!(jump::profile::parse_ssh_path("~/.ssh"), b"~/.ssh".to_vec());
}
