//! The connection dispatcher: resolution and the exact invocation tokens.

use jump::dispatch::{build_invocation, connect};
use jump::profile::{AuthMethod, Error, Registry, ServerProfile};

fn registry_with(p: ServerProfile) -> Registry {
    let mut reg = Registry::new();
    reg.add(p).expect("fresh name");
    reg
}

#[test]
fn connect_to_unknown_name_is_not_found() {
    let reg = registry_with(ServerProfile {
        name: b"box1".to_vec(),
        address: b"10.0.0.5".to_vec(),
        port: 22,
        auth: AuthMethod::KeyAuth { username: b"alice".to_vec(), key_path: b"k".to_vec() },
    });
    assert_eq!(connect(&reg, &b"ghost".to_vec()).err(), Some(Error::NotFoundError));
}

#[test]
fn password_invocation_tokens_are_exact() {
    let reg = registry_with(ServerProfile {
        name: b"box1".to_vec(),
        address: b"10.0.0.5".to_vec(),
        port: 22,
        auth: AuthMethod::PasswordAuth {
            username: b"alice".to_vec(),
            password: b"hunter2".to_vec(),
        },
    });
    let inv = connect(&reg, &b"box1".to_vec()).expect("profile exists");
    assert_eq!(inv.program, b"sshpass".to_vec());
    let expected: Vec<Vec<u8>> = vec![
        b"-p".to_vec(),
        b"hunter2".to_vec(),
        b"ssh".to_vec(),
        b"-p".to_vec(),
        b"22".to_vec(),
        b"alice@10.0.0.5".to_vec(),
    ];
    assert_eq!(inv.args, expected);
}

#[test]
fn key_invocation_tokens_are_exact() {
    let reg = registry_with(ServerProfile {
        name: b"box2".to_vec(),
        address: b"example.org".to_vec(),
        port: 2222,
        auth: AuthMethod::KeyAuth {
            username: b"bob".to_vec(),
            key_path: b"~/.ssh/id_rsa".to_vec(),
        },
    });
    let inv = connect(&reg, &b"box2".to_vec()).expect("profile exists");
    assert_eq!(inv.program, b"ssh".to_vec());
    let expected: Vec<Vec<u8>> = vec![
        b"-i".to_vec(),
        b"~/.ssh/id_rsa".to_vec(),
        b"-p".to_vec(),
        b"2222".to_vec(),
        b"bob@example.org".to_vec(),
    ];
    assert_eq!(inv.args, expected);
}

#[test]
fn connect_resolves_the_named_profile_among_several() {
    let mut reg = Registry::new();
    reg.add(ServerProfile {
        name: b"a".to_vec(),
        address: b"1.1.1.1".to_vec(),
        port: 22,
        auth: AuthMethod::KeyAuth { username: b"u".to_vec(), key_path: b"k".to_vec() },
    })
    .expect("fresh name");
    reg.add(ServerProfile {
        name: b"b".to_vec(),
        address: b"2.2.2.2".to_vec(),
        port: 23,
        auth: AuthMethod::PasswordAuth { username: b"v".to_vec(), password: b"s".to_vec() },
    })
    .expect("fresh name");
    let inv = connect(&reg, &b"b".to_vec()).expect("profile exists");
    assert_eq!(inv.program, b"sshpass".to_vec());
    assert_eq!(inv.args[5], b"v@2.2.2.2".to_vec());
}

#[test]
fn build_invocation_formats_the_largest_port() {
    let inv = build_invocation(&ServerProfile {
        name: b"m".to_vec(),
        address: b"h".to_vec(),
        port: 4294967295,
        auth: AuthMethod::KeyAuth { username: b"u".to_vec(), key_path: b"k".to_vec() },
    });
    assert_eq!(inv.args[3], b"4294967295".to_vec());
}
