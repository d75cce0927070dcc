//! The persisted document: exact serialized form, tolerance for an empty
//! document, rejection of malformed ones, and the round trip.

use jump::codec::{load_registry, parse_document, save_registry};
use jump::profile::{AuthMethod, Error, Registry, ServerProfile};

fn sample_registry() -> Registry {
    let mut reg = Registry::new();
    reg.add(ServerProfile {
        name: b"box1".to_vec(),
        address: b"10.0.0.5".to_vec(),
        port: 22,
        auth: AuthMethod::KeyAuth {
            username: b"alice".to_vec(),
            key_path: b"~/.ssh/id_rsa".to_vec(),
        },
    })
    .expect("fresh name");
    reg.add(ServerProfile {
        name: b"box2".to_vec(),
        address: b"192.168.1.9".to_vec(),
        port: 2222,
        auth: AuthMethod::PasswordAuth {
            username: b"bob".to_vec(),
            password: b"hunter2".to_vec(),
        },
    })
    .expect("fresh name");
    reg
}

fn registries_equal(a: &Registry, b: &Registry) -> bool {
    // The document is a faithful image of the registry, so comparing the
    // serialized forms compares content and order.
    save_registry(a) == save_registry(b)
}

#[test]
fn serialized_form_is_the_exact_document() {
    let doc = save_registry(&sample_registry());
    let expected = "[{\"server_name\":\"box1\",\"server_address\":\"10.0.0.5\",\"port\":22,\"connect_methods\":{\"SSHKey\":{\"username\":\"alice\",\"path\":\"~/.ssh/id_rsa\"}}},{\"server_name\":\"box2\",\"server_address\":\"192.168.1.9\",\"port\":2222,\"connect_methods\":{\"Password\":{\"username\":\"bob\",\"password\":\"hunter2\"}}}]";
    assert_eq!(String::from_utf8(doc).unwrap(), expected);
}

#[test]
fn empty_registry_serializes_to_empty_array() {
    assert_eq!(save_registry(&Registry::new()), b"[]".to_vec());
}

#[test]
fn round_trip_preserves_content_and_order() {
    let reg = sample_registry();
    let doc = save_registry(&reg);
    let loaded = load_registry(&doc).expect("own document must load");
    assert!(registries_equal(&reg, &loaded));
    let listing = loaded.list();
    assert_eq!(listing.len(), 2);
    assert_eq!(listing[0].0, b"box1".to_vec());
    assert_eq!(listing[1].0, b"box2".to_vec());
}

#[test]
fn round_trip_keeps_escaped_characters() {
    let mut reg = Registry::new();
    reg.add(ServerProfile {
        name: b"we\"ird\\name".to_vec(),
        address: b"host\nwith\tcontrol\x01bytes".to_vec(),
        port: 4294967295,
        auth: AuthMethod::PasswordAuth {
            username: b"u/ser".to_vec(),
            password: b"p\x08a\x0cs\rs".to_vec(),
        },
    })
    .expect("fresh name");
    let doc = save_registry(&reg);
    let loaded = load_registry(&doc).expect("own document must load");
    assert!(registries_equal(&reg, &loaded));
    let found = loaded.find(&b"we\"ird\\name".to_vec()).expect("name survives the trip");
    assert_eq!(found.port, 4294967295);
    match &found.auth {
        AuthMethod::PasswordAuth { username, password } => {
            assert_eq!(username, &b"u/ser".to_vec());
            assert_eq!(password, &b"p\x08a\x0cs\rs".to_vec());
        }
        _ => panic!("variant must survive the trip"),
    }
}

#[test]
fn zero_length_document_loads_as_empty_registry() {
    let loaded = load_registry(&Vec::new()).expect("an absent document is an empty registry");
    assert_eq!(loaded.len(), 0);
}

#[test]
fn empty_array_document_loads_as_empty_registry() {
    let loaded = load_registry(&b"[]".to_vec()).expect("the empty array is an empty registry");
    assert_eq!(loaded.len(), 0);
}

#[test]
fn zero_length_document_is_an_error_for_strict_parsing() {
    assert_eq!(parse_document(&Vec::new()).err(), Some(Error::ParseError));
}

#[test]
fn malformed_documents_are_rejected() {
    let malformed: [&[u8]; 8] = [
        b"not json at all",
        b"[",
        b"[{\"server_name\":\"box1\"",
        b"{}",
        b"[{}]",
        b"[{\"server_name\":\"a\",\"server_address\":\"b\",\"port\":99999999999,\"connect_methods\":{\"SSHKey\":{\"username\":\"u\",\"path\":\"k\"}}}]",
        b"[{\"server_name\":\"a\",\"server_address\":\"b\",\"port\":22,\"connect_methods\":{\"Token\":{\"username\":\"u\"}}}]",
        b"[{\"server_name\":\"a\",\"server_address\":\"b\",\"port\":22,\"connect_methods\":{\"SSHKey\":{\"username\":\"u\",\"path\":\"k\"}}}]x",
    ];
    for doc in malformed {
        assert_eq!(load_registry(&doc.to_vec()).err(), Some(Error::ParseError));
    }
}

#[test]
fn leading_zero_ports_are_rejected() {
    let with_port = |port: &str| -> Vec<u8> {
        format!(
            "[{{\"server_name\":\"a\",\"server_address\":\"b\",\"port\":{},\"connect_methods\":{{\"SSHKey\":{{\"username\":\"u\",\"path\":\"k\"}}}}}}]",
            port
        )
        .into_bytes()
    };
    assert_eq!(load_registry(&with_port("00")).err(), Some(Error::ParseError));
    assert_eq!(load_registry(&with_port("022")).err(), Some(Error::ParseError));
    let loaded = load_registry(&with_port("0")).expect("a lone zero is a valid JSON number");
    assert_eq!(loaded.find(&b"a".to_vec()).expect("profile loads").port, 0);
}

#[test]
fn string_contents_are_byte_transparent() {
    // Deliberate deviation from JSON's text layer: bytes from 32 up inside
    // string bodies are not validated as UTF-8.
    let mut doc =
        b"[{\"server_name\":\"a\xff b\",\"server_address\":\"b\",\"port\":22,".to_vec();
    doc.extend_from_slice(
        b"\"connect_methods\":{\"SSHKey\":{\"username\":\"u\",\"path\":\"k\"}}}]",
    );
    let loaded = load_registry(&doc).expect("raw high bytes stand for themselves");
    assert!(loaded.find(&b"a\xff b".to_vec()).is_some());
    assert_eq!(save_registry(&loaded), doc);
}

#[test]
fn standard_escapes_are_decoded() {
    let doc = "[{\"server_name\":\"a\\u0041\\n\\t\\\"\\\\\\/\",\"server_address\":\"b\",\"port\":22,\"connect_methods\":{\"SSHKey\":{\"username\":\"u\",\"path\":\"k\"}}}]";
    let loaded = load_registry(&doc.as_bytes().to_vec()).expect("escapes are valid");
    let listing = loaded.list();
    assert_eq!(listing[0].0, b"aA\n\t\"\\/".to_vec());
}

#[test]
fn unicode_escapes_beyond_ascii_are_rejected() {
    let doc = "[{\"server_name\":\"\\u00e9\",\"server_address\":\"b\",\"port\":22,\"connect_methods\":{\"SSHKey\":{\"username\":\"u\",\"path\":\"k\"}}}]";
    assert_eq!(load_registry(&doc.as_bytes().to_vec()).err(), Some(Error::ParseError));
}

#[test]
fn raw_control_bytes_inside_strings_are_rejected() {
    let doc = b"[{\"server_name\":\"a\x01b\",\"server_address\":\"b\",\"port\":22,\"connect_methods\":{\"SSHKey\":{\"username\":\"u\",\"path\":\"k\"}}}]";
    assert_eq!(load_registry(&doc.to_vec()).err(), Some(Error::ParseError));
}

#[test]
fn non_ascii_bytes_pass_through_unescaped() {
    let mut reg = Registry::new();
    reg.add(ServerProfile {
        name: "caf\u{e9}".as_bytes().to_vec(),
        address: b"1.2.3.4".to_vec(),
        port: 22,
        auth: AuthMethod::KeyAuth { username: b"u".to_vec(), key_path: b"k".to_vec() },
    })
    .expect("fresh name");
    let doc = save_registry(&reg);
    let loaded = load_registry(&doc).expect("own document must load");
    assert!(loaded.find(&"caf\u{e9}".as_bytes().to_vec()).is_some());
}
