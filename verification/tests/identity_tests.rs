use dissonance::NodeIdentity;
use dissonance::IdentityError;

const RFC8032_SECRET: [u8; 32] = [
    0x9d, 0x61, 0xb1, 0x9d, 0xef, 0xfd, 0x5a, 0x60, 0xba, 0x84, 0x4a, 0xf4, 0x92, 0xec, 0x2c,
    0xc4, 0x44, 0x49, 0xc5, 0x69, 0x7b, 0x32, 0x69, 0x19, 0x70, 0x3b, 0xac, 0x03, 0x1c, 0xae,
    0x7f, 0x60,
];

const RFC8032_PUBLIC: [u8; 32] = [
    0xd7, 0x5a, 0x98, 0x01, 0x82, 0xb1, 0x0a, 0xb7, 0xd5, 0x4b, 0xfe, 0xd3, 0xc9, 0x64, 0x07,
    0x3a, 0x0e, 0xe1, 0x72, 0xf3, 0xda, 0xa6, 0x23, 0x25, 0xaf, 0x02, 0x1a, 0x68, 0xf7, 0x07,
    0x51, 0x1a,
];

#[test]
fn test_generate_and_serialize_identity() {
    let identity = NodeIdentity::generate_ephemeral().expect("Failed to create identity");
    let json = identity.save_to_bytes();
    let text = String::from_utf8(json).expect("Failed to serialize identity");
    assert!(text.contains("private_key_bytes"));
    assert_eq!(identity.signing_key.len(), 32);
}

#[test]
fn test_save_and_load_identity_file() {
    let identity = NodeIdentity::generate_ephemeral().expect("Failed to generate identity");
    let saved = identity.save_to_bytes();

    assert!(!saved.is_empty());

    let loaded = NodeIdentity::load_from_bytes(&saved).expect("Failed to load identity");
    assert_eq!(identity.peer_id, loaded.peer_id);
    assert_eq!(identity.signing_key, loaded.signing_key);
    assert_eq!(identity.verifying_key, loaded.verifying_key);
}

#[test]
fn test_pub_key_bytes() {
    let identity = NodeIdentity::generate_ephemeral().unwrap();
    let pub_bytes = identity.pub_key_bytes();
    assert_eq!(pub_bytes.len(), 32);
    assert_eq!(pub_bytes, identity.verifying_key);
}

#[test]
fn test_to_lp2p_keypair() {
    let identity = NodeIdentity::generate_ephemeral().unwrap();
    let keypair = identity.to_lp2p_keypair().expect("Failed to convert to libp2p keypair");
    let peer_id = libp2p::PeerId::from_public_key(&keypair.public());
    assert_eq!(peer_id.to_bytes(), identity.peer_id);
}

#[test]
fn test_known_key_derivation() {
    // Ed25519 test vector: the verifying key derived from the secret scalar.
    let identity = NodeIdentity::from_secret_bytes(RFC8032_SECRET.to_vec()).unwrap();
    assert_eq!(identity.verifying_key, RFC8032_PUBLIC.to_vec());
    // The identifier is the identity multihash of the protobuf-encoded public key:
    // multihash code 0, length 36, key type 1 (field 1), key data (field 2, 32 bytes).
    let mut expected_peer_id: Vec<u8> = vec![0x00, 0x24, 0x08, 0x01, 0x12, 0x20];
    expected_peer_id.extend_from_slice(&RFC8032_PUBLIC);
    assert_eq!(identity.peer_id, expected_peer_id);
}

#[test]
fn test_deterministic_derivation_same_secret() {
    let a = NodeIdentity::from_secret_bytes(vec![9u8; 32]).unwrap();
    let b = NodeIdentity::from_secret_bytes(vec![9u8; 32]).unwrap();
    assert_eq!(a.verifying_key, b.verifying_key);
    assert_eq!(a.peer_id, b.peer_id);
}

#[test]
fn test_encode_matches_compact_json() {
    let identity = NodeIdentity::from_secret_bytes(RFC8032_SECRET.to_vec()).unwrap();
    let encoded = identity.save_to_bytes();

    let numbers: Vec<serde_json::Value> =
        RFC8032_SECRET.iter().map(|b| serde_json::Value::from(*b)).collect();
    let mut object = serde_json::Map::new();
    object.insert("private_key_bytes".to_string(), serde_json::Value::Array(numbers));
    let compact = serde_json::Value::Object(object).to_string();

    assert_eq!(encoded, compact.into_bytes());
}

#[test]
fn test_encode_exact_text() {
    let identity = NodeIdentity::from_secret_bytes(vec![0u8; 32]).unwrap();
    let encoded = identity.save_to_bytes();
    let expected = format!(
        "{{\"private_key_bytes\":[{}]}}",
        vec!["0"; 32].join(",")
    );
    assert_eq!(encoded, expected.into_bytes());
}

#[test]
fn test_malformed_truncated_array() {
    // 31 numbers: a truncated key array must fail, never yield a usable identity.
    let text = format!("{{\"private_key_bytes\":[{}]}}", vec!["1"; 31].join(","));
    let r = NodeIdentity::load_from_bytes(&text.into_bytes());
    assert_eq!(r.unwrap_err(), IdentityError::SerializationFailure);
}

#[test]
fn test_malformed_oversized_array() {
    let text = format!("{{\"private_key_bytes\":[{}]}}", vec!["1"; 33].join(","));
    let r = NodeIdentity::load_from_bytes(&text.into_bytes());
    assert_eq!(r.unwrap_err(), IdentityError::SerializationFailure);
}

#[test]
fn test_malformed_out_of_range_element() {
    let mut parts = vec!["256".to_string()];
    for _ in 0..31 {
        parts.push("1".to_string());
    }
    let text = format!("{{\"private_key_bytes\":[{}]}}", parts.join(","));
    let r = NodeIdentity::load_from_bytes(&text.into_bytes());
    assert_eq!(r.unwrap_err(), IdentityError::SerializationFailure);
}

#[test]
fn test_malformed_garbage_and_trailing_data() {
    let r = NodeIdentity::load_from_bytes(&b"not json at all".to_vec());
    assert_eq!(r.unwrap_err(), IdentityError::SerializationFailure);

    let identity = NodeIdentity::from_secret_bytes(vec![3u8; 32]).unwrap();
    let mut with_trailing = identity.save_to_bytes();
    with_trailing.push(b'x');
    let r = NodeIdentity::load_from_bytes(&with_trailing);
    assert_eq!(r.unwrap_err(), IdentityError::SerializationFailure);
}

#[test]
fn test_whitespace_variants_accepted() {
    let identity = NodeIdentity::from_secret_bytes(RFC8032_SECRET.to_vec()).unwrap();

    // A pretty-printed rendering of the same object loads back identically.
    let numbers: Vec<serde_json::Value> =
        RFC8032_SECRET.iter().map(|b| serde_json::Value::from(*b)).collect();
    let mut object = serde_json::Map::new();
    object.insert("private_key_bytes".to_string(), serde_json::Value::Array(numbers));
    let pretty = serde_json::to_string_pretty(&serde_json::Value::Object(object)).unwrap();
    let loaded = NodeIdentity::load_from_bytes(&pretty.into_bytes()).unwrap();
    assert_eq!(loaded.peer_id, identity.peer_id);
    assert_eq!(loaded.signing_key, identity.signing_key);

    // Trailing whitespace is insignificant.
    let mut with_trailing = identity.save_to_bytes();
    with_trailing.push(b'\n');
    let loaded = NodeIdentity::load_from_bytes(&with_trailing).unwrap();
    assert_eq!(loaded.peer_id, identity.peer_id);
}

#[test]
fn test_whitespace_inside_field_name_rejected() {
    // Whitespace inside the quoted field name is part of the (wrong) name, not
    // insignificant spacing.
    let text = format!(
        "{{\"private_key _bytes\":[{}]}}",
        vec!["1"; 32].join(",")
    );
    let r = NodeIdentity::load_from_bytes(&text.into_bytes());
    assert_eq!(r.unwrap_err(), IdentityError::SerializationFailure);
}

#[test]
fn test_malformed_leading_zero_rejected() {
    let mut parts = vec!["07".to_string()];
    for _ in 0..31 {
        parts.push("1".to_string());
    }
    let text = format!("{{\"private_key_bytes\":[{}]}}", parts.join(","));
    let r = NodeIdentity::load_from_bytes(&text.into_bytes());
    assert_eq!(r.unwrap_err(), IdentityError::SerializationFailure);
}

#[test]
fn test_key_conversion_failure_on_malformed_state() {
    // An identity assembled by hand with short key material cannot become a
    // transport key pair.
    let broken = NodeIdentity {
        signing_key: vec![1u8; 10],
        verifying_key: vec![2u8; 10],
        peer_id: vec![3u8; 4],
    };
    let r = broken.to_lp2p_keypair();
    assert!(matches!(r, Err(IdentityError::KeyConversionFailure)));
}

#[test]
fn test_dialable_address_display() {
    let identity = NodeIdentity::from_secret_bytes(RFC8032_SECRET.to_vec()).unwrap();
    let listen = b"/ip4/127.0.0.1/tcp/4001".to_vec();
    let full = dissonance::dispatch::dialable_address(&listen, &identity.peer_id()).unwrap();
    let base58 = libp2p::PeerId::from_bytes(&identity.peer_id).unwrap().to_base58();
    let expected = format!("/ip4/127.0.0.1/tcp/4001/p2p/{}", base58);
    assert_eq!(full, expected.into_bytes());
}
