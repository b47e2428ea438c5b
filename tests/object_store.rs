use jogen::object_store::{decode_envelope, encode_envelope, ObjectHeader, ObjectStore, ObjectType};
use jogen::JogenError;

fn is_lower_hex(s: &str) -> bool {
    s.chars().all(|c| c.is_ascii_digit() || ('a'..='f').contains(&c))
}

#[test]
fn empty_blob_round_trip() {
    let hash = ObjectStore::hash_object(b"", ObjectType::Blob);
    assert_eq!(hash.len(), 64);
    assert!(is_lower_hex(&hash));
    let (dir, file) = ObjectStore::object_location(&hash).unwrap();
    assert_eq!(dir, hash[..2]);
    assert_eq!(file, hash[2..]);
    let stored = ObjectStore::encode_object(b"", ObjectType::Blob).unwrap();
    let (kind, payload) = ObjectStore::decode_object(&stored).unwrap();
    assert_eq!(kind, ObjectType::Blob);
    assert!(payload.is_empty());
}

#[test]
fn hash_is_blake3_of_header_and_payload() {
    let hash = ObjectStore::hash_object(b"hello", ObjectType::Blob);
    let mut envelope = vec![1u8, 1, 5, 0, 0, 0, 0, 0, 0, 0];
    envelope.extend_from_slice(b"hello");
    assert_eq!(hash, blake3::hash(&envelope).to_hex().to_string());
    assert_ne!(hash, hex::encode(&envelope));
}

#[test]
fn same_bytes_give_same_hash_and_location() {
    let a = ObjectStore::hash_object(b"content", ObjectType::Blob);
    let b = ObjectStore::hash_object(b"content", ObjectType::Blob);
    assert_eq!(a, b);
    assert_eq!(
        ObjectStore::object_location(&a).unwrap(),
        ObjectStore::object_location(&b).unwrap()
    );
    let c = ObjectStore::hash_object(b"content", ObjectType::Snapshot);
    assert_ne!(a, c);
}

#[test]
fn stored_object_round_trip_every_kind() {
    let payload: Vec<u8> = (0..=255u8).cycle().take(5000).collect();
    for kind in [ObjectType::Blob, ObjectType::Directory, ObjectType::Snapshot] {
        let stored = ObjectStore::encode_object(&payload, kind).unwrap();
        assert_ne!(stored, encode_envelope(&payload, kind));
        let (k, p) = ObjectStore::decode_object(&stored).unwrap();
        assert_eq!(k, kind);
        assert_eq!(p, payload);
    }
}

#[test]
fn envelope_layout() {
    let env = encode_envelope(b"abc", ObjectType::Directory);
    assert_eq!(env, vec![1, 2, 3, 0, 0, 0, 0, 0, 0, 0, b'a', b'b', b'c']);
    let (kind, payload) = decode_envelope(&env).unwrap();
    assert_eq!(kind, ObjectType::Directory);
    assert_eq!(payload, b"abc".to_vec());
}

#[test]
fn header_to_and_from_bytes() {
    let h = ObjectHeader { version: 1, kind: ObjectType::Snapshot, size: 0x0102_0304_0506_0708 };
    let bytes = h.to_bytes();
    assert_eq!(bytes, [1, 3, 8, 7, 6, 5, 4, 3, 2, 1]);
    let back = ObjectHeader::from_bytes(&bytes).unwrap();
    assert_eq!(back.version, 1);
    assert_eq!(back.kind, ObjectType::Snapshot);
    assert_eq!(back.size, 0x0102_0304_0506_0708);
    assert_eq!(ObjectHeader::SIZE, 10);
}

#[test]
fn header_errors() {
    assert!(matches!(ObjectHeader::from_bytes(&[1, 1, 0]), Err(JogenError::ObjectCorrupt(_))));
    assert!(matches!(
        ObjectHeader::from_bytes(&[2, 1, 0, 0, 0, 0, 0, 0, 0, 0]),
        Err(JogenError::ObjectCorrupt(_))
    ));
    assert!(matches!(
        ObjectHeader::from_bytes(&[1, 9, 0, 0, 0, 0, 0, 0, 0, 0]),
        Err(JogenError::ObjectCorrupt(_))
    ));
}

#[test]
fn object_type_tags() {
    assert_eq!(ObjectType::Blob.to_u8(), 1);
    assert_eq!(ObjectType::Directory.to_u8(), 2);
    assert_eq!(ObjectType::Snapshot.to_u8(), 3);
    assert_eq!(ObjectType::from_u8(2).unwrap(), ObjectType::Directory);
    assert!(matches!(ObjectType::from_u8(0), Err(JogenError::ObjectCorrupt(_))));
}

#[test]
fn size_mismatch_is_corruption() {
    let mut plain = vec![1u8, 1, 100, 0, 0, 0, 0, 0, 0, 0];
    plain.extend(std::iter::repeat(7u8).take(99));
    match decode_envelope(&plain) {
        Err(JogenError::ObjectCorrupt(reason)) => assert_eq!(reason, "size mismatch"),
        _ => panic!("expected corruption"),
    }
    let stored = zstd::stream::encode_all(&plain[..], 0).unwrap();
    match ObjectStore::decode_object(&stored) {
        Err(JogenError::ObjectCorrupt(reason)) => assert_eq!(reason, "size mismatch"),
        _ => panic!("expected corruption"),
    }
}

#[test]
fn short_plaintext_is_corruption() {
    let stored = zstd::stream::encode_all(&[1u8, 1, 0][..], 0).unwrap();
    match ObjectStore::decode_object(&stored) {
        Err(JogenError::ObjectCorrupt(reason)) => assert_eq!(reason, "header too short"),
        _ => panic!("expected corruption"),
    }
}

#[test]
fn garbage_file_is_io_error() {
    assert!(matches!(ObjectStore::decode_object(b"not a zstd frame"), Err(JogenError::Io(_))));
}

#[test]
fn short_hash_is_not_found() {
    match ObjectStore::object_location("a") {
        Err(JogenError::ObjectNotFound(h)) => assert_eq!(h, "a"),
        _ => panic!("expected not found"),
    }
    assert!(ObjectStore::object_location("").is_err());
    let (d, f) = ObjectStore::object_location("ab").unwrap();
    assert_eq!((d.as_str(), f.as_str()), ("ab", ""));
}

#[test]
fn store_keeps_root() {
    let store = ObjectStore::new(std::path::PathBuf::from("/tmp/x/objects"));
    assert_eq!(store.root_path(), &std::path::PathBuf::from("/tmp/x/objects"));
}

#[test]
fn object_type_names() {
    assert_eq!(ObjectType::Blob.as_str(), "blob");
    assert_eq!(ObjectType::Directory.as_str(), "directory");
    assert_eq!(ObjectType::Snapshot.as_str(), "snapshot");
}
