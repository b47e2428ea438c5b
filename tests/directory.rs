use jogen::objects::directory::{Directory, DirectoryEntry, EntryMode};
use jogen::objects::JogenObject;
use jogen::object_store::{ObjectStore, ObjectType};
use jogen::JogenError;

fn h(byte: u8) -> String {
    hex::encode([byte; 32])
}

fn entry(mode: EntryMode, name: &str, hash: String) -> DirectoryEntry {
    DirectoryEntry { mode, name: name.to_string(), hash }
}

#[test]
fn directory_canonicalization() {
    let h1 = h(0x11);
    let h2 = h(0x22);
    let mut d = Directory::new();
    d.add_entry(entry(EntryMode::File, "b.txt", h1.clone()));
    d.add_entry(entry(EntryMode::File, "a.txt", h2.clone()));
    let bytes = d.serialize().unwrap();
    let mut expected = Vec::new();
    expected.extend_from_slice(b"100644 a.txt\0");
    expected.extend_from_slice(&[0x22u8; 32]);
    expected.extend_from_slice(b"100644 b.txt\0");
    expected.extend_from_slice(&[0x11u8; 32]);
    assert_eq!(&bytes[..6], b"100644");
    assert_eq!(bytes, expected);
    assert_eq!(d.object_type(), ObjectType::Directory);
}

#[test]
fn parse_of_serialize_is_sorted_entries() {
    let mut d = Directory::new();
    d.add_entry(entry(EntryMode::Directory, "zeta", h(3)));
    d.add_entry(entry(EntryMode::Executable, "run.sh", h(2)));
    d.add_entry(entry(EntryMode::File, "Alpha", h(1)));
    d.add_entry(entry(EntryMode::File, "é.txt", h(4)));
    let parsed = Directory::parse(&d.serialize().unwrap()).unwrap();
    let names: Vec<&str> = parsed.entries().iter().map(|e| e.name.as_str()).collect();
    assert_eq!(names, vec!["Alpha", "run.sh", "zeta", "é.txt"]);
    assert_eq!(parsed.entries()[0], entry(EntryMode::File, "Alpha", h(1)));
    assert_eq!(parsed.entries()[1], entry(EntryMode::Executable, "run.sh", h(2)));
    assert_eq!(parsed.entries()[2], entry(EntryMode::Directory, "zeta", h(3)));
}

#[test]
fn serialization_ignores_insertion_order() {
    let mut a = Directory::new();
    let mut b = Directory::new();
    a.add_entry(entry(EntryMode::File, "one", h(1)));
    a.add_entry(entry(EntryMode::File, "two", h(2)));
    a.add_entry(entry(EntryMode::Directory, "three", h(3)));
    b.add_entry(entry(EntryMode::Directory, "three", h(3)));
    b.add_entry(entry(EntryMode::File, "one", h(1)));
    b.add_entry(entry(EntryMode::File, "two", h(2)));
    let sa = a.serialize().unwrap();
    let sb = b.serialize().unwrap();
    assert_eq!(sa, sb);
    assert_eq!(
        ObjectStore::hash_object(&sa, ObjectType::Directory),
        ObjectStore::hash_object(&sb, ObjectType::Directory)
    );
}

#[test]
fn equal_names_keep_insertion_order() {
    let mut d = Directory::new();
    d.add_entry(entry(EntryMode::File, "same", h(9)));
    d.add_entry(entry(EntryMode::File, "same", h(8)));
    let parsed = Directory::parse(&d.serialize().unwrap()).unwrap();
    assert_eq!(parsed.entries()[0].hash, h(9));
    assert_eq!(parsed.entries()[1].hash, h(8));
}

#[test]
fn uppercase_hash_reads_back_lowercase() {
    let mut d = Directory::new();
    d.add_entry(entry(EntryMode::File, "f", h(0xab).to_uppercase()));
    let parsed = Directory::parse(&d.serialize().unwrap()).unwrap();
    assert_eq!(parsed.entries()[0].hash, h(0xab));
}

#[test]
fn invalid_hash_fails_serialization() {
    let mut d = Directory::new();
    d.add_entry(entry(EntryMode::File, "f", "xyz".to_string()));
    assert!(matches!(d.serialize(), Err(JogenError::ObjectCorrupt(_))));
    let mut odd = Directory::new();
    odd.add_entry(entry(EntryMode::File, "f", "abc".to_string()));
    assert!(matches!(odd.serialize(), Err(JogenError::ObjectCorrupt(_))));
}

#[test]
fn empty_directory() {
    let d = Directory::new();
    assert!(d.serialize().unwrap().is_empty());
    assert!(Directory::parse(&[]).unwrap().entries().is_empty());
}

fn corrupt_reason(data: &[u8]) -> String {
    match Directory::parse(data) {
        Err(JogenError::ObjectCorrupt(r)) => r,
        _ => panic!("expected corruption"),
    }
}

#[test]
fn parse_errors() {
    assert_eq!(corrupt_reason(b"100644"), "missing space after mode");
    assert_eq!(corrupt_reason(b"100600 a\0"), "unknown mode");
    assert_eq!(corrupt_reason(b"100644 abc"), "missing null terminator for name");
    assert_eq!(corrupt_reason(b"100644 a\0short"), "truncated hash bytes");
    let mut bad = b"100644 \xff\0".to_vec();
    bad.extend_from_slice(&[0u8; 32]);
    assert_eq!(corrupt_reason(&bad), "invalid UTF-8 file name");
}

#[test]
fn entry_mode_tags() {
    assert_eq!(EntryMode::from_tag(1).unwrap(), EntryMode::File);
    assert_eq!(EntryMode::from_tag(2).unwrap(), EntryMode::Executable);
    assert_eq!(EntryMode::from_tag(4).unwrap(), EntryMode::Directory);
    assert!(matches!(EntryMode::from_tag(3), Err(JogenError::InvalidEntryMode(3))));
    assert_eq!(EntryMode::Directory.tag(), 4);
    assert_eq!(EntryMode::Executable.wire_text(), b"100755".to_vec());
    assert_eq!(EntryMode::Directory.wire_text(), b"040000".to_vec());
}

#[test]
fn duplicate_copies_entry() {
    let e = entry(EntryMode::Executable, "x", h(5));
    assert_eq!(e.duplicate(), e);
}
