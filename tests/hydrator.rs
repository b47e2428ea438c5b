use jogen::hydrator::{DiffAction, Hydrator};
use jogen::object_store::{ObjectStore, ObjectType};
use jogen::objects::directory::{Directory, DirectoryEntry, EntryMode};
use jogen::objects::JogenObject;
use jogen::JogenError;

fn blob(content: &str) -> String {
    ObjectStore::hash_object(content.as_bytes(), ObjectType::Blob)
}

fn dir(entries: &[(EntryMode, &str, String)]) -> Directory {
    let mut d = Directory::new();
    for (mode, name, hash) in entries {
        d.add_entry(DirectoryEntry { mode: *mode, name: name.to_string(), hash: hash.clone() });
    }
    d
}

#[test]
fn hydrator_add_remove_modify() {
    let store = ObjectStore::new(std::path::PathBuf::from("objects"));
    let hydrator = Hydrator::new(&store);
    let old = dir(&[(EntryMode::File, "a", blob("one")), (EntryMode::File, "b", blob("two"))]);
    let new = dir(&[(EntryMode::File, "a", blob("one")), (EntryMode::File, "c", blob("three"))]);
    let plan = hydrator.plan_diff(&old, &new);
    assert_eq!(plan.len(), 2);
    match &plan[0] {
        DiffAction::Create { entry } => {
            assert_eq!(entry.name, "c");
            assert_eq!(entry.hash, blob("three"));
        }
        _ => panic!("expected a creation"),
    }
    match &plan[1] {
        DiffAction::Remove { entry } => assert_eq!(entry.name, "b"),
        _ => panic!("expected a removal"),
    }
}

#[test]
fn hydrator_descends_and_replaces() {
    let store = ObjectStore::new(std::path::PathBuf::from("objects"));
    let hydrator = Hydrator::new(&store);
    let old = dir(&[
        (EntryMode::Directory, "src", hex::encode([1u8; 32])),
        (EntryMode::File, "run", blob("x")),
        (EntryMode::File, "doc", blob("y")),
    ]);
    let new = dir(&[
        (EntryMode::Directory, "src", hex::encode([2u8; 32])),
        (EntryMode::Executable, "run", blob("x")),
        (EntryMode::Directory, "doc", hex::encode([3u8; 32])),
    ]);
    let plan = hydrator.plan_diff(&old, &new);
    assert_eq!(plan.len(), 3);
    match &plan[0] {
        DiffAction::Descend { name, old_hash, new_hash } => {
            assert_eq!(name, "src");
            assert_eq!(old_hash, &hex::encode([1u8; 32]));
            assert_eq!(new_hash, &hex::encode([2u8; 32]));
        }
        _ => panic!("expected a descent"),
    }
    match &plan[1] {
        DiffAction::Replace { old, new } => {
            assert_eq!(old.mode, EntryMode::File);
            assert_eq!(new.mode, EntryMode::Executable);
        }
        _ => panic!("expected a replacement"),
    }
    assert!(matches!(&plan[2], DiffAction::Replace { .. }));
}

#[test]
fn identical_trees_need_nothing() {
    let store = ObjectStore::new(std::path::PathBuf::from("objects"));
    let hydrator = Hydrator::new(&store);
    let d = dir(&[(EntryMode::File, "a", blob("one"))]);
    assert!(hydrator.plan_diff(&d, &d).is_empty());
}

#[test]
fn load_directory_checks_kind() {
    let store = ObjectStore::new(std::path::PathBuf::from("objects"));
    let hydrator = Hydrator::new(&store);
    let d = dir(&[(EntryMode::File, "a", blob("one"))]);
    let payload = d.serialize().unwrap();
    let loaded = hydrator.load_directory(ObjectType::Directory, &payload).unwrap();
    assert_eq!(loaded.entries().len(), 1);
    assert!(matches!(
        hydrator.load_directory(ObjectType::Blob, &payload),
        Err(JogenError::ObjectCorrupt(_))
    ));
}
