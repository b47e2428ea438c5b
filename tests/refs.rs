use jogen::object_store::{ObjectStore, ObjectType};
use jogen::objects::JogenObject;
use jogen::find_root;
use jogen::indexer::{IndexedChild, Indexer};
use jogen::objects::directory::EntryMode;
use jogen::ref_store::{trim_text, HeadRef, RefStore};
use jogen::JogenError;

#[test]
fn head_indirection() {
    let hash = "ab".repeat(32);
    match RefStore::parse_head("ref: refs/tracks/main\n") {
        HeadRef::Symbolic(name) => assert_eq!(name, "refs/tracks/main"),
        HeadRef::Direct(_) => panic!("expected a symbolic head"),
    }
    assert_eq!(RefStore::parse_ref(&format!("{}\n", hash)), hash);
    assert_eq!(RefStore::head_update_target(Some("ref: refs/tracks/main\n")), "refs/tracks/main");
    assert_eq!(RefStore::track_of_head("ref: refs/tracks/main\n"), Some("main".to_string()));
}

#[test]
fn direct_and_absent_head() {
    match RefStore::parse_head("  0123abc \n") {
        HeadRef::Direct(h) => assert_eq!(h, "0123abc"),
        HeadRef::Symbolic(_) => panic!("expected a direct head"),
    }
    assert_eq!(RefStore::head_update_target(Some("0123abc")), "HEAD");
    assert_eq!(RefStore::head_update_target(None), "HEAD");
    assert_eq!(RefStore::track_of_head("0123abc"), None);
    assert_eq!(RefStore::track_of_head("ref: refs/other"), None);
}

#[test]
fn trimming_follows_unicode_white_space() {
    assert_eq!(trim_text("\u{3000}\t x y \u{a0}\r\n"), "x y");
    assert_eq!(trim_text("   "), "");
    assert_eq!(trim_text(""), "");
}

#[test]
fn tracks_listed_sorted_without_dotfiles() {
    let names = vec!["main".to_string(), ".hidden".to_string(), "dev".to_string(), "Zed".to_string()];
    assert_eq!(RefStore::select_tracks(names), vec!["Zed", "dev", "main"]);
    assert!(RefStore::select_tracks(vec![]).is_empty());
}

#[test]
fn creating_existing_track_fails() {
    assert!(RefStore::check_new_track("main", false).is_ok());
    match RefStore::check_new_track("main", true) {
        Err(JogenError::Io(e)) => {
            assert_eq!(e.kind(), std::io::ErrorKind::AlreadyExists);
            assert!(e.to_string().contains("main"));
        }
        _ => panic!("expected a refusal"),
    }
    assert_eq!(RefStore::track_ref_name("main"), "refs/tracks/main");
}

#[test]
fn root_is_first_marked_ancestor() {
    assert_eq!(find_root(&vec![false, true, true]).unwrap(), 1);
    assert!(matches!(find_root(&vec![false, false]), Err(JogenError::ProjectRootNotFound)));
    assert!(matches!(find_root(&vec![]), Err(JogenError::ProjectRootNotFound)));
}

#[test]
fn indexer_skips_control_dir_and_builds_entries() {
    assert!(Indexer::is_skipped(".jogen"));
    assert!(!Indexer::is_skipped("src"));
    let d = Indexer::directory_of(vec![
        IndexedChild { name: "src".into(), is_dir: true, hash: Some("aa".into()) },
        IndexedChild { name: ".jogen".into(), is_dir: true, hash: None },
        IndexedChild { name: "a.txt".into(), is_dir: false, hash: Some("bb".into()) },
    ]);
    let e = d.entries();
    assert_eq!(e.len(), 2);
    assert_eq!((e[0].mode, e[0].name.as_str()), (EntryMode::Directory, "src"));
    assert_eq!((e[1].mode, e[1].name.as_str()), (EntryMode::File, "a.txt"));
}

#[test]
fn indexing_ignores_listing_order() {
    let child = |name: &str, is_dir: bool, byte: u8| IndexedChild {
        name: name.into(),
        is_dir,
        hash: Some(hex::encode([byte; 32])),
    };
    let a = Indexer::directory_of(vec![child("b", false, 1), child("a", true, 2), child("c", false, 3)]);
    let b = Indexer::directory_of(vec![child("c", false, 3), child("b", false, 1), child("a", true, 2)]);
    let pa = a.serialize().unwrap();
    let pb = b.serialize().unwrap();
    assert_eq!(pa, pb);
    assert_eq!(
        ObjectStore::hash_object(&pa, ObjectType::Directory),
        ObjectStore::hash_object(&pb, ObjectType::Directory)
    );
}
