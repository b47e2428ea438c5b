use jogen::object_store::ObjectType;
use jogen::objects::snapshot::{Snapshot, SnapshotContext};
use jogen::objects::JogenObject;

fn sample() -> Snapshot {
    Snapshot::new(
        "d".to_string(),
        vec!["first".to_string(), "second".to_string()],
        "U <u@x>".to_string(),
        1700000000,
        SnapshotContext::Feature,
        "hello\nworld".to_string(),
    )
}

#[test]
fn snapshot_with_two_parents() {
    let snapshot = sample();
    let bytes = snapshot.serialize().unwrap();
    let text = String::from_utf8(bytes.into_owned()).unwrap();
    assert!(text.starts_with(
        "directory d\nparent first\nparent second\nauthor U <u@x>\ntime 1700000000\ncontext feature\n\nhello\nworld"
    ));
    assert_eq!(sample().object_type(), ObjectType::Snapshot);
}

#[test]
fn snapshot_round_trip() {
    let s = Snapshot::new(
        hex::encode([7u8; 32]),
        vec![hex::encode([1u8; 32]), hex::encode([2u8; 32])],
        "Jogen User <user@jogen.com>".to_string(),
        -42,
        SnapshotContext::Refactor,
        "first line\n\nthird line with spaces  ".to_string(),
    );
    let back = Snapshot::deserialize(&s.serialize().unwrap()).unwrap();
    assert_eq!(back.directory_hash, s.directory_hash);
    assert_eq!(back.parent_hashes, s.parent_hashes);
    assert_eq!(back.author, s.author);
    assert_eq!(back.timestamp, -42);
    assert_eq!(back.context, SnapshotContext::Refactor);
    assert_eq!(back.message, s.message);
}

#[test]
fn snapshot_extreme_times_round_trip() {
    for t in [i64::MIN, i64::MAX, 0] {
        let s = Snapshot::new("d".into(), vec![], "a".into(), t, SnapshotContext::Initial, String::new());
        let text = String::from_utf8(s.serialize().unwrap().into_owned()).unwrap();
        assert!(text.contains(&format!("time {}\n", t)));
        let back = Snapshot::deserialize(text.as_bytes()).unwrap();
        assert_eq!(back.timestamp, t);
        assert_eq!(back.message, "");
        assert!(back.parent_hashes.is_empty());
    }
}

#[test]
fn deserialize_is_permissive() {
    let data = b"directory abc\r\nweird line\ntime notanumber\ncontext bogus\nauthor  spaced \n\nmsg\r\nend\n";
    let s = Snapshot::deserialize(data).unwrap();
    assert_eq!(s.directory_hash, "abc");
    assert_eq!(s.timestamp, 0);
    assert_eq!(s.context, SnapshotContext::Chore);
    assert_eq!(s.author, " spaced ");
    assert_eq!(s.message, "msg\nend");
}

#[test]
fn deserialize_without_blank_line() {
    let s = Snapshot::deserialize(b"time +15\ncontext docs").unwrap();
    assert_eq!(s.timestamp, 15);
    assert_eq!(s.context, SnapshotContext::Docs);
    assert_eq!(s.message, "");
    assert_eq!(s.directory_hash, "");
}

#[test]
fn deserialize_time_out_of_range_reads_zero() {
    let s = Snapshot::deserialize(b"time 9223372036854775808\n\n").unwrap();
    assert_eq!(s.timestamp, 0);
    let s = Snapshot::deserialize(b"time -9223372036854775808\n\n").unwrap();
    assert_eq!(s.timestamp, i64::MIN);
}

#[test]
fn deserialize_invalid_utf8_is_replaced() {
    let s = Snapshot::deserialize(b"author a\xffb\n\nm").unwrap();
    assert_eq!(s.author, "a\u{fffd}b");
    assert_eq!(s.message, "m");
}

#[test]
fn context_tags() {
    let all = [
        (SnapshotContext::Feature, "feature"),
        (SnapshotContext::Fix, "fix"),
        (SnapshotContext::Refactor, "refactor"),
        (SnapshotContext::Docs, "docs"),
        (SnapshotContext::Chore, "chore"),
        (SnapshotContext::Merge, "merge"),
        (SnapshotContext::Initial, "initial"),
    ];
    for (c, name) in all {
        assert_eq!(c.as_str(), name);
        let s = Snapshot::deserialize(format!("context {}\n\n", name).as_bytes()).unwrap();
        assert_eq!(s.context, c);
    }
}
