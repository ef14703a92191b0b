use kvs::command::{Command, Put, Remove};
use kvs::store::{KVError, KvStore, REDUNDANCY_LIMIT};

fn fresh() -> KvStore {
    KvStore::open(Vec::new()).expect("open never fails")
}

#[test]
fn set_then_get_returns_value() {
    let mut s = fresh();
    s.set("key1".to_string(), "value1".to_string()).unwrap();
    assert_eq!(s.get("key1".to_string()).unwrap(), Some("value1".to_string()));
}

#[test]
fn get_missing_key_is_not_found() {
    let s = fresh();
    assert_eq!(s.get("nope".to_string()).unwrap(), None);
}

#[test]
fn remove_missing_key_fails_with_key_not_found() {
    let mut s = fresh();
    match s.remove("ghost".to_string()) {
        Err(KVError::KeyNotFound(k)) => assert_eq!(k, "ghost"),
        _ => panic!("expected KeyNotFound"),
    }
}

#[test]
fn set_remove_get_is_not_found() {
    let mut s = fresh();
    s.set("k".to_string(), "v1".to_string()).unwrap();
    s.remove("k".to_string()).unwrap();
    assert_eq!(s.get("k".to_string()).unwrap(), None);
}

#[test]
fn overwrite_same_value_keeps_get_but_counts_stale() {
    let mut s = fresh();
    s.set("k".to_string(), "v".to_string()).unwrap();
    let before = s.redundancy_count();
    s.set("k".to_string(), "v".to_string()).unwrap();
    assert_eq!(s.get("k".to_string()).unwrap(), Some("v".to_string()));
    assert_eq!(s.redundancy_count(), before + 1);
}

#[test]
fn newer_segment_overrides_older() {
    let seg0 = vec![Command::Put(Put { key: "a".to_string(), value: "old".to_string() })];
    let seg1 = vec![Command::Put(Put { key: "a".to_string(), value: "new".to_string() })];
    let s = KvStore::open(vec![seg0, seg1]).unwrap();
    assert_eq!(s.get("a".to_string()).unwrap(), Some("new".to_string()));
    assert_eq!(s.redundancy_count(), 1);
    assert_eq!(s.segment_count(), 3);
}

#[test]
fn recovery_scan_handles_tombstones_mid_segment() {
    // within one segment: bind, unbind, bind others; every location
    // must point at the exact record that wrote the live value
    let seg = vec![
        Command::Put(Put { key: "a".to_string(), value: "1".to_string() }),
        Command::Rm(Remove { key: "a".to_string() }),
        Command::Put(Put { key: "b".to_string(), value: "2".to_string() }),
        Command::Put(Put { key: "a".to_string(), value: "3".to_string() }),
    ];
    let s = KvStore::open(vec![seg]).unwrap();
    assert_eq!(s.get("a".to_string()).unwrap(), Some("3".to_string()));
    assert_eq!(s.get("b".to_string()).unwrap(), Some("2".to_string()));
    assert_eq!(s.redundancy_count(), 1);
}

#[test]
fn empty_key_and_value_round_trip() {
    let mut s = fresh();
    s.set(String::new(), String::new()).unwrap();
    assert_eq!(s.get(String::new()).unwrap(), Some(String::new()));
    let reopened = KvStore::open(s.segments().clone()).unwrap();
    assert_eq!(reopened.get(String::new()).unwrap(), Some(String::new()));
}

#[test]
fn reopen_preserves_state() {
    let mut s = fresh();
    s.set("x".to_string(), "1".to_string()).unwrap();
    s.set("y".to_string(), "2".to_string()).unwrap();
    s.remove("x".to_string()).unwrap();
    s.set("z".to_string(), "3".to_string()).unwrap();
    s.set("y".to_string(), "22".to_string()).unwrap();

    let reopened = KvStore::open(s.segments().clone()).unwrap();
    assert_eq!(reopened.get("x".to_string()).unwrap(), None);
    assert_eq!(reopened.get("y".to_string()).unwrap(), Some("22".to_string()));
    assert_eq!(reopened.get("z".to_string()).unwrap(), Some("3".to_string()));
    assert_eq!(reopened.redundancy_count(), s.redundancy_count());
}

#[test]
fn scenario_overwrite_remove_reopen() {
    let mut s = fresh();
    s.set("a".to_string(), "1".to_string()).unwrap();
    s.set("a".to_string(), "2".to_string()).unwrap();
    assert_eq!(s.get("a".to_string()).unwrap(), Some("2".to_string()));

    s.set("b".to_string(), "x".to_string()).unwrap();
    s.remove("b".to_string()).unwrap();
    assert_eq!(s.get("b".to_string()).unwrap(), None);

    match s.remove("c".to_string()) {
        Err(KVError::KeyNotFound(k)) => assert_eq!(k, "c"),
        _ => panic!("expected KeyNotFound"),
    }

    let reopened = KvStore::open(s.segments().clone()).unwrap();
    assert_eq!(reopened.get("a".to_string()).unwrap(), Some("2".to_string()));
    assert_eq!(reopened.get("b".to_string()).unwrap(), None);
}

#[test]
fn compaction_triggers_at_threshold_and_preserves_live_data() {
    let mut s = fresh();
    s.set("b".to_string(), "keep".to_string()).unwrap();
    s.set("d".to_string(), "tmp".to_string()).unwrap();
    s.remove("d".to_string()).unwrap();
    s.set("a".to_string(), "0".to_string()).unwrap();
    assert_eq!(s.redundancy_count(), 1);

    // each overwrite makes one more record stale; the last one below
    // reaches the threshold and compaction runs inside that call
    for i in 1..REDUNDANCY_LIMIT {
        s.set("a".to_string(), i.to_string()).unwrap();
        if i < REDUNDANCY_LIMIT - 1 {
            assert_eq!(s.redundancy_count(), 1 + i);
        }
    }
    assert_eq!(s.redundancy_count(), 0);
    assert_eq!(s.segment_count(), 2);
    assert_eq!(
        s.get("a".to_string()).unwrap(),
        Some((REDUNDANCY_LIMIT - 1).to_string())
    );
    assert_eq!(s.get("b".to_string()).unwrap(), Some("keep".to_string()));
    assert_eq!(s.get("d".to_string()).unwrap(), None);

    // the compacted segment holds exactly the two live records
    assert_eq!(s.segments()[0].len(), 2);
    assert_eq!(s.segments()[1].len(), 0);
    for rec in &s.segments()[0] {
        match rec {
            Command::Put(p) => assert!(p.key == "a" || p.key == "b"),
            Command::Rm(_) => panic!("tombstone survived compaction"),
        }
    }

    // the store keeps working after compaction
    s.set("e".to_string(), "late".to_string()).unwrap();
    assert_eq!(s.get("e".to_string()).unwrap(), Some("late".to_string()));
    let reopened = KvStore::open(s.segments().clone()).unwrap();
    assert_eq!(reopened.get("a".to_string()).unwrap(), Some((REDUNDANCY_LIMIT - 1).to_string()));
    assert_eq!(reopened.get("e".to_string()).unwrap(), Some("late".to_string()));
}

#[test]
fn open_numbers_active_segment_past_existing_ones() {
    let s = fresh();
    assert_eq!(s.segment_count(), 1);
    let seg0 = vec![Command::Put(Put { key: "a".to_string(), value: "1".to_string() })];
    let s2 = KvStore::open(vec![seg0]).unwrap();
    assert_eq!(s2.segment_count(), 2);
}
