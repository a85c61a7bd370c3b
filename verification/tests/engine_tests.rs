//! End-to-end tests of the storage engine against the real durable log and
//! sorted-table crates, in temporary directories.

use kvengine::engine::{Engine, EngineError};

fn new_log(dir: &std::path::Path) -> commitlog::CommitLog {
    commitlog::CommitLog::new(commitlog::LogOptions::new(dir.join("records"))).unwrap()
}

fn reopen_log(dir: &std::path::Path) -> commitlog::CommitLog {
    commitlog::CommitLog::new(commitlog::LogOptions::new(dir.join("records"))).unwrap()
}

#[test]
fn insert_select_delete_scenario() {
    let db = tempfile::tempdir().unwrap();
    let logs = tempfile::tempdir().unwrap();
    let mut eng = Engine::open(db.path().to_path_buf(), new_log(logs.path())).unwrap();

    assert_eq!(eng.insert(&b"a".to_vec(), &b"1".to_vec()), Ok(true));
    assert_eq!(eng.insert(&b"a".to_vec(), &b"2".to_vec()), Ok(false));
    assert_eq!(eng.select(&b"a".to_vec()), Ok(Some(b"1".to_vec())));
    assert_eq!(eng.delete(&b"a".to_vec()), Ok(true));
    assert_eq!(eng.select(&b"a".to_vec()), Ok(None));
    assert_eq!(eng.delete(&b"a".to_vec()), Ok(false));
}

#[test]
fn durability_across_reopen() {
    let db = tempfile::tempdir().unwrap();
    let logs = tempfile::tempdir().unwrap();
    let mut eng = Engine::open(db.path().to_path_buf(), new_log(logs.path())).unwrap();

    assert_eq!(eng.insert(&b"x".to_vec(), &b"1".to_vec()), Ok(true));
    assert_eq!(eng.insert(&b"y".to_vec(), &b"2".to_vec()), Ok(true));
    assert_eq!(eng.insert(&b"z".to_vec(), &b"3".to_vec()), Ok(true));
    assert_eq!(eng.delete(&b"y".to_vec()), Ok(true));
    drop(eng);

    let eng2 = Engine::open(db.path().to_path_buf(), reopen_log(logs.path())).unwrap();
    assert_eq!(eng2.select(&b"x".to_vec()), Ok(Some(b"1".to_vec())));
    assert_eq!(eng2.select(&b"y".to_vec()), Ok(None));
    assert_eq!(eng2.select(&b"z".to_vec()), Ok(Some(b"3".to_vec())));
}

#[test]
fn compaction_preserves_effective_values() {
    let db = tempfile::tempdir().unwrap();
    let logs = tempfile::tempdir().unwrap();
    let mut eng = Engine::open(db.path().to_path_buf(), new_log(logs.path())).unwrap();

    assert_eq!(eng.insert(&b"a".to_vec(), &b"1".to_vec()), Ok(true));
    assert_eq!(eng.insert(&b"b".to_vec(), &b"2".to_vec()), Ok(true));
    assert_eq!(eng.insert(&b"c".to_vec(), &b"3".to_vec()), Ok(true));
    assert_eq!(eng.delete(&b"b".to_vec()), Ok(true));

    // three inserts and one delete stand in the log and the index
    assert_eq!(eng.log_record_count(), 4);
    assert_eq!(eng.pending_len(), 3);

    eng.compact_tables().unwrap();
    let fresh_logs = tempfile::tempdir().unwrap();
    eng.install_fresh_log(new_log(fresh_logs.path())).unwrap();

    // effective values are unchanged by compaction
    assert_eq!(eng.select(&b"a".to_vec()), Ok(Some(b"1".to_vec())));
    assert_eq!(eng.select(&b"b".to_vec()), Ok(None));
    assert_eq!(eng.select(&b"c".to_vec()), Ok(Some(b"3".to_vec())));
    // the pending index and the durable log are both empty afterwards
    assert_eq!(eng.pending_len(), 0);
    assert_eq!(eng.log_record_count(), 0);
}

#[test]
fn compaction_survives_restart() {
    let db = tempfile::tempdir().unwrap();
    let logs = tempfile::tempdir().unwrap();
    let mut eng = Engine::open(db.path().to_path_buf(), new_log(logs.path())).unwrap();

    assert_eq!(eng.insert(&b"b".to_vec(), &b"x".to_vec()), Ok(true));
    eng.compact_tables().unwrap();
    let fresh_logs = tempfile::tempdir().unwrap();
    eng.install_fresh_log(new_log(fresh_logs.path())).unwrap();
    assert_eq!(eng.select(&b"b".to_vec()), Ok(Some(b"x".to_vec())));
    drop(eng);

    let eng2 = Engine::open(db.path().to_path_buf(), reopen_log(fresh_logs.path())).unwrap();
    assert_eq!(eng2.select(&b"b".to_vec()), Ok(Some(b"x".to_vec())));
}

#[test]
fn tombstone_not_carried_into_compacted_table() {
    let db = tempfile::tempdir().unwrap();
    let logs = tempfile::tempdir().unwrap();
    let mut eng = Engine::open(db.path().to_path_buf(), new_log(logs.path())).unwrap();

    assert_eq!(eng.insert(&b"c".to_vec(), &b"1".to_vec()), Ok(true));
    assert_eq!(eng.delete(&b"c".to_vec()), Ok(true));
    eng.compact_tables().unwrap();
    let fresh_logs = tempfile::tempdir().unwrap();
    eng.install_fresh_log(new_log(fresh_logs.path())).unwrap();

    assert_eq!(eng.select(&b"c".to_vec()), Ok(None));
    let entries = eng.base_entries();
    assert!(entries.iter().all(|(k, _)| k != &b"c".to_vec()));
}

#[test]
fn compacted_table_keys_strictly_ascending() {
    let db = tempfile::tempdir().unwrap();
    let logs = tempfile::tempdir().unwrap();
    let mut eng = Engine::open(db.path().to_path_buf(), new_log(logs.path())).unwrap();

    // first generation: some keys on disk
    assert_eq!(eng.insert(&b"m".to_vec(), &b"1".to_vec()), Ok(true));
    assert_eq!(eng.insert(&b"c".to_vec(), &b"2".to_vec()), Ok(true));
    eng.compact_tables().unwrap();
    let fresh1 = tempfile::tempdir().unwrap();
    eng.install_fresh_log(new_log(fresh1.path())).unwrap();

    // second generation: pending keys interleaved with the base table's
    assert_eq!(eng.insert(&b"a".to_vec(), &b"3".to_vec()), Ok(true));
    assert_eq!(eng.insert(&b"z".to_vec(), &b"4".to_vec()), Ok(true));
    assert_eq!(eng.insert(&b"d".to_vec(), &b"5".to_vec()), Ok(true));
    eng.compact_tables().unwrap();
    let fresh2 = tempfile::tempdir().unwrap();
    eng.install_fresh_log(new_log(fresh2.path())).unwrap();

    let entries = eng.base_entries();
    let keys: Vec<Vec<u8>> = entries.iter().map(|(k, _)| k.clone()).collect();
    assert_eq!(
        keys,
        vec![b"a".to_vec(), b"c".to_vec(), b"d".to_vec(), b"m".to_vec(), b"z".to_vec()]
    );
    for w in keys.windows(2) {
        assert!(w[0] < w[1]);
    }
}

#[test]
fn mutations_refused_between_compaction_and_fresh_log() {
    let db = tempfile::tempdir().unwrap();
    let logs = tempfile::tempdir().unwrap();
    let mut eng = Engine::open(db.path().to_path_buf(), new_log(logs.path())).unwrap();

    assert_eq!(eng.insert(&b"a".to_vec(), &b"1".to_vec()), Ok(true));
    eng.compact_tables().unwrap();
    assert!(eng.awaiting_fresh_log());
    assert_eq!(eng.insert(&b"b".to_vec(), &b"2".to_vec()), Err(EngineError::StaleLog));
    assert_eq!(eng.delete(&b"a".to_vec()), Err(EngineError::StaleLog));
    // reads still work on the compacted table
    assert_eq!(eng.select(&b"a".to_vec()), Ok(Some(b"1".to_vec())));
}

#[test]
fn fresh_log_must_be_empty() {
    let db = tempfile::tempdir().unwrap();
    let logs = tempfile::tempdir().unwrap();
    let mut eng = Engine::open(db.path().to_path_buf(), new_log(logs.path())).unwrap();

    assert_eq!(eng.insert(&b"a".to_vec(), &b"1".to_vec()), Ok(true));
    eng.compact_tables().unwrap();

    // a log that still holds records is refused
    let dirty = tempfile::tempdir().unwrap();
    let mut dirty_log = new_log(dirty.path());
    dirty_log.append_msg(b"left over").unwrap();
    dirty_log.flush().unwrap();
    assert_eq!(eng.install_fresh_log(dirty_log), Err(EngineError::LogNotEmpty));

    // installing one before compacting is refused too
    let fresh = tempfile::tempdir().unwrap();
    eng.install_fresh_log(new_log(fresh.path())).unwrap();
    let fresh2 = tempfile::tempdir().unwrap();
    assert_eq!(eng.install_fresh_log(new_log(fresh2.path())), Err(EngineError::StaleLog));
}

#[test]
fn undecodable_log_record_is_corrupt() {
    let db = tempfile::tempdir().unwrap();
    let logs = tempfile::tempdir().unwrap();
    let mut log = new_log(logs.path());
    log.append_msg(b"not an operation").unwrap();
    log.flush().unwrap();
    match Engine::open(db.path().to_path_buf(), log) {
        Err(EngineError::Corrupt) => (),
        _ => panic!("a garbage record must be fatal at replay"),
    }
}

#[test]
fn missing_directory_is_io_error() {
    let db = tempfile::tempdir().unwrap();
    let logs = tempfile::tempdir().unwrap();
    let nowhere = db.path().join("does-not-exist");
    match Engine::open(nowhere, new_log(logs.path())) {
        Err(EngineError::Io) => (),
        _ => panic!("an unusable directory must fail to open"),
    }
}

#[test]
fn repeated_select_is_idempotent() {
    let db = tempfile::tempdir().unwrap();
    let logs = tempfile::tempdir().unwrap();
    let mut eng = Engine::open(db.path().to_path_buf(), new_log(logs.path())).unwrap();

    assert_eq!(eng.insert(&b"k".to_vec(), &b"v".to_vec()), Ok(true));
    let first = eng.select(&b"k".to_vec());
    let second = eng.select(&b"k".to_vec());
    assert_eq!(first, second);
    assert_eq!(first, Ok(Some(b"v".to_vec())));
}

#[test]
fn values_survive_many_operations_and_reopen() {
    let db = tempfile::tempdir().unwrap();
    let logs = tempfile::tempdir().unwrap();
    let mut eng = Engine::open(db.path().to_path_buf(), new_log(logs.path())).unwrap();

    for i in 0..20u8 {
        let key = vec![b'k', i];
        let val = vec![b'v', i];
        assert_eq!(eng.insert(&key, &val), Ok(true));
    }
    for i in (0..20u8).step_by(2) {
        let key = vec![b'k', i];
        assert_eq!(eng.delete(&key), Ok(true));
    }
    drop(eng);

    let eng2 = Engine::open(db.path().to_path_buf(), reopen_log(logs.path())).unwrap();
    for i in 0..20u8 {
        let key = vec![b'k', i];
        let expected = if i % 2 == 0 { None } else { Some(vec![b'v', i]) };
        assert_eq!(eng2.select(&key), Ok(expected));
    }
}
