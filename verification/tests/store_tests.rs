use minidb::codec::{decode_record, encode_record};
use minidb::records::{LanguageInfo, Typing};
use minidb::store::{Db, DbError, DirState};

fn info(creator: &str, year: u16, typing: Typing) -> LanguageInfo {
    LanguageInfo { creator: creator.to_string(), year, typing }
}

fn fresh_db(dir: &str) -> Db {
    let disk = DirState { is_dir: false, log: None, snapshot: None };
    Db::load_or_new(dir.to_string(), disk).expect("a fresh directory always loads")
}

/// One in-memory store beside the bytes its caller would have on disk.
struct SimDisk {
    log: Vec<u8>,
    snapshot: Option<Vec<u8>>,
}

fn add(db: &mut Db, disk: &mut SimDisk, key: &str, value: LanguageInfo) {
    if let Some(frame) = db.add(key.to_string(), value) {
        disk.log.extend(frame);
    }
}

fn save(db: &Db, disk: &mut SimDisk) {
    disk.snapshot = Some(db.save());
    disk.log.clear();
}

fn reload(dir: &str, disk: &SimDisk) -> Result<Db, DbError> {
    let state = DirState {
        is_dir: true,
        log: Some(disk.log.clone()),
        snapshot: disk.snapshot.clone(),
    };
    Db::load_or_new(dir.to_string(), state)
}

#[test]
fn fresh_directory_is_empty() {
    let db = fresh_db("/tmp/minidb");
    assert_eq!(db.len(), 0);
    assert!(db.get("C").is_none());
    assert!(db.logging_enabled());
    assert_eq!(db.dir_path(), "/tmp/minidb");
    assert_eq!(db.replay_log_path(), "/tmp/minidb/replay.log");
    assert_eq!(db.db_snapshot_path(), "/tmp/minidb/db.snapshot");
}

#[test]
fn empty_directory_without_log_is_fresh() {
    // the directory exists but holds no log file: not a store directory
    let disk = DirState { is_dir: true, log: None, snapshot: None };
    assert!(!Db::is_db_dir(&disk));
    let db = Db::load_or_new("/tmp/minidb".to_string(), disk).unwrap();
    assert_eq!(db.len(), 0);
}

#[test]
fn directory_with_log_is_db_dir() {
    let disk = DirState { is_dir: true, log: Some(Vec::new()), snapshot: None };
    assert!(Db::is_db_dir(&disk));
    let disk = DirState { is_dir: false, log: Some(Vec::new()), snapshot: None };
    assert!(!Db::is_db_dir(&disk));
}

#[test]
fn add_and_get() {
    let mut db = fresh_db("/tmp/minidb");
    let mut disk = SimDisk { log: Vec::new(), snapshot: None };
    add(&mut db, &mut disk, "C", info("Dennis Ritchie", 1972, Typing::Static));
    add(&mut db, &mut disk, "Python", info("Guido van Rossum", 1989, Typing::Dynamic));
    assert_eq!(db.len(), 2);
    let c = db.get("C").expect("C was added");
    assert_eq!(c.creator, "Dennis Ritchie");
    assert_eq!(c.year, 1972);
    assert_eq!(c.typing, Typing::Static);
    assert!(db.get("Rust").is_none());
}

#[test]
fn add_returns_the_frame_it_logged() {
    let mut db = fresh_db("/tmp/minidb");
    let frame = db.add("C".to_string(), info("Dennis Ritchie", 1972, Typing::Static));
    let frame = frame.expect("logging is enabled on a fresh store");
    let expected = encode_record(&"C".to_string(), &info("Dennis Ritchie", 1972, Typing::Static));
    assert_eq!(frame, expected);
}

#[test]
fn round_trip_replays_the_log() {
    let mut db = fresh_db("/tmp/minidb");
    let mut disk = SimDisk { log: Vec::new(), snapshot: None };
    add(&mut db, &mut disk, "C", info("Dennis Ritchie", 1972, Typing::Static));
    add(&mut db, &mut disk, "Python", info("Guido van Rossum", 1989, Typing::Dynamic));
    add(&mut db, &mut disk, "Go", info("Rob Pike", 2009, Typing::Static));

    let recovered = reload("/tmp/minidb", &disk).expect("an intact log recovers");
    assert_eq!(recovered.len(), 3);
    assert_eq!(recovered.get("C").unwrap().creator, "Dennis Ritchie");
    assert_eq!(recovered.get("Python").unwrap().year, 1989);
    assert_eq!(recovered.get("Go").unwrap().typing, Typing::Static);
}

#[test]
fn snapshot_idempotence() {
    let mut db = fresh_db("/tmp/minidb");
    let mut disk = SimDisk { log: Vec::new(), snapshot: None };
    add(&mut db, &mut disk, "C", info("Dennis Ritchie", 1972, Typing::Static));
    add(&mut db, &mut disk, "Python", info("Guido van Rossum", 1989, Typing::Dynamic));

    let first = db.save();
    let second = db.save();
    assert_eq!(first, second, "saving twice with no write in between writes the same blob");

    save(&db, &mut disk);
    save(&db, &mut disk);
    let recovered = reload("/tmp/minidb", &disk).expect("a saved snapshot recovers");
    assert_eq!(recovered.len(), 2);
    assert_eq!(recovered.get("C").unwrap().year, 1972);
    assert_eq!(recovered.get("Python").unwrap().creator, "Guido van Rossum");
}

#[test]
fn compaction_folds_log_into_snapshot() {
    let mut db = fresh_db("/tmp/minidb");
    let mut disk = SimDisk { log: Vec::new(), snapshot: None };
    add(&mut db, &mut disk, "A", info("a", 1, Typing::Static));
    add(&mut db, &mut disk, "B", info("b", 2, Typing::Dynamic));
    save(&db, &mut disk);
    assert!(disk.log.is_empty(), "after save the log is empty until the next add");
    add(&mut db, &mut disk, "C", info("c", 3, Typing::Static));

    let recovered = reload("/tmp/minidb", &disk).expect("snapshot plus log recovers");
    assert_eq!(recovered.len(), 3);
    assert_eq!(recovered.get("A").unwrap().year, 1);
    assert_eq!(recovered.get("B").unwrap().year, 2);
    assert_eq!(recovered.get("C").unwrap().year, 3);
}

#[test]
fn last_write_wins() {
    let mut db = fresh_db("/tmp/minidb");
    let mut disk = SimDisk { log: Vec::new(), snapshot: None };
    add(&mut db, &mut disk, "X", info("first", 1, Typing::Static));
    add(&mut db, &mut disk, "X", info("second", 2, Typing::Dynamic));

    // the log holds both records, in write order
    let (r1, mid) = decode_record(&disk.log, 0).expect("first frame");
    let (r2, end) = decode_record(&disk.log, mid).expect("second frame");
    assert_eq!(end, disk.log.len());
    assert_eq!(r1.key, "X");
    assert_eq!(r1.value.creator, "first");
    assert_eq!(r2.key, "X");
    assert_eq!(r2.value.creator, "second");

    assert_eq!(db.len(), 1);
    let recovered = reload("/tmp/minidb", &disk).expect("the log recovers");
    assert_eq!(recovered.len(), 1);
    assert_eq!(recovered.get("X").unwrap().creator, "second");
    assert_eq!(recovered.get("X").unwrap().year, 2);
}

#[test]
fn tail_tolerance_ignores_torn_final_record() {
    let mut db = fresh_db("/tmp/minidb");
    let mut disk = SimDisk { log: Vec::new(), snapshot: None };
    add(&mut db, &mut disk, "C", info("Dennis Ritchie", 1972, Typing::Static));
    add(&mut db, &mut disk, "Python", info("Guido van Rossum", 1989, Typing::Dynamic));

    let torn = encode_record(&"Go".to_string(), &info("Rob Pike", 2009, Typing::Static));
    for cut in 0..torn.len() {
        let mut torn_disk = SimDisk { log: disk.log.clone(), snapshot: None };
        torn_disk.log.extend_from_slice(&torn[..cut]);
        let recovered = reload("/tmp/minidb", &torn_disk).expect("a torn tail is not fatal");
        assert_eq!(recovered.len(), 2, "cut {cut}");
        assert!(recovered.get("Go").is_none());
        assert_eq!(recovered.get("Python").unwrap().year, 1989);
    }
}

#[test]
fn corrupt_snapshot_is_fatal() {
    let disk = DirState {
        is_dir: true,
        log: Some(Vec::new()),
        snapshot: Some(vec![1, 2, 3]),
    };
    match Db::load_or_new("/tmp/minidb".to_string(), disk) {
        Err(err) => assert_eq!(err, DbError::CorruptSnapshot),
        Ok(_) => panic!("a corrupt snapshot must be fatal"),
    }
}

#[test]
fn snapshot_preserves_metadata() {
    let mut db = fresh_db("/tmp/somewhere");
    let _ = db.add("k".to_string(), info("c", 7, Typing::Dynamic));
    let blob = db.save();
    let restored = Db::decode_snapshot(&blob).expect("a saved blob decodes");
    assert_eq!(restored.dir_path(), "/tmp/somewhere");
    assert_eq!(restored.replay_log_path(), "/tmp/somewhere/replay.log");
    assert_eq!(restored.db_snapshot_path(), "/tmp/somewhere/db.snapshot");
    assert!(restored.logging_enabled());
    assert_eq!(restored.len(), 1);
    assert_eq!(restored.get("k").unwrap().year, 7);
}

#[test]
fn snapshot_with_trailing_garbage_is_corrupt() {
    let db = fresh_db("/tmp/minidb");
    let mut blob = db.save();
    blob.push(0);
    assert!(Db::decode_snapshot(&blob).is_none());
}

#[test]
fn replay_applies_records_in_order() {
    let mut log: Vec<u8> = Vec::new();
    log.extend(encode_record(&"A".to_string(), &info("one", 1, Typing::Static)));
    log.extend(encode_record(&"A".to_string(), &info("two", 2, Typing::Dynamic)));
    log.extend(encode_record(&"B".to_string(), &info("three", 3, Typing::Static)));
    let mut db = fresh_db("/tmp/minidb");
    db.replay(&log);
    assert_eq!(db.len(), 2);
    assert_eq!(db.get("A").unwrap().creator, "two");
    assert_eq!(db.get("B").unwrap().creator, "three");
}

#[test]
fn entries_keep_first_insertion_order() {
    let mut db = fresh_db("/tmp/minidb");
    let _ = db.add("B".to_string(), info("b", 1, Typing::Static));
    let _ = db.add("A".to_string(), info("a", 2, Typing::Dynamic));
    let _ = db.add("B".to_string(), info("b2", 3, Typing::Static));
    let entries = db.entries();
    assert_eq!(entries.len(), 2);
    assert_eq!(entries[0].key, "B");
    assert_eq!(entries[0].value.creator, "b2");
    assert_eq!(entries[1].key, "A");
}
