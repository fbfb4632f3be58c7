//! The store: construction and recovery, mutation, lookup, snapshot.
//!
//! The store owns the in-memory table together with the directory and
//! file names its durable state lives under.  It is pure state logic:
//! `add` hands back the log frame to append, `save` hands back the
//! snapshot blob to write, and recovery consumes the bytes a caller
//! read from disk.  The surrounding application moves those bytes in
//! and out of files.

use vstd::prelude::*;
use vstd::bytes::{
    spec_u64_to_le_bytes, spec_u64_from_le_bytes, u64_to_le_bytes, u64_from_le_bytes,
    lemma_auto_spec_u64_to_from_le_bytes,
};
use crate::codec::{
    spec_encode_str, spec_encode_record, spec_encode_log, spec_decode_str, spec_decode_record,
    spec_records_of, record_encodable, log_encodable, str_encodable, lemma_decode_record_bounds,
    lemma_decode_record_of_encode, lemma_decode_str_of_encode, lemma_encode_log_push,
    encode_record, decode_record, decode_str_at, encode_str_into,
};
use crate::records::{LanguageInfo, InfoView, Record, RecordView};
use crate::table::{Table, spec_replay, lemma_replay_first};

verus! {

/// The errors recovery can surface.
#[derive(Clone, Copy, Debug, PartialEq, Eq, Structural)]
pub enum DbError {
    /// The snapshot file exists but does not hold a well-formed
    /// snapshot blob.
    CorruptSnapshot,
}

/// What a caller found in the store directory: whether the path is a
/// directory, and the contents of the log and snapshot files when each
/// exists as a file.
pub struct DirState {
    pub is_dir: bool,
    pub log: Option<Vec<u8>>,
    pub snapshot: Option<Vec<u8>>,
}

/// Mathematical image of a [`DirState`].
pub struct DirStateView {
    pub is_dir: bool,
    pub log: Option<Seq<u8>>,
    pub snapshot: Option<Seq<u8>>,
}

impl View for DirState {
    type V = DirStateView;

    open spec fn view(&self) -> DirStateView {
        DirStateView {
            is_dir: self.is_dir,
            log: match self.log {
                Some(b) => Some(b@),
                None => None,
            },
            snapshot: match self.snapshot {
                Some(b) => Some(b@),
                None => None,
            },
        }
    }
}

/// The log bytes found on disk; nothing when no log file exists.
pub open spec fn spec_log_bytes(d: DirStateView) -> Seq<u8> {
    match d.log {
        Some(b) => b,
        None => Seq::empty(),
    }
}

/// A directory is a store directory when it exists and holds a log
/// file, even an empty one.
pub open spec fn spec_is_db_dir(d: DirStateView) -> bool {
    d.is_dir && d.log is Some
}

/// Mathematical image of a whole store state, as the snapshot
/// serializes it.
pub struct SnapView {
    pub dir: Seq<char>,
    pub replay_log: Seq<char>,
    pub db_snapshot: Seq<char>,
    pub records: Seq<RecordView>,
    pub logging: bool,
}

pub open spec fn snap_encodable(s: SnapView) -> bool {
    &&& str_encodable(s.dir)
    &&& str_encodable(s.replay_log)
    &&& str_encodable(s.db_snapshot)
    &&& log_encodable(s.records)
    &&& s.records.len() <= u64::MAX
}

/// The snapshot blob: the three path strings, then the record count,
/// then the records in storage order, then the logging flag.
pub open spec fn spec_encode_snapshot(s: SnapView) -> Seq<u8> {
    spec_encode_str(s.dir) + spec_encode_str(s.replay_log) + spec_encode_str(s.db_snapshot)
        + spec_u64_to_le_bytes(s.records.len() as u64) + spec_encode_log(s.records) + seq![
        if s.logging {
            1u8
        } else {
            0u8
        },
    ]
}

/// Reads exactly `n` record frames from the front of `bytes`.
pub open spec fn spec_decode_n_records(bytes: Seq<u8>, n: nat) -> Option<(Seq<RecordView>, int)>
    decreases n,
{
    if n == 0 {
        Some((Seq::empty(), 0))
    } else {
        match spec_decode_record(bytes) {
            None => None,
            Some(rp) => if 0 < rp.1 <= bytes.len() {
                match spec_decode_n_records(bytes.skip(rp.1), (n - 1) as nat) {
                    None => None,
                    Some(tp) => Some((seq![rp.0] + tp.0, rp.1 + tp.1)),
                }
            } else {
                None
            },
        }
    }
}

/// Reads a whole snapshot blob; the blob must be consumed exactly.
pub open spec fn spec_decode_snapshot(bytes: Seq<u8>) -> Option<SnapView> {
    match spec_decode_str(bytes) {
        None => None,
        Some(dp) => match spec_decode_str(bytes.skip(dp.1)) {
            None => None,
            Some(rp) => match spec_decode_str(bytes.skip(dp.1 + rp.1)) {
                None => None,
                Some(sp) => {
                    let p = dp.1 + rp.1 + sp.1;
                    if bytes.len() < p + 8 {
                        None
                    } else {
                        let cnt = spec_u64_from_le_bytes(bytes.subrange(p, p + 8));
                        match spec_decode_n_records(bytes.skip(p + 8), cnt as nat) {
                            None => None,
                            Some(np) => {
                                let q = p + 8 + np.1;
                                if bytes.len() == q + 1 && (bytes[q] == 0 || bytes[q] == 1) {
                                    Some(
                                        SnapView {
                                            dir: dp.0,
                                            replay_log: rp.0,
                                            db_snapshot: sp.0,
                                            records: np.0,
                                            logging: bytes[q] == 1,
                                        },
                                    )
                                } else {
                                    None
                                }
                            },
                        }
                    }
                },
            },
        },
    }
}

/// Reading back `n` frames recovers the `n` records they were made
/// from, whatever follows them.
proof fn lemma_decode_n_of_encode(rs: Seq<RecordView>, tail: Seq<u8>)
    requires
        log_encodable(rs),
    ensures
        spec_decode_n_records(spec_encode_log(rs) + tail, rs.len())
            == Some((rs, spec_encode_log(rs).len() as int)),
    decreases rs.len(),
{
    if rs.len() == 0 {
        assert(spec_encode_log(rs) + tail =~= tail);
        assert(rs =~= Seq::<RecordView>::empty());
    } else {
        let r0 = rs[0];
        let e0 = spec_encode_record(r0);
        let rest_log = spec_encode_log(rs.drop_first());
        let all = spec_encode_log(rs) + tail;
        assert(all =~= e0 + (rest_log + tail));
        lemma_decode_record_of_encode(r0, rest_log + tail);
        lemma_decode_record_bounds(all);
        assert(all.skip(e0.len() as int) =~= rest_log + tail);
        assert(log_encodable(rs.drop_first())) by {
            assert(forall|i: int|
                0 <= i < rs.drop_first().len() ==> #[trigger] rs.drop_first()[i] == rs[i + 1]);
        }
        lemma_decode_n_of_encode(rs.drop_first(), tail);
        assert(seq![r0] + rs.drop_first() =~= rs);
        assert(spec_encode_log(rs) =~= e0 + rest_log);
    }
}

/// A snapshot blob decodes back to exactly the state it serialized.
pub proof fn lemma_decode_snapshot_of_encode(s: SnapView)
    requires
        snap_encodable(s),
    ensures
        spec_decode_snapshot(spec_encode_snapshot(s)) == Some(s),
{
    lemma_auto_spec_u64_to_from_le_bytes();
    let e1 = spec_encode_str(s.dir);
    let e2 = spec_encode_str(s.replay_log);
    let e3 = spec_encode_str(s.db_snapshot);
    let ecnt = spec_u64_to_le_bytes(s.records.len() as u64);
    let elog = spec_encode_log(s.records);
    let ebit = seq![
        if s.logging {
            1u8
        } else {
            0u8
        },
    ];
    let all = spec_encode_snapshot(s);
    assert(all =~= e1 + (e2 + e3 + ecnt + elog + ebit));
    lemma_decode_str_of_encode(s.dir, e2 + e3 + ecnt + elog + ebit);
    assert(all.skip(e1.len() as int) =~= e2 + (e3 + ecnt + elog + ebit));
    lemma_decode_str_of_encode(s.replay_log, e3 + ecnt + elog + ebit);
    assert(all.skip(e1.len() as int + e2.len() as int) =~= e3 + (ecnt + elog + ebit));
    lemma_decode_str_of_encode(s.db_snapshot, ecnt + elog + ebit);
    let p = e1.len() as int + e2.len() as int + e3.len() as int;
    assert(all.subrange(p, p + 8) =~= ecnt);
    assert(all.skip(p + 8) =~= elog + ebit);
    lemma_decode_n_of_encode(s.records, ebit);
    let q = p + 8 + elog.len() as int;
    assert(all.len() == q + 1);
    assert(all[q] == (if s.logging { 1u8 } else { 0u8 }));
}

/// Relies on `String::push_str`: it appends the slice's characters to
/// the string.
#[verifier::external_body]
fn push_str(s: &mut String, t: &str)
    ensures
        final(s)@ == old(s)@ + t@,
{
    s.push_str(t);
}

/// The directory path followed by a file name (the name carries its
/// own separator).
fn join_path(dir: &String, name: &str) -> (r: String)
    ensures
        r@ == dir@ + name@,
{
    let mut r = dir.clone();
    push_str(&mut r, name);
    r
}

/// The key-value store.
pub struct Db {
    dir: String,
    replay_log: String,
    db_snapshot: String,
    data: Table,
    enable_logging: bool,
}

impl Db {
    /// The directory the store lives under.
    pub closed spec fn spec_dir(&self) -> Seq<char> {
        self.dir@
    }

    /// The path of the write-ahead log file.
    pub closed spec fn spec_replay_log(&self) -> Seq<char> {
        self.replay_log@
    }

    /// The path of the snapshot file.
    pub closed spec fn spec_db_snapshot(&self) -> Seq<char> {
        self.db_snapshot@
    }

    /// The mapping the store currently holds.
    pub closed spec fn spec_table(&self) -> Map<Seq<char>, InfoView> {
        self.data@
    }

    /// The stored records in storage order; the snapshot serializes
    /// them in this order.
    pub closed spec fn spec_entries(&self) -> Seq<RecordView> {
        self.data.entries_view()
    }

    /// Whether `add` also emits a log frame.
    pub closed spec fn spec_logging(&self) -> bool {
        self.enable_logging
    }

    /// Well-formed: the table's keys are unique, so the stored entries
    /// describe exactly the mapping.
    pub closed spec fn wf(&self) -> bool {
        self.data.wf()
    }

    /// An empty store bound to `dir`; files are created lazily by the
    /// caller on the first write or save.
    pub fn new(dir: String) -> (db: Db)
        ensures
            db.wf(),
            db.spec_table() == Map::<Seq<char>, InfoView>::empty(),
            db.spec_entries() == Seq::<RecordView>::empty(),
            db.spec_dir() == dir@,
            db.spec_replay_log() == dir@ + "/replay.log"@,
            db.spec_db_snapshot() == dir@ + "/db.snapshot"@,
            db.spec_logging(),
    {
        let replay_log = join_path(&dir, "/replay.log");
        let db_snapshot = join_path(&dir, "/db.snapshot");
        Db { dir, replay_log, db_snapshot, data: Table::new(), enable_logging: true }
    }

    /// Decides from what the caller observed whether the directory
    /// already holds a store.
    pub fn is_db_dir(d: &DirState) -> (r: bool)
        ensures
            r == spec_is_db_dir(d@),
    {
        d.is_dir && d.log.is_some()
    }

    /// Inserts `value` under `key` (replacing any previous value) and,
    /// when logging is enabled, returns the one log frame that makes
    /// the write durable once the caller has appended it to the log
    /// file.
    pub fn add(&mut self, key: String, value: LanguageInfo) -> (log_entry: Option<Vec<u8>>)
        requires
            old(self).wf(),
        ensures
            final(self).wf(),
            final(self).spec_table() == old(self).spec_table().insert(key@, value@),
            final(self).spec_dir() == old(self).spec_dir(),
            final(self).spec_replay_log() == old(self).spec_replay_log(),
            final(self).spec_db_snapshot() == old(self).spec_db_snapshot(),
            final(self).spec_logging() == old(self).spec_logging(),
            match log_entry {
                Some(b) => old(self).spec_logging() && b@ == spec_encode_record(
                    RecordView { key: key@, value: value@ },
                ),
                None => !old(self).spec_logging(),
            },
    {
        let entry = if self.enable_logging {
            Some(encode_record(&key, &value))
        } else {
            None
        };
        self.data.insert(key, value);
        entry
    }

    /// Looks a key up; purely in memory, no effect on durable state.
    pub fn get(&self, key: &str) -> (r: Option<&LanguageInfo>)
        requires
            self.wf(),
        ensures
            match r {
                Some(v) => self.spec_table().contains_key(key@) && v@ == self.spec_table()[key@],
                None => !self.spec_table().contains_key(key@),
            },
    {
        self.data.get(key)
    }

    /// The number of keys stored.
    pub fn len(&self) -> (n: usize)
        requires
            self.wf(),
        ensures
            n == self.spec_table().dom().len(),
    {
        self.data.len()
    }

    /// The whole current state, as the snapshot serializes it.
    pub closed spec fn snap_view(&self) -> SnapView {
        SnapView {
            dir: self.dir@,
            replay_log: self.replay_log@,
            db_snapshot: self.db_snapshot@,
            records: self.data.entries_view(),
            logging: self.enable_logging,
        }
    }

    /// Serializes the whole current state into one snapshot blob.  The
    /// caller writes the blob to the snapshot file and then truncates
    /// the log to empty; after that, recovery needs no replay.  The
    /// store itself is unchanged.
    pub fn save(&self) -> (out: Vec<u8>)
        requires
            self.wf(),
        ensures
            out@ == spec_encode_snapshot(self.snap_view()),
            snap_encodable(self.snap_view()),
            spec_decode_snapshot(out@) == Some(self.snap_view()),
            spec_replay(Map::empty(), self.snap_view().records) == self.spec_table(),
    {
        let mut out: Vec<u8> = Vec::new();
        encode_str_into(&mut out, self.dir.as_str());
        encode_str_into(&mut out, self.replay_log.as_str());
        encode_str_into(&mut out, self.db_snapshot.as_str());
        let entries = self.data.entries();
        let mut cb = u64_to_le_bytes(entries.len() as u64);
        out.append(&mut cb);
        let ghost prefix = out@;
        let ghost evs = self.spec_entries();
        let mut i: usize = 0;
        proof {
            assert(evs.take(0) =~= Seq::<RecordView>::empty());
            assert(out@ =~= prefix + spec_encode_log(evs.take(0)));
        }
        while i < entries.len()
            invariant
                out@ == prefix + spec_encode_log(evs.take(i as int)),
                i <= entries@.len(),
                evs == entries@.map_values(|x: Record| x@),
                forall|j: int| 0 <= j < i ==> record_encodable(#[trigger] evs[j]),
            decreases entries@.len() - i,
        {
            proof {
                assert(evs[i as int] == entries@[i as int]@);
            }
            let e = &entries[i];
            let mut rb = encode_record(&e.key, &e.value);
            out.append(&mut rb);
            proof {
                lemma_encode_log_push(evs.take(i as int), evs[i as int]);
                assert(evs.take(i as int).push(evs[i as int]) =~= evs.take(i as int + 1));
                assert(out@ =~= prefix + spec_encode_log(evs.take(i as int + 1)));
            }
            i += 1;
        }
        out.push(if self.enable_logging { 1u8 } else { 0u8 });
        proof {
            assert(evs.take(evs.len() as int) =~= evs);
            assert(out@ =~= spec_encode_snapshot(self.snap_view()));
            lemma_decode_snapshot_of_encode(self.snap_view());
            self.data.lemma_view_is_map_of_entries();
        }
        out
    }

    /// Rebuilds a store from a snapshot blob; the records are applied
    /// in order, so the rebuilt table is their replay onto an empty
    /// table.  Yields nothing when the blob is malformed.
    #[verifier::loop_isolation(false)]
    #[verifier::rlimit(60)]
    pub fn decode_snapshot(bytes: &[u8]) -> (r: Option<Db>)
        ensures
            match r {
                Some(db) => {
                    &&& spec_decode_snapshot(bytes@) matches Some(sv)
                    &&& db.wf()
                    &&& db.spec_dir() == sv.dir
                    &&& db.spec_replay_log() == sv.replay_log
                    &&& db.spec_db_snapshot() == sv.db_snapshot
                    &&& db.spec_logging() == sv.logging
                    &&& db.spec_table() == spec_replay(Map::empty(), sv.records)
                },
                None => spec_decode_snapshot(bytes@) is None,
            },
    {
        proof {
            assert(bytes@.skip(0) =~= bytes@);
        }
        let (dir, p1) = match decode_str_at(bytes, 0) {
            None => {
                return None;
            },
            Some(p) => p,
        };
        let (replay_log, p2) = match decode_str_at(bytes, p1) {
            None => {
                return None;
            },
            Some(p) => p,
        };
        let (db_snapshot, p3) = match decode_str_at(bytes, p2) {
            None => {
                return None;
            },
            Some(p) => p,
        };
        if bytes.len() - p3 < 8 {
            return None;
        }
        let cb = vstd::slice::slice_subrange(bytes, p3, p3 + 8);
        let cnt = u64_from_le_bytes(cb);
        let ghost full = spec_decode_n_records(bytes@.skip(p3 as int + 8), cnt as nat);
        let mut table = Table::new();
        let ghost mut processed: Seq<RecordView> = Seq::empty();
        let mut pos: usize = p3 + 8;
        let mut i: u64 = 0;
        proof {
            match spec_decode_n_records(bytes@.skip(p3 as int + 8), cnt as nat) {
                Some(tp) => {
                    assert(Seq::<RecordView>::empty() + tp.0 =~= tp.0);
                },
                None => {},
            }
        }
        while i < cnt
            invariant
                pos <= bytes@.len(),
                i <= cnt,
                table.wf(),
                table@ == spec_replay(Map::<Seq<char>, InfoView>::empty(), processed),
                processed.len() == i,
                full == spec_decode_n_records(bytes@.skip(p3 as int + 8), cnt as nat),
                p3 as int + 8 <= pos as int,
                match spec_decode_n_records(bytes@.skip(pos as int), (cnt - i) as nat) {
                    Some(tp) => full == Some((processed + tp.0, (pos - p3 - 8) + tp.1)),
                    None => full is None,
                },
            decreases cnt - i,
        {
            match decode_record(bytes, pos) {
                None => {
                    return None;
                },
                Some(p) => {
                    let (rec, newpos) = p;
                    let ghost prev = processed;
                    proof {
                        let rel = bytes@.skip(pos as int);
                        lemma_decode_record_bounds(rel);
                        assert(rel.skip(newpos - pos) =~= bytes@.skip(newpos as int));
                        match spec_decode_n_records(
                            bytes@.skip(newpos as int),
                            (cnt - i - 1) as nat,
                        ) {
                            Some(tp2) => {
                                assert(prev + (seq![rec@] + tp2.0) =~= prev.push(rec@) + tp2.0);
                            },
                            None => {},
                        }
                    }
                    let Record { key, value } = rec;
                    table.insert(key, value);
                    proof {
                        processed = prev.push(RecordView { key: key@, value: value@ });
                        assert(processed.drop_last() =~= prev);
                        assert(table@ == spec_replay(
                            Map::<Seq<char>, InfoView>::empty(),
                            processed,
                        ));
                    }
                    pos = newpos;
                    i = i + 1;
                },
            }
        }
        proof {
            assert(processed + Seq::<RecordView>::empty() =~= processed);
        }
        if !(pos < bytes.len() && bytes.len() - pos == 1) {
            return None;
        }
        let b = *vstd::slice::slice_index_get(bytes, pos);
        let logging = if b == 1 {
            true
        } else if b == 0 {
            false
        } else {
            return None;
        };
        Some(Db { dir, replay_log, db_snapshot, data: table, enable_logging: logging })
    }

    /// Initializes a store from `dir` and what the caller found there.
    /// When the directory does not yet hold a store, the result is an
    /// empty store bound to `dir` (the caller creates the directory
    /// itself).  Otherwise the snapshot, when present, is restored and
    /// the log is replayed on top of it; a malformed snapshot is the
    /// one fatal error.  The returned store always has logging
    /// enabled.
    pub fn load_or_new(dir: String, disk: DirState) -> (r: Result<Db, DbError>)
        ensures
            match r {
                Ok(db) => {
                    &&& db.wf()
                    &&& db.spec_logging()
                    &&& if !spec_is_db_dir(disk@) {
                        &&& db.spec_table() == Map::<Seq<char>, InfoView>::empty()
                        &&& db.spec_dir() == dir@
                        &&& db.spec_replay_log() == dir@ + "/replay.log"@
                        &&& db.spec_db_snapshot() == dir@ + "/db.snapshot"@
                    } else {
                        match disk@.snapshot {
                            None => {
                                &&& db.spec_dir() == dir@
                                &&& db.spec_replay_log() == dir@ + "/replay.log"@
                                &&& db.spec_db_snapshot() == dir@ + "/db.snapshot"@
                                &&& db.spec_table() == spec_replay(
                                    Map::empty(),
                                    spec_records_of(spec_log_bytes(disk@)),
                                )
                            },
                            Some(sb) => {
                                &&& spec_decode_snapshot(sb) matches Some(sv)
                                &&& db.spec_dir() == sv.dir
                                &&& db.spec_replay_log() == sv.replay_log
                                &&& db.spec_db_snapshot() == sv.db_snapshot
                                &&& db.spec_table() == spec_replay(
                                    spec_replay(Map::empty(), sv.records),
                                    spec_records_of(spec_log_bytes(disk@)),
                                )
                            },
                        }
                    }
                },
                Err(e) => {
                    &&& e == DbError::CorruptSnapshot
                    &&& spec_is_db_dir(disk@)
                    &&& match disk@.snapshot {
                        Some(sb) => spec_decode_snapshot(sb) is None,
                        None => false,
                    }
                },
            },
    {
        if Self::is_db_dir(&disk) {
            Self::restore_and_replay(dir, disk)
        } else {
            Ok(Self::create(dir))
        }
    }

    /// An empty store for a directory that held none; the caller
    /// creates the directory on disk.
    fn create(dir: String) -> (db: Db)
        ensures
            db.wf(),
            db.spec_logging(),
            db.spec_table() == Map::<Seq<char>, InfoView>::empty(),
            db.spec_dir() == dir@,
            db.spec_replay_log() == dir@ + "/replay.log"@,
            db.spec_db_snapshot() == dir@ + "/db.snapshot"@,
    {
        Db::new(dir)
    }

    /// Restores the snapshot (or starts empty) and replays the log on
    /// top of it, with logging re-enabled at the end.
    fn restore_and_replay(dir: String, disk: DirState) -> (r: Result<Db, DbError>)
        ensures
            match r {
                Ok(db) => {
                    &&& db.wf()
                    &&& db.spec_logging()
                    &&& match disk@.snapshot {
                        None => {
                            &&& db.spec_dir() == dir@
                            &&& db.spec_replay_log() == dir@ + "/replay.log"@
                            &&& db.spec_db_snapshot() == dir@ + "/db.snapshot"@
                            &&& db.spec_table() == spec_replay(
                                Map::empty(),
                                spec_records_of(spec_log_bytes(disk@)),
                            )
                        },
                        Some(sb) => {
                            &&& spec_decode_snapshot(sb) matches Some(sv)
                            &&& db.spec_dir() == sv.dir
                            &&& db.spec_replay_log() == sv.replay_log
                            &&& db.spec_db_snapshot() == sv.db_snapshot
                            &&& db.spec_table() == spec_replay(
                                spec_replay(Map::empty(), sv.records),
                                spec_records_of(spec_log_bytes(disk@)),
                            )
                        },
                    }
                },
                Err(e) => {
                    &&& e == DbError::CorruptSnapshot
                    &&& match disk@.snapshot {
                        Some(sb) => spec_decode_snapshot(sb) is None,
                        None => false,
                    }
                },
            },
    {
        let DirState { is_dir: _, log, snapshot } = disk;
        let mut db = match snapshot {
            Some(sb) => match Self::decode_snapshot(sb.as_slice()) {
                Some(db) => db,
                None => {
                    return Err(DbError::CorruptSnapshot);
                },
            },
            None => Db::new(dir),
        };
        db.enable_logging = true;
        match log {
            Some(bytes) => {
                db.replay(bytes.as_slice());
            },
            None => {
                proof {
                    assert(spec_records_of(Seq::<u8>::empty()) =~= Seq::<RecordView>::empty());
                }
            },
        }
        Ok(db)
    }

    /// The directory the store lives under.
    pub fn dir_path(&self) -> (r: &String)
        ensures
            r@ == self.spec_dir(),
    {
        &self.dir
    }

    /// The path of the write-ahead log file.
    pub fn replay_log_path(&self) -> (r: &String)
        ensures
            r@ == self.spec_replay_log(),
    {
        &self.replay_log
    }

    /// The path of the snapshot file.
    pub fn db_snapshot_path(&self) -> (r: &String)
        ensures
            r@ == self.spec_db_snapshot(),
    {
        &self.db_snapshot
    }

    /// Whether `add` currently emits log frames.
    pub fn logging_enabled(&self) -> (r: bool)
        ensures
            r == self.spec_logging(),
    {
        self.enable_logging
    }

    /// The stored records, in storage order.
    pub fn entries(&self) -> (r: &Vec<Record>)
        ensures
            r@.map_values(|x: Record| x@) == self.spec_entries(),
    {
        self.data.entries()
    }

    /// Applies every record the log holds, in file order, to the
    /// table, without emitting new log frames.  Decoding stops at the
    /// first incomplete or malformed frame, so a torn final record is
    /// ignored rather than fatal.
    pub fn replay(&mut self, log: &[u8])
        requires
            old(self).wf(),
        ensures
            final(self).wf(),
            final(self).spec_table() == spec_replay(
                old(self).spec_table(),
                spec_records_of(log@),
            ),
            final(self).spec_dir() == old(self).spec_dir(),
            final(self).spec_replay_log() == old(self).spec_replay_log(),
            final(self).spec_db_snapshot() == old(self).spec_db_snapshot(),
            final(self).spec_logging() == old(self).spec_logging(),
    {
        let ghost t0 = self.spec_table();
        let mut pos: usize = 0;
        proof {
            assert(log@.skip(0) =~= log@);
        }
        loop
            invariant
                self.wf(),
                pos <= log@.len(),
                spec_replay(t0, spec_records_of(log@)) == spec_replay(
                    self.spec_table(),
                    spec_records_of(log@.skip(pos as int)),
                ),
                self.spec_dir() == old(self).spec_dir(),
                self.spec_replay_log() == old(self).spec_replay_log(),
                self.spec_db_snapshot() == old(self).spec_db_snapshot(),
                self.spec_logging() == old(self).spec_logging(),
                t0 == old(self).spec_table(),
            decreases log@.len() - pos,
        {
            match decode_record(log, pos) {
                None => {
                    proof {
                        assert(spec_records_of(log@.skip(pos as int))
                            =~= Seq::<RecordView>::empty());
                    }
                    return ;
                },
                Some(p) => {
                    let (rec, newpos) = p;
                    proof {
                        let rel = log@.skip(pos as int);
                        lemma_decode_record_bounds(rel);
                        assert(rel.skip(newpos - pos) =~= log@.skip(newpos as int));
                        let rest = spec_records_of(log@.skip(newpos as int));
                        assert(spec_records_of(rel) == seq![rec@] + rest);
                        assert((seq![rec@] + rest)[0] == rec@);
                        assert((seq![rec@] + rest).drop_first() =~= rest);
                        lemma_replay_first(self.spec_table(), seq![rec@] + rest);
                    }
                    let Record { key, value } = rec;
                    self.data.insert(key, value);
                    pos = newpos;
                },
            }
        }
    }
}

} // verus!
