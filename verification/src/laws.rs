//! The durability laws of the store, stated over the same spec
//! functions its contracts use.

use vstd::prelude::*;
use crate::codec::{
    spec_encode_record, spec_encode_log, spec_decode_record, spec_records_of, record_encodable,
    log_encodable, lemma_records_of_log_with_tail, lemma_decode_record_of_truncation,
};
use crate::records::{InfoView, RecordView};
use crate::store::{SnapView, snap_encodable, spec_encode_snapshot, spec_decode_snapshot,
    lemma_decode_snapshot_of_encode};
use crate::table::spec_replay;

verus! {

/// Round trip: a log built by appending one frame per write decodes
/// back to exactly those writes, so replaying it after a restart
/// rebuilds the table the writes built in memory.
pub proof fn lemma_log_round_trip(rs: Seq<RecordView>)
    requires
        log_encodable(rs),
    ensures
        spec_records_of(spec_encode_log(rs)) == rs,
        spec_replay(Map::<Seq<char>, InfoView>::empty(), spec_records_of(spec_encode_log(rs)))
            == spec_replay(Map::<Seq<char>, InfoView>::empty(), rs),
{
    assert(spec_decode_record(Seq::<u8>::empty()) is None);
    lemma_records_of_log_with_tail(rs, Seq::empty());
    assert(spec_encode_log(rs) + Seq::<u8>::empty() =~= spec_encode_log(rs));
}

/// Snapshot round trip: a snapshot blob decodes back to the state it
/// serialized, so recovering from it beside an empty log yields the
/// saved table — saving twice in a row changes nothing, since saving
/// leaves the store itself untouched.
pub proof fn lemma_snapshot_round_trip(s: SnapView)
    requires
        snap_encodable(s),
    ensures
        spec_decode_snapshot(spec_encode_snapshot(s)) == Some(s),
        spec_replay(spec_replay(Map::<Seq<char>, InfoView>::empty(), s.records),
            spec_records_of(Seq::<u8>::empty()))
            == spec_replay(Map::<Seq<char>, InfoView>::empty(), s.records),
{
    lemma_decode_snapshot_of_encode(s);
    assert(spec_records_of(Seq::<u8>::empty()) =~= Seq::<RecordView>::empty());
}

/// Compaction: a snapshot followed by further logged writes recovers
/// the snapshotted table with exactly those writes applied on top.
pub proof fn lemma_compaction(s: SnapView, extra: Seq<RecordView>)
    requires
        snap_encodable(s),
        log_encodable(extra),
    ensures
        spec_decode_snapshot(spec_encode_snapshot(s)) == Some(s),
        spec_replay(spec_replay(Map::<Seq<char>, InfoView>::empty(), s.records),
            spec_records_of(spec_encode_log(extra)))
            == spec_replay(spec_replay(Map::<Seq<char>, InfoView>::empty(), s.records), extra),
{
    lemma_decode_snapshot_of_encode(s);
    assert(spec_decode_record(Seq::<u8>::empty()) is None);
    lemma_records_of_log_with_tail(extra, Seq::empty());
    assert(spec_encode_log(extra) + Seq::<u8>::empty() =~= spec_encode_log(extra));
}

/// Last write wins: after two writes under one key, whatever came
/// before them, the table holds the second value — and the log still
/// holds both records, in write order.
pub proof fn lemma_last_write_wins(
    t: Map<Seq<char>, InfoView>,
    rs: Seq<RecordView>,
    k: Seq<char>,
    v1: InfoView,
    v2: InfoView,
)
    requires
        log_encodable(rs),
        record_encodable(RecordView { key: k, value: v1 }),
        record_encodable(RecordView { key: k, value: v2 }),
    ensures
        ({
            let all = rs.push(RecordView { key: k, value: v1 }).push(
                RecordView { key: k, value: v2 },
            );
            &&& spec_replay(t, all).contains_key(k)
            &&& spec_replay(t, all)[k] == v2
            &&& spec_records_of(spec_encode_log(all)) == all
        }),
{
    let first = rs.push(RecordView { key: k, value: v1 });
    let all = first.push(RecordView { key: k, value: v2 });
    assert(all.drop_last() =~= first);
    assert(all.last() == RecordView { key: k, value: v2 });
    assert(log_encodable(all)) by {
        assert(forall|i: int|
            0 <= i < rs.len() ==> all[i] == #[trigger] rs[i]);
        assert(all[rs.len() as int] == RecordView { key: k, value: v1 });
        assert(all[rs.len() as int + 1] == RecordView { key: k, value: v2 });
    }
    lemma_log_round_trip(all);
}

/// Tail tolerance: a log whose final frame was torn mid-write still
/// replays to every record that was fully written before it.
pub proof fn lemma_tail_tolerance(rs: Seq<RecordView>, r: RecordView, cut: int)
    requires
        log_encodable(rs),
        record_encodable(r),
        0 <= cut < spec_encode_record(r).len(),
    ensures
        spec_records_of(spec_encode_log(rs) + spec_encode_record(r).take(cut)) == rs,
{
    lemma_decode_record_of_truncation(r, cut);
    lemma_records_of_log_with_tail(rs, spec_encode_record(r).take(cut));
}

} // verus!
