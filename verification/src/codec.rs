//! The binary record format of the write-ahead log.
//!
//! One record frames one `(key, value)` write:
//!
//! ```text
//! key length   : u64, little endian
//! key          : UTF-8 bytes
//! creator len  : u64, little endian
//! creator      : UTF-8 bytes
//! year         : u16, little endian
//! typing tag   : u32, little endian (0 = Dynamic, 1 = Static)
//! ```
//!
//! The frame is self-delimiting, so a reader can decode records
//! sequentially without any external index.  Decoding stops at the
//! first frame that is incomplete or malformed; a strict prefix of a
//! frame never decodes, which is what makes a torn final record at the
//! tail of the log harmless.

use vstd::prelude::*;
use vstd::bytes::{
    spec_u16_to_le_bytes, spec_u16_from_le_bytes, spec_u32_to_le_bytes, spec_u32_from_le_bytes,
    spec_u64_to_le_bytes, spec_u64_from_le_bytes, u16_to_le_bytes, u16_from_le_bytes,
    u32_to_le_bytes, u32_from_le_bytes, u64_to_le_bytes, u64_from_le_bytes,
    lemma_auto_spec_u16_to_from_le_bytes, lemma_auto_spec_u32_to_from_le_bytes,
    lemma_auto_spec_u64_to_from_le_bytes,
};
use vstd::utf8::{
    encode_utf8, decode_utf8, valid_utf8, encode_utf8_valid_utf8, encode_utf8_decode_utf8,
};
use crate::records::{Typing, LanguageInfo, InfoView, Record, RecordView};

verus! {

/// The wire tag of a `Typing` variant.
pub open spec fn spec_tag_of(t: Typing) -> u32 {
    match t {
        Typing::Dynamic => 0,
        Typing::Static => 1,
    }
}

/// A string fits in a frame when the length of its UTF-8 encoding
/// fits the 64-bit length prefix.  Every string held by the running
/// program satisfies this.
pub open spec fn str_encodable(s: Seq<char>) -> bool {
    encode_utf8(s).len() <= u64::MAX
}

/// The frame of one string: a 64-bit length prefix, then UTF-8 bytes.
pub open spec fn spec_encode_str(s: Seq<char>) -> Seq<u8> {
    spec_u64_to_le_bytes(encode_utf8(s).len() as u64) + encode_utf8(s)
}

pub open spec fn record_encodable(r: RecordView) -> bool {
    str_encodable(r.key) && str_encodable(r.value.creator)
}

/// The frame of one record.
pub open spec fn spec_encode_record(r: RecordView) -> Seq<u8> {
    spec_encode_str(r.key) + spec_encode_str(r.value.creator)
        + spec_u16_to_le_bytes(r.value.year) + spec_u32_to_le_bytes(spec_tag_of(r.value.typing))
}

/// Reads one string frame from the front of `bytes`; yields the
/// characters and the number of bytes consumed, or nothing when the
/// frame is incomplete or not valid UTF-8.
pub open spec fn spec_decode_str(bytes: Seq<u8>) -> Option<(Seq<char>, int)> {
    if bytes.len() < 8 {
        None
    } else {
        let n = spec_u64_from_le_bytes(bytes.take(8)) as int;
        if bytes.len() < 8 + n {
            None
        } else if !valid_utf8(bytes.subrange(8, 8 + n)) {
            None
        } else {
            Some((decode_utf8(bytes.subrange(8, 8 + n)), 8 + n))
        }
    }
}

/// Reads one record frame from the front of `bytes`; yields the record
/// and the number of bytes consumed, or nothing when any part of the
/// frame is missing or malformed.
pub open spec fn spec_decode_record(bytes: Seq<u8>) -> Option<(RecordView, int)> {
    match spec_decode_str(bytes) {
        None => None,
        Some(kp) => match spec_decode_str(bytes.skip(kp.1)) {
            None => None,
            Some(cp) => {
                let p = kp.1 + cp.1;
                if bytes.len() < p + 6 {
                    None
                } else {
                    let year = spec_u16_from_le_bytes(bytes.subrange(p, p + 2));
                    let tag = spec_u32_from_le_bytes(bytes.subrange(p + 2, p + 6));
                    if tag == 0 {
                        Some((
                            RecordView {
                                key: kp.0,
                                value: InfoView { creator: cp.0, year, typing: Typing::Dynamic },
                            },
                            p + 6,
                        ))
                    } else if tag == 1 {
                        Some((
                            RecordView {
                                key: kp.0,
                                value: InfoView { creator: cp.0, year, typing: Typing::Static },
                            },
                            p + 6,
                        ))
                    } else {
                        None
                    }
                }
            }
        },
    }
}

/// The records a sequential reader recovers from a log: frames are
/// decoded one after the other, and the first failure ends the stream.
pub open spec fn spec_records_of(bytes: Seq<u8>) -> Seq<RecordView>
    decreases bytes.len(),
{
    match spec_decode_record(bytes) {
        None => Seq::empty(),
        Some(rp) => if 0 < rp.1 <= bytes.len() {
            seq![rp.0] + spec_records_of(bytes.skip(rp.1))
        } else {
            Seq::empty()
        },
    }
}

/// A log is the concatenation of the frames of its records.
pub open spec fn spec_encode_log(rs: Seq<RecordView>) -> Seq<u8>
    decreases rs.len(),
{
    if rs.len() == 0 {
        Seq::empty()
    } else {
        spec_encode_record(rs[0]) + spec_encode_log(rs.drop_first())
    }
}

pub open spec fn log_encodable(rs: Seq<RecordView>) -> bool {
    forall|i: int| 0 <= i < rs.len() ==> record_encodable(#[trigger] rs[i])
}

/// A decoded record frame consumes at least its fixed fields and never
/// more than the input.
pub proof fn lemma_decode_record_bounds(bytes: Seq<u8>)
    ensures
        match spec_decode_record(bytes) {
            Some(rp) => 22 <= rp.1 <= bytes.len(),
            None => true,
        },
{
}

/// Whatever follows it, a complete string frame decodes back to the
/// string it was made from, consuming exactly the frame.
pub proof fn lemma_decode_str_of_encode(s: Seq<char>, rest: Seq<u8>)
    requires
        str_encodable(s),
    ensures
        spec_decode_str(spec_encode_str(s) + rest) == Some((s, spec_encode_str(s).len() as int)),
{
    lemma_auto_spec_u64_to_from_le_bytes();
    let eb = encode_utf8(s);
    let all = spec_encode_str(s) + rest;
    assert(all.take(8) =~= spec_u64_to_le_bytes(eb.len() as u64));
    assert(spec_u64_from_le_bytes(all.take(8)) == eb.len());
    assert(all.subrange(8, 8 + eb.len() as int) =~= eb);
    encode_utf8_valid_utf8(s);
    encode_utf8_decode_utf8(s);
}

/// A strict prefix of a string frame never decodes: some part of the
/// frame is missing.
pub proof fn lemma_decode_str_of_truncation(s: Seq<char>, cut: int)
    requires
        str_encodable(s),
        0 <= cut < spec_encode_str(s).len(),
    ensures
        spec_decode_str(spec_encode_str(s).take(cut)) is None,
{
    lemma_auto_spec_u64_to_from_le_bytes();
    let eb = encode_utf8(s);
    let t = spec_encode_str(s).take(cut);
    if cut >= 8 {
        assert(t.take(8) =~= spec_u64_to_le_bytes(eb.len() as u64));
        assert(spec_u64_from_le_bytes(t.take(8)) == eb.len());
        assert(t.len() < 8 + eb.len());
    }
}

/// Whatever follows it, a complete record frame decodes back to the
/// record it was made from, consuming exactly the frame.
pub proof fn lemma_decode_record_of_encode(r: RecordView, rest: Seq<u8>)
    requires
        record_encodable(r),
    ensures
        spec_decode_record(spec_encode_record(r) + rest)
            == Some((r, spec_encode_record(r).len() as int)),
{
    lemma_auto_spec_u16_to_from_le_bytes();
    lemma_auto_spec_u32_to_from_le_bytes();
    lemma_auto_spec_u64_to_from_le_bytes();
    let ek = spec_encode_str(r.key);
    let ec = spec_encode_str(r.value.creator);
    let ey = spec_u16_to_le_bytes(r.value.year);
    let et = spec_u32_to_le_bytes(spec_tag_of(r.value.typing));
    let all = spec_encode_record(r) + rest;
    assert(all =~= ek + (ec + ey + et + rest));
    lemma_decode_str_of_encode(r.key, ec + ey + et + rest);
    assert(spec_decode_str(all) == Some((r.key, ek.len() as int)));
    assert(all.skip(ek.len() as int) =~= ec + (ey + et + rest));
    lemma_decode_str_of_encode(r.value.creator, ey + et + rest);
    let p = ek.len() as int + ec.len() as int;
    assert(all.subrange(p, p + 2) =~= ey);
    assert(all.subrange(p + 2, p + 6) =~= et);
    assert(spec_u16_from_le_bytes(ey) == r.value.year);
    assert(spec_u32_from_le_bytes(et) == spec_tag_of(r.value.typing));
}

/// A strict prefix of a record frame never decodes: whichever field the
/// cut lands in, that field is incomplete.
pub proof fn lemma_decode_record_of_truncation(r: RecordView, cut: int)
    requires
        record_encodable(r),
        0 <= cut < spec_encode_record(r).len(),
    ensures
        spec_decode_record(spec_encode_record(r).take(cut)) is None,
{
    lemma_auto_spec_u16_to_from_le_bytes();
    lemma_auto_spec_u32_to_from_le_bytes();
    lemma_auto_spec_u64_to_from_le_bytes();
    let ek = spec_encode_str(r.key);
    let ec = spec_encode_str(r.value.creator);
    let ey = spec_u16_to_le_bytes(r.value.year);
    let et = spec_u32_to_le_bytes(spec_tag_of(r.value.typing));
    let t = spec_encode_record(r).take(cut);
    if cut < ek.len() {
        assert(t =~= ek.take(cut));
        lemma_decode_str_of_truncation(r.key, cut);
    } else {
        let cut2 = cut - ek.len();
        let tail = (ec + ey + et).take(cut2);
        assert(t =~= ek + tail);
        lemma_decode_str_of_encode(r.key, tail);
        assert(spec_decode_str(t) == Some((r.key, ek.len() as int)));
        assert(t.skip(ek.len() as int) =~= tail);
        if cut2 < ec.len() {
            assert(tail =~= ec.take(cut2));
            lemma_decode_str_of_truncation(r.value.creator, cut2);
        } else {
            let cut3 = cut2 - ec.len();
            assert(tail =~= ec + (ey + et).take(cut3));
            lemma_decode_str_of_encode(r.value.creator, (ey + et).take(cut3));
            assert(t.len() < ek.len() + ec.len() + 6);
        }
    }
}

/// A log made of complete frames followed by any tail that does not
/// decode — in particular, a torn final frame — replays to exactly the
/// records that were fully written.
pub proof fn lemma_records_of_log_with_tail(rs: Seq<RecordView>, tail: Seq<u8>)
    requires
        log_encodable(rs),
        spec_decode_record(tail) is None,
    ensures
        spec_records_of(spec_encode_log(rs) + tail) == rs,
    decreases rs.len(),
{
    if rs.len() == 0 {
        assert(spec_encode_log(rs) + tail =~= tail);
        assert(spec_records_of(tail) =~= Seq::<RecordView>::empty());
        assert(rs =~= Seq::<RecordView>::empty());
    } else {
        let r0 = rs[0];
        let e0 = spec_encode_record(r0);
        let rest_bytes = spec_encode_log(rs.drop_first()) + tail;
        let all = spec_encode_log(rs) + tail;
        assert(all =~= e0 + rest_bytes);
        lemma_decode_record_of_encode(r0, rest_bytes);
        lemma_decode_record_bounds(all);
        assert(all.skip(e0.len() as int) =~= rest_bytes);
        assert(log_encodable(rs.drop_first())) by {
            assert(forall|i: int|
                0 <= i < rs.drop_first().len() ==> #[trigger] rs.drop_first()[i] == rs[i + 1]);
        }
        lemma_records_of_log_with_tail(rs.drop_first(), tail);
        assert(spec_records_of(all) =~= seq![r0] + rs.drop_first());
        assert(seq![r0] + rs.drop_first() =~= rs);
    }
}

/// Appending one frame to a log appends its record to the log's image.
pub proof fn lemma_encode_log_push(rs: Seq<RecordView>, r: RecordView)
    ensures
        spec_encode_log(rs.push(r)) == spec_encode_log(rs) + spec_encode_record(r),
    decreases rs.len(),
{
    if rs.len() == 0 {
        assert(rs.push(r).drop_first() =~= rs);
        assert(spec_encode_log(rs.push(r)) =~= spec_encode_log(rs) + spec_encode_record(r));
    } else {
        assert(rs.push(r).drop_first() =~= rs.drop_first().push(r));
        lemma_encode_log_push(rs.drop_first(), r);
        assert(spec_encode_log(rs.push(r)) =~= spec_encode_log(rs) + spec_encode_record(r));
    }
}

/// Relies on `String::from_utf8`: it accepts exactly the byte
/// sequences that are valid UTF-8 and yields the characters they
/// encode.
#[verifier::external_body]
fn bytes_to_string(v: Vec<u8>) -> (r: Option<String>)
    ensures
        match r {
            Some(s) => valid_utf8(v@) && s@ == decode_utf8(v@),
            None => !valid_utf8(v@),
        },
{
    match String::from_utf8(v) {
        Ok(s) => Some(s),
        Err(_) => None,
    }
}

/// Appends the frame of one string to `out`.
pub(crate) fn encode_str_into(out: &mut Vec<u8>, s: &str)
    ensures
        final(out)@ == old(out)@ + spec_encode_str(s@),
        str_encodable(s@),
{
    let bytes: &[u8] = s.as_bytes();
    let mut lb = u64_to_le_bytes(bytes.len() as u64);
    out.append(&mut lb);
    let mut sb = vstd::slice::slice_to_vec(bytes);
    out.append(&mut sb);
    proof {
        assert(out@ =~= old(out)@ + spec_encode_str(s@));
    }
}

/// Builds the frame of one record.
pub fn encode_record(key: &String, value: &LanguageInfo) -> (out: Vec<u8>)
    ensures
        out@ == spec_encode_record(RecordView { key: key@, value: value@ }),
        record_encodable(RecordView { key: key@, value: value@ }),
{
    let mut out: Vec<u8> = Vec::new();
    encode_str_into(&mut out, key.as_str());
    encode_str_into(&mut out, value.creator.as_str());
    let mut yb = u16_to_le_bytes(value.year);
    out.append(&mut yb);
    let tag: u32 = match value.typing {
        Typing::Dynamic => 0,
        Typing::Static => 1,
    };
    let mut tb = u32_to_le_bytes(tag);
    out.append(&mut tb);
    proof {
        assert(out@ =~= spec_encode_record(RecordView { key: key@, value: value@ }));
    }
    out
}

/// Reads one string frame starting at `start`; on success the returned
/// position is the first byte after the frame.
pub fn decode_str_at(bytes: &[u8], start: usize) -> (r: Option<(String, usize)>)
    requires
        start <= bytes@.len(),
    ensures
        match r {
            Some(p) => {
                &&& spec_decode_str(bytes@.skip(start as int)) == Some((p.0@, p.1 - start))
                &&& start < p.1 <= bytes@.len()
            },
            None => spec_decode_str(bytes@.skip(start as int)) is None,
        },
{
    let ghost rel = bytes@.skip(start as int);
    if bytes.len() - start < 8 {
        return None;
    }
    let len_slice = vstd::slice::slice_subrange(bytes, start, start + 8);
    let n = u64_from_le_bytes(len_slice);
    proof {
        assert(rel.take(8) =~= bytes@.subrange(start as int, start as int + 8));
    }
    let remaining = (bytes.len() - start - 8) as u64;
    if n > remaining {
        proof {
            assert(rel.len() < 8 + n);
        }
        return None;
    }
    let n_us = n as usize;
    let sb = vstd::slice::slice_subrange(bytes, start + 8, start + 8 + n_us);
    proof {
        assert(rel.subrange(8, 8 + n as int)
            =~= bytes@.subrange(start as int + 8, start as int + 8 + n as int));
    }
    let v = vstd::slice::slice_to_vec(sb);
    match bytes_to_string(v) {
        None => None,
        Some(s) => Some((s, start + 8 + n_us)),
    }
}

/// Reads one record frame starting at `start`; on success the returned
/// position is the first byte after the frame.
pub fn decode_record(bytes: &[u8], start: usize) -> (r: Option<(Record, usize)>)
    requires
        start <= bytes@.len(),
    ensures
        match r {
            Some(p) => {
                &&& spec_decode_record(bytes@.skip(start as int)) == Some((p.0@, p.1 - start))
                &&& start < p.1 <= bytes@.len()
            },
            None => spec_decode_record(bytes@.skip(start as int)) is None,
        },
{
    let ghost rel = bytes@.skip(start as int);
    let (key, p1) = match decode_str_at(bytes, start) {
        None => {
            return None;
        },
        Some(p) => p,
    };
    proof {
        assert(rel.skip(p1 - start) =~= bytes@.skip(p1 as int));
    }
    let (creator, p2) = match decode_str_at(bytes, p1) {
        None => {
            return None;
        },
        Some(p) => p,
    };
    if bytes.len() - p2 < 6 {
        return None;
    }
    let ys = vstd::slice::slice_subrange(bytes, p2, p2 + 2);
    let year = u16_from_le_bytes(ys);
    let ts = vstd::slice::slice_subrange(bytes, p2 + 2, p2 + 6);
    let tag = u32_from_le_bytes(ts);
    proof {
        assert(rel.subrange(p2 - start, p2 - start + 2)
            =~= bytes@.subrange(p2 as int, p2 as int + 2));
        assert(rel.subrange(p2 - start + 2, p2 - start + 6)
            =~= bytes@.subrange(p2 as int + 2, p2 as int + 6));
    }
    let typing = if tag == 0 {
        Typing::Dynamic
    } else if tag == 1 {
        Typing::Static
    } else {
        return None;
    };
    Some((Record { key, value: LanguageInfo { creator, year, typing } }, p2 + 6))
}

} // verus!
