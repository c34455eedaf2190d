//! The record log of a table.
//!
//! The log is a sequence of frames. A frame is the length of its payload as
//! four little-endian bytes, followed by the payload: the encoding of one
//! row. Frames are only ever appended. Reading stops at the first place
//! where no complete frame follows.

use vstd::prelude::*;
use crate::db::codec::{
    decode_row, encode_columns, encode_row, le4_bytes, le4_value, lemma_le4_round_trip,
    lemma_row_round_trip, parse_row, read_le4, write_le4,
};
use crate::db::row::Row;
use crate::db::ValueModel;

verus! {

/// The frame that carries `payload`.
pub open spec fn frame(payload: Seq<u8>) -> Seq<u8> {
    le4_bytes(payload.len()) + payload
}

/// Reads one frame from the front of `s`: its payload and the number of
/// bytes that the frame takes.
pub open spec fn parse_frame(s: Seq<u8>) -> Option<(Seq<u8>, nat)> {
    if s.len() >= 4 && s.len() - 4 >= le4_value(s) {
        Some((s.subrange(4, 4 + le4_value(s) as int), 4 + le4_value(s)))
    } else {
        None
    }
}

/// The payloads of the complete frames of a log, in order.
pub open spec fn frames(log: Seq<u8>) -> Seq<Seq<u8>>
    decreases log.len(),
{
    match parse_frame(log) {
        Some((payload, used)) => seq![payload] + frames(log.skip(used as int)),
        None => Seq::empty(),
    }
}

/// True when the log is complete frames from its first byte to its last.
pub open spec fn whole(log: Seq<u8>) -> bool
    decreases log.len(),
{
    log.len() == 0 || match parse_frame(log) {
        Some((payload, used)) => whole(log.skip(used as int)),
        None => false,
    }
}

/// The records of a log: for each frame the row that its payload holds, or
/// `None` where the payload holds no row. The record at position `i` has
/// row id `i`.
pub open spec fn records(log: Seq<u8>) -> Seq<Option<Map<Seq<char>, ValueModel>>> {
    frames(log).map_values(|payload: Seq<u8>| parse_row(payload))
}

/// A frame followed by anything reads back as its payload.
pub proof fn lemma_frame_round_trip(payload: Seq<u8>, rest: Seq<u8>)
    requires
        payload.len() <= u32::MAX,
    ensures
        parse_frame(frame(payload) + rest) == Some((payload, frame(payload).len())),
        frame(payload).len() == 4 + payload.len(),
{
    let head = le4_bytes(payload.len());
    let s = frame(payload) + rest;
    assert(s =~= head + (payload + rest));
    lemma_le4_round_trip(payload.len(), payload + rest);
    assert(s.subrange(4, 4 + payload.len() as int) =~= payload);
}

/// Appending a frame to a log of complete frames adds exactly its payload
/// to the frames of the log.
pub proof fn lemma_frames_append(log: Seq<u8>, payload: Seq<u8>)
    requires
        whole(log),
        payload.len() <= u32::MAX,
    ensures
        frames(log + frame(payload)) == frames(log).push(payload),
        whole(log + frame(payload)),
    decreases log.len(),
{
    let f = frame(payload);
    lemma_frame_round_trip(payload, Seq::empty());
    if log.len() == 0 {
        assert(log + f =~= f + Seq::<u8>::empty());
        assert((log + f).skip(f.len() as int) =~= Seq::<u8>::empty());
        assert(frames(Seq::<u8>::empty()) =~= Seq::<Seq<u8>>::empty());
        assert(frames(log) =~= Seq::<Seq<u8>>::empty());
        assert(frames(log + f) =~= frames(log).push(payload));
        assert(parse_frame(log + f) == Some((payload, f.len())));
        assert(whole(Seq::<u8>::empty()));
        assert(whole(log + f));
    } else {
        let (p, used) = parse_frame(log)->0;
        let more = log + f;
        assert(le4_value(more) == le4_value(log));
        assert(more.subrange(4, used as int) =~= p);
        assert(parse_frame(more) == Some((p, used)));
        assert(more.skip(used as int) =~= log.skip(used as int) + f);
        lemma_frames_append(log.skip(used as int), payload);
        assert(frames(more) =~= frames(log).push(payload));
        assert(whole(more.skip(used as int)));
        assert(whole(more));
    }
}

/// Round trip: the log that holds the single frame of a well-formed row has
/// one record, and that record is the row.
pub proof fn lemma_frame_holds_row(row: Row)
    requires
        row.wf(),
        encode_columns(row.names(), row.cells()).len() <= u32::MAX,
    ensures
        records(frame(encode_columns(row.names(), row.cells()))) == seq![Some(row@)],
{
    let payload = encode_columns(row.names(), row.cells());
    assert(whole(Seq::<u8>::empty()));
    lemma_frames_append(Seq::empty(), payload);
    assert(Seq::<u8>::empty() + frame(payload) =~= frame(payload));
    assert(frames(Seq::<u8>::empty()) =~= Seq::<Seq<u8>>::empty());
    assert(frames(frame(payload)) =~= seq![payload]);
    lemma_row_round_trip(row, Seq::empty());
    assert(payload + Seq::<u8>::empty() =~= payload);
    assert(records(frame(payload)) =~= seq![Some(row@)]);
}

/// Appending the frame of a row to a log of complete frames adds one
/// record, the row, after the records that were there.
pub proof fn lemma_records_append(log: Seq<u8>, row: Row)
    requires
        whole(log),
        row.wf(),
        encode_columns(row.names(), row.cells()).len() <= u32::MAX,
    ensures
        records(log + frame(encode_columns(row.names(), row.cells()))) == records(log).push(
            Some(row@),
        ),
        whole(log + frame(encode_columns(row.names(), row.cells()))),
{
    let payload = encode_columns(row.names(), row.cells());
    lemma_frames_append(log, payload);
    lemma_row_round_trip(row, Seq::empty());
    assert(payload + Seq::<u8>::empty() =~= payload);
    assert(records(log + frame(payload)) =~= records(log).push(Some(row@)));
}

/// The frame of a row, ready to be appended to the log; `None` when the
/// encoded row is longer than a frame can announce.
pub fn encode_frame(row: &Row) -> (r: Option<Vec<u8>>)
    requires
        row.wf(),
    ensures
        match r {
            Some(bytes) => encode_columns(row.names(), row.cells()).len() <= u32::MAX && bytes@
                == frame(encode_columns(row.names(), row.cells())),
            None => encode_columns(row.names(), row.cells()).len() > u32::MAX,
        },
{
    let payload = encode_row(row);
    if payload.len() > u32::MAX as usize {
        return None;
    }
    let mut out: Vec<u8> = Vec::new();
    write_le4(&mut out, payload.len() as u32);
    let mut i: usize = 0;
    let ghost head = out@;
    while i < payload.len()
        invariant
            i <= payload.len(),
            out@ == head + payload@.take(i as int),
        decreases payload.len() - i,
    {
        out.push(payload[i]);
        i += 1;
        assert(out@ =~= head + payload@.take(i as int));
    }
    assert(payload@.take(i as int) =~= payload@);
    assert(out@ =~= frame(payload@));
    Some(out)
}

/// Finds the frame that starts at `pos`: where its payload starts and
/// where it ends. `None` when no complete frame starts there.
pub fn next_frame(log: &[u8], pos: usize) -> (r: Option<(usize, usize)>)
    requires
        pos <= log.len(),
    ensures
        match r {
            Some((start, end)) => start == pos + 4 && start <= end <= log.len() && parse_frame(
                log@.skip(pos as int),
            ) == Some((log@.subrange(start as int, end as int), (end - pos) as nat)),
            None => parse_frame(log@.skip(pos as int)) is None,
        },
{
    if log.len() - pos < 4 {
        return None;
    }
    let len = read_le4(log, pos) as usize;
    let start = pos + 4;
    if log.len() - start < len {
        return None;
    }
    let end = start + len;
    assert(log@.skip(pos as int).subrange(4, 4 + len) =~= log@.subrange(start as int, end as int));
    Some((start, end))
}

/// The number of complete frames in the log.
pub fn count_frames(log: &[u8]) -> (count: usize)
    ensures
        count == frames(log@).len(),
{
    let mut count: usize = 0;
    let mut pos: usize = 0;
    assert(log@.skip(0) =~= log@);
    loop
        invariant
            pos <= log.len(),
            count <= pos,
            frames(log@).len() == count + frames(log@.skip(pos as int)).len(),
        ensures
            count == frames(log@).len(),
        decreases log.len() - pos,
    {
        match next_frame(log, pos) {
            Some((start, end)) => {
                assert(log@.skip(pos as int).skip(end - pos) =~= log@.skip(end as int));
                count += 1;
                pos = end;
            },
            None => {
                break ;
            },
        }
    }
    count
}

/// The payload of each complete frame of the log, as the range of bytes
/// that it occupies.
pub fn frame_ranges(log: &[u8]) -> (ranges: Vec<(usize, usize)>)
    ensures
        ranges.len() == frames(log@).len(),
        forall|i: int|
            0 <= i < ranges.len() ==> (#[trigger] ranges[i]).0 <= ranges[i].1 <= log.len()
                && log@.subrange(ranges[i].0 as int, ranges[i].1 as int) == frames(log@)[i],
{
    let mut ranges: Vec<(usize, usize)> = Vec::new();
    let mut pos: usize = 0;
    let ghost mut done: Seq<Seq<u8>> = Seq::empty();
    assert(log@.skip(0) =~= log@);
    loop
        invariant
            pos <= log.len(),
            done.len() == ranges.len(),
            frames(log@) == done + frames(log@.skip(pos as int)),
            forall|i: int|
                0 <= i < ranges.len() ==> (#[trigger] ranges[i]).0 <= ranges[i].1 <= log.len()
                    && log@.subrange(ranges[i].0 as int, ranges[i].1 as int) == done[i],
        ensures
            done.len() == ranges.len(),
            frames(log@) == done,
            forall|i: int|
                0 <= i < ranges.len() ==> (#[trigger] ranges[i]).0 <= ranges[i].1 <= log.len()
                    && log@.subrange(ranges[i].0 as int, ranges[i].1 as int) == done[i],
        decreases log.len() - pos,
    {
        match next_frame(log, pos) {
            Some((start, end)) => {
                proof {
                    let payload = log@.subrange(start as int, end as int);
                    assert(log@.skip(pos as int).skip(end - pos) =~= log@.skip(end as int));
                    assert(done.push(payload) + frames(log@.skip(end as int)) =~= done + frames(
                        log@.skip(pos as int),
                    ));
                    done = done.push(payload);
                }
                ranges.push((start, end));
                pos = end;
            },
            None => {
                assert(done + frames(log@.skip(pos as int)) =~= done);
                break ;
            },
        }
    }
    ranges
}

/// The record held in the bytes `log[start..end]`.
pub fn read_record(log: &[u8], start: usize, end: usize) -> (r: Option<Row>)
    requires
        start <= end <= log.len(),
    ensures
        match r {
            Some(row) => row.wf() && parse_row(log@.subrange(start as int, end as int)) == Some(
                row@,
            ),
            None => parse_row(log@.subrange(start as int, end as int)) is None,
        },
{
    decode_row(vstd::slice::slice_subrange(log, start, end))
}

} // verus!
