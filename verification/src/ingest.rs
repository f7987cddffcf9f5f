//! The ingestion side's decisions: the error taxonomy of the frame
//! reader, the acknowledgment value sent back after a successful append,
//! and the reader's configurable start position.

use vstd::prelude::*;

use crate::value::SpecVal;
use crate::value::StructuredValue;
use crate::value::encodable;
use crate::value::view_of;
use crate::value::view_of_entries;

verus! {

/// What can go wrong while ingesting frames and appending records.
#[derive(Debug, PartialEq, Eq)]
pub enum IngestError {
    /// The channel closed after part of a frame was read: fatal for the
    /// channel. A close before any byte of a new frame is a clean
    /// shutdown, not an error.
    MalformedFrame,
    /// A complete frame's payload does not decode to a structured value:
    /// the frame boundary is known, so only this message is lost.
    PayloadDecodeError,
    /// The append to the log file failed: fatal, surfaced to the
    /// operator, never retried silently.
    LogWriteError,
}

/// Where a reader begins in the log.
#[derive(Debug, PartialEq, Eq, Clone, Copy)]
pub enum StartMode {
    /// Replay the whole log from byte zero.
    FromBeginning,
    /// Tail only records appended from now on.
    FromEnd,
}

/// The offset a reader's cursor starts at under `mode`, for a log
/// currently `file_len` bytes long.
pub open spec fn spec_initial_offset(mode: StartMode, file_len: u64) -> u64 {
    match mode {
        StartMode::FromBeginning => 0,
        StartMode::FromEnd => file_len,
    }
}

/// Picks the first read offset: byte zero to replay the log, or the
/// current end of file to tail only new records.
pub fn initial_offset(mode: StartMode, file_len: u64) -> (r: u64)
    ensures
        r == spec_initial_offset(mode, file_len),
{
    match mode {
        StartMode::FromBeginning => 0,
        StartMode::FromEnd => file_len,
    }
}

/// The model of the acknowledgment for a record of `size` bytes:
/// a map `{ok: true, size: size}`.
pub open spec fn ack_model(size: u64) -> SpecVal {
    SpecVal::Dict(
        seq![
            (seq![111u8, 107u8], SpecVal::Bool(true)),
            (seq![115u8, 105u8, 122u8, 101u8], SpecVal::Int(size as int)),
        ],
    )
}

/// Builds the acknowledgment value `{ok: true, size: size}` reported
/// after a record of `size` bytes was appended.
pub fn ack_value(size: u64) -> (v: StructuredValue)
    ensures
        view_of(v) == ack_model(size),
        encodable(view_of(v)),
{
    // "ok"
    let mut ok_key: Vec<u8> = Vec::new();
    ok_key.push(111);
    ok_key.push(107);
    // "size"
    let mut size_key: Vec<u8> = Vec::new();
    size_key.push(115);
    size_key.push(105);
    size_key.push(122);
    size_key.push(101);
    let mut entries: Vec<(Vec<u8>, StructuredValue)> = Vec::new();
    entries.push((ok_key, StructuredValue::Bool(true)));
    entries.push((size_key, StructuredValue::Uint(size)));
    let v = StructuredValue::Dict(entries);
    proof {
        reveal_with_fuel(view_of_entries, 4);
        assert(entries@.drop_first() =~= seq![entries@[1]]);
        assert(entries@.drop_first().drop_first()
            =~= Seq::<(Vec<u8>, StructuredValue)>::empty());
        assert(ok_key@ =~= seq![111u8, 107u8]);
        assert(size_key@ =~= seq![115u8, 105u8, 122u8, 101u8]);
        assert(view_of_entries(entries@) =~= ack_model(size)->Dict_0);
        assert(view_of(v) == ack_model(size));
        let es = ack_model(size)->Dict_0;
        assert forall|i: int| 0 <= i < es.len()
            implies (#[trigger] es[i]).0.len() <= 0xffff_ffff && encodable(es[i].1) by {
            reveal_with_fuel(encodable, 2);
            if i == 0 {
                assert(es[0].0.len() == 2);
            } else {
                assert(es[1].0.len() == 4);
            }
        }
        assert(encodable(ack_model(size)));
    }
    v
}

} // verus!
