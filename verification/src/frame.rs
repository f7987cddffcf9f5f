//! The ingestion-side framing protocol: a 4-byte little-endian unsigned
//! length prefix followed by exactly that many payload bytes. The frame
//! length is carried only by the prefix, never inferred from the payload.

use vstd::prelude::*;

verus! {

/// The integer value of a 4-byte little-endian length prefix.
pub open spec fn le32_val(s: Seq<u8>) -> int {
    s[0] + 256 * (s[1] + 256 * (s[2] + 256 * s[3]))
}

/// The 4-byte little-endian encoding of a length.
pub open spec fn le32_bytes(n: int) -> Seq<u8> {
    seq![
        (n % 256) as u8,
        ((n / 256) % 256) as u8,
        ((n / 65536) % 256) as u8,
        ((n / 16777216) % 256) as u8,
    ]
}

/// Reads a length prefix from the first 4 bytes of `b`.
pub fn le32_decode(b: &[u8]) -> (n: u32)
    requires
        b@.len() >= 4,
    ensures
        n == le32_val(b@),
{
    let n0 = b[0] as u32;
    let n1 = b[1] as u32;
    let n2 = b[2] as u32;
    let n3 = b[3] as u32;
    n0 + 256 * n1 + 65536 * n2 + 16777216 * n3
}

/// Writes the 4-byte little-endian encoding of `n`.
pub fn le32_encode(n: u32) -> (b: Vec<u8>)
    ensures
        b@ == le32_bytes(n as int),
        b@.len() == 4,
{
    let mut b: Vec<u8> = Vec::new();
    b.push((n % 256) as u8);
    b.push(((n / 256) % 256) as u8);
    b.push(((n / 65536) % 256) as u8);
    b.push(((n / 16777216) % 256) as u8);
    proof {
        assert(b@ =~= le32_bytes(n as int));
    }
    b
}

/// A whole frame: the length prefix followed by the payload.
pub open spec fn frame_bytes(payload: Seq<u8>) -> Seq<u8> {
    le32_bytes(payload.len() as int) + payload
}

/// Builds the frame carrying `payload`.
pub fn encode_frame(payload: &Vec<u8>) -> (f: Vec<u8>)
    requires
        payload@.len() <= u32::MAX,
    ensures
        f@ == frame_bytes(payload@),
{
    let mut f = le32_encode(payload.len() as u32);
    let mut i: usize = 0;
    while i < payload.len()
        invariant
            i <= payload@.len(),
            f@ == le32_bytes(payload@.len() as int) + payload@.subrange(0, i as int),
        decreases payload@.len() - i,
    {
        f.push(payload[i]);
        proof {
            assert(f@ =~= le32_bytes(payload@.len() as int) + payload@.subrange(0, i + 1));
        }
        i = i + 1;
    }
    proof {
        assert(payload@.subrange(0, payload@.len() as int) =~= payload@);
    }
    f
}

/// Reading back a written length prefix gives the length.
pub proof fn lemma_le32_round_trip(n: int)
    requires
        0 <= n <= u32::MAX,
    ensures
        le32_bytes(n).len() == 4,
        le32_val(le32_bytes(n)) == n,
{
}

/// Idempotent framing: a frame's length is carried by the prefix alone,
/// never inferred from the payload — in particular a zero-byte payload
/// makes a valid 4-byte frame that parses back to the empty payload.
pub proof fn lemma_frame_round_trip(payload: Seq<u8>, rest: Seq<u8>)
    requires
        payload.len() <= u32::MAX,
    ensures
        frame_bytes(payload).len() == 4 + payload.len(),
        le32_val((frame_bytes(payload) + rest).subrange(0, 4)) == payload.len(),
        (frame_bytes(payload) + rest).subrange(4, 4 + payload.len() as int) == payload,
{
    lemma_le32_round_trip(payload.len() as int);
    assert((frame_bytes(payload) + rest).subrange(0, 4)
        =~= le32_bytes(payload.len() as int));
    assert((frame_bytes(payload) + rest).subrange(4, 4 + payload.len() as int) =~= payload);
}

/// The outcome of reading one frame from the front of a buffer.
pub enum FrameStep {
    /// A whole frame: its payload and the bytes the frame occupied.
    Frame { payload: Vec<u8>, used: usize },
    /// The buffer ends before the frame does. A frame must be fully
    /// available before any of it is interpreted.
    NeedMore,
}

/// Reads one length-prefixed frame from the front of `buf`.
pub fn parse_frame(buf: &Vec<u8>) -> (r: FrameStep)
    ensures
        ({
            let s = buf@;
            if s.len() >= 4 && s.len() - 4 >= le32_val(s.subrange(0, 4)) {
                r matches FrameStep::Frame { payload, used }
                    && payload@ == s.subrange(4, 4 + le32_val(s.subrange(0, 4)))
                    && used == 4 + le32_val(s.subrange(0, 4))
            } else {
                r is NeedMore
            }
        }),
{
    if buf.len() < 4 {
        return FrameStep::NeedMore;
    }
    let n = le32_decode(buf.as_slice());
    let avail = (buf.len() - 4) as u64;
    if avail < n as u64 {
        return FrameStep::NeedMore;
    }
    let len = n as usize;
    let payload = crate::decode::copy_range(buf, 4, len);
    FrameStep::Frame { payload, used: 4 + len }
}

} // verus!
