use stream_log::decode::{decode_record, DecodeStep};
use stream_log::encode::encode_record;
use stream_log::frame::{encode_frame, le32_decode, le32_encode, parse_frame, FrameStep};
use stream_log::ingest::{ack_value, initial_offset, IngestError, StartMode};
use stream_log::stream::StreamDecoder;
use stream_log::value::StructuredValue;

fn bytes(s: &str) -> Vec<u8> {
    s.as_bytes().to_vec()
}

fn sample_value() -> StructuredValue {
    StructuredValue::Dict(vec![
        (bytes("a"), StructuredValue::Uint(7)),
        (
            bytes("b"),
            StructuredValue::Arr(vec![
                StructuredValue::Null,
                StructuredValue::Bool(true),
                StructuredValue::Sint(-5),
                StructuredValue::Float(1.5f64.to_bits()),
                StructuredValue::Str(bytes("hello")),
            ]),
        ),
    ])
}

fn expect_complete(buf: &Vec<u8>) -> (StructuredValue, usize) {
    match decode_record(buf, 0) {
        DecodeStep::Complete { value, used } => (value, used),
        DecodeStep::NeedMore => panic!("expected a complete record, got NeedMore"),
        DecodeStep::Corrupt => panic!("expected a complete record, got Corrupt"),
    }
}

fn json_of(v: &StructuredValue) -> serde_json::Value {
    match v {
        StructuredValue::Null => serde_json::Value::Null,
        StructuredValue::Bool(b) => serde_json::Value::Bool(*b),
        StructuredValue::Uint(n) => serde_json::Value::from(*n),
        StructuredValue::Sint(n) => serde_json::Value::from(*n),
        StructuredValue::Float(bits) => serde_json::Value::from(f64::from_bits(*bits)),
        StructuredValue::Str(s) => {
            serde_json::Value::String(String::from_utf8(s.clone()).unwrap())
        }
        StructuredValue::Arr(elems) => {
            serde_json::Value::Array(elems.iter().map(json_of).collect())
        }
        StructuredValue::Dict(entries) => {
            let mut m = serde_json::Map::new();
            for (k, v) in entries {
                m.insert(String::from_utf8(k.clone()).unwrap(), json_of(v));
            }
            serde_json::Value::Object(m)
        }
    }
}

#[test]
fn round_trip_single_record() {
    let v = sample_value();
    let enc = encode_record(&v);
    let (decoded, used) = expect_complete(&enc);
    assert_eq!(used, enc.len());
    assert_eq!(decoded, v);
}

#[test]
fn round_trip_integer_widths() {
    let ints: Vec<StructuredValue> = vec![
        StructuredValue::Uint(0),
        StructuredValue::Uint(127),
        StructuredValue::Uint(128),
        StructuredValue::Uint(255),
        StructuredValue::Uint(256),
        StructuredValue::Uint(65535),
        StructuredValue::Uint(65536),
        StructuredValue::Uint(4294967295),
        StructuredValue::Uint(4294967296),
        StructuredValue::Uint(u64::MAX),
        StructuredValue::Sint(-1),
        StructuredValue::Sint(-32),
        StructuredValue::Sint(-33),
        StructuredValue::Sint(-128),
        StructuredValue::Sint(-129),
        StructuredValue::Sint(-32768),
        StructuredValue::Sint(-32769),
        StructuredValue::Sint(-2147483648),
        StructuredValue::Sint(-2147483649),
        StructuredValue::Sint(i64::MIN),
    ];
    for v in &ints {
        let enc = encode_record(v);
        let (decoded, used) = expect_complete(&enc);
        assert_eq!(used, enc.len());
        assert_eq!(&decoded, v);
    }
}

#[test]
fn encoding_matches_msgpack_library() {
    let cases: Vec<StructuredValue> = vec![
        sample_value(),
        StructuredValue::Uint(65536),
        StructuredValue::Sint(-12345),
        StructuredValue::Str(bytes("a longer string that needs a one-byte length header")),
        StructuredValue::Float(std::f64::consts::PI.to_bits()),
        StructuredValue::Arr((0..20).map(StructuredValue::Uint).collect()),
        StructuredValue::Str(vec![b'x'; 300]),
        StructuredValue::Str(vec![b'y'; 70000]),
        StructuredValue::Dict(
            (0..20)
                .map(|i| (format!("key{i:02}").into_bytes(), StructuredValue::Uint(i)))
                .collect(),
        ),
        StructuredValue::Uint(u64::MAX),
        StructuredValue::Sint(i64::MIN),
        StructuredValue::Sint(-33),
    ];
    for v in &cases {
        let ours = encode_record(v);
        let theirs = rmp_serde::to_vec(&json_of(v)).unwrap();
        assert_eq!(ours, theirs, "wire bytes differ for {:?}", v);
    }
}

#[test]
fn msgpack_library_reads_our_records() {
    let v = sample_value();
    let enc = encode_record(&v);
    let back: serde_json::Value = rmp_serde::from_slice(&enc).unwrap();
    assert_eq!(back, json_of(&v));
}

#[test]
fn we_read_msgpack_library_records() {
    let v = sample_value();
    let theirs = rmp_serde::to_vec(&json_of(&v)).unwrap();
    let (decoded, used) = expect_complete(&theirs);
    assert_eq!(used, theirs.len());
    assert_eq!(decoded, v);
}

fn drain_in_chunks(log: &[u8], chunk: usize) -> (Vec<StructuredValue>, Vec<u64>) {
    let mut dec = StreamDecoder::new(0);
    let mut vals = Vec::new();
    let mut diags = Vec::new();
    let mut i = 0;
    while i < log.len() {
        let end = (i + chunk).min(log.len());
        dec.feed(&log[i..end].to_vec());
        let (vs, ds) = dec.drain();
        vals.extend(vs);
        diags.extend(ds);
        i = end;
    }
    (vals, diags)
}

#[test]
fn concatenation_order_and_chunking() {
    let vs = vec![
        StructuredValue::Uint(1),
        sample_value(),
        StructuredValue::Str(bytes("third")),
    ];
    let mut log: Vec<u8> = Vec::new();
    for v in &vs {
        log.extend(encode_record(v));
    }
    let (all_at_once, d0) = drain_in_chunks(&log, log.len());
    let (by_seven, d7) = drain_in_chunks(&log, 7);
    let (by_one, d1) = drain_in_chunks(&log, 1);
    assert_eq!(all_at_once, vs);
    assert_eq!(by_seven, vs);
    assert_eq!(by_one, vs);
    assert!(d0.is_empty() && d7.is_empty() && d1.is_empty());
}

#[test]
fn partial_write_then_completion() {
    let v = sample_value();
    let enc = encode_record(&v);
    let split = enc.len() - 2;
    let mut dec = StreamDecoder::new(0);
    dec.feed(&enc[..split].to_vec());
    let (vals, diags) = dec.drain();
    assert!(vals.is_empty(), "no value may be emitted from a truncated record");
    assert!(diags.is_empty(), "a truncated record is not corruption");
    assert_eq!(dec.buffered_len(), split);
    dec.feed(&enc[split..].to_vec());
    let (vals, diags) = dec.drain();
    assert_eq!(vals, vec![v]);
    assert!(diags.is_empty());
    assert_eq!(dec.buffered_len(), 0);
}

#[test]
fn corruption_resynchronization() {
    let v1 = StructuredValue::Uint(42);
    let v2 = StructuredValue::Str(bytes("after"));
    let e1 = encode_record(&v1);
    let garbage = vec![0xc1u8, 0xc1, 0xc1];
    let mut log = e1.clone();
    log.extend(&garbage);
    log.extend(encode_record(&v2));
    let mut dec = StreamDecoder::new(0);
    dec.feed(&log);
    let (vals, diags) = dec.drain();
    assert_eq!(vals, vec![v1, v2]);
    assert_eq!(diags.len(), garbage.len());
    for (i, off) in diags.iter().enumerate() {
        assert_eq!(*off as usize, e1.len() + i);
    }
}

#[test]
fn zero_length_frame_is_valid() {
    let empty: Vec<u8> = Vec::new();
    let f = encode_frame(&empty);
    assert_eq!(f, vec![0u8, 0, 0, 0]);
    match parse_frame(&f) {
        FrameStep::Frame { payload, used } => {
            assert!(payload.is_empty());
            assert_eq!(used, 4);
        }
        FrameStep::NeedMore => panic!("a zero-length frame is complete at 4 bytes"),
    }
}

#[test]
fn frame_length_comes_from_prefix_only() {
    let payload = vec![0xffu8, 0x03, 0x00];
    let f = encode_frame(&payload);
    assert_eq!(&f[..4], &[3u8, 0, 0, 0]);
    assert_eq!(&f[4..], &payload[..]);
    match parse_frame(&f) {
        FrameStep::Frame { payload: p, used } => {
            assert_eq!(p, payload);
            assert_eq!(used, f.len());
        }
        FrameStep::NeedMore => panic!("frame is complete"),
    }
    let mut truncated = f.clone();
    truncated.pop();
    assert!(matches!(parse_frame(&truncated), FrameStep::NeedMore));
}

#[test]
fn le32_exact_bytes() {
    assert_eq!(le32_encode(0x01020304), vec![0x04u8, 0x03, 0x02, 0x01]);
    assert_eq!(le32_decode(&[0x04, 0x03, 0x02, 0x01]), 0x01020304);
    assert_eq!(le32_encode(0), vec![0u8, 0, 0, 0]);
    assert_eq!(le32_decode(&[0xff, 0xff, 0xff, 0xff]), u32::MAX);
}

#[test]
fn bounded_memory_after_drain() {
    let v1 = StructuredValue::Uint(9);
    let v2 = sample_value();
    let e1 = encode_record(&v1);
    let e2 = encode_record(&v2);
    let half = e2.len() / 2;
    let mut dec = StreamDecoder::new(0);
    let mut fed = e1.clone();
    fed.extend(&e2[..half]);
    dec.feed(&fed);
    let (vals, _) = dec.drain();
    assert_eq!(vals, vec![v1]);
    // the buffer retains exactly the undecoded trailing bytes
    assert_eq!(dec.buffered_len(), half);
    assert_eq!(dec.read_offset() as usize, fed.len());
    dec.feed(&e2[half..].to_vec());
    let (vals, _) = dec.drain();
    assert_eq!(vals, vec![v2]);
    assert_eq!(dec.buffered_len(), 0);
}

#[test]
fn truncated_scalars_need_more() {
    assert!(matches!(decode_record(&vec![], 0), DecodeStep::NeedMore));
    assert!(matches!(decode_record(&vec![0xcc], 0), DecodeStep::NeedMore));
    assert!(matches!(decode_record(&vec![0xcb, 1, 2, 3], 0), DecodeStep::NeedMore));
    assert!(matches!(decode_record(&vec![0xd9, 5, b'a'], 0), DecodeStep::NeedMore));
    assert!(matches!(decode_record(&vec![0x92, 0xc0], 0), DecodeStep::NeedMore));
}

#[test]
fn invalid_markers_are_corrupt() {
    assert!(matches!(decode_record(&vec![0xc1], 0), DecodeStep::Corrupt));
    // raw binary and extension markers are not part of this log format
    assert!(matches!(decode_record(&vec![0xc4, 1, 0], 0), DecodeStep::Corrupt));
    assert!(matches!(decode_record(&vec![0xd4, 0, 0], 0), DecodeStep::Corrupt));
    // a map whose key is not a string is corrupt
    assert!(matches!(decode_record(&vec![0x81, 0x01, 0xc0], 0), DecodeStep::Corrupt));
}

#[test]
fn ack_value_shape() {
    let ack = ack_value(1234);
    let enc = encode_record(&ack);
    let back: serde_json::Value = rmp_serde::from_slice(&enc).unwrap();
    let mut expected = serde_json::Map::new();
    expected.insert("ok".to_string(), serde_json::Value::Bool(true));
    expected.insert("size".to_string(), serde_json::Value::from(1234u64));
    assert_eq!(back, serde_json::Value::Object(expected));
}

#[test]
fn start_mode_offsets() {
    assert_eq!(initial_offset(StartMode::FromBeginning, 9999), 0);
    assert_eq!(initial_offset(StartMode::FromEnd, 9999), 9999);
}

#[test]
fn ingest_error_variants_are_distinct() {
    assert_ne!(IngestError::MalformedFrame, IngestError::PayloadDecodeError);
    assert_ne!(IngestError::PayloadDecodeError, IngestError::LogWriteError);
}

#[test]
fn tail_only_sees_new_records() {
    // a decoder started at the current end of the log never replays it
    let old = encode_record(&StructuredValue::Uint(1));
    let newer = StructuredValue::Uint(2);
    let e2 = encode_record(&newer);
    let start = initial_offset(StartMode::FromEnd, old.len() as u64);
    let mut dec = StreamDecoder::new(start);
    assert_eq!(dec.read_offset(), old.len() as u64);
    dec.feed(&e2);
    let (vals, _) = dec.drain();
    assert_eq!(vals, vec![newer]);
}
