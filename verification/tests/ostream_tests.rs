#![allow(clippy::approx_constant, clippy::excessive_precision)]

use sofab::{Error, OStream, ID_MAX};

fn encode<F: FnOnce(&mut OStream)>(f: F) -> Vec<u8> {
    let mut buf = [0u8; 128];
    let used = {
        let mut os = OStream::new(&mut buf);
        f(&mut os);
        os.bytes_used()
    };
    buf[..used].to_vec()
}

#[test]
fn id_min() {
    assert_eq!(encode(|os| os.write_unsigned(0, 0).unwrap()), [0x00, 0x00]);
}

#[test]
fn id_max() {
    assert_eq!(
        encode(|os| os.write_unsigned(ID_MAX, 0).unwrap()),
        [0xF8, 0xFF, 0xFF, 0xFF, 0x3F, 0x00]
    );
}

#[test]
fn id_overflow_is_argument_error() {
    let mut buf = [0u8; 16];
    let mut os = OStream::new(&mut buf);
    assert_eq!(os.write_unsigned(ID_MAX + 1, 0), Err(Error::Argument));
}

#[test]
fn write_unsigned_boundaries() {
    let cases: &[(u64, &[u8])] = &[
        (0, &[0x00, 0x00]),
        (127, &[0x00, 0x7F]),
        (128, &[0x00, 0x80, 0x01]),
        (0x3FFF, &[0x00, 0xFF, 0x7F]),
        (0x4000, &[0x00, 0x80, 0x80, 0x01]),
        (
            0x8000_0000_0000_0000,
            &[
                0x00, 0x80, 0x80, 0x80, 0x80, 0x80, 0x80, 0x80, 0x80, 0x80, 0x01,
            ],
        ),
        (
            u64::MAX,
            &[
                0x00, 0xFF, 0xFF, 0xFF, 0xFF, 0xFF, 0xFF, 0xFF, 0xFF, 0xFF, 0x01,
            ],
        ),
    ];
    for (value, expected) in cases {
        assert_eq!(
            encode(|os| os.write_unsigned(0, *value).unwrap()),
            *expected
        );
    }
}

#[test]
fn write_signed_min() {
    assert_eq!(
        encode(|os| os.write_signed(0, i64::MIN).unwrap()),
        [0x01, 0xFF, 0xFF, 0xFF, 0xFF, 0xFF, 0xFF, 0xFF, 0xFF, 0xFF, 0x01]
    );
}

#[test]
fn write_signed_max() {
    assert_eq!(
        encode(|os| os.write_signed(0, i64::MAX).unwrap()),
        [0x01, 0xFE, 0xFF, 0xFF, 0xFF, 0xFF, 0xFF, 0xFF, 0xFF, 0xFF, 0x01]
    );
}

#[test]
fn write_boolean() {
    assert_eq!(
        encode(|os| os.write_boolean(0, true).unwrap()),
        [0x00, 0x01]
    );
}

#[test]
fn write_fp32() {
    assert_eq!(
        encode(|os| os.write_fp32_bits(0, f32::to_bits(3.1415)).unwrap()),
        [0x02, 0x20, 0x56, 0x0E, 0x49, 0x40]
    );
}

#[test]
fn write_fp64() {
    assert_eq!(
        encode(|os| os.write_fp64_bits(0, f64::to_bits(3.14159265_f32 as f64)).unwrap()),
        [0x02, 0x41, 0x00, 0x00, 0x00, 0x60, 0xFB, 0x21, 0x09, 0x40]
    );
}

#[test]
fn write_string() {
    assert_eq!(
        encode(|os| os.write_str(0, "Hello Couch!").unwrap()),
        [0x02, 0x62, 0x48, 0x65, 0x6C, 0x6C, 0x6F, 0x20, 0x43, 0x6F, 0x75, 0x63, 0x68, 0x21]
    );
}

#[test]
fn write_string_empty() {
    assert_eq!(encode(|os| os.write_str(0, "").unwrap()), [0x02, 0x02]);
}

#[test]
fn write_blob() {
    assert_eq!(
        encode(|os| os.write_blob(0, &[0x01, 0x02, 0x03, 0x04, 0x05]).unwrap()),
        [0x02, 0x2B, 0x01, 0x02, 0x03, 0x04, 0x05]
    );
}

#[test]
fn write_blob_empty() {
    assert_eq!(encode(|os| os.write_blob(0, &[]).unwrap()), [0x02, 0x03]);
}

#[test]
fn write_array_of_u32() {
    let a: [u32; 5] = [1, 2, 3, 0x8000_0000, u32::MAX];
    assert_eq!(
        encode(|os| os.write_array_unsigned(0, &a).unwrap()),
        [
            0x03, 0x05, 0x01, 0x02, 0x03, 0x80, 0x80, 0x80, 0x80, 0x08, 0xFF, 0xFF, 0xFF, 0xFF,
            0x0F
        ]
    );
}

#[test]
fn write_array_of_i32() {
    let a: [i32; 5] = [-1, -2, -3, i32::MIN, i32::MAX];
    assert_eq!(
        encode(|os| os.write_array_signed(0, &a).unwrap()),
        [
            0x04, 0x05, 0x01, 0x03, 0x05, 0xFF, 0xFF, 0xFF, 0xFF, 0x0F, 0xFE, 0xFF, 0xFF, 0xFF,
            0x0F
        ]
    );
}

#[test]
fn write_array_of_i8() {
    let a: [i8; 5] = [-1, -2, -3, i8::MIN, i8::MAX];
    assert_eq!(
        encode(|os| os.write_array_signed(0, &a).unwrap()),
        [0x04, 0x05, 0x01, 0x03, 0x05, 0xFF, 0x01, 0xFE, 0x01]
    );
}

#[test]
fn write_array_of_u8() {
    let a: [u8; 5] = [1, 2, 3, 0, u8::MAX];
    assert_eq!(
        encode(|os| os.write_array_unsigned(0, &a).unwrap()),
        [0x03, 0x05, 0x01, 0x02, 0x03, 0x00, 0xFF, 0x01]
    );
}

#[test]
fn write_array_of_i16() {
    let a: [i16; 5] = [-1, -2, -3, i16::MIN, i16::MAX];
    assert_eq!(
        encode(|os| os.write_array_signed(0, &a).unwrap()),
        [0x04, 0x05, 0x01, 0x03, 0x05, 0xFF, 0xFF, 0x03, 0xFE, 0xFF, 0x03]
    );
}

#[test]
fn write_array_of_u16() {
    let a: [u16; 5] = [1, 2, 3, 0, u16::MAX];
    assert_eq!(
        encode(|os| os.write_array_unsigned(0, &a).unwrap()),
        [0x03, 0x05, 0x01, 0x02, 0x03, 0x00, 0xFF, 0xFF, 0x03]
    );
}

#[test]
fn write_array_of_i64() {
    let a: [i64; 5] = [-1, -2, -3, i64::MIN, i64::MAX];
    assert_eq!(
        encode(|os| os.write_array_signed(0, &a).unwrap()),
        [
            0x04, 0x05, 0x01, 0x03, 0x05, 0xFF, 0xFF, 0xFF, 0xFF, 0xFF, 0xFF, 0xFF, 0xFF, 0xFF,
            0x01, 0xFE, 0xFF, 0xFF, 0xFF, 0xFF, 0xFF, 0xFF, 0xFF, 0xFF, 0x01
        ]
    );
}

#[test]
fn write_array_of_u64() {
    let a: [u64; 5] = [1, 2, 3, 0, u64::MAX];
    assert_eq!(
        encode(|os| os.write_array_unsigned(0, &a).unwrap()),
        [
            0x03, 0x05, 0x01, 0x02, 0x03, 0x00, 0xFF, 0xFF, 0xFF, 0xFF, 0xFF, 0xFF, 0xFF, 0xFF,
            0xFF, 0x01
        ]
    );
}

#[test]
fn write_array_of_fp32() {
    let a: [f32; 5] = [1.0, 2.0, 3.0, -f32::MAX, f32::MAX];
    assert_eq!(
        encode(|os| os.write_array_fp32_bits(0, &bits32(&a)).unwrap()),
        [
            0x05, 0x05, 0x20, 0x00, 0x00, 0x80, 0x3F, 0x00, 0x00, 0x00, 0x40, 0x00, 0x00, 0x40,
            0x40, 0xFF, 0xFF, 0x7F, 0xFF, 0xFF, 0xFF, 0x7F, 0x7F
        ]
    );
}

#[test]
fn write_array_of_fp64() {
    let a: [f64; 5] = [1.0, 2.0, 3.0, -f64::MAX, f64::MAX];
    assert_eq!(
        encode(|os| os.write_array_fp64_bits(0, &bits64(&a)).unwrap()),
        [
            0x05, 0x05, 0x41, 0x00, 0x00, 0x00, 0x00, 0x00, 0x00, 0xF0, 0x3F, 0x00, 0x00, 0x00,
            0x00, 0x00, 0x00, 0x00, 0x40, 0x00, 0x00, 0x00, 0x00, 0x00, 0x00, 0x08, 0x40, 0xFF,
            0xFF, 0xFF, 0xFF, 0xFF, 0xFF, 0xEF, 0xFF, 0xFF, 0xFF, 0xFF, 0xFF, 0xFF, 0xFF, 0xEF,
            0x7F
        ]
    );
}

#[test]
fn write_nested_sequence() {
    let bytes = encode(|os| {
        os.write_unsigned(0, 42).unwrap();
        os.write_sequence_begin_lazy(1).unwrap();
        os.write_unsigned(0, 42).unwrap();
        os.write_signed(2, -42).unwrap();
        os.write_sequence_end().unwrap();
        os.write_signed(2, -42).unwrap();
    });
    assert_eq!(
        bytes,
        [0x00, 0x2A, 0x0E, 0x00, 0x2A, 0x11, 0x53, 0x07, 0x11, 0x53]
    );
}

#[test]
fn write_nested_sequence_with_array() {
    let bytes = encode(|os| {
        os.write_unsigned(0, 42).unwrap();
        os.write_sequence_begin_lazy(3).unwrap();
        os.write_unsigned(0, 42).unwrap();
        os.write_array_signed(3, &[-42_i32, -43, -44]).unwrap();
        os.write_sequence_end().unwrap();
        os.write_signed(2, -42).unwrap();
    });
    assert_eq!(
        bytes,
        [0x00, 0x2A, 0x1E, 0x00, 0x2A, 0x1C, 0x03, 0x53, 0x55, 0x57, 0x07, 0x11, 0x53]
    );
}

#[test]
fn lazy_sequence_without_content_emits_nothing() {
    let bytes = encode(|os| {
        os.write_sequence_begin_lazy(1).unwrap();
        os.write_sequence_end().unwrap();
    });
    assert!(bytes.is_empty(), "got {bytes:02x?}");
}

#[test]
fn end_keep_frames_a_contentless_sequence() {
    let bytes = encode(|os| {
        os.write_sequence_begin_lazy(1).unwrap();
        os.write_sequence_end_keep().unwrap();
    });
    assert_eq!(bytes, [0x0E, 0x07]);
}

#[test]
fn end_keep_commits_the_enclosing_run() {
    let bytes = encode(|os| {
        os.write_sequence_begin_lazy(1).unwrap();
        os.write_sequence_begin_lazy(2).unwrap();
        os.write_sequence_end_keep().unwrap();
        os.write_sequence_end().unwrap();
    });
    assert_eq!(bytes, [0x0E, 0x16, 0x07, 0x07]);
}

#[test]
fn end_keep_matches_end_once_content_exists() {
    let with_keep = encode(|os| {
        os.write_sequence_begin_lazy(1).unwrap();
        os.write_unsigned(0, 42).unwrap();
        os.write_sequence_end_keep().unwrap();
    });
    let with_end = encode(|os| {
        os.write_sequence_begin_lazy(1).unwrap();
        os.write_unsigned(0, 42).unwrap();
        os.write_sequence_end().unwrap();
    });
    assert_eq!(with_keep, [0x0E, 0x00, 0x2A, 0x07]);
    assert_eq!(with_keep, with_end);
}

#[test]
fn lazy_sequence_commits_the_whole_run_on_first_content() {
    let bytes = encode(|os| {
        os.write_sequence_begin_lazy(1).unwrap();
        os.write_sequence_begin_lazy(2).unwrap();
        os.write_unsigned(0, 42).unwrap();
        os.write_sequence_end().unwrap();
        os.write_sequence_end().unwrap();
    });
    assert_eq!(bytes, [0x0E, 0x16, 0x00, 0x2A, 0x07, 0x07]);
}

#[test]
fn lazy_sequence_drops_only_the_empty_inner_one() {
    let bytes = encode(|os| {
        os.write_sequence_begin_lazy(1).unwrap();
        os.write_sequence_begin_lazy(2).unwrap();
        os.write_sequence_end().unwrap();
        os.write_unsigned(0, 42).unwrap();
        os.write_sequence_end().unwrap();
    });
    assert_eq!(bytes, [0x0E, 0x00, 0x2A, 0x07]);
}

#[test]
fn lazy_sequence_after_content_is_independent() {
    let bytes = encode(|os| {
        os.write_unsigned(0, 1).unwrap();
        os.write_sequence_begin_lazy(1).unwrap();
        os.write_sequence_end().unwrap();
        os.write_unsigned(2, 3).unwrap();
    });
    assert_eq!(bytes, [0x00, 0x01, 0x10, 0x03]);
}

#[test]
fn a_committed_run_survives_a_flush_boundary() {
    fn writes<F: sofab::Flush>(os: &mut OStream<F>) {
        os.write_sequence_begin_lazy(1).unwrap();
        os.write_sequence_begin_lazy(2).unwrap();
        os.write_sequence_end().unwrap();
        os.write_unsigned(0, 42).unwrap();
        os.write_sequence_end().unwrap();
    }

    let mut out: Vec<u8> = Vec::new();
    let mut buf = [0u8; 3];
    {
        let mut os = sofab::OStream::with_flush(&mut buf, 0, |d: &[u8]| out.extend_from_slice(d)).unwrap();
        writes(&mut os);
        os.flush();
    }

    let one_shot = encode(writes);

    assert_eq!(out, one_shot);
    assert_eq!(out, [0x0E, 0x00, 0x2A, 0x07]);
}

#[test]
fn contentless_nesting_within_the_window_emits_nothing() {
    let bytes = encode(|os| {
        for _ in 0..sofab::LAZY_SEQ_DEPTH {
            os.write_sequence_begin_lazy(1).unwrap();
        }
        for _ in 0..sofab::LAZY_SEQ_DEPTH {
            os.write_sequence_end().unwrap();
        }
    });
    assert!(bytes.is_empty(), "got {bytes:02x?}");
}

#[test]
fn contentless_nesting_one_past_the_window_keeps_every_frame() {
    const DEPTH: usize = sofab::LAZY_SEQ_DEPTH + 1;
    let bytes = encode(|os| {
        for _ in 0..DEPTH {
            os.write_sequence_begin_lazy(1).unwrap();
        }
        for _ in 0..DEPTH {
            os.write_sequence_end().unwrap();
        }
    });
    let mut expected = vec![0x0E; DEPTH];
    expected.extend(std::iter::repeat(0x07).take(DEPTH));
    assert_eq!(bytes, expected);
}

#[test]
fn contentless_nesting_far_past_the_window_frames_all_but_the_last_run() {
    const DEPTH: usize = 40;
    let cycle = sofab::LAZY_SEQ_DEPTH + 1;
    let framed = DEPTH / cycle * cycle;
    let mut buf = [0u8; 256];
    let used = {
        let mut os = OStream::new(&mut buf);
        for _ in 0..DEPTH {
            os.write_sequence_begin_lazy(1).unwrap();
        }
        for _ in 0..DEPTH {
            os.write_sequence_end().unwrap();
        }
        os.bytes_used()
    };
    let bytes = buf[..used].to_vec();

    let mut expected = vec![0x0E; framed];
    expected.extend(std::iter::repeat(0x07).take(framed));
    assert_eq!(bytes, expected, "framed levels: {framed}");
}

#[test]
fn content_past_the_window_keeps_wire_order() {
    const DEPTH: usize = 40;
    let mut buf = [0u8; 256];
    let used = {
        let mut os = OStream::new(&mut buf);
        for _ in 0..DEPTH {
            os.write_sequence_begin_lazy(1).unwrap();
        }
        os.write_unsigned(0, 42).unwrap();
        for _ in 0..DEPTH {
            os.write_sequence_end().unwrap();
        }
        os.bytes_used()
    };
    let mut expected = vec![0x0E; DEPTH];
    expected.extend([0x00, 0x2A]);
    expected.extend(std::iter::repeat(0x07).take(DEPTH));
    assert_eq!(buf[..used], expected[..]);
}

#[test]
fn buffer_full_without_sink() {
    let mut buf = [0u8; 2];
    let mut os = OStream::new(&mut buf);
    assert_eq!(os.write_unsigned(0, u64::MAX), Err(Error::BufferFull));
}

#[test]
fn empty_unsigned_array_encodes_header_and_zero_count() {
    let empty: [u32; 0] = [];
    assert_eq!(
        encode(|os| os.write_array_unsigned(7, &empty).unwrap()),
        [0x3B, 0x00]
    );
}

#[test]
fn empty_signed_array_encodes_header_and_zero_count() {
    let empty: [i32; 0] = [];
    assert_eq!(
        encode(|os| os.write_array_signed(7, &empty).unwrap()),
        [0x3C, 0x00]
    );
}

#[test]
fn empty_fp32_array_carries_fixlen_word() {
    let empty: [f32; 0] = [];
    assert_eq!(
        encode(|os| os.write_array_fp32_bits(7, &bits32(&empty)).unwrap()),
        [0x3D, 0x00, 0x20]
    );
}

#[test]
fn empty_fp64_array_carries_fixlen_word() {
    let empty: [f64; 0] = [];
    assert_eq!(
        encode(|os| os.write_array_fp64_bits(7, &bits64(&empty)).unwrap()),
        [0x3D, 0x00, 0x41]
    );
}

#[test]
fn sequence_depth_over_max_is_argument_error() {
    let mut buf = [0u8; 512];
    let mut os = OStream::new(&mut buf);
    for _ in 0..255 {
        os.write_sequence_begin_lazy(0).unwrap();
    }
    assert_eq!(os.write_sequence_begin_lazy(0), Err(Error::Argument));
}

#[test]
fn closing_a_sequence_returns_the_depth_budget() {
    const MAX: u32 = sofab::MAX_DEPTH;
    let mut buf = [0u8; 4096];
    let mut os = OStream::new(&mut buf);

    for closer in 0..2 {
        for _ in 0..MAX {
            os.write_sequence_begin_lazy(1).unwrap();
        }
        assert_eq!(os.write_sequence_begin_lazy(1), Err(Error::Argument));
        for _ in 0..MAX {
            if closer == 0 {
                os.write_sequence_end().unwrap();
            } else {
                os.write_sequence_end_keep().unwrap();
            }
        }
        for _ in 0..MAX {
            os.write_sequence_begin_lazy(1).unwrap();
        }
        assert_eq!(os.write_sequence_begin_lazy(1), Err(Error::Argument));
        for _ in 0..MAX {
            os.write_sequence_end().unwrap();
        }
    }
}

#[test]
fn dropped_sequences_leak_neither_bytes_nor_depth() {
    let mut buf = [0u8; 512];
    let mut os = OStream::new(&mut buf);
    for _ in 0..(sofab::MAX_DEPTH * 4) {
        os.write_sequence_begin_lazy(1).unwrap();
        os.write_sequence_end().unwrap();
    }
    assert_eq!(os.bytes_used(), 0);
    for _ in 0..sofab::MAX_DEPTH {
        os.write_sequence_begin_lazy(1).unwrap();
    }
    assert_eq!(os.write_sequence_begin_lazy(1), Err(Error::Argument));
}

#[test]
fn flush_sink_streams_large_message() {
    let mut collected: Vec<u8> = Vec::new();
    let mut buf = [0u8; 4];
    {
        let mut os = OStream::with_flush(&mut buf, 0, |chunk: &[u8]| {
            collected.extend_from_slice(chunk);
        })
        .unwrap();
        for i in 0..10u32 {
            os.write_unsigned(i, i as u64).unwrap();
        }
        os.flush();
    }

    let reference = encode(|os| {
        for i in 0..10u32 {
            os.write_unsigned(i, i as u64).unwrap();
        }
    });
    assert_eq!(collected, reference);
}

// --- shared helpers: a recording visitor and raw-input builders -------------

/// One decoded event, recorded in order by [`Recorder`].
#[derive(Debug, Clone, PartialEq)]
enum Event {
    Unsigned(sofab::Id, sofab::Unsigned),
    Signed(sofab::Id, sofab::Signed),
    /// Float stored as raw bits so comparisons are exact (incl. NaN payloads).
    Fp32(sofab::Id, u32),
    Fp64(sofab::Id, u64),
    Str(sofab::Id, Vec<u8>),
    Blob(sofab::Id, Vec<u8>),
    ArrayBegin(sofab::Id, sofab::ArrayKind, usize),
    SequenceBegin(sofab::Id),
    SequenceEnd,
}

/// A visitor that records every decoded field as an [`Event`], reassembling
/// chunked string/blob payloads into whole buffers.
#[derive(Default)]
struct Recorder {
    events: Vec<Event>,
    pending: Option<(sofab::Id, bool, Vec<u8>)>,
}

impl Recorder {
    fn new() -> Self {
        Self::default()
    }

    fn accumulate(&mut self, id: sofab::Id, is_blob: bool, total: usize, offset: usize, chunk: &[u8]) {
        if offset == 0 {
            self.pending = Some((id, is_blob, Vec::with_capacity(total)));
        }
        let done = {
            let (_, _, buf) = self.pending.as_mut().expect("chunk without begin");
            buf.extend_from_slice(chunk);
            buf.len() == total
        };
        if done {
            let (pid, pblob, buf) = self.pending.take().unwrap();
            self.events.push(if pblob { Event::Blob(pid, buf) } else { Event::Str(pid, buf) });
        }
    }
}

impl sofab::Visitor for Recorder {
    fn unsigned(&mut self, id: sofab::Id, value: sofab::Unsigned) {
        self.events.push(Event::Unsigned(id, value));
    }
    fn signed(&mut self, id: sofab::Id, value: sofab::Signed) {
        self.events.push(Event::Signed(id, value));
    }
    fn fp32_bits(&mut self, id: sofab::Id, bits: u32) {
        self.events.push(Event::Fp32(id, bits));
    }
    fn fp64_bits(&mut self, id: sofab::Id, bits: u64) {
        self.events.push(Event::Fp64(id, bits));
    }
    fn string(&mut self, id: sofab::Id, total: usize, offset: usize, chunk: &[u8]) {
        self.accumulate(id, false, total, offset, chunk);
    }
    fn blob(&mut self, id: sofab::Id, total: usize, offset: usize, chunk: &[u8]) {
        self.accumulate(id, true, total, offset, chunk);
    }
    fn array_begin(&mut self, id: sofab::Id, kind: sofab::ArrayKind, count: usize) {
        self.events.push(Event::ArrayBegin(id, kind, count));
    }
    fn sequence_begin(&mut self, id: sofab::Id) {
        self.events.push(Event::SequenceBegin(id));
    }
    fn sequence_end(&mut self) {
        self.events.push(Event::SequenceEnd);
    }
}

/// Feed `bytes` in one shot; return the three-valued outcome *and* every
/// event the visitor saw.
fn feed(bytes: &[u8]) -> (Result<(), sofab::Error>, Vec<Event>) {
    let mut rec = Recorder::new();
    let mut is = sofab::IStream::new();
    let outcome = is.feed(bytes, &mut rec);
    (outcome, rec.events)
}

/// Decode `bytes` in one shot and return the recorded events, insisting the
/// outcome is complete.
fn decode(bytes: &[u8]) -> Vec<Event> {
    let (outcome, events) = feed(bytes);
    outcome.expect("decode failed");
    events
}

/// Decode `bytes` one byte per `feed` call and return the recorded events.
fn decode_one_byte_at_a_time(bytes: &[u8]) -> Vec<Event> {
    let mut rec = Recorder::new();
    let mut is = sofab::IStream::new();
    for &b in bytes {
        match is.feed(&[b], &mut rec) {
            Ok(()) | Err(sofab::Error::Incomplete) => {}
            Err(e) => panic!("chunked decode: {e:?}"),
        }
    }
    rec.events
}

/// Read a lowercase hex string.
fn hex_to_bytes(hex: &str) -> Vec<u8> {
    assert!(hex.len() % 2 == 0, "odd hex length");
    (0..hex.len())
        .step_by(2)
        .map(|i| u8::from_str_radix(&hex[i..i + 2], 16).expect("hex byte"))
        .collect()
}

/// Append a base-128 varint of `value` to `out` (for crafting raw test inputs).
fn push_varint(out: &mut Vec<u8>, mut value: u64) {
    loop {
        let mut b = (value as u8) & 0x7F;
        value >>= 7;
        if value != 0 {
            b |= 0x80;
        }
        out.push(b);
        if value == 0 {
            break;
        }
    }
}

/// The bit patterns of `a`, as the encoder's `fp32` array writer takes them.
fn bits32(a: &[f32]) -> Vec<u32> {
    a.iter().map(|x| x.to_bits()).collect()
}

/// The bit patterns of `a`, as the encoder's `fp64` array writer takes them.
fn bits64(a: &[f64]) -> Vec<u64> {
    a.iter().map(|x| x.to_bits()).collect()
}
