#![allow(clippy::approx_constant, clippy::excessive_precision)]
use sofab::{ArrayKind, Error, IStream, Unsigned};

#[test]
fn decode_unsigned() {
    assert_eq!(decode(&[0x00, 0x80, 0x01]), [Event::Unsigned(0, 128)]);
    assert_eq!(
        decode(&[0xF8, 0xFF, 0xFF, 0xFF, 0x3F, 0x00]),
        [Event::Unsigned(sofab::ID_MAX, 0)]
    );
    assert_eq!(
        decode(&[0x00, 0xFF, 0xFF, 0xFF, 0xFF, 0xFF, 0xFF, 0xFF, 0xFF, 0xFF, 0x01]),
        [Event::Unsigned(0, u64::MAX)]
    );
}

#[test]
fn decode_signed() {
    assert_eq!(
        decode(&[0x01, 0xFF, 0xFF, 0xFF, 0xFF, 0xFF, 0xFF, 0xFF, 0xFF, 0xFF, 0x01]),
        [Event::Signed(0, i64::MIN)]
    );
    assert_eq!(
        decode(&[0x01, 0xFE, 0xFF, 0xFF, 0xFF, 0xFF, 0xFF, 0xFF, 0xFF, 0xFF, 0x01]),
        [Event::Signed(0, i64::MAX)]
    );
}

#[test]
fn decode_fp32() {
    assert_eq!(
        decode(&[0x02, 0x20, 0x56, 0x0E, 0x49, 0x40]),
        [Event::Fp32(0, 3.1415_f32.to_bits())]
    );
}

#[test]
fn decode_fp64() {
    assert_eq!(
        decode(&[0x02, 0x41, 0x00, 0x00, 0x00, 0x60, 0xFB, 0x21, 0x09, 0x40]),
        [Event::Fp64(0, (3.14159265_f32 as f64).to_bits())]
    );
}

#[test]
fn decode_string() {
    assert_eq!(
        decode(&[
            0x02, 0x62, 0x48, 0x65, 0x6C, 0x6C, 0x6F, 0x20, 0x43, 0x6F, 0x75, 0x63, 0x68, 0x21
        ]),
        [Event::Str(0, b"Hello Couch!".to_vec())]
    );
}

#[test]
fn decode_string_empty() {
    assert_eq!(decode(&[0x02, 0x02]), [Event::Str(0, vec![])]);
}

#[test]
fn decode_blob() {
    assert_eq!(
        decode(&[0x02, 0x2B, 0x01, 0x02, 0x03, 0x04, 0x05]),
        [Event::Blob(0, vec![1, 2, 3, 4, 5])]
    );
}

#[test]
fn decode_blob_empty() {
    assert_eq!(decode(&[0x02, 0x03]), [Event::Blob(0, vec![])]);
}

#[test]
fn decode_array_of_u32() {
    let bytes = [
        0x03, 0x05, 0x01, 0x02, 0x03, 0x80, 0x80, 0x80, 0x80, 0x08, 0xFF, 0xFF, 0xFF, 0xFF, 0x0F,
    ];
    assert_eq!(
        decode(&bytes),
        [
            Event::ArrayBegin(0, ArrayKind::Unsigned, 5),
            Event::Unsigned(0, 1),
            Event::Unsigned(0, 2),
            Event::Unsigned(0, 3),
            Event::Unsigned(0, 0x8000_0000),
            Event::Unsigned(0, u32::MAX as u64),
        ]
    );
}

#[test]
fn decode_array_of_i32() {
    let bytes = [
        0x04, 0x05, 0x01, 0x03, 0x05, 0xFF, 0xFF, 0xFF, 0xFF, 0x0F, 0xFE, 0xFF, 0xFF, 0xFF, 0x0F,
    ];
    assert_eq!(
        decode(&bytes),
        [
            Event::ArrayBegin(0, ArrayKind::Signed, 5),
            Event::Signed(0, -1),
            Event::Signed(0, -2),
            Event::Signed(0, -3),
            Event::Signed(0, i32::MIN as i64),
            Event::Signed(0, i32::MAX as i64),
        ]
    );
}

#[test]
fn decode_array_of_fp32() {
    let bytes = [
        0x05, 0x05, 0x20, 0x00, 0x00, 0x80, 0x3F, 0x00, 0x00, 0x00, 0x40, 0x00, 0x00, 0x40, 0x40,
        0xFF, 0xFF, 0x7F, 0xFF, 0xFF, 0xFF, 0x7F, 0x7F,
    ];
    let want = [1.0_f32, 2.0, 3.0, -f32::MAX, f32::MAX];
    let mut expected = vec![Event::ArrayBegin(0, ArrayKind::Fp32, 5)];
    expected.extend(want.iter().map(|f| Event::Fp32(0, f.to_bits())));
    assert_eq!(decode(&bytes), expected);
}

#[test]
fn decode_nested_sequence() {
    let bytes = [0x00, 0x2A, 0x0E, 0x00, 0x2A, 0x11, 0x53, 0x07, 0x11, 0x53];
    assert_eq!(
        decode(&bytes),
        [
            Event::Unsigned(0, 42),
            Event::SequenceBegin(1),
            Event::Unsigned(0, 42),
            Event::Signed(2, -42),
            Event::SequenceEnd,
            Event::Signed(2, -42),
        ]
    );
}

#[test]
fn streaming_chunked_feed_matches_oneshot() {
    let msg = [
        0x00, 0x80, 0x01,
        0x02, 0x62,
        0x48, 0x65, 0x6C, 0x6C, 0x6F, 0x20, 0x43, 0x6F, 0x75, 0x63, 0x68,
        0x21,
    ];
    let oneshot = decode(&msg);

    let mut rec = Recorder::new();
    let mut is = IStream::new();
    let mut last = Ok(());
    for b in msg {
        last = is.feed(&[b], &mut rec);
        assert!(matches!(last, Ok(()) | Err(Error::Incomplete)));
    }
    assert_eq!(last, Ok(()));
    assert_eq!(rec.events, oneshot);

    let mut rec2 = Recorder::new();
    let mut is2 = IStream::new();
    let mut last2 = Ok(());
    for chunk in msg.chunks(3) {
        last2 = is2.feed(chunk, &mut rec2);
        assert!(matches!(last2, Ok(()) | Err(Error::Incomplete)));
    }
    assert_eq!(last2, Ok(()));
    assert_eq!(rec2.events, oneshot);
}

#[test]
fn decode_empty_unsigned_array() {
    assert_eq!(
        decode(&[0x03, 0x00]),
        [Event::ArrayBegin(0, ArrayKind::Unsigned, 0)]
    );
}

#[test]
fn decode_empty_signed_array() {
    assert_eq!(
        decode(&[0x04, 0x00]),
        [Event::ArrayBegin(0, ArrayKind::Signed, 0)]
    );
}

#[test]
fn decode_empty_fixlen_array_reads_word() {
    assert_eq!(
        decode(&[0x05, 0x00, 0x20, 0x00, 0x2A]),
        [
            Event::ArrayBegin(0, ArrayKind::Fp32, 0),
            Event::Unsigned(0, 42),
        ]
    );
}

#[test]
fn nesting_at_max_depth_is_accepted() {
    let starts = [0x06u8; 255];
    let mut rec = Recorder::new();
    let mut is = IStream::new();
    assert_eq!(is.feed(&starts, &mut rec), Err(Error::Incomplete));
}

#[test]
fn nesting_past_max_depth_is_invalid() {
    let starts = [0x06u8; 256];
    let mut rec = Recorder::new();
    let mut is = IStream::new();
    assert_eq!(is.feed(&starts, &mut rec), Err(Error::InvalidMsg));
}

#[test]
fn varint_overflow_is_invalid() {
    let bytes = [
        0x00, 0x80, 0x80, 0x80, 0x80, 0x80, 0x80, 0x80, 0x80, 0x80, 0x80, 0x80,
    ];
    let mut rec = Recorder::new();
    let mut is = IStream::new();
    assert_eq!(is.feed(&bytes, &mut rec), Err(Error::InvalidMsg));
}

#[test]
fn overlong_varint_final_high_bits_is_invalid() {
    for terminator in [0x02u8, 0x7f] {
        let bytes = [
            0x30, 0xff, 0xff, 0xff, 0xff, 0xff, 0xff, 0xff, 0xff, 0xff, terminator,
        ];
        let mut rec = Recorder::new();
        let mut is = IStream::new();
        assert_eq!(
            is.feed(&bytes, &mut rec),
            Err(Error::InvalidMsg),
            "overlong varint terminator {terminator:#04x} must be INVALID",
        );
    }
}

#[test]
fn max_u64_varint_is_accepted() {
    let bytes = [
        0x30, 0xff, 0xff, 0xff, 0xff, 0xff, 0xff, 0xff, 0xff, 0xff, 0x01,
    ];
    let mut rec = Recorder::new();
    let mut is = IStream::new();
    assert_eq!(is.feed(&bytes, &mut rec), Ok(()));
    assert_eq!(rec.events, [Event::Unsigned(6, u64::MAX)]);
}

#[test]
fn last_varint_byte_accepts_exactly_the_bits_that_fit() {
    let width = Unsigned::BITS;
    let groups = width / 7;
    let carried = groups * 7;
    let room = width - carried;

    for terminator in 0u16..=0xFF {
        let terminator = terminator as u8;
        let mut bytes = vec![0x30];
        bytes.extend(std::iter::repeat(0xFFu8).take(groups as usize));
        bytes.push(terminator);

        let mut rec = Recorder::new();
        let mut is = IStream::new();
        let outcome = is.feed(&bytes, &mut rec);

        if terminator & 0x80 == 0 && u32::from(terminator) >> room == 0 {
            let expected = (!(0 as Unsigned) >> room) | ((terminator as Unsigned) << carried);
            assert_eq!(
                outcome,
                Ok(()),
                "terminator {terminator:#04x} fits in {width} bits and must decode",
            );
            assert_eq!(rec.events, [Event::Unsigned(6, expected)]);
        } else {
            assert_eq!(
                outcome,
                Err(Error::InvalidMsg),
                "terminator {terminator:#04x} overruns {width} bits and must be INVALID",
            );
        }
    }
}

#[test]
fn dangling_sequence_end_is_invalid() {
    let mut rec = Recorder::new();
    let mut is = IStream::new();
    assert_eq!(is.feed(&[0x07], &mut rec), Err(Error::InvalidMsg));
}

#[test]
fn id_above_max_is_invalid() {
    let header = (sofab::ID_MAX as u64 + 1) << 3;
    let mut bytes = Vec::new();
    push_varint(&mut bytes, header);
    bytes.push(0x00);
    let mut rec = Recorder::new();
    let mut is = IStream::new();
    assert_eq!(is.feed(&bytes, &mut rec), Err(Error::InvalidMsg));
}

#[test]
fn fp32_with_wrong_length_is_invalid() {
    let bytes = [0x02, 2 << 3, 0xAA, 0xBB];
    let mut rec = Recorder::new();
    let mut is = IStream::new();
    assert_eq!(is.feed(&bytes, &mut rec), Err(Error::InvalidMsg));
}

#[test]
fn reserved_fixlen_subtype_is_invalid() {
    let bytes = [0x02, 0x04];
    let mut rec = Recorder::new();
    let mut is = IStream::new();
    assert_eq!(is.feed(&bytes, &mut rec), Err(Error::InvalidMsg));
}

#[test]
fn oversized_array_count_is_invalid() {
    let mut bytes = vec![0x03];
    push_varint(&mut bytes, 1u64 << 31);
    let mut rec = Recorder::new();
    let mut is = IStream::new();
    assert_eq!(is.feed(&bytes, &mut rec), Err(Error::InvalidMsg));
}

#[test]
fn oversized_fixlen_length_is_invalid() {
    let mut bytes = vec![0x02];
    push_varint(&mut bytes, (1u64 << 31) << 3);
    let mut rec = Recorder::new();
    let mut is = IStream::new();
    assert_eq!(is.feed(&bytes, &mut rec), Err(Error::InvalidMsg));
}

fn outcome(bytes: &[u8]) -> Result<(), Error> {
    let mut rec = Recorder::new();
    let mut is = IStream::new();
    is.feed(bytes, &mut rec)
}

#[test]
fn lone_continuation_byte_is_incomplete() {
    assert_eq!(outcome(&[0x80]), Err(Error::Incomplete));
}

#[test]
fn oversized_varint_is_invalid_not_incomplete() {
    let bytes = [
        0x00, 0x80, 0x80, 0x80, 0x80, 0x80, 0x80, 0x80, 0x80, 0x80, 0x80, 0x80,
    ];
    assert_eq!(outcome(&bytes), Err(Error::InvalidMsg));
}

#[test]
fn complete_message_is_ok() {
    assert_eq!(outcome(&[0x00, 0x80, 0x01]), Ok(()));
}

#[test]
fn header_without_value_is_incomplete() {
    assert_eq!(outcome(&[0x00]), Err(Error::Incomplete));
}

#[test]
fn truncated_varint_value_is_incomplete() {
    assert_eq!(outcome(&[0x00, 0x80]), Err(Error::Incomplete));
}

#[test]
fn truncated_fixlen_payload_is_incomplete() {
    assert_eq!(outcome(&[0x02, 0x20, 0x00, 0x00]), Err(Error::Incomplete));
}

#[test]
fn truncated_string_payload_is_incomplete() {
    assert_eq!(outcome(&[0x02, 0x62, 0x48, 0x65]), Err(Error::Incomplete));
}

#[test]
fn open_sequence_is_incomplete() {
    assert_eq!(outcome(&[0x06]), Err(Error::Incomplete));
}

#[test]
fn truncated_array_element_is_incomplete() {
    assert_eq!(outcome(&[0x03, 0x02, 0x01]), Err(Error::Incomplete));
}

#[test]
fn empty_input_is_complete() {
    assert_eq!(outcome(&[]), Ok(()));
}

#[test]
fn oversized_id_on_a_sequence_end_header_is_invalid() {
    let mut bytes = vec![0x06];
    push_varint(&mut bytes, ((sofab::ID_MAX as u64 + 1) << 3) | 0x07);
    assert_eq!(outcome(&bytes), Err(Error::InvalidMsg));
}

fn reencode(events: &[Event]) -> Vec<u8> {
    let mut buf = [0u8; 128];
    let used = {
        let mut os = sofab::OStream::new(&mut buf);
        let mut i = 0;
        while i < events.len() {
            match &events[i] {
                Event::Unsigned(id, v) => os.write_unsigned(*id, *v).unwrap(),
                Event::Signed(id, v) => os.write_signed(*id, *v).unwrap(),
                Event::Fp32(id, bits) => os.write_fp32_bits(*id, *bits).unwrap(),
                Event::SequenceBegin(id) => os.write_sequence_begin_lazy(*id).unwrap(),
                Event::SequenceEnd => os.write_sequence_end_keep().unwrap(),
                Event::ArrayBegin(id, ArrayKind::Unsigned, count) => {
                    let elems: Vec<u64> = events[i + 1..i + 1 + count]
                        .iter()
                        .map(|e| match e {
                            Event::Unsigned(_, v) => *v,
                            other => panic!("unsigned array element expected, got {other:?}"),
                        })
                        .collect();
                    os.write_array_unsigned(*id, &elems).unwrap();
                    i += count;
                }
                other => panic!("reencode: unsupported event {other:?}"),
            }
            i += 1;
        }
        os.bytes_used()
    };
    buf[..used].to_vec()
}

fn tolerated(noncanonical: &[u8], canonical: &[u8]) {
    assert_eq!(
        outcome(noncanonical),
        Ok(()),
        "non-canonical but well-formed input must not be rejected",
    );
    let events = decode(noncanonical);
    assert_eq!(events, decode(canonical), "must decode to the same value");
    assert_eq!(reencode(&events), canonical, "must re-encode canonically");
}

#[test]
fn a_non_minimal_field_header_is_tolerated() {
    tolerated(&[0x80, 0x00, 0x00], &[0x00, 0x00]);
}

#[test]
fn a_non_minimal_fixlen_word_is_tolerated() {
    let payload = [0x00, 0x00, 0x80, 0x3F];
    let mut noncanonical = vec![0x02, 0xA0, 0x00];
    noncanonical.extend_from_slice(&payload);
    let mut canonical = vec![0x02, 0x20];
    canonical.extend_from_slice(&payload);
    tolerated(&noncanonical, &canonical);
}

#[test]
fn a_non_minimal_element_count_is_tolerated() {
    tolerated(&[0x03, 0x81, 0x00, 0x2A], &[0x03, 0x01, 0x2A]);
}

#[test]
fn a_sequence_end_id_that_is_non_zero_but_in_range_is_tolerated() {
    tolerated(&[0x06, 0x0F], &[0x06, 0x07]);

    let mut bytes = vec![0x06];
    push_varint(&mut bytes, ((sofab::ID_MAX as u64) << 3) | 0x07);
    tolerated(&bytes, &[0x06, 0x07]);
}

#[test]
fn a_non_minimally_spelled_sequence_end_is_tolerated() {
    tolerated(&[0x06, 0x87, 0x00], &[0x06, 0x07]);
}

#[test]
fn a_fixlen_word_cut_after_a_reserved_subtype_byte_is_incomplete() {
    assert_eq!(outcome(&[0x02, 0x84]), Err(Error::Incomplete));
    assert_eq!(outcome(&[0x02, 0x8C]), Err(Error::Incomplete));
    assert_eq!(outcome(&[0x02, 0xB4]), Err(Error::Incomplete));

    assert_eq!(outcome(&[0x02, 0x84, 0x00]), Err(Error::InvalidMsg));

    assert_eq!(outcome(&[0x05, 0x01, 0x84]), Err(Error::Incomplete));
}

#[test]
fn a_fed_chunk_may_be_overwritten_the_moment_feed_returns() {
    let text = "a string long enough to straddle several chunk boundaries";
    let blob: Vec<u8> = (0..64u16).map(|i| i as u8).collect();

    let mut buf = [0u8; 256];
    let used = {
        let mut os = sofab::OStream::new(&mut buf);
        os.write_unsigned(1, 300).unwrap();
        os.write_str(2, text).unwrap();
        os.write_blob(3, &blob).unwrap();
        os.write_signed(4, -7).unwrap();
        os.bytes_used()
    };
    let wire = buf[..used].to_vec();
    let want = decode(&wire);

    for chunk_size in [1usize, 5, 7, 16] {
        let mut rec = Recorder::new();
        let mut is = IStream::new();
        let mut scratch = [0u8; 16];
        for piece in wire.chunks(chunk_size) {
            let n = piece.len();
            scratch[..n].copy_from_slice(piece);
            match is.feed(&scratch[..n], &mut rec) {
                Ok(()) | Err(Error::Incomplete) => {}
                Err(e) => panic!("chunked decode (chunk={chunk_size}): {e:?}"),
            }
            scratch.fill(0xAA);
        }
        assert_eq!(rec.events, want, "chunk size {chunk_size}");
    }
}

fn invalid_prefixes() -> Vec<(&'static str, Vec<u8>)> {
    let mut cases: Vec<(&'static str, Vec<u8>)> = Vec::new();

    cases.push((
        "overlong varint",
        vec![
            0x00, 0x80, 0x80, 0x80, 0x80, 0x80, 0x80, 0x80, 0x80, 0x80, 0x80, 0x80,
        ],
    ));

    let mut id_over = Vec::new();
    push_varint(&mut id_over, (sofab::ID_MAX as u64 + 1) << 3);
    cases.push(("id above ID_MAX", id_over));

    cases.push(("dangling sequence end", vec![0x07]));

    cases.push(("nesting past MAX_DEPTH", vec![0x06; 256]));

    let mut count_over = vec![0x03];
    push_varint(&mut count_over, 1u64 << 31);
    cases.push(("array count above ARRAY_MAX", count_over));

    let mut len_over = vec![0x02];
    push_varint(&mut len_over, (1u64 << 31) << 3);
    cases.push(("fixlen length above maximum", len_over));

    cases.push(("reserved fixlen subtype", vec![0x02, 0x04]));

    cases.push(("fp32 of the wrong width", vec![0x02, 2 << 3]));

    cases
}

const GOOD_FIELD: [u8; 2] = [0x08, 0x2a];

#[test]
fn invalid_stays_invalid_on_every_later_feed() {
    for (name, prefix) in invalid_prefixes() {
        let mut rec = Recorder::new();
        let mut is = IStream::new();
        assert_eq!(
            is.feed(&prefix, &mut rec),
            Err(Error::InvalidMsg),
            "{name}: the prefix itself must be INVALID",
        );
        let after_error = rec.events.len();

        assert_eq!(
            is.feed(&GOOD_FIELD, &mut rec),
            Err(Error::InvalidMsg),
            "{name}: a valid field after the error must stay INVALID",
        );
        assert_eq!(
            is.feed(&[], &mut rec),
            Err(Error::InvalidMsg),
            "{name}: an empty feed after the error must stay INVALID",
        );
        assert_eq!(
            is.feed(&GOOD_FIELD, &mut rec),
            Err(Error::InvalidMsg),
            "{name}: still INVALID on the third feed",
        );
        assert_eq!(
            rec.events.len(),
            after_error,
            "{name}: no field may be delivered out of a message proven malformed",
        );
    }
}

#[test]
fn the_chunked_verdict_matches_the_one_shot_verdict_for_malformed_input() {
    for (name, prefix) in invalid_prefixes() {
        let mut wire = prefix.clone();
        wire.extend_from_slice(&GOOD_FIELD);

        let mut one_shot = Recorder::new();
        let mut is = IStream::new();
        let whole = is.feed(&wire, &mut one_shot);
        assert_eq!(whole, Err(Error::InvalidMsg), "{name}: one-shot");

        let mut chunked = Recorder::new();
        let mut is = IStream::new();
        let mut seen_invalid = false;
        let mut last = Ok(());
        for byte in &wire {
            last = is.feed(&[*byte], &mut chunked);
            if seen_invalid {
                assert_eq!(
                    last,
                    Err(Error::InvalidMsg),
                    "{name}: a feed after the malformed byte reported {last:?}",
                );
            }
            seen_invalid |= last == Err(Error::InvalidMsg);
        }
        assert!(
            seen_invalid,
            "{name}: byte-at-a-time never reported INVALID"
        );
        assert_eq!(last, whole, "{name}: final outcome differs from one-shot");
        assert_eq!(
            chunked.events, one_shot.events,
            "{name}: byte-at-a-time delivered different fields",
        );
    }
}

// --- shared helpers: a recording visitor and raw-input builders -------------

/// One decoded event, recorded in order by [`Recorder`].
#[derive(Debug, Clone, PartialEq)]
enum Event {
    Unsigned(sofab::Id, sofab::Unsigned),
    Signed(sofab::Id, sofab::Signed),
    /// Float stored as raw bits so comparisons are exact (incl. NaN payloads).
    Fp32(sofab::Id, u32),
    Fp64(sofab::Id, u64),
    Str(sofab::Id, Vec<u8>),
    Blob(sofab::Id, Vec<u8>),
    ArrayBegin(sofab::Id, sofab::ArrayKind, usize),
    SequenceBegin(sofab::Id),
    SequenceEnd,
}

/// A visitor that records every decoded field as an [`Event`], reassembling
/// chunked string/blob payloads into whole buffers.
#[derive(Default)]
struct Recorder {
    events: Vec<Event>,
    pending: Option<(sofab::Id, bool, Vec<u8>)>,
}

impl Recorder {
    fn new() -> Self {
        Self::default()
    }

    fn accumulate(&mut self, id: sofab::Id, is_blob: bool, total: usize, offset: usize, chunk: &[u8]) {
        if offset == 0 {
            self.pending = Some((id, is_blob, Vec::with_capacity(total)));
        }
        let done = {
            let (_, _, buf) = self.pending.as_mut().expect("chunk without begin");
            buf.extend_from_slice(chunk);
            buf.len() == total
        };
        if done {
            let (pid, pblob, buf) = self.pending.take().unwrap();
            self.events.push(if pblob { Event::Blob(pid, buf) } else { Event::Str(pid, buf) });
        }
    }
}

impl sofab::Visitor for Recorder {
    fn unsigned(&mut self, id: sofab::Id, value: sofab::Unsigned) {
        self.events.push(Event::Unsigned(id, value));
    }
    fn signed(&mut self, id: sofab::Id, value: sofab::Signed) {
        self.events.push(Event::Signed(id, value));
    }
    fn fp32_bits(&mut self, id: sofab::Id, bits: u32) {
        self.events.push(Event::Fp32(id, bits));
    }
    fn fp64_bits(&mut self, id: sofab::Id, bits: u64) {
        self.events.push(Event::Fp64(id, bits));
    }
    fn string(&mut self, id: sofab::Id, total: usize, offset: usize, chunk: &[u8]) {
        self.accumulate(id, false, total, offset, chunk);
    }
    fn blob(&mut self, id: sofab::Id, total: usize, offset: usize, chunk: &[u8]) {
        self.accumulate(id, true, total, offset, chunk);
    }
    fn array_begin(&mut self, id: sofab::Id, kind: sofab::ArrayKind, count: usize) {
        self.events.push(Event::ArrayBegin(id, kind, count));
    }
    fn sequence_begin(&mut self, id: sofab::Id) {
        self.events.push(Event::SequenceBegin(id));
    }
    fn sequence_end(&mut self) {
        self.events.push(Event::SequenceEnd);
    }
}

/// Feed `bytes` in one shot; return the three-valued outcome *and* every
/// event the visitor saw.
fn feed(bytes: &[u8]) -> (Result<(), sofab::Error>, Vec<Event>) {
    let mut rec = Recorder::new();
    let mut is = sofab::IStream::new();
    let outcome = is.feed(bytes, &mut rec);
    (outcome, rec.events)
}

/// Decode `bytes` in one shot and return the recorded events, insisting the
/// outcome is complete.
fn decode(bytes: &[u8]) -> Vec<Event> {
    let (outcome, events) = feed(bytes);
    outcome.expect("decode failed");
    events
}

/// Decode `bytes` one byte per `feed` call and return the recorded events.
fn decode_one_byte_at_a_time(bytes: &[u8]) -> Vec<Event> {
    let mut rec = Recorder::new();
    let mut is = sofab::IStream::new();
    for &b in bytes {
        match is.feed(&[b], &mut rec) {
            Ok(()) | Err(sofab::Error::Incomplete) => {}
            Err(e) => panic!("chunked decode: {e:?}"),
        }
    }
    rec.events
}

/// Read a lowercase hex string.
fn hex_to_bytes(hex: &str) -> Vec<u8> {
    assert!(hex.len() % 2 == 0, "odd hex length");
    (0..hex.len())
        .step_by(2)
        .map(|i| u8::from_str_radix(&hex[i..i + 2], 16).expect("hex byte"))
        .collect()
}

/// Append a base-128 varint of `value` to `out` (for crafting raw test inputs).
fn push_varint(out: &mut Vec<u8>, mut value: u64) {
    loop {
        let mut b = (value as u8) & 0x7F;
        value >>= 7;
        if value != 0 {
            b |= 0x80;
        }
        out.push(b);
        if value == 0 {
            break;
        }
    }
}

/// The bit patterns of `a`, as the encoder's `fp32` array writer takes them.
fn bits32(a: &[f32]) -> Vec<u32> {
    a.iter().map(|x| x.to_bits()).collect()
}

/// The bit patterns of `a`, as the encoder's `fp64` array writer takes them.
fn bits64(a: &[f64]) -> Vec<u64> {
    a.iter().map(|x| x.to_bits()).collect()
}
