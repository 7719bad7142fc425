use sofab::{Error, IStream, Id, Unsigned, Visitor};



const T_FIXLEN: u64 = 0x2;
const T_VARINT_UNSIGNED: u64 = 0x0;
const SUB_STR: u64 = 0x2;
const SUB_BLOB: u64 = 0x3;

fn fixlen_field(id: Id, subtype: u64, payload: &[u8]) -> Vec<u8> {
    let mut out = Vec::new();
    push_varint(&mut out, ((id as u64) << 3) | T_FIXLEN);
    push_varint(&mut out, ((payload.len() as u64) << 3) | subtype);
    out.extend_from_slice(payload);
    out
}

fn string_field(id: Id, payload: &[u8]) -> Vec<u8> {
    fixlen_field(id, SUB_STR, payload)
}

fn blob_field(id: Id, len: usize) -> Vec<u8> {
    fixlen_field(id, SUB_BLOB, &vec![0x5A; len])
}

fn unsigned_field(id: Id, value: u64) -> Vec<u8> {
    let mut out = Vec::new();
    push_varint(&mut out, ((id as u64) << 3) | T_VARINT_UNSIGNED);
    push_varint(&mut out, value);
    out
}

const BALLAST: usize = 200;

const CAP: usize = 512;

struct Strict {
    dst: [u8; CAP],
    calls: Vec<(usize, usize, usize)>,
    verdict: Option<Result<(), Error>>,
}

impl Strict {
    fn new() -> Self {
        Strict {
            dst: [0; CAP],
            calls: Vec::new(),
            verdict: None,
        }
    }
}

impl Visitor for Strict {
    fn string(&mut self, _id: Id, total: usize, offset: usize, chunk: &[u8]) {
        let end = offset + chunk.len();
        assert!(
            end <= total && total <= CAP,
            "chunk out of range: total={total} offset={offset} len={}",
            chunk.len(),
        );
        self.calls.push((total, offset, chunk.len()));
        self.dst[offset..end].copy_from_slice(chunk);
        if end == total {
            self.verdict = Some(
                core::str::from_utf8(&self.dst[..total])
                    .map(|_| ())
                    .map_err(|_| Error::InvalidMsg),
            );
        }
    }
}

fn feed_pieces(bytes: &[u8], pieces: &[usize]) -> (Strict, Vec<Result<(), Error>>) {
    assert_eq!(
        pieces.iter().sum::<usize>(),
        bytes.len(),
        "the pieces must cover the message"
    );
    let mut sink = Strict::new();
    let mut is = IStream::new();
    let mut at = 0;
    let mut outcomes = Vec::new();
    for &n in pieces {
        let outcome = is.feed(&bytes[at..at + n], &mut sink);
        assert_ne!(
            outcome,
            Err(Error::InvalidMsg),
            "the decoder rejected a structurally well-formed frame",
        );
        outcomes.push(outcome);
        at += n;
    }
    (sink, outcomes)
}

fn feed_whole(bytes: &[u8]) -> (Strict, Result<(), Error>) {
    let (sink, outcomes) = feed_pieces(bytes, &[bytes.len()]);
    let last = *outcomes.last().unwrap();
    (sink, last)
}

#[test]
fn a_chunk_offset_is_field_relative_never_buffer_relative() {
    let payload = "übergroß".as_bytes();
    let early = string_field(1, payload);
    let mut late = blob_field(2, BALLAST);
    late.extend_from_slice(&early);
    assert!(late.len() > BALLAST + payload.len());

    let (first, ra) = feed_whole(&early);
    let (behind_ballast, rb) = feed_whole(&late);

    assert_eq!(ra, Ok(()));
    assert_eq!(rb, Ok(()));
    assert_eq!(first.calls, [(payload.len(), 0, payload.len())]);
    assert_eq!(
        behind_ballast.calls, first.calls,
        "the {BALLAST}-byte blob in front must not move the string's own offsets",
    );
    assert_eq!(first.verdict, Some(Ok(())));
    assert_eq!(behind_ballast.verdict, Some(Ok(())));
}

#[test]
fn an_invalid_sequence_past_the_bytes_fed_so_far_is_rejected() {
    let mut payload = vec![b'x'; 60];
    payload.extend_from_slice(&[0xE2, 0x82]);
    let mut msg = blob_field(2, BALLAST);
    msg.extend_from_slice(&string_field(1, &payload));

    let (one_shot, outcome) = feed_whole(&msg);
    assert_eq!(outcome, Ok(()), "structurally the frame is COMPLETE");
    assert_eq!(one_shot.verdict, Some(Err(Error::InvalidMsg)));

    let (split, outcomes) = feed_pieces(&msg, &[msg.len() - 2, 2]);
    assert_eq!(outcomes.last(), Some(&Ok(())));
    assert_eq!(
        split.calls.last(),
        Some(&(62, 60, 2)),
        "the last chunk carries two bytes at field offset 60",
    );
    assert_eq!(
        split.verdict,
        Some(Err(Error::InvalidMsg)),
        "a chunk boundary must not change the outcome",
    );
}

#[test]
fn the_verdict_survives_every_split_point_and_a_byte_at_a_time_feed() {
    let mut payload = vec![b'x'; 60];
    payload.extend_from_slice(&[0xE2, 0x82]);
    let mut msg = blob_field(2, BALLAST);
    msg.extend_from_slice(&string_field(1, &payload));

    for cut in 0..=msg.len() {
        let (sink, _) = feed_pieces(&msg, &[cut, msg.len() - cut]);
        assert_eq!(
            sink.verdict,
            Some(Err(Error::InvalidMsg)),
            "split at byte {cut}",
        );
    }

    let (sink, outcomes) = feed_pieces(&msg, &vec![1; msg.len()]);
    assert_eq!(outcomes.last(), Some(&Ok(())));
    assert_eq!(sink.verdict, Some(Err(Error::InvalidMsg)));
    let expected: Vec<(usize, usize, usize)> =
        (0..payload.len()).map(|i| (payload.len(), i, 1)).collect();
    assert_eq!(
        sink.calls, expected,
        "each byte must be announced at its own field offset",
    );
}


#[test]
fn a_multibyte_sequence_split_at_a_chunk_boundary_stays_valid() {
    let text = "héllo wörld";
    let msg = string_field(1, text.as_bytes());
    let lead = msg.iter().position(|&b| b == 0xC3).expect("lead byte");

    let (sink, outcomes) = feed_pieces(&msg, &[lead + 1, msg.len() - lead - 1]);
    assert_eq!(
        outcomes[0],
        Err(Error::Incomplete),
        "a split multi-byte sequence is a well-formed prefix",
    );
    assert_eq!(outcomes[1], Ok(()));
    assert_eq!(sink.verdict, Some(Ok(())), "the payload is valid UTF-8");
    assert_eq!(&sink.dst[..text.len()], text.as_bytes());
}

#[test]
fn a_malformed_byte_is_not_reported_before_the_payload_completes() {
    let mut payload = vec![0xFF];
    payload.extend_from_slice(&[b'y'; 40]);
    let msg = string_field(1, &payload);
    let head = msg.len() - 40;

    let mut sink = Strict::new();
    let mut is = IStream::new();
    assert_eq!(is.feed(&msg[..head], &mut sink), Err(Error::Incomplete));
    assert_eq!(
        sink.verdict, None,
        "no verdict may be reported mid-payload",
    );
    assert_eq!(is.feed(&msg[head..], &mut sink), Ok(()));
    assert_eq!(sink.verdict, Some(Err(Error::InvalidMsg)));
}

#[test]
fn a_string_the_consumer_never_reads_is_never_validated() {
    #[derive(Default)]
    struct OnlyUnsigned {
        seen: Vec<(Id, Unsigned)>,
    }
    impl Visitor for OnlyUnsigned {
        fn unsigned(&mut self, id: Id, value: Unsigned) {
            self.seen.push((id, value));
        }
    }

    let mut msg = string_field(1, &[0xFF, 0xFE, 0xC0, 0x80]);
    msg.extend_from_slice(&unsigned_field(2, 7));

    let mut sink = OnlyUnsigned::default();
    assert_eq!(IStream::new().feed(&msg, &mut sink), Ok(()));
    assert_eq!(sink.seen, [(2, 7)]);
}

// --- shared helpers: a recording visitor and raw-input builders -------------

/// One decoded event, recorded in order by [`Recorder`].
#[derive(Debug, Clone, PartialEq)]
enum Event {
    Unsigned(sofab::Id, sofab::Unsigned),
    Signed(sofab::Id, sofab::Signed),
    /// Float stored as raw bits so comparisons are exact (incl. NaN payloads).
    Fp32(sofab::Id, u32),
    Fp64(sofab::Id, u64),
    Str(sofab::Id, Vec<u8>),
    Blob(sofab::Id, Vec<u8>),
    ArrayBegin(sofab::Id, sofab::ArrayKind, usize),
    SequenceBegin(sofab::Id),
    SequenceEnd,
}

/// A visitor that records every decoded field as an [`Event`], reassembling
/// chunked string/blob payloads into whole buffers.
#[derive(Default)]
struct Recorder {
    events: Vec<Event>,
    pending: Option<(sofab::Id, bool, Vec<u8>)>,
}

impl Recorder {
    fn new() -> Self {
        Self::default()
    }

    fn accumulate(&mut self, id: sofab::Id, is_blob: bool, total: usize, offset: usize, chunk: &[u8]) {
        if offset == 0 {
            self.pending = Some((id, is_blob, Vec::with_capacity(total)));
        }
        let done = {
            let (_, _, buf) = self.pending.as_mut().expect("chunk without begin");
            buf.extend_from_slice(chunk);
            buf.len() == total
        };
        if done {
            let (pid, pblob, buf) = self.pending.take().unwrap();
            self.events.push(if pblob { Event::Blob(pid, buf) } else { Event::Str(pid, buf) });
        }
    }
}

impl sofab::Visitor for Recorder {
    fn unsigned(&mut self, id: sofab::Id, value: sofab::Unsigned) {
        self.events.push(Event::Unsigned(id, value));
    }
    fn signed(&mut self, id: sofab::Id, value: sofab::Signed) {
        self.events.push(Event::Signed(id, value));
    }
    fn fp32_bits(&mut self, id: sofab::Id, bits: u32) {
        self.events.push(Event::Fp32(id, bits));
    }
    fn fp64_bits(&mut self, id: sofab::Id, bits: u64) {
        self.events.push(Event::Fp64(id, bits));
    }
    fn string(&mut self, id: sofab::Id, total: usize, offset: usize, chunk: &[u8]) {
        self.accumulate(id, false, total, offset, chunk);
    }
    fn blob(&mut self, id: sofab::Id, total: usize, offset: usize, chunk: &[u8]) {
        self.accumulate(id, true, total, offset, chunk);
    }
    fn array_begin(&mut self, id: sofab::Id, kind: sofab::ArrayKind, count: usize) {
        self.events.push(Event::ArrayBegin(id, kind, count));
    }
    fn sequence_begin(&mut self, id: sofab::Id) {
        self.events.push(Event::SequenceBegin(id));
    }
    fn sequence_end(&mut self) {
        self.events.push(Event::SequenceEnd);
    }
}

/// Feed `bytes` in one shot; return the three-valued outcome *and* every
/// event the visitor saw.
fn feed(bytes: &[u8]) -> (Result<(), sofab::Error>, Vec<Event>) {
    let mut rec = Recorder::new();
    let mut is = sofab::IStream::new();
    let outcome = is.feed(bytes, &mut rec);
    (outcome, rec.events)
}

/// Decode `bytes` in one shot and return the recorded events, insisting the
/// outcome is complete.
fn decode(bytes: &[u8]) -> Vec<Event> {
    let (outcome, events) = feed(bytes);
    outcome.expect("decode failed");
    events
}

/// Decode `bytes` one byte per `feed` call and return the recorded events.
fn decode_one_byte_at_a_time(bytes: &[u8]) -> Vec<Event> {
    let mut rec = Recorder::new();
    let mut is = sofab::IStream::new();
    for &b in bytes {
        match is.feed(&[b], &mut rec) {
            Ok(()) | Err(sofab::Error::Incomplete) => {}
            Err(e) => panic!("chunked decode: {e:?}"),
        }
    }
    rec.events
}

/// Read a lowercase hex string.
fn hex_to_bytes(hex: &str) -> Vec<u8> {
    assert!(hex.len() % 2 == 0, "odd hex length");
    (0..hex.len())
        .step_by(2)
        .map(|i| u8::from_str_radix(&hex[i..i + 2], 16).expect("hex byte"))
        .collect()
}

/// Append a base-128 varint of `value` to `out` (for crafting raw test inputs).
fn push_varint(out: &mut Vec<u8>, mut value: u64) {
    loop {
        let mut b = (value as u8) & 0x7F;
        value >>= 7;
        if value != 0 {
            b |= 0x80;
        }
        out.push(b);
        if value == 0 {
            break;
        }
    }
}

/// The bit patterns of `a`, as the encoder's `fp32` array writer takes them.
fn bits32(a: &[f32]) -> Vec<u32> {
    a.iter().map(|x| x.to_bits()).collect()
}

/// The bit patterns of `a`, as the encoder's `fp64` array writer takes them.
fn bits64(a: &[f64]) -> Vec<u64> {
    a.iter().map(|x| x.to_bits()).collect()
}
