use sofab::{Error, Id, OStream, Unsigned, ID_MAX};

fn encode<F: FnOnce(&mut OStream)>(f: F) -> Vec<u8> {
    let mut buf = [0u8; 64];
    let used = {
        let mut os = OStream::new(&mut buf);
        f(&mut os);
        os.bytes_used()
    };
    buf[..used].to_vec()
}

#[allow(clippy::unnecessary_cast)]
#[test]
fn id_max_is_the_lower_of_the_format_ceiling_and_the_width_bound() {
    let by_format = i32::MAX as u64;
    let by_width = (Unsigned::MAX >> 3) as u64;
    assert_eq!(ID_MAX as u64, by_format.min(by_width));

    assert!((ID_MAX as u64) <= by_width);
}

#[test]
fn id_max_encodes_and_round_trips() {
    let bytes = encode(|os| os.write_unsigned(ID_MAX, 0).unwrap());
    let (outcome, events) = feed(&bytes);
    assert_eq!(outcome, Ok(()));
    assert_eq!(events, [Event::Unsigned(ID_MAX, 0)]);
}

#[test]
fn id_above_id_max_is_rejected_not_truncated() {
    let mut buf = [0u8; 16];
    let mut os = OStream::new(&mut buf);
    assert_eq!(os.write_unsigned(ID_MAX + 1, 0), Err(Error::Argument));
    assert_eq!(os.bytes_used(), 0);
}

#[test]
fn sequence_id_above_id_max_is_rejected() {
    let mut buf = [0u8; 16];
    let mut os = OStream::new(&mut buf);
    assert_eq!(
        os.write_sequence_begin_lazy(ID_MAX + 1),
        Err(Error::Argument)
    );
    assert_eq!(os.bytes_used(), 0);
}

#[test]
fn decoding_an_id_above_id_max_is_invalid() {
    let mut bytes = Vec::new();
    push_varint(&mut bytes, (ID_MAX as u64 + 1) << 3);
    bytes.push(0x00);

    let (outcome, _) = feed(&bytes);
    assert_eq!(outcome, Err(Error::InvalidMsg));
}

#[test]
fn decoding_exactly_id_max_is_valid() {
    let mut bytes = Vec::new();
    push_varint(&mut bytes, (ID_MAX as u64) << 3);
    bytes.push(0x00);

    let (outcome, events) = feed(&bytes);
    assert_eq!(outcome, Ok(()));
    assert_eq!(events, [Event::Unsigned(ID_MAX as Id, 0)]);
}

// --- shared helpers: a recording visitor and raw-input builders -------------

/// One decoded event, recorded in order by [`Recorder`].
#[derive(Debug, Clone, PartialEq)]
enum Event {
    Unsigned(sofab::Id, sofab::Unsigned),
    Signed(sofab::Id, sofab::Signed),
    /// Float stored as raw bits so comparisons are exact (incl. NaN payloads).
    Fp32(sofab::Id, u32),
    Fp64(sofab::Id, u64),
    Str(sofab::Id, Vec<u8>),
    Blob(sofab::Id, Vec<u8>),
    ArrayBegin(sofab::Id, sofab::ArrayKind, usize),
    SequenceBegin(sofab::Id),
    SequenceEnd,
}

/// A visitor that records every decoded field as an [`Event`], reassembling
/// chunked string/blob payloads into whole buffers.
#[derive(Default)]
struct Recorder {
    events: Vec<Event>,
    pending: Option<(sofab::Id, bool, Vec<u8>)>,
}

impl Recorder {
    fn new() -> Self {
        Self::default()
    }

    fn accumulate(&mut self, id: sofab::Id, is_blob: bool, total: usize, offset: usize, chunk: &[u8]) {
        if offset == 0 {
            self.pending = Some((id, is_blob, Vec::with_capacity(total)));
        }
        let done = {
            let (_, _, buf) = self.pending.as_mut().expect("chunk without begin");
            buf.extend_from_slice(chunk);
            buf.len() == total
        };
        if done {
            let (pid, pblob, buf) = self.pending.take().unwrap();
            self.events.push(if pblob { Event::Blob(pid, buf) } else { Event::Str(pid, buf) });
        }
    }
}

impl sofab::Visitor for Recorder {
    fn unsigned(&mut self, id: sofab::Id, value: sofab::Unsigned) {
        self.events.push(Event::Unsigned(id, value));
    }
    fn signed(&mut self, id: sofab::Id, value: sofab::Signed) {
        self.events.push(Event::Signed(id, value));
    }
    fn fp32_bits(&mut self, id: sofab::Id, bits: u32) {
        self.events.push(Event::Fp32(id, bits));
    }
    fn fp64_bits(&mut self, id: sofab::Id, bits: u64) {
        self.events.push(Event::Fp64(id, bits));
    }
    fn string(&mut self, id: sofab::Id, total: usize, offset: usize, chunk: &[u8]) {
        self.accumulate(id, false, total, offset, chunk);
    }
    fn blob(&mut self, id: sofab::Id, total: usize, offset: usize, chunk: &[u8]) {
        self.accumulate(id, true, total, offset, chunk);
    }
    fn array_begin(&mut self, id: sofab::Id, kind: sofab::ArrayKind, count: usize) {
        self.events.push(Event::ArrayBegin(id, kind, count));
    }
    fn sequence_begin(&mut self, id: sofab::Id) {
        self.events.push(Event::SequenceBegin(id));
    }
    fn sequence_end(&mut self) {
        self.events.push(Event::SequenceEnd);
    }
}

/// Feed `bytes` in one shot; return the three-valued outcome *and* every
/// event the visitor saw.
fn feed(bytes: &[u8]) -> (Result<(), sofab::Error>, Vec<Event>) {
    let mut rec = Recorder::new();
    let mut is = sofab::IStream::new();
    let outcome = is.feed(bytes, &mut rec);
    (outcome, rec.events)
}

/// Decode `bytes` in one shot and return the recorded events, insisting the
/// outcome is complete.
fn decode(bytes: &[u8]) -> Vec<Event> {
    let (outcome, events) = feed(bytes);
    outcome.expect("decode failed");
    events
}

/// Decode `bytes` one byte per `feed` call and return the recorded events.
fn decode_one_byte_at_a_time(bytes: &[u8]) -> Vec<Event> {
    let mut rec = Recorder::new();
    let mut is = sofab::IStream::new();
    for &b in bytes {
        match is.feed(&[b], &mut rec) {
            Ok(()) | Err(sofab::Error::Incomplete) => {}
            Err(e) => panic!("chunked decode: {e:?}"),
        }
    }
    rec.events
}

/// Read a lowercase hex string.
fn hex_to_bytes(hex: &str) -> Vec<u8> {
    assert!(hex.len() % 2 == 0, "odd hex length");
    (0..hex.len())
        .step_by(2)
        .map(|i| u8::from_str_radix(&hex[i..i + 2], 16).expect("hex byte"))
        .collect()
}

/// Append a base-128 varint of `value` to `out` (for crafting raw test inputs).
fn push_varint(out: &mut Vec<u8>, mut value: u64) {
    loop {
        let mut b = (value as u8) & 0x7F;
        value >>= 7;
        if value != 0 {
            b |= 0x80;
        }
        out.push(b);
        if value == 0 {
            break;
        }
    }
}

/// The bit patterns of `a`, as the encoder's `fp32` array writer takes them.
fn bits32(a: &[f32]) -> Vec<u32> {
    a.iter().map(|x| x.to_bits()).collect()
}

/// The bit patterns of `a`, as the encoder's `fp64` array writer takes them.
fn bits64(a: &[f64]) -> Vec<u64> {
    a.iter().map(|x| x.to_bits()).collect()
}
