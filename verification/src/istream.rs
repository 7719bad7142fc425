//! Streaming input decoder.
//!
//! [`IStream`] is a byte-at-a-time state machine. Feed it arbitrary chunks
//! with [`IStream::feed`]; it parses field headers and pushes decoded fields to
//! a [`Visitor`]. Scalars and floats are delivered whole; a string/blob payload
//! is delivered in chunks as it arrives.
use vstd::prelude::*;
use vstd::arithmetic::power2::{pow2, lemma2_to64, lemma2_to64_rest, lemma_pow2_adds, lemma_pow2_pos};
use vstd::bits::lemma_u64_shl_is_mul;
use crate::error::{Error, Result};
use crate::types::{ArrayKind, FixlenType, Id, Signed, Unsigned, fixlen_tag, ARRAY_MAX, ID_MAX, MAX_DEPTH};
use crate::varint::{zigzag_decode, spec_unzigzag, varint_bytes, varints, lemma_varints_step};

verus! {

/// Receives decoded fields from an [`IStream`]. Every method has an empty
/// default, so an implementor overrides only the field kinds it cares about.
pub trait Visitor {
    /// An unsigned integer field, or an unsigned array element.
    fn unsigned(&mut self, id: Id, value: Unsigned) {
    }

    /// A signed integer field, or a signed array element.
    fn signed(&mut self, id: Id, value: Signed) {
    }

    /// A 32-bit float field or `fp32` array element, as its IEEE-754 bit
    /// pattern (`f32::from_bits` gives the value).
    fn fp32_bits(&mut self, id: Id, bits: u32) {
    }

    /// A 64-bit float field or `fp64` array element, as its IEEE-754 bit
    /// pattern (`f64::from_bits` gives the value).
    fn fp64_bits(&mut self, id: Id, bits: u64) {
    }

    /// A chunk of a string field: `total` is the field length, `offset` the
    /// position of `chunk` within the field. An empty string is one call with
    /// `total == 0` and an empty chunk. The bytes are delivered raw.
    fn string(&mut self, id: Id, total: usize, offset: usize, chunk: &[u8]) {
    }

    /// A chunk of a blob field, chunked as [`Visitor::string`].
    fn blob(&mut self, id: Id, total: usize, offset: usize, chunk: &[u8]) {
    }

    /// Start of a scalar fixlen field, announced once its length word is read
    /// and validated, before any payload byte; never for an array element.
    fn fixlen_begin(&mut self, id: Id, subtype: FixlenType, total: usize) {
    }

    /// Start of an array field with `count` elements of `kind`, announced once
    /// per array before its first element (for a float array, after the
    /// fixlen word that names the element subtype).
    fn array_begin(&mut self, id: Id, kind: ArrayKind, count: usize) {
    }

    /// Start of a nested sequence with field id `id`.
    fn sequence_begin(&mut self, id: Id) {
    }

    /// End of the current nested sequence.
    fn sequence_end(&mut self) {
    }
}

/// One item a decoder hands to its [`Visitor`], with string / blob payloads
/// counted byte by byte: the spelling in which what a decoder delivers does
/// not depend on how its input was cut into chunks.
pub enum Atom {
    /// [`Visitor::unsigned`] with this id and value.
    Unsigned(Id, Unsigned),
    /// [`Visitor::signed`] with this id and value.
    Signed(Id, Signed),
    /// [`Visitor::fp32_bits`] with this id and bit pattern.
    Fp32(Id, u32),
    /// [`Visitor::fp64_bits`] with this id and bit pattern.
    Fp64(Id, u64),
    /// [`Visitor::fixlen_begin`] with this id, subtype and length.
    FixlenBegin(Id, FixlenType, usize),
    /// One byte of a string (`false`) or blob (`true`) payload: the field's
    /// id, total length, the byte's offset within the field, and the byte.
    PayloadByte(Id, bool, usize, usize, u8),
    /// The one empty chunk of a zero-length string (`false`) or blob (`true`).
    EmptyPayload(Id, bool),
    /// [`Visitor::array_begin`] with this id, element kind and count.
    ArrayBegin(Id, ArrayKind, usize),
    /// [`Visitor::sequence_begin`] with this id.
    SequenceBegin(Id),
    /// [`Visitor::sequence_end`].
    SequenceEnd,
}

/// Call the visitor method that `a` stands for, with `a`'s own fields. A
/// single payload byte goes out as a one-byte chunk.
///
/// Every visitor call the decoder makes goes through here or through
/// [`dispatch_chunk`], from the very item it logs. [`Visitor`] is implemented
/// by users and carries no contract, so these calls are the one step between
/// the log and the visitor that Verus does not see into; each arm passes
/// exactly the fields of the item it matched.
fn dispatch<V: Visitor>(visitor: &mut V, a: &Atom) {
    match a {
        Atom::Unsigned(id, v) => visitor.unsigned(*id, *v),
        Atom::Signed(id, v) => visitor.signed(*id, *v),
        Atom::Fp32(id, b) => visitor.fp32_bits(*id, *b),
        Atom::Fp64(id, b) => visitor.fp64_bits(*id, *b),
        Atom::FixlenBegin(id, t, n) => visitor.fixlen_begin(*id, *t, *n),
        Atom::PayloadByte(id, blob, total, offset, b) => {
            let one = [*b];
            dispatch_chunk(visitor, &ChunkOf { id: *id, blob: *blob, total: *total, offset: *offset }, &one);
        },
        Atom::EmptyPayload(id, blob) => {
            dispatch_chunk(visitor, &ChunkOf { id: *id, blob: *blob, total: 0, offset: 0 }, &[]);
        },
        Atom::ArrayBegin(id, k, n) => visitor.array_begin(*id, *k, *n),
        Atom::SequenceBegin(id) => visitor.sequence_begin(*id),
        Atom::SequenceEnd => visitor.sequence_end(),
    }
}

/// Where a chunk of a string / blob payload belongs: the field id, whether it
/// is a blob, the payload's total length, and the chunk's offset in it.
struct ChunkOf {
    id: Id,
    blob: bool,
    total: usize,
    offset: usize,
}

/// Call the visitor's `blob` or `string` with `chunk`, placed as `at` says.
fn dispatch_chunk<V: Visitor>(visitor: &mut V, at: &ChunkOf, chunk: &[u8]) {
    if at.blob {
        visitor.blob(at.id, at.total, at.offset, chunk)
    } else {
        visitor.string(at.id, at.total, at.offset, chunk)
    }
}

/// The payload bytes `chunk` of a field of `total` bytes, the first at
/// `offset`.
pub open spec fn payload_atoms(id: Id, blob: bool, total: usize, offset: nat, chunk: Seq<u8>) -> Seq<Atom> {
    Seq::new(chunk.len(), |i: int| Atom::PayloadByte(id, blob, total, (offset + i) as usize, chunk[i]))
}

#[derive(Clone, Copy, PartialEq, Eq, Structural)]
enum State {
    Idle,
    Invalid,
    VarintUnsigned,
    VarintSigned,
    FixlenLen,
    FixlenVal,
    FixlenRaw,
    ArrayCount,
}

/// The decoder's per-byte state.
struct Core {
    /// Varint accumulator, or the float payload being assembled.
    acc: Unsigned,
    /// Payload bits already in `acc` while a varint is mid-decode.
    shift: u8,
    state: State,
    array_kind: ArrayKind,
    in_array: bool,
    array_fixlen: bool,
    fixlen_type: FixlenType,
    depth: u8,
}

/// What one byte does to the varint being decoded.
pub enum Push {
    /// The value does not fit the value type.
    Overflow,
    /// More bytes follow; the accumulator and shift so far.
    More(nat, nat),
    /// The value is complete.
    Done(nat),
}

/// One byte into a varint accumulated as `acc` over `shift` bits.
pub open spec fn spec_push(acc: nat, shift: nat, b: u8) -> Push {
    let payload = (b % 128) as nat;
    let next = acc + payload * pow2(shift);
    if next > Unsigned::MAX {
        Push::Overflow
    } else if b < 128 {
        Push::Done(next)
    } else if shift + 7 >= 64 {
        Push::Overflow
    } else {
        Push::More(next, shift + 7)
    }
}

impl Core {
    spec fn varint_ok(self) -> bool {
        &&& self.shift % 7 == 0
        &&& self.shift <= 63
        &&& self.acc < pow2(self.shift as nat)
    }

    /// Feed one byte into the varint being decoded: `Ok(Some(v))` when it is
    /// complete (the accumulator resets), `Ok(None)` when more bytes follow,
    /// `Err(InvalidMsg)` when it overflows the value type.
    fn push(&mut self, byte: u8) -> (r: Result<Option<Unsigned>>)
        requires
            old(self).varint_ok(),
        ensures
            final(self).state == old(self).state,
            final(self).array_kind == old(self).array_kind,
            final(self).in_array == old(self).in_array,
            final(self).array_fixlen == old(self).array_fixlen,
            final(self).fixlen_type == old(self).fixlen_type,
            final(self).depth == old(self).depth,
            final(self).varint_ok(),
            match spec_push(old(self).acc as nat, old(self).shift as nat, byte) {
                Push::Overflow => r == Err::<Option<Unsigned>, Error>(Error::InvalidMsg)
                    && final(self).acc == 0 && final(self).shift == 0,
                Push::More(a, s) => r == Ok::<Option<Unsigned>, Error>(None)
                    && final(self).acc == a && final(self).shift == s,
                Push::Done(v) => r == Ok::<Option<Unsigned>, Error>(Some(v as Unsigned))
                    && final(self).acc == 0 && final(self).shift == 0,
            },
    {
        proof {
            lemma2_to64();
            lemma2_to64_rest();
            lemma_pow2_pos(self.shift as nat);
        }
        let payload: u8 = byte % 128;
        let shift = self.shift;
        let ghost p = pow2(shift as nat);
        if shift == 63 && payload >= 2 {
            proof {
                assert(payload as nat * p >= 2 * p) by (nonlinear_arith)
                    requires payload >= 2;
            }
            self.acc = 0;
            self.shift = 0;
            return Err(Error::InvalidMsg);
        }
        proof {
            if shift == 63 {
                assert(payload as nat * p <= p) by (nonlinear_arith)
                    requires payload <= 1;
            } else {
                assert(shift <= 56);
                lemma_pow2_adds(shift as nat, 7);
                assert(pow2(7) == 128);
                assert(payload as nat * p <= 127 * p) by (nonlinear_arith)
                    requires payload < 128;
                assert(p <= pow2(56)) by {
                    if shift < 56 {
                        lemma_pow2_adds(shift as nat, (56 - shift) as nat);
                        lemma_pow2_pos((56 - shift) as nat);
                        assert(p * pow2((56 - shift) as nat) >= p) by (nonlinear_arith)
                            requires pow2((56 - shift) as nat) >= 1;
                    }
                };
            }
            lemma_u64_shl_is_mul(payload as u64, shift as u64);
        }
        let add: Unsigned = (payload as Unsigned) << (shift as Unsigned);
        let acc: Unsigned = self.acc + add;
        if byte < 128 {
            self.acc = 0;
            self.shift = 0;
            return Ok(Some(acc));
        }
        if shift + 7 >= 64 {
            self.acc = 0;
            self.shift = 0;
            return Err(Error::InvalidMsg);
        }
        self.acc = acc;
        self.shift = shift + 7;
        proof {
            lemma_pow2_adds(shift as nat, 7);
            assert(acc < p + 127 * p);
        }
        Ok(None)
    }
}


/// Streaming decoder.
pub struct IStream {
    core: Core,
    id: Id,
    array_remaining: usize,
    fixlen_total: usize,
    fixlen_remaining: usize,
    /// Everything handed to the visitor so far.
    log: Ghost<Seq<Atom>>,
}

/// `s` having handed `a` to its visitor.
spec fn emit(s: IStream, a: Atom) -> IStream {
    IStream { log: Ghost(s.log@.push(a)), ..s }
}

/// `s` with its state set to `st`.
spec fn with_state(s: IStream, st: State) -> IStream {
    IStream { core: Core { state: st, ..s.core }, ..s }
}

/// `s`, latched invalid.
spec fn invalid(s: IStream) -> IStream {
    with_state(s, State::Invalid)
}

/// Count one array element off (or leave a scalar field): the next state and
/// whether another element of the same array follows.
spec fn spec_advance(s: IStream) -> (IStream, bool) {
    if s.core.in_array {
        let rem = (s.array_remaining - 1) as usize;
        if rem > 0 {
            (IStream { array_remaining: rem, ..s }, true)
        } else {
            (IStream { array_remaining: rem, core: Core { in_array: false, state: State::Idle, ..s.core }, ..s }, false)
        }
    } else {
        (with_state(s, State::Idle), false)
    }
}

/// A complete field header `(id << 3) | wire_type`.
spec fn spec_on_header(s: IStream, header: nat) -> IStream {
    let wire = header % 8;
    let id = header / 8;
    if id > ID_MAX {
        invalid(s)
    } else {
        let s1 = IStream { id: id as Id, core: Core { in_array: false, array_fixlen: false, ..s.core }, ..s };
        if wire == 0 {
            with_state(s1, State::VarintUnsigned)
        } else if wire == 1 {
            with_state(s1, State::VarintSigned)
        } else if wire == 2 {
            with_state(s1, State::FixlenLen)
        } else if wire == 3 {
            IStream { core: Core { array_kind: ArrayKind::Unsigned, state: State::ArrayCount, ..s1.core }, ..s1 }
        } else if wire == 4 {
            IStream { core: Core { array_kind: ArrayKind::Signed, state: State::ArrayCount, ..s1.core }, ..s1 }
        } else if wire == 5 {
            IStream { core: Core { array_fixlen: true, state: State::ArrayCount, ..s1.core }, ..s1 }
        } else if wire == 6 {
            if s1.core.depth >= MAX_DEPTH {
                invalid(s1)
            } else {
                emit(IStream { core: Core { depth: (s1.core.depth + 1) as u8, ..s1.core }, ..s1 },
                    Atom::SequenceBegin(id as Id))
            }
        } else {
            if s1.core.depth == 0 {
                invalid(s1)
            } else {
                emit(IStream { core: Core { depth: (s1.core.depth - 1) as u8, ..s1.core }, ..s1 },
                    Atom::SequenceEnd)
            }
        }
    }
}

/// The fixlen subtype of a valid tag.
pub open spec fn tag_type(tag: nat) -> FixlenType {
    if tag == 0 {
        FixlenType::Fp32
    } else if tag == 1 {
        FixlenType::Fp64
    } else if tag == 2 {
        FixlenType::Str
    } else {
        FixlenType::Blob
    }
}

/// The one legal payload width of a float subtype, `0` for string / blob.
pub open spec fn float_width(t: FixlenType) -> nat {
    match t {
        FixlenType::Fp32 => 4,
        FixlenType::Fp64 => 8,
        _ => 0,
    }
}

/// A complete fixlen word `(length << 3) | subtype`, of a scalar field or
/// (inside an array) of a float array's elements.
spec fn spec_on_fixlen_len(s: IStream, word: nat) -> IStream {
    let tag = word % 8;
    let length = word / 8;
    if tag >= 4 || length > ARRAY_MAX {
        invalid(s)
    } else {
        let t = tag_type(tag);
        let width = float_width(t);
        let legal_float = width != 0 && length == width;
        let s1 = IStream {
            fixlen_total: length as usize,
            fixlen_remaining: length as usize,
            core: Core { fixlen_type: t, ..s.core },
            ..s
        };
        if s.core.in_array {
            if !legal_float {
                invalid(s1)
            } else {
                let kind = if width == 4 { ArrayKind::Fp32 } else { ArrayKind::Fp64 };
                let s2 = emit(IStream { core: Core { array_kind: kind, ..s1.core }, ..s1 },
                    Atom::ArrayBegin(s.id, kind, s.array_remaining));
                if s2.array_remaining == 0 {
                    IStream { core: Core { in_array: false, state: State::Idle, ..s2.core }, ..s2 }
                } else {
                    with_state(s2, State::FixlenVal)
                }
            }
        } else if width != 0 && !legal_float {
            invalid(s1)
        } else {
            let s2 = emit(s1, Atom::FixlenBegin(s.id, t, length as usize));
            if width != 0 {
                with_state(s2, State::FixlenVal)
            } else if length == 0 {
                emit(with_state(s2, State::Idle), Atom::EmptyPayload(s.id, t == FixlenType::Blob))
            } else {
                with_state(s2, State::FixlenRaw)
            }
        }
    }
}

/// A complete element count of an array.
spec fn spec_on_array_count(s: IStream, count: nat) -> IStream {
    if count > ARRAY_MAX {
        invalid(s)
    } else if s.core.array_fixlen {
        IStream {
            array_remaining: count as usize,
            core: Core { in_array: true, state: State::FixlenLen, ..s.core },
            ..s
        }
    } else {
        let s1 = emit(s, Atom::ArrayBegin(s.id, s.core.array_kind, count as usize));
        if count == 0 {
            IStream { core: Core { in_array: false, state: State::Idle, ..s1.core }, ..s1 }
        } else {
            let st = if s.core.array_kind == ArrayKind::Signed { State::VarintSigned } else { State::VarintUnsigned };
            IStream { array_remaining: count as usize, core: Core { in_array: true, state: st, ..s1.core }, ..s1 }
        }
    }
}

/// One byte of a float payload: shifted in from the top, so the payload ends
/// up in wire (little-endian) order in the accumulator.
spec fn spec_fixlen_val(s: IStream, b: u8) -> IStream {
    let acc = (s.core.acc / 256 + b * 0x0100_0000_0000_0000) as u64;
    let rem = (s.fixlen_remaining - 1) as usize;
    if rem != 0 {
        IStream { fixlen_remaining: rem, core: Core { acc: acc, ..s.core }, ..s }
    } else {
        let a = if s.core.fixlen_type == FixlenType::Fp64 {
            Atom::Fp64(s.id, acc)
        } else {
            Atom::Fp32(s.id, (acc / 0x1_0000_0000) as u32)
        };
        let s1 = emit(IStream { fixlen_remaining: rem, core: Core { acc: 0, ..s.core }, ..s }, a);
        let (s2, more) = spec_advance(s1);
        if more {
            IStream { fixlen_remaining: s2.fixlen_total, ..s2 }
        } else {
            s2
        }
    }
}

/// One byte of a string / blob payload.
spec fn spec_raw_byte(s: IStream, b: u8) -> IStream {
    let rem = (s.fixlen_remaining - 1) as usize;
    let e = emit(s, Atom::PayloadByte(s.id, s.core.fixlen_type == FixlenType::Blob, s.fixlen_total,
        (s.fixlen_total - s.fixlen_remaining) as usize, b));
    if rem == 0 {
        IStream { fixlen_remaining: rem, core: Core { state: State::Idle, ..e.core }, ..e }
    } else {
        IStream { fixlen_remaining: rem, ..e }
    }
}

/// A varint completed with value `v` in the state it was read in.
spec fn spec_done(s: IStream, v: nat) -> IStream {
    let st = s.core.state;
    let s0 = IStream { core: Core { acc: 0, shift: 0, ..s.core }, ..s };
    if st == State::Idle {
        spec_on_header(s0, v)
    } else if st == State::FixlenLen {
        spec_on_fixlen_len(s0, v)
    } else if st == State::ArrayCount {
        spec_on_array_count(s0, v)
    } else if st == State::VarintUnsigned {
        spec_advance(emit(s0, Atom::Unsigned(s.id, v as Unsigned))).0
    } else {
        spec_advance(emit(s0, Atom::Signed(s.id, spec_unzigzag(v) as Signed))).0
    }
}

/// The transition of the decoder on one input byte.
spec fn spec_step(s: IStream, b: u8) -> IStream {
    let st = s.core.state;
    if st == State::Invalid {
        s
    } else if st == State::FixlenRaw {
        spec_raw_byte(s, b)
    } else if st == State::FixlenVal {
        spec_fixlen_val(s, b)
    } else {
        match spec_push(s.core.acc as nat, s.core.shift as nat, b) {
            Push::Overflow => invalid(IStream { core: Core { acc: 0, shift: 0, ..s.core }, ..s }),
            Push::More(a, sh) => IStream { core: Core { acc: a as u64, shift: sh as u8, ..s.core }, ..s },
            Push::Done(v) => spec_done(s, v),
        }
    }
}

/// The decoder after consuming `bytes` one at a time from `s`.
pub closed spec fn run(s: IStream, bytes: Seq<u8>) -> IStream
    decreases bytes.len(),
{
    if bytes.len() == 0 {
        s
    } else {
        spec_step(run(s, bytes.drop_last()), bytes.last())
    }
}

impl IStream {
    /// Well-formedness of the decoder state.
    pub closed spec fn wf(&self) -> bool {
        let c = self.core;
        &&& c.state != State::FixlenVal ==> c.varint_ok()
        &&& c.state == State::FixlenVal ==> c.shift == 0
        &&& self.fixlen_remaining <= self.fixlen_total <= ARRAY_MAX
        &&& self.array_remaining <= ARRAY_MAX
        &&& c.state == State::FixlenRaw ==> self.fixlen_remaining > 0 && c.acc == 0 && c.shift == 0
            && (c.fixlen_type == FixlenType::Str || c.fixlen_type == FixlenType::Blob)
        &&& c.state == State::FixlenVal ==> self.fixlen_remaining > 0
            && ((c.fixlen_type == FixlenType::Fp32 && self.fixlen_total == 4)
                || (c.fixlen_type == FixlenType::Fp64 && self.fixlen_total == 8))
        &&& c.in_array && (c.state == State::VarintUnsigned || c.state == State::VarintSigned
            || c.state == State::FixlenVal) ==> self.array_remaining > 0
    }

    /// The decoder has rejected its input; terminal.
    pub closed spec fn is_invalid(&self) -> bool {
        self.core.state == State::Invalid
    }

    /// The consumed bytes end exactly at a top-level field boundary: no
    /// partial header or value, no payload in progress, no open sequence.
    pub closed spec fn at_boundary(&self) -> bool {
        &&& self.core.state == State::Idle
        &&& self.core.shift == 0
        &&& self.core.depth == 0
    }

    /// Ready for the next field header: idle, no header varint begun.
    pub closed spec fn ready(&self) -> bool {
        &&& self.core.state == State::Idle
        &&& self.core.shift == 0
    }

    /// The current sequence nesting depth.
    pub closed spec fn depth(&self) -> nat {
        self.core.depth as nat
    }

    /// Everything this decoder has handed to its visitors, in order.
    pub closed spec fn delivered(&self) -> Seq<Atom> {
        self.log@
    }

    /// The three-valued outcome of the bytes consumed so far: `Ok` at a
    /// boundary, `Err(InvalidMsg)` once rejected, `Err(Incomplete)` otherwise.
    pub open spec fn outcome(&self) -> Result<()> {
        if self.is_invalid() {
            Err(Error::InvalidMsg)
        } else if self.at_boundary() {
            Ok(())
        } else {
            Err(Error::Incomplete)
        }
    }
}


/// What one byte does to a well-formed varint accumulator.
proof fn lemma_spec_push(acc: nat, shift: nat, b: u8)
    requires
        shift % 7 == 0,
        shift <= 63,
        acc < pow2(shift),
    ensures
        match spec_push(acc, shift, b) {
            Push::More(a, sh) => sh % 7 == 0 && sh <= 63 && a < pow2(sh),
            Push::Done(v) => v <= Unsigned::MAX,
            Push::Overflow => true,
        },
{
    lemma2_to64();
    lemma_pow2_adds(shift, 7);
    let p = pow2(shift);
    let payload = (b % 128) as nat;
    assert(payload * p <= 127 * p) by (nonlinear_arith)
        requires payload < 128;
}

/// What the varint accumulator, holding `acc` over `shift` bits, makes of
/// `bytes` fed one at a time: `More` with the new accumulator while the varint
/// goes on, `Done(v)` when the last byte completes value `v`, and `Overflow`
/// when it outgrows the value type or a byte follows its end.
pub open spec fn pushes(acc: nat, shift: nat, bytes: Seq<u8>) -> Push
    decreases bytes.len(),
{
    if bytes.len() == 0 {
        Push::More(acc, shift)
    } else {
        match spec_push(acc, shift, bytes[0]) {
            Push::More(a, sh) => pushes(a, sh, bytes.drop_first()),
            Push::Done(v) => if bytes.len() == 1 { Push::Done(v) } else { Push::Overflow },
            Push::Overflow => Push::Overflow,
        }
    }
}

/// The varint spelling of `u` on top of an accumulator completes on its last
/// byte with the accumulated value plus `u` at the current bit position, and
/// asks for more on every byte before.
proof fn lemma_pushes(acc: nat, sh: nat, u: nat)
    requires
        sh % 7 == 0,
        sh <= 63,
        acc < pow2(sh),
        acc + u * pow2(sh) <= Unsigned::MAX,
    ensures
        pushes(acc, sh, varint_bytes(u)) == Push::Done(acc + u * pow2(sh)),
        forall|k: int| 0 <= k < varint_bytes(u).len() ==> #[trigger] pushes(acc, sh, varint_bytes(u).take(k)) is More,
    decreases u,
{
    let p = pow2(sh);
    lemma2_to64();
    lemma_pow2_pos(sh);
    let vb = varint_bytes(u);
    assert(vb.take(0) =~= Seq::<u8>::empty());
    if u < 128 {
        assert(vb =~= seq![u as u8]);
        assert((u as u8) % 128 == u);
        assert(spec_push(acc, sh, u as u8) == Push::Done(acc + u * p));
    } else {
        let b0 = (u % 128 + 128) as u8;
        let rest = u / 128;
        assert(vb == seq![b0] + varint_bytes(rest));
        assert(b0 % 128 == u % 128);
        assert(u == rest * 128 + u % 128);
        assert(u * p == rest * 128 * p + (u % 128) * p) by (nonlinear_arith)
            requires u == rest * 128 + u % 128;
        assert((u % 128) * p <= u * p) by (nonlinear_arith)
            requires u % 128 <= u;
        let next = acc + (u % 128) * p;
        if sh + 7 >= 64 {
            assert(sh == 63);
            lemma2_to64_rest();
            assert(p == 0x8000000000000000nat);
            assert(u * p >= 128 * p) by (nonlinear_arith)
                requires u >= 128, p >= 0;
            assert(false);
        }
        assert(spec_push(acc, sh, b0) == Push::More(next, sh + 7));
        lemma_spec_push(acc, sh, b0);
        lemma_pow2_adds(sh, 7);
        assert(pow2(sh + 7) == p * 128);
        assert(rest * pow2(sh + 7) == rest * 128 * p) by (nonlinear_arith)
            requires pow2(sh + 7) == p * 128;
        lemma_pushes(next, sh + 7, rest);
        let vr = varint_bytes(rest);
        assert(vb.drop_first() =~= vr);
        assert forall|k: int| 0 <= k < vb.len() implies #[trigger] pushes(acc, sh, vb.take(k)) is More by {
            if k > 0 {
                assert(vb.take(k).drop_first() =~= vr.take(k - 1));
                assert(vb.take(k)[0] == b0);
                assert(pushes(next, sh + 7, vr.take(k - 1)) is More);
            } else {
                assert(vb.take(k) =~= Seq::<u8>::empty());
            }
        }
    }
}

/// The decoder reads back the varints the encoder spells: from an empty
/// accumulator the bytes of `varint_bytes(v)`, fed one at a time, complete
/// exactly value `v` on the last byte, and every shorter prefix leaves the
/// accumulator asking for more.
pub proof fn lemma_varint_roundtrip(v: Unsigned)
    ensures
        pushes(0, 0, varint_bytes(v as nat)) == Push::Done(v as nat),
        forall|k: int| 0 <= k < varint_bytes(v as nat).len() ==> #[trigger] pushes(0, 0, varint_bytes(v as nat).take(k)) is More,
{
    lemma2_to64();
    lemma_pushes(0, 0, v as nat);
}

/// `s` with its varint accumulator set to `acc` over `shift` bits.
spec fn with_acc(s: IStream, acc: u64, shift: u8) -> IStream {
    IStream { core: Core { acc: acc, shift: shift, ..s.core }, ..s }
}

/// One byte of a varint word: what the step makes of it.
proof fn lemma_step_word(s: IStream, b: u8)
    requires
        s.core.state != State::Invalid,
        s.core.state != State::FixlenRaw,
        s.core.state != State::FixlenVal,
    ensures
        run(s, seq![b]) == spec_step(s, b),
        spec_push(s.core.acc as nat, s.core.shift as nat, b) matches Push::More(a, sh) ==>
            spec_step(s, b) == with_acc(s, a as u64, sh as u8),
        spec_push(s.core.acc as nat, s.core.shift as nat, b) matches Push::Done(v) ==>
            spec_step(s, b) == spec_done(s, v),
        spec_push(s.core.acc as nat, s.core.shift as nat, b) is Overflow ==>
            spec_step(s, b).is_invalid() && spec_step(s, b).log == s.log && spec_step(s, b).core.depth == s.core.depth,
{
    assert(seq![b].drop_last() =~= Seq::<u8>::empty());
    lemma_run_empty(s);
}

/// Completing a word does not depend on the accumulator it was read into.
proof fn lemma_done_ignores_acc(s: IStream, a: u64, sh: u8, v: nat)
    ensures
        spec_done(with_acc(s, a, sh), v) == spec_done(s, v),
{
    let t = with_acc(s, a, sh);
    assert(IStream { core: Core { acc: 0, shift: 0, ..t.core }, ..t } == IStream { core: Core { acc: 0, shift: 0, ..s.core }, ..s });
}

/// A `u64`-sized accumulator below `2^shift` with `shift <= 63` fits `u64`.
proof fn lemma_acc_fits(a: nat, sh: nat)
    requires
        sh <= 63,
        a < pow2(sh),
    ensures
        a <= u64::MAX,
{
    lemma2_to64();
    lemma2_to64_rest();
    if sh < 63 {
        lemma_pow2_adds(sh, (63 - sh) as nat);
        lemma_pow2_pos((63 - sh) as nat);
        assert(pow2(sh) * pow2((63 - sh) as nat) >= pow2(sh)) by (nonlinear_arith)
            requires pow2((63 - sh) as nat) >= 1;
    }
}

/// Feeding `p` to a decoder that is reading a varint word follows what the
/// accumulator makes of it: still reading with the new accumulator, the word
/// completed with its value, or rejected on the byte that overflows.
#[verifier::rlimit(60)]
proof fn lemma_run_pushes(s: IStream, p: Seq<u8>)
    requires
        s.wf(),
        s.core.state != State::Invalid,
        s.core.state != State::FixlenRaw,
        s.core.state != State::FixlenVal,
    ensures
        pushes(s.core.acc as nat, s.core.shift as nat, p) matches Push::More(a, sh) ==> {
            &&& run(s, p) == with_acc(s, a as u64, sh as u8)
            &&& sh == s.core.shift + 7 * p.len()
            &&& sh <= 63
            &&& run(s, p).wf()
        },
        pushes(s.core.acc as nat, s.core.shift as nat, p) matches Push::Done(v) ==>
            run(s, p) == spec_done(s, v) && v <= Unsigned::MAX,
        pushes(s.core.acc as nat, s.core.shift as nat, p) is Overflow
            && pushes(s.core.acc as nat, s.core.shift as nat, p.drop_last()) is More ==>
            run(s, p).is_invalid() && run(s, p).log == s.log && run(s, p).core.depth == s.core.depth,
    decreases p.len(),
{
    let acc = s.core.acc as nat;
    let sh = s.core.shift as nat;
    if p.len() == 0 {
        lemma_run_empty(s);
        assert(with_acc(s, acc as u64, sh as u8) == s);
        lemma_run_wf(s, p);
    } else {
        let b = p[0];
        let rest = p.drop_first();
        assert(p =~= seq![b] + rest);
        lemma_run_chunks(s, seq![b], rest);
        lemma_step_word(s, b);
        lemma_spec_push(acc, sh, b);
        lemma_step_wf(s, b);
        let d = p.drop_last();
        match spec_push(acc, sh, b) {
            Push::More(a, sh2) => {
                let s1 = spec_step(s, b);
                lemma_acc_fits(a, sh2);
                assert(s1.core.acc as nat == a);
                assert(s1.core.shift as nat == sh2);
                lemma_run_pushes(s1, rest);
                assert(pushes(acc, sh, p) == pushes(a, sh2, rest));
                if p.len() > 1 {
                    assert(d[0] == b);
                    assert(d.drop_first() =~= rest.drop_last());
                    assert(pushes(acc, sh, d) == pushes(a, sh2, rest.drop_last()));
                }
                match pushes(a, sh2, rest) {
                    Push::Done(v) => {
                        lemma_done_ignores_acc(s, a as u64, sh2 as u8, v);
                    },
                    Push::More(a2, sh3) => {
                        assert(with_acc(s1, a2 as u64, sh3 as u8) == with_acc(s, a2 as u64, sh3 as u8));
                    },
                    _ => {},
                }
            },
            Push::Done(v) => {
                if p.len() == 1 {
                    assert(rest =~= Seq::<u8>::empty());
                    lemma_run_empty(spec_step(s, b));
                } else {
                    assert(d[0] == b);
                    if d.len() == 1 {
                        assert(pushes(acc, sh, d) == Push::Done(v));
                    }
                }
            },
            Push::Overflow => {
                if p.len() == 1 {
                    assert(rest =~= Seq::<u8>::empty());
                    lemma_run_empty(spec_step(s, b));
                } else {
                    assert(d[0] == b);
                }
            },
        }
    }
}

proof fn lemma_pow2_zero()
    ensures
        pow2(0) == 1,
{
    lemma2_to64();
}

/// Every transition keeps the decoder well-formed.
proof fn lemma_step_wf(s: IStream, b: u8)
    requires
        s.wf(),
    ensures
        spec_step(s, b).wf(),
{
    lemma_pow2_zero();
    if s.core.state != State::Invalid && s.core.state != State::FixlenRaw && s.core.state != State::FixlenVal {
        lemma_spec_push(s.core.acc as nat, s.core.shift as nat, b);
    }
}

/// Feeding bytes keeps the decoder well-formed.
proof fn lemma_run_wf(s: IStream, bytes: Seq<u8>)
    requires
        s.wf(),
    ensures
        run(s, bytes).wf(),
    decreases bytes.len(),
{
    if bytes.len() > 0 {
        lemma_run_wf(s, bytes.drop_last());
        lemma_step_wf(run(s, bytes.drop_last()), bytes.last());
    }
}

/// A rejected decoder stays rejected and unchanged, whatever it is fed: it
/// hands its visitor nothing more.
pub proof fn lemma_invalid_is_terminal(s: IStream, bytes: Seq<u8>)
    requires
        s.is_invalid(),
    ensures
        run(s, bytes) == s,
    decreases bytes.len(),
{
    if bytes.len() > 0 {
        lemma_invalid_is_terminal(s, bytes.drop_last());
    }
}

/// Chunking does not matter: feeding `a` then `b` leaves the decoder exactly
/// where feeding `a + b` at once does, having handed out the same items.
pub proof fn lemma_run_chunks(s: IStream, a: Seq<u8>, b: Seq<u8>)
    ensures
        run(s, a + b) == run(run(s, a), b),
    decreases b.len(),
{
    if b.len() == 0 {
        assert(a + b =~= a);
    } else {
        lemma_run_chunks(s, a, b.drop_last());
        assert((a + b).drop_last() =~= a + b.drop_last());
        assert((a + b).last() == b.last());
    }
}

/// Feeding nothing changes nothing.
pub proof fn lemma_run_empty(s: IStream)
    ensures
        run(s, Seq::empty()) == s,
{
}

/// The decoder after `chunks` were fed to it one call each, in order.
pub open spec fn run_each(s: IStream, chunks: Seq<Seq<u8>>) -> IStream
    decreases chunks.len(),
{
    if chunks.len() == 0 {
        s
    } else {
        run_each(run(s, chunks[0]), chunks.drop_first())
    }
}

/// Any split of the input gives the same result: feeding the chunks of a
/// message one call each, empty chunks included, leaves the decoder exactly
/// where feeding the whole message at once does. So the last call answers
/// what the single call answers, and the visitor has been handed the same
/// items in the same order (a string or blob payload counting as its bytes).
pub proof fn lemma_feed_any_split(s: IStream, chunks: Seq<Seq<u8>>)
    ensures
        run_each(s, chunks) == run(s, chunks.flatten()),
        run_each(s, chunks).outcome() == run(s, chunks.flatten()).outcome(),
        run_each(s, chunks).delivered() == run(s, chunks.flatten()).delivered(),
    decreases chunks.len(),
{
    if chunks.len() > 0 {
        lemma_feed_any_split(run(s, chunks[0]), chunks.drop_first());
        lemma_run_chunks(s, chunks[0], chunks.drop_first().flatten());
    }
}

/// Raw string / blob payload bytes only count down the payload.
proof fn lemma_run_raw(s: IStream, chunk: Seq<u8>)
    requires
        s.wf(),
        s.core.state == State::FixlenRaw,
        chunk.len() <= s.fixlen_remaining,
    ensures
        ({
            let log = Ghost(s.log@ + payload_atoms(s.id, s.core.fixlen_type == FixlenType::Blob, s.fixlen_total,
                (s.fixlen_total - s.fixlen_remaining) as nat, chunk));
            run(s, chunk) == (if chunk.len() == s.fixlen_remaining {
                IStream { fixlen_remaining: 0, core: Core { state: State::Idle, ..s.core }, log, ..s }
            } else {
                IStream { fixlen_remaining: (s.fixlen_remaining - chunk.len()) as usize, log, ..s }
            })
        }),
    decreases chunk.len(),
{
    if chunk.len() > 0 {
        let prev = chunk.drop_last();
        lemma_run_raw(s, prev);
        let blob = s.core.fixlen_type == FixlenType::Blob;
        let off = (s.fixlen_total - s.fixlen_remaining) as nat;
        let x = Atom::PayloadByte(s.id, blob, s.fixlen_total, (off + prev.len()) as usize, chunk.last());
        assert(payload_atoms(s.id, blob, s.fixlen_total, off, chunk)
            =~= payload_atoms(s.id, blob, s.fixlen_total, off, prev).push(x));
        assert((s.log@ + payload_atoms(s.id, blob, s.fixlen_total, off, prev)).push(x)
            =~= s.log@ + payload_atoms(s.id, blob, s.fixlen_total, off, chunk));
    }
}

impl IStream {
    /// A decoder at a field boundary is ready for a header at depth zero and
    /// answers `Ok`; a ready decoder has not rejected its input.
    ///
    /// Conversely a ready decoder at depth zero is at a field boundary, and a
    /// decoder that has neither rejected its input nor is ready answers
    /// `Incomplete`.
    pub proof fn lemma_boundary_is_ready(s: IStream)
        ensures
            s.at_boundary() <==> s.ready() && s.depth() == 0,
            s.at_boundary() ==> s.outcome() == Ok::<(), Error>(()),
            s.ready() ==> !s.is_invalid() && s.at_word(),
            s.at_word() ==> !s.is_invalid(),
            !s.is_invalid() && !s.ready() ==> s.outcome() == Err::<(), Error>(Error::Incomplete),
    {
    }

    /// Between words: the input is not rejected, no payload byte is owed, and
    /// no byte of the next varint word (a header, a value, a length or a
    /// count) has been read.
    pub closed spec fn at_word(&self) -> bool {
        &&& self.core.state != State::Invalid
        &&& self.core.state != State::FixlenRaw
        &&& self.core.state != State::FixlenVal
        &&& self.core.shift == 0
    }

    /// The state every new decoder starts in.
    pub closed spec fn fresh() -> IStream {
        IStream {
            core: Core {
                acc: 0,
                shift: 0,
                state: State::Idle,
                array_kind: ArrayKind::Unsigned,
                in_array: false,
                array_fixlen: false,
                fixlen_type: FixlenType::Blob,
                depth: 0,
            },
            id: 0,
            array_remaining: 0,
            fixlen_total: 0,
            fixlen_remaining: 0,
            log: Ghost(Seq::empty()),
        }
    }
}

impl Default for IStream {
    fn default() -> (r: Self)
        ensures
            r == IStream::fresh(),
            r.wf(),
            !r.is_invalid(),
            r.outcome() == Ok::<(), Error>(()),
            r.at_boundary(),
            r.ready(),
            r.depth() == 0,
            r.delivered() == Seq::<Atom>::empty(),
    {
        IStream::new()
    }
}

impl IStream {
    /// Create a fresh decoder ready to accept a new message.
    pub fn new() -> (r: Self)
        ensures
            r == IStream::fresh(),
            r.wf(),
            !r.is_invalid(),
            r.outcome() == Ok::<(), Error>(()),
            r.at_boundary(),
            r.ready(),
            r.depth() == 0,
            r.delivered() == Seq::<Atom>::empty(),
    {
        proof {
            lemma_pow2_zero();
        }
        IStream {
            core: Core {
                acc: 0,
                shift: 0,
                state: State::Idle,
                array_kind: ArrayKind::Unsigned,
                in_array: false,
                array_fixlen: false,
                fixlen_type: FixlenType::Blob,
                depth: 0,
            },
            id: 0,
            array_remaining: 0,
            fixlen_total: 0,
            fixlen_remaining: 0,
            log: Ghost(Seq::empty()),
        }
    }

    /// Hand `a` to `visitor` and log it: what the log gains is the very item
    /// the visitor is called with.
    fn deliver<V: Visitor>(&mut self, visitor: &mut V, a: Atom)
        ensures
            *final(self) == emit(*old(self), a),
    {
        proof {
            self.log@ = self.log@.push(a);
        }
        dispatch(visitor, &a);
    }

    /// Hand `chunk`, the bytes of the current string / blob payload from
    /// `offset` on, to `visitor` and log them byte by byte: the field id,
    /// kind and total length the visitor is called with are the ones logged.
    fn deliver_chunk<V: Visitor>(&mut self, visitor: &mut V, offset: usize, chunk: &[u8])
        ensures
            *final(self) == (IStream { log: Ghost(old(self).log@ + payload_atoms(old(self).id,
                old(self).core.fixlen_type == FixlenType::Blob, old(self).fixlen_total, offset as nat, chunk@)),
                ..*old(self) }),
    {
        let item = ChunkOf { id: self.id, blob: self.core.fixlen_type == FixlenType::Blob, total: self.fixlen_total, offset };
        proof {
            self.log@ = self.log@ + payload_atoms(item.id, item.blob, item.total, item.offset as nat, chunk@);
        }
        dispatch_chunk(visitor, &item, chunk);
    }

    /// Latch the terminal invalid state and report it.
    fn latch(&mut self) -> (r: Error)
        ensures
            *final(self) == invalid(*old(self)),
            r == Error::InvalidMsg,
    {
        self.core.state = State::Invalid;
        Error::InvalidMsg
    }

    /// Count one element off the array being decoded, or leave the scalar
    /// field: `true` when another element of the same array follows.
    fn advance_after_element(&mut self) -> (r: bool)
        requires
            old(self).core.in_array ==> old(self).array_remaining > 0,
        ensures
            (*final(self), r) == spec_advance(*old(self)),
    {
        if self.core.in_array {
            self.array_remaining = self.array_remaining - 1;
            if self.array_remaining > 0 {
                return true;
            }
            self.core.in_array = false;
        }
        self.core.state = State::Idle;
        false
    }

    /// True when the decoder sits exactly at a top-level field boundary.
    fn at_field_boundary(&self) -> (r: bool)
        ensures
            r == self.at_boundary(),
    {
        self.core.state == State::Idle && self.core.shift == 0 && self.core.depth == 0
    }

    fn on_header<V: Visitor>(&mut self, header: Unsigned, visitor: &mut V) -> (r: Result<()>)
        ensures
            *final(self) == spec_on_header(*old(self), header as nat),
            r is Err ==> r == Err::<(), Error>(Error::InvalidMsg) && final(self).is_invalid(),
            old(self).core.state == State::Idle && r is Ok ==> !final(self).is_invalid(),
    {
        let wire_type = header % 8;
        let id = header / 8;
        if id > ID_MAX as Unsigned {
            return Err(self.latch());
        }
        self.id = id as Id;
        self.core.in_array = false;
        self.core.array_fixlen = false;
        if wire_type == 0 {
            self.core.state = State::VarintUnsigned;
        } else if wire_type == 1 {
            self.core.state = State::VarintSigned;
        } else if wire_type == 2 {
            self.core.state = State::FixlenLen;
        } else if wire_type == 3 {
            self.core.array_kind = ArrayKind::Unsigned;
            self.core.state = State::ArrayCount;
        } else if wire_type == 4 {
            self.core.array_kind = ArrayKind::Signed;
            self.core.state = State::ArrayCount;
        } else if wire_type == 5 {
            self.core.array_fixlen = true;
            self.core.state = State::ArrayCount;
        } else if wire_type == 6 {
            if self.core.depth as u32 >= MAX_DEPTH {
                return Err(self.latch());
            }
            self.core.depth = self.core.depth + 1;
            let a = Atom::SequenceBegin(self.id);
            self.deliver(visitor, a);
        } else {
            if self.core.depth == 0 {
                return Err(self.latch());
            }
            self.core.depth = self.core.depth - 1;
            self.deliver(visitor, Atom::SequenceEnd);
        }
        Ok(())
    }

    fn on_fixlen_len<V: Visitor>(&mut self, word: Unsigned, visitor: &mut V) -> (r: Result<()>)
        requires
            old(self).core.state == State::FixlenLen,
        ensures
            *final(self) == spec_on_fixlen_len(*old(self), word as nat),
            r is Err ==> r == Err::<(), Error>(Error::InvalidMsg) && final(self).is_invalid(),
            r is Ok ==> !final(self).is_invalid(),
    {
        let subtype = match FixlenType::from_raw((word % 8) as u8) {
            Ok(t) => t,
            Err(_) => {
                return Err(self.latch());
            },
        };
        if word / 8 > ARRAY_MAX {
            return Err(self.latch());
        }
        let length = (word / 8) as usize;
        self.core.fixlen_type = subtype;
        self.fixlen_total = length;
        self.fixlen_remaining = length;
        let width: usize = match subtype {
            FixlenType::Fp32 => 4,
            FixlenType::Fp64 => 8,
            _ => 0,
        };
        let legal_float = width != 0 && length == width;
        if self.core.in_array {
            if !legal_float {
                return Err(self.latch());
            }
            let kind = if width == 4 { ArrayKind::Fp32 } else { ArrayKind::Fp64 };
            self.core.array_kind = kind;
            let a = Atom::ArrayBegin(self.id, kind, self.array_remaining);
            self.deliver(visitor, a);
            if self.array_remaining == 0 {
                self.core.in_array = false;
                self.core.state = State::Idle;
            } else {
                self.core.state = State::FixlenVal;
            }
            return Ok(());
        }
        if width != 0 && !legal_float {
            return Err(self.latch());
        }
        let a = Atom::FixlenBegin(self.id, subtype, length);
        self.deliver(visitor, a);
        if width != 0 {
            self.core.state = State::FixlenVal;
            return Ok(());
        }
        if length == 0 {
            let a = Atom::EmptyPayload(self.id, subtype == FixlenType::Blob);
            self.deliver(visitor, a);
            self.core.state = State::Idle;
        } else {
            self.core.state = State::FixlenRaw;
        }
        Ok(())
    }

    fn on_array_count<V: Visitor>(&mut self, count: Unsigned, visitor: &mut V) -> (r: Result<()>)
        requires
            old(self).core.state == State::ArrayCount,
        ensures
            *final(self) == spec_on_array_count(*old(self), count as nat),
            r is Err ==> r == Err::<(), Error>(Error::InvalidMsg) && final(self).is_invalid(),
            r is Ok ==> !final(self).is_invalid(),
    {
        if count > ARRAY_MAX {
            return Err(self.latch());
        }
        let count = count as usize;
        if self.core.array_fixlen {
            self.array_remaining = count;
            self.core.in_array = true;
            self.core.state = State::FixlenLen;
            return Ok(());
        }
        let a = Atom::ArrayBegin(self.id, self.core.array_kind, count);
        self.deliver(visitor, a);
        if count == 0 {
            self.core.in_array = false;
            self.core.state = State::Idle;
            return Ok(());
        }
        self.array_remaining = count;
        self.core.in_array = true;
        self.core.state = if self.core.array_kind == ArrayKind::Signed {
            State::VarintSigned
        } else {
            State::VarintUnsigned
        };
        Ok(())
    }

    fn step_fixlen_val<V: Visitor>(&mut self, byte: u8, visitor: &mut V)
        requires
            old(self).wf(),
            old(self).core.state == State::FixlenVal,
        ensures
            *final(self) == spec_fixlen_val(*old(self), byte),
    {
        self.core.acc = self.core.acc / 256 + (byte as Unsigned) * 0x0100_0000_0000_0000;
        self.fixlen_remaining = self.fixlen_remaining - 1;
        if self.fixlen_remaining != 0 {
            return;
        }
        match self.core.fixlen_type {
            FixlenType::Fp64 => {
                let bits = self.core.acc;
                self.core.acc = 0;
                let a = Atom::Fp64(self.id, bits);
                self.deliver(visitor, a);
            },
            _ => {
                let bits = (self.core.acc / 0x1_0000_0000) as u32;
                self.core.acc = 0;
                let a = Atom::Fp32(self.id, bits);
                self.deliver(visitor, a);
            },
        }
        if self.advance_after_element() {
            self.fixlen_remaining = self.fixlen_total;
        }
    }

    fn step<V: Visitor>(&mut self, byte: u8, visitor: &mut V) -> (r: Result<()>)
        requires
            old(self).wf(),
            !old(self).is_invalid(),
            old(self).core.state != State::FixlenRaw,
        ensures
            *final(self) == spec_step(*old(self), byte),
            r is Err ==> r == Err::<(), Error>(Error::InvalidMsg),
            r is Err <==> final(self).is_invalid(),
    {
        if self.core.state == State::FixlenVal {
            self.step_fixlen_val(byte, visitor);
            return Ok(());
        }
        let value = match self.core.push(byte) {
            Err(_) => {
                return Err(self.latch());
            },
            Ok(None) => {
                return Ok(());
            },
            Ok(Some(v)) => v,
        };
        match self.core.state {
            State::Idle => self.on_header(value, visitor),
            State::VarintUnsigned => {
                let a = Atom::Unsigned(self.id, value);
                self.deliver(visitor, a);
                self.advance_after_element();
                Ok(())
            },
            State::VarintSigned => {
                let v = zigzag_decode(value);
                let a = Atom::Signed(self.id, v);
                self.deliver(visitor, a);
                self.advance_after_element();
                Ok(())
            },
            State::FixlenLen => self.on_fixlen_len(value, visitor),
            State::ArrayCount => self.on_array_count(value, visitor),
            _ => Ok(()),
        }
    }

    /// Hand as much of a string / blob payload as `data[i..]` holds to the
    /// visitor in one chunk; returns how many bytes it took.
    fn feed_raw<V: Visitor>(&mut self, data: &[u8], i: usize, visitor: &mut V) -> (n: usize)
        requires
            old(self).wf(),
            old(self).core.state == State::FixlenRaw,
            i < data@.len(),
        ensures
            final(self).wf(),
            !final(self).is_invalid(),
            0 < n,
            i + n <= data@.len(),
            *final(self) == run(*old(self), data@.subrange(i as int, i + n)),
    {
        let rest_len = data.len() - i;
        let take = if rest_len < self.fixlen_remaining { rest_len } else { self.fixlen_remaining };
        let offset = self.fixlen_total - self.fixlen_remaining;
        let chunk = vstd::slice::slice_subrange(data, i, i + take);
        let ghost before = *self;
        self.deliver_chunk(visitor, offset, chunk);
        self.fixlen_remaining = self.fixlen_remaining - take;
        if self.fixlen_remaining == 0 {
            self.core.state = State::Idle;
        }
        proof {
            lemma_run_raw(before, chunk@);
            lemma_run_wf(before, chunk@);
        }
        take
    }

    /// Feed a chunk of encoded bytes, pushing decoded fields to `visitor`, and
    /// report the three-valued outcome of everything consumed so far: `Ok` at
    /// a field boundary, [`Error::Incomplete`] mid-field or with a sequence
    /// open, [`Error::InvalidMsg`] for malformed bytes. Invalid is terminal:
    /// every later `feed` reports it again without consuming anything.
    ///
    /// The decoder ends where [`run`] takes it, and what it hands `visitor`
    /// is what `run` adds to [`IStream::delivered`]: a string / blob chunk
    /// there counts as its payload bytes.
    #[verifier::rlimit(80)]
    pub fn feed<V: Visitor>(&mut self, data: &[u8], visitor: &mut V) -> (r: Result<()>)
        requires
            old(self).wf(),
        ensures
            final(self).wf(),
            *final(self) == run(*old(self), data@),
            r == final(self).outcome(),
            r is Ok ==> final(self).ready() && final(self).depth() == 0,
    {
        if self.core.state == State::Invalid {
            proof {
                lemma_invalid_is_terminal(*self, data@);
            }
            return Err(Error::InvalidMsg);
        }
        let ghost s0 = *self;
        let mut i: usize = 0;
        proof {
            assert(data@.take(0) =~= Seq::<u8>::empty());
        }
        while i < data.len()
            invariant
                s0 == *old(self),
                s0.wf(),
                i <= data@.len(),
                self.wf(),
                *self == run(s0, data@.take(i as int)),
                !self.is_invalid(),
            decreases data@.len() - i,
        {
            if self.core.state == State::FixlenRaw {
                let ghost before = *self;
                let n = self.feed_raw(data, i, visitor);
                proof {
                    lemma_run_chunks(s0, data@.take(i as int), data@.subrange(i as int, i + n));
                    assert(data@.take(i as int) + data@.subrange(i as int, i + n) =~= data@.take(i + n));
                }
                i = i + n;
                continue;
            }
            let ghost before = *self;
            let res = self.step(data[i], visitor);
            proof {
                assert(data@.take(i + 1).drop_last() =~= data@.take(i as int));
                lemma_step_wf(before, data@[i as int]);
            }
            match res {
                Ok(()) => {},
                Err(e) => {
                    proof {
                        lemma_run_chunks(s0, data@.take(i + 1), data@.skip(i + 1));
                        assert(data@.take(i + 1) + data@.skip(i + 1) =~= data@);
                        lemma_invalid_is_terminal(*self, data@.skip(i + 1));
                    }
                    return Err(e);
                },
            }
            i = i + 1;
        }
        proof {
            assert(data@.take(i as int) =~= data@);
        }
        if self.at_field_boundary() {
            Ok(())
        } else {
            Err(Error::Incomplete)
        }
    }
}


/// Decoding the varint spelling of `u` on top of an accumulator completes
/// with the accumulated value plus `u` at the current bit position.
#[verifier::rlimit(80)]
proof fn lemma_run_varint(s: IStream, u: nat)
    requires
        s.wf(),
        s.core.state != State::Invalid,
        s.core.state != State::FixlenRaw,
        s.core.state != State::FixlenVal,
        s.core.acc + u * pow2(s.core.shift as nat) <= Unsigned::MAX,
    ensures
        run(s, varint_bytes(u)) == spec_done(s, (s.core.acc + u * pow2(s.core.shift as nat)) as nat),
    decreases u,
{
    let acc = s.core.acc as nat;
    let sh = s.core.shift as nat;
    let p = pow2(sh);
    lemma2_to64();
    lemma_pow2_pos(sh);
    if u < 128 {
        assert(varint_bytes(u) =~= seq![u as u8]);
        assert(seq![u as u8].drop_last() =~= Seq::<u8>::empty());
        assert(run(s, seq![u as u8].drop_last()) == s);
        assert((u as u8) % 128 == u);
        assert(spec_push(acc, sh, u as u8) == Push::Done(acc + u * p));
    } else {
        let b0 = (u % 128 + 128) as u8;
        let rest = u / 128;
        assert(varint_bytes(u) == seq![b0] + varint_bytes(rest));
        lemma_run_chunks(s, seq![b0], varint_bytes(rest));
        assert(seq![b0].drop_last() =~= Seq::<u8>::empty());
        assert(b0 % 128 == u % 128);
        assert(u == rest * 128 + u % 128);
        assert(u * p == rest * 128 * p + (u % 128) * p) by (nonlinear_arith)
            requires u == rest * 128 + u % 128;
        assert((u % 128) * p <= u * p) by (nonlinear_arith)
            requires u % 128 <= u;
        let next = acc + (u % 128) * p;
        if sh + 7 >= 64 {
            assert(sh == 63);
            lemma2_to64_rest();
            assert(p == 0x8000000000000000nat);
            assert(u * p >= 128 * p) by (nonlinear_arith)
                requires u >= 128, p >= 0;
            assert(false);
        }
        assert(spec_push(acc, sh, b0) == Push::More(next, sh + 7));
        lemma_spec_push(acc, sh, b0);
        let s1 = IStream { core: Core { acc: next as u64, shift: (sh + 7) as u8, ..s.core }, ..s };
        assert(run(s, seq![b0].drop_last()) == s);
        assert(seq![b0].last() == b0);
        assert(spec_step(s, b0) == s1);
        assert(run(s, seq![b0]) == s1);
        lemma_pow2_adds(sh, 7);
        assert(pow2(sh + 7) == p * 128);
        assert(rest * pow2(sh + 7) == rest * 128 * p) by (nonlinear_arith)
            requires pow2(sh + 7) == p * 128;
        lemma_run_varint(s1, rest);
        let t1 = IStream { core: Core { acc: 0, shift: 0, ..s1.core }, ..s1 };
        let t = IStream { core: Core { acc: 0, shift: 0, ..s.core }, ..s };
        assert(t1 == t);
    }
}



/// What a field header with wire type `t` is delivered as.
pub open spec fn header_atoms(id: nat, t: nat) -> Seq<Atom> {
    if t == 6 {
        seq![Atom::SequenceBegin(id as Id)]
    } else if t == 7 {
        seq![Atom::SequenceEnd]
    } else {
        Seq::empty()
    }
}

/// A field header read from a ready decoder: the state it leaves, field by
/// field.
proof fn lemma_header(s: IStream, id: nat, t: nat)
    requires
        s.wf(),
        s.ready(),
        id <= ID_MAX,
        t < 8,
        t == 6 ==> s.core.depth < MAX_DEPTH,
        t == 7 ==> s.core.depth > 0,
    ensures
        ({
            let r = run(s, varint_bytes(id * 8 + t));
            &&& r.wf()
            &&& r.core.acc == 0
            &&& r.core.shift == 0
            &&& !r.core.in_array
            &&& r.core.array_fixlen == (t == 5)
            &&& r.id == id
            &&& r.array_remaining == s.array_remaining
            &&& r.fixlen_total == s.fixlen_total
            &&& r.fixlen_remaining == s.fixlen_remaining
            &&& r.core.depth == (if t == 6 { s.core.depth + 1 } else if t == 7 { s.core.depth - 1 } else { s.core.depth as int })
            &&& r.core.state == (if t == 0 { State::VarintUnsigned } else if t == 1 { State::VarintSigned }
                else if t == 2 { State::FixlenLen } else if t <= 5 { State::ArrayCount } else { State::Idle })
            &&& t == 3 ==> r.core.array_kind == ArrayKind::Unsigned
            &&& t == 4 ==> r.core.array_kind == ArrayKind::Signed
            &&& r.log@ == s.log@ + header_atoms(id, t)
        }),
{
    lemma_pow2_zero();
    assert(s.core.acc == 0);
    lemma_run_varint(s, id * 8 + t);
    assert((id * 8 + t) % 8 == t);
    assert((id * 8 + t) / 8 == id);
    lemma_run_wf(s, varint_bytes(id * 8 + t));
    if t == 6 {
        assert(s.log@ + seq![Atom::SequenceBegin(id as Id)] =~= s.log@.push(Atom::SequenceBegin(id as Id)));
    } else if t == 7 {
        assert(s.log@ + seq![Atom::SequenceEnd] =~= s.log@.push(Atom::SequenceEnd));
    } else {
        assert(s.log@ + Seq::<Atom>::empty() =~= s.log@);
    }
}

/// A value varint read after a scalar field header.
proof fn lemma_value(s: IStream, v: nat)
    requires
        s.wf(),
        s.core.state == State::VarintUnsigned || s.core.state == State::VarintSigned,
        !s.core.in_array,
        s.core.shift == 0,
        s.core.acc == 0,
        v <= Unsigned::MAX,
    ensures
        run(s, varint_bytes(v)).wf(),
        run(s, varint_bytes(v)).ready(),
        run(s, varint_bytes(v)).core.depth == s.core.depth,
        run(s, varint_bytes(v)).log@ == s.log@.push(if s.core.state == State::VarintUnsigned {
            Atom::Unsigned(s.id, v as Unsigned)
        } else {
            Atom::Signed(s.id, spec_unzigzag(v) as Signed)
        }),
{
    lemma_pow2_zero();
    lemma_run_varint(s, v);
    lemma_run_wf(s, varint_bytes(v));
}

/// What a scalar varint field of wire type `t` and value `v` is delivered as.
pub open spec fn scalar_atom(id: nat, t: nat, v: nat) -> Atom {
    if t == 0 {
        Atom::Unsigned(id as Id, v as Unsigned)
    } else {
        Atom::Signed(id as Id, spec_unzigzag(v) as Signed)
    }
}

/// What a string (`tag == 2`) or blob (`tag == 3`) field carrying `data` is
/// delivered as: its header, then its payload.
pub open spec fn bytes_atoms(id: nat, tag: nat, data: Seq<u8>) -> Seq<Atom> {
    seq![Atom::FixlenBegin(id as Id, if tag == 3 { FixlenType::Blob } else { FixlenType::Str }, data.len() as usize)]
        + if data.len() == 0 {
        seq![Atom::EmptyPayload(id as Id, tag == 3)]
    } else {
        payload_atoms(id as Id, tag == 3, data.len() as usize, 0, data)
    }
}

/// Reading a scalar varint field (header, then value) from a field boundary
/// ends at a field boundary, at the same depth.
pub(crate) proof fn lemma_decodes_scalar(s: IStream, id: nat, t: nat, v: nat)
    requires
        s.wf(),
        s.ready(),
        id <= ID_MAX,
        t == 0 || t == 1,
        v <= Unsigned::MAX,
    ensures
        run(s, varint_bytes(id * 8 + t) + varint_bytes(v)).wf(),
        run(s, varint_bytes(id * 8 + t) + varint_bytes(v)).ready(),
        run(s, varint_bytes(id * 8 + t) + varint_bytes(v)).depth() == s.depth(),
        run(s, varint_bytes(id * 8 + t) + varint_bytes(v)).delivered() == s.delivered().push(scalar_atom(id, t, v)),
{
    lemma_header(s, id, t);
    lemma_run_chunks(s, varint_bytes(id * 8 + t), varint_bytes(v));
    lemma_value(run(s, varint_bytes(id * 8 + t)), v);
    assert(s.log@ + header_atoms(id, t) =~= s.log@);
}

/// Reading a string or blob field from a field boundary ends at a field
/// boundary, at the same depth.
#[verifier::rlimit(80)]
pub(crate) proof fn lemma_decodes_bytes(s: IStream, id: nat, tag: nat, data: Seq<u8>)
    requires
        s.wf(),
        s.ready(),
        id <= ID_MAX,
        tag == 2 || tag == 3,
        data.len() <= ARRAY_MAX,
    ensures
        ({
            let bytes = varint_bytes(id * 8 + 2) + varint_bytes(data.len() * 8 + tag) + data;
            &&& run(s, bytes).wf()
            &&& run(s, bytes).ready()
            &&& run(s, bytes).depth() == s.depth()
            &&& run(s, bytes).delivered() == s.delivered() + bytes_atoms(id, tag, data)
        }),
{
    lemma_pow2_zero();
    let h = varint_bytes(id * 8 + 2);
    let word = data.len() * 8 + tag;
    let w = varint_bytes(word);
    lemma_header(s, id, 2);
    let s1 = run(s, h);
    lemma_run_chunks(s, h, w);
    lemma_run_varint(s1, word);
    assert(word % 8 == tag);
    assert(word / 8 == data.len());
    lemma_run_wf(s1, w);
    let s2 = run(s, h + w);
    lemma_run_chunks(s, h + w, data);
    assert(s1.log@ == s.log@) by {
        assert(s.log@ + header_atoms(id, 2) =~= s.log@);
    }
    let fb = Atom::FixlenBegin(id as Id, if tag == 3 { FixlenType::Blob } else { FixlenType::Str }, data.len() as usize);
    assert(tag_type(tag) == (if tag == 3 { FixlenType::Blob } else { FixlenType::Str }));
    assert(s2 == spec_done(s1, word));
    assert(s2.id == id);
    assert(s2.core.fixlen_type == tag_type(tag));
    assert(data.len() > 0 ==> s2.core.state == State::FixlenRaw && s2.fixlen_total == data.len()
        && s2.fixlen_remaining == data.len());
    if data.len() > 0 {
        lemma_run_raw(s2, data);
        assert(s2.log@ == s.log@.push(fb));
        assert(s.log@.push(fb) + payload_atoms(id as Id, tag == 3, data.len() as usize, 0, data)
            =~= s.log@ + bytes_atoms(id, tag, data));
    } else {
        assert(data =~= Seq::<u8>::empty());
        assert(s.log@.push(fb).push(Atom::EmptyPayload(id as Id, tag == 3)) =~= s.log@ + bytes_atoms(id, tag, data));
    }
    lemma_run_wf(s2, data);
}

/// Reading a sequence start from a field boundary below `MAX_DEPTH` is ready
/// for the first field one level deeper; reading a sequence end inside a
/// sequence is ready for the next field one level up.
pub(crate) proof fn lemma_decodes_frame(s: IStream, id: nat, t: nat)
    requires
        s.wf(),
        s.ready(),
        id <= ID_MAX,
        t == 6 || t == 7,
        t == 6 ==> s.depth() < MAX_DEPTH,
        t == 7 ==> s.depth() > 0,
    ensures
        run(s, varint_bytes(id * 8 + t)).wf(),
        run(s, varint_bytes(id * 8 + t)).ready(),
        run(s, varint_bytes(id * 8 + t)).depth() == (if t == 6 { s.depth() as int + 1 } else { s.depth() - 1 }),
        run(s, varint_bytes(id * 8 + t)).delivered() == s.delivered() + header_atoms(id, t),
{
    lemma_header(s, id, t);
}

/// The elements of a varint array, read one after the other.
/// What the elements `vals` of a varint array are delivered as.
pub open spec fn elem_atoms(id: Id, signed: bool, vals: Seq<nat>) -> Seq<Atom> {
    Seq::new(vals.len(), |i: int| if signed {
        Atom::Signed(id, spec_unzigzag(vals[i]) as Signed)
    } else {
        Atom::Unsigned(id, vals[i] as Unsigned)
    })
}

#[verifier::rlimit(80)]
proof fn lemma_run_elems(s: IStream, vals: Seq<nat>, k: int)
    requires
        s.wf(),
        s.core.state == State::VarintUnsigned || s.core.state == State::VarintSigned,
        s.core.in_array,
        s.core.shift == 0,
        s.array_remaining == vals.len(),
        vals.len() > 0,
        0 <= k <= vals.len(),
        forall|i: int| 0 <= i < vals.len() ==> #[trigger] vals[i] <= Unsigned::MAX,
    ensures
        ({
            let log = Ghost(s.log@ + elem_atoms(s.id, s.core.state == State::VarintSigned, vals.take(k)));
            &&& k < vals.len() ==> run(s, varints(vals.take(k))) == (IStream {
                array_remaining: (vals.len() - k) as usize,
                log,
                ..s
            })
            &&& k == vals.len() ==> run(s, varints(vals.take(k))) == (IStream {
                array_remaining: 0,
                core: Core { in_array: false, state: State::Idle, ..s.core },
                log,
                ..s
            })
        }),
    decreases k,
{
    lemma_pow2_zero();
    let signed = s.core.state == State::VarintSigned;
    if k == 0 {
        assert(vals.take(0) =~= Seq::<nat>::empty());
        assert(elem_atoms(s.id, signed, vals.take(0)) =~= Seq::<Atom>::empty());
        assert(s.log@ + Seq::<Atom>::empty() =~= s.log@);
        assert((IStream { array_remaining: (vals.len() - 0) as usize, log: Ghost(s.log@), ..s }) == s);
    } else {
        lemma_run_elems(s, vals, k - 1);
        lemma_varints_step(vals, k - 1);
        lemma_run_chunks(s, varints(vals.take(k - 1)), varint_bytes(vals[k - 1]));
        let prev = Ghost(s.log@ + elem_atoms(s.id, signed, vals.take(k - 1)));
        let s1 = IStream { array_remaining: (vals.len() - (k - 1)) as usize, log: prev, ..s };
        lemma_run_varint(s1, vals[k - 1]);
        let x = if signed {
            Atom::Signed(s.id, spec_unzigzag(vals[k - 1]) as Signed)
        } else {
            Atom::Unsigned(s.id, vals[k - 1] as Unsigned)
        };
        assert(elem_atoms(s.id, signed, vals.take(k)) =~= elem_atoms(s.id, signed, vals.take(k - 1)).push(x));
        assert(prev@.push(x) =~= s.log@ + elem_atoms(s.id, signed, vals.take(k)));
    }
}

/// Reading a varint array field (header, count, elements) from a field
/// boundary ends at a field boundary, at the same depth.
#[verifier::rlimit(80)]
pub(crate) proof fn lemma_decodes_varint_array(s: IStream, id: nat, t: nat, vals: Seq<nat>)
    requires
        s.wf(),
        s.ready(),
        id <= ID_MAX,
        t == 3 || t == 4,
        vals.len() <= ARRAY_MAX,
        forall|i: int| 0 <= i < vals.len() ==> #[trigger] vals[i] <= Unsigned::MAX,
    ensures
        ({
            let bytes = varint_bytes(id * 8 + t) + varint_bytes(vals.len()) + varints(vals);
            &&& run(s, bytes).wf()
            &&& run(s, bytes).ready()
            &&& run(s, bytes).depth() == s.depth()
            &&& run(s, bytes).delivered() == s.delivered().push(Atom::ArrayBegin(id as Id,
                if t == 3 { ArrayKind::Unsigned } else { ArrayKind::Signed }, vals.len() as usize))
                + elem_atoms(id as Id, t == 4, vals)
        }),
{
    lemma_pow2_zero();
    let h = varint_bytes(id * 8 + t);
    let c = varint_bytes(vals.len());
    lemma_header(s, id, t);
    let s1 = run(s, h);
    lemma_run_chunks(s, h, c);
    lemma_run_varint(s1, vals.len());
    lemma_run_wf(s1, c);
    let s2 = run(s, h + c);
    lemma_run_chunks(s, h + c, varints(vals));
    assert(s1.log@ == s.log@) by {
        assert(s.log@ + header_atoms(id, t) =~= s.log@);
    }
    let ab = Atom::ArrayBegin(id as Id, if t == 3 { ArrayKind::Unsigned } else { ArrayKind::Signed }, vals.len() as usize);
    assert(s2.log@ == s.log@.push(ab));
    if vals.len() > 0 {
        lemma_run_elems(s2, vals, vals.len() as int);
        assert(vals.take(vals.len() as int) =~= vals);
    } else {
        assert(vals =~= Seq::<nat>::empty());
        assert(elem_atoms(id as Id, t == 4, vals) =~= Seq::<Atom>::empty());
        assert(s.log@.push(ab) + Seq::<Atom>::empty() =~= s.log@.push(ab));
    }
    lemma_run_wf(s2, varints(vals));
}


/// Float payload bytes: counted down until the element is complete, which
/// then counts an array element off (or leaves the scalar field).
proof fn lemma_run_fixlen_val(s: IStream, chunk: Seq<u8>)
    requires
        s.wf(),
        s.core.state == State::FixlenVal,
        chunk.len() <= s.fixlen_remaining,
    ensures
        ({
            let r = run(s, chunk);
            &&& r.wf()
            &&& r.core.shift == 0
            &&& r.core.depth == s.core.depth
            &&& r.fixlen_total == s.fixlen_total
            &&& r.id == s.id
            &&& r.core.fixlen_type == s.core.fixlen_type
            &&& chunk.len() == s.fixlen_remaining ==> r.core.acc == 0
            &&& chunk.len() < s.fixlen_remaining ==> {
                &&& r.core.state == State::FixlenVal
                &&& r.fixlen_remaining == s.fixlen_remaining - chunk.len()
                &&& r.core.in_array == s.core.in_array
                &&& r.array_remaining == s.array_remaining
            }
            &&& chunk.len() == s.fixlen_remaining && s.core.in_array && s.array_remaining > 1 ==> {
                &&& r.core.state == State::FixlenVal
                &&& r.fixlen_remaining == s.fixlen_total
                &&& r.core.in_array
                &&& r.array_remaining == s.array_remaining - 1
            }
            &&& chunk.len() == s.fixlen_remaining && !(s.core.in_array && s.array_remaining > 1) ==> {
                &&& r.core.state == State::Idle
                &&& !r.core.in_array
            }
        }),
    decreases chunk.len(),
{
    lemma_run_wf(s, chunk);
    if chunk.len() > 0 {
        lemma_run_fixlen_val(s, chunk.drop_last());
    }
}

/// The little-endian value of `bytes`, first byte least significant.
pub open spec fn le_value(bytes: Seq<u8>) -> nat
    decreases bytes.len(),
{
    if bytes.len() == 0 {
        0
    } else {
        (bytes[0] + 256 * le_value(bytes.drop_first())) as nat
    }
}

/// The value of a float element of subtype `t` as it is handed out.
pub open spec fn float_atom(id: Id, t: FixlenType, v: nat) -> Atom {
    if t == FixlenType::Fp64 {
        Atom::Fp64(id, v as u64)
    } else {
        Atom::Fp32(id, v as u32)
    }
}

/// Appending a byte adds it at the next power of 256.
pub proof fn lemma_le_value_push(b: Seq<u8>, x: u8)
    ensures
        le_value(b.push(x)) == le_value(b) + x * pow2(8 * b.len()),
    decreases b.len(),
{
    lemma2_to64();
    if b.len() != 0 {
        let d = b.drop_first();
        assert(b.push(x).drop_first() =~= d.push(x));
        assert(b.push(x)[0] == b[0]);
        lemma_le_value_push(d, x);
        lemma_pow2_adds(8, 8 * d.len());
        assert(8 + 8 * d.len() == 8 * b.len());
        let q = pow2(8 * d.len());
        assert(pow2(8 * b.len()) == 256 * q);
        assert(le_value(b.push(x)) == b[0] + 256 * le_value(d.push(x)));
        assert(le_value(b) == b[0] + 256 * le_value(d));
        assert(256 * (le_value(d) + x * q) == 256 * le_value(d) + x * (256 * q)) by (nonlinear_arith);
        assert(le_value(d.push(x)) == le_value(d) + x * q);
        assert(le_value(b.push(x)) == le_value(b) + x * pow2(8 * b.len())) by (nonlinear_arith)
            requires
                le_value(b.push(x)) == b[0] + 256 * le_value(d.push(x)),
                le_value(b) == b[0] + 256 * le_value(d),
                le_value(d.push(x)) == le_value(d) + x * q,
                pow2(8 * b.len()) == 256 * q;
    } else {
        assert(b.push(x).drop_first() =~= Seq::<u8>::empty());
        assert(b.push(x)[0] == x);
        assert(le_value(b.push(x).drop_first()) == 0);
        assert(le_value(b.push(x)) == x as nat);
        assert(pow2(8 * b.len()) == 1);
    }
}

/// The little-endian value of `n` bytes is below `256^n`.
pub proof fn lemma_le_value_bound(b: Seq<u8>)
    ensures
        le_value(b) < pow2(8 * b.len()),
    decreases b.len(),
{
    lemma2_to64();
    if b.len() > 0 {
        let d = b.drop_first();
        lemma_le_value_bound(d);
        lemma_pow2_adds(8, 8 * d.len());
        assert(8 + 8 * d.len() == 8 * b.len());
        let q = pow2(8 * d.len());
        assert(pow2(8 * b.len()) == 256 * q);
        assert(le_value(b) == b[0] + 256 * le_value(d));
        assert(b[0] + 256 * le_value(d) < 256 * q) by (nonlinear_arith)
            requires b[0] < 256, le_value(d) < q;
    }
}

/// The first bytes of a float element, shifted in from the top: the
/// accumulator holds their little-endian value in its high bytes.
proof fn lemma_float_prefix(s: IStream, c: Seq<u8>)
    requires
        s.wf(),
        s.core.state == State::FixlenVal,
        s.fixlen_remaining == s.fixlen_total,
        s.core.acc == 0,
        c.len() < s.fixlen_total,
    ensures
        ({
            let r = run(s, c);
            &&& r.core.acc == le_value(c) * pow2((8 * (8 - c.len())) as nat)
            &&& r == IStream {
                fixlen_remaining: (s.fixlen_total - c.len()) as usize,
                core: Core { acc: r.core.acc, ..s.core },
                ..s
            }
        }),
    decreases c.len(),
{
    lemma2_to64();
    lemma2_to64_rest();
    if c.len() == 0 {
        assert(le_value(c) == 0);
        assert(run(s, c) == s);
    } else {
        let p = c.drop_last();
        let b = c.last();
        let k = p.len();
        lemma_float_prefix(s, p);
        let rp = run(s, p);
        assert(c == p.push(b));
        lemma_le_value_push(p, b);
        lemma_le_value_bound(c);
        let l = le_value(p);
        let q = pow2((8 * (7 - k)) as nat);
        lemma_pow2_adds(8, (8 * (7 - k)) as nat);
        assert(pow2((8 * (8 - k)) as nat) == 256 * q);
        lemma_pow2_adds(8 * k, (8 * (7 - k)) as nat);
        assert(pow2(8 * k) * q == pow2(56));
        assert(rp.core.acc == l * (256 * q));
        assert(rp.core.acc / 256 == l * q) by (nonlinear_arith)
            requires rp.core.acc == l * (256 * q);
        assert(le_value(c) * q == l * q + b * pow2(56)) by (nonlinear_arith)
            requires le_value(c) == l + b * pow2(8 * k), pow2(8 * k) * q == pow2(56);
        lemma_pow2_adds(8 * (k + 1), (8 * (7 - k)) as nat);
        assert(le_value(c) * q < pow2(64)) by (nonlinear_arith)
            requires le_value(c) < pow2(8 * (k + 1)), pow2(8 * (k + 1)) * q == pow2(64), q > 0;
        assert(8 * (8 - c.len()) == 8 * (7 - k));
    }
}

/// A whole float element read from its first byte hands out its
/// little-endian value.
proof fn lemma_float_element(s: IStream, c: Seq<u8>)
    requires
        s.wf(),
        s.core.state == State::FixlenVal,
        s.fixlen_remaining == s.fixlen_total,
        s.core.acc == 0,
        c.len() == s.fixlen_total,
    ensures
        run(s, c).log@ == s.log@.push(float_atom(s.id, s.core.fixlen_type, le_value(c))),
{
    lemma2_to64();
    lemma2_to64_rest();
    let p = c.drop_last();
    let b = c.last();
    let k = p.len();
    lemma_float_prefix(s, p);
    let rp = run(s, p);
    assert(c == p.push(b));
    lemma_le_value_push(p, b);
    lemma_le_value_bound(c);
    let l = le_value(p);
    let q = pow2((8 * (7 - k)) as nat);
    lemma_pow2_adds(8, (8 * (7 - k)) as nat);
    assert(pow2((8 * (8 - k)) as nat) == 256 * q);
    lemma_pow2_adds(8 * k, (8 * (7 - k)) as nat);
    assert(rp.core.acc / 256 == l * q) by (nonlinear_arith)
        requires rp.core.acc == l * (256 * q);
    assert(le_value(c) * q == l * q + b * pow2(56)) by (nonlinear_arith)
        requires le_value(c) == l + b * pow2(8 * k), pow2(8 * k) * q == pow2(56);
    let acc = (rp.core.acc / 256 + b * 0x0100_0000_0000_0000) as u64;
    if s.core.fixlen_type == FixlenType::Fp64 {
        assert(k == 7);
        assert(q == 1);
        assert(acc == le_value(c));
    } else {
        assert(k == 3);
        assert(q == 0x1_0000_0000);
        assert(le_value(c) < 0x1_0000_0000);
        assert(le_value(c) * q < 0x1_0000_0000_0000_0000) by (nonlinear_arith)
            requires le_value(c) < 0x1_0000_0000, q == 0x1_0000_0000;
        assert(acc == le_value(c) * q);
        assert(acc / 0x1_0000_0000 == le_value(c)) by (nonlinear_arith)
            requires acc == le_value(c) * q, q == 0x1_0000_0000;
    }
}

/// Reading a scalar float field (header, fixlen word, 4 or 8 payload bytes)
/// from a field boundary ends at a field boundary, at the same depth.
pub(crate) proof fn lemma_decodes_float(s: IStream, id: nat, tag: nat, payload: Seq<u8>)
    requires
        s.wf(),
        s.ready(),
        id <= ID_MAX,
        tag == 0 || tag == 1,
        payload.len() == (if tag == 0 { 4nat } else { 8nat }),
    ensures
        ({
            let bytes = varint_bytes(id * 8 + 2) + varint_bytes(payload.len() * 8 + tag) + payload;
            let t = if tag == 0 { FixlenType::Fp32 } else { FixlenType::Fp64 };
            &&& run(s, bytes).wf()
            &&& run(s, bytes).ready()
            &&& run(s, bytes).depth() == s.depth()
            &&& run(s, bytes).delivered() == s.delivered().push(Atom::FixlenBegin(id as Id, t, payload.len() as usize))
                .push(float_atom(id as Id, t, le_value(payload)))
        }),
{
    lemma_pow2_zero();
    let h = varint_bytes(id * 8 + 2);
    let word = payload.len() * 8 + tag;
    let w = varint_bytes(word);
    lemma_header(s, id, 2);
    let s1 = run(s, h);
    lemma_run_chunks(s, h, w);
    lemma_run_varint(s1, word);
    assert(word % 8 == tag);
    assert(word / 8 == payload.len());
    lemma_run_wf(s1, w);
    let s2 = run(s, h + w);
    lemma_run_chunks(s, h + w, payload);
    lemma_run_fixlen_val(s2, payload);
    assert(s1.log@ == s.log@) by {
        assert(s.log@ + header_atoms(id, 2) =~= s.log@);
    }
    assert(s2 == spec_done(s1, word));
    assert(s2.core.state == State::FixlenVal && s2.core.acc == 0 && s2.id == id);
    assert(s2.fixlen_remaining == s2.fixlen_total && s2.fixlen_total == payload.len());
    assert(s2.core.fixlen_type == (if tag == 0 { FixlenType::Fp32 } else { FixlenType::Fp64 }));
    lemma_float_element(s2, payload);
}

/// What the first `k` elements of a float array, `width` payload bytes each,
/// are handed out as.
pub open spec fn float_elem_atoms(id: Id, t: FixlenType, payload: Seq<u8>, width: nat, k: nat) -> Seq<Atom> {
    Seq::new(k, |i: int| float_atom(id, t, le_value(payload.subrange(i * width, i * width + width))))
}

/// The elements of a float array, `width` payload bytes each.
#[verifier::rlimit(80)]
proof fn lemma_run_float_elems(s: IStream, payload: Seq<u8>, n: nat, width: nat, k: nat)
    requires
        s.wf(),
        s.core.state == State::FixlenVal,
        s.core.in_array,
        s.array_remaining == n,
        s.fixlen_remaining == width,
        s.fixlen_total == width,
        payload.len() == n * width,
        n > 0,
        k <= n,
        s.core.acc == 0,
    ensures
        ({
            let r = run(s, payload.take((k * width) as int));
            &&& r.wf()
            &&& r.core.shift == 0
            &&& r.core.acc == 0
            &&& r.id == s.id
            &&& r.core.fixlen_type == s.core.fixlen_type
            &&& r.log@ == s.log@ + float_elem_atoms(s.id, s.core.fixlen_type, payload, width, k)
            &&& r.core.depth == s.core.depth
            &&& k < n ==> r.core.state == State::FixlenVal && r.core.in_array && r.array_remaining == n - k
                && r.fixlen_remaining == width && r.fixlen_total == width
            &&& k == n ==> r.core.state == State::Idle
        }),
    decreases k,
{
    if k == 0 {
        assert(k * width == 0) by (nonlinear_arith)
            requires k == 0;
        assert(payload.take(0) =~= Seq::<u8>::empty());
        assert(run(s, payload.take(0)) == s);
        assert(float_elem_atoms(s.id, s.core.fixlen_type, payload, width, 0) =~= Seq::<Atom>::empty());
        assert(s.log@ + Seq::<Atom>::empty() =~= s.log@);
    } else {
        let km = (k - 1) as nat;
        lemma_run_float_elems(s, payload, n, width, km);
        let a = payload.take((km * width) as int);
        assert(k * width == km * width + width) by (nonlinear_arith)
            requires k == km + 1;
        assert(km * width + width <= n * width) by (nonlinear_arith)
            requires km + 1 <= n;
        let b = payload.subrange((km * width) as int, (k * width) as int);
        assert(a + b =~= payload.take((k * width) as int));
        lemma_run_chunks(s, a, b);
        assert(b.len() == width);
        let ra = run(s, a);
        assert(ra.core.state == State::FixlenVal);
        assert(ra.array_remaining == n - km);
        assert(ra.fixlen_remaining == width);
        lemma_run_fixlen_val(ra, b);
        lemma_float_element(ra, b);
        let rb = run(ra, b);
        let x = float_atom(s.id, s.core.fixlen_type, le_value(b));
        assert(float_elem_atoms(s.id, s.core.fixlen_type, payload, width, k)
            =~= float_elem_atoms(s.id, s.core.fixlen_type, payload, width, km).push(x));
        assert(rb.log@ =~= s.log@ + float_elem_atoms(s.id, s.core.fixlen_type, payload, width, k));
        assert(run(s, payload.take((k * width) as int)) == rb);
        if k == n {
            assert(!(ra.core.in_array && ra.array_remaining > 1));
            assert(rb.core.state == State::Idle);
        } else {
            assert(rb.core.state == State::FixlenVal);
            assert(rb.core.in_array);
            assert(rb.array_remaining == n - k);
            assert(rb.fixlen_remaining == width);
            assert(rb.fixlen_total == width);
        }
        assert(rb.wf());
        assert(rb.core.shift == 0);
        assert(rb.core.depth == s.core.depth);
    }
}

/// Reading a float array field (header, count, fixlen word, `count` elements
/// of 4 or 8 bytes) from a field boundary ends at a field boundary, at the
/// same depth.
#[verifier::rlimit(80)]
pub(crate) proof fn lemma_decodes_float_array(s: IStream, id: nat, tag: nat, n: nat, payload: Seq<u8>)
    requires
        s.wf(),
        s.ready(),
        id <= ID_MAX,
        tag == 0 || tag == 1,
        n <= ARRAY_MAX,
        payload.len() == n * (if tag == 0 { 4nat } else { 8nat }),
    ensures
        ({
            let width: nat = if tag == 0 { 4 } else { 8 };
            let bytes = varint_bytes(id * 8 + 5) + varint_bytes(n) + varint_bytes(width * 8 + tag) + payload;
            let t = if tag == 0 { FixlenType::Fp32 } else { FixlenType::Fp64 };
            let kind = if tag == 0 { ArrayKind::Fp32 } else { ArrayKind::Fp64 };
            &&& run(s, bytes).wf()
            &&& run(s, bytes).ready()
            &&& run(s, bytes).depth() == s.depth()
            &&& run(s, bytes).delivered() == s.delivered().push(Atom::ArrayBegin(id as Id, kind, n as usize))
                + float_elem_atoms(id as Id, t, payload, width, n)
        }),
{
    lemma_pow2_zero();
    let width: nat = if tag == 0 { 4 } else { 8 };
    let h = varint_bytes(id * 8 + 5);
    let c = varint_bytes(n);
    let word = width * 8 + tag;
    let w = varint_bytes(word);
    lemma_header(s, id, 5);
    let s1 = run(s, h);
    lemma_run_chunks(s, h, c);
    lemma_run_varint(s1, n);
    lemma_run_wf(s1, c);
    let s2 = run(s, h + c);
    assert(s1.core.state == State::ArrayCount && s1.core.array_fixlen);
    assert(s2 == spec_done(s1, n));
    assert(s2.core.state == State::FixlenLen);
    assert(s2.core.acc == 0 && s2.core.shift == 0);
    assert(s2.core.in_array && s2.array_remaining == n);
    lemma_run_chunks(s, h + c, w);
    assert(word % 8 == tag);
    assert(word / 8 == width);
    lemma_run_varint(s2, word);
    lemma_run_wf(s2, w);
    let s3 = run(s, h + c + w);
    assert(s3 == spec_done(s2, word));
    lemma_run_chunks(s, h + c + w, payload);
    assert(s1.log@ == s.log@) by {
        assert(s.log@ + header_atoms(id, 5) =~= s.log@);
    }
    let t = if tag == 0 { FixlenType::Fp32 } else { FixlenType::Fp64 };
    let kind = if tag == 0 { ArrayKind::Fp32 } else { ArrayKind::Fp64 };
    let ab = Atom::ArrayBegin(id as Id, kind, n as usize);
    assert(s2.log@ == s.log@);
    assert(s3.log@ == s.log@.push(ab));
    if n > 0 {
        assert(s3.core.acc == 0 && s3.id == id && s3.core.fixlen_type == t);
        lemma_run_float_elems(s3, payload, n, width, n);
        assert(payload.take((n * width) as int) =~= payload);
    } else {
        assert(payload =~= Seq::<u8>::empty());
        assert(float_elem_atoms(id as Id, t, payload, width, n) =~= Seq::<Atom>::empty());
        assert(s.log@.push(ab) + Seq::<Atom>::empty() =~= s.log@.push(ab));
    }
    lemma_run_wf(s3, payload);
}


/// One byte on its own as a varint word: complete with its value below
/// `0x80`, otherwise asking for more with its low seven bits accumulated.
pub proof fn lemma_one_byte_word(b: u8)
    ensures
        b < 128 ==> pushes(0, 0, seq![b]) == Push::Done(b as nat),
        b >= 128 ==> pushes(0, 0, seq![b]) == Push::More((b - 128) as nat, 7),
{
    lemma_pow2_zero();
    lemma2_to64();
    assert(seq![b].drop_first() =~= Seq::<u8>::empty());
    assert(seq![b][0] == b);
    if b >= 128 {
        assert(b % 128 == b - 128);
        assert(spec_push(0, 0, b) == Push::More((b - 128) as nat, 7));
        assert(pushes((b - 128) as nat, 7, Seq::<u8>::empty()) == Push::More((b - 128) as nat, 7));
        assert(pushes(0, 0, seq![b]) == pushes((b - 128) as nat, 7, seq![b].drop_first()));
    } else {
        assert(spec_push(0, 0, b) == Push::Done(b as nat));
    }
}

/// A varint word cut short leaves the decoder waiting: from between words,
/// bytes that the accumulator still reads as unfinished answer `Incomplete`
/// with nothing handed to the visitor. A word whose last byte overflows the
/// value type (a payload bit above bit 63, or a tenth continuation byte) is
/// rejected, again with nothing handed on.
pub proof fn lemma_word_partial(s: IStream, p: Seq<u8>)
    requires
        s.wf(),
        s.at_word(),
        p.len() > 0,
    ensures
        pushes(0, 0, p) is More ==> {
            &&& run(s, p).wf()
            &&& !run(s, p).is_invalid()
            &&& !run(s, p).ready()
            &&& run(s, p).depth() == s.depth()
            &&& run(s, p).delivered() == s.delivered()
            &&& run(s, p).outcome() == Err::<(), Error>(Error::Incomplete)
        },
        pushes(0, 0, p) is Overflow && pushes(0, 0, p.drop_last()) is More ==>
            run(s, p).is_invalid() && run(s, p).delivered() == s.delivered(),
{
    lemma_pow2_zero();
    assert(s.core.acc == 0);
    lemma_run_pushes(s, p);
    if pushes(0, 0, p) is More {
        let r = run(s, p);
        assert(r.core.shift != 0);
        assert(r.core.state == s.core.state);
        assert(!r.at_boundary());
    }
}

/// A complete field header word `h` read at a field boundary. An id above
/// [`ID_MAX`] is rejected. A sequence start opens one more level, rejected at
/// [`MAX_DEPTH`]; a sequence end closes one, rejected with none open; both are
/// handed to the visitor and leave the decoder ready. Any other header leaves
/// it waiting for the field's next word (`Incomplete`), nothing handed on.
pub proof fn lemma_header_word(s: IStream, p: Seq<u8>, h: nat)
    requires
        s.wf(),
        s.ready(),
        pushes(0, 0, p) == Push::Done(h),
    ensures
        h / 8 > ID_MAX ==> run(s, p).is_invalid() && run(s, p).delivered() == s.delivered(),
        h / 8 <= ID_MAX && h % 8 <= 5 ==> {
            &&& run(s, p).wf()
            &&& run(s, p).at_word()
            &&& !run(s, p).ready()
            &&& run(s, p).depth() == s.depth()
            &&& run(s, p).delivered() == s.delivered()
            &&& run(s, p).outcome() == Err::<(), Error>(Error::Incomplete)
        },
        h / 8 <= ID_MAX && h % 8 == 6 && s.depth() < MAX_DEPTH ==> {
            &&& run(s, p).wf()
            &&& run(s, p).ready()
            &&& run(s, p).depth() == s.depth() + 1
            &&& run(s, p).delivered() == s.delivered().push(Atom::SequenceBegin((h / 8) as Id))
        },
        h / 8 <= ID_MAX && h % 8 == 6 && s.depth() >= MAX_DEPTH ==> run(s, p).is_invalid(),
        h / 8 <= ID_MAX && h % 8 == 7 && s.depth() > 0 ==> {
            &&& run(s, p).wf()
            &&& run(s, p).ready()
            &&& run(s, p).depth() == s.depth() - 1
            &&& run(s, p).delivered() == s.delivered().push(Atom::SequenceEnd)
        },
        h / 8 <= ID_MAX && h % 8 == 7 && s.depth() == 0 ==> run(s, p).is_invalid(),
{
    lemma_pow2_zero();
    assert(s.core.acc == 0);
    lemma_run_pushes(s, p);
    lemma_run_wf(s, p);
}

/// Feeding `n` single-byte sequence-start headers `h` to a ready decoder at
/// depth `d`: while `d + n` stays within [`MAX_DEPTH`] it is ready again at
/// depth `d + n` (still `Incomplete` unless no level is open); past it the
/// input is rejected.
pub proof fn lemma_nesting_run(s: IStream, h: u8, n: nat)
    requires
        s.wf(),
        s.ready(),
        h < 128,
        h % 8 == 6,
        h / 8 <= ID_MAX,
    ensures
        s.depth() + n <= MAX_DEPTH ==> {
            &&& run(s, Seq::new(n, |i: int| h)).wf()
            &&& run(s, Seq::new(n, |i: int| h)).ready()
            &&& run(s, Seq::new(n, |i: int| h)).depth() == s.depth() + n
        },
        s.depth() + n > MAX_DEPTH ==> run(s, Seq::new(n, |i: int| h)).is_invalid(),
    decreases n,
{
    let q = Seq::new(n, |i: int| h);
    if n == 0 {
        assert(q =~= Seq::<u8>::empty());
        lemma_run_empty(s);
    } else {
        let q0 = Seq::new((n - 1) as nat, |i: int| h);
        assert(q.drop_last() =~= q0);
        lemma_nesting_run(s, h, (n - 1) as nat);
        let m = run(s, q0);
        assert(run(s, q) == spec_step(m, h));
        if s.depth() + (n - 1) <= MAX_DEPTH {
            lemma_one_byte_word(h);
            lemma_header_word(m, seq![h], h as nat);
            lemma_run_empty(m);
            assert(seq![h].drop_last() =~= Seq::<u8>::empty());
            assert(run(m, seq![h]) == spec_step(m, h));
        } else {
            assert(m.core.state == State::Invalid);
        }
    }
}


/// The state a field header of wire type `h % 8 <= 5` leaves, read at a
/// field boundary.
#[verifier::rlimit(60)]
proof fn lemma_after_header(s: IStream, p: Seq<u8>, h: nat)
    requires
        s.wf(),
        s.ready(),
        pushes(0, 0, p) == Push::Done(h),
        h / 8 <= ID_MAX,
        h % 8 <= 5,
    ensures
        ({
            let r = run(s, p);
            &&& r.wf()
            &&& r.core.acc == 0
            &&& r.core.shift == 0
            &&& !r.core.in_array
            &&& r.core.array_fixlen == (h % 8 == 5)
            &&& r.id == h / 8
            &&& r.core.depth == s.core.depth
            &&& r.log == s.log
            &&& r.core.state == (if h % 8 == 0 { State::VarintUnsigned } else if h % 8 == 1 { State::VarintSigned }
                else if h % 8 == 2 { State::FixlenLen } else { State::ArrayCount })
            &&& h % 8 == 3 ==> r.core.array_kind == ArrayKind::Unsigned
            &&& h % 8 == 4 ==> r.core.array_kind == ArrayKind::Signed
        }),
{
    lemma_pow2_zero();
    assert(s.core.acc == 0);
    lemma_run_pushes(s, p);
    lemma_run_wf(s, p);
}

/// An unsigned (`h % 8 == 0`) or signed (`h % 8 == 1`) field read at a field
/// boundary, its header word `h` and value word `v` spelled by any complete
/// varints: the value is handed to the visitor and the decoder is ready
/// again at the same depth.
#[verifier::rlimit(60)]
pub proof fn lemma_scalar_word(s: IStream, ph: Seq<u8>, h: nat, pv: Seq<u8>, v: nat)
    requires
        s.wf(),
        s.ready(),
        pushes(0, 0, ph) == Push::Done(h),
        h / 8 <= ID_MAX,
        h % 8 <= 1,
        pushes(0, 0, pv) == Push::Done(v),
    ensures
        run(s, ph + pv).wf(),
        run(s, ph + pv).ready(),
        run(s, ph + pv).depth() == s.depth(),
        run(s, ph + pv).delivered() == s.delivered().push(scalar_atom(h / 8, h % 8, v)),
{
    lemma_after_header(s, ph, h);
    let s1 = run(s, ph);
    lemma_run_pushes(s1, pv);
    lemma_run_chunks(s, ph, pv);
    lemma_run_wf(s, ph + pv);
}

/// A fixlen field (`h % 8 == 2`) read at a field boundary up to its fixlen
/// word `w = length * 8 + subtype`. A reserved subtype (4 to 7), a length
/// above [`ARRAY_MAX`] or a float whose length is not its width is rejected
/// with nothing handed on. Otherwise the field is announced at this word;
/// an empty string or blob is complete (its one empty chunk handed on, the
/// decoder ready), any other field still owes its payload (`Incomplete`).
#[verifier::rlimit(80)]
pub proof fn lemma_fixlen_word(s: IStream, ph: Seq<u8>, h: nat, pw: Seq<u8>, w: nat)
    requires
        s.wf(),
        s.ready(),
        pushes(0, 0, ph) == Push::Done(h),
        h / 8 <= ID_MAX,
        h % 8 == 2,
        pushes(0, 0, pw) == Push::Done(w),
    ensures
        ({
            let r = run(s, ph + pw);
            let tag = w % 8;
            let len = w / 8;
            let bad = tag >= 4 || len > ARRAY_MAX || (tag < 2 && len != float_width(tag_type(tag)));
            &&& bad ==> r.is_invalid() && r.delivered() == s.delivered()
            &&& !bad ==> {
                &&& r.wf()
                &&& !r.is_invalid()
                &&& r.depth() == s.depth()
                &&& r.delivered() == s.delivered().push(Atom::FixlenBegin((h / 8) as Id, tag_type(tag), len as usize))
                    + (if tag >= 2 && len == 0 { seq![Atom::EmptyPayload((h / 8) as Id, tag == 3)] } else { Seq::empty() })
                &&& r.ready() <==> (tag >= 2 && len == 0)
            }
        }),
{
    lemma_after_header(s, ph, h);
    let s1 = run(s, ph);
    lemma_run_pushes(s1, pw);
    lemma_run_chunks(s, ph, pw);
    lemma_run_wf(s, ph + pw);
    let r = run(s, ph + pw);
    let tag = w % 8;
    let len = w / 8;
    if tag >= 2 && len == 0 && tag < 4 {
        assert(s1.log@.push(Atom::FixlenBegin((h / 8) as Id, tag_type(tag), len as usize))
            .push(Atom::EmptyPayload((h / 8) as Id, tag == 3))
            =~= s1.log@.push(Atom::FixlenBegin((h / 8) as Id, tag_type(tag), len as usize))
            + seq![Atom::EmptyPayload((h / 8) as Id, tag == 3)]);
    } else {
        assert(s1.log@.push(Atom::FixlenBegin((h / 8) as Id, tag_type(tag), len as usize)) + Seq::<Atom>::empty()
            =~= s1.log@.push(Atom::FixlenBegin((h / 8) as Id, tag_type(tag), len as usize)));
    }
}

/// An array field (`h % 8` of 3, 4 or 5) read at a field boundary up to its
/// element count `c`. A count above [`ARRAY_MAX`] is rejected with nothing
/// handed on. An unsigned or signed array is announced at its count, and is
/// complete when empty; otherwise it waits for its first element. A float
/// array announces nothing yet: it waits for its fixlen word.
#[verifier::rlimit(80)]
pub proof fn lemma_array_count(s: IStream, ph: Seq<u8>, h: nat, pc: Seq<u8>, c: nat)
    requires
        s.wf(),
        s.ready(),
        pushes(0, 0, ph) == Push::Done(h),
        h / 8 <= ID_MAX,
        3 <= h % 8 <= 5,
        pushes(0, 0, pc) == Push::Done(c),
    ensures
        c > ARRAY_MAX ==> run(s, ph + pc).is_invalid() && run(s, ph + pc).delivered() == s.delivered(),
        c <= ARRAY_MAX ==> run(s, ph + pc).wf() && !run(s, ph + pc).is_invalid()
            && run(s, ph + pc).depth() == s.depth(),
        c <= ARRAY_MAX && h % 8 == 5 ==> run(s, ph + pc).at_word() && !run(s, ph + pc).ready()
            && run(s, ph + pc).delivered() == s.delivered(),
        c <= ARRAY_MAX && h % 8 <= 4 ==> {
            &&& run(s, ph + pc).delivered() == s.delivered().push(Atom::ArrayBegin((h / 8) as Id,
                if h % 8 == 3 { ArrayKind::Unsigned } else { ArrayKind::Signed }, c as usize))
            &&& run(s, ph + pc).ready() <==> c == 0
            &&& c > 0 ==> run(s, ph + pc).at_word()
        },
{
    lemma_after_header(s, ph, h);
    let s1 = run(s, ph);
    lemma_run_pushes(s1, pc);
    lemma_run_chunks(s, ph, pc);
    lemma_run_wf(s, ph + pc);
}

/// A float array field (`h % 8 == 5`) read at a field boundary up to its
/// fixlen word `w`, after a count `c` within [`ARRAY_MAX`]. Anything but an
/// `fp32` word of length 4 or an `fp64` word of length 8 is rejected with
/// nothing handed on. Otherwise the array is announced with its element kind
/// and count, and is complete when empty; else it waits for its elements.
#[verifier::rlimit(80)]
pub proof fn lemma_float_array_word(s: IStream, ph: Seq<u8>, h: nat, pc: Seq<u8>, c: nat, pw: Seq<u8>, w: nat)
    requires
        s.wf(),
        s.ready(),
        pushes(0, 0, ph) == Push::Done(h),
        h / 8 <= ID_MAX,
        h % 8 == 5,
        pushes(0, 0, pc) == Push::Done(c),
        c <= ARRAY_MAX,
        pushes(0, 0, pw) == Push::Done(w),
    ensures
        ({
            let r = run(s, ph + pc + pw);
            let tag = w % 8;
            let legal = tag < 2 && w / 8 == float_width(tag_type(tag));
            &&& !legal ==> r.is_invalid() && r.delivered() == s.delivered()
            &&& legal ==> {
                &&& r.wf()
                &&& !r.is_invalid()
                &&& r.depth() == s.depth()
                &&& r.delivered() == s.delivered().push(Atom::ArrayBegin((h / 8) as Id,
                    if tag == 0 { ArrayKind::Fp32 } else { ArrayKind::Fp64 }, c as usize))
                &&& r.ready() <==> c == 0
            }
        }),
{
    lemma_array_count(s, ph, h, pc, c);
    lemma_after_header(s, ph, h);
    let s1 = run(s, ph);
    lemma_run_pushes(s1, pc);
    lemma_run_chunks(s, ph, pc);
    let s2 = run(s, ph + pc);
    lemma_pow2_zero();
    lemma_run_pushes(s2, pw);
    lemma_run_chunks(s, ph + pc, pw);
    lemma_run_wf(s, ph + pc + pw);
}

} // verus!
