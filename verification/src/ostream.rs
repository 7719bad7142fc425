//! Streaming output encoder.
//!
//! [`OStream`] writes fields into a caller-owned byte buffer. When the buffer
//! fills it hands the bytes to an optional [`Flush`] sink and resumes writing,
//! so a message larger than the buffer can be streamed out. With no sink a
//! full buffer yields [`Error::BufferFull`].
use vstd::prelude::*;
use vstd::string::StringSliceAdditionalSpecFns;
use crate::error::{Error, Result};
use crate::types::{Id, Signed, Unsigned, FixlenType, fixlen_tag, ID_MAX, MAX_DEPTH, T_VARINT_UNSIGNED, T_VARINT_SIGNED, T_FIXLEN, T_VARINTARRAY_UNSIGNED, T_VARINTARRAY_SIGNED, T_FIXLENARRAY, T_SEQUENCE_START, T_SEQUENCE_END};
use crate::varint::{varints, lemma_varints_step, varint_bytes, spec_zigzag, zigzag_encode, split_low7, lemma_varint_len, lemma_varint_continuation};

verus! {

/// Sink that receives the buffered bytes whenever the output buffer is
/// flushed. Any `FnMut(&[u8])` closure is one.
pub trait Flush {
    /// Whether this sink drains the buffer. `true` for a real sink (a full
    /// buffer flushes and writing resumes); [`NoFlush`] sets it to `false`, so
    /// a full buffer is [`Error::BufferFull`] instead.
    const SINKS: bool = true;

    /// Consume `data`, the bytes accumulated since the last flush.
    fn flush(&mut self, data: &[u8]);
}

/// Calls the user's closure `f` on `data` (std's `FnMut::call_mut`).
/// Nothing is claimed of what the closure does.
#[verifier::external_body]
fn call_sink<T: FnMut(&[u8])>(f: &mut T, data: &[u8]) {
    f(data)
}

impl<T: FnMut(&[u8])> Flush for T {
    fn flush(&mut self, data: &[u8]) {
        call_sink(self, data)
    }
}

/// A closure sink drains: a full buffer is flushed to it and writing resumes.
pub proof fn lemma_closure_sinks<T: FnMut(&[u8])>()
    ensures
        <T as Flush>::SINKS,
{
}

/// A [`Flush`] sink that does nothing: a full buffer is [`Error::BufferFull`].
#[derive(Debug, Clone, Copy, Default)]
pub struct NoFlush;

impl Flush for NoFlush {
    const SINKS: bool = false;

    fn flush(&mut self, data: &[u8]) {
    }
}

impl NoFlush {
    /// A stream without a sink never drains: a full buffer is its end.
    pub proof fn lemma_never_sinks()
        ensures
            !<NoFlush as Flush>::SINKS,
    {
    }
}

/// Where the encoder looks for a replacement buffer once a [`Flush`] callback
/// has returned, and where it hands back the buffer that callback took.
pub trait Handoff<'a> {
    /// Whether a sink on this stream can install a replacement buffer.
    const TAKES: bool = true;

    /// The buffer a sink installed during the callback that just returned,
    /// with the offset writing resumes at (always leaving room for a byte).
    /// `None` means the sink copied.
    fn installed(&self) -> (r: Option<(&'a mut [u8], usize)>)
        ensures
            r matches Some(p) ==> p.1 < p.0@.len(),
    ;

    /// Hand the buffer the sink took back to it.
    fn retire(&self, buffer: &'a mut [u8]);
}

/// The [`Handoff`] of a stream whose sink cannot install a replacement buffer.
#[derive(Debug, Clone, Copy, Default)]
pub struct NoHandoff;

impl<'a> Handoff<'a> for NoHandoff {
    const TAKES: bool = false;

    fn installed(&self) -> (r: Option<(&'a mut [u8], usize)>) {
        None
    }

    fn retire(&self, buffer: &'a mut [u8]) {
    }
}

impl NoHandoff {
    /// A stream without a handover channel never swaps its buffer.
    pub proof fn lemma_never_takes<'a>()
        ensures
            !<NoHandoff as Handoff<'a>>::TAKES,
    {
    }
}

#[verifier::external_type_specification]
#[verifier::external_body]
#[verifier::reject_recursive_types(T)]
pub struct ExCell<T: ?Sized>(core::cell::Cell<T>);

/// `Cell::new` of std: a cell holding `value`. Nothing is claimed of the
/// contents, which Verus does not see.
#[verifier::external_body]
fn cell_new<T>(value: T) -> core::cell::Cell<T> {
    core::cell::Cell::new(value)
}

/// `Cell::take` of std: the contents, leaving the default behind. Nothing is
/// claimed of what comes back.
#[verifier::external_body]
fn cell_take<T: Default>(cell: &core::cell::Cell<T>) -> T {
    cell.take()
}

/// `Cell::set` of std: replace the contents with `value`.
#[verifier::external_body]
fn cell_set<T>(cell: &core::cell::Cell<T>, value: T) {
    cell.set(value)
}

/// A buffer a sink installed, with the offset writing resumes at. It always
/// leaves room for at least one byte.
struct Slot<'a> {
    buffer: &'a mut [u8],
    offset: usize,
}

impl<'a> Slot<'a> {
    #[verifier::type_invariant]
    spec fn room(self) -> bool {
        self.offset < self.buffer@.len()
    }
}

/// The take-and-replace channel between a [`Flush`] sink and its encoder.
///
/// A sink that takes the buffer it was handed installs a replacement through
/// [`Handover::install`] before it returns; the encoder then resumes in the
/// replacement at that installation's offset and hands the buffer it stopped
/// writing into back through [`Handover::taken`]. A callback that installs
/// nothing copied: same buffer, resume at `0`.
#[derive(Default)]
pub struct Handover<'a> {
    next: core::cell::Cell<Option<Slot<'a>>>,
    retired: core::cell::Cell<Option<&'a mut [u8]>>,
}

impl<'a> Handover<'a> {
    /// Create an empty channel.
    pub fn new() -> (r: Self) {
        Handover { next: cell_new(None), retired: cell_new(None) }
    }

    /// Install `buffer` as the encoder's next output buffer, resuming writes at
    /// `offset` in it. [`Error::Argument`] if `offset` lies past the end of
    /// `buffer` or leaves less than [`MIN_OUTPUT_BUFFER`] bytes of room; a
    /// rejected buffer is not installed. Installing twice in one callback keeps
    /// the last buffer.
    pub fn install(&self, buffer: &'a mut [u8], offset: usize) -> (r: Result<()>)
        ensures
            r is Ok <==> install_ok(old(buffer)@.len(), offset as nat, true),
            r is Err ==> r == Err::<(), Error>(Error::Argument),
    {
        match check_install(buffer.len(), offset, true) {
            Ok(()) => {},
            Err(e) => {
                return Err(e);
            },
        }
        cell_set(&self.next, Some(Slot { buffer, offset }));
        Ok(())
    }

    /// Take back the buffer the encoder stopped writing into after a
    /// replacement was installed; `None` if nothing was retired since the last
    /// call.
    pub fn taken(&self) -> Option<&'a mut [u8]> {
        cell_take(&self.retired)
    }
}

impl<'a> Handoff<'a> for &'a Handover<'a> {
    fn installed(&self) -> (r: Option<(&'a mut [u8], usize)>) {
        match cell_take(&self.next) {
            Some(slot) => {
                proof {
                    use_type_invariant(&slot);
                }
                let Slot { buffer, offset } = slot;
                Some((buffer, offset))
            },
            None => None,
        }
    }

    fn retire(&self, buffer: &'a mut [u8]) {
        cell_set(&self.retired, Some(buffer));
    }
}

/// How many nested sequence headers can be held back at once. A deeper run
/// is framed eagerly: still valid, just not canonical.
pub const LAZY_SEQ_DEPTH: usize = 8;

/// Smallest output buffer accepted for streaming, i.e. together with a sink.
pub const MIN_OUTPUT_BUFFER: usize = 1;

/// The header varint of a field: `(id << 3) | wire_type`.
pub open spec fn header_bytes(id: nat, wire_type: nat) -> Seq<u8> {
    varint_bytes(id * 8 + wire_type)
}

/// The `SEQUENCE_START` headers of a held-back run, outermost first.
pub open spec fn start_run(ids: Seq<Id>) -> Seq<u8>
    decreases ids.len(),
{
    if ids.len() == 0 {
        Seq::empty()
    } else {
        start_run(ids.drop_last()) + header_bytes(ids.last() as nat, T_SEQUENCE_START as nat)
    }
}

/// Whether a buffer of `len` bytes, written from `offset`, may be installed:
/// the offset lies within the buffer and, with a sink, leaves room for at
/// least [`MIN_OUTPUT_BUFFER`] bytes.
pub open spec fn install_ok(len: nat, offset: nat, sinks: bool) -> bool {
    offset <= len && (sinks ==> len - offset >= MIN_OUTPUT_BUFFER)
}

/// `now` is `before` extended by a strict, possibly empty, prefix of `full`.
pub open spec fn cut_short(before: Seq<u8>, now: Seq<u8>, full: Seq<u8>) -> bool {
    &&& before.len() <= now.len() < before.len() + full.len()
    &&& now == (before + full).take(now.len() as int)
}

/// A field of unsigned value `v`.
pub open spec fn unsigned_field(id: nat, v: nat) -> Seq<u8> {
    header_bytes(id, T_VARINT_UNSIGNED as nat) + varint_bytes(v)
}

/// A field of signed value `v` (ZigZag-mapped).
pub open spec fn signed_field(id: nat, v: int) -> Seq<u8> {
    header_bytes(id, T_VARINT_SIGNED as nat) + varint_bytes(spec_zigzag(v))
}

/// A fixed-length field carrying `data` under subtype `t`.
pub open spec fn fixlen_field(id: nat, data: Seq<u8>, t: FixlenType) -> Seq<u8> {
    header_bytes(id, T_FIXLEN as nat) + varint_bytes(data.len() * 8 + fixlen_tag(t) as nat) + data
}

/// Concatenation of byte groups, in order.
pub open spec fn concat_groups(groups: Seq<Seq<u8>>) -> Seq<u8>
    decreases groups.len(),
{
    if groups.len() == 0 {
        Seq::empty()
    } else {
        concat_groups(groups.drop_last()) + groups.last()
    }
}

/// An array field of varint elements `vals` under wire type `wire_type`:
/// header, element count, elements.
pub open spec fn varint_array_field(id: nat, wire_type: nat, vals: Seq<nat>) -> Seq<u8> {
    header_bytes(id, wire_type) + varint_bytes(vals.len()) + varints(vals)
}

/// Little-endian bytes of the low `n` bytes of `x`.
pub open spec fn le_bytes(x: nat, n: nat) -> Seq<u8>
    decreases n,
{
    if n == 0 {
        Seq::empty()
    } else {
        seq![(x % 256) as u8] + le_bytes(x / 256, (n - 1) as nat)
    }
}

/// A float array field: header, element count, the fixlen word naming the
/// element width and subtype (present even for an empty array), then each
/// element's little-endian bit pattern.
pub open spec fn float_array_field(id: nat, t: FixlenType, width: nat, bits: Seq<nat>) -> Seq<u8> {
    header_bytes(id, T_FIXLENARRAY as nat) + varint_bytes(bits.len()) + varint_bytes(width * 8 + fixlen_tag(t) as nat)
        + concat_groups(bits.map_values(|b: nat| le_bytes(b, width)))
}

/// The end marker of a sequence.
pub open spec fn sequence_end_bytes() -> Seq<u8> {
    header_bytes(0, T_SEQUENCE_END as nat)
}

/// Validate a buffer/offset pair at the point it is handed to the encoder.
fn check_install(len: usize, offset: usize, sinks: bool) -> (r: Result<()>)
    ensures
        r is Ok <==> install_ok(len as nat, offset as nat, sinks),
        r is Err ==> r == Err::<(), Error>(Error::Argument),
{
    if offset > len {
        return Err(Error::Argument);
    }
    let room = len - offset;
    if sinks && room < MIN_OUTPUT_BUFFER {
        return Err(Error::Argument);
    }
    Ok(())
}

/// Streaming encoder writing into a caller-provided buffer.
pub struct OStream<'a, F: Flush = NoFlush, H: Handoff<'a> = NoHandoff> {
    buffer: &'a mut [u8],
    offset: usize,
    flush: F,
    handoff: H,
    depth: u32,
    pending: [Id; LAZY_SEQ_DEPTH],
    npending: usize,
    sunk: Ghost<Seq<u8>>,
    written: Ghost<Seq<u8>>,
    /// Every chunk handed to the sink, one per call, in order.
    chunks: Ghost<Seq<Seq<u8>>>,
    /// For each chunk, the header room its buffer held before the message.
    rooms: Ghost<Seq<Seq<u8>>>,
    /// The header room of the active buffer: its bytes before the message.
    room: Ghost<Seq<u8>>,
    /// Message bytes left in buffers replaced without a sink.
    kept: Ghost<Seq<u8>>,
}

/// The message bytes carried by `chunks`: each chunk without the header room
/// `rooms[i]` it begins with.
pub open spec fn message_of(chunks: Seq<Seq<u8>>, rooms: Seq<Seq<u8>>) -> Seq<u8>
    decreases chunks.len(),
{
    if chunks.len() == 0 || rooms.len() == 0 {
        Seq::empty()
    } else {
        message_of(chunks.drop_last(), rooms.drop_last()) + chunks.last().skip(rooms.last().len() as int)
    }
}

/// Handing one more chunk, which begins with header room `room`, to the sink
/// carries that chunk's message bytes on.
pub proof fn lemma_message_push(chunks: Seq<Seq<u8>>, rooms: Seq<Seq<u8>>, c: Seq<u8>, room: Seq<u8>)
    requires
        chunks.len() == rooms.len(),
    ensures
        message_of(chunks.push(c), rooms.push(room)) == message_of(chunks, rooms) + c.skip(room.len() as int),
        concat_groups(chunks.push(c)) == concat_groups(chunks) + c,
{
    assert(chunks.push(c).drop_last() =~= chunks);
    assert(rooms.push(room).drop_last() =~= rooms);
}

impl<'a, F: Flush, H: Handoff<'a>> OStream<'a, F, H> {
    /// The active buffer's content.
    pub closed spec fn buf(&self) -> Seq<u8> {
        self.buffer@
    }

    /// The write cursor in the active buffer.
    pub closed spec fn pos(&self) -> nat {
        self.offset as nat
    }

    /// Every byte handed to the sink so far, in order.
    pub closed spec fn sunk(&self) -> Seq<u8> {
        self.sunk@
    }

    /// Every message byte this stream has produced so far, in order.
    pub closed spec fn written(&self) -> Seq<u8> {
        self.written@
    }

    /// Every chunk handed to the sink, one per call, in order.
    pub closed spec fn chunks(&self) -> Seq<Seq<u8>> {
        self.chunks@
    }

    /// For each chunk handed to the sink, the header room it begins with: the
    /// bytes its buffer held before the offset it was installed (or resumed)
    /// at.
    pub closed spec fn rooms(&self) -> Seq<Seq<u8>> {
        self.rooms@
    }

    /// The header room of the active buffer: the bytes before the offset it
    /// was installed (or resumed) at, which writing leaves untouched.
    pub closed spec fn room(&self) -> Seq<u8> {
        self.room@
    }

    /// Message bytes left with the caller in buffers that were replaced on a
    /// stream without a sink.
    pub closed spec fn kept(&self) -> Seq<u8> {
        self.kept@
    }

    /// The output so far as a receiver of the sink sees it: what it was handed
    /// followed by what still waits in the active buffer.
    pub open spec fn out(&self) -> Seq<u8> {
        self.sunk() + self.buf().take(self.pos() as int)
    }

    /// The ids of the held-back sequences, outermost first.
    pub closed spec fn pending(&self) -> Seq<Id> {
        self.pending@.take(self.npending as int)
    }

    /// The number of currently open sequences.
    pub closed spec fn depth(&self) -> nat {
        self.depth as nat
    }

    /// Well-formedness: the cursor lies in the buffer, a streaming buffer is
    /// never empty, the held-back run fits its window and is a suffix of the
    /// open sequences, a stream without a sink never hands anything out, and
    /// the message written so far is what the sink was handed (header room
    /// left out), then what was left in replaced buffers, then the live part
    /// of the active buffer.
    pub closed spec fn wf(&self) -> bool {
        &&& self.offset <= self.buffer@.len()
        &&& F::SINKS ==> self.buffer@.len() >= 1
        &&& self.npending <= LAZY_SEQ_DEPTH
        &&& self.npending <= self.depth
        &&& self.depth <= MAX_DEPTH
        &&& !F::SINKS ==> self.sunk@ == Seq::<u8>::empty()
        &&& self.chunks@.len() == self.rooms@.len()
        &&& forall|i: int| 0 <= i < self.chunks@.len() ==>
            (#[trigger] self.chunks@[i]).take(self.rooms@[i].len() as int) == self.rooms@[i]
            && self.rooms@[i].len() <= self.chunks@[i].len()
        &&& self.sunk@ == concat_groups(self.chunks@)
        &&& self.room@.len() <= self.offset
        &&& self.buffer@.take(self.room@.len() as int) == self.room@
        &&& self.written@ == message_of(self.chunks@, self.rooms@) + self.kept@
            + self.buffer@.subrange(self.room@.len() as int, self.offset as int)
        &&& F::SINKS ==> self.kept@ == Seq::<u8>::empty()
        &&& !F::SINKS ==> self.chunks@ == Seq::<Seq<u8>>::empty()
    }

    /// `new` extends `old` by exactly `bytes`: as message bytes, and, on a
    /// stream whose sink cannot swap buffers, as output. Where the bytes fit
    /// the room left (always, without a sink) they go into the same buffer
    /// after the cursor, nothing before it changes and the sink is not called.
    pub open spec fn wrote(old: Self, new: Self, bytes: Seq<u8>) -> bool {
        &&& new.written() == old.written() + bytes
        &&& !H::TAKES ==> new.out() == old.out() + bytes
        &&& (!F::SINKS || old.pos() + bytes.len() <= old.buf().len()) ==> {
            &&& new.buf().len() == old.buf().len()
            &&& new.pos() == old.pos() + bytes.len()
            &&& new.buf().take(old.pos() as int) == old.buf().take(old.pos() as int)
            &&& new.chunks() == old.chunks()
            &&& new.rooms() == old.rooms()
            &&& new.room() == old.room()
            &&& new.sunk() == old.sunk()
            &&& new.kept() == old.kept()
        }
        &&& new.pos() <= new.buf().len()
    }

    /// `new` extends `old` by a strict prefix of `full`, and the buffer is
    /// full: what a write leaves behind when it runs out of room, which,
    /// without a sink, happens only when `full` does not fit the room left,
    /// and then fills exactly that room, in the same buffer, nothing before
    /// the cursor changed.
    pub open spec fn wrote_cut(old: Self, new: Self, full: Seq<u8>) -> bool {
        &&& cut_short(old.written(), new.written(), full)
        &&& !H::TAKES ==> cut_short(old.out(), new.out(), full)
        &&& !H::TAKES ==> new.out().len() - old.out().len() == new.written().len() - old.written().len()
        &&& new.pos() == new.buf().len()
        &&& !F::SINKS ==> {
            &&& new.buf().len() == old.buf().len()
            &&& old.pos() + full.len() > old.buf().len()
            &&& new.written().len() - old.written().len() == new.pos() - old.pos()
            &&& new.buf().take(old.pos() as int) == old.buf().take(old.pos() as int)
            &&& new.chunks() == old.chunks()
            &&& new.rooms() == old.rooms()
            &&& new.room() == old.room()
            &&& new.kept() == old.kept()
        }
    }

    /// Outcome of writing the bytes `full`, the held-back run untouched.
    pub open spec fn raw_outcome(old: Self, new: Self, full: Seq<u8>, r: Result<()>) -> bool {
        &&& new.pending() == old.pending()
        &&& new.depth() == old.depth()
        &&& match r {
            Ok(_) => Self::wrote(old, new, full),
            Err(e) => e == Error::BufferFull && !F::SINKS && Self::wrote_cut(old, new, full),
        }
    }

    /// Of the held-back run of `old`, exactly the headers wholly contained in
    /// the `n` bytes emitted have left it; the rest is still held back.
    pub open spec fn run_committed(old: Self, new: Self, n: nat) -> bool {
        let p = old.pending();
        let q = new.pending();
        let c = p.len() - q.len();
        &&& q.len() <= p.len()
        &&& q == p.skip(c)
        &&& start_run(p.take(c)).len() <= n
        &&& c < p.len() ==> n < start_run(p.take(c + 1)).len()
    }

    /// Outcome of a field write whose bytes are `full`: the held-back run of
    /// `old` followed by the field itself. On success every byte is out and the
    /// run is gone; on a full buffer a strict prefix is out, and the run keeps
    /// exactly the headers that did not reach the buffer.
    pub open spec fn field_outcome(old: Self, new: Self, full: Seq<u8>, r: Result<()>) -> bool {
        match r {
            Ok(_) => Self::wrote(old, new, full) && new.pending() == Seq::<Id>::empty(),
            Err(e) => e == Error::BufferFull && !F::SINKS && Self::wrote_cut(old, new, full)
                && Self::run_committed(old, new, (new.written().len() - old.written().len()) as nat),
        }
    }

    /// Outcome of opening a held-back sequence `id`: refused past
    /// [`MAX_DEPTH`] or above [`ID_MAX`] with nothing changed; otherwise held
    /// back without a byte while the window has room, or, with the window
    /// full, the pending run committed and this header framed eagerly.
    pub open spec fn begin_lazy_outcome(old: Self, new: Self, id: Id, r: Result<()>) -> bool {
        &&& (old.depth() >= MAX_DEPTH || id > ID_MAX ==> r == Err::<(), Error>(Error::Argument) && new == old)
        &&& (old.depth() < MAX_DEPTH && id <= ID_MAX && old.pending().len() < LAZY_SEQ_DEPTH ==> {
            &&& r is Ok
            &&& new.pending() == old.pending().push(id)
            &&& new.depth() == old.depth() + 1
            &&& new.written() == old.written()
            &&& new.sunk() == old.sunk()
            &&& new.buf() == old.buf()
            &&& new.pos() == old.pos()
            &&& new.chunks() == old.chunks()
            &&& new.rooms() == old.rooms()
            &&& new.room() == old.room()
            &&& new.kept() == old.kept()
        })
        &&& (old.depth() < MAX_DEPTH && id <= ID_MAX && old.pending().len() >= LAZY_SEQ_DEPTH ==> {
            &&& Self::field_outcome(old, new,
                start_run(old.pending()) + header_bytes(id as nat, T_SEQUENCE_START as nat), r)
            &&& new.depth() == (if r is Ok { old.depth() + 1 } else { old.depth() })
        })
    }

    /// Outcome of writing the unsigned field `id` of value `v`: refused with
    /// nothing changed above [`ID_MAX`], otherwise the held-back run and the
    /// field go out; the depth is unchanged either way.
    pub open spec fn unsigned_outcome(old: Self, new: Self, id: Id, v: nat, r: Result<()>) -> bool {
        &&& new.depth() == old.depth()
        &&& id > ID_MAX ==> r == Err::<(), Error>(Error::Argument) && new == old
        &&& id <= ID_MAX ==> Self::field_outcome(old, new, start_run(old.pending()) + unsigned_field(id as nat, v), r)
    }

    /// Outcome of closing the innermost sequence: refused with nothing changed
    /// when no sequence is open; a held-back one is dropped without a byte; a
    /// framed one gets its end marker.
    pub open spec fn end_outcome(old: Self, new: Self, r: Result<()>) -> bool {
        &&& (old.depth() == 0 ==> r == Err::<(), Error>(Error::Argument) && new == old)
        &&& (old.depth() > 0 && old.pending().len() > 0 ==> {
            &&& r is Ok
            &&& new.pending() == old.pending().drop_last()
            &&& new.depth() == old.depth() - 1
            &&& new.written() == old.written()
            &&& new.sunk() == old.sunk()
            &&& new.buf() == old.buf()
            &&& new.pos() == old.pos()
            &&& new.chunks() == old.chunks()
            &&& new.rooms() == old.rooms()
            &&& new.room() == old.room()
            &&& new.kept() == old.kept()
        })
        &&& (old.depth() > 0 && old.pending().len() == 0 ==> {
            &&& Self::field_outcome(old, new, sequence_end_bytes(), r)
            &&& new.depth() == (if r is Ok { old.depth() - 1 } else { old.depth() as int })
        })
    }

    /// Outcome of closing the innermost sequence and keeping its frame:
    /// refused with nothing changed when no sequence is open; otherwise the
    /// held-back run is committed and the end marker follows.
    pub open spec fn end_keep_outcome(old: Self, new: Self, r: Result<()>) -> bool {
        &&& (old.depth() == 0 ==> r == Err::<(), Error>(Error::Argument) && new == old)
        &&& (old.depth() > 0 ==> {
            &&& Self::field_outcome(old, new, start_run(old.pending()) + sequence_end_bytes(), r)
            &&& new.depth() == (if r is Ok { old.depth() - 1 } else { old.depth() as int })
        })
    }

    fn push_byte(&mut self, b: u8) -> (r: Result<()>)
        requires
            old(self).wf(),
        ensures
            final(self).wf(),
            Self::raw_outcome(*old(self), *final(self), seq![b], r),
            F::SINKS ==> r is Ok,
            r is Err ==> *final(self) == *old(self),
    {
        if self.offset >= self.buffer.len() {
            if !F::SINKS {
                proof {
                    assert(self.written() =~= (self.written() + seq![b]).take(self.written().len() as int));
                    assert(self.out() =~= (self.out() + seq![b]).take(self.out().len() as int));
                }
                return Err(Error::BufferFull);
            }
            self.drain();
        }
        let ghost mid = *self;
        if self.offset < self.buffer.len() {
            self.buffer[self.offset] = b;
            self.offset = self.offset + 1;
            proof {
                self.written@ = self.written@.push(b);
                assert(self.buffer@.take(mid.offset as int) =~= mid.buffer@.take(mid.offset as int));
                let k = self.room@.len() as int;
                assert(self.buffer@.take(k) =~= mid.buffer@.take(k));
                assert(self.buffer@.subrange(k, self.offset as int)
                    =~= mid.buffer@.subrange(k, mid.offset as int).push(b));
                assert(self.buf().take(self.pos() as int) =~= mid.buf().take(mid.pos() as int).push(b));
                assert(self.out() =~= mid.out() + seq![b]);
                assert(self.written() =~= old(self).written() + seq![b]);
            }
            Ok(())
        } else {
            Err(Error::BufferFull)
        }
    }

    fn drain(&mut self)
        requires
            old(self).wf(),
            F::SINKS,
        ensures
            final(self).wf(),
            final(self).pos() < final(self).buf().len(),
            final(self).written() == old(self).written(),
            final(self).pending() == old(self).pending(),
            final(self).depth() == old(self).depth(),
            final(self).sunk() == old(self).sunk() + old(self).buf().take(old(self).pos() as int),
            final(self).chunks() == old(self).chunks().push(old(self).buf().take(old(self).pos() as int)),
            final(self).rooms() == old(self).rooms().push(old(self).room()),
            final(self).room().len() == final(self).pos(),
            final(self).kept() == old(self).kept(),
            !H::TAKES ==> final(self).pos() == 0 && final(self).buf() == old(self).buf(),
            !H::TAKES ==> final(self).out() == old(self).out(),
    {
        let end = self.offset;
        self.flush.flush(vstd::slice::slice_subrange(self.buffer, 0, end));
        proof {
            let c = self.buffer@.take(end as int);
            let k = self.room@.len() as int;
            lemma_message_push(self.chunks@, self.rooms@, c, self.room@);
            assert(c.skip(k) =~= self.buffer@.subrange(k, end as int));
            assert(c.take(k) =~= self.buffer@.take(k));
            self.sunk@ = self.sunk@ + c;
            self.chunks@ = self.chunks@.push(c);
            self.rooms@ = self.rooms@.push(self.room@);
            self.room@ = Seq::empty();
            assert(self.buffer@.take(0) =~= Seq::<u8>::empty());
            assert(self.buffer@.subrange(0, 0) =~= Seq::<u8>::empty());
            assert(self.written@ =~= message_of(self.chunks@, self.rooms@) + self.kept@ + Seq::<u8>::empty());
        }
        self.offset = 0;
        if H::TAKES {
            match self.handoff.installed() {
                Some((next, offset)) => {
                    let mut next = next;
                    core::mem::swap(&mut self.buffer, &mut next);
                    self.handoff.retire(next);
                    self.offset = offset;
                    proof {
                        self.room@ = self.buffer@.take(offset as int);
                        assert(self.buffer@.subrange(offset as int, offset as int) =~= Seq::<u8>::empty());
                    }
                },
                None => {},
            }
        }
        proof {
            assert(self.buf().take(0) =~= Seq::<u8>::empty());
        }
    }

    proof fn lemma_wrote_trans(s0: Self, s1: Self, s2: Self, a: Seq<u8>, b: Seq<u8>)
        requires
            Self::wrote(s0, s1, a),
            Self::wrote(s1, s2, b),
        ensures
            Self::wrote(s0, s2, a + b),
    {
        assert(s2.written() =~= s0.written() + (a + b));
        assert(!H::TAKES ==> s2.out() =~= s0.out() + (a + b));
        if !F::SINKS || s0.pos() + (a + b).len() <= s0.buf().len() {
            let k = s0.pos() as int;
            assert(s2.buf().take(k) =~= s2.buf().take(s1.pos() as int).take(k));
            assert(s1.buf().take(k) =~= s1.buf().take(s1.pos() as int).take(k));
        }
    }

    proof fn lemma_cut_after(s0: Self, s1: Self, s2: Self, a: Seq<u8>, b: Seq<u8>)
        requires
            Self::wrote(s0, s1, a),
            Self::wrote_cut(s1, s2, b),
        ensures
            Self::wrote_cut(s0, s2, a + b),
            s2.written().len() - s0.written().len() >= a.len(),
    {
        assert(s0.written() + (a + b) =~= s1.written() + b);
        assert(!H::TAKES ==> s0.out() + (a + b) =~= s1.out() + b);
        if !F::SINKS {
            let k = s0.pos() as int;
            assert(s2.buf().take(k) =~= s2.buf().take(s1.pos() as int).take(k));
            assert(s1.buf().take(k) =~= s1.buf().take(s1.pos() as int).take(k));
        }
    }

    proof fn lemma_start_run_step(p: Seq<Id>, i: int)
        requires
            0 <= i < p.len(),
        ensures
            start_run(p.take(i + 1)) == start_run(p.take(i)) + header_bytes(p[i] as nat, T_SEQUENCE_START as nat),
    {
        assert(p.take(i + 1).drop_last() =~= p.take(i));
    }

    /// Field outcome of a header write followed by a raw body write.
    proof fn lemma_field_then(s0: Self, s1: Self, s2: Self, a: Seq<u8>, b: Seq<u8>, r2: Result<()>)
        requires
            Self::field_outcome(s0, s1, a, Ok(())),
            Self::raw_outcome(s1, s2, b, r2),
            a.len() >= start_run(s0.pending()).len(),
        ensures
            Self::field_outcome(s0, s2, a + b, r2),
    {
        match r2 {
            Ok(_) => {
                Self::lemma_wrote_trans(s0, s1, s2, a, b);
            },
            Err(_) => {
                Self::lemma_cut_after(s0, s1, s2, a, b);
                let p = s0.pending();
                assert(p.skip(p.len() as int) =~= Seq::<Id>::empty());
                assert(p.take(p.len() as int) =~= p);
            },
        }
    }

    fn write_varint(&mut self, value: Unsigned) -> (r: Result<()>)
        requires
            old(self).wf(),
        ensures
            final(self).wf(),
            Self::raw_outcome(*old(self), *final(self), varint_bytes(value as nat), r),
            F::SINKS ==> r is Ok,
    {
        let ghost full = varint_bytes(value as nat);
        let ghost start = *self;
        let ghost mut done: Seq<u8> = Seq::empty();
        let mut v = value;
        proof {
            assert(start.written() + done =~= start.written());
            assert(start.out() + done =~= start.out());
        }
        loop
            invariant
                self.wf(),
                start == *old(self),
                full == varint_bytes(value as nat),
                full == done + varint_bytes(v as nat),
                Self::wrote(start, *self, done),
                self.pending() == start.pending(),
                self.depth() == start.depth(),
            decreases v,
        {
            let (lo, rest) = split_low7(v);
            let b: u8 = if rest != 0 { lo + 128 } else { lo };
            proof {
                if v as nat >= 128 {
                    assert(varint_bytes(v as nat) == seq![b] + varint_bytes(rest as nat));
                } else {
                    assert(varint_bytes(v as nat) == seq![b]);
                }
            }
            let ghost before = *self;
            match self.push_byte(b) {
                Ok(()) => {},
                Err(e) => {
                    proof {
                        lemma_varint_len(v as nat);
                        assert(full.take(done.len() as int) =~= done);
                        assert(start.written() + full =~= start.written() + done + varint_bytes(v as nat));
                        assert((start.written() + full).take(self.written().len() as int) =~= self.written());
                        assert(!H::TAKES ==> (start.out() + full).take(self.out().len() as int) =~= self.out());
                    }
                    return Err(e);
                },
            }
            proof {
                Self::lemma_wrote_trans(start, before, *self, done, seq![b]);
                if rest != 0 {
                    assert(full =~= (done + seq![b]) + varint_bytes(rest as nat));
                } else {
                    assert(full =~= done + seq![b]);
                }
                done = done + seq![b];
            }
            if rest == 0 {
                return Ok(());
            }
            v = rest;
        }
    }

    fn push_raw(&mut self, data: &[u8]) -> (r: Result<()>)
        requires
            old(self).wf(),
        ensures
            final(self).wf(),
            Self::raw_outcome(*old(self), *final(self), data@, r),
            F::SINKS ==> r is Ok,
    {
        let ghost start = *self;
        let mut i: usize = 0;
        proof {
            assert(start.written() + data@.take(0) =~= start.written());
            assert(start.out() + data@.take(0) =~= start.out());
        }
        while i < data.len()
            invariant
                self.wf(),
                start == *old(self),
                i <= data@.len(),
                Self::wrote(start, *self, data@.take(i as int)),
                self.pending() == start.pending(),
                self.depth() == start.depth(),
            decreases data@.len() - i,
        {
            let ghost before = *self;
            match self.push_byte(data[i]) {
                Ok(()) => {},
                Err(e) => {
                    proof {
                        assert((start.written() + data@).take(self.written().len() as int) =~= self.written());
                        assert(!H::TAKES ==> (start.out() + data@).take(self.out().len() as int) =~= self.out());
                    }
                    return Err(e);
                },
            }
            proof {
                Self::lemma_wrote_trans(start, before, *self, data@.take(i as int), seq![data@[i as int]]);
                assert(data@.take(i as int) + seq![data@[i as int]] =~= data@.take(i + 1));
            }
            i = i + 1;
        }
        proof {
            assert(data@.take(i as int) =~= data@);
        }
        Ok(())
    }

    /// Drop the outermost `k` entries of the held-back run.
    fn drop_front(&mut self, k: usize)
        requires
            old(self).wf(),
            k <= old(self).pending().len(),
        ensures
            final(self).wf(),
            final(self).pending() == old(self).pending().skip(k as int),
            final(self).depth() == old(self).depth(),
            final(self).written() == old(self).written(),
            final(self).sunk() == old(self).sunk(),
            final(self).buf() == old(self).buf(),
            final(self).pos() == old(self).pos(),
            final(self).chunks() == old(self).chunks(),
            final(self).rooms() == old(self).rooms(),
            final(self).room() == old(self).room(),
            final(self).kept() == old(self).kept(),
    {
        let remaining = self.npending - k;
        let ghost p0 = self.pending@;
        let mut i: usize = 0;
        while i < remaining
            invariant
                self.wf(),
                self.npending == old(self).npending,
                remaining == self.npending - k,
                k <= self.npending,
                i <= remaining,
                self.pending@.len() == LAZY_SEQ_DEPTH,
                p0 == old(self).pending@,
                forall|j: int| 0 <= j < i ==> #[trigger] self.pending@[j] == p0[j + k],
                forall|j: int| i <= j < LAZY_SEQ_DEPTH ==> #[trigger] self.pending@[j] == p0[j],
                self.depth == old(self).depth,
                self.written == old(self).written,
                self.sunk == old(self).sunk,
                self.buffer@ == old(self).buffer@,
                self.offset == old(self).offset,
                self.chunks == old(self).chunks,
                self.rooms == old(self).rooms,
                self.room == old(self).room,
                self.kept == old(self).kept,
            decreases remaining - i,
        {
            let id = self.pending[i + k];
            self.pending[i] = id;
            i = i + 1;
        }
        self.npending = remaining;
        proof {
            assert(self.pending() =~= old(self).pending().skip(k as int));
        }
    }

    /// Write out the held-back sequence headers, outermost first. Only the
    /// headers that reached the buffer leave the run.
    fn commit_pending(&mut self) -> (r: Result<()>)
        requires
            old(self).wf(),
        ensures
            final(self).wf(),
            Self::field_outcome(*old(self), *final(self), start_run(old(self).pending()), r),
            final(self).depth() == old(self).depth(),
            F::SINKS ==> r is Ok,
    {
        let ghost start = *self;
        let ghost p = self.pending();
        let n = self.npending;
        let mut i: usize = 0;
        proof {
            assert(start.written() + start_run(p.take(0)) =~= start.written());
            assert(start.out() + start_run(p.take(0)) =~= start.out());
        }
        while i < n
            invariant
                self.wf(),
                start == *old(self),
                p == start.pending(),
                n == p.len(),
                i <= n,
                self.pending() == p,
                self.depth() == start.depth(),
                Self::wrote(start, *self, start_run(p.take(i as int))),
            decreases n - i,
        {
            let id = self.pending[i];
            let ghost before = *self;
            let res = self.write_varint((id as Unsigned) * 8 + T_SEQUENCE_START as Unsigned);
            proof {
                Self::lemma_start_run_step(p, i as int);
            }
            match res {
                Ok(()) => {
                    proof {
                        Self::lemma_wrote_trans(start, before, *self, start_run(p.take(i as int)),
                            header_bytes(id as nat, T_SEQUENCE_START as nat));
                    }
                },
                Err(e) => {
                    let ghost cut = *self;
                    proof {
                        Self::lemma_cut_after(start, before, cut, start_run(p.take(i as int)),
                            header_bytes(id as nat, T_SEQUENCE_START as nat));
                    }
                    self.drop_front(i);
                    proof {
                        let full = start_run(p);
                        let pre = start_run(p.take(i + 1));
                        lemma_start_run_prefix(p, i + 1);
                        assert(full.take(pre.len() as int) =~= pre);
                        assert((start.written() + pre).take(self.written().len() as int) =~= self.written());
                        assert((start.written() + full).take(self.written().len() as int) =~= self.written()) by {
                            assert((start.written() + full).take((start.written().len() + pre.len()) as int) =~= start.written() + pre);
                        };
                        if !H::TAKES {
                            assert((start.out() + full).take((start.out().len() + pre.len()) as int) =~= start.out() + pre);
                            assert((start.out() + full).take(self.out().len() as int) =~= self.out());
                        }
                        assert(p.skip(i as int).len() == p.len() - i);
                    }
                    return Err(e);
                },
            }
            i = i + 1;
        }
        self.drop_front(n);
        proof {
            assert(p.take(n as int) =~= p);
            assert(p.skip(n as int) =~= Seq::<Id>::empty());
        }
        Ok(())
    }
}

/// A run of a prefix of the ids is a prefix of the run of all of them.
proof fn lemma_start_run_prefix(p: Seq<Id>, k: int)
    requires
        0 <= k <= p.len(),
    ensures
        start_run(p.take(k)).len() <= start_run(p).len(),
        start_run(p).take(start_run(p.take(k)).len() as int) == start_run(p.take(k)),
    decreases p.len() - k,
{
    if k < p.len() {
        lemma_start_run_prefix(p, k + 1);
        assert(p.take(k + 1).drop_last() =~= p.take(k));
        let a = start_run(p.take(k));
        let b = start_run(p.take(k + 1));
        assert(b == a + header_bytes(p[k] as nat, T_SEQUENCE_START as nat));
        assert(start_run(p).take(a.len() as int) =~= b.take(a.len() as int));
        assert(b.take(a.len() as int) =~= a);
    } else {
        assert(p.take(k) =~= p);
        assert(start_run(p).take(start_run(p).len() as int) =~= start_run(p));
    }
}


impl<'a, F: Flush, H: Handoff<'a>> OStream<'a, F, H> {
    /// Write a field header, committing the held-back run first.
    fn write_id_type(&mut self, id: Id, wire_type: u8) -> (r: Result<()>)
        requires
            old(self).wf(),
            wire_type < 8,
        ensures
            final(self).wf(),
            final(self).depth() == old(self).depth(),
            id > ID_MAX ==> r == Err::<(), Error>(Error::Argument) && *final(self) == *old(self),
            id <= ID_MAX ==> Self::field_outcome(*old(self), *final(self),
                start_run(old(self).pending()) + header_bytes(id as nat, wire_type as nat), r),
            id <= ID_MAX && F::SINKS ==> r is Ok,
    {
        if id > ID_MAX {
            return Err(Error::Argument);
        }
        let ghost s0 = *self;
        if self.npending != 0 {
            match self.commit_pending() {
                Ok(()) => {},
                Err(e) => {
                    proof {
                        let a = start_run(s0.pending());
                        let b = header_bytes(id as nat, wire_type as nat);
                        assert((s0.written() + (a + b)).take(self.written().len() as int) =~= (s0.written() + a).take(self.written().len() as int));
                        assert(!H::TAKES ==> (s0.out() + (a + b)).take(self.out().len() as int) =~= (s0.out() + a).take(self.out().len() as int));
                    }
                    return Err(e);
                },
            }
        } else {
            proof {
                assert(s0.pending() =~= Seq::<Id>::empty());
                assert(s0.written() + start_run(s0.pending()) =~= s0.written());
                assert(s0.out() + start_run(s0.pending()) =~= s0.out());
            }
        }
        let ghost s1 = *self;
        let r = self.write_varint((id as Unsigned) * 8 + wire_type as Unsigned);
        proof {
            Self::lemma_field_then(s0, s1, *self, start_run(s0.pending()),
                header_bytes(id as nat, wire_type as nat), r);
        }
        r
    }

    /// Write an unsigned-integer field.
    pub fn write_unsigned(&mut self, id: Id, value: Unsigned) -> (r: Result<()>)
        requires
            old(self).wf(),
        ensures
            final(self).wf(),
            Self::unsigned_outcome(*old(self), *final(self), id, value as nat, r),
            id <= ID_MAX && F::SINKS ==> r is Ok,
    {
        let ghost s0 = *self;
        match self.write_id_type(id, T_VARINT_UNSIGNED) {
            Ok(()) => {},
            Err(e) => {
                proof { if id <= ID_MAX { Self::lemma_field_prefix(s0, *self, start_run(s0.pending()) + header_bytes(id as nat, 0),
                    varint_bytes(value as nat));
                    assert(start_run(s0.pending()) + header_bytes(id as nat, 0) + varint_bytes(value as nat)
                        =~= start_run(s0.pending()) + unsigned_field(id as nat, value as nat)); } }
                return Err(e);
            },
        }
        let ghost s1 = *self;
        let r = self.write_varint(value);
        proof {
            Self::lemma_field_then(s0, s1, *self, start_run(s0.pending()) + header_bytes(id as nat, 0),
                varint_bytes(value as nat), r);
            assert(start_run(s0.pending()) + header_bytes(id as nat, 0) + varint_bytes(value as nat)
                =~= start_run(s0.pending()) + unsigned_field(id as nat, value as nat));
        }
        r
    }

    /// Write a signed-integer field (ZigZag + varint).
    pub fn write_signed(&mut self, id: Id, value: Signed) -> (r: Result<()>)
        requires
            old(self).wf(),
        ensures
            final(self).wf(),
            final(self).depth() == old(self).depth(),
            id > ID_MAX ==> r == Err::<(), Error>(Error::Argument) && *final(self) == *old(self),
            id <= ID_MAX ==> Self::field_outcome(*old(self), *final(self),
                start_run(old(self).pending()) + signed_field(id as nat, value as int), r),
            id <= ID_MAX && F::SINKS ==> r is Ok,
    {
        let ghost s0 = *self;
        let z = zigzag_encode(value);
        match self.write_id_type(id, T_VARINT_SIGNED) {
            Ok(()) => {},
            Err(e) => {
                proof { if id <= ID_MAX { Self::lemma_field_prefix(s0, *self, start_run(s0.pending()) + header_bytes(id as nat, 1),
                    varint_bytes(z as nat));
                    assert(start_run(s0.pending()) + header_bytes(id as nat, 1) + varint_bytes(z as nat)
                        =~= start_run(s0.pending()) + signed_field(id as nat, value as int)); } }
                return Err(e);
            },
        }
        let ghost s1 = *self;
        let r = self.write_varint(z);
        proof {
            Self::lemma_field_then(s0, s1, *self, start_run(s0.pending()) + header_bytes(id as nat, 1),
                varint_bytes(z as nat), r);
            assert(start_run(s0.pending()) + header_bytes(id as nat, 1) + varint_bytes(z as nat)
                =~= start_run(s0.pending()) + signed_field(id as nat, value as int));
        }
        r
    }

    /// Write a boolean as an unsigned `0` / `1`.
    pub fn write_boolean(&mut self, id: Id, value: bool) -> (r: Result<()>)
        requires
            old(self).wf(),
        ensures
            final(self).wf(),
            Self::unsigned_outcome(*old(self), *final(self), id, if value { 1 } else { 0 }, r),
            id <= ID_MAX && F::SINKS ==> r is Ok,
    {
        self.write_unsigned(id, if value { 1 } else { 0 })
    }

    /// An error that stops a field in its header is a cut of the whole field.
    proof fn lemma_field_prefix(s0: Self, s1: Self, a: Seq<u8>, b: Seq<u8>)
        requires
            Self::field_outcome(s0, s1, a, Err(Error::BufferFull)),
        ensures
            Self::field_outcome(s0, s1, a + b, Err(Error::BufferFull)),
    {
        assert((a + b).take(a.len() as int) =~= a);
        Self::lemma_field_extend(s0, s1, a, a + b);
    }

    /// A cut of a prefix of a field's bytes is a cut of the whole field.
    proof fn lemma_field_extend(s0: Self, s1: Self, f1: Seq<u8>, f2: Seq<u8>)
        requires
            Self::field_outcome(s0, s1, f1, Err(Error::BufferFull)),
            f1.len() <= f2.len(),
            f2.take(f1.len() as int) == f1,
        ensures
            Self::field_outcome(s0, s1, f2, Err(Error::BufferFull)),
    {
        let n = s1.written().len();
        assert((s0.written() + f2).take(n as int) =~= (s0.written() + f1).take(n as int));
        if !H::TAKES {
            let m = s1.out().len();
            assert((s0.out() + f2).take(m as int) =~= (s0.out() + f1).take(m as int));
        }
    }
}


/// Unsigned integer element of an array, widened to the wire value type.
pub trait UnsignedElem: Copy {
    /// The element's value as the wire value type.
    spec fn spec_widen(self) -> Unsigned;

    /// Zero-extend to [`Unsigned`].
    fn widen(self) -> (r: Unsigned)
        ensures
            r == self.spec_widen(),
    ;
}

/// Signed integer element of an array, widened to the wire value type.
pub trait SignedElem: Copy {
    /// The element's value as the wire value type.
    spec fn spec_widen(self) -> Signed;

    /// Sign-extend to [`Signed`].
    fn widen(self) -> (r: Signed)
        ensures
            r == self.spec_widen(),
    ;
}

impl UnsignedElem for u8 {
    open spec fn spec_widen(self) -> Unsigned { self as Unsigned }
    fn widen(self) -> (r: Unsigned) { self as Unsigned }
}

impl UnsignedElem for u16 {
    open spec fn spec_widen(self) -> Unsigned { self as Unsigned }
    fn widen(self) -> (r: Unsigned) { self as Unsigned }
}

impl UnsignedElem for u32 {
    open spec fn spec_widen(self) -> Unsigned { self as Unsigned }
    fn widen(self) -> (r: Unsigned) { self as Unsigned }
}

impl UnsignedElem for u64 {
    open spec fn spec_widen(self) -> Unsigned { self }
    fn widen(self) -> (r: Unsigned) { self }
}

impl SignedElem for i8 {
    open spec fn spec_widen(self) -> Signed { self as Signed }
    fn widen(self) -> (r: Signed) { self as Signed }
}

impl SignedElem for i16 {
    open spec fn spec_widen(self) -> Signed { self as Signed }
    fn widen(self) -> (r: Signed) { self as Signed }
}

impl SignedElem for i32 {
    open spec fn spec_widen(self) -> Signed { self as Signed }
    fn widen(self) -> (r: Signed) { self as Signed }
}

impl SignedElem for i64 {
    open spec fn spec_widen(self) -> Signed { self }
    fn widen(self) -> (r: Signed) { self }
}

/// The wire values of an unsigned array.
pub open spec fn unsigned_vals<T: UnsignedElem>(data: Seq<T>) -> Seq<nat> {
    data.map_values(|e: T| e.spec_widen() as nat)
}

/// The wire values of a signed array (ZigZag-mapped).
pub open spec fn signed_vals<T: SignedElem>(data: Seq<T>) -> Seq<nat> {
    data.map_values(|e: T| spec_zigzag(e.spec_widen() as int))
}

pub(crate) proof fn lemma_groups_step(groups: Seq<Seq<u8>>, i: int)
    requires
        0 <= i < groups.len(),
    ensures
        concat_groups(groups.take(i + 1)) == concat_groups(groups.take(i)) + groups[i],
{
    assert(groups.take(i + 1).drop_last() =~= groups.take(i));
}

impl<'a, F: Flush, H: Handoff<'a>> OStream<'a, F, H> {
    /// Write `n` little-endian bytes of `x`.
    fn push_le(&mut self, x: u64, n: usize) -> (r: Result<()>)
        requires
            old(self).wf(),
            n <= 8,
        ensures
            final(self).wf(),
            Self::raw_outcome(*old(self), *final(self), le_bytes(x as nat, n as nat), r),
            F::SINKS ==> r is Ok,
    {
        let ghost start = *self;
        let ghost full = le_bytes(x as nat, n as nat);
        let ghost mut done: Seq<u8> = Seq::empty();
        let mut v = x;
        let mut i: usize = 0;
        proof {
            assert(start.written() + done =~= start.written());
            assert(start.out() + done =~= start.out());
        }
        while i < n
            invariant
                self.wf(),
                start == *old(self),
                i <= n,
                full == le_bytes(x as nat, n as nat),
                full == done + le_bytes(v as nat, (n - i) as nat),
                done.len() == i,
                Self::wrote(start, *self, done),
                self.pending() == start.pending(),
                self.depth() == start.depth(),
            decreases n - i,
        {
            let b: u8 = (v % 256) as u8;
            let ghost before = *self;
            match self.push_byte(b) {
                Ok(()) => {},
                Err(e) => {
                    proof {
                        assert(start.written() + full =~= start.written() + done + le_bytes(v as nat, (n - i) as nat));
                        assert((start.written() + full).take(self.written().len() as int) =~= self.written());
                        assert(!H::TAKES ==> (start.out() + full).take(self.out().len() as int) =~= self.out());
                    }
                    return Err(e);
                },
            }
            proof {
                Self::lemma_wrote_trans(start, before, *self, done, seq![b]);
                assert(le_bytes(v as nat, (n - i) as nat) == seq![b] + le_bytes((v / 256) as nat, (n - i - 1) as nat));
                assert(full =~= (done + seq![b]) + le_bytes((v / 256) as nat, (n - i - 1) as nat));
                done = done + seq![b];
            }
            v = v / 256;
            i = i + 1;
        }
        proof {
            assert(done =~= full);
        }
        Ok(())
    }

    /// Write a fixed-length field: header, `(len << 3) | subtype` varint, then
    /// the raw `data` bytes (already in wire order for floats).
    ///
    /// A `string` field carries UTF-8 text, which only [`OStream::write_str`]
    /// can vouch for: [`FixlenType::Str`] is refused here with
    /// [`Error::Argument`] before anything is written.
    pub fn write_fixlen(&mut self, id: Id, data: &[u8], subtype: FixlenType) -> (r: Result<()>)
        requires
            old(self).wf(),
            data@.len() * 8 + 7 <= Unsigned::MAX,
        ensures
            final(self).wf(),
            final(self).depth() == old(self).depth(),
            id > ID_MAX || subtype == FixlenType::Str ==> r == Err::<(), Error>(Error::Argument)
                && *final(self) == *old(self),
            id <= ID_MAX && subtype != FixlenType::Str ==> Self::field_outcome(*old(self), *final(self),
                start_run(old(self).pending()) + fixlen_field(id as nat, data@, subtype), r),
            id <= ID_MAX && subtype != FixlenType::Str && F::SINKS ==> r is Ok,
    {
        if subtype == FixlenType::Str {
            return Err(Error::Argument);
        }
        self.write_fixlen_field(id, data, subtype)
    }

    /// The fixed-length field itself, for every subtype.
    fn write_fixlen_field(&mut self, id: Id, data: &[u8], subtype: FixlenType) -> (r: Result<()>)
        requires
            old(self).wf(),
            data@.len() * 8 + 7 <= Unsigned::MAX,
        ensures
            final(self).wf(),
            final(self).depth() == old(self).depth(),
            id > ID_MAX ==> r == Err::<(), Error>(Error::Argument) && *final(self) == *old(self),
            id <= ID_MAX ==> Self::field_outcome(*old(self), *final(self),
                start_run(old(self).pending()) + fixlen_field(id as nat, data@, subtype), r),
            id <= ID_MAX && F::SINKS ==> r is Ok,
    {
        let ghost s0 = *self;
        let ghost a = start_run(s0.pending()) + header_bytes(id as nat, T_FIXLEN as nat);
        let ghost w = varint_bytes(data@.len() * 8 + fixlen_tag(subtype) as nat);
        match self.write_id_type(id, T_FIXLEN) {
            Ok(()) => {},
            Err(e) => {
                proof { if id <= ID_MAX {
                    Self::lemma_field_prefix(s0, *self, a, w + data@);
                    assert(a + (w + data@) =~= start_run(s0.pending()) + fixlen_field(id as nat, data@, subtype));
                } }
                return Err(e);
            },
        }
        let ghost s1 = *self;
        let word = (data.len() as Unsigned) * 8 + subtype.raw() as Unsigned;
        let r1 = self.write_varint(word);
        proof { Self::lemma_field_then(s0, s1, *self, a, w, r1); }
        match r1 {
            Ok(()) => {},
            Err(e) => {
                proof {
                    Self::lemma_field_prefix(s0, *self, a + w, data@);
                    assert(a + w + data@ =~= start_run(s0.pending()) + fixlen_field(id as nat, data@, subtype));
                }
                return Err(e);
            },
        }
        let ghost s2 = *self;
        let r = self.push_raw(data);
        proof {
            Self::lemma_field_then(s0, s2, *self, a + w, data@, r);
            assert(a + w + data@ =~= start_run(s0.pending()) + fixlen_field(id as nat, data@, subtype));
        }
        r
    }

    /// Write a string field: its UTF-8 bytes, no NUL on the wire.
    pub fn write_str(&mut self, id: Id, text: &str) -> (r: Result<()>)
        requires
            old(self).wf(),
            text.spec_bytes().len() * 8 + 7 <= Unsigned::MAX,
        ensures
            final(self).wf(),
            final(self).depth() == old(self).depth(),
            id > ID_MAX ==> r == Err::<(), Error>(Error::Argument) && *final(self) == *old(self),
            id <= ID_MAX ==> Self::field_outcome(*old(self), *final(self),
                start_run(old(self).pending()) + fixlen_field(id as nat, text.spec_bytes(), FixlenType::Str), r),
            id <= ID_MAX && F::SINKS ==> r is Ok,
    {
        let bytes = text.as_bytes();
        self.write_fixlen_field(id, bytes, FixlenType::Str)
    }

    /// Write a binary blob field.
    pub fn write_blob(&mut self, id: Id, data: &[u8]) -> (r: Result<()>)
        requires
            old(self).wf(),
            data@.len() * 8 + 7 <= Unsigned::MAX,
        ensures
            final(self).wf(),
            final(self).depth() == old(self).depth(),
            id > ID_MAX ==> r == Err::<(), Error>(Error::Argument) && *final(self) == *old(self),
            id <= ID_MAX ==> Self::field_outcome(*old(self), *final(self),
                start_run(old(self).pending()) + fixlen_field(id as nat, data@, FixlenType::Blob), r),
            id <= ID_MAX && F::SINKS ==> r is Ok,
    {
        self.write_fixlen_field(id, data, FixlenType::Blob)
    }
}


impl<'a, F: Flush, H: Handoff<'a>> OStream<'a, F, H> {
    /// Write the elements of a varint array, one varint each.
    fn write_unsigned_elems<T: UnsignedElem>(&mut self, data: &[T], s0: Ghost<Self>, pre: Ghost<Seq<u8>>) -> (r: Result<()>)
        requires
            old(self).wf(),
            Self::field_outcome(s0@, *old(self), pre@, Ok(())),
            pre@.len() >= start_run(s0@.pending()).len(),
            old(self).depth() == s0@.depth(),
        ensures
            final(self).wf(),
            final(self).depth() == s0@.depth(),
            Self::field_outcome(s0@, *final(self), pre@ + varints(unsigned_vals(data@)), r),
            F::SINKS ==> r is Ok,
    {
        let mut i: usize = 0;
        let ghost vals = unsigned_vals(data@);
        proof {
            assert(unsigned_vals(data@).take(0) =~= Seq::<nat>::empty());
            assert(pre@ + varints(unsigned_vals(data@).take(0)) =~= pre@);
        }
        while i < data.len()
            invariant
                self.wf(),
                i <= data@.len(),
                pre@.len() >= start_run(s0@.pending()).len(),
                self.depth() == s0@.depth(),
                Self::field_outcome(s0@, *self, pre@ + varints(unsigned_vals(data@).take(i as int)), Ok(())),
            decreases data@.len() - i,
        {
            let ghost before = *self;
            let ghost x = pre@ + varints(unsigned_vals(data@).take(i as int));
            let r = self.write_varint(data[i].widen());
            proof {
                Self::lemma_field_then(s0@, before, *self, x, varint_bytes(unsigned_vals(data@)[i as int]), r);
                lemma_varints_step(unsigned_vals(data@), i as int);
                assert(x + varint_bytes(unsigned_vals(data@)[i as int]) =~= pre@ + varints(unsigned_vals(data@).take(i + 1)));
            }
            match r {
                Ok(()) => {},
                Err(e) => {
                    proof {
                        lemma_varints_prefix(unsigned_vals(data@), i + 1);
                        let f1 = pre@ + varints(unsigned_vals(data@).take(i + 1));
                        let f2 = pre@ + varints(unsigned_vals(data@));
                        assert(f2.take(f1.len() as int) =~= f1);
                        Self::lemma_field_extend(s0@, *self, f1, f2);
                    }
                    return Err(e);
                },
            }
            i = i + 1;
        }
        proof {
            assert(unsigned_vals(data@).take(i as int) =~= unsigned_vals(data@));
        }
        Ok(())
    }

    /// Write the elements of a varint array, one varint each.
    fn write_signed_elems<T: SignedElem>(&mut self, data: &[T], s0: Ghost<Self>, pre: Ghost<Seq<u8>>) -> (r: Result<()>)
        requires
            old(self).wf(),
            Self::field_outcome(s0@, *old(self), pre@, Ok(())),
            pre@.len() >= start_run(s0@.pending()).len(),
            old(self).depth() == s0@.depth(),
        ensures
            final(self).wf(),
            final(self).depth() == s0@.depth(),
            Self::field_outcome(s0@, *final(self), pre@ + varints(signed_vals(data@)), r),
            F::SINKS ==> r is Ok,
    {
        let mut i: usize = 0;
        let ghost vals = signed_vals(data@);
        proof {
            assert(signed_vals(data@).take(0) =~= Seq::<nat>::empty());
            assert(pre@ + varints(signed_vals(data@).take(0)) =~= pre@);
        }
        while i < data.len()
            invariant
                self.wf(),
                i <= data@.len(),
                pre@.len() >= start_run(s0@.pending()).len(),
                self.depth() == s0@.depth(),
                Self::field_outcome(s0@, *self, pre@ + varints(signed_vals(data@).take(i as int)), Ok(())),
            decreases data@.len() - i,
        {
            let ghost before = *self;
            let ghost x = pre@ + varints(signed_vals(data@).take(i as int));
            let r = self.write_varint(zigzag_encode(data[i].widen()));
            proof {
                Self::lemma_field_then(s0@, before, *self, x, varint_bytes(signed_vals(data@)[i as int]), r);
                lemma_varints_step(signed_vals(data@), i as int);
                assert(x + varint_bytes(signed_vals(data@)[i as int]) =~= pre@ + varints(signed_vals(data@).take(i + 1)));
            }
            match r {
                Ok(()) => {},
                Err(e) => {
                    proof {
                        lemma_varints_prefix(signed_vals(data@), i + 1);
                        let f1 = pre@ + varints(signed_vals(data@).take(i + 1));
                        let f2 = pre@ + varints(signed_vals(data@));
                        assert(f2.take(f1.len() as int) =~= f1);
                        Self::lemma_field_extend(s0@, *self, f1, f2);
                    }
                    return Err(e);
                },
            }
            i = i + 1;
        }
        proof {
            assert(signed_vals(data@).take(i as int) =~= signed_vals(data@));
        }
        Ok(())
    }

    /// Write an array of unsigned integers (`u8`/`u16`/`u32`/`u64` elements):
    /// header, element count, one varint per element.
    pub fn write_array_unsigned<T: UnsignedElem>(&mut self, id: Id, data: &[T]) -> (r: Result<()>)
        requires
            old(self).wf(),
        ensures
            final(self).wf(),
            final(self).depth() == old(self).depth(),
            id > ID_MAX ==> r == Err::<(), Error>(Error::Argument) && *final(self) == *old(self),
            id <= ID_MAX ==> Self::field_outcome(*old(self), *final(self),
                start_run(old(self).pending()) + varint_array_field(id as nat, T_VARINTARRAY_UNSIGNED as nat, unsigned_vals(data@)), r),
            id <= ID_MAX && F::SINKS ==> r is Ok,
    {
        let ghost vals = unsigned_vals(data@);
        let ghost s0 = *self;
        let ghost a = start_run(s0.pending()) + header_bytes(id as nat, T_VARINTARRAY_UNSIGNED as nat);
        let ghost w = varint_bytes(data@.len() as nat);
        let ghost full = start_run(s0.pending()) + varint_array_field(id as nat, T_VARINTARRAY_UNSIGNED as nat, vals);
        proof {
            assert(full =~= a + w + varints(vals));
        }
        match self.write_id_type(id, T_VARINTARRAY_UNSIGNED) {
            Ok(()) => {},
            Err(e) => {
                proof { if id <= ID_MAX {
                    Self::lemma_field_prefix(s0, *self, a, w + varints(vals));
                    assert(a + (w + varints(vals)) =~= full);
                } }
                return Err(e);
            },
        }
        let ghost s1 = *self;
        let r1 = self.write_varint(data.len() as Unsigned);
        proof { Self::lemma_field_then(s0, s1, *self, a, w, r1); }
        match r1 {
            Ok(()) => {},
            Err(e) => {
                proof {
                    Self::lemma_field_prefix(s0, *self, a + w, varints(vals));
                }
                return Err(e);
            },
        }
        self.write_unsigned_elems(data, Ghost(s0), Ghost(a + w))
    }

    /// Write an array of signed integers (`i8`/`i16`/`i32`/`i64` elements),
    /// each element ZigZag-mapped.
    pub fn write_array_signed<T: SignedElem>(&mut self, id: Id, data: &[T]) -> (r: Result<()>)
        requires
            old(self).wf(),
        ensures
            final(self).wf(),
            final(self).depth() == old(self).depth(),
            id > ID_MAX ==> r == Err::<(), Error>(Error::Argument) && *final(self) == *old(self),
            id <= ID_MAX ==> Self::field_outcome(*old(self), *final(self),
                start_run(old(self).pending()) + varint_array_field(id as nat, T_VARINTARRAY_SIGNED as nat, signed_vals(data@)), r),
            id <= ID_MAX && F::SINKS ==> r is Ok,
    {
        let ghost vals = signed_vals(data@);
        let ghost s0 = *self;
        let ghost a = start_run(s0.pending()) + header_bytes(id as nat, T_VARINTARRAY_SIGNED as nat);
        let ghost w = varint_bytes(data@.len() as nat);
        let ghost full = start_run(s0.pending()) + varint_array_field(id as nat, T_VARINTARRAY_SIGNED as nat, vals);
        proof {
            assert(full =~= a + w + varints(vals));
        }
        match self.write_id_type(id, T_VARINTARRAY_SIGNED) {
            Ok(()) => {},
            Err(e) => {
                proof { if id <= ID_MAX {
                    Self::lemma_field_prefix(s0, *self, a, w + varints(vals));
                    assert(a + (w + varints(vals)) =~= full);
                } }
                return Err(e);
            },
        }
        let ghost s1 = *self;
        let r1 = self.write_varint(data.len() as Unsigned);
        proof { Self::lemma_field_then(s0, s1, *self, a, w, r1); }
        match r1 {
            Ok(()) => {},
            Err(e) => {
                proof {
                    Self::lemma_field_prefix(s0, *self, a + w, varints(vals));
                }
                return Err(e);
            },
        }
        self.write_signed_elems(data, Ghost(s0), Ghost(a + w))
    }
}

/// The varints of a prefix of the values are a prefix of the varints of all.
proof fn lemma_varints_prefix(vals: Seq<nat>, k: int)
    requires
        0 <= k <= vals.len(),
    ensures
        varints(vals.take(k)).len() <= varints(vals).len(),
        varints(vals).take(varints(vals.take(k)).len() as int) == varints(vals.take(k)),
    decreases vals.len() - k,
{
    if k < vals.len() {
        lemma_varints_prefix(vals, k + 1);
        lemma_varints_step(vals, k);
        let a = varints(vals.take(k));
        let b = varints(vals.take(k + 1));
        assert(varints(vals).take(a.len() as int) =~= b.take(a.len() as int));
        assert(b.take(a.len() as int) =~= a);
    } else {
        assert(vals.take(k) =~= vals);
        assert(varints(vals).take(varints(vals).len() as int) =~= varints(vals));
    }
}


pub(crate) proof fn lemma_le_bytes_len(x: nat, n: nat)
    ensures
        le_bytes(x, n).len() == n,
    decreases n,
{
    if n > 0 {
        lemma_le_bytes_len(x / 256, (n - 1) as nat);
    }
}

/// The little-endian groups of the element bit patterns.
pub open spec fn le_groups(bits: Seq<nat>, width: nat) -> Seq<Seq<u8>> {
    bits.map_values(|b: nat| le_bytes(b, width))
}

proof fn lemma_groups_prefix(groups: Seq<Seq<u8>>, k: int)
    requires
        0 <= k <= groups.len(),
    ensures
        concat_groups(groups.take(k)).len() <= concat_groups(groups).len(),
        concat_groups(groups).take(concat_groups(groups.take(k)).len() as int) == concat_groups(groups.take(k)),
    decreases groups.len() - k,
{
    if k < groups.len() {
        lemma_groups_prefix(groups, k + 1);
        lemma_groups_step(groups, k);
        let a = concat_groups(groups.take(k));
        let b = concat_groups(groups.take(k + 1));
        assert(concat_groups(groups).take(a.len() as int) =~= b.take(a.len() as int));
        assert(b.take(a.len() as int) =~= a);
    } else {
        assert(groups.take(k) =~= groups);
        assert(concat_groups(groups).take(concat_groups(groups).len() as int) =~= concat_groups(groups));
    }
}

impl<'a, F: Flush, H: Handoff<'a>> OStream<'a, F, H> {
    /// Write the little-endian bit patterns of a float array's elements.
    fn write_le_elems<T: UnsignedElem>(&mut self, data: &[T], width: usize, s0: Ghost<Self>, pre: Ghost<Seq<u8>>) -> (r: Result<()>)
        requires
            old(self).wf(),
            width <= 8,
            Self::field_outcome(s0@, *old(self), pre@, Ok(())),
            pre@.len() >= start_run(s0@.pending()).len(),
            old(self).depth() == s0@.depth(),
        ensures
            final(self).wf(),
            final(self).depth() == s0@.depth(),
            Self::field_outcome(s0@, *final(self), pre@ + concat_groups(le_groups(unsigned_vals(data@), width as nat)), r),
            F::SINKS ==> r is Ok,
    {
        let ghost groups = le_groups(unsigned_vals(data@), width as nat);
        let mut i: usize = 0;
        proof {
            assert(groups.take(0) =~= Seq::<Seq<u8>>::empty());
            assert(pre@ + concat_groups(groups.take(0)) =~= pre@);
        }
        while i < data.len()
            invariant
                self.wf(),
                i <= data@.len(),
                width <= 8,
                groups == le_groups(unsigned_vals(data@), width as nat),
                pre@.len() >= start_run(s0@.pending()).len(),
                self.depth() == s0@.depth(),
                Self::field_outcome(s0@, *self, pre@ + concat_groups(groups.take(i as int)), Ok(())),
            decreases data@.len() - i,
        {
            let ghost before = *self;
            let ghost x = pre@ + concat_groups(groups.take(i as int));
            let r = self.push_le(data[i].widen(), width);
            proof {
                assert(groups[i as int] == le_bytes(data@[i as int].spec_widen() as nat, width as nat));
                Self::lemma_field_then(s0@, before, *self, x, groups[i as int], r);
                lemma_groups_step(groups, i as int);
                assert(x + groups[i as int] =~= pre@ + concat_groups(groups.take(i + 1)));
            }
            match r {
                Ok(()) => {},
                Err(e) => {
                    proof {
                        lemma_groups_prefix(groups, i + 1);
                        let f1 = pre@ + concat_groups(groups.take(i + 1));
                        let f2 = pre@ + concat_groups(groups);
                        assert(f2.take(f1.len() as int) =~= f1);
                        Self::lemma_field_extend(s0@, *self, f1, f2);
                    }
                    return Err(e);
                },
            }
            i = i + 1;
        }
        proof {
            assert(groups.take(i as int) =~= groups);
        }
        Ok(())
    }

    /// Write a float array given the elements' bit patterns: header, element
    /// count, the fixlen word (also for an empty array), then each element's
    /// `width` little-endian bytes.
    fn write_float_array<T: UnsignedElem>(&mut self, id: Id, data: &[T], subtype: FixlenType, width: usize) -> (r: Result<()>)
        requires
            old(self).wf(),
            width == 4 || width == 8,
        ensures
            final(self).wf(),
            final(self).depth() == old(self).depth(),
            id > ID_MAX ==> r == Err::<(), Error>(Error::Argument) && *final(self) == *old(self),
            id <= ID_MAX ==> Self::field_outcome(*old(self), *final(self),
                start_run(old(self).pending()) + float_array_field(id as nat, subtype, width as nat, unsigned_vals(data@)), r),
            id <= ID_MAX && F::SINKS ==> r is Ok,
    {
        let ghost vals = unsigned_vals(data@);
        let ghost s0 = *self;
        let ghost a = start_run(s0.pending()) + header_bytes(id as nat, T_FIXLENARRAY as nat);
        let ghost w = varint_bytes(data@.len() as nat);
        let ghost fw = varint_bytes(width as nat * 8 + fixlen_tag(subtype) as nat);
        let ghost g = concat_groups(le_groups(vals, width as nat));
        let ghost full = start_run(s0.pending()) + float_array_field(id as nat, subtype, width as nat, vals);
        proof {
            assert(full =~= a + w + fw + g);
        }
        match self.write_id_type(id, T_FIXLENARRAY) {
            Ok(()) => {},
            Err(e) => {
                proof { if id <= ID_MAX {
                    Self::lemma_field_prefix(s0, *self, a, w + fw + g);
                    assert(a + (w + fw + g) =~= full);
                } }
                return Err(e);
            },
        }
        let ghost s1 = *self;
        let r1 = self.write_varint(data.len() as Unsigned);
        proof { Self::lemma_field_then(s0, s1, *self, a, w, r1); }
        match r1 {
            Ok(()) => {},
            Err(e) => {
                proof {
                    Self::lemma_field_prefix(s0, *self, a + w, fw + g);
                    assert(a + w + (fw + g) =~= full);
                }
                return Err(e);
            },
        }
        let ghost s2 = *self;
        let r2 = self.write_varint((width as Unsigned) * 8 + subtype.raw() as Unsigned);
        proof { Self::lemma_field_then(s0, s2, *self, a + w, fw, r2); }
        match r2 {
            Ok(()) => {},
            Err(e) => {
                proof {
                    Self::lemma_field_prefix(s0, *self, a + w + fw, g);
                }
                return Err(e);
            },
        }
        self.write_le_elems(data, width, Ghost(s0), Ghost(a + w + fw))
    }

    /// Write an array of 32-bit floats, given as their IEEE-754 bit patterns.
    pub fn write_array_fp32_bits(&mut self, id: Id, data: &[u32]) -> (r: Result<()>)
        requires
            old(self).wf(),
        ensures
            final(self).wf(),
            final(self).depth() == old(self).depth(),
            id > ID_MAX ==> r == Err::<(), Error>(Error::Argument) && *final(self) == *old(self),
            id <= ID_MAX ==> Self::field_outcome(*old(self), *final(self),
                start_run(old(self).pending()) + float_array_field(id as nat, FixlenType::Fp32, 4, unsigned_vals(data@)), r),
            id <= ID_MAX && F::SINKS ==> r is Ok,
    {
        self.write_float_array(id, data, FixlenType::Fp32, 4)
    }

    /// Write an array of 64-bit floats, given as their IEEE-754 bit patterns.
    pub fn write_array_fp64_bits(&mut self, id: Id, data: &[u64]) -> (r: Result<()>)
        requires
            old(self).wf(),
        ensures
            final(self).wf(),
            final(self).depth() == old(self).depth(),
            id > ID_MAX ==> r == Err::<(), Error>(Error::Argument) && *final(self) == *old(self),
            id <= ID_MAX ==> Self::field_outcome(*old(self), *final(self),
                start_run(old(self).pending()) + float_array_field(id as nat, FixlenType::Fp64, 8, unsigned_vals(data@)), r),
            id <= ID_MAX && F::SINKS ==> r is Ok,
    {
        self.write_float_array(id, data, FixlenType::Fp64, 8)
    }

    /// Write a scalar float field given the bit pattern: header, fixlen word
    /// `(width << 3) | subtype`, then `width` little-endian bytes.
    fn write_float(&mut self, id: Id, bits: u64, subtype: FixlenType, width: usize) -> (r: Result<()>)
        requires
            old(self).wf(),
            width == 4 || width == 8,
        ensures
            final(self).wf(),
            final(self).depth() == old(self).depth(),
            id > ID_MAX ==> r == Err::<(), Error>(Error::Argument) && *final(self) == *old(self),
            id <= ID_MAX ==> Self::field_outcome(*old(self), *final(self),
                start_run(old(self).pending()) + fixlen_field(id as nat, le_bytes(bits as nat, width as nat), subtype), r),
            id <= ID_MAX && F::SINKS ==> r is Ok,
    {
        let ghost data = le_bytes(bits as nat, width as nat);
        proof { lemma_le_bytes_len(bits as nat, width as nat); }
        let ghost s0 = *self;
        let ghost a = start_run(s0.pending()) + header_bytes(id as nat, T_FIXLEN as nat);
        let ghost w = varint_bytes(data.len() * 8 + fixlen_tag(subtype) as nat);
        let ghost full = start_run(s0.pending()) + fixlen_field(id as nat, data, subtype);
        proof { assert(full =~= a + w + data); }
        match self.write_id_type(id, T_FIXLEN) {
            Ok(()) => {},
            Err(e) => {
                proof { if id <= ID_MAX {
                    Self::lemma_field_prefix(s0, *self, a, w + data);
                    assert(a + (w + data) =~= full);
                } }
                return Err(e);
            },
        }
        let ghost s1 = *self;
        let r1 = self.write_varint((width as Unsigned) * 8 + subtype.raw() as Unsigned);
        proof { Self::lemma_field_then(s0, s1, *self, a, w, r1); }
        match r1 {
            Ok(()) => {},
            Err(e) => {
                proof { Self::lemma_field_prefix(s0, *self, a + w, data); }
                return Err(e);
            },
        }
        let ghost s2 = *self;
        let r = self.push_le(bits, width);
        proof { Self::lemma_field_then(s0, s2, *self, a + w, data, r); }
        r
    }

    /// Write a 32-bit float field, given as its IEEE-754 bit pattern.
    pub fn write_fp32_bits(&mut self, id: Id, bits: u32) -> (r: Result<()>)
        requires
            old(self).wf(),
        ensures
            final(self).wf(),
            final(self).depth() == old(self).depth(),
            id > ID_MAX ==> r == Err::<(), Error>(Error::Argument) && *final(self) == *old(self),
            id <= ID_MAX ==> Self::field_outcome(*old(self), *final(self),
                start_run(old(self).pending()) + fixlen_field(id as nat, le_bytes(bits as nat, 4), FixlenType::Fp32), r),
            id <= ID_MAX && F::SINKS ==> r is Ok,
    {
        self.write_float(id, bits as u64, FixlenType::Fp32, 4)
    }

    /// Write a 64-bit float field, given as its IEEE-754 bit pattern.
    pub fn write_fp64_bits(&mut self, id: Id, bits: u64) -> (r: Result<()>)
        requires
            old(self).wf(),
        ensures
            final(self).wf(),
            final(self).depth() == old(self).depth(),
            id > ID_MAX ==> r == Err::<(), Error>(Error::Argument) && *final(self) == *old(self),
            id <= ID_MAX ==> Self::field_outcome(*old(self), *final(self),
                start_run(old(self).pending()) + fixlen_field(id as nat, le_bytes(bits as nat, 8), FixlenType::Fp64), r),
            id <= ID_MAX && F::SINKS ==> r is Ok,
    {
        self.write_float(id, bits, FixlenType::Fp64, 8)
    }
}


impl<'a> OStream<'a, NoFlush, NoHandoff> {
    /// Create an encoder over `buffer` with no flush sink, writing from its
    /// start. Writing past the end of the buffer returns [`Error::BufferFull`].
    pub fn new(buffer: &'a mut [u8]) -> (r: Self)
        ensures
            r.wf(),
            r.buf() == old(buffer)@,
            r.pos() == 0,
            r.written() == Seq::<u8>::empty(),
            r.sunk() == Seq::<u8>::empty(),
            r.pending() == Seq::<Id>::empty(),
            r.depth() == 0,
            r.chunks() == Seq::<Seq<u8>>::empty(),
            r.rooms() == Seq::<Seq<u8>>::empty(),
            r.room() == Seq::<u8>::empty(),
            r.kept() == Seq::<u8>::empty(),
    {
        proof {
            assert(buffer@.take(0) =~= Seq::<u8>::empty());
        }
        OStream::install(buffer, 0, NoFlush, NoHandoff)
    }

    /// Like [`OStream::new`] but begin writing at `offset`, reserving room for
    /// a lower-layer header. [`Error::Argument`] if `offset` lies past the end
    /// of `buffer`; no minimum room applies without a sink.
    pub fn with_offset(buffer: &'a mut [u8], offset: usize) -> (r: Result<Self>)
        ensures
            r is Err <==> offset > old(buffer)@.len(),
            r is Err ==> r == Err::<Self, Error>(Error::Argument),
            r matches Ok(s) ==> s.wf() && s.buf() == old(buffer)@ && s.pos() == offset
                && s.written() == Seq::<u8>::empty() && s.sunk() == Seq::<u8>::empty()
                && s.pending() == Seq::<Id>::empty() && s.depth() == 0
                && s.chunks() == Seq::<Seq<u8>>::empty() && s.rooms() == Seq::<Seq<u8>>::empty()
                && s.room() == old(buffer)@.take(offset as int) && s.kept() == Seq::<u8>::empty(),
    {
        match check_install(buffer.len(), offset, NoFlush::SINKS) {
            Ok(()) => Ok(OStream::install(buffer, offset, NoFlush, NoHandoff)),
            Err(e) => Err(e),
        }
    }
}

impl<'a, F: Flush> OStream<'a, F, NoHandoff> {
    /// Create an encoder with a flush `sink`, starting at `offset`. When the
    /// buffer fills, the accumulated bytes are passed to `sink` and writing
    /// resumes at the start of the buffer. [`Error::Argument`] if `offset` lies
    /// past the end of `buffer`, or, for a sink that drains, if fewer than
    /// [`MIN_OUTPUT_BUFFER`] bytes remain after it.
    pub fn with_flush(buffer: &'a mut [u8], offset: usize, sink: F) -> (r: Result<Self>)
        ensures
            r is Ok <==> install_ok(old(buffer)@.len(), offset as nat, F::SINKS),
            r is Err ==> r == Err::<Self, Error>(Error::Argument),
            r matches Ok(s) ==> s.wf() && s.buf() == old(buffer)@ && s.pos() == offset
                && s.written() == Seq::<u8>::empty() && s.sunk() == Seq::<u8>::empty()
                && s.pending() == Seq::<Id>::empty() && s.depth() == 0
                && s.chunks() == Seq::<Seq<u8>>::empty() && s.rooms() == Seq::<Seq<u8>>::empty()
                && s.room() == old(buffer)@.take(offset as int) && s.kept() == Seq::<u8>::empty(),
    {
        match check_install(buffer.len(), offset, F::SINKS) {
            Ok(()) => Ok(OStream::install(buffer, offset, sink, NoHandoff)),
            Err(e) => Err(e),
        }
    }
}

impl<'a, F: Flush> OStream<'a, F, &'a Handover<'a>> {
    /// Create an encoder with a flush `sink` that may take the buffer it is
    /// handed, installing a replacement through `handover` before it returns.
    /// `buffer` and `offset` are checked exactly as in [`OStream::with_flush`].
    pub fn with_handover(buffer: &'a mut [u8], offset: usize, sink: F, handover: &'a Handover<'a>) -> (r: Result<Self>)
        ensures
            r is Ok <==> install_ok(old(buffer)@.len(), offset as nat, F::SINKS),
            r is Err ==> r == Err::<Self, Error>(Error::Argument),
            r matches Ok(s) ==> s.wf() && s.buf() == old(buffer)@ && s.pos() == offset
                && s.written() == Seq::<u8>::empty() && s.sunk() == Seq::<u8>::empty()
                && s.pending() == Seq::<Id>::empty() && s.depth() == 0
                && s.chunks() == Seq::<Seq<u8>>::empty() && s.rooms() == Seq::<Seq<u8>>::empty()
                && s.room() == old(buffer)@.take(offset as int) && s.kept() == Seq::<u8>::empty(),
    {
        match check_install(buffer.len(), offset, F::SINKS) {
            Ok(()) => Ok(OStream::install(buffer, offset, sink, handover)),
            Err(e) => Err(e),
        }
    }
}

impl<'a, F: Flush, H: Handoff<'a>> OStream<'a, F, H> {
    /// Build the stream once the buffer/offset pair has been accepted.
    fn install(buffer: &'a mut [u8], offset: usize, flush: F, handoff: H) -> (r: Self)
        requires
            install_ok(old(buffer)@.len(), offset as nat, F::SINKS),
        ensures
            r.wf(),
            r.buf() == old(buffer)@,
            r.pos() == offset,
            r.written() == Seq::<u8>::empty(),
            r.sunk() == Seq::<u8>::empty(),
            r.pending() == Seq::<Id>::empty(),
            r.depth() == 0,
            r.chunks() == Seq::<Seq<u8>>::empty(),
            r.rooms() == Seq::<Seq<u8>>::empty(),
            r.room() == old(buffer)@.take(offset as int),
            r.kept() == Seq::<u8>::empty(),
    {
        let ghost room = buffer@.take(offset as int);
        let r = OStream {
            buffer,
            offset,
            flush,
            handoff,
            depth: 0,
            pending: [0u32; LAZY_SEQ_DEPTH],
            npending: 0,
            sunk: Ghost(Seq::empty()),
            written: Ghost(Seq::empty()),
            chunks: Ghost(Seq::empty()),
            rooms: Ghost(Seq::empty()),
            room: Ghost(room),
            kept: Ghost(Seq::empty()),
        };
        proof {
            assert(r.pending() =~= Seq::<Id>::empty());
            assert(r.buffer@.subrange(offset as int, offset as int) =~= Seq::<u8>::empty());
            assert(message_of(r.chunks@, r.rooms@) + r.kept@ + Seq::<u8>::empty() =~= Seq::<u8>::empty());
        }
        r
    }

    /// Number of bytes written to the active buffer since the last flush
    /// (counting from the buffer's start, header room included).
    pub fn bytes_used(&self) -> (r: usize)
        ensures
            r == self.pos(),
    {
        self.offset
    }

    /// Hand any buffered bytes to the sink (if one drains) and report how many
    /// bytes were buffered. Without a sink the buffer is left intact.
    ///
    /// With a draining sink and a non-empty buffer the sink is called exactly
    /// once, with the buffer's first [`OStream::bytes_used`] bytes (header room
    /// included); otherwise it is not called and nothing changes.
    pub fn flush(&mut self) -> (r: usize)
        requires
            old(self).wf(),
        ensures
            final(self).wf(),
            r == old(self).pos(),
            final(self).written() == old(self).written(),
            final(self).pending() == old(self).pending(),
            final(self).depth() == old(self).depth(),
            final(self).kept() == old(self).kept(),
            !(F::SINKS && old(self).pos() > 0) ==> *final(self) == *old(self),
            F::SINKS && old(self).pos() > 0 ==> {
                &&& final(self).chunks() == old(self).chunks().push(old(self).buf().take(old(self).pos() as int))
                &&& final(self).rooms() == old(self).rooms().push(old(self).room())
                &&& final(self).sunk() == old(self).sunk() + old(self).buf().take(old(self).pos() as int)
                &&& final(self).room().len() == final(self).pos()
            },
            F::SINKS && !H::TAKES ==> final(self).pos() == 0 && final(self).buf() == old(self).buf()
                && final(self).sunk() == old(self).out(),
            F::SINKS ==> final(self).room().len() == final(self).pos(),
            !H::TAKES ==> final(self).out() == old(self).out(),
    {
        let used = self.offset;
        if used > 0 && F::SINKS {
            self.drain();
        } else {
            proof {
                assert(self.buf().take(0) =~= Seq::<u8>::empty());
                assert(self.sunk() + self.buf().take(0) =~= self.sunk());
            }
        }
        used
    }

    /// Replace the active buffer, resuming writes at `offset` in the new one.
    /// Checked as the installing constructors are; on an error the previous
    /// buffer stays installed untouched. With a draining sink, the bytes
    /// buffered so far are handed to it first, in one call if there are any;
    /// without one they stay in the replaced buffer, which the caller owns.
    pub fn buffer_set(&mut self, buffer: &'a mut [u8], offset: usize) -> (r: Result<()>)
        requires
            old(self).wf(),
        ensures
            final(self).wf(),
            !install_ok(old(buffer)@.len(), offset as nat, F::SINKS) ==> r == Err::<(), Error>(Error::Argument)
                && *final(self) == *old(self),
            install_ok(old(buffer)@.len(), offset as nat, F::SINKS) ==> r is Ok
                && final(self).buf() == old(buffer)@
                && final(self).pos() == offset
                && final(self).room() == old(buffer)@.take(offset as int)
                && final(self).written() == old(self).written()
                && final(self).pending() == old(self).pending()
                && final(self).depth() == old(self).depth()
                && (!F::SINKS ==> final(self).sunk() == old(self).sunk()
                    && final(self).chunks() == old(self).chunks()
                    && final(self).kept() == old(self).kept()
                        + old(self).buf().subrange(old(self).room().len() as int, old(self).pos() as int))
                && (F::SINKS ==> final(self).kept() == old(self).kept())
                && (F::SINKS && old(self).pos() > 0 ==>
                    final(self).chunks() == old(self).chunks().push(old(self).buf().take(old(self).pos() as int))
                    && final(self).rooms() == old(self).rooms().push(old(self).room())
                    && final(self).sunk() == old(self).sunk() + old(self).buf().take(old(self).pos() as int))
                && (F::SINKS && old(self).pos() == 0 ==> final(self).chunks() == old(self).chunks()
                    && final(self).rooms() == old(self).rooms() && final(self).sunk() == old(self).sunk())
                && (F::SINKS && !H::TAKES ==> final(self).sunk() == old(self).out()),
    {
        match check_install(buffer.len(), offset, F::SINKS) {
            Ok(()) => {},
            Err(e) => {
                return Err(e);
            },
        }
        if F::SINKS {
            self.flush();
        }
        proof {
            let k = self.room@.len() as int;
            if !F::SINKS {
                self.kept@ = self.kept@ + self.buffer@.subrange(k, self.offset as int);
            } else {
                assert(self.buffer@.subrange(k, self.offset as int) =~= Seq::<u8>::empty());
                assert(self.written@ =~= message_of(self.chunks@, self.rooms@) + self.kept@);
            }
        }
        let ghost nb = buffer@;
        self.buffer = buffer;
        self.offset = offset;
        proof {
            self.room@ = nb.take(offset as int);
            assert(self.buffer@.subrange(offset as int, offset as int) =~= Seq::<u8>::empty());
            assert(self.written@ =~= message_of(self.chunks@, self.rooms@) + self.kept@
                + self.buffer@.subrange(offset as int, offset as int));
        }
        Ok(())
    }

    /// Open a nested sequence whose header is held back until the sequence
    /// turns out to have content. Opening one while the hold-back window is
    /// full commits the pending run and frames this one eagerly.
    /// [`Error::Argument`] past [`MAX_DEPTH`] or for an id above [`ID_MAX`].
    pub fn write_sequence_begin_lazy(&mut self, id: Id) -> (r: Result<()>)
        requires
            old(self).wf(),
        ensures
            final(self).wf(),
            Self::begin_lazy_outcome(*old(self), *final(self), id, r),
            old(self).depth() < MAX_DEPTH && id <= ID_MAX && F::SINKS ==> r is Ok,
    {
        if self.depth >= MAX_DEPTH {
            return Err(Error::Argument);
        }
        if id > ID_MAX {
            return Err(Error::Argument);
        }
        if self.npending < LAZY_SEQ_DEPTH {
            self.pending[self.npending] = id;
            self.npending = self.npending + 1;
            proof {
                assert(self.pending() =~= old(self).pending().push(id));
            }
        } else {
            let ghost s0 = *self;
            match self.commit_pending() {
                Ok(()) => {},
                Err(e) => {
                    proof {
                        Self::lemma_field_prefix(s0, *self, start_run(s0.pending()),
                            header_bytes(id as nat, T_SEQUENCE_START as nat));
                    }
                    return Err(e);
                },
            }
            let ghost s1 = *self;
            let r = self.write_varint((id as Unsigned) * 8 + T_SEQUENCE_START as Unsigned);
            proof {
                Self::lemma_field_then(s0, s1, *self, start_run(s0.pending()),
                    header_bytes(id as nat, T_SEQUENCE_START as nat), r);
            }
            match r {
                Ok(()) => {},
                Err(e) => {
                    return Err(e);
                },
            }
        }
        self.depth = self.depth + 1;
        Ok(())
    }

    /// Close the most recently opened sequence, letting it vanish if it
    /// received no content: a held-back sequence is simply dropped, a framed
    /// one gets its end marker. With no sequence open there is nothing to
    /// close: [`Error::Argument`], nothing changed.
    pub fn write_sequence_end(&mut self) -> (r: Result<()>)
        requires
            old(self).wf(),
        ensures
            final(self).wf(),
            Self::end_outcome(*old(self), *final(self), r),
            old(self).depth() > 0 && F::SINKS ==> r is Ok,
    {
        if self.depth == 0 {
            return Err(Error::Argument);
        }
        if self.npending != 0 {
            self.npending = self.npending - 1;
            self.depth = self.depth - 1;
            proof {
                assert(self.pending() =~= old(self).pending().drop_last());
            }
            return Ok(());
        }
        proof {
            assert(old(self).pending() =~= Seq::<Id>::empty());
            assert(start_run(old(self).pending()) + sequence_end_bytes() =~= sequence_end_bytes());
        }
        match self.write_id_type(0, T_SEQUENCE_END) {
            Ok(()) => {},
            Err(e) => {
                return Err(e);
            },
        }
        self.depth = self.depth - 1;
        Ok(())
    }

    /// Close the most recently opened sequence, keeping its frame even when it
    /// received no content: the held-back run is committed, then the end
    /// marker follows. With no sequence open there is nothing to close:
    /// [`Error::Argument`], nothing changed.
    pub fn write_sequence_end_keep(&mut self) -> (r: Result<()>)
        requires
            old(self).wf(),
        ensures
            final(self).wf(),
            Self::end_keep_outcome(*old(self), *final(self), r),
            old(self).depth() > 0 && F::SINKS ==> r is Ok,
    {
        if self.depth == 0 {
            return Err(Error::Argument);
        }
        match self.write_id_type(0, T_SEQUENCE_END) {
            Ok(()) => {},
            Err(e) => {
                return Err(e);
            },
        }
        proof {
            assert(self.pending@.len() == LAZY_SEQ_DEPTH);
            assert(self.pending().len() == self.npending as int);
        }
        self.depth = self.depth - 1;
        Ok(())
    }
}

impl<'a, F: Flush, H: Handoff<'a>> OStream<'a, F, H> {
    /// What a stream hands out carries its message. On every well-formed
    /// stream the sink has received exactly the chunks recorded, each
    /// beginning with the header room of the buffer it came from; and the
    /// message written so far is those chunks without their header room, then
    /// the bytes left in buffers replaced without a sink, then what follows
    /// the header room in the active buffer, which is itself untouched.
    pub proof fn lemma_streamed_message(s: Self)
        requires
            s.wf(),
        ensures
            s.chunks().len() == s.rooms().len(),
            forall|i: int| 0 <= i < s.chunks().len() ==> (#[trigger] s.chunks()[i]).take(s.rooms()[i].len() as int)
                == s.rooms()[i] && s.rooms()[i].len() <= s.chunks()[i].len(),
            s.sunk() == concat_groups(s.chunks()),
            s.room().len() <= s.pos() <= s.buf().len(),
            s.buf().take(s.room().len() as int) == s.room(),
            s.written() == message_of(s.chunks(), s.rooms()) + s.kept()
                + s.buf().subrange(s.room().len() as int, s.pos() as int),
            F::SINKS ==> s.kept() == Seq::<u8>::empty(),
            !F::SINKS ==> s.chunks() == Seq::<Seq<u8>>::empty() && s.sunk() == Seq::<u8>::empty(),
    {
    }

    /// Streaming gives the one-shot encoding, whatever the buffer sizes and
    /// whether the sink copies or takes buffers: once a stream with a draining
    /// sink has been flushed, the chunks it handed out, each without its header
    /// room, are byte for byte what a stream without a sink that was given the
    /// same message holds after its own header room.
    pub proof fn lemma_streaming_matches_one_shot<G: Flush, K: Handoff<'a>>(s: Self, t: OStream<'a, G, K>)
        requires
            s.wf(),
            t.wf(),
            F::SINKS,
            !G::SINKS,
            s.room().len() == s.pos(),
            s.written() == t.written(),
        ensures
            message_of(s.chunks(), s.rooms()) == t.kept() + t.buf().subrange(t.room().len() as int, t.pos() as int),
    {
        assert(s.buffer@.subrange(s.room@.len() as int, s.offset as int) =~= Seq::<u8>::empty());
        assert(message_of(t.chunks@, t.rooms@) =~= Seq::<u8>::empty());
        assert(s.written@ =~= message_of(s.chunks@, s.rooms@));
        assert(t.written@ =~= t.kept@ + t.buffer@.subrange(t.room@.len() as int, t.offset as int));
    }

    /// A boolean is written as the unsigned `1` or `0`. From one stream,
    /// `write_boolean(id, b)` (ending in `s1` with `r1`) and
    /// `write_unsigned(id, v)` with `v` the `u64` `1` or `0` (ending in `s2`
    /// with `r2`) both succeed or fail with the same error, the same message, cursor and buffer up
    /// to the cursor, the same held-back run and the same chunks handed to the
    /// sink, wherever the field fits the room left or the stream has no sink.
    pub proof fn lemma_boolean_is_unsigned(s0: Self, s1: Self, s2: Self, id: Id, b: bool, r1: Result<()>, r2: Result<()>)
        requires
            s0.wf(),
            s1.wf(),
            s2.wf(),
            Self::unsigned_outcome(s0, s1, id, if b { 1 } else { 0 }, r1),
            Self::unsigned_outcome(s0, s2, id, (if b { 1u64 } else { 0u64 }) as nat, r2),
            !F::SINKS || s0.pos() + (start_run(s0.pending()) + unsigned_field(id as nat, if b { 1 } else { 0 })).len()
                <= s0.buf().len(),
        ensures
            r1 is Ok <==> r2 is Ok,
            r1 is Err ==> r1 == r2,
            s1.written() == s2.written(),
            s1.pos() == s2.pos(),
            s1.buf().len() == s2.buf().len(),
            s1.buf().take(s1.pos() as int) == s2.buf().take(s2.pos() as int),
            s1.pending() == s2.pending(),
            s1.depth() == s2.depth(),
            s1.sunk() == s2.sunk(),
            s1.chunks() == s2.chunks(),
            s1.rooms() == s2.rooms(),
            s1.kept() == s2.kept(),
    {
        let v: nat = if b { 1 } else { 0 };
        assert((if b { 1u64 } else { 0u64 }) as nat == v);
        Self::lemma_unsigned_determined(s0, s1, s2, id, v, r1, r2);
    }

    /// Writing the same unsigned field from the same stream ends alike,
    /// wherever the field fits the room left or the stream has no sink.
    proof fn lemma_unsigned_determined(s0: Self, s1: Self, s2: Self, id: Id, v: nat, r1: Result<()>, r2: Result<()>)
        requires
            s0.wf(),
            s1.wf(),
            s2.wf(),
            Self::unsigned_outcome(s0, s1, id, v, r1),
            Self::unsigned_outcome(s0, s2, id, v, r2),
            !F::SINKS || s0.pos() + (start_run(s0.pending()) + unsigned_field(id as nat, v)).len() <= s0.buf().len(),
        ensures
            r1 is Ok <==> r2 is Ok,
            r1 is Err ==> r1 == r2,
            s1.written() == s2.written(),
            s1.pos() == s2.pos(),
            s1.buf().len() == s2.buf().len(),
            s1.buf().take(s1.pos() as int) == s2.buf().take(s2.pos() as int),
            s1.pending() == s2.pending(),
            s1.depth() == s2.depth(),
            s1.sunk() == s2.sunk(),
            s1.chunks() == s2.chunks(),
            s1.rooms() == s2.rooms(),
            s1.kept() == s2.kept(),
    {
        if id <= ID_MAX {
            let full = start_run(s0.pending()) + unsigned_field(id as nat, v);
            Self::lemma_streamed_message(s1);
            Self::lemma_streamed_message(s2);
            if r1 is Err || r2 is Err {
                assert(r1 is Err && r2 is Err);
                let p = s0.pending();
                let n = (s1.written().len() - s0.written().len()) as nat;
                Self::lemma_run_committed_unique(s0, s1, s2, n);
            }
            let k1 = s1.room().len() as int;
            assert(s1.buf().take(s1.pos() as int) =~= s1.buf().take(k1) + s1.buf().subrange(k1, s1.pos() as int));
            assert(s2.buf().take(s2.pos() as int) =~= s2.buf().take(k1) + s2.buf().subrange(k1, s2.pos() as int));
            assert(s1.buf().subrange(k1, s1.pos() as int) =~= s1.written().skip(
                (message_of(s1.chunks(), s1.rooms()) + s1.kept()).len() as int));
            assert(s2.buf().subrange(k1, s2.pos() as int) =~= s2.written().skip(
                (message_of(s2.chunks(), s2.rooms()) + s2.kept()).len() as int));
        }
    }

    /// The held-back run a cut write leaves is fixed by how many bytes got out.
    proof fn lemma_run_committed_unique(s0: Self, s1: Self, s2: Self, n: nat)
        requires
            Self::run_committed(s0, s1, n),
            Self::run_committed(s0, s2, n),
        ensures
            s1.pending() == s2.pending(),
    {
        let p = s0.pending();
        let c1 = p.len() - s1.pending().len();
        let c2 = p.len() - s2.pending().len();
        if c1 < c2 {
            lemma_start_run_prefix(p.take(c2), c1 + 1);
            assert(p.take(c2).take(c1 + 1) =~= p.take(c1 + 1));
        } else if c2 < c1 {
            lemma_start_run_prefix(p.take(c1), c2 + 1);
            assert(p.take(c1).take(c2 + 1) =~= p.take(c2 + 1));
        }
    }

    /// Closing a sequence gives its nesting level back. A close at depth
    /// `d > 0` that succeeds (it always does with a draining sink) leaves depth
    /// `d - 1`, and an open right after it succeeds and returns to depth `d`.
    pub proof fn lemma_close_returns_level(s0: Self, s1: Self, s2: Self, id: Id, r1: Result<()>, r2: Result<()>)
        requires
            s0.wf(),
            s0.depth() > 0,
            id <= ID_MAX,
            Self::end_outcome(s0, s1, r1),
            Self::begin_lazy_outcome(s1, s2, id, r2),
        ensures
            F::SINKS ==> r1 is Ok,
            r1 is Ok ==> s1.depth() == s0.depth() - 1,
            r1 is Ok ==> r2 is Ok && s2.depth() == s0.depth(),
    {
        if r1 is Ok && s0.pending().len() > 0 {
            assert(s1.pending().len() < LAZY_SEQ_DEPTH);
        }
    }

    /// An open is refused with [`Error::Argument`], leaving the stream as it
    /// was, exactly at [`MAX_DEPTH`], and each success goes one level deeper;
    /// so from depth `d` exactly `MAX_DEPTH - d` opens succeed before one is
    /// refused. On a stream that cannot run out of room (a draining sink, or a
    /// hold-back window with room) an open below `MAX_DEPTH` always succeeds;
    /// otherwise the only other answer is [`Error::BufferFull`].
    pub proof fn lemma_open_budget(s0: Self, s1: Self, id: Id, r: Result<()>)
        requires
            id <= ID_MAX,
            Self::begin_lazy_outcome(s0, s1, id, r),
        ensures
            r == Err::<(), Error>(Error::Argument) <==> s0.depth() >= MAX_DEPTH,
            r == Err::<(), Error>(Error::Argument) ==> s1 == s0,
            r is Ok ==> s1.depth() == s0.depth() + 1,
            r is Err ==> r == Err::<(), Error>(Error::Argument) || r == Err::<(), Error>(Error::BufferFull),
            F::SINKS || s0.pending().len() < LAZY_SEQ_DEPTH ==> (r is Ok <==> s0.depth() < MAX_DEPTH),
    {
    }

    /// Repeated opens spend the nesting budget one level at a time. Along a
    /// run of opens of `id` on a stream with a draining sink, where each
    /// `ss[i + 1]` is what the open answered `rs[i]` leaves of `ss[i]`, open
    /// `i` succeeds exactly when `ss[0].depth() + i < MAX_DEPTH`: from depth
    /// `d`, exactly `MAX_DEPTH - d` opens succeed and every later one is
    /// refused, the depth staying at `MAX_DEPTH`.
    pub proof fn lemma_open_run(ss: Seq<Self>, rs: Seq<Result<()>>, id: Id)
        requires
            F::SINKS,
            id <= ID_MAX,
            ss.len() == rs.len() + 1,
            ss[0].wf(),
            forall|i: int| 0 <= i < rs.len() ==> Self::begin_lazy_outcome(#[trigger] ss[i], ss[i + 1], id, rs[i]),
        ensures
            forall|i: int| 0 <= i < rs.len() ==> (#[trigger] rs[i] is Ok <==> ss[0].depth() + i < MAX_DEPTH),
            forall|i: int| 0 <= i < ss.len() ==> #[trigger] ss[i].depth()
                == if ss[0].depth() + i < MAX_DEPTH { ss[0].depth() + i } else { MAX_DEPTH as int },
    {
        assert forall|i: int| 0 <= i < ss.len() implies #[trigger] ss[i].depth()
            == if ss[0].depth() + i < MAX_DEPTH { ss[0].depth() + i } else { MAX_DEPTH as int } by {
            Self::lemma_open_run_to(ss, rs, id, i);
        }
        assert forall|i: int| 0 <= i < rs.len() implies (#[trigger] rs[i] is Ok <==> ss[0].depth() + i < MAX_DEPTH) by {
            Self::lemma_open_run_to(ss, rs, id, i);
            Self::lemma_open_budget(ss[i], ss[i + 1], id, rs[i]);
        }
    }

    proof fn lemma_open_run_to(ss: Seq<Self>, rs: Seq<Result<()>>, id: Id, k: int)
        requires
            F::SINKS,
            id <= ID_MAX,
            ss.len() == rs.len() + 1,
            ss[0].wf(),
            forall|i: int| 0 <= i < rs.len() ==> Self::begin_lazy_outcome(#[trigger] ss[i], ss[i + 1], id, rs[i]),
            0 <= k < ss.len(),
        ensures
            ss[k].depth() == if ss[0].depth() + k < MAX_DEPTH { ss[0].depth() + k } else { MAX_DEPTH as int },
        decreases k,
    {
        if k > 0 {
            Self::lemma_open_run_to(ss, rs, id, k - 1);
            assert(Self::begin_lazy_outcome(ss[k - 1], ss[k], id, rs[k - 1]));
            Self::lemma_open_budget(ss[k - 1], ss[k], id, rs[k - 1]);
        }
    }

    /// A held-back sequence that receives no content vanishes: opening it
    /// inside the window and closing it with [`OStream::write_sequence_end`]
    /// both succeed and leave the stream exactly as it was, with no byte
    /// written.
    pub proof fn lemma_empty_sequence_vanishes(s0: Self, s1: Self, s2: Self, id: Id, r1: Result<()>, r2: Result<()>)
        requires
            s0.depth() < MAX_DEPTH,
            id <= ID_MAX,
            s0.pending().len() < LAZY_SEQ_DEPTH,
            Self::begin_lazy_outcome(s0, s1, id, r1),
            Self::end_outcome(s1, s2, r2),
        ensures
            r1 is Ok,
            r2 is Ok,
            s2.written() == s0.written(),
            s2.out() == s0.out(),
            s2.pending() == s0.pending(),
            s2.depth() == s0.depth(),
    {
        assert(s0.pending().push(id).drop_last() =~= s0.pending());
    }

    /// A sequence closed with [`OStream::write_sequence_end_keep`] reaches the
    /// wire even when empty: on success the stream has written the held-back
    /// run, this sequence's header and its end marker, and is back at the
    /// depth it started from with nothing held back.
    pub proof fn lemma_empty_sequence_kept(s0: Self, s1: Self, s2: Self, id: Id, r1: Result<()>, r2: Result<()>)
        requires
            s0.depth() < MAX_DEPTH,
            id <= ID_MAX,
            s0.pending().len() < LAZY_SEQ_DEPTH,
            Self::begin_lazy_outcome(s0, s1, id, r1),
            Self::end_keep_outcome(s1, s2, r2),
            r2 is Ok,
        ensures
            s2.written() == s0.written() + start_run(s0.pending())
                + header_bytes(id as nat, T_SEQUENCE_START as nat) + sequence_end_bytes(),
            !H::TAKES ==> s2.out() == s0.out() + start_run(s0.pending())
                + header_bytes(id as nat, T_SEQUENCE_START as nat) + sequence_end_bytes(),
            s2.pending() == Seq::<Id>::empty(),
            s2.depth() == s0.depth(),
    {
        let p = s0.pending().push(id);
        assert(p.drop_last() =~= s0.pending());
        assert(start_run(p) == start_run(s0.pending()) + header_bytes(id as nat, T_SEQUENCE_START as nat));
        let run = start_run(s0.pending());
        let h = header_bytes(id as nat, T_SEQUENCE_START as nat);
        let e = sequence_end_bytes();
        assert(s0.written() + (run + h + e) =~= s0.written() + run + h + e);
        assert(s0.out() + (run + h + e) =~= s0.out() + run + h + e);
    }
}

} // verus!
