//! Chunk reassembly for streamed `string` / `blob` payloads.
//!
//! Nothing here touches the wire: it works on bytes the decoder has already
//! handed to a [`Visitor`](crate::Visitor). The accumulator owns a `[u8; N]`
//! whose size the caller chooses, so it allocates nothing; "the announced
//! payload does not fit" is a real outcome and is reported as
//! [`Error::BufferFull`].
use vstd::prelude::*;
use crate::error::{Error, Result};

verus! {

/// Reassembles a `string` or `blob` payload that arrives in more than one
/// chunk.
///
/// [`PayloadAcc::feed`] hands the payload back exactly once, on the call that
/// completes it, and `Ok(None)` while bytes are still outstanding. A chunk that
/// already holds the whole field is returned borrowed from the input, with no
/// copy, so a contiguous payload may be far larger than `N`. A payload always
/// starts at `offset == 0`, which is where the previous one is dropped.
pub struct PayloadAcc<const N: usize> {
    /// Bytes of the current payload seen so far, `buf[..len]`.
    buf: [u8; N],
    /// How much of `buf` is live; also the offset the next chunk must carry.
    len: usize,
    /// Set once the current payload has been handed back.
    complete: bool,
}

/// The smaller of two integers.
pub open spec fn min_int(a: int, b: int) -> int {
    if a <= b { a } else { b }
}

/// What an accumulator holds, as a value: its storage, how many bytes of the
/// current payload it holds, and whether that payload was handed back.
pub struct AccModel {
    /// The bytes of storage.
    pub storage: Seq<u8>,
    /// Bytes of the current payload held.
    pub held: nat,
    /// Whether the current payload has been handed back.
    pub complete: bool,
}

/// The answer of one [`PayloadAcc::feed`], taken by value.
pub open spec fn feed_answer(r: Result<Option<&[u8]>>) -> Result<Option<Seq<u8>>> {
    match r {
        Ok(Some(s)) => Ok(Some(s@)),
        Ok(None) => Ok(None),
        Err(e) => Err(e),
    }
}

/// One chunk fed to an accumulator of `cap` bytes in state `st`: the next
/// state and the answer.
pub open spec fn feed_step(st: AccModel, cap: nat, total: nat, offset: nat, chunk: Seq<u8>) -> (AccModel, Result<Option<Seq<u8>>>) {
    let base: nat = if offset == 0 { 0 } else { st.held };
    let copied: int = min_int(min_int(total - base, chunk.len() as int), cap - base);
    if offset == 0 && total <= chunk.len() {
        (AccModel { storage: st.storage, held: 0, complete: true }, Ok(Some(chunk.take(total as int))))
    } else if offset != 0 && st.complete {
        (st, Ok(None))
    } else if total > cap {
        (AccModel { storage: st.storage, held: base, complete: false }, Err(Error::BufferFull))
    } else if offset != base {
        (AccModel { storage: st.storage, held: base, complete: false }, Ok(None))
    } else if base >= total {
        (AccModel { storage: st.storage, held: base, complete: true }, Ok(Some(st.storage.take(total as int))))
    } else {
        let storage = st.storage.take(base as int) + chunk.take(copied) + st.storage.skip(base + copied);
        let held: nat = (base + copied) as nat;
        if held < total {
            (AccModel { storage, held, complete: false }, Ok(None))
        } else {
            (AccModel { storage, held, complete: true }, Ok(Some(storage.take(total as int))))
        }
    }
}


/// Feeding `chunks` in order, the first at `offset` and each next one where
/// the previous ended: the final state and the answer to every chunk.
pub open spec fn feed_chunks(st: AccModel, cap: nat, total: nat, offset: nat, chunks: Seq<Seq<u8>>) -> (AccModel, Seq<Result<Option<Seq<u8>>>>)
    decreases chunks.len(),
{
    if chunks.len() == 0 {
        (st, Seq::empty())
    } else {
        let first = feed_step(st, cap, total, offset, chunks[0]);
        let rest = feed_chunks(first.0, cap, total, offset + chunks[0].len(), chunks.drop_first());
        (rest.0, seq![first.1] + rest.1)
    }
}

/// How many bytes the accumulator holds after each of `chunks` is fed, in
/// order, the first at `offset` and each next one where the previous ended.
pub open spec fn feed_helds(st: AccModel, cap: nat, total: nat, offset: nat, chunks: Seq<Seq<u8>>) -> Seq<nat>
    decreases chunks.len(),
{
    if chunks.len() == 0 {
        Seq::empty()
    } else {
        let first = feed_step(st, cap, total, offset, chunks[0]);
        seq![first.0.held] + feed_helds(first.0, cap, total, offset + chunks[0].len(), chunks.drop_first())
    }
}

/// Where each of `chunks` ends when the first begins at `offset`.
pub open spec fn chunk_ends(offset: nat, chunks: Seq<Seq<u8>>) -> Seq<nat>
    decreases chunks.len(),
{
    if chunks.len() == 0 {
        Seq::empty()
    } else {
        seq![offset + chunks[0].len()] + chunk_ends(offset + chunks[0].len(), chunks.drop_first())
    }
}

proof fn lemma_helds_len(st: AccModel, cap: nat, total: nat, offset: nat, chunks: Seq<Seq<u8>>)
    ensures
        feed_helds(st, cap, total, offset, chunks).len() == chunks.len(),
        chunk_ends(offset, chunks).len() == chunks.len(),
    decreases chunks.len(),
{
    if chunks.len() > 0 {
        let first = feed_step(st, cap, total, offset, chunks[0]);
        lemma_helds_len(first.0, cap, total, offset + chunks[0].len(), chunks.drop_first());
    }
}

/// Answers that wait on every chunk but the last and hand back `payload` on
/// the last.
pub open spec fn reassembled(answers: Seq<Result<Option<Seq<u8>>>>, n: nat, payload: Seq<u8>) -> bool {
    &&& answers.len() == n
    &&& n > 0
    &&& forall|i: int| 0 <= i < n - 1 ==> #[trigger] answers[i] == Ok::<Option<Seq<u8>>, Error>(None)
    &&& answers[n - 1] == Ok::<Option<Seq<u8>>, Error>(Some(payload))
}

proof fn lemma_flatten_nonempty(chunks: Seq<Seq<u8>>)
    requires
        chunks.len() > 0,
        chunks[0].len() > 0,
    ensures
        chunks.flatten().len() >= chunks[0].len(),
        chunks.flatten() == chunks[0] + chunks.drop_first().flatten(),
{
}

proof fn lemma_continue(st: AccModel, cap: nat, payload: Seq<u8>, k: nat, chunks: Seq<Seq<u8>>)
    requires
        st.storage.len() == cap,
        st.held == k,
        !st.complete,
        0 < k < payload.len() <= cap,
        st.storage.take(k as int) == payload.take(k as int),
        chunks.len() > 0,
        forall|i: int| 0 <= i < chunks.len() ==> (#[trigger] chunks[i]).len() > 0,
        chunks.flatten() == payload.skip(k as int),
    ensures
        reassembled(feed_chunks(st, cap, payload.len(), k, chunks).1, chunks.len(), payload),
        forall|i: int| 0 <= i < chunks.len() - 1 ==> #[trigger] feed_helds(st, cap, payload.len(), k, chunks)[i]
            == chunk_ends(k, chunks)[i],
    decreases chunks.len(),
{
    let c = chunks[0];
    let total = payload.len();
    lemma_flatten_nonempty(chunks);
    let next = feed_step(st, cap, total, k, c);
    let kc: int = (k + c.len()) as int;
    let storage = st.storage.take(k as int) + c + st.storage.skip(kc);
    assert(c == payload.subrange(k as int, kc)) by {
        assert(payload.skip(k as int).take(c.len() as int) =~= payload.subrange(k as int, kc));
        assert((c + chunks.drop_first().flatten()).take(c.len() as int) =~= c);
    }
    assert(c.take(c.len() as int) =~= c);
    assert(next.0.storage == storage);
    assert(storage.take(kc) =~= payload.take(kc));
    let rest = chunks.drop_first();
    if kc < total {
        assert(rest.len() > 0) by {
            if rest.len() == 0 {
                assert(chunks.flatten().len() == c.len());
            }
        }
        assert(rest.flatten() =~= payload.skip(kc)) by {
            let f = rest.flatten();
            assert(f =~= (c + f).skip(c.len() as int));
            assert(payload.skip(k as int).skip(c.len() as int) =~= payload.skip(kc));
        }
        assert forall|i: int| 0 <= i < rest.len() implies (#[trigger] rest[i]).len() > 0 by {
            assert(rest[i] == chunks[i + 1]);
        }
        lemma_continue(next.0, cap, payload, kc as nat, rest);
        let tail = feed_chunks(next.0, cap, total, (k + c.len()) as nat, rest);
        assert(feed_chunks(st, cap, total, k, chunks).1 == seq![next.1] + tail.1);
        assert forall|i: int| 0 <= i < chunks.len() - 1 implies #[trigger] feed_chunks(st, cap, total, k, chunks).1[i]
            == Ok::<Option<Seq<u8>>, Error>(None) by {
            if i > 0 {
                assert(tail.1[i - 1] == Ok::<Option<Seq<u8>>, Error>(None));
            }
        }
        lemma_helds_len(next.0, cap, total, (k + c.len()) as nat, rest);
        let th = feed_helds(next.0, cap, total, (k + c.len()) as nat, rest);
        let te = chunk_ends((k + c.len()) as nat, rest);
        assert(feed_helds(st, cap, total, k, chunks) == seq![next.0.held] + th);
        assert(chunk_ends(k, chunks) == seq![(k + c.len()) as nat] + te);
        assert forall|i: int| 0 <= i < chunks.len() - 1 implies #[trigger] feed_helds(st, cap, total, k, chunks)[i]
            == chunk_ends(k, chunks)[i] by {
            if i > 0 {
                assert(th[i - 1] == te[i - 1]);
            }
        }
    } else {
        assert(kc == total);
        assert(rest.len() == 0) by {
            if rest.len() > 0 {
                lemma_flatten_nonempty(rest);
                assert(rest[0] == chunks[1]);
            }
        }
        assert(storage.take(total as int) =~= payload);
    }
}

/// A payload cut into chunks and fed in order from offset `0` is answered
/// `Ok(None)` for every chunk but the last, after which the accumulator holds
/// exactly the bytes up to that chunk's end, and handed back whole on the
/// last, whatever the accumulator held before: where the chunk boundaries
/// fall does not change the result. It holds for a payload that fits the storage, cut
/// into non-empty chunks, and for any payload that arrives in one chunk.
pub proof fn lemma_reassembly(st: AccModel, cap: nat, chunks: Seq<Seq<u8>>)
    requires
        st.storage.len() == cap,
        st.held <= cap,
        chunks.len() > 0,
        chunks.len() == 1 || chunks.flatten().len() <= cap,
        chunks.len() == 1 || forall|i: int| 0 <= i < chunks.len() ==> (#[trigger] chunks[i]).len() > 0,
    ensures
        reassembled(feed_chunks(st, cap, chunks.flatten().len(), 0, chunks).1, chunks.len(), chunks.flatten()),
        forall|i: int| 0 <= i < chunks.len() - 1 ==> #[trigger] feed_helds(st, cap, chunks.flatten().len(), 0, chunks)[i]
            == chunk_ends(0, chunks)[i],
{
    let c = chunks[0];
    let payload = chunks.flatten();
    let total = payload.len();
    let rest = chunks.drop_first();
    assert(payload == c + rest.flatten());
    if chunks.len() == 1 {
        assert(rest.flatten() =~= Seq::<u8>::empty());
        assert(c.take(total as int) =~= payload);
        let next = feed_step(st, cap, total, 0, c);
        assert(feed_chunks(next.0, cap, total, c.len(), rest).1.len() == 0);
    } else {
        assert(rest.len() > 0);
        assert(rest[0] == chunks[1]);
        lemma_flatten_nonempty(rest);
        assert(c.len() > 0);
        let next = feed_step(st, cap, total, 0, c);
        assert(c.take(c.len() as int) =~= c);
        assert(next.0.storage.take(c.len() as int) =~= payload.take(c.len() as int));
        assert(rest.flatten() =~= payload.skip(c.len() as int));
        assert forall|i: int| 0 <= i < rest.len() implies (#[trigger] rest[i]).len() > 0 by {
            assert(rest[i] == chunks[i + 1]);
        }
        lemma_continue(next.0, cap, payload, c.len(), rest);
        let tail = feed_chunks(next.0, cap, total, c.len(), rest);
        assert(feed_chunks(st, cap, total, 0, chunks).1 == seq![next.1] + tail.1);
        assert forall|i: int| 0 <= i < chunks.len() - 1 implies #[trigger] feed_chunks(st, cap, total, 0, chunks).1[i]
            == Ok::<Option<Seq<u8>>, Error>(None) by {
            if i > 0 {
                assert(tail.1[i - 1] == Ok::<Option<Seq<u8>>, Error>(None));
            }
        }
        lemma_helds_len(next.0, cap, total, c.len(), rest);
        let th = feed_helds(next.0, cap, total, c.len(), rest);
        let te = chunk_ends(c.len(), rest);
        assert(feed_helds(st, cap, total, 0, chunks) == seq![next.0.held] + th);
        assert(chunk_ends(0, chunks) == seq![c.len()] + te);
        assert forall|i: int| 0 <= i < chunks.len() - 1 implies #[trigger] feed_helds(st, cap, total, 0, chunks)[i]
            == chunk_ends(0, chunks)[i] by {
            if i > 0 {
                assert(th[i - 1] == te[i - 1]);
            }
        }
    }
}

impl<const N: usize> PayloadAcc<N> {
    #[verifier::type_invariant]
    spec fn buffered_fits(self) -> bool {
        self.len <= N
    }

    /// The state as a value.
    pub closed spec fn model(self) -> AccModel {
        AccModel { storage: self.buf@, held: self.len as nat, complete: self.complete }
    }

    /// The bytes of storage.
    pub open spec fn storage(self) -> Seq<u8> {
        self.model().storage
    }

    /// How many bytes of the current payload are held.
    pub open spec fn held(self) -> nat {
        self.model().held
    }

    /// Whether the current payload has been handed back.
    pub open spec fn is_complete(self) -> bool {
        self.model().complete
    }

    /// Create an empty accumulator over `N` bytes of inline storage.
    pub fn new() -> (r: Self)
        ensures
            r.held() == 0,
            !r.is_complete(),
            r.storage().len() == N,
    {
        PayloadAcc { buf: [0u8; N], len: 0, complete: false }
    }

    /// Accept one payload chunk, as delivered to the visitor's `string` /
    /// `blob` callback, and return the whole payload once it is complete.
    ///
    /// * `Ok(Some(bytes))`: `bytes` is the payload, exactly `total` bytes
    ///   long, borrowed from `chunk` (the whole field was in it) or from the
    ///   accumulator.
    /// * `Ok(None)`: bytes are still outstanding, or the chunk belongs to no
    ///   payload this accumulator is assembling (it does not continue at
    ///   [`PayloadAcc::buffered`]), or the payload was already handed back.
    /// * `Err(Error::BufferFull)`: the payload is split and longer than `N`,
    ///   reported before a byte is copied and again for every further chunk.
    ///
    /// `offset == 0` starts a payload and drops whatever was held. Only the
    /// bytes the field still owes are taken from a chunk.
    pub fn feed<'a>(&'a mut self, total: usize, offset: usize, chunk: &'a [u8]) -> (r: Result<Option<&'a [u8]>>)
        ensures
            ({
                let n = feed_step(old(self).model(), N as nat, total as nat, offset as nat, chunk@);
                &&& final(self).model() == n.0
                &&& feed_answer(r) == n.1
            }),
            final(self).storage().len() == N,
            final(self).held() <= N,
    {
        proof {
            use_type_invariant(&*self);
        }
        if offset == 0 {
            self.len = 0;
            self.complete = false;
            if total <= chunk.len() {
                self.complete = true;
                let (whole, _) = chunk.split_at(total);
                return Ok(Some(whole));
            }
        } else if self.complete {
            return Ok(None);
        }
        if total > N {
            return Err(Error::BufferFull);
        }
        if offset != self.len {
            return Ok(None);
        }
        let start: usize = self.len;
        let want: usize = if total > start { total - start } else { 0 };
        let mut limit: usize = if want < chunk.len() { want } else { chunk.len() };
        if N - start < limit {
            limit = N - start;
        }
        let ghost before = self.buf@;
        let mut copied: usize = 0;
        while copied < limit
            invariant
                start <= N,
                copied <= limit,
                start + limit <= N,
                limit <= chunk@.len(),
                self.len == start,
                !self.complete,
                self.buf@.len() == N,
                before.len() == N,
                self.buf@ == before.take(start as int) + chunk@.take(copied as int)
                    + before.skip(start + copied),
            decreases limit - copied,
        {
            self.buf[start + copied] = chunk[copied];
            copied = copied + 1;
            proof {
                assert(self.buf@ =~= before.take(start as int) + chunk@.take(copied as int)
                    + before.skip(start + copied));
            }
        }
        proof {
            if start >= total {
                assert(self.buf@ =~= before);
            }
        }
        self.len = start + copied;
        if self.len < total {
            return Ok(None);
        }
        self.complete = true;
        let (payload, _) = self.buf.as_slice().split_at(total);
        Ok(Some(payload))
    }

    /// Drop a partially accumulated payload. The storage is not scrubbed.
    pub fn reset(&mut self)
        ensures
            final(self).held() == 0,
            !final(self).is_complete(),
            final(self).storage() == old(self).storage(),
            final(self).storage().len() == N,
    {
        self.len = 0;
        self.complete = false;
    }

    /// Number of payload bytes currently held, which is also the `offset` the
    /// next chunk of this payload must carry.
    pub fn buffered(&self) -> (r: usize)
        ensures
            r == self.held(),
    {
        self.len
    }

    /// Largest payload this accumulator can reassemble from more than one
    /// chunk, i.e. `N`. A contiguous payload is not bound by it.
    pub fn capacity(&self) -> (r: usize)
        ensures
            r == N,
    {
        N
    }
}

impl<const N: usize> Default for PayloadAcc<N> {
    fn default() -> (r: Self)
        ensures
            r.held() == 0,
            !r.is_complete(),
            r.storage().len() == N,
    {
        Self::new()
    }
}

} // verus!
