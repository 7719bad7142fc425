# sofab

A streaming, heap-free encoder and decoder for the SofaBuffers (Sofab)
serialization format, with its behaviour stated in Verus contracts and
proved.

## Layout

- `src/ostream.rs` — the encoder. Its model: the bytes written so far
  (`written`), each chunk handed to the sink (`chunks`, with the header room
  it begins with in `rooms`), the active buffer and cursor, and the held-back
  run of sequence headers. Every writer states the exact bytes it appends
  (`field_outcome`), when it succeeds, and what a full buffer leaves behind;
  the stream invariant ties the chunks, less their header room, to the
  message, whether the sink copies or takes buffers.
- `src/istream.rs` — the decoder, a byte-at-a-time state machine (`run`).
  Besides the state it keeps a ghost log of everything handed to the
  `Visitor` (`delivered`), payload chunks counted byte by byte. Every new
  decoder starts in the same state (`IStream::fresh`), and public lemmas give
  its verdicts word by word: what a header does (ids past `ID_MAX`, nesting
  past `MAX_DEPTH` and unbalanced ends are rejected), what a fixlen word or an
  array count announces (reserved subtypes and float lengths other than the
  width are rejected), that a varint whose last byte overflows is rejected,
  and that input cut inside a word or a payload is `Incomplete`.
- `src/roundtrip.rs` — the laws tying the two together: each field the
  encoder writes, read from a field boundary, hands the visitor exactly that
  field and leaves the decoder ready at the same depth, so a message of whole
  fields read from the start answers `Ok`.
- `src/payload.rs` — reassembly of chunked string / blob payloads, with the
  law that chunk boundaries do not change the result.
- `src/seq.rs` — wrapper-array destinations: bounds, gaps, replacement,
  for `Vec` and for the fixed-capacity `FixedVec`. The fixed-capacity
  destination is a type of this crate, kept in a `Vec` that never grows past
  `N`, rather than `heapless::Vec<T, N>`: Verus sees nothing inside a
  `heapless::Vec`, and its contents cannot be named here for every `T` and `N`
  (a spec function naming them would have to be generic, which this crate's
  outside-type names are not), so no contract on slots could be stated for it.
- `src/tail.rs` — trailing-default trimming of element slices; not an
  encoding step (a trimmed array written out is a shorter value).
- `src/varint.rs`, `src/types.rs`, `src/error.rs`, `src/config.rs` — the wire
  integers, tags, errors and build configuration.
- `app/lib.rs` — floating-point conveniences (`f32` / `f64` writers, a
  float-valued visitor, bit-exact float trimming); the library itself carries
  floats as bit patterns.
- `tests/` — the test suite, run against the compiled library.
