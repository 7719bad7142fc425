//! What the encoder writes, the decoder reads through: every field an
//! [`OStream`](crate::OStream) emits takes an [`IStream`] at a field boundary
//! to the next field boundary, and sequence frames move it one level in and
//! out.
use vstd::prelude::*;
use crate::error::Error;
use crate::istream::{Atom, IStream, run, payload_atoms, elem_atoms, le_value, float_atom, float_elem_atoms,
    lemma_decodes_scalar, lemma_decodes_bytes, lemma_decodes_frame, lemma_decodes_varint_array, lemma_decodes_float,
    lemma_decodes_float_array};
use vstd::arithmetic::power2::{pow2, lemma2_to64, lemma_pow2_adds, lemma_pow2_pos};
use vstd::arithmetic::div_mod::lemma_mod_breakdown;
use crate::ostream::{start_run, header_bytes, unsigned_field, signed_field, fixlen_field, sequence_end_bytes,
    varint_array_field, float_array_field, le_bytes, le_groups, concat_groups, lemma_le_bytes_len,
    lemma_groups_step, unsigned_vals, signed_vals, UnsignedElem, SignedElem};
use crate::types::{ArrayKind, FixlenType, Id, Signed, Unsigned, ARRAY_MAX, ID_MAX, MAX_DEPTH};
use crate::varint::{varint_bytes, spec_zigzag, spec_unzigzag, lemma_zigzag_roundtrip, varints};

verus! {

/// A decoder ready at the depth it started from answers `Ok` when it started
/// at a field boundary.
proof fn lemma_ok_at_boundary(s: IStream, r: IStream)
    requires
        r.ready(),
        r.depth() == s.depth(),
    ensures
        s.at_boundary() ==> r.outcome() == Ok::<(), Error>(()),
{
    IStream::lemma_boundary_is_ready(s);
    IStream::lemma_boundary_is_ready(r);
}

/// An unsigned field, read from a field boundary, hands the visitor its id
/// and value and ends at a field boundary at the same depth.
pub proof fn lemma_roundtrip_unsigned(s: IStream, id: Id, v: Unsigned)
    requires
        s.wf(),
        s.ready(),
        id <= ID_MAX,
    ensures
        run(s, unsigned_field(id as nat, v as nat)).wf(),
        run(s, unsigned_field(id as nat, v as nat)).ready(),
        run(s, unsigned_field(id as nat, v as nat)).depth() == s.depth(),
        s.at_boundary() ==> run(s, unsigned_field(id as nat, v as nat)).outcome() == Ok::<(), Error>(()),
        run(s, unsigned_field(id as nat, v as nat)).delivered() == s.delivered().push(Atom::Unsigned(id, v)),
{
    lemma_decodes_scalar(s, id as nat, 0, v as nat);
    lemma_ok_at_boundary(s, run(s, unsigned_field(id as nat, v as nat)));
}


/// A signed field, read from a field boundary, hands the visitor its id and
/// value and ends at a field boundary at the same depth.
pub proof fn lemma_roundtrip_signed(s: IStream, id: Id, v: Signed)
    requires
        s.wf(),
        s.ready(),
        id <= ID_MAX,
    ensures
        run(s, signed_field(id as nat, v as int)).wf(),
        run(s, signed_field(id as nat, v as int)).ready(),
        run(s, signed_field(id as nat, v as int)).depth() == s.depth(),
        s.at_boundary() ==> run(s, signed_field(id as nat, v as int)).outcome() == Ok::<(), Error>(()),
        run(s, signed_field(id as nat, v as int)).delivered() == s.delivered().push(Atom::Signed(id, v)),
{
    lemma_zigzag_roundtrip(v);
    lemma_decodes_scalar(s, id as nat, 1, spec_zigzag(v as int));
    lemma_ok_at_boundary(s, run(s, signed_field(id as nat, v as int)));
}


/// A string or blob field of at most `ARRAY_MAX` bytes, read from a field
/// boundary, announces its subtype and length, hands the visitor exactly
/// `data` (one empty chunk when it is empty), and ends at a field boundary at
/// the same depth.
pub proof fn lemma_roundtrip_bytes(s: IStream, id: Id, data: Seq<u8>, t: FixlenType)
    requires
        s.wf(),
        s.ready(),
        id <= ID_MAX,
        t == FixlenType::Str || t == FixlenType::Blob,
        data.len() <= ARRAY_MAX,
    ensures
        run(s, fixlen_field(id as nat, data, t)).wf(),
        run(s, fixlen_field(id as nat, data, t)).ready(),
        run(s, fixlen_field(id as nat, data, t)).depth() == s.depth(),
        s.at_boundary() ==> run(s, fixlen_field(id as nat, data, t)).outcome() == Ok::<(), Error>(()),
        run(s, fixlen_field(id as nat, data, t)).delivered() == s.delivered().push(
            Atom::FixlenBegin(id, t, data.len() as usize)) + if data.len() == 0 {
            seq![Atom::EmptyPayload(id, t == FixlenType::Blob)]
        } else {
            payload_atoms(id, t == FixlenType::Blob, data.len() as usize, 0, data)
        },
{
    let tag: nat = if t == FixlenType::Str { 2 } else { 3 };
    lemma_decodes_bytes(s, id as nat, tag, data);
    let fb = Atom::FixlenBegin(id, t, data.len() as usize);
    let rest = if data.len() == 0 {
        seq![Atom::EmptyPayload(id, t == FixlenType::Blob)]
    } else {
        payload_atoms(id, t == FixlenType::Blob, data.len() as usize, 0, data)
    };
    assert(s.delivered() + (seq![fb] + rest) =~= s.delivered().push(fb) + rest);
    lemma_ok_at_boundary(s, run(s, fixlen_field(id as nat, data, t)));
}


/// What a string or blob field hands the visitor: its subtype and length,
/// then its bytes (one empty chunk for an empty payload).
pub open spec fn payload_delivery(id: Id, t: FixlenType, data: Seq<u8>) -> Seq<Atom> {
    seq![Atom::FixlenBegin(id, t, data.len() as usize)] + if data.len() == 0 {
        seq![Atom::EmptyPayload(id, t == FixlenType::Blob)]
    } else {
        payload_atoms(id, t == FixlenType::Blob, data.len() as usize, 0, data)
    }
}

/// An unsigned value, a signed value, a string and a blob written one after
/// another read back in order: from a field boundary the decoder hands the
/// visitor the two values, then the string, then the blob, and nothing else,
/// and ends at a field boundary at the same depth.
pub proof fn lemma_roundtrip_fields(s: IStream, id: Id, x: Unsigned, y: Signed, text: Seq<u8>, data: Seq<u8>)
    requires
        s.wf(),
        s.ready(),
        id <= ID_MAX,
        text.len() <= ARRAY_MAX,
        data.len() <= ARRAY_MAX,
    ensures
        ({
            let bytes = unsigned_field(id as nat, x as nat) + signed_field(id as nat, y as int)
                + fixlen_field(id as nat, text, FixlenType::Str) + fixlen_field(id as nat, data, FixlenType::Blob);
            &&& run(s, bytes).wf()
            &&& run(s, bytes).ready()
            &&& run(s, bytes).depth() == s.depth()
            &&& s.at_boundary() ==> run(s, bytes).outcome() == Ok::<(), Error>(())
            &&& run(s, bytes).delivered() == s.delivered() + seq![Atom::Unsigned(id, x), Atom::Signed(id, y)]
                + payload_delivery(id, FixlenType::Str, text) + payload_delivery(id, FixlenType::Blob, data)
        }),
{
    let a = unsigned_field(id as nat, x as nat);
    let b = signed_field(id as nat, y as int);
    let c = fixlen_field(id as nat, text, FixlenType::Str);
    let d = fixlen_field(id as nat, data, FixlenType::Blob);
    lemma_roundtrip_unsigned(s, id, x);
    let s1 = run(s, a);
    lemma_roundtrip_signed(s1, id, y);
    let s2 = run(s1, b);
    lemma_roundtrip_bytes(s2, id, text, FixlenType::Str);
    let s3 = run(s2, c);
    lemma_roundtrip_bytes(s3, id, data, FixlenType::Blob);
    crate::istream::lemma_run_chunks(s, a, b);
    crate::istream::lemma_run_chunks(s, a + b, c);
    crate::istream::lemma_run_chunks(s, a + b + c, d);
    let pt = payload_delivery(id, FixlenType::Str, text);
    let pd = payload_delivery(id, FixlenType::Blob, data);
    assert(s2.delivered() =~= s.delivered() + seq![Atom::Unsigned(id, x), Atom::Signed(id, y)]);
    assert(run(s2, c).delivered() =~= s2.delivered() + pt);
    assert(run(s3, d).delivered() =~= s3.delivered() + pd);
    lemma_ok_at_boundary(s, run(s, unsigned_field(id as nat, x as nat) + signed_field(id as nat, y as int) + fixlen_field(id as nat, text, FixlenType::Str) + fixlen_field(id as nat, data, FixlenType::Blob)));
}


/// The little-endian bytes of `x` read back give `x` modulo the width.
proof fn lemma_le_value_of_le_bytes(x: nat, n: nat)
    ensures
        le_value(le_bytes(x, n)) == x % pow2(8 * n),
    decreases n,
{
    lemma2_to64();
    if n == 0 {
        assert(le_bytes(x, 0) =~= Seq::<u8>::empty());
    } else {
        let m = (n - 1) as nat;
        lemma_le_value_of_le_bytes(x / 256, m);
        let b = le_bytes(x, n);
        assert(b == seq![(x % 256) as u8] + le_bytes(x / 256, m));
        assert(b.drop_first() =~= le_bytes(x / 256, m));
        assert(b[0] == x % 256);
        lemma_pow2_adds(8, 8 * m);
        assert(8 + 8 * m == 8 * n);
        let q = pow2(8 * m);
        lemma_pow2_pos(8 * m);
        lemma_mod_breakdown(x as int, 256, q as int);
        assert(le_value(b) == b[0] + 256 * le_value(b.drop_first()));
    }
}

/// A 32- or 64-bit float field, read from a field boundary, announces its
/// subtype and width, hands the visitor the bit pattern that was written (the
/// low `4` or `8` bytes of `bits`), and ends at a field boundary at the same
/// depth.
pub proof fn lemma_roundtrip_float(s: IStream, id: Id, bits: u64, t: FixlenType)
    requires
        s.wf(),
        s.ready(),
        id <= ID_MAX,
        t == FixlenType::Fp32 || t == FixlenType::Fp64,
    ensures
        ({
            let width: nat = if t == FixlenType::Fp32 { 4 } else { 8 };
            let bytes = fixlen_field(id as nat, le_bytes(bits as nat, width), t);
            &&& run(s, bytes).wf()
            &&& run(s, bytes).ready()
            &&& run(s, bytes).depth() == s.depth()
            &&& s.at_boundary() ==> run(s, bytes).outcome() == Ok::<(), Error>(())
            &&& run(s, bytes).delivered() == s.delivered().push(Atom::FixlenBegin(id, t, width as usize))
                .push(float_atom(id, t, bits as nat % pow2(8 * width)))
        }),
{
    let width: nat = if t == FixlenType::Fp32 { 4 } else { 8 };
    let tag: nat = if t == FixlenType::Fp32 { 0 } else { 1 };
    lemma_le_bytes_len(bits as nat, width);
    lemma_decodes_float(s, id as nat, tag, le_bytes(bits as nat, width));
    lemma_le_value_of_le_bytes(bits as nat, width);
    lemma_ok_at_boundary(s, run(s, fixlen_field(id as nat, le_bytes(bits as nat, width), t)));
}


/// A sequence start, read from a field boundary below `MAX_DEPTH`, opens
/// the sequence for the visitor and is ready for the first field one level
/// deeper.
pub proof fn lemma_roundtrip_sequence_start(s: IStream, id: Id)
    requires
        s.wf(),
        s.ready(),
        id <= ID_MAX,
        s.depth() < MAX_DEPTH,
    ensures
        run(s, header_bytes(id as nat, 6)).wf(),
        run(s, header_bytes(id as nat, 6)).ready(),
        run(s, header_bytes(id as nat, 6)).depth() == s.depth() + 1,
        run(s, header_bytes(id as nat, 6)).delivered() == s.delivered().push(Atom::SequenceBegin(id)),
{
    lemma_decodes_frame(s, id as nat, 6);
    assert(s.delivered() + seq![Atom::SequenceBegin(id)] =~= s.delivered().push(Atom::SequenceBegin(id)));
}

/// A held-back run of sequence headers, as the encoder commits it ahead of
/// the first field inside: read from a field boundary with room for the
/// nesting, it opens every sequence of the run for the visitor, outermost
/// first, and is ready one level deeper per header.
pub proof fn lemma_roundtrip_start_run(s: IStream, ids: Seq<Id>)
    requires
        s.wf(),
        s.ready(),
        forall|i: int| 0 <= i < ids.len() ==> #[trigger] ids[i] <= ID_MAX,
        s.depth() + ids.len() <= MAX_DEPTH,
    ensures
        run(s, start_run(ids)).wf(),
        run(s, start_run(ids)).ready(),
        run(s, start_run(ids)).depth() == s.depth() + ids.len(),
        run(s, start_run(ids)).delivered() == s.delivered() + ids.map_values(|id: Id| Atom::SequenceBegin(id)),
    decreases ids.len(),
{
    if ids.len() == 0 {
        assert(start_run(ids) =~= Seq::<u8>::empty());
        crate::istream::lemma_run_empty(s);
        assert(ids.map_values(|id: Id| Atom::SequenceBegin(id)) =~= Seq::<Atom>::empty());
        assert(s.delivered() + Seq::<Atom>::empty() =~= s.delivered());
    } else {
        let init = ids.drop_last();
        let last = ids.last();
        assert forall|i: int| 0 <= i < init.len() implies #[trigger] init[i] <= ID_MAX by {
            assert(init[i] == ids[i]);
        }
        lemma_roundtrip_start_run(s, init);
        let mid = run(s, start_run(init));
        crate::istream::lemma_run_chunks(s, start_run(init), header_bytes(last as nat, 6));
        lemma_roundtrip_sequence_start(mid, last);
        assert(ids.map_values(|id: Id| Atom::SequenceBegin(id))
            =~= init.map_values(|id: Id| Atom::SequenceBegin(id)).push(Atom::SequenceBegin(last)));
        assert((s.delivered() + init.map_values(|id: Id| Atom::SequenceBegin(id))).push(Atom::SequenceBegin(last))
            =~= s.delivered() + ids.map_values(|id: Id| Atom::SequenceBegin(id)));
    }
}

/// A sequence end, read at a field boundary inside a sequence, closes the
/// sequence for the visitor and is ready for the next field one level up.
pub proof fn lemma_roundtrip_sequence_end(s: IStream)
    requires
        s.wf(),
        s.ready(),
        s.depth() > 0,
    ensures
        run(s, sequence_end_bytes()).wf(),
        run(s, sequence_end_bytes()).ready(),
        run(s, sequence_end_bytes()).depth() == s.depth() - 1,
        run(s, sequence_end_bytes()).delivered() == s.delivered().push(Atom::SequenceEnd),
{
    lemma_decodes_frame(s, 0, 7);
    assert(s.delivered() + seq![Atom::SequenceEnd] =~= s.delivered().push(Atom::SequenceEnd));
}

/// An empty sequence kept on the wire (start then end) opens and closes a
/// sequence for the visitor and leaves the decoder at a field boundary where
/// it was, at the same depth.
pub proof fn lemma_roundtrip_empty_frame(s: IStream, id: Id)
    requires
        s.wf(),
        s.ready(),
        id <= ID_MAX,
        s.depth() < MAX_DEPTH,
    ensures
        run(s, header_bytes(id as nat, 6) + sequence_end_bytes()).wf(),
        run(s, header_bytes(id as nat, 6) + sequence_end_bytes()).ready(),
        run(s, header_bytes(id as nat, 6) + sequence_end_bytes()).depth() == s.depth(),
        s.at_boundary() ==> run(s, header_bytes(id as nat, 6) + sequence_end_bytes()).outcome() == Ok::<(), Error>(()),
        run(s, header_bytes(id as nat, 6) + sequence_end_bytes()).delivered()
            == s.delivered().push(Atom::SequenceBegin(id)).push(Atom::SequenceEnd),
{
    crate::istream::lemma_run_chunks(s, header_bytes(id as nat, 6), sequence_end_bytes());
    lemma_roundtrip_sequence_start(s, id);
    lemma_roundtrip_sequence_end(run(s, header_bytes(id as nat, 6)));
    lemma_ok_at_boundary(s, run(s, header_bytes(id as nat, 6) + sequence_end_bytes()));
}


/// An unsigned array of at most `ARRAY_MAX` elements, read from a field
/// boundary, announces its length and hands the visitor every element, in
/// order, widened; it ends at a field boundary at the same depth.
pub proof fn lemma_roundtrip_unsigned_array<T: UnsignedElem>(s: IStream, id: Id, data: Seq<T>)
    requires
        s.wf(),
        s.ready(),
        id <= ID_MAX,
        data.len() <= ARRAY_MAX,
    ensures
        run(s, varint_array_field(id as nat, 3, unsigned_vals(data))).wf(),
        run(s, varint_array_field(id as nat, 3, unsigned_vals(data))).ready(),
        run(s, varint_array_field(id as nat, 3, unsigned_vals(data))).depth() == s.depth(),
        s.at_boundary() ==> run(s, varint_array_field(id as nat, 3, unsigned_vals(data))).outcome() == Ok::<(), Error>(()),
        run(s, varint_array_field(id as nat, 3, unsigned_vals(data))).delivered()
            == s.delivered().push(Atom::ArrayBegin(id, ArrayKind::Unsigned, data.len() as usize))
            + Seq::new(data.len(), |i: int| Atom::Unsigned(id, data[i].spec_widen())),
{
    let vals = unsigned_vals(data);
    assert forall|i: int| 0 <= i < vals.len() implies #[trigger] vals[i] <= Unsigned::MAX by {
        assert(vals[i] == data[i].spec_widen() as nat);
    }
    lemma_decodes_varint_array(s, id as nat, 3, vals);
    assert(elem_atoms(id, false, vals) =~= Seq::new(data.len(), |i: int| Atom::Unsigned(id, data[i].spec_widen())));
    lemma_ok_at_boundary(s, run(s, varint_array_field(id as nat, 3, unsigned_vals(data))));
}


/// A signed array of at most `ARRAY_MAX` elements, read from a field
/// boundary, announces its length and hands the visitor every element, in
/// order, widened; it ends at a field boundary at the same depth.
pub proof fn lemma_roundtrip_signed_array<T: SignedElem>(s: IStream, id: Id, data: Seq<T>)
    requires
        s.wf(),
        s.ready(),
        id <= ID_MAX,
        data.len() <= ARRAY_MAX,
    ensures
        run(s, varint_array_field(id as nat, 4, signed_vals(data))).wf(),
        run(s, varint_array_field(id as nat, 4, signed_vals(data))).ready(),
        run(s, varint_array_field(id as nat, 4, signed_vals(data))).depth() == s.depth(),
        s.at_boundary() ==> run(s, varint_array_field(id as nat, 4, signed_vals(data))).outcome() == Ok::<(), Error>(()),
        run(s, varint_array_field(id as nat, 4, signed_vals(data))).delivered()
            == s.delivered().push(Atom::ArrayBegin(id, ArrayKind::Signed, data.len() as usize))
            + Seq::new(data.len(), |i: int| Atom::Signed(id, data[i].spec_widen())),
{
    let vals = signed_vals(data);
    assert forall|i: int| 0 <= i < vals.len() implies #[trigger] vals[i] <= Unsigned::MAX by {
        lemma_zigzag_roundtrip(data[i].spec_widen());
    }
    lemma_decodes_varint_array(s, id as nat, 4, vals);
    assert forall|i: int| 0 <= i < vals.len() implies spec_unzigzag(#[trigger] vals[i]) == data[i].spec_widen() by {
        lemma_zigzag_roundtrip(data[i].spec_widen());
    }
    assert(elem_atoms(id, true, vals) =~= Seq::new(data.len(), |i: int| Atom::Signed(id, data[i].spec_widen())));
    lemma_ok_at_boundary(s, run(s, varint_array_field(id as nat, 4, signed_vals(data))));
}


/// The little-endian groups of `n` elements of `width` bytes are `n * width`
/// bytes long.
proof fn lemma_groups_len(bits: Seq<nat>, width: nat, k: int)
    requires
        0 <= k <= bits.len(),
    ensures
        concat_groups(le_groups(bits, width).take(k)).len() == k * width,
    decreases k,
{
    if k == 0 {
        assert(le_groups(bits, width).take(0) =~= Seq::<Seq<u8>>::empty());
    } else {
        lemma_groups_len(bits, width, k - 1);
        lemma_groups_step(le_groups(bits, width), k - 1);
        lemma_le_bytes_len(bits[k - 1], width);
        assert(k * width == (k - 1) * width + width) by (nonlinear_arith);
    }
}

/// In a concatenation of groups of `width` bytes each, group `i` stands at
/// bytes `i * width ..`.
proof fn lemma_group_at(groups: Seq<Seq<u8>>, width: nat, i: int)
    requires
        0 <= i < groups.len(),
        forall|j: int| 0 <= j < groups.len() ==> (#[trigger] groups[j]).len() == width,
    ensures
        concat_groups(groups).len() == groups.len() * width,
        concat_groups(groups).subrange(i * width, i * width + width) == groups[i],
    decreases groups.len(),
{
    let n = groups.len();
    let init = groups.drop_last();
    assert(concat_groups(groups) == concat_groups(init) + groups.last());
    if i < n - 1 {
        assert forall|j: int| 0 <= j < init.len() implies (#[trigger] init[j]).len() == width by {
            assert(init[j] == groups[j]);
        }
        lemma_group_at(init, width, i);
        assert(concat_groups(groups).subrange(i * width, i * width + width)
            =~= concat_groups(init).subrange(i * width, i * width + width)) by {
            assert(i * width + width <= (n - 1) * width) by (nonlinear_arith)
                requires i < n - 1;
        }
        assert(n * width == (n - 1) * width + width) by (nonlinear_arith);
    } else {
        if n == 1 {
            assert(init =~= Seq::<Seq<u8>>::empty());
            assert(concat_groups(init) =~= Seq::<u8>::empty());
        } else {
            lemma_group_at(init, width, 0);
            assert forall|j: int| 0 <= j < init.len() implies (#[trigger] init[j]).len() == width by {
                assert(init[j] == groups[j]);
            }
        }
        assert(concat_groups(init).len() == (n - 1) * width);
        assert(i * width == (n - 1) * width);
        assert(n * width == (n - 1) * width + width) by (nonlinear_arith);
        assert(concat_groups(groups).subrange(i * width, i * width + width) =~= groups.last());
    }
}

/// A float array of at most `ARRAY_MAX` elements, read from a field boundary,
/// announces its element kind and count, hands the visitor every element's
/// bit pattern in order (the low `4` or `8` bytes of each), and ends at a
/// field boundary at the same depth.
pub proof fn lemma_roundtrip_float_array(s: IStream, id: Id, bits: Seq<nat>, t: FixlenType)
    requires
        s.wf(),
        s.ready(),
        id <= ID_MAX,
        t == FixlenType::Fp32 || t == FixlenType::Fp64,
        bits.len() <= ARRAY_MAX,
    ensures
        ({
            let width: nat = if t == FixlenType::Fp32 { 4 } else { 8 };
            let kind = if t == FixlenType::Fp32 { ArrayKind::Fp32 } else { ArrayKind::Fp64 };
            let bytes = float_array_field(id as nat, t, width, bits);
            &&& run(s, bytes).wf()
            &&& run(s, bytes).ready()
            &&& run(s, bytes).depth() == s.depth()
            &&& s.at_boundary() ==> run(s, bytes).outcome() == Ok::<(), Error>(())
            &&& run(s, bytes).delivered() == s.delivered().push(Atom::ArrayBegin(id, kind, bits.len() as usize))
                + Seq::new(bits.len(), |i: int| float_atom(id, t, bits[i] % pow2(8 * width)))
        }),
{
    let width: nat = if t == FixlenType::Fp32 { 4 } else { 8 };
    let tag: nat = if t == FixlenType::Fp32 { 0 } else { 1 };
    let groups = le_groups(bits, width);
    let payload = concat_groups(groups);
    lemma_groups_len(bits, width, bits.len() as int);
    assert(groups.take(bits.len() as int) =~= groups);
    lemma_decodes_float_array(s, id as nat, tag, bits.len(), payload);
    assert forall|j: int| 0 <= j < groups.len() implies (#[trigger] groups[j]).len() == width by {
        lemma_le_bytes_len(bits[j], width);
    }
    assert forall|i: int| 0 <= i < bits.len() implies le_value(#[trigger] payload.subrange(i * width, i * width + width))
        == bits[i] % pow2(8 * width) by {
        lemma_group_at(groups, width, i);
        lemma_le_value_of_le_bytes(bits[i], width);
    }
    assert(float_elem_atoms(id, t, payload, width, bits.len())
        =~= Seq::new(bits.len(), |i: int| float_atom(id, t, bits[i] % pow2(8 * width))));
    lemma_ok_at_boundary(s, run(s, float_array_field(id as nat, t, width, bits)));
}


} // verus!
