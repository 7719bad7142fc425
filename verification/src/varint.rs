//! Base-128 varint and ZigZag codecs: the wire spelling of every integer.
use vstd::prelude::*;
use crate::types::{Signed, Unsigned};

verus! {

/// The base-128 varint spelling of `v`: seven payload bits per byte, least
/// significant group first, the high bit set on every byte but the last.
pub open spec fn varint_bytes(v: nat) -> Seq<u8>
    decreases v,
{
    if v < 128 {
        seq![v as u8]
    } else {
        seq![(v % 128 + 128) as u8] + varint_bytes(v / 128)
    }
}

/// ZigZag mapping of a signed value onto the naturals: 0, -1, 1, -2, ... map
/// to 0, 1, 2, 3, ...
pub open spec fn spec_zigzag(v: int) -> nat {
    if v >= 0 {
        (2 * v) as nat
    } else {
        (-2 * v - 1) as nat
    }
}

/// Inverse of [`spec_zigzag`].
pub open spec fn spec_unzigzag(u: nat) -> int {
    if u % 2 == 0 {
        (u / 2) as int
    } else {
        -((u / 2) as int) - 1
    }
}

/// ZigZag encode a signed value to its unsigned varint representation.
pub fn zigzag_encode(v: Signed) -> (r: Unsigned)
    ensures
        r as nat == spec_zigzag(v as int),
{
    if v >= 0 {
        (v as Unsigned) * 2
    } else {
        let m: Signed = -(v + 1);
        (m as Unsigned) * 2 + 1
    }
}

/// ZigZag decode an unsigned varint value back to a signed value.
pub fn zigzag_decode(u: Unsigned) -> (r: Signed)
    ensures
        r as int == spec_unzigzag(u as nat),
{
    let half: Unsigned = u / 2;
    if u % 2 == 0 {
        half as Signed
    } else {
        -(half as Signed) - 1
    }
}

/// ZigZag decoding undoes ZigZag encoding, for every signed value.
pub proof fn lemma_zigzag_roundtrip(v: Signed)
    ensures
        spec_unzigzag(spec_zigzag(v as int)) == v as int,
        spec_zigzag(v as int) <= Unsigned::MAX,
{
}

/// ZigZag encoding undoes ZigZag decoding, for every unsigned value.
pub proof fn lemma_unzigzag_roundtrip(u: Unsigned)
    ensures
        spec_zigzag(spec_unzigzag(u as nat)) == u as nat,
        Signed::MIN <= spec_unzigzag(u as nat) <= Signed::MAX,
{
}

/// `128` to the power `k`.
pub open spec fn pow128(k: nat) -> nat
    decreases k,
{
    if k == 0 {
        1
    } else {
        128 * pow128((k - 1) as nat)
    }
}

proof fn lemma_varint_len_bound(v: nat, k: nat)
    requires
        v < pow128(k),
        k >= 1,
    ensures
        varint_bytes(v).len() <= k,
    decreases v,
{
    if v >= 128 {
        let p = pow128((k - 1) as nat);
        assert(v < 128 * p);
        assert(v / 128 < p) by (nonlinear_arith)
            requires
                v < 128 * p,
        ;
        if k == 1 {
            assert(p == 1);
        }
        lemma_varint_len_bound(v / 128, (k - 1) as nat);
    }
}

/// A varint is one to ten bytes long for a value of the 64-bit value type.
pub proof fn lemma_varint_len(v: nat)
    ensures
        1 <= varint_bytes(v).len(),
        v <= Unsigned::MAX ==> varint_bytes(v).len() <= 10,
        v < 128 ==> varint_bytes(v).len() == 1,
    decreases v,
{
    if v >= 128 {
        lemma_varint_len(v / 128);
    }
    if v <= Unsigned::MAX {
        reveal_with_fuel(pow128, 11);
        assert(pow128(10) == 1180591620717411303424);
        lemma_varint_len_bound(v, 10);
    }
}

/// Every byte of a varint but the last has its continuation bit set; the last
/// has it clear.
pub proof fn lemma_varint_continuation(v: nat)
    ensures
        forall|i: int| 0 <= i < varint_bytes(v).len() - 1 ==> #[trigger] varint_bytes(v)[i] >= 128,
        varint_bytes(v).last() < 128,
    decreases v,
{
    lemma_varint_len(v);
    if v >= 128 {
        lemma_varint_continuation(v / 128);
        lemma_varint_len(v / 128);
        let s = varint_bytes(v);
        let t = varint_bytes(v / 128);
        assert(s == seq![(v % 128 + 128) as u8] + t);
        assert forall|i: int| 0 <= i < s.len() - 1 implies #[trigger] s[i] >= 128 by {
            if i > 0 {
                assert(s[i] == t[i - 1]);
            }
        }
    }
}

/// Split one byte off a value for the encoder: the low seven bits, and the
/// value shifted down by seven.
pub fn split_low7(v: Unsigned) -> (r: (u8, Unsigned))
    ensures
        r.0 as nat == v as nat % 128,
        r.1 as nat == v as nat / 128,
{
    let lo: u8 = (v % 128) as u8;
    (lo, v / 128)
}

/// The varints of `vals`, one after the other.
pub open spec fn varints(vals: Seq<nat>) -> Seq<u8>
    decreases vals.len(),
{
    if vals.len() == 0 {
        Seq::empty()
    } else {
        varints(vals.drop_last()) + varint_bytes(vals.last())
    }
}

pub(crate) proof fn lemma_varints_step(vals: Seq<nat>, i: int)
    requires
        0 <= i < vals.len(),
    ensures
        varints(vals.take(i + 1)) == varints(vals.take(i)) + varint_bytes(vals[i]),
{
    assert(vals.take(i + 1).drop_last() =~= vals.take(i));
}

} // verus!
