//! Trailing-default-run trimming of element slices.
//!
//! [`trim_tail`] finds the prefix of a slice that ends at its last element
//! differing from a default. It is not an encoding step and must not be used
//! as one: an array's element count on the wire is its length, the encoder
//! writes every element it is given, and nothing fills an array back up on
//! decode, so writing a trimmed array sends a different, shorter value (the
//! five elements `[1, 2, 3, 0, 0]` would arrive as three). Pass arrays to the
//! array writers unmodified. The float variants, which compare by bit
//! pattern, belong to the application layer.
use vstd::prelude::*;
use vstd::std_specs::cmp::PartialEqSpec;

verus! {

/// `kept` is the length of `a` once its trailing run of elements equal to
/// `zero` is dropped: every element from `kept` on equals `zero`, and the one
/// before `kept`, if any, does not.
pub open spec fn is_trimmed_len<T: PartialEq>(a: Seq<T>, zero: T, kept: int) -> bool {
    &&& 0 <= kept <= a.len()
    &&& forall|j: int| kept <= j < a.len() ==> (#[trigger] a[j]).eq_spec(&zero)
    &&& kept == 0 || !a[kept - 1].eq_spec(&zero)
}

/// Returns `&a[..M']`, dropping the trailing run of elements equal to `zero`.
///
/// `M'` is one past the last element that differs from `zero`, or `0` when
/// every element equals it.
pub fn trim_tail<T: PartialEq + Copy>(a: &[T], zero: T) -> (r: &[T])
    ensures
        r@ == a@.take(r@.len() as int),
        T::obeys_eq_spec() ==> is_trimmed_len(a@, zero, r@.len() as int),
{
    let mut n: usize = a.len();
    while n > 0
        invariant
            n <= a@.len(),
            T::obeys_eq_spec() ==> forall|j: int| n <= j < a@.len() ==> (#[trigger] a@[j]).eq_spec(&zero),
        ensures
            n <= a@.len(),
            T::obeys_eq_spec() ==> is_trimmed_len(a@, zero, n as int),
        decreases n,
    {
        if a[n - 1] == zero {
            n = n - 1;
        } else {
            break;
        }
    }
    let (kept, _) = a.split_at(n);
    proof {
        assert(kept@ =~= a@.take(n as int));
    }
    kept
}

} // verus!
