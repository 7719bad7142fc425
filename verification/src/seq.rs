//! Wrapper-array slots for generated decode destinations.
//!
//! Nothing here touches the wire. These are the operations a generated
//! visitor performs around a [`Visitor`](crate::Visitor) callback inside a
//! wrapper array: check an element id or an announced length against the bound
//! that governs it, and make the slot an element lands in. Gaps are legal and
//! filled with element defaults, the length is the highest present id plus
//! one, a repeated id replaces, and a rejected id extends nothing.
use vstd::prelude::*;
use crate::error::{Error, Result};
use crate::types::Id;

verus! {

/// The one bound that governs an element index, an element length or a row's
/// element count: the schema's, or the receiver's where the schema has none.
#[derive(Debug, Clone, Copy, PartialEq, Eq, Structural)]
pub enum Bound {
    /// The schema's `count:` (a capacity) or `maxlen:`. A breach is
    /// [`Error::InvalidMsg`].
    Schema(usize),
    /// The receiver cap for a field the schema leaves open. A breach is
    /// [`Error::LimitExceeded`]; `Cap(0)` states no cap and is
    /// [`Error::Argument`].
    Cap(usize),
}

/// The limit of a bound and the verdict for a breach of it, or the error for
/// a bound that states none.
pub open spec fn spec_limit(b: Bound) -> Result<(usize, Error)> {
    match b {
        Bound::Schema(n) => Ok((n, Error::InvalidMsg)),
        Bound::Cap(n) => if n == 0 { Err(Error::Argument) } else { Ok((n, Error::LimitExceeded)) },
    }
}

/// The verdict on index `id` under `b`.
pub open spec fn spec_check_index(id: nat, b: Bound) -> Result<()> {
    match spec_limit(b) {
        Err(e) => Err(e),
        Ok((n, breach)) => if id < n { Ok(()) } else { Err(breach) },
    }
}

/// The verdict on length `len` under `b`.
pub open spec fn spec_check_len(len: nat, b: Bound) -> Result<()> {
    match spec_limit(b) {
        Err(e) => Err(e),
        Ok((n, breach)) => if len <= n { Ok(()) } else { Err(breach) },
    }
}

impl Bound {
    /// The limit to compare against, and the verdict for a breach of it.
    fn limit(self) -> (r: Result<(usize, Error)>)
        ensures
            r == spec_limit(self),
    {
        match self {
            Bound::Schema(n) => Ok((n, Error::InvalidMsg)),
            Bound::Cap(n) => {
                if n == 0 {
                    Err(Error::Argument)
                } else {
                    Ok((n, Error::LimitExceeded))
                }
            },
        }
    }
}

/// The destination of a wrapper array: a sequence of slots that can grow.
pub trait SeqVec {
    /// What one slot holds.
    type Elem;

    /// The slots, in order.
    spec fn slots(&self) -> Seq<Self::Elem>;

    /// Whether [`SeqVec::slots`] describes this container. Where it does not,
    /// nothing is stated of its contents.
    spec fn obeys_slots() -> bool;

    /// Whether the container can hold `len` slots.
    spec fn holds(&self, len: nat) -> bool;

    /// Whether `e` is what a fresh slot holds: an element default.
    spec fn is_fill(e: Self::Elem) -> bool;

    /// The number of slots.
    fn len(&self) -> (r: usize)
        ensures
            Self::obeys_slots() ==> r == self.slots().len(),
    ;

    /// Whether there are no slots.
    fn is_empty(&self) -> (r: bool)
        ensures
            Self::obeys_slots() ==> (r <==> self.slots().len() == 0),
    {
        self.len() == 0
    }

    /// Extend to exactly `len` slots, each a fresh element default; `false`
    /// when the container cannot hold `len` slots, and then it has grown by
    /// nothing. Called only with `len` above the current length.
    fn grow_to(&mut self, len: usize) -> (r: bool)
        requires
            Self::obeys_slots() ==> old(self).slots().len() < len,
        ensures
            Self::obeys_slots() && r ==> final(self).slots().len() == len
                && final(self).slots().take(old(self).slots().len() as int) == old(self).slots()
                && forall|j: int| old(self).slots().len() <= j < len ==> Self::is_fill(#[trigger] final(self).slots()[j]),
            Self::obeys_slots() && !r ==> final(self).slots() == old(self).slots(),
            Self::obeys_slots() && old(self).holds(len as nat) ==> r,
            !old(self).holds(len as nat) ==> !r,
    ;

    /// The slot at `i`, if there is one.
    fn slot_mut(&mut self, i: usize) -> (r: Option<&mut Self::Elem>)
        ensures
            Self::obeys_slots() ==> (r is Some <==> i < old(self).slots().len()),
            Self::obeys_slots() ==> (r matches Some(e) ==> *e == old(self).slots()[i as int]
                && final(self).slots() == old(self).slots().update(i as int, *final(e))),
            Self::obeys_slots() ==> (r is None ==> final(self).slots() == old(self).slots()),
    ;

    /// Remove every slot.
    fn clear(&mut self)
        ensures
            Self::obeys_slots() ==> final(self).slots() == Seq::<Self::Elem>::empty(),
    ;
}

/// Check an element id against the bound on the array's index: `Ok` below
/// the bound, otherwise the bound's verdict.
pub fn check_index(id: Id, bound: Bound) -> (r: Result<()>)
    ensures
        r == spec_check_index(id as nat, bound),
        bound matches Bound::Schema(n) ==> (r is Ok <==> (id as nat) < n)
            && (r is Err ==> r == Err::<(), Error>(Error::InvalidMsg)),
        bound matches Bound::Cap(n) ==> (r is Ok <==> 0 < n && (id as nat) < n)
            && (n == 0 ==> r == Err::<(), Error>(Error::Argument))
            && (n > 0 && (id as nat) >= n ==> r == Err::<(), Error>(Error::LimitExceeded)),
{
    let (n, breach) = match bound.limit() {
        Ok(p) => p,
        Err(e) => {
            return Err(e);
        },
    };
    if (id as usize) < n {
        Ok(())
    } else {
        Err(breach)
    }
}

/// Check a length or count the wire announces against the bound on it: `Ok`
/// up to the bound, otherwise the bound's verdict.
pub fn check_len(len: usize, bound: Bound) -> (r: Result<()>)
    ensures
        r == spec_check_len(len as nat, bound),
        bound matches Bound::Schema(n) ==> (r is Ok <==> len <= n)
            && (r is Err ==> r == Err::<(), Error>(Error::InvalidMsg)),
        bound matches Bound::Cap(n) ==> (r is Ok <==> 0 < n && len <= n)
            && (n == 0 ==> r == Err::<(), Error>(Error::Argument))
            && (n > 0 && len > n ==> r == Err::<(), Error>(Error::LimitExceeded)),
{
    let (n, breach) = match bound.limit() {
        Ok(p) => p,
        Err(e) => {
            return Err(e);
        },
    };
    if len <= n {
        Ok(())
    } else {
        Err(breach)
    }
}

/// The bound on an element index admits exactly the indices below it: under
/// a schema bound `n` every index at or past `n` is [`Error::InvalidMsg`];
/// under a receiver cap `n > 0` it is [`Error::LimitExceeded`]; a cap of `0`
/// states no cap and refuses every index with [`Error::Argument`].
pub proof fn lemma_index_bound(id: nat, b: Bound)
    ensures
        b matches Bound::Schema(n) ==> (spec_check_index(id, b) is Ok <==> id < n)
            && (id >= n ==> spec_check_index(id, b) == Err::<(), Error>(Error::InvalidMsg)),
        b matches Bound::Cap(n) ==> (spec_check_index(id, b) is Ok <==> 0 < n && id < n)
            && (n == 0 ==> spec_check_index(id, b) == Err::<(), Error>(Error::Argument))
            && (0 < n <= id ==> spec_check_index(id, b) == Err::<(), Error>(Error::LimitExceeded)),
{
}

/// The bound on an announced length admits exactly the lengths up to it:
/// under a schema bound `n` every length past `n` is [`Error::InvalidMsg`];
/// under a receiver cap `n > 0` it is [`Error::LimitExceeded`]; a cap of `0`
/// refuses every length with [`Error::Argument`].
pub proof fn lemma_len_bound(len: nat, b: Bound)
    ensures
        b matches Bound::Schema(n) ==> (spec_check_len(len, b) is Ok <==> len <= n)
            && (len > n ==> spec_check_len(len, b) == Err::<(), Error>(Error::InvalidMsg)),
        b matches Bound::Cap(n) ==> (spec_check_len(len, b) is Ok <==> 0 < n && len <= n)
            && (n == 0 ==> spec_check_len(len, b) == Err::<(), Error>(Error::Argument))
            && (0 < n < len ==> spec_check_len(len, b) == Err::<(), Error>(Error::LimitExceeded)),
{
}

/// The slots after element `id` was reserved: grown to `id + 1` where
/// shorter, every existing slot but slot `id` kept.
pub open spec fn reserved<T>(old: Seq<T>, new: Seq<T>, id: nat) -> bool {
    &&& new.len() == if id < old.len() { old.len() } else { id + 1 }
    &&& forall|j: int| 0 <= j < old.len() && j != id ==> #[trigger] new[j] == old[j]
}

/// Reserve the slot element `id` lands in, growing the container to `id + 1`
/// with element defaults where it is shorter, and hand the slot back. The
/// bound is checked first, so a rejected id grows nothing; an existing slot is
/// returned as it is. [`Error::Argument`] when the container cannot grow.
pub fn reserve_elem<C: SeqVec>(out: &mut C, id: Id, bound: Bound) -> (r: Result<&mut C::Elem>)
    ensures
        (bound matches Bound::Schema(n) && (id as nat) >= n) || (bound matches Bound::Cap(n) && (id as nat) >= n)
            ==> r is Err && final(out).slots() == old(out).slots(),
        spec_check_index(id as nat, bound) is Err ==> r is Err && r->Err_0 == spec_check_index(id as nat, bound)->Err_0
            && final(out).slots() == old(out).slots(),
        spec_check_index(id as nat, bound) is Ok && C::obeys_slots() ==> {
            &&& r is Err ==> r->Err_0 == Error::Argument && final(out).slots() == old(out).slots()
                && (id as nat) >= old(out).slots().len() && !old(out).holds(id as nat + 1)
            &&& r matches Ok(e) ==> {
                &&& reserved(old(out).slots(), final(out).slots(), id as nat)
                &&& (id as nat) < old(out).slots().len() ==> *e == old(out).slots()[id as int]
                &&& (id as nat) >= old(out).slots().len() ==> C::is_fill(*e)
                &&& forall|j: int| old(out).slots().len() <= j < id ==> C::is_fill(#[trigger] final(out).slots()[j])
                &&& final(out).slots()[id as int] == *final(e)
            }
        },
{
    proof {
        lemma_index_bound(id as nat, bound);
    }
    match check_index(id, bound) {
        Ok(()) => {},
        Err(e) => {
            return Err(e);
        },
    }
    let i = id as usize;
    if out.len() <= i {
        if !out.grow_to(i + 1) {
            return Err(Error::Argument);
        }
    }
    match out.slot_mut(i) {
        Some(e) => Ok(e),
        None => Err(Error::Argument),
    }
}


/// Place a decoded leaf element (a string or blob) at the index its id
/// names, filling any gap before it with element defaults. A repeated id
/// replaces the earlier value. On an error `out` is unchanged.
pub fn place_elem<C: SeqVec>(out: &mut C, id: Id, bound: Bound, value: C::Elem) -> (r: Result<()>)
    ensures
        (bound matches Bound::Schema(n) && (id as nat) >= n) || (bound matches Bound::Cap(n) && (id as nat) >= n)
            ==> r is Err && final(out).slots() == old(out).slots(),
        spec_check_index(id as nat, bound) is Err ==> r == spec_check_index(id as nat, bound)
            && final(out).slots() == old(out).slots(),
        spec_check_index(id as nat, bound) is Ok && C::obeys_slots() ==> {
            &&& r is Err ==> r == Err::<(), Error>(Error::Argument) && final(out).slots() == old(out).slots()
                && (id as nat) >= old(out).slots().len() && !old(out).holds(id as nat + 1)
            &&& r is Ok ==> reserved(old(out).slots(), final(out).slots(), id as nat)
                && final(out).slots()[id as int] == value
                && forall|j: int| old(out).slots().len() <= j < id ==> C::is_fill(#[trigger] final(out).slots()[j])
        },
{
    proof {
        lemma_index_bound(id as nat, bound);
    }
    match reserve_elem(out, id, bound) {
        Ok(slot) => {
            *slot = value;
            Ok(())
        },
        Err(e) => Err(e),
    }
}

/// Reserve a matrix row (an element that is itself a sequence) and empty it:
/// a repeated row id starts over rather than appending.
pub fn reserve_row<C: SeqVec>(out: &mut C, id: Id, bound: Bound) -> (r: Result<&mut C::Elem>)
    where C::Elem: SeqVec
    ensures
        (bound matches Bound::Schema(n) && (id as nat) >= n) || (bound matches Bound::Cap(n) && (id as nat) >= n)
            ==> r is Err && final(out).slots() == old(out).slots(),
        spec_check_index(id as nat, bound) is Err ==> r is Err && r->Err_0 == spec_check_index(id as nat, bound)->Err_0
            && final(out).slots() == old(out).slots(),
        spec_check_index(id as nat, bound) is Ok && C::obeys_slots() ==> {
            &&& r is Err ==> r->Err_0 == Error::Argument && final(out).slots() == old(out).slots()
                && (id as nat) >= old(out).slots().len() && !old(out).holds(id as nat + 1)
            &&& r matches Ok(e) ==> {
                &&& reserved(old(out).slots(), final(out).slots(), id as nat)
                &&& final(out).slots()[id as int] == *final(e)
                &&& forall|j: int| old(out).slots().len() <= j < id ==> C::is_fill(#[trigger] final(out).slots()[j])
                &&& <C::Elem as SeqVec>::obeys_slots() ==> (*e).slots() == Seq::<<C::Elem as SeqVec>::Elem>::empty()
            }
        },
{
    proof {
        lemma_index_bound(id as nat, bound);
    }
    match reserve_elem(out, id, bound) {
        Ok(row) => {
            row.clear();
            Ok(row)
        },
        Err(e) => Err(e),
    }
}

impl<T: Default> SeqVec for Vec<T> {
    type Elem = T;

    open spec fn slots(&self) -> Seq<T> {
        self@
    }

    open spec fn obeys_slots() -> bool {
        true
    }

    /// A growable vector holds any length.
    open spec fn holds(&self, len: nat) -> bool {
        true
    }

    /// A fresh slot holds what `T::default()` returns.
    open spec fn is_fill(e: T) -> bool {
        call_ensures(T::default, (), e)
    }

    fn len(&self) -> (r: usize) {
        Vec::len(self)
    }

    fn grow_to(&mut self, len: usize) -> (r: bool) {
        let ghost start = self@;
        while Vec::len(self) < len
            invariant
                start.len() < len,
                self@.len() <= len,
                self@.len() >= start.len(),
                self@.take(start.len() as int) == start,
                forall|j: int| start.len() <= j < self@.len() ==> Self::is_fill(#[trigger] self@[j]),
            decreases len - self@.len(),
        {
            let ghost before = self@;
            self.push(T::default());
            proof {
                assert(self@.take(start.len() as int) =~= before.take(start.len() as int));
            }
        }
        true
    }

    fn slot_mut(&mut self, i: usize) -> (r: Option<&mut T>) {
        if i < Vec::len(self) {
            Some(&mut self[i])
        } else {
            None
        }
    }

    fn clear(&mut self) {
        Vec::clear(self);
    }
}

/// A vector of at most `N` elements, kept in a `Vec` that never grows past
/// them: the destination of a wrapper array whose receiver has a fixed
/// element budget. A push on a full vector hands the element back, and growing
/// past `N` is refused, so no vector made empty ever holds more than `N`.
#[derive(Debug, Clone)]
pub struct FixedVec<T, const N: usize> {
    items: Vec<T>,
}

impl<T, const N: usize> FixedVec<T, N> {
    /// An empty vector.
    pub fn new() -> (r: Self)
        ensures
            r@ == Seq::<T>::empty(),
    {
        FixedVec { items: Vec::new() }
    }

    /// The number of elements held.
    pub fn len(&self) -> (r: usize)
        ensures
            r == self@.len(),
    {
        self.items.len()
    }

    /// Whether no element is held.
    pub fn is_empty(&self) -> (r: bool)
        ensures
            r <==> self@.len() == 0,
    {
        self.items.len() == 0
    }

    /// The most elements the vector can hold: `N`.
    pub fn capacity(&self) -> (r: usize)
        ensures
            r == N,
    {
        N
    }

    /// Append `item`; on a full vector hand it back and change nothing.
    pub fn push(&mut self, item: T) -> (r: core::result::Result<(), T>)
        ensures
            old(self)@.len() < N ==> r is Ok && final(self)@ == old(self)@.push(item),
            old(self)@.len() >= N ==> r == core::result::Result::<(), T>::Err(item) && final(self)@ == old(self)@,
    {
        if self.items.len() >= N {
            return Err(item);
        }
        self.items.push(item);
        Ok(())
    }

    /// The elements held, in order.
    pub fn as_slice(&self) -> (r: &[T])
        ensures
            r@ == self@,
    {
        self.items.as_slice()
    }

    /// Remove every element.
    pub fn clear(&mut self)
        ensures
            final(self)@ == Seq::<T>::empty(),
    {
        self.items.clear();
    }
}

impl<T, const N: usize> View for FixedVec<T, N> {
    type V = Seq<T>;

    /// The elements held, in order.
    closed spec fn view(&self) -> Seq<T> {
        self.items@
    }
}

impl<T, const N: usize> Default for FixedVec<T, N> {
    fn default() -> (r: Self)
        ensures
            r@ == Seq::<T>::empty(),
    {
        Self::new()
    }
}

impl<T, const N: usize> core::ops::Deref for FixedVec<T, N> {
    type Target = [T];

    fn deref(&self) -> &[T] {
        self.items.as_slice()
    }
}

impl<T: Default, const N: usize> SeqVec for FixedVec<T, N> {
    type Elem = T;

    open spec fn slots(&self) -> Seq<T> {
        self@
    }

    open spec fn obeys_slots() -> bool {
        true
    }

    /// A fixed-capacity vector holds up to `N` slots.
    open spec fn holds(&self, len: nat) -> bool {
        len <= N
    }

    /// A fresh slot holds what `T::default()` returns.
    open spec fn is_fill(e: T) -> bool {
        call_ensures(T::default, (), e)
    }

    fn len(&self) -> (r: usize) {
        FixedVec::len(self)
    }

    /// Refuses up front when `len` exceeds the capacity, so a full container
    /// never grows part of the way; otherwise pushes element defaults until
    /// the length is reached.
    fn grow_to(&mut self, len: usize) -> (r: bool) {
        if len > N {
            return false;
        }
        let ghost start = self@;
        while self.items.len() < len
            invariant
                len <= N,
                start.len() < len,
                self@.len() <= len,
                self@.len() >= start.len(),
                self@.take(start.len() as int) == start,
                forall|j: int| start.len() <= j < self@.len() ==> Self::is_fill(#[trigger] self@[j]),
            decreases len - self@.len(),
        {
            let ghost before = self@;
            self.items.push(T::default());
            proof {
                assert(self@.take(start.len() as int) =~= before.take(start.len() as int));
            }
        }
        true
    }

    fn slot_mut(&mut self, i: usize) -> (r: Option<&mut T>) {
        if i < self.items.len() {
            Some(&mut self.items[i])
        } else {
            None
        }
    }

    fn clear(&mut self) {
        FixedVec::clear(self);
    }
}

} // verus!
