//! Tagged pointer words and their atomic container.

use crate::tag::{bit, bits_at, read_tag, set_tag, strip, Tag, TagPosition, WORD_BITS};
use std::marker::PhantomData;
use std::sync::atomic::{AtomicU64, Ordering};
use vstd::prelude::*;

verus! {

/// A pointer word to a `V`, with an `N1`-bit tag `T1` in its low bits and an `N2`-bit tag `T2` in
/// its high bits.
pub struct Shared<V, T1, T2, const N1: usize, const N2: usize> {
    data: u64,
    _marker: PhantomData<(V, T1, T2)>,
}

impl<V, T1, T2, const N1: usize, const N2: usize> Shared<V, T1, T2, N1, N2> {
    /// The word.
    pub closed spec fn raw(&self) -> u64 {
        self.data
    }
}

impl<V, T1: Tag<N1>, T2: Tag<N2>, const N1: usize, const N2: usize> Shared<V, T1, T2, N1, N2> {
    /// The tag widths fit the word without overlapping.
    pub open spec fn tags_fit() -> bool {
        N1 < WORD_BITS && N2 < WORD_BITS && N1 + N2 <= WORD_BITS
    }

    /// The null word.
    pub fn null() -> (r: Self)
        ensures
            r.raw() == 0,
    {
        Shared { data: 0, _marker: PhantomData }
    }

    /// A pointer from its tagged word.
    pub fn from_raw(data: u64) -> (r: Self)
        ensures
            r.raw() == data,
    {
        Shared { data, _marker: PhantomData }
    }

    /// The tagged word.
    pub fn into_raw(&self) -> (r: u64)
        ensures
            r == self.raw(),
    {
        self.data
    }

    /// Whether the whole word, tags included, is zero.
    pub fn is_null(&self) -> (r: bool)
        ensures
            r == (self.raw() == 0),
    {
        self.data == 0
    }

    /// The same pointer with both tags zeroed.
    pub fn strip(&self) -> (r: Self)
        requires
            Self::tags_fit(),
        ensures
            forall|j: u64|
                j < WORD_BITS ==> #[trigger] bit(r.raw(), j) == (N1 <= j && j < WORD_BITS - N2
                    && bit(self.raw(), j)),
    {
        Shared { data: strip::<T1, T2, N1, N2>(self.data), _marker: PhantomData }
    }

    /// The bits of the low tag, lowest first.
    pub fn tag_lo_bits(&self) -> (r: Vec<bool>)
        requires
            Self::tags_fit(),
        ensures
            r@ == bits_at(self.raw(), 0, N1 as nat),
    {
        read_tag::<T1, N1>(self.data, TagPosition::Lo)
    }

    /// The bits of the high tag, lowest first.
    pub fn tag_hi_bits(&self) -> (r: Vec<bool>)
        requires
            Self::tags_fit(),
        ensures
            r@ == bits_at(self.raw(), (WORD_BITS - N2) as nat, N2 as nat),
    {
        read_tag::<T2, N2>(self.data, TagPosition::Hi)
    }

    /// The low tag.
    pub fn tag_lo(&self) -> (r: T1)
        requires
            Self::tags_fit(),
        ensures
            r == T1::from_bits(bits_at(self.raw(), 0, N1 as nat)),
    {
        T1::deserialize(self.tag_lo_bits())
    }

    /// The high tag.
    pub fn tag_hi(&self) -> (r: T2)
        requires
            Self::tags_fit(),
        ensures
            r == T2::from_bits(bits_at(self.raw(), (WORD_BITS - N2) as nat, N2 as nat)),
    {
        T2::deserialize(self.tag_hi_bits())
    }

    /// The same pointer with `bits` as its low tag; every other bit is kept.
    pub fn with_tag_lo_bits(&self, bits: Vec<bool>) -> (r: Self)
        requires
            Self::tags_fit(),
            bits@.len() == N1,
        ensures
            bits_at(r.raw(), 0, N1 as nat) == bits@,
            forall|j: u64| N1 <= j < WORD_BITS ==> #[trigger] bit(r.raw(), j) == bit(self.raw(), j),
    {
        let ghost b = bits@;
        let data = set_tag::<T1, N1>(self.data, bits, TagPosition::Lo);
        proof {
            crate::tag::lemma_tag_round_trip(self.data, data, b, 0);
        }
        Shared { data, _marker: PhantomData }
    }

    /// The same pointer with `bits` as its high tag; every other bit is kept.
    pub fn with_tag_hi_bits(&self, bits: Vec<bool>) -> (r: Self)
        requires
            Self::tags_fit(),
            bits@.len() == N2,
        ensures
            bits_at(r.raw(), (WORD_BITS - N2) as nat, N2 as nat) == bits@,
            forall|j: u64| j < WORD_BITS - N2 ==> #[trigger] bit(r.raw(), j) == bit(self.raw(), j),
    {
        let ghost b = bits@;
        let data = set_tag::<T2, N2>(self.data, bits, TagPosition::Hi);
        proof {
            crate::tag::lemma_tag_round_trip(self.data, data, b, (WORD_BITS - N2) as nat);
        }
        Shared { data, _marker: PhantomData }
    }

    /// The same pointer with `tag` as its low tag; every other bit is kept.
    pub fn with_tag_lo(&self, tag: T1) -> (r: Self)
        requires
            Self::tags_fit(),
        ensures
            bits_at(r.raw(), 0, N1 as nat) == tag.to_bits(),
            forall|j: u64| N1 <= j < WORD_BITS ==> #[trigger] bit(r.raw(), j) == bit(self.raw(), j),
    {
        self.with_tag_lo_bits(tag.serialize())
    }

    /// The same pointer with `tag` as its high tag; every other bit is kept.
    pub fn with_tag_hi(&self, tag: T2) -> (r: Self)
        requires
            Self::tags_fit(),
        ensures
            bits_at(r.raw(), (WORD_BITS - N2) as nat, N2 as nat) == tag.to_bits(),
            forall|j: u64| j < WORD_BITS - N2 ==> #[trigger] bit(r.raw(), j) == bit(self.raw(), j),
    {
        self.with_tag_hi_bits(tag.serialize())
    }
}

impl<V, T1, T2, const N1: usize, const N2: usize> Clone for Shared<V, T1, T2, N1, N2> {
    fn clone(&self) -> (r: Self)
        ensures
            r.raw() == self.raw(),
    {
        Shared { data: self.data, _marker: PhantomData }
    }
}

/// Applies `f` to the value of either side of a result, keeping the side.
pub fn map_both<T, U, F: Fn(T) -> U>(result: Result<T, T>, f: F) -> (r: Result<U, U>)
    requires
        forall|t: T| f.requires((t,)),
    ensures
        result is Ok ==> r is Ok && f.ensures((result->Ok_0,), r->Ok_0),
        result is Err ==> r is Err && f.ensures((result->Err_0,), r->Err_0),
{
    match result {
        Ok(t) => Ok(f(t)),
        Err(t) => Err(f(t)),
    }
}

/// An atomic tagged pointer word. What a load observes depends on the other threads.
pub struct Atomic<V, T1, T2, const N1: usize, const N2: usize> {
    data: AtomicU64,
    _marker: PhantomData<(V, T1, T2)>,
}

impl<V, T1: Tag<N1>, T2: Tag<N2>, const N1: usize, const N2: usize> Atomic<V, T1, T2, N1, N2> {
    /// An atomic word holding `shared`.
    pub fn new(shared: Shared<V, T1, T2, N1, N2>) -> (r: Self) {
        Atomic { data: AtomicU64::new(shared.into_raw()), _marker: PhantomData }
    }

    /// An atomic word holding null.
    pub fn null() -> (r: Self) {
        Atomic { data: AtomicU64::new(0), _marker: PhantomData }
    }

    /// Reads the word.
    pub fn load(&self, ordering: Ordering) -> (r: Shared<V, T1, T2, N1, N2>)
        requires
            ordering != Ordering::Release,
            ordering != Ordering::AcqRel,
    {
        Shared::from_raw(self.data.load(ordering))
    }

    /// Writes the word.
    pub fn store(&self, shared: Shared<V, T1, T2, N1, N2>, ordering: Ordering)
        requires
            ordering != Ordering::Acquire,
            ordering != Ordering::AcqRel,
    {
        self.data.store(shared.into_raw(), ordering);
    }

    /// Writes the word and returns the previous one.
    pub fn swap(&self, new: Shared<V, T1, T2, N1, N2>, ordering: Ordering) -> (r: Shared<
        V,
        T1,
        T2,
        N1,
        N2,
    >) {
        Shared::from_raw(self.data.swap(new.into_raw(), ordering))
    }

    /// Replaces the word by `new` if it holds `current`; returns the previous word, as `Ok` when
    /// the exchange happened.
    pub fn compare_exchange(
        &self,
        current: Shared<V, T1, T2, N1, N2>,
        new: Shared<V, T1, T2, N1, N2>,
        success: Ordering,
        failure: Ordering,
    ) -> (r: Result<Shared<V, T1, T2, N1, N2>, Shared<V, T1, T2, N1, N2>>)
        requires
            failure != Ordering::Release,
            failure != Ordering::AcqRel,
        ensures
            r matches Ok(s) ==> s.raw() == current.raw(),
    {
        match self.data.compare_exchange(current.into_raw(), new.into_raw(), success, failure) {
            Ok(_) => Ok(Shared::from_raw(current.into_raw())),
            Err(v) => Err(Shared::from_raw(v)),
        }
    }

    /// Like `compare_exchange`, but may fail even when the word holds `current`.
    pub fn compare_exchange_weak(
        &self,
        current: Shared<V, T1, T2, N1, N2>,
        new: Shared<V, T1, T2, N1, N2>,
        success: Ordering,
        failure: Ordering,
    ) -> (r: Result<Shared<V, T1, T2, N1, N2>, Shared<V, T1, T2, N1, N2>>)
        requires
            failure != Ordering::Release,
            failure != Ordering::AcqRel,
        ensures
            r matches Ok(s) ==> s.raw() == current.raw(),
    {
        match self.data.compare_exchange_weak(current.into_raw(), new.into_raw(), success, failure) {
            Ok(_) => Ok(Shared::from_raw(current.into_raw())),
            Err(v) => Err(Shared::from_raw(v)),
        }
    }
}

} // verus!
