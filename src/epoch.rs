//! Epochs: a three-value cycle with a pinned flag packed into the high bit.

use std::sync::atomic::{AtomicU64, Ordering};
use vstd::prelude::*;

verus! {

/// The high bit of an epoch word: set while a participant is pinned.
pub const PIN_BIT: u64 = 0x8000_0000_0000_0000;

/// Selects the epoch value of a word, without the pinned flag.
pub const PIN_MASK: u64 = 0x7fff_ffff_ffff_ffff;

/// Number of distinct epochs in the cycle.
pub const EPOCH_AMOUNT: u64 = 3;

/// The successor of an epoch value in the cycle.
pub open spec fn next_value(v: nat) -> nat {
    (v + 1) % 3
}

/// How many advances lead from epoch value `from` to epoch value `to` (0, 1 or 2).
pub open spec fn distance(from: nat, to: nat) -> nat {
    ((to + 3 - from % 3) % 3) as nat
}

/// At least `k` advances separate `from` from `to`.
pub open spec fn passed_by(from: nat, to: nat, k: nat) -> bool {
    distance(from, to) >= k
}

/// An epoch word: one of three values, plus the pinned flag in the high bit.
#[derive(Clone, Copy, Debug)]
pub struct Epoch {
    data: u64,
}

impl Epoch {
    /// The word this epoch is stored as.
    pub closed spec fn raw(self) -> u64 {
        self.data
    }

    /// The pinned flag.
    pub open spec fn pinned_flag(self) -> bool {
        self.raw() >= PIN_BIT
    }

    /// The word without the pinned flag.
    pub open spec fn unpinned_raw(self) -> nat {
        if self.pinned_flag() {
            (self.raw() - PIN_BIT) as nat
        } else {
            self.raw() as nat
        }
    }

    /// The position of this epoch in the three-value cycle.
    pub open spec fn value(self) -> nat {
        self.unpinned_raw() % 3
    }

    /// The unpinned epoch with value 0; the sentinel of a participant outside any critical section.
    pub fn zero() -> (r: Epoch)
        ensures
            r.raw() == 0,
            r.value() == 0,
            !r.pinned_flag(),
    {
        Epoch { data: 0 }
    }

    /// Builds an epoch from its stored word.
    pub fn from_raw(data: u64) -> (r: Epoch)
        ensures
            r.raw() == data,
    {
        Epoch { data }
    }

    /// The stored word of this epoch.
    pub fn into_raw(self) -> (r: u64)
        ensures
            r == self.raw(),
    {
        self.data
    }

    /// Whether the pinned flag is set.
    pub fn is_pinned(self) -> (r: bool)
        ensures
            r == self.pinned_flag(),
    {
        let d = self.data;
        let r = (d & !PIN_MASK) != 0;
        assert(((d & !0x7fff_ffff_ffff_ffffu64) != 0) == (d >= 0x8000_0000_0000_0000u64))
            by (bit_vector);
        r
    }

    /// The same epoch with the pinned flag set.
    pub fn pinned(self) -> (r: Epoch)
        ensures
            r.pinned_flag(),
            r.unpinned_raw() == self.unpinned_raw(),
            r.value() == self.value(),
    {
        let d = self.data;
        assert(d >= 0x8000_0000_0000_0000u64 ==> (d | 0x8000_0000_0000_0000u64) == d)
            by (bit_vector);
        assert(d < 0x8000_0000_0000_0000u64 ==> (d | 0x8000_0000_0000_0000u64) == d
            + 0x8000_0000_0000_0000u64) by (bit_vector);
        Epoch { data: d | PIN_BIT }
    }

    /// The same epoch with the pinned flag cleared.
    pub fn unpinned(self) -> (r: Epoch)
        ensures
            !r.pinned_flag(),
            r.unpinned_raw() == self.unpinned_raw(),
            r.value() == self.value(),
    {
        let d = self.data;
        assert(d >= 0x8000_0000_0000_0000u64 ==> (d & 0x7fff_ffff_ffff_ffffu64) == d
            - 0x8000_0000_0000_0000u64) by (bit_vector);
        assert(d < 0x8000_0000_0000_0000u64 ==> (d & 0x7fff_ffff_ffff_ffffu64) == d)
            by (bit_vector);
        Epoch { data: d & PIN_MASK }
    }

    /// The position of this epoch in the cycle, as an integer below three.
    pub fn unique(self) -> (r: u64)
        ensures
            r == self.value(),
    {
        let u = self.unpinned();
        u.data % EPOCH_AMOUNT
    }

    /// The epoch that follows this one in the cycle.
    pub fn next(self) -> (r: Epoch)
        requires
            !self.pinned_flag(),
        ensures
            !r.pinned_flag(),
            r.raw() < 3,
            r.value() == next_value(self.value()),
    {
        let v = self.unique();
        Epoch { data: (v + 1) % EPOCH_AMOUNT }
    }

    /// Whether at least `k` advances of the global epoch separate this epoch from `now`.
    pub fn has_passed(self, now: Epoch, k: u64) -> (r: bool)
        ensures
            r == passed_by(self.value(), now.value(), k as nat),
    {
        let from = self.unique();
        let to = now.unique();
        let d = (to + EPOCH_AMOUNT - from) % EPOCH_AMOUNT;
        d >= k
    }
}

/// Two epochs are equal when they name the same position in the cycle; the flag is ignored.
impl PartialEq for Epoch {
    fn eq(&self, other: &Epoch) -> (r: bool) {
        self.unique() == other.unique()
    }
}

impl vstd::std_specs::cmp::PartialEqSpecImpl for Epoch {
    open spec fn obeys_eq_spec() -> bool {
        true
    }

    open spec fn eq_spec(&self, other: &Epoch) -> bool {
        self.value() == other.value()
    }
}

/// The full stored word of an epoch, pinned flag included; ordered as integers.
#[derive(Clone, Copy, Debug, PartialEq, Eq, PartialOrd, Ord, Hash)]
pub struct DefinitiveEpoch(pub u64);

impl From<Epoch> for DefinitiveEpoch {
    fn from(epoch: Epoch) -> (r: DefinitiveEpoch) {
        DefinitiveEpoch(epoch.into_raw())
    }
}

impl vstd::std_specs::convert::FromSpecImpl<Epoch> for DefinitiveEpoch {
    open spec fn obeys_from_spec() -> bool {
        true
    }

    open spec fn from_spec(epoch: Epoch) -> DefinitiveEpoch {
        DefinitiveEpoch(epoch.raw())
    }
}

/// An epoch word shared between threads.
pub struct AtomicEpoch {
    raw: AtomicU64,
}

impl AtomicEpoch {
    /// A shared word holding `epoch`.
    pub fn new(epoch: Epoch) -> (r: AtomicEpoch) {
        AtomicEpoch { raw: AtomicU64::new(epoch.into_raw()) }
    }

    /// Reads the shared word; what it holds depends on the other threads.
    pub fn load(&self, order: Ordering) -> (r: Epoch)
        requires
            order != Ordering::Release,
            order != Ordering::AcqRel,
    {
        Epoch::from_raw(self.raw.load(order))
    }

    /// Writes `epoch` to the shared word.
    pub fn store(&self, epoch: Epoch, order: Ordering)
        requires
            order != Ordering::Acquire,
            order != Ordering::AcqRel,
    {
        self.raw.store(epoch.into_raw(), order);
    }

    /// Replaces `current` by `new` if the word still holds `current`, compared word for word.
    pub fn compare_and_set_non_unique(&self, current: Epoch, new: Epoch, order: Ordering)
        requires
            order != Ordering::AcqRel,
            order != Ordering::Release,
    {
        let _ = self.raw.compare_exchange(current.into_raw(), new.into_raw(), order, order);
    }

    /// Moves the word from `current` to the epoch after it; fails if another thread changed it first.
    pub fn try_advance(&self, current: Epoch) -> (r: Result<Epoch, ()>)
        requires
            !current.pinned_flag(),
        ensures
            r matches Ok(e) ==> !e.pinned_flag() && e.value() == next_value(current.value()),
    {
        let next = current.next();
        match self.raw.compare_exchange(
            current.into_raw(),
            next.into_raw(),
            Ordering::SeqCst,
            Ordering::Relaxed,
        ) {
            Ok(_) => Ok(next),
            Err(_) => Err(()),
        }
    }
}

/// The epoch cycle: three advances lead back to the start; two advances pass an epoch by two,
/// one advance does not.
pub proof fn lemma_epoch_cycle(v: nat)
    requires
        v < 3,
    ensures
        next_value(next_value(next_value(v))) == v,
        passed_by(v, next_value(next_value(v)), 2),
        !passed_by(v, next_value(v), 2),
{
}

} // verus!
