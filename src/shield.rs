//! Shields that protect nothing, and shields that are either owned or borrowed.

use crate::collector::{Collector, FullShield, ThinShield};
use vstd::prelude::*;

verus! {

broadcast use {
    vstd::multiset::group_multiset_axioms,
    vstd::multiset::lemma_multiset_empty_len,
    vstd::seq_lib::group_to_multiset_ensures,
};

/// What every kind of shield offers over the collector it protects.
pub trait Shield<D> {
    /// The shield is live in `c`.
    spec fn live_in(&self, c: &Collector<D>) -> bool;

    /// Schedules `deferred`; returns the work that may run now, oldest first.
    fn retire(&self, c: &mut Collector<D>, deferred: D) -> (r: Vec<D>)
        requires
            old(c).wf(),
            self.live_in(old(c)),
            old(c).pending() < usize::MAX,
        ensures
            final(c).wf(),
            self.live_in(final(c)),
            final(c).pending() + r@.len() == old(c).pending() + 1,
            final(c).pending_items().add(r@.to_multiset()) == old(c).pending_items().insert(
                deferred,
            ),
    ;

    /// Queues whatever this shield's participant has retired so far; returns the work that may
    /// run now, oldest first.
    fn flush(&self, c: &mut Collector<D>) -> (r: Vec<D>)
        requires
            old(c).wf(),
            self.live_in(old(c)),
        ensures
            final(c).wf(),
            self.live_in(final(c)),
            final(c).pending() + r@.len() == old(c).pending(),
            final(c).pending_items().add(r@.to_multiset()) == old(c).pending_items(),
    ;

    /// Leaves and re-enters the critical section so that the epoch may advance; returns the
    /// work that may run now, oldest first.
    fn repin(&self, c: &mut Collector<D>) -> (r: Vec<D>)
        requires
            old(c).wf(),
            self.live_in(old(c)),
        ensures
            final(c).wf(),
            self.live_in(final(c)),
            final(c).pending() + r@.len() == old(c).pending(),
            final(c).pending_items().add(r@.to_multiset()) == old(c).pending_items(),
    ;
}

impl<D> Shield<D> for ThinShield {
    open spec fn live_in(&self, c: &Collector<D>) -> bool {
        self.tid_spec() < c.participants() && c.shields(self.tid_spec() as int) > 0
    }

    fn retire(&self, c: &mut Collector<D>, deferred: D) -> (r: Vec<D>) {
        c.retire(self, deferred)
    }

    fn flush(&self, c: &mut Collector<D>) -> (r: Vec<D>) {
        c.flush(self)
    }

    fn repin(&self, c: &mut Collector<D>) -> (r: Vec<D>) {
        c.repin(self)
    }
}

impl<D> Shield<D> for FullShield {
    open spec fn live_in(&self, c: &Collector<D>) -> bool {
        c.full_shields() > 0
    }

    fn retire(&self, c: &mut Collector<D>, deferred: D) -> (r: Vec<D>) {
        c.retire_full(self, deferred)
    }

    fn flush(&self, c: &mut Collector<D>) -> (r: Vec<D>) {
        c.flush_full(self)
    }

    fn repin(&self, c: &mut Collector<D>) -> (r: Vec<D>) {
        c.repin_full(self)
    }
}

impl<D> Shield<D> for UnprotectedShield {
    open spec fn live_in(&self, c: &Collector<D>) -> bool {
        true
    }

    /// Hands `deferred` straight back, to run now; the collector is not touched.
    fn retire(&self, c: &mut Collector<D>, deferred: D) -> (r: Vec<D>) {
        let mut out: Vec<D> = Vec::new();
        out.push(deferred);
        proof {
            assert(Seq::<D>::empty().to_multiset().len() == 0);
            assert(out@ =~= Seq::<D>::empty().push(deferred));
            assert(c.pending_items().add(out@.to_multiset()) =~= c.pending_items().insert(deferred));
        }
        out
    }

    /// Nothing is ever queued through an unprotected shield.
    fn flush(&self, c: &mut Collector<D>) -> (r: Vec<D>) {
        let out: Vec<D> = Vec::new();
        proof {
            assert(out@.to_multiset().len() == 0);
            assert(c.pending_items().add(out@.to_multiset()) =~= c.pending_items());
        }
        out
    }

    /// Nothing is pinned, so there is nothing to re-pin.
    fn repin(&self, c: &mut Collector<D>) -> (r: Vec<D>) {
        let out: Vec<D> = Vec::new();
        proof {
            assert(out@.to_multiset().len() == 0);
            assert(c.pending_items().add(out@.to_multiset()) =~= c.pending_items());
        }
        out
    }
}

/// A shield that pins no participant. It may be used only where no other thread can race on
/// the data it reaches; work retired through it is handed back at once, to run immediately.
#[derive(Clone, Copy)]
pub struct UnprotectedShield {
    _private: (),
}

/// The unprotected shield. Using it is sound only while no other thread can race on the atomics
/// it loads.
pub fn unprotected() -> (r: UnprotectedShield) {
    UnprotectedShield { _private: () }
}

impl UnprotectedShield {
    /// Runs `f` at once; nothing is unpinned.
    pub fn repin_after<F: FnOnce() -> R, R>(&mut self, f: F) -> (r: R)
        requires
            f.requires(()),
        ensures
            f.ensures((), r),
    {
        f()
    }
}

/// A shield that is either owned or borrowed.
pub enum CowShield<'shield, S> {
    Owned(S),
    Borrowed(&'shield S),
}

impl<'shield, S: Clone> CowShield<'shield, S> {
    /// Wraps an owned shield.
    pub fn new_owned(shield: S) -> (r: Self)
        ensures
            r == CowShield::<'shield, S>::Owned(shield),
    {
        CowShield::Owned(shield)
    }

    /// Wraps a borrowed shield.
    pub fn new_borrowed(shield: &'shield S) -> (r: Self)
        ensures
            r == CowShield::<'shield, S>::Borrowed(shield),
    {
        CowShield::Borrowed(shield)
    }

    /// The owned shield, or a clone of the borrowed one.
    pub fn into_owned(self) -> (r: S)
        ensures
            self is Owned ==> r == self->Owned_0,
            self is Borrowed ==> vstd::pervasive::strictly_cloned(*self->Borrowed_0, r),
    {
        match self {
            CowShield::Owned(shield) => shield,
            CowShield::Borrowed(shield) => shield.clone(),
        }
    }

    /// The shield, owned or borrowed.
    pub fn get(&self) -> (r: &S)
        ensures
            self is Owned ==> *r == self->Owned_0,
            self is Borrowed ==> *r == *self->Borrowed_0,
    {
        match self {
            CowShield::Owned(shield) => shield,
            CowShield::Borrowed(shield) => shield,
        }
    }
}

} // verus!
