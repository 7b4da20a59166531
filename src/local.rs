//! Participants: the per-thread record (and the shared record of movable shields) that counts
//! live shields, holds the pinned epoch and the bag of work retired through it.

use crate::bag::{entry_ready, lemma_zip_push, lemma_zip_split, zip_stamps, Bag, SealedBag, BAG_SIZE};
use crate::epoch::{distance, Epoch};
use vstd::multiset::Multiset;
use vstd::prelude::*;
use vstd::seq_lib::{lemma_multiset_commutative, to_multiset_build};

verus! {

broadcast use {
    vstd::multiset::group_multiset_axioms,
    vstd::multiset::lemma_multiset_empty_len,
    vstd::seq_lib::group_to_multiset_ensures,
};

/// A participant tries to advance the global epoch once every this many critical-section exits.
pub const ADVANCE_PROBABILITY: usize = 128;

/// The shield count after constructing (`true`) or dropping (`false`) one shield.
pub open spec fn shield_step(count: nat, construct: bool) -> nat {
    if construct {
        count + 1
    } else {
        (count - 1) as nat
    }
}

/// The shield count after a sequence of constructions (`true`) and drops (`false`).
pub open spec fn shield_count_after(start: nat, ops: Seq<bool>) -> nat
    decreases ops.len(),
{
    if ops.len() == 0 {
        start
    } else {
        shield_step(shield_count_after(start, ops.drop_last()), ops.last())
    }
}

/// Constructions minus drops in a sequence of shield operations.
pub open spec fn net_shields(ops: Seq<bool>) -> int
    decreases ops.len(),
{
    if ops.len() == 0 {
        0
    } else {
        net_shields(ops.drop_last()) + if ops.last() {
            1int
        } else {
            -1int
        }
    }
}

/// While a sequence of shield operations never drops a shield that is not there, the count
/// moves by constructions minus drops.
pub proof fn lemma_shield_count_net(start: nat, ops: Seq<bool>)
    requires
        forall|i: int| 0 <= i <= ops.len() ==> start + #[trigger] net_shields(ops.take(i)) >= 0,
    ensures
        shield_count_after(start, ops) == start + net_shields(ops),
    decreases ops.len(),
{
    if ops.len() > 0 {
        let init = ops.drop_last();
        assert forall|i: int| 0 <= i <= init.len() implies start + #[trigger] net_shields(init.take(i))
            >= 0 by {
            assert(init.take(i) =~= ops.take(i));
        }
        lemma_shield_count_net(start, init);
        assert(ops.take(ops.len() as int) =~= ops);
    }
}

/// Shield count balance: a segment that constructs and drops the same number of shields on a
/// participant, never dropping one it does not hold, leaves the count where it started.
pub proof fn lemma_shield_balance(start: nat, ops: Seq<bool>)
    requires
        forall|i: int| 0 <= i <= ops.len() ==> start + #[trigger] net_shields(ops.take(i)) >= 0,
        net_shields(ops) == 0,
    ensures
        shield_count_after(start, ops) == start,
{
    lemma_shield_count_net(start, ops);
}

/// A participant's epoch, shield count and pin stamp are consistent after `a` global advances:
/// with live shields it is pinned at the epoch of its pin stamp, which is at most one advance
/// behind; without, it holds the unpinned zero epoch.
pub open spec fn participant_wf(epoch: Epoch, shields: nat, pin: nat, a: nat) -> bool {
    if shields > 0 {
        &&& epoch.pinned_flag()
        &&& epoch.value() == pin % 3
        &&& pin <= a <= pin + 1
    } else {
        &&& !epoch.pinned_flag()
        &&& epoch.value() == 0
    }
}

/// A bag's entries carry the epochs of their stamps, in retirement order, none newer than `a`.
pub open spec fn bag_wf_at<D>(bag: Bag<D>, a: nat) -> bool {
    &&& bag.wf()
    &&& bag.entries().len() < BAG_SIZE
    &&& forall|i: int|
        0 <= i < bag.entries().len() ==> #[trigger] bag.stamps()[i] <= a && bag.entries()[i].1.value()
            == bag.stamps()[i] % 3
    &&& forall|i: int, j: int|
        0 <= i <= j < bag.entries().len() ==> #[trigger] bag.stamps()[i] <= #[trigger] bag.stamps()[j]
}

/// A sealed bag is tagged with the epoch of its newest stamp, which is not newer than `a`.
pub open spec fn sealed_wf_at<D>(bag: SealedBag<D>, a: nat) -> bool {
    &&& bag.stamps().len() == bag.items().len()
    &&& bag.stamps().len() > 0
    &&& bag.stamps().last() <= a
    &&& bag.epoch_spec().value() == bag.stamps().last() % 3
    &&& forall|i: int| 0 <= i < bag.stamps().len() ==> #[trigger] bag.stamps()[i] <= bag.stamps().last()
}

/// The work items of a sealed bag, if there is one.
pub open spec fn sealed_items<D>(bag: Option<SealedBag<D>>) -> Multiset<D> {
    match bag {
        Some(b) => b.items().to_multiset(),
        None => Multiset::empty(),
    }
}

/// The work items of a sealed bag with their retire stamps, if there is one.
pub open spec fn sealed_stamped<D>(bag: Option<SealedBag<D>>) -> Multiset<(D, nat)> {
    match bag {
        Some(b) => b.stamped().to_multiset(),
        None => Multiset::empty(),
    }
}

/// Every stamp is at least two advances old.
pub open spec fn stamps_released_at(stamps: Seq<nat>, a: nat) -> bool {
    forall|i: int| 0 <= i < stamps.len() ==> #[trigger] stamps[i] + 2 <= a
}

/// An entry that is ready as of the global epoch is at least two advances old.
pub proof fn lemma_ready_is_old(stamp: nat, a: nat)
    requires
        stamp <= a,
        distance(stamp % 3, a % 3) >= 2,
    ensures
        stamp + 2 <= a,
{
}

/// The per-participant record: pinned epoch, live shield count, exit counter and the bag of work
/// retired through this participant.
pub struct LocalState<D> {
    epoch: Epoch,
    shields: usize,
    advance_counter: usize,
    bag: Bag<D>,
    pin_stamp: Ghost<nat>,
}

impl<D> LocalState<D> {
    pub closed spec fn epoch_spec(&self) -> Epoch {
        self.epoch
    }

    pub closed spec fn shields_spec(&self) -> nat {
        self.shields as nat
    }

    pub closed spec fn counter_spec(&self) -> nat {
        self.advance_counter as nat
    }

    pub closed spec fn bag_spec(&self) -> Bag<D> {
        self.bag
    }

    /// The global advance count when this participant last pinned.
    pub closed spec fn pin_stamp(&self) -> nat {
        self.pin_stamp@
    }

    /// Number of work items waiting in this participant's bag.
    pub open spec fn pending(&self) -> nat {
        self.bag_spec().entries().len()
    }

    /// The work items waiting in this participant's bag.
    pub open spec fn pending_items(&self) -> Multiset<D> {
        self.bag_spec().items().to_multiset()
    }

    /// The work items waiting in this participant's bag, with their retire stamps.
    pub open spec fn pending_stamped(&self) -> Multiset<(D, nat)> {
        self.bag_spec().stamped().to_multiset()
    }

    pub open spec fn wf_at(&self, a: nat) -> bool {
        &&& self.counter_spec() < ADVANCE_PROBABILITY
        &&& participant_wf(self.epoch_spec(), self.shields_spec(), self.pin_stamp(), a)
        &&& bag_wf_at(self.bag_spec(), a)
    }

    /// A participant outside any critical section, with an empty bag.
    pub fn new() -> (r: LocalState<D>)
        ensures
            forall|a: nat| r.wf_at(a),
            r.shields_spec() == 0,
            r.pending() == 0,
    {
        LocalState {
            epoch: Epoch::zero(),
            shields: 0,
            advance_counter: 0,
            bag: Bag::new(),
            pin_stamp: Ghost(0),
        }
    }

    /// The participant's epoch word.
    pub fn load_epoch_relaxed(&self) -> (r: Epoch)
        ensures
            r == self.epoch_spec(),
    {
        self.epoch
    }

    /// Whether the participant has live shields, seen through its epoch word.
    pub fn is_pinned(&self) -> (r: bool)
        ensures
            r == self.epoch_spec().pinned_flag(),
    {
        self.epoch.is_pinned()
    }

    /// Number of live shields.
    pub fn shield_count(&self) -> (r: usize)
        ensures
            r == self.shields_spec(),
    {
        self.shields
    }

    /// Number of work items waiting in the bag.
    pub fn bag_len(&self) -> (r: usize)
        ensures
            r == self.pending(),
    {
        self.bag.len()
    }

    /// Whether this participant lets the global epoch `global` advance: it is unpinned, or pinned
    /// at `global`.
    pub fn is_synced(&self, global: Epoch) -> (r: bool)
        ensures
            r == (!self.epoch_spec().pinned_flag() || self.epoch_spec().value() == global.value()),
    {
        !self.epoch.is_pinned() || self.epoch.unique() == global.unique()
    }

    /// A participant that lets the epoch advance stays consistent after the advance; if pinned,
    /// it pinned in the epoch that is being left.
    pub proof fn lemma_advance(&self, a: nat)
        requires
            self.wf_at(a),
            !self.epoch_spec().pinned_flag() || self.epoch_spec().value() == a % 3,
        ensures
            self.wf_at(a + 1),
            self.shields_spec() > 0 ==> self.pin_stamp() == a,
    {
        let bag = self.bag_spec();
        assert forall|i: int| 0 <= i < bag.entries().len() implies #[trigger] bag.stamps()[i] <= a
            + 1 && bag.entries()[i].1.value() == bag.stamps()[i] % 3 by {}
    }

    /// A participant with live shields is pinned, and one without is not.
    pub proof fn lemma_pinned_iff_shields(&self, a: nat)
        requires
            self.wf_at(a),
        ensures
            self.epoch_spec().pinned_flag() == (self.shields_spec() > 0),
            self.shields_spec() > 0 ==> self.pin_stamp() + 1 >= a,
    {
    }

    /// Records one more live shield; the first one pins the participant at `global`.
    pub fn enter(&mut self, global: Epoch, a: Ghost<nat>)
        requires
            old(self).wf_at(a@),
            !global.pinned_flag(),
            global.value() == a@ % 3,
            old(self).shields_spec() < usize::MAX,
        ensures
            final(self).wf_at(a@),
            final(self).shields_spec() == shield_step(old(self).shields_spec(), true),
            final(self).bag_spec() == old(self).bag_spec(),
            old(self).shields_spec() > 0 ==> final(self).pin_stamp() == old(self).pin_stamp()
                && final(self).epoch_spec() == old(self).epoch_spec(),
            old(self).shields_spec() == 0 ==> final(self).pin_stamp() == a@
                && final(self).epoch_spec().pinned_flag() && final(self).epoch_spec().value()
                == global.value(),
    {
        let previous = self.shields;
        self.shields = previous + 1;
        if previous == 0 {
            self.epoch = global.pinned();
            self.pin_stamp = a;
        }
    }

    /// Records one shield fewer; the last one unpins the participant.
    pub fn exit(&mut self, a: Ghost<nat>)
        requires
            old(self).wf_at(a@),
            old(self).shields_spec() > 0,
        ensures
            final(self).wf_at(a@),
            final(self).shields_spec() == shield_step(old(self).shields_spec(), false),
            final(self).shields_spec() < usize::MAX,
            final(self).bag_spec() == old(self).bag_spec(),
            final(self).counter_spec() == old(self).counter_spec(),
            final(self).pin_stamp() == old(self).pin_stamp(),
    {
        let previous = self.shields;
        self.shields = previous - 1;
        if previous == 1 {
            self.epoch = Epoch::zero();
        }
    }

    /// Counts one exit from a critical section; true once every `ADVANCE_PROBABILITY` exits, when
    /// there is garbage waiting.
    pub fn should_advance(&mut self, garbage_waiting: bool, a: Ghost<nat>) -> (r: bool)
        requires
            old(self).wf_at(a@),
        ensures
            final(self).wf_at(a@),
            final(self).shields_spec() == old(self).shields_spec(),
            final(self).bag_spec() == old(self).bag_spec(),
            final(self).pin_stamp() == old(self).pin_stamp(),
            final(self).counter_spec() == if old(self).counter_spec() + 1 == ADVANCE_PROBABILITY {
                0
            } else {
                old(self).counter_spec() + 1
            },
            r == (old(self).counter_spec() + 1 == ADVANCE_PROBABILITY && garbage_waiting),
    {
        let counter = self.advance_counter + 1;
        if counter != ADVANCE_PROBABILITY {
            self.advance_counter = counter;
            false
        } else {
            self.advance_counter = 0;
            garbage_waiting
        }
    }

    /// Retires `deferred` in epoch `now`: first takes off the bag's ready prefix (returned with its
    /// stamps), then appends the new entry; a bag that becomes full is sealed and handed back.
    pub fn retire(&mut self, deferred: D, now: Epoch, a: Ghost<nat>) -> (r: (
        Vec<D>,
        Option<SealedBag<D>>,
        Ghost<Seq<nat>>,
    ))
        requires
            old(self).wf_at(a@),
            !now.pinned_flag(),
            now.value() == a@ % 3,
        ensures
            final(self).wf_at(a@),
            final(self).shields_spec() == old(self).shields_spec(),
            final(self).pin_stamp() == old(self).pin_stamp(),
            final(self).epoch_spec() == old(self).epoch_spec(),
            r.0@.len() == r.2@.len(),
            stamps_released_at(r.2@, a@),
            r.1 is Some ==> sealed_wf_at(r.1->Some_0, a@) && final(self).pending() == 0,
            final(self).pending() + r.0@.len() + (if r.1 is Some {
                r.1->Some_0.items().len()
            } else {
                0
            }) == old(self).pending() + 1,
            final(self).pending_items().add(r.0@.to_multiset()).add(sealed_items(r.1)) == old(
                self,
            ).pending_items().insert(deferred),
            r.1 is None ==> final(self).pending_items().count(deferred) >= 1,
            final(self).pending_stamped().add(zip_stamps(r.0@, r.2@).to_multiset()).add(
                sealed_stamped(r.1),
            ) == old(self).pending_stamped().insert((deferred, a@)),
            r.0@ == old(self).bag_spec().items().take(r.0@.len() as int),
            forall|i: int|
                0 <= i < r.0@.len() ==> entry_ready(#[trigger] old(self).bag_spec().entries()[i], now),
            r.0@.len() < old(self).pending() ==> !entry_ready(
                old(self).bag_spec().entries()[r.0@.len() as int],
                now,
            ),
            r.1 is Some <==> old(self).pending() - r.0@.len() + 1 == BAG_SIZE,
            r.1 is Some ==> r.1->Some_0.items() == old(self).bag_spec().items().skip(
                r.0@.len() as int,
            ).push(deferred),
            r.1 is None ==> final(self).bag_spec().items() == old(self).bag_spec().items().skip(
                r.0@.len() as int,
            ).push(deferred),
            r.1 is Some ==> r.1->Some_0.stamps().last() == a@ && r.1->Some_0.items().to_multiset().count(
                deferred,
            ) >= 1,
    {
        let ghost old_stamps = self.bag.stamps();
        let ghost old_items = self.bag.items();
        let ready = self.bag.try_process(now);
        let ghost k = ready@.len() as int;
        proof {
            assert(self.bag.items() =~= old_items.skip(k));
            assert(old_items =~= old_items.take(k) + old_items.skip(k));
            lemma_multiset_commutative(old_items.take(k), old_items.skip(k));
            lemma_zip_split(old_items, old_stamps, k);
            lemma_multiset_commutative(
                zip_stamps(old_items.take(k), old_stamps.take(k)),
                zip_stamps(old_items.skip(k), old_stamps.skip(k)),
            );
        }
        let ghost taken = old_stamps.take(ready@.len() as int);
        proof {
            assert forall|i: int| 0 <= i < taken.len() implies #[trigger] taken[i] + 2 <= a@ by {
                assert(entry_ready(old(self).bag.entries()[i], now));
                lemma_ready_is_old(old_stamps[i], a@);
            }
        }
        let pushed = self.bag.push(deferred, now, a);
        proof {
            assert(pushed is Ok);
            assert(self.bag.items() =~= old_items.skip(k).push(deferred));
            to_multiset_build(old_items.skip(k), deferred);
            assert(self.bag.stamps() =~= old_stamps.skip(k).push(a@));
            lemma_zip_push(old_items.skip(k), old_stamps.skip(k), deferred, a@);
            to_multiset_build(zip_stamps(old_items.skip(k), old_stamps.skip(k)), (deferred, a@));
        }
        if self.bag.is_full() {
            let mut full = Bag::new();
            std::mem::swap(&mut self.bag, &mut full);
            let sealed = full.seal();
            proof {
                let st = full.stamps();
                assert(st.last() == a@);
                assert forall|i: int| 0 <= i < st.len() implies #[trigger] st[i] <= st.last() by {
                    assert(full.stamps()[i] <= full.stamps()[st.len() - 1]);
                }
            }
            proof {
                assert(self.bag.items() =~= Seq::<D>::empty());
                assert(self.bag.items().to_multiset().len() == 0);
                assert(self.pending_items() =~= Multiset::<D>::empty());
                assert(self.bag.stamped() =~= Seq::<(D, nat)>::empty());
                assert(self.bag.stamped().to_multiset().len() == 0);
                assert(sealed.stamped() == full.stamped());
                assert(self.pending_stamped().add(zip_stamps(ready@, taken).to_multiset()).add(
                    sealed_stamped(Some(sealed)),
                ) =~= old(self).pending_stamped().insert((deferred, a@)));
            }
            (ready, Some(sealed), Ghost(taken))
        } else {
            proof {
                assert(self.pending_items().add(ready@.to_multiset()).add(Multiset::<D>::empty())
                    =~= old(self).pending_items().insert(deferred));
                assert(self.pending_stamped().add(zip_stamps(ready@, taken).to_multiset()).add(
                    Multiset::<(D, nat)>::empty(),
                ) =~= old(self).pending_stamped().insert((deferred, a@)));
            }
            (ready, None, Ghost(taken))
        }
    }

    /// Seals the bag if it holds anything and hands the sealed bag back.
    pub fn flush(&mut self, a: Ghost<nat>) -> (r: Option<SealedBag<D>>)
        requires
            old(self).wf_at(a@),
        ensures
            final(self).wf_at(a@),
            final(self).shields_spec() == old(self).shields_spec(),
            final(self).pin_stamp() == old(self).pin_stamp(),
            final(self).epoch_spec() == old(self).epoch_spec(),
            final(self).pending() == 0,
            r is Some ==> sealed_wf_at(r->Some_0, a@) && r->Some_0.items().len() == old(
                self,
            ).pending(),
            r is None ==> old(self).pending() == 0,
            final(self).pending_items() == Multiset::<D>::empty(),
            sealed_items(r) == old(self).pending_items(),
            r is Some ==> r->Some_0.items() == old(self).bag_spec().items(),
            final(self).pending_stamped() == Multiset::<(D, nat)>::empty(),
            sealed_stamped(r) == old(self).pending_stamped(),
    {
        if self.bag.is_empty() {
            proof {
                assert(self.bag.items() =~= Seq::<D>::empty());
                assert(self.bag.items().to_multiset().len() == 0);
                assert(old(self).bag.items().to_multiset().len() == 0);
            }
            None
        } else {
            let mut full = Bag::new();
            std::mem::swap(&mut self.bag, &mut full);
            let sealed = full.seal();
            proof {
                let st = full.stamps();
                assert forall|i: int| 0 <= i < st.len() implies #[trigger] st[i] <= st.last() by {
                    assert(full.stamps()[i] <= full.stamps()[st.len() - 1]);
                }
                assert(self.bag.items() =~= Seq::<D>::empty());
                assert(self.bag.items().to_multiset().len() == 0);
            }
            Some(sealed)
        }
    }

    /// Empties the bag unconditionally, returning its work items in order.
    pub fn take_bag(&mut self, a: Ghost<nat>) -> (r: Vec<D>)
        requires
            old(self).wf_at(a@),
        ensures
            final(self).wf_at(a@),
            final(self).shields_spec() == old(self).shields_spec(),
            final(self).pending() == 0,
            r@.len() == old(self).pending(),
            final(self).pending_items() == Multiset::<D>::empty(),
            r@.to_multiset() == old(self).pending_items(),
    {
        let mut full = Bag::new();
        std::mem::swap(&mut self.bag, &mut full);
        proof {
            assert(self.bag.items() =~= Seq::<D>::empty());
            assert(self.bag.items().to_multiset().len() == 0);
        }
        full.seal().into_items()
    }
}

} // verus!
