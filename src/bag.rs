//! Bags: small batches of retired work, each entry tagged with the epoch it was retired in.

use crate::epoch::{passed_by, Epoch};
use vstd::prelude::*;

verus! {

/// How many entries a bag holds before it must be sealed.
pub const BAG_SIZE: usize = 32;

/// A push into a full bag: the entry is handed back.
pub struct BagFull<D>(pub D);

/// An entry whose epoch has been passed by two advances as of `now` may run.
pub open spec fn entry_ready<D>(entry: (D, Epoch), now: Epoch) -> bool {
    passed_by(entry.1.value(), now.value(), 2)
}

/// The work items of a sequence of entries, in order.
pub open spec fn entry_items<D>(entries: Seq<(D, Epoch)>) -> Seq<D> {
    entries.map_values(|p: (D, Epoch)| p.0)
}

/// Each work item paired with the advance count at which it was retired.
pub open spec fn zip_stamps<D>(items: Seq<D>, stamps: Seq<nat>) -> Seq<(D, nat)> {
    Seq::new(items.len(), |i: int| (items[i], stamps[i]))
}

/// Pairing distributes over splitting both sequences at the same point.
pub proof fn lemma_zip_split<D>(items: Seq<D>, stamps: Seq<nat>, k: int)
    requires
        items.len() == stamps.len(),
        0 <= k <= items.len(),
    ensures
        zip_stamps(items, stamps) == zip_stamps(items.take(k), stamps.take(k)) + zip_stamps(
            items.skip(k),
            stamps.skip(k),
        ),
{
    assert(zip_stamps(items, stamps) =~= zip_stamps(items.take(k), stamps.take(k)) + zip_stamps(
        items.skip(k),
        stamps.skip(k),
    ));
}

/// Pairing distributes over appending one item to both sequences.
pub proof fn lemma_zip_push<D>(items: Seq<D>, stamps: Seq<nat>, x: D, s: nat)
    requires
        items.len() == stamps.len(),
    ensures
        zip_stamps(items.push(x), stamps.push(s)) == zip_stamps(items, stamps).push((x, s)),
{
    assert(zip_stamps(items.push(x), stamps.push(s)) =~= zip_stamps(items, stamps).push((x, s)));
}

/// Pairing distributes over concatenation.
pub proof fn lemma_zip_concat<D>(a: Seq<D>, sa: Seq<nat>, b: Seq<D>, sb: Seq<nat>)
    requires
        a.len() == sa.len(),
        b.len() == sb.len(),
    ensures
        zip_stamps(a + b, sa + sb) == zip_stamps(a, sa) + zip_stamps(b, sb),
{
    assert(zip_stamps(a + b, sa + sb) =~= zip_stamps(a, sa) + zip_stamps(b, sb));
}

/// A batch of up to `BAG_SIZE` retired work items, each with the epoch it was retired in.
/// Beside each entry the bag keeps, as ghost state, the number of global advances that had
/// happened when it was retired.
pub struct Bag<D> {
    deferred: Vec<(D, Epoch)>,
    stamps: Ghost<Seq<nat>>,
}

impl<D> Bag<D> {
    /// The entries, oldest first.
    pub closed spec fn entries(&self) -> Seq<(D, Epoch)> {
        self.deferred@
    }

    /// The advance count at which each entry was retired.
    pub closed spec fn stamps(&self) -> Seq<nat> {
        self.stamps@
    }

    /// The work items, oldest first.
    pub open spec fn items(&self) -> Seq<D> {
        entry_items(self.entries())
    }

    /// The work items with their retire stamps, oldest first.
    pub open spec fn stamped(&self) -> Seq<(D, nat)> {
        zip_stamps(self.items(), self.stamps())
    }

    pub open spec fn wf(&self) -> bool {
        &&& self.entries().len() <= BAG_SIZE
        &&& self.stamps().len() == self.entries().len()
    }

    /// An empty bag.
    pub fn new() -> (r: Bag<D>)
        ensures
            r.wf(),
            r.entries() == Seq::<(D, Epoch)>::empty(),
            r.stamps() == Seq::<nat>::empty(),
    {
        Bag { deferred: Vec::new(), stamps: Ghost(Seq::empty()) }
    }

    /// Appends `deferred`, retired in `epoch` after `stamp` advances; a full bag refuses it and
    /// hands it back.
    pub fn push(&mut self, deferred: D, epoch: Epoch, stamp: Ghost<nat>) -> (r: Result<
        (),
        BagFull<D>,
    >)
        requires
            old(self).wf(),
        ensures
            final(self).wf(),
            old(self).entries().len() < BAG_SIZE ==> {
                &&& r is Ok
                &&& final(self).entries() == old(self).entries().push((deferred, epoch))
                &&& final(self).stamps() == old(self).stamps().push(stamp@)
            },
            old(self).entries().len() >= BAG_SIZE ==> {
                &&& r == Err::<(), BagFull<D>>(BagFull(deferred))
                &&& final(self).entries() == old(self).entries()
                &&& final(self).stamps() == old(self).stamps()
            },
    {
        if self.deferred.len() < BAG_SIZE {
            self.deferred.push((deferred, epoch));
            self.stamps = Ghost(self.stamps@.push(stamp@));
            Ok(())
        } else {
            Err(BagFull(deferred))
        }
    }

    /// Number of entries.
    pub fn len(&self) -> (r: usize)
        ensures
            r == self.entries().len(),
    {
        self.deferred.len()
    }

    /// Whether the bag holds `BAG_SIZE` entries.
    pub fn is_full(&self) -> (r: bool)
        requires
            self.wf(),
        ensures
            r == (self.entries().len() == BAG_SIZE),
    {
        self.deferred.len() == BAG_SIZE
    }

    /// Whether the bag holds no entry.
    pub fn is_empty(&self) -> (r: bool)
        ensures
            r == (self.entries().len() == 0),
    {
        self.deferred.len() == 0
    }

    /// Removes the longest prefix of entries that are ready as of `now` and returns their work
    /// items, oldest first.
    pub fn try_process(&mut self, now: Epoch) -> (r: Vec<D>)
        requires
            old(self).wf(),
        ensures
            final(self).wf(),
            r@.len() <= old(self).entries().len(),
            forall|i: int| 0 <= i < r@.len() ==> entry_ready(#[trigger] old(self).entries()[i], now),
            r@.len() < old(self).entries().len() ==> !entry_ready(
                old(self).entries()[r@.len() as int],
                now,
            ),
            r@ == old(self).items().take(r@.len() as int),
            final(self).entries() == old(self).entries().skip(r@.len() as int),
            final(self).stamps() == old(self).stamps().skip(r@.len() as int),
    {
        let n = self.deferred.len();
        let mut k: usize = 0;
        let mut scanning = true;
        while scanning && k < n
            invariant
                n == self.deferred@.len(),
                self.deferred@ == old(self).deferred@,
                self.stamps == old(self).stamps,
                k <= n,
                forall|i: int| 0 <= i < k ==> entry_ready(#[trigger] self.deferred@[i], now),
                !scanning ==> k < n && !entry_ready(self.deferred@[k as int], now),
            decreases (n - k) as int + if scanning {
                1int
            } else {
                0int
            },
        {
            if self.deferred[k].1.has_passed(now, 2) {
                k = k + 1;
            } else {
                scanning = false;
            }
        }
        let ghost old_entries = self.deferred@;
        let mut out: Vec<D> = Vec::new();
        let mut i: usize = 0;
        while i < k
            invariant
                k <= old_entries.len(),
                old_entries == old(self).deferred@,
                self.stamps == old(self).stamps,
                old(self).wf(),
                i <= k,
                self.deferred@ == old_entries.skip(i as int),
                out@ == entry_items(old_entries).take(i as int),
            decreases k - i,
        {
            let (d, _e) = self.deferred.remove(0);
            assert(old_entries.skip(i as int)[0] == old_entries[i as int]);
            out.push(d);
            i = i + 1;
            assert(self.deferred@ =~= old_entries.skip(i as int));
            assert(out@ =~= entry_items(old_entries).take(i as int));
        }
        self.stamps = Ghost(self.stamps@.skip(k as int));
        out
    }

    /// The epoch of the newest entry, or epoch zero for an empty bag.
    pub fn last_epoch(&self) -> (r: Epoch)
        ensures
            self.entries().len() > 0 ==> r == self.entries().last().1,
            self.entries().len() == 0 ==> r.value() == 0 && !r.pinned_flag(),
    {
        let n = self.deferred.len();
        if n != 0 {
            self.deferred[n - 1].1
        } else {
            Epoch::zero()
        }
    }

    /// Closes the bag: its work items, in order, tagged with the epoch of the newest entry.
    pub fn seal(self) -> (r: SealedBag<D>)
        requires
            self.wf(),
        ensures
            r.items() == self.items(),
            r.stamps() == self.stamps(),
            self.entries().len() > 0 ==> r.epoch_spec() == self.entries().last().1,
            self.entries().len() == 0 ==> r.epoch_spec().value() == 0,
    {
        let epoch = self.last_epoch();
        let ghost old_entries = self.deferred@;
        let mut entries = self.deferred;
        let mut items: Vec<D> = Vec::new();
        let n = entries.len();
        let mut i: usize = 0;
        while i < n
            invariant
                n == old_entries.len(),
                i <= n,
                entries@ == old_entries.skip(i as int),
                items@ == entry_items(old_entries).take(i as int),
            decreases n - i,
        {
            let (d, _e) = entries.remove(0);
            assert(old_entries.skip(i as int)[0] == old_entries[i as int]);
            items.push(d);
            i = i + 1;
            assert(entries@ =~= old_entries.skip(i as int));
            assert(items@ =~= entry_items(old_entries).take(i as int));
        }
        assert(items@ =~= entry_items(old_entries));
        SealedBag { epoch, deferred: items, stamps: self.stamps }
    }
}

/// A closed batch of retired work, tagged with the newest epoch among its entries.
pub struct SealedBag<D> {
    epoch: Epoch,
    deferred: Vec<D>,
    stamps: Ghost<Seq<nat>>,
}

impl<D> SealedBag<D> {
    pub closed spec fn epoch_spec(&self) -> Epoch {
        self.epoch
    }

    /// The work items, in the order they were retired.
    pub closed spec fn items(&self) -> Seq<D> {
        self.deferred@
    }

    /// The advance count at which each item was retired.
    pub closed spec fn stamps(&self) -> Seq<nat> {
        self.stamps@
    }

    /// The work items with their retire stamps, in the order they were retired.
    pub open spec fn stamped(&self) -> Seq<(D, nat)> {
        zip_stamps(self.items(), self.stamps())
    }

    /// The epoch the bag is tagged with.
    pub fn epoch(&self) -> (r: Epoch)
        ensures
            r == self.epoch_spec(),
    {
        self.epoch
    }

    /// Number of work items.
    pub fn len(&self) -> (r: usize)
        ensures
            r == self.items().len(),
    {
        self.deferred.len()
    }

    /// Opens the bag: its work items, in the order they were retired.
    pub fn into_items(self) -> (r: Vec<D>)
        ensures
            r@ == self.items(),
    {
        self.deferred
    }
}

} // verus!
