//! The collector: global epoch, participants, garbage queue and the rule that decides when
//! retired work may run.
//!
//! A collector hands work back to its caller instead of running it: every call that may reclaim
//! returns the work items that are now safe to run, in the order they were retired.

use crate::bag::{lemma_zip_concat, zip_stamps, SealedBag, BAG_SIZE};
use crate::epoch::{next_value, passed_by, Epoch};
use crate::local::{
    ADVANCE_PROBABILITY,
    lemma_ready_is_old, sealed_items, sealed_stamped, sealed_wf_at, shield_step, stamps_released_at, LocalState,
};
use crate::queue::Queue;
use vstd::multiset::Multiset;
use vstd::prelude::*;
use vstd::seq_lib::lemma_multiset_commutative;

verus! {

broadcast use {
    vstd::multiset::group_multiset_axioms,
    vstd::multiset::lemma_multiset_empty_len,
    vstd::seq_lib::group_to_multiset_ensures,
};

/// Default ceiling on the bytes of queued garbage before retiring eagerly tries to collect.
pub const MAX_GARBAGE_BYTES: usize = 1048576;

/// Bytes taken by one retired closure capsule: a call pointer and three words of captures.
pub const DEFERRED_BYTES: usize = 32;

/// Thread ids handed to a collector are below this bound.
pub const MAX_THREADS: usize = 1024;

/// How many queued work items stand for `max_bytes` bytes of garbage.
pub fn deferred_ceiling(max_bytes: usize) -> (r: usize)
    ensures
        r == max_bytes / DEFERRED_BYTES,
{
    max_bytes / DEFERRED_BYTES
}

/// An advance attempt found a participant pinned in an older epoch.
#[derive(Debug, Clone, Copy, PartialEq, Eq)]
pub struct AdvanceRefused;

/// Work items held by a sequence of sealed bags.
pub open spec fn bags_total<D>(s: Seq<SealedBag<D>>) -> nat
    decreases s.len(),
{
    if s.len() == 0 {
        0
    } else {
        s[0].items().len() + bags_total(s.drop_first())
    }
}

/// Work items held in the bags of a sequence of participants.
pub open spec fn locals_total<D>(s: Seq<LocalState<D>>) -> nat
    decreases s.len(),
{
    if s.len() == 0 {
        0
    } else {
        locals_total(s.drop_last()) + s.last().pending()
    }
}

/// The work items of a sequence of sealed bags, bag after bag, each in its own order.
pub open spec fn bags_seq<D>(s: Seq<SealedBag<D>>) -> Seq<D>
    decreases s.len(),
{
    if s.len() == 0 {
        Seq::empty()
    } else {
        bags_seq(s.drop_last()) + s.last().items()
    }
}

/// The work items held by a sequence of sealed bags.
pub open spec fn bags_items<D>(s: Seq<SealedBag<D>>) -> Multiset<D>
    decreases s.len(),
{
    if s.len() == 0 {
        Multiset::empty()
    } else {
        s[0].items().to_multiset().add(bags_items(s.drop_first()))
    }
}

/// The work items held in the bags of a sequence of participants.
pub open spec fn locals_items<D>(s: Seq<LocalState<D>>) -> Multiset<D>
    decreases s.len(),
{
    if s.len() == 0 {
        Multiset::empty()
    } else {
        locals_items(s.drop_last()).add(s.last().pending_items())
    }
}

proof fn lemma_bags_items_push<D>(s: Seq<SealedBag<D>>, b: SealedBag<D>)
    ensures
        bags_items(s.push(b)) == bags_items(s).add(b.items().to_multiset()),
    decreases s.len(),
{
    if s.len() > 0 {
        assert(s.push(b).drop_first() =~= s.drop_first().push(b));
        assert(s.push(b)[0] == s[0]);
        lemma_bags_items_push(s.drop_first(), b);
        assert(bags_items(s.push(b)) =~= bags_items(s).add(b.items().to_multiset()));
    } else {
        assert(s.push(b).drop_first() =~= s);
        assert(bags_items(s.push(b)) =~= bags_items(s).add(b.items().to_multiset()));
    }
}

proof fn lemma_locals_items_update<D>(s: Seq<LocalState<D>>, i: int, v: LocalState<D>)
    requires
        0 <= i < s.len(),
    ensures
        locals_items(s.update(i, v)).add(s[i].pending_items()) == locals_items(s).add(
            v.pending_items(),
        ),
    decreases s.len(),
{
    let t = s.update(i, v);
    assert(locals_items(t) == locals_items(t.drop_last()).add(t.last().pending_items()));
    assert(locals_items(s) == locals_items(s.drop_last()).add(s.last().pending_items()));
    if i == s.len() - 1 {
        assert(s.update(i, v).drop_last() =~= s.drop_last());
        assert(s.update(i, v).last() == v);
    } else {
        assert(s.update(i, v).drop_last() =~= s.drop_last().update(i, v));
        assert(s.update(i, v).last() == s.last());
        assert(s.drop_last()[i] == s[i]);
        lemma_locals_items_update(s.drop_last(), i, v);
        let u = locals_items(t.drop_last());
        let d = locals_items(s.drop_last());
        assert(u.add(s[i].pending_items()) == d.add(v.pending_items()));
        assert forall|x: D|
            #[trigger] locals_items(t).add(s[i].pending_items()).count(x) == locals_items(s).add(
                v.pending_items(),
            ).count(x) by {
            assert(u.add(s[i].pending_items()).count(x) == d.add(v.pending_items()).count(x));
        }
    }
    assert(locals_items(s.update(i, v)).add(s[i].pending_items()) =~= locals_items(s).add(
        v.pending_items(),
    ));
}

proof fn lemma_locals_items_push<D>(s: Seq<LocalState<D>>, v: LocalState<D>)
    requires
        v.pending() == 0,
    ensures
        locals_items(s.push(v)) == locals_items(s),
{
    assert(s.push(v).drop_last() =~= s);
    assert(v.bag_spec().items().len() == 0);
    assert(v.pending_items().len() == 0);
    assert(locals_items(s.push(v)) =~= locals_items(s));
}

proof fn lemma_locals_items_empty<D>(s: Seq<LocalState<D>>)
    requires
        forall|j: int| 0 <= j < s.len() ==> #[trigger] s[j].pending() == 0,
    ensures
        locals_items(s) == Multiset::<D>::empty(),
    decreases s.len(),
{
    if s.len() > 0 {
        assert forall|j: int| 0 <= j < s.drop_last().len() implies #[trigger] s.drop_last()[j].pending()
            == 0 by {
            assert(s.drop_last()[j] == s[j]);
        }
        lemma_locals_items_empty(s.drop_last());
        assert(s[s.len() - 1].pending() == 0);
        assert(s.last().bag_spec().items().len() == 0);
        assert(s.last().pending_items().len() == 0);
        assert(locals_items(s) =~= Multiset::<D>::empty());
    }
}

/// The work items and retire stamps held by a sequence of sealed bags.
pub open spec fn bags_stamped<D>(s: Seq<SealedBag<D>>) -> Multiset<(D, nat)>
    decreases s.len(),
{
    if s.len() == 0 {
        Multiset::empty()
    } else {
        s[0].stamped().to_multiset().add(bags_stamped(s.drop_first()))
    }
}

/// The work items and retire stamps held in the bags of a sequence of participants.
pub open spec fn locals_stamped<D>(s: Seq<LocalState<D>>) -> Multiset<(D, nat)>
    decreases s.len(),
{
    if s.len() == 0 {
        Multiset::empty()
    } else {
        locals_stamped(s.drop_last()).add(s.last().pending_stamped())
    }
}

proof fn lemma_bags_stamped_push<D>(s: Seq<SealedBag<D>>, b: SealedBag<D>)
    ensures
        bags_stamped(s.push(b)) == bags_stamped(s).add(b.stamped().to_multiset()),
    decreases s.len(),
{
    if s.len() > 0 {
        assert(s.push(b).drop_first() =~= s.drop_first().push(b));
        assert(s.push(b)[0] == s[0]);
        lemma_bags_stamped_push(s.drop_first(), b);
        assert(bags_stamped(s.push(b)) =~= bags_stamped(s).add(b.stamped().to_multiset()));
    } else {
        assert(s.push(b).drop_first() =~= s);
        assert(bags_stamped(s.push(b)) =~= bags_stamped(s).add(b.stamped().to_multiset()));
    }
}

proof fn lemma_locals_stamped_update<D>(s: Seq<LocalState<D>>, i: int, v: LocalState<D>)
    requires
        0 <= i < s.len(),
    ensures
        locals_stamped(s.update(i, v)).add(s[i].pending_stamped()) == locals_stamped(s).add(
            v.pending_stamped(),
        ),
    decreases s.len(),
{
    let t = s.update(i, v);
    assert(locals_stamped(t) == locals_stamped(t.drop_last()).add(t.last().pending_stamped()));
    assert(locals_stamped(s) == locals_stamped(s.drop_last()).add(s.last().pending_stamped()));
    if i == s.len() - 1 {
        assert(s.update(i, v).drop_last() =~= s.drop_last());
        assert(s.update(i, v).last() == v);
    } else {
        assert(s.update(i, v).drop_last() =~= s.drop_last().update(i, v));
        assert(s.update(i, v).last() == s.last());
        assert(s.drop_last()[i] == s[i]);
        lemma_locals_stamped_update(s.drop_last(), i, v);
        let u = locals_stamped(t.drop_last());
        let d = locals_stamped(s.drop_last());
        assert(u.add(s[i].pending_stamped()) == d.add(v.pending_stamped()));
        assert forall|x: (D, nat)|
            #[trigger] locals_stamped(t).add(s[i].pending_stamped()).count(x) == locals_stamped(s).add(
                v.pending_stamped(),
            ).count(x) by {
            assert(u.add(s[i].pending_stamped()).count(x) == d.add(v.pending_stamped()).count(x));
        }
    }
    assert(locals_stamped(s.update(i, v)).add(s[i].pending_stamped()) =~= locals_stamped(s).add(
        v.pending_stamped(),
    ));
}

proof fn lemma_locals_stamped_push<D>(s: Seq<LocalState<D>>, v: LocalState<D>)
    requires
        v.pending() == 0,
    ensures
        locals_stamped(s.push(v)) == locals_stamped(s),
{
    assert(s.push(v).drop_last() =~= s);
    assert(v.bag_spec().stamped().len() == 0);
    assert(v.pending_stamped().len() == 0);
    assert(locals_stamped(s.push(v)) =~= locals_stamped(s));
}

proof fn lemma_locals_stamped_empty<D>(s: Seq<LocalState<D>>)
    requires
        forall|j: int| 0 <= j < s.len() ==> #[trigger] s[j].pending() == 0,
    ensures
        locals_stamped(s) == Multiset::<(D, nat)>::empty(),
    decreases s.len(),
{
    if s.len() > 0 {
        assert forall|j: int| 0 <= j < s.drop_last().len() implies #[trigger] s.drop_last()[j].pending()
            == 0 by {
            assert(s.drop_last()[j] == s[j]);
        }
        lemma_locals_stamped_empty(s.drop_last());
        assert(s[s.len() - 1].pending() == 0);
        assert(s.last().bag_spec().stamped().len() == 0);
        assert(s.last().pending_stamped().len() == 0);
        assert(locals_stamped(s) =~= Multiset::<(D, nat)>::empty());
    }
}

proof fn lemma_add_cancel<D>(a: Multiset<D>, b: Multiset<D>, m: Multiset<D>)
    requires
        a.add(m) == b.add(m),
    ensures
        a == b,
{
    assert forall|x: D| #[trigger] a.count(x) == b.count(x) by {
        vstd::multiset::axiom_multiset_add(a, m, x);
        vstd::multiset::axiom_multiset_add(b, m, x);
    }
    assert(a =~= b);
}

proof fn lemma_append_items<D>(before: Seq<D>, items: Seq<D>, after: Seq<D>)
    requires
        after == before + items,
    ensures
        after.to_multiset() == before.to_multiset().add(items.to_multiset()),
{
    lemma_multiset_commutative(before, items);
}

proof fn lemma_bags_items_contains<D>(s: Seq<SealedBag<D>>, b: SealedBag<D>, x: D)
    requires
        s.contains(b),
    ensures
        bags_items(s).count(x) >= b.items().to_multiset().count(x),
    decreases s.len(),
{
    if s[0] != b {
        let k = choose|k: int| 0 <= k < s.len() && s[k] == b;
        assert(s.drop_first()[k - 1] == b);
        lemma_bags_items_contains(s.drop_first(), b, x);
    }
}

proof fn lemma_locals_items_at<D>(s: Seq<LocalState<D>>, i: int, x: D)
    requires
        0 <= i < s.len(),
    ensures
        locals_items(s).count(x) >= s[i].pending_items().count(x),
    decreases s.len(),
{
    if i < s.len() - 1 {
        assert(s.drop_last()[i] == s[i]);
        lemma_locals_items_at(s.drop_last(), i, x);
    }
}

/// Updating one participant, and keeping it consistent, keeps the whole table consistent.
proof fn lemma_threads_wf_update<D>(
    before: Seq<LocalState<D>>,
    after: Seq<LocalState<D>>,
    i: int,
    a: nat,
)
    requires
        0 <= i < before.len(),
        after == before.update(i, after[i]),
        forall|j: int| 0 <= j < before.len() ==> #[trigger] before[j].wf_at(a),
        after[i].wf_at(a),
    ensures
        forall|j: int| 0 <= j < after.len() ==> #[trigger] after[j].wf_at(a),
{
    assert forall|j: int| 0 <= j < after.len() implies #[trigger] after[j].wf_at(a) by {
        if j != i {
            assert(after[j] == before[j]);
        }
    }
}

proof fn lemma_no_items<D>(s: Seq<D>)
    requires
        s.len() == 0,
    ensures
        s.to_multiset() == Multiset::<D>::empty(),
{
    assert(s.to_multiset().len() == 0);
}

proof fn lemma_bags_total_push<D>(s: Seq<SealedBag<D>>, b: SealedBag<D>)
    ensures
        bags_total(s.push(b)) == bags_total(s) + b.items().len(),
    decreases s.len(),
{
    if s.len() > 0 {
        assert(s.push(b).drop_first() =~= s.drop_first().push(b));
        assert(s.push(b)[0] == s[0]);
        lemma_bags_total_push(s.drop_first(), b);
    } else {
        assert(s.push(b).drop_first() =~= s);
    }
}

proof fn lemma_locals_total_update<D>(s: Seq<LocalState<D>>, i: int, v: LocalState<D>)
    requires
        0 <= i < s.len(),
    ensures
        locals_total(s.update(i, v)) + s[i].pending() == locals_total(s) + v.pending(),
    decreases s.len(),
{
    if i == s.len() - 1 {
        assert(s.update(i, v).drop_last() =~= s.drop_last());
    } else {
        assert(s.update(i, v).drop_last() =~= s.drop_last().update(i, v));
        lemma_locals_total_update(s.drop_last(), i, v);
    }
}

proof fn lemma_locals_total_prefix<D>(s: Seq<LocalState<D>>, i: int)
    requires
        0 <= i <= s.len(),
    ensures
        locals_total(s.take(i)) <= locals_total(s),
    decreases s.len(),
{
    if i < s.len() {
        assert(s.drop_last().take(i) =~= s.take(i));
        lemma_locals_total_prefix(s.drop_last(), i);
    } else {
        assert(s.take(i) =~= s);
    }
}

proof fn lemma_locals_total_zero<D>(s: Seq<LocalState<D>>)
    requires
        forall|j: int| 0 <= j < s.len() ==> #[trigger] s[j].pending() == 0,
    ensures
        locals_total(s) == 0,
    decreases s.len(),
{
    if s.len() > 0 {
        assert forall|j: int| 0 <= j < s.drop_last().len() implies #[trigger] s.drop_last()[j].pending()
            == 0 by {
            assert(s.drop_last()[j] == s[j]);
        }
        lemma_locals_total_zero(s.drop_last());
    }
}

proof fn lemma_locals_total_push<D>(s: Seq<LocalState<D>>, v: LocalState<D>)
    ensures
        locals_total(s.push(v)) == locals_total(s) + v.pending(),
{
    assert(s.push(v).drop_last() =~= s);
}

/// The union of a sequence of multisets.
pub open spec fn union_all<D>(s: Seq<Multiset<D>>) -> Multiset<D>
    decreases s.len(),
{
    if s.len() == 0 {
        Multiset::empty()
    } else {
        union_all(s.drop_last()).add(s.last())
    }
}

proof fn lemma_handed_out_prefix<D>(
    pending: Seq<Multiset<D>>,
    retired: Seq<Multiset<D>>,
    handed: Seq<Multiset<D>>,
    k: int,
)
    requires
        pending.len() == retired.len() + 1,
        handed.len() == retired.len() + 1,
        pending[0] == Multiset::<D>::empty(),
        forall|j: int|
            0 <= j < retired.len() ==> pending[j + 1].add(handed[j]) == pending[j].add(
                #[trigger] retired[j],
            ),
        0 <= k <= retired.len(),
    ensures
        union_all(handed.take(k)).add(pending[k]) == union_all(retired.take(k)),
    decreases k,
{
    if k == 0 {
        assert(handed.take(0) =~= Seq::<Multiset<D>>::empty());
        assert(retired.take(0) =~= Seq::<Multiset<D>>::empty());
        assert(union_all(handed.take(0)).add(pending[0]) =~= union_all(retired.take(0)));
    } else {
        lemma_handed_out_prefix(pending, retired, handed, k - 1);
        assert(handed.take(k).drop_last() =~= handed.take(k - 1));
        assert(retired.take(k).drop_last() =~= retired.take(k - 1));
        assert(pending[k].add(handed[k - 1]) == pending[k - 1].add(retired[k - 1]));
        let h = union_all(handed.take(k - 1));
        let r = union_all(retired.take(k - 1));
        assert forall|x: D| #[trigger] union_all(handed.take(k)).add(pending[k]).count(x) == union_all(
            retired.take(k),
        ).count(x) by {
            assert(h.add(pending[k - 1]).count(x) == r.count(x));
            assert(pending[k].add(handed[k - 1]).count(x) == pending[k - 1].add(retired[k - 1]).count(
                x,
            ));
        }
        assert(union_all(handed.take(k)).add(pending[k]) =~= union_all(retired.take(k)));
    }
}

/// Every retired work item is handed out exactly once. Take a run of calls on a collector that
/// starts empty: call `j` retires the items `retired[j]` (one item for `retire`, none otherwise)
/// and hands out `handed[j]`, taking the pending items from `pending[j]` to `pending[j + 1]` as
/// each call's contract says; the run ends with `drain`, which hands out everything pending.
/// Then the items handed out over the run are exactly the items retired.
pub proof fn lemma_handed_out_once<D>(
    pending: Seq<Multiset<D>>,
    retired: Seq<Multiset<D>>,
    handed: Seq<Multiset<D>>,
)
    requires
        pending.len() == retired.len() + 1,
        handed.len() == retired.len() + 1,
        pending[0] == Multiset::<D>::empty(),
        forall|j: int|
            0 <= j < retired.len() ==> pending[j + 1].add(handed[j]) == pending[j].add(
                #[trigger] retired[j],
            ),
        handed.last() == pending.last(),
    ensures
        union_all(handed) == union_all(retired),
{
    let n = retired.len() as int;
    lemma_handed_out_prefix(pending, retired, handed, n);
    assert(handed.drop_last() =~= handed.take(n));
    assert(retired.take(n) =~= retired);
    assert(pending.last() == pending[n]);
    assert(union_all(handed) =~= union_all(retired));
}

/// A shield bound to one participant, named by its thread id.
pub struct ThinShield {
    tid: usize,
}

impl ThinShield {
    pub closed spec fn tid_spec(&self) -> nat {
        self.tid as nat
    }

    /// The thread id of the participant this shield pins.
    pub fn tid(&self) -> (r: usize)
        ensures
            r == self.tid_spec(),
    {
        self.tid
    }
}

/// A handle on one registered participant, for callers that create many shields on one thread.
pub struct Local {
    tid: usize,
}

impl Local {
    pub closed spec fn tid_spec(&self) -> nat {
        self.tid as nat
    }

    /// The thread id of the participant.
    pub fn tid(&self) -> (r: usize)
        ensures
            r == self.tid_spec(),
    {
        self.tid
    }

    /// Creates a shield on this participant.
    pub fn thin_shield<D>(&self, c: &mut Collector<D>) -> (r: ThinShield)
        requires
            old(c).wf(),
            self.tid_spec() < MAX_THREADS,
            old(c).shields(self.tid_spec() as int) < usize::MAX,
        ensures
            final(c).wf(),
            r.tid_spec() == self.tid_spec(),
            final(c).shields(self.tid_spec() as int) == shield_step(
                old(c).shields(self.tid_spec() as int),
                true,
            ),
            forall|t: int| t != self.tid_spec() ==> #[trigger] final(c).shields(t) == old(c).shields(t),
            final(c).pending() == old(c).pending(),
    {
        c.thin_shield(self.tid)
    }

    /// Whether this participant has live shields.
    pub fn is_pinned<D>(&self, c: &Collector<D>) -> (r: bool)
        requires
            c.wf(),
        ensures
            r == (c.shields(self.tid_spec() as int) > 0),
    {
        c.is_pinned(self.tid)
    }
}

/// A shield on the shared participant; it may move between threads.
pub struct FullShield {
    _private: (),
}

/// The reclamation engine: the global epoch, a participant per thread id, the shared participant
/// of movable shields, and the queue of sealed bags with its count of work items.
///
/// Ghost state: `advances` counts the advances of the global epoch; `released` holds, for the
/// work items handed out by the last call, the advance count at which each was retired.
pub struct Collector<D> {
    threads: Vec<LocalState<D>>,
    garbage: Queue<SealedBag<D>>,
    global_epoch: Epoch,
    garbage_amount: usize,
    ceiling: usize,
    ct: LocalState<D>,
    advances: Ghost<nat>,
    released: Ghost<Seq<nat>>,
}

impl<D> Collector<D> {
    /// How many times the global epoch has advanced.
    pub closed spec fn advances(&self) -> nat {
        self.advances@
    }

    /// The global epoch.
    pub closed spec fn global_epoch_spec(&self) -> Epoch {
        self.global_epoch
    }

    /// Number of registered participants; thread ids below it have one.
    pub closed spec fn participants(&self) -> nat {
        self.threads@.len()
    }

    /// Live thin shields of participant `tid` (zero for an unregistered id).
    pub closed spec fn shields(&self, tid: int) -> nat {
        if 0 <= tid < self.threads@.len() {
            self.threads@[tid].shields_spec()
        } else {
            0
        }
    }

    /// Advance count when participant `tid` last pinned.
    pub closed spec fn pin_stamp(&self, tid: int) -> nat {
        if 0 <= tid < self.threads@.len() {
            self.threads@[tid].pin_stamp()
        } else {
            0
        }
    }

    /// Work items waiting in the bag of participant `tid`.
    pub closed spec fn bag_len(&self, tid: int) -> nat {
        if 0 <= tid < self.threads@.len() {
            self.threads@[tid].pending()
        } else {
            0
        }
    }

    /// Critical-section exits of participant `tid` counted toward its next advance attempt.
    pub closed spec fn exit_count(&self, tid: int) -> nat {
        if 0 <= tid < self.threads@.len() {
            self.threads@[tid].counter_spec()
        } else {
            0
        }
    }

    /// Every pinned participant other than thin participant `tid`, the shared one included,
    /// pinned in the current epoch.
    pub open spec fn synced_except(&self, tid: int) -> bool {
        &&& forall|t: int|
            0 <= t < self.participants() && t != tid && self.shields(t) > 0 ==> #[trigger] self.pin_stamp(
                t,
            ) == self.advances()
        &&& (self.full_shields() > 0 ==> self.full_pin_stamp() == self.advances())
    }

    /// Every pinned thin participant pinned in the current epoch.
    pub open spec fn threads_synced(&self) -> bool {
        forall|t: int|
            0 <= t < self.participants() && self.shields(t) > 0 ==> #[trigger] self.pin_stamp(t)
                == self.advances()
    }

    /// Live full shields.
    pub closed spec fn full_shields(&self) -> nat {
        self.ct.shields_spec()
    }

    /// Advance count when the shared participant last pinned.
    pub closed spec fn full_pin_stamp(&self) -> nat {
        self.ct.pin_stamp()
    }

    /// Work items waiting in the bag of the shared participant.
    pub closed spec fn full_bag_len(&self) -> nat {
        self.ct.pending()
    }

    /// Work items in sealed bags on the garbage queue.
    pub closed spec fn garbage_amount_spec(&self) -> nat {
        self.garbage_amount as nat
    }

    /// Sealed bags on the garbage queue.
    pub closed spec fn garbage_bags(&self) -> nat {
        self.garbage.view().len()
    }

    /// Queued work items above which retiring tries to collect at once.
    pub closed spec fn ceiling_spec(&self) -> nat {
        self.ceiling as nat
    }

    /// Retire stamps of the work items handed out by the last call, in the order handed out.
    pub closed spec fn released(&self) -> Seq<nat> {
        self.released@
    }

    /// Every retired work item that has not been handed out: in a participant's bag or on the
    /// garbage queue.
    pub closed spec fn pending(&self) -> nat {
        self.garbage_amount as nat + locals_total(self.threads@) + self.ct.pending()
    }

    /// The retired work items that have not been handed out, each with the advance count at
    /// which it was retired.
    pub closed spec fn pending_stamped(&self) -> Multiset<(D, nat)> {
        bags_stamped(self.garbage.view()).add(locals_stamped(self.threads@)).add(
            self.ct.pending_stamped(),
        )
    }

    /// The work items handed out by the last call, each with the advance count at which it was
    /// retired: `out` paired with the retire stamps of the last call.
    pub open spec fn handed_stamped(&self, out: Seq<D>) -> Multiset<(D, nat)> {
        zip_stamps(out, self.released()).to_multiset()
    }

    /// The retired work items that have not been handed out.
    pub closed spec fn pending_items(&self) -> Multiset<D> {
        bags_items(self.garbage.view()).add(locals_items(self.threads@)).add(
            self.ct.pending_items(),
        )
    }

    pub closed spec fn wf(&self) -> bool {
        &&& !self.global_epoch.pinned_flag()
        &&& self.global_epoch.value() == self.advances@ % 3
        &&& self.threads@.len() <= MAX_THREADS
        &&& forall|i: int|
            0 <= i < self.threads@.len() ==> #[trigger] self.threads@[i].wf_at(self.advances@)
        &&& self.ct.wf_at(self.advances@)
        &&& forall|i: int|
            0 <= i < self.garbage.view().len() ==> sealed_wf_at(
                #[trigger] self.garbage.view()[i],
                self.advances@,
            )
        &&& self.garbage_amount == bags_total(self.garbage.view())
        &&& self.pending() <= usize::MAX
    }

    /// Every work item handed out by the last call was retired at least two advances ago.
    pub open spec fn released_old(&self) -> bool {
        forall|i: int|
            0 <= i < self.released().len() ==> #[trigger] self.released()[i] + 2 <= self.advances()
    }

    closed spec fn released_aged(&self) -> bool {
        stamps_released_at(self.released@, self.advances@)
    }

    /// The sealed bag at the head of the garbage queue has been passed by two advances.
    pub closed spec fn head_ready(&self) -> bool {
        self.garbage.view().len() > 0 && passed_by(
            self.garbage.view()[0].epoch_spec().value(),
            self.global_epoch.value(),
            2,
        )
    }

    /// The work handed out by the last call was retired before every participant that is pinned
    /// now pinned itself: no pinned participant can still observe what that work destroys.
    pub open spec fn released_safely(&self) -> bool {
        &&& forall|i: int, tid: int|
            0 <= i < self.released().len() && 0 <= tid < self.participants() && self.shields(tid)
                > 0 ==> #[trigger] self.released()[i] < #[trigger] self.pin_stamp(tid)
        &&& forall|i: int|
            0 <= i < self.released().len() && self.full_shields() > 0 ==> #[trigger] self.released()[i]
                < self.full_pin_stamp()
    }

    /// Every pinned participant, the shared one included, pinned in the current global epoch.
    pub closed spec fn all_synced(&self) -> bool {
        &&& forall|i: int|
            0 <= i < self.threads@.len() ==> (!#[trigger] self.threads@[i].epoch_spec().pinned_flag()
                || self.threads@[i].epoch_spec().value() == self.global_epoch.value())
        &&& (!self.ct.epoch_spec().pinned_flag() || self.ct.epoch_spec().value()
            == self.global_epoch.value())
    }

    /// No premature reclamation: while participant `tid` stays pinned, work retired after it
    /// pinned (retire stamp at least its pin stamp) is fewer than two advances old, so no call
    /// hands it out (every call hands out only work at least two advances old).
    pub proof fn lemma_no_premature_reclamation(&self, tid: int, stamp: nat)
        requires
            self.wf(),
            0 <= tid < self.participants(),
            self.shields(tid) > 0,
            stamp >= self.pin_stamp(tid),
        ensures
            stamp + 2 > self.advances(),
    {
        assert(self.threads@[tid].wf_at(self.advances@));
    }

    /// Safety of reclamation: work retired after a participant pinned (its retire stamp is at
    /// least the participant's pin stamp) is not among the work handed out while that participant
    /// stays pinned. `out` is what the last call returned.
    pub proof fn lemma_withheld_while_pinned(&self, out: Seq<D>, tid: int, x: D, stamp: nat)
        requires
            self.wf(),
            self.released_old(),
            out.len() == self.released().len(),
            (0 <= tid < self.participants() && self.shields(tid) > 0 && stamp >= self.pin_stamp(tid))
                || (self.full_shields() > 0 && stamp >= self.full_pin_stamp()),
        ensures
            self.handed_stamped(out).count((x, stamp)) == 0,
    {
        let z = zip_stamps(out, self.released());
        if z.to_multiset().count((x, stamp)) > 0 {
            assert(z.contains((x, stamp)));
            let i = choose|i: int| 0 <= i < z.len() && z[i] == (x, stamp);
            assert(self.released()[i] == stamp);
            if 0 <= tid < self.participants() && self.shields(tid) > 0 && stamp >= self.pin_stamp(tid) {
                self.lemma_no_premature_reclamation(tid, stamp);
            } else {
                assert(self.ct.wf_at(self.advances@));
            }
        }
    }

    /// The epoch may advance exactly when every pinned participant, the shared one included,
    /// pinned in the current epoch: its pin stamp is the current advance count.
    pub proof fn lemma_all_synced_iff(&self)
        requires
            self.wf(),
        ensures
            self.all_synced() <==> ((forall|t: int|
                0 <= t < self.participants() && self.shields(t) > 0 ==> #[trigger] self.pin_stamp(t)
                    == self.advances()) && (self.full_shields() > 0 ==> self.full_pin_stamp()
                == self.advances())),
    {
        let a = self.advances@;
        assert forall|t: int| 0 <= t < self.threads@.len() implies (
        !#[trigger] self.threads@[t].epoch_spec().pinned_flag()
            || self.threads@[t].epoch_spec().value() == self.global_epoch.value()) == (
        self.shields(t) > 0 ==> self.pin_stamp(t) == a) by {
            assert(self.threads@[t].wf_at(a));
            self.threads@[t].lemma_pinned_iff_shields(a);
        }
        self.ct.lemma_pinned_iff_shields(a);
        if self.all_synced() {
            assert forall|t: int|
                0 <= t < self.participants() && self.shields(t) > 0 implies #[trigger] self.pin_stamp(t)
                == self.advances() by {
                assert(!self.threads@[t].epoch_spec().pinned_flag()
                    || self.threads@[t].epoch_spec().value() == self.global_epoch.value());
            }
        }
        if (forall|t: int|
            0 <= t < self.participants() && self.shields(t) > 0 ==> #[trigger] self.pin_stamp(t)
                == self.advances()) && (self.full_shields() > 0 ==> self.full_pin_stamp()
            == self.advances()) {
            assert forall|t: int| 0 <= t < self.threads@.len() implies (
            !#[trigger] self.threads@[t].epoch_spec().pinned_flag()
                || self.threads@[t].epoch_spec().value() == self.global_epoch.value()) by {
                if self.shields(t) > 0 {
                    assert(self.pin_stamp(t) == self.advances());
                }
            }
        }
    }

    proof fn lemma_released_safely(&self)
        requires
            self.wf(),
            self.released_aged(),
        ensures
            self.released_safely(),
            self.released_old(),
    {
        assert forall|i: int, tid: int|
            0 <= i < self.released().len() && 0 <= tid < self.participants() && self.shields(tid)
                > 0 implies #[trigger] self.released()[i] < #[trigger] self.pin_stamp(tid) by {
            assert(self.threads@[tid].wf_at(self.advances@));
            assert(self.released@[i] + 2 <= self.advances@);
        }
        assert forall|i: int|
            0 <= i < self.released().len() && self.full_shields() > 0 implies #[trigger] self.released()[i]
                < self.full_pin_stamp() by {
            assert(self.released@[i] + 2 <= self.advances@);
        }
    }

    /// An empty collector with the given garbage ceiling in bytes.
    pub fn with_max_garbage_bytes(max_garbage_bytes: usize) -> (r: Collector<D>)
        ensures
            r.wf(),
            r.participants() == 0,
            forall|t: int| #[trigger] r.shields(t) == 0,
            forall|t: int| #[trigger] r.bag_len(t) == 0,
            r.pending() == 0,
            r.advances() == 0,
            r.full_shields() == 0,
            r.garbage_bags() == 0,
            r.released() == Seq::<nat>::empty(),
            r.ceiling_spec() == max_garbage_bytes / DEFERRED_BYTES,
    {
        let r = Collector {
            threads: Vec::new(),
            garbage: Queue::new(),
            global_epoch: Epoch::zero(),
            garbage_amount: 0,
            ceiling: deferred_ceiling(max_garbage_bytes),
            ct: LocalState::new(),
            advances: Ghost(0),
            released: Ghost(Seq::empty()),
        };
        proof {
            assert(r.threads@ =~= Seq::<LocalState<D>>::empty());
            assert(r.ct.wf_at(0));
        }
        r
    }

    /// An empty collector with the default garbage ceiling.
    pub fn new() -> (r: Collector<D>)
        ensures
            r.wf(),
            r.participants() == 0,
            forall|t: int| #[trigger] r.shields(t) == 0,
            forall|t: int| #[trigger] r.bag_len(t) == 0,
            r.pending() == 0,
            r.advances() == 0,
            r.full_shields() == 0,
            r.garbage_bags() == 0,
            r.released() == Seq::<nat>::empty(),
            r.ceiling_spec() == MAX_GARBAGE_BYTES / DEFERRED_BYTES,
    {
        Self::with_max_garbage_bytes(MAX_GARBAGE_BYTES)
    }

    /// Whether work is waiting on the garbage queue.
    pub fn should_advance(&self) -> (r: bool)
        ensures
            r == (self.garbage_amount_spec() > 0),
    {
        self.garbage_amount > 0
    }

    /// Advances the global epoch by one if every pinned participant pinned in the current one.
    fn advance_epoch(&mut self) -> (r: Result<Epoch, AdvanceRefused>)
        requires
            old(self).wf(),
        ensures
            final(self).wf(),
            r is Ok <==> old(self).all_synced(),
            r is Ok ==> {
                &&& final(self).advances() == old(self).advances() + 1
                &&& r->Ok_0 == final(self).global_epoch_spec()
                &&& final(self).global_epoch_spec().value() == next_value(
                    old(self).global_epoch_spec().value(),
                )
            },
            r is Err ==> final(self).advances() == old(self).advances()
                && final(self).global_epoch_spec() == old(self).global_epoch_spec(),
            final(self).threads@ == old(self).threads@,
            final(self).ct == old(self).ct,
            final(self).garbage == old(self).garbage,
            final(self).garbage_amount == old(self).garbage_amount,
            final(self).released == old(self).released,
            final(self).ceiling == old(self).ceiling,
            final(self).pending_items() == old(self).pending_items(),
            final(self).pending_stamped() == old(self).pending_stamped(),
    {
        let global = self.global_epoch;
        let mut synced = self.ct.is_synced(global);
        let n = self.threads.len();
        let mut i: usize = 0;
        while i < n
            invariant
                n == self.threads@.len(),
                i <= n,
                *self == *old(self),
                global == self.global_epoch,
                synced == ((!self.ct.epoch_spec().pinned_flag() || self.ct.epoch_spec().value()
                    == global.value()) && forall|j: int|
                    0 <= j < i ==> (!#[trigger] self.threads@[j].epoch_spec().pinned_flag()
                        || self.threads@[j].epoch_spec().value() == global.value())),
            decreases n - i,
        {
            if !self.threads[i].is_synced(global) {
                synced = false;
            }
            i = i + 1;
        }
        if synced {
            let ghost a = self.advances@;
            proof {
                assert forall|j: int| 0 <= j < self.threads@.len() implies #[trigger] self.threads@[j].wf_at(
                    a + 1,
                ) by {
                    self.threads@[j].lemma_advance(a);
                }
                self.ct.lemma_advance(a);
                assert forall|j: int| 0 <= j < self.garbage.view().len() implies sealed_wf_at(
                    #[trigger] self.garbage.view()[j],
                    a + 1,
                ) by {}
            }
            let next = global.next();
            self.global_epoch = next;
            self.advances = Ghost(a + 1);
            Ok(next)
        } else {
            Err(AdvanceRefused)
        }
    }

    /// Advances the global epoch by one if every pinned participant, the shared one included,
    /// pinned in the current epoch; otherwise refuses and changes nothing.
    pub fn try_advance(&mut self) -> (r: Result<Epoch, AdvanceRefused>)
        requires
            old(self).wf(),
        ensures
            final(self).wf(),
            r is Ok <==> old(self).all_synced(),
            r is Ok ==> {
                &&& final(self).advances() == old(self).advances() + 1
                &&& r->Ok_0 == final(self).global_epoch_spec()
                &&& final(self).global_epoch_spec().value() == next_value(
                    old(self).global_epoch_spec().value(),
                )
            },
            r is Err ==> final(self).advances() == old(self).advances()
                && final(self).global_epoch_spec() == old(self).global_epoch_spec(),
            forall|t: int| #[trigger] final(self).shields(t) == old(self).shields(t),
            forall|t: int| #[trigger] final(self).bag_len(t) == old(self).bag_len(t),
            final(self).participants() == old(self).participants(),
            final(self).full_shields() == old(self).full_shields(),
            final(self).pending() == old(self).pending(),
            final(self).garbage_bags() == old(self).garbage_bags(),
            final(self).pending_items() == old(self).pending_items(),
            final(self).pending_stamped() == old(self).pending_stamped(),
    {
        self.advance_epoch()
    }

    /// Takes off the garbage queue every sealed bag at its head that is ready as of `now`, and
    /// appends their work to `out`.
    fn internal_collect(&mut self, now: Epoch, out: &mut Vec<D>)
        requires
            old(self).wf(),
            now == old(self).global_epoch,
            old(self).released_aged(),
            old(out)@.len() == old(self).released@.len(),
        ensures
            final(self).wf(),
            final(self).released_aged(),
            final(out)@.len() == final(self).released@.len(),
            final(self).pending() + final(out)@.len() == old(self).pending() + old(out)@.len(),
            !final(self).head_ready(),
            forall|b: SealedBag<D>|
                old(self).garbage.view().contains(b) && b.stamps().last() + 2 > old(self).advances@
                    ==> #[trigger] final(self).garbage.view().contains(b),
            final(self).threads@ == old(self).threads@,
            final(self).ct == old(self).ct,
            final(self).advances == old(self).advances,
            final(self).global_epoch == old(self).global_epoch,
            final(self).ceiling == old(self).ceiling,
            final(self).pending_items().add(final(out)@.to_multiset()) == old(self).pending_items().add(
                old(out)@.to_multiset(),
            ),
            exists|k: int|
                0 <= k <= old(self).garbage.view().len() && final(self).garbage.view() == old(
                    self,
                ).garbage.view().skip(k) && final(out)@ == old(out)@ + bags_seq(
                    old(self).garbage.view().take(k),
                ) && forall|i: int|
                    0 <= i < k ==> passed_by(
                        #[trigger] old(self).garbage.view()[i].epoch_spec().value(),
                        now.value(),
                        2,
                    ),
            final(self).pending_stamped().add(final(self).handed_stamped(final(out)@)) == old(self).pending_stamped().add(
                old(self).handed_stamped(old(out)@),
            ),
    {
        let mut more = true;
        let ghost mut k: int = 0;
        proof {
            assert(old(self).garbage.view().skip(0) =~= old(self).garbage.view());
            assert(old(self).garbage.view().take(0) =~= Seq::<SealedBag<D>>::empty());
            assert(old(out)@ + Seq::<D>::empty() =~= old(out)@);
        }
        while more && self.garbage.len() > 0
            invariant
                0 <= k <= old(self).garbage.view().len(),
                self.garbage.view() == old(self).garbage.view().skip(k),
                out@ == old(out)@ + bags_seq(old(self).garbage.view().take(k)),
                forall|i: int|
                    0 <= i < k ==> passed_by(
                        #[trigger] old(self).garbage.view()[i].epoch_spec().value(),
                        now.value(),
                        2,
                    ),
                self.wf(),
                self.released_aged(),
                out@.len() == self.released@.len(),
                self.pending() + out@.len() == old(self).pending() + old(out)@.len(),
                self.threads@ == old(self).threads@,
                self.ct == old(self).ct,
                self.advances == old(self).advances,
                self.global_epoch == now,
                self.ceiling == old(self).ceiling,
                !more ==> !self.head_ready(),
                forall|b: SealedBag<D>|
                    old(self).garbage.view().contains(b) && b.stamps().last() + 2 > old(
                        self,
                    ).advances@ ==> #[trigger] self.garbage.view().contains(b),
                self.pending_items().add(out@.to_multiset()) == old(self).pending_items().add(
                    old(out)@.to_multiset(),
                ),
                self.pending_stamped().add(self.handed_stamped(out@)) == old(self).pending_stamped().add(
                    old(self).handed_stamped(old(out)@),
                ),
            decreases self.garbage.view().len() + if more {
                1int
            } else {
                0int
            },
        {
            let ghost before = self.garbage.view();
            let is_ready = |bag: &SealedBag<D>| -> (r: bool)
                ensures
                    r == passed_by(bag.epoch_spec().value(), now.value(), 2),
                { bag.epoch().has_passed(now, 2) };
            let ready = self.garbage.pop_if(is_ready);
            match ready {
                Some(bag) => {
                    assert(sealed_wf_at(before[0], self.advances@));
                    let n = bag.len();
                    let ghost st = bag.stamps();
                    proof {
                        lemma_ready_is_old(st.last(), self.advances@);
                        assert(before.drop_first() == self.garbage.view());
                        assert forall|j: int| 0 <= j < self.garbage.view().len() implies sealed_wf_at(
                            #[trigger] self.garbage.view()[j],
                            self.advances@,
                        ) by {
                            assert(self.garbage.view()[j] == before[j + 1]);
                        }
                    }
                    let ghost head_items = bag.items();
                    let ghost out_before = out@;
                    let ghost pending_before = old(self).pending_items().add(
                        old(out)@.to_multiset(),
                    );
                    let ghost rel_before = self.released@;
                    proof {
                        assert(bags_items(before) == before[0].items().to_multiset().add(
                            bags_items(before.drop_first()),
                        ));
                        assert(bags_stamped(before) == before[0].stamped().to_multiset().add(
                            bags_stamped(before.drop_first()),
                        ));
                    }
                    let mut items = bag.into_items();
                    self.garbage_amount = self.garbage_amount - n;
                    out.append(&mut items);
                    proof {
                        let ov = old(self).garbage.view();
                        assert(before[0] == ov[k]);
                        assert(ov.take(k + 1).drop_last() =~= ov.take(k));
                        assert(ov.take(k + 1).last() == ov[k]);
                        assert(out@ =~= old(out)@ + bags_seq(ov.take(k + 1)));
                        assert(self.garbage.view() =~= ov.skip(k + 1));
                        k = k + 1;
                        lemma_append_items(out_before, head_items, out@);
                        assert(self.pending_items().add(out@.to_multiset()) =~= pending_before);
                        assert forall|b: SealedBag<D>|
                            old(self).garbage.view().contains(b) && b.stamps().last() + 2 > old(
                                self,
                            ).advances@ implies #[trigger] self.garbage.view().contains(b) by {
                            assert(before.contains(b));
                            let k = choose|k: int| 0 <= k < before.len() && before[k] == b;
                            if k == 0 {
                                assert(b.stamps() == st);
                            } else {
                                assert(self.garbage.view()[k - 1] == b);
                            }
                        }
                    }
                    let ghost old_released = self.released@;
                    self.released = Ghost(self.released@ + st);
                    proof {
                        lemma_zip_concat(out_before, rel_before, head_items, st);
                        lemma_multiset_commutative(
                            zip_stamps(out_before, rel_before),
                            zip_stamps(head_items, st),
                        );
                        assert(self.pending_stamped().add(self.handed_stamped(out@)) =~= old(
                            self,
                        ).pending_stamped().add(old(self).handed_stamped(old(out)@)));
                    }
                    proof {
                        assert forall|j: int| 0 <= j < self.released@.len() implies #[trigger] self.released@[j]
                            + 2 <= self.advances@ by {
                            if j >= old_released.len() {
                                assert(self.released@[j] == st[j - old_released.len()]);
                                assert(st[j - old_released.len()] <= st.last());
                            } else {
                                assert(self.released@[j] == old_released[j]);
                            }
                        }
                    }
                },
                None => {
                    more = false;
                },
            }
        }
    }

    /// Advances the global epoch and, if that succeeded, collects the garbage queue; the
    /// collected work is appended to `out`. Returns whether the epoch advanced.
    fn try_cycle(&mut self, out: &mut Vec<D>) -> (r: bool)
        requires
            old(self).wf(),
            old(self).released_aged(),
            old(out)@.len() == old(self).released@.len(),
        ensures
            final(self).wf(),
            final(self).released_aged(),
            final(out)@.len() == final(self).released@.len(),
            final(self).pending() + final(out)@.len() == old(self).pending() + old(out)@.len(),
            r == old(self).all_synced(),
            !r ==> final(out)@ == old(out)@,
            r ==> !final(self).head_ready(),
            forall|b: SealedBag<D>|
                old(self).garbage.view().contains(b) && b.stamps().last() >= old(self).advances@
                    ==> #[trigger] final(self).garbage.view().contains(b),
            r ==> final(self).advances() == old(self).advances() + 1,
            !r ==> final(self).advances() == old(self).advances(),
            forall|t: int| #[trigger] final(self).shields(t) == old(self).shields(t),
            forall|t: int| #[trigger] final(self).bag_len(t) == old(self).bag_len(t),
            forall|t: int| #[trigger] final(self).pin_stamp(t) == old(self).pin_stamp(t),
            final(self).participants() == old(self).participants(),
            final(self).ct == old(self).ct,
            final(self).ceiling == old(self).ceiling,
            final(self).pending_items().add(final(out)@.to_multiset()) == old(self).pending_items().add(
                old(out)@.to_multiset(),
            ),
            final(self).threads@ == old(self).threads@,
            final(self).pending_stamped().add(final(self).handed_stamped(final(out)@)) == old(self).pending_stamped().add(
                old(self).handed_stamped(old(out)@),
            ),
    {
        match self.advance_epoch() {
            Ok(epoch) => {
                proof {
                    assert forall|j: int| 0 <= j < self.released@.len() implies #[trigger] self.released@[j]
                        + 2 <= self.advances@ by {
                        assert(old(self).released@[j] + 2 <= old(self).advances@);
                    }
                }
                let ghost advanced = *self;
                self.internal_collect(epoch, out);
                proof {
                    assert forall|b: SealedBag<D>|
                        old(self).garbage.view().contains(b) && b.stamps().last() >= old(
                            self,
                        ).advances@ implies #[trigger] self.garbage.view().contains(b) by {
                        assert(advanced.garbage.view().contains(b));
                    }
                }
                true
            },
            Err(_) => false,
        }
    }
    /// Appends a sealed bag to the garbage queue.
    fn queue_bag(&mut self, bag: SealedBag<D>)
        requires
            old(self).wf(),
            sealed_wf_at(bag, old(self).advances@),
            old(self).pending() + bag.items().len() <= usize::MAX,
        ensures
            final(self).wf(),
            final(self).pending() == old(self).pending() + bag.items().len(),
            final(self).threads == old(self).threads,
            final(self).ct == old(self).ct,
            final(self).advances == old(self).advances,
            final(self).global_epoch == old(self).global_epoch,
            final(self).released == old(self).released,
            final(self).ceiling == old(self).ceiling,
            final(self).garbage_amount == old(self).garbage_amount + bag.items().len(),
            final(self).pending_items() == old(self).pending_items().add(bag.items().to_multiset()),
            final(self).garbage.view() == old(self).garbage.view().push(bag),
            final(self).pending_stamped() == old(self).pending_stamped().add(bag.stamped().to_multiset()),
    {
        let n = bag.len();
        proof {
            lemma_bags_total_push(self.garbage.view(), bag);
            lemma_bags_items_push(self.garbage.view(), bag);
            lemma_bags_stamped_push(self.garbage.view(), bag);
        }
        self.garbage.push(bag);
        self.garbage_amount = self.garbage_amount + n;
        proof {
            assert forall|j: int| 0 <= j < self.garbage.view().len() implies sealed_wf_at(
                #[trigger] self.garbage.view()[j],
                self.advances@,
            ) by {
                if j < old(self).garbage.view().len() {
                    assert(self.garbage.view()[j] == old(self).garbage.view()[j]);
                }
            }
            assert(self.pending_items() =~= old(self).pending_items().add(
                bag.items().to_multiset(),
            ));
            assert(self.pending_stamped() =~= old(self).pending_stamped().add(
                bag.stamped().to_multiset(),
            ));
        }
    }

    /// Queues a sealed bag on the garbage queue; past the ceiling, tries to collect at once.
    fn retire_bag(&mut self, bag: SealedBag<D>, out: &mut Vec<D>)
        requires
            old(self).wf(),
            sealed_wf_at(bag, old(self).advances@),
            old(self).released_aged(),
            old(out)@.len() == old(self).released@.len(),
            old(self).pending() + bag.items().len() <= usize::MAX,
        ensures
            final(self).wf(),
            final(self).released_aged(),
            final(out)@.len() == final(self).released@.len(),
            final(self).pending() + final(out)@.len() == old(self).pending() + bag.items().len()
                + old(out)@.len(),
            forall|t: int| #[trigger] final(self).shields(t) == old(self).shields(t),
            forall|t: int| #[trigger] final(self).bag_len(t) == old(self).bag_len(t),
            forall|t: int| #[trigger] final(self).pin_stamp(t) == old(self).pin_stamp(t),
            final(self).participants() == old(self).participants(),
            final(self).ct == old(self).ct,
            final(self).advances() >= old(self).advances(),
            final(self).pending_items().add(final(out)@.to_multiset()) == old(self).pending_items().add(
                bag.items().to_multiset(),
            ).add(old(out)@.to_multiset()),
            bag.stamps().last() >= old(self).advances() ==> forall|x: D|
                #[trigger] final(self).pending_items().count(x) >= bag.items().to_multiset().count(x),
            old(self).garbage_amount_spec() + bag.items().len() > old(self).ceiling_spec() ==> (final(self).advances() == old(self).advances() + 1 <==> old(self).all_synced()),
            old(self).garbage_amount_spec() + bag.items().len() > old(self).ceiling_spec() ==> (
            final(self).advances() == old(self).advances() || final(self).advances() == old(
                self,
            ).advances() + 1),
            old(self).garbage_amount_spec() + bag.items().len() <= old(self).ceiling_spec() ==> final(self).advances() == old(self).advances(),
            final(self).pending_stamped().add(final(self).handed_stamped(final(out)@)) == old(self).pending_stamped().add(
                bag.stamped().to_multiset(),
            ).add(old(self).handed_stamped(old(out)@)),
    {
        self.queue_bag(bag);
        proof {
            assert(self.all_synced() == old(self).all_synced());
            assert(self.garbage.view().last() == bag);
            assert(self.garbage.view().contains(bag));
        }
        if self.garbage_amount > self.ceiling {
            self.try_cycle(out);
        }
        proof {
            if bag.stamps().last() >= old(self).advances() {
                assert(self.garbage.view().contains(bag));
                assert forall|x: D| #[trigger] self.pending_items().count(x) >= bag.items().to_multiset().count(
                    x,
                ) by {
                    lemma_bags_items_contains(self.garbage.view(), bag, x);
                }
            }
        }
    }

    /// Gives every thread id up to `tid` a participant.
    fn local_state(&mut self, tid: usize)
        requires
            old(self).wf(),
            tid < MAX_THREADS,
        ensures
            final(self).wf(),
            final(self).participants() == if old(self).participants() > tid {
                old(self).participants()
            } else {
                tid as nat + 1
            },
            forall|t: int| #[trigger] final(self).shields(t) == old(self).shields(t),
            forall|t: int| #[trigger] final(self).bag_len(t) == old(self).bag_len(t),
            forall|t: int|
                0 <= t < old(self).participants() ==> #[trigger] final(self).pin_stamp(t) == old(
                    self,
                ).pin_stamp(t),
            final(self).pending() == old(self).pending(),
            final(self).advances == old(self).advances,
            final(self).global_epoch == old(self).global_epoch,
            final(self).released == old(self).released,
            final(self).ct == old(self).ct,
            final(self).garbage == old(self).garbage,
            final(self).garbage_amount == old(self).garbage_amount,
            final(self).ceiling == old(self).ceiling,
            final(self).all_synced() == old(self).all_synced(),
            final(self).pending_items() == old(self).pending_items(),
            final(self).pending_stamped() == old(self).pending_stamped(),
    {
        while self.threads.len() <= tid
            invariant
                self.wf(),
                tid < MAX_THREADS,
                old(self).participants() <= self.threads@.len() <= if old(self).participants()
                    > tid {
                    old(self).participants()
                } else {
                    tid as nat + 1
                },
                forall|t: int| #[trigger] self.shields(t) == old(self).shields(t),
                forall|t: int| #[trigger] self.bag_len(t) == old(self).bag_len(t),
                forall|t: int|
                    0 <= t < old(self).participants() ==> #[trigger] self.threads@[t] == old(
                        self,
                    ).threads@[t],
                self.pending() == old(self).pending(),
                self.advances == old(self).advances,
                self.global_epoch == old(self).global_epoch,
                self.released == old(self).released,
                self.ct == old(self).ct,
                self.garbage == old(self).garbage,
                self.garbage_amount == old(self).garbage_amount,
                self.ceiling == old(self).ceiling,
                self.all_synced() == old(self).all_synced(),
                self.pending_items() == old(self).pending_items(),
                self.pending_stamped() == old(self).pending_stamped(),
            decreases tid + 1 - self.threads@.len(),
        {
            let fresh = LocalState::new();
            proof {
                lemma_locals_total_push(self.threads@, fresh);
                lemma_locals_items_push(self.threads@, fresh);
                lemma_locals_stamped_push(self.threads@, fresh);
                assert(fresh.wf_at(self.advances@));
            }
            let ghost before = *self;
            self.threads.push(fresh);
            proof {
                assert forall|t: int| #[trigger] self.shields(t) == old(self).shields(t) by {
                    assert(self.shields(t) == before.shields(t));
                }
                assert forall|t: int| #[trigger] self.bag_len(t) == old(self).bag_len(t) by {
                    assert(self.bag_len(t) == before.bag_len(t));
                }
                if before.all_synced() {
                    assert forall|j: int| 0 <= j < self.threads@.len() implies (
                    !#[trigger] self.threads@[j].epoch_spec().pinned_flag()
                        || self.threads@[j].epoch_spec().value() == self.global_epoch.value()) by {
                        if j < before.threads@.len() {
                            assert(self.threads@[j] == before.threads@[j]);
                        }
                    }
                } else if !(!self.ct.epoch_spec().pinned_flag() || self.ct.epoch_spec().value()
                    == self.global_epoch.value()) {
                } else {
                    let j = choose|j: int|
                        0 <= j < before.threads@.len() && !(
                        !#[trigger] before.threads@[j].epoch_spec().pinned_flag()
                            || before.threads@[j].epoch_spec().value()
                            == before.global_epoch.value());
                    assert(self.threads@[j] == before.threads@[j]);
                }
            }
        }
    }

    /// Records a new live shield on participant `tid`.
    fn enter_thin(&mut self, tid: usize)
        requires
            old(self).wf(),
            tid < old(self).participants(),
            old(self).shields(tid as int) < usize::MAX,
        ensures
            final(self).wf(),
            final(self).shields(tid as int) == shield_step(old(self).shields(tid as int), true),
            forall|t: int| t != tid ==> #[trigger] final(self).shields(t) == old(self).shields(t),
            forall|t: int| #[trigger] final(self).bag_len(t) == old(self).bag_len(t),
            forall|t: int| t != tid ==> #[trigger] final(self).pin_stamp(t) == old(self).pin_stamp(t),
            old(self).shields(tid as int) > 0 ==> final(self).pin_stamp(tid as int) == old(
                self,
            ).pin_stamp(tid as int),
            old(self).shields(tid as int) == 0 ==> final(self).pin_stamp(tid as int)
                == old(self).advances(),
            final(self).participants() == old(self).participants(),
            final(self).pending() == old(self).pending(),
            final(self).advances == old(self).advances,
            final(self).global_epoch == old(self).global_epoch,
            final(self).released == old(self).released,
            final(self).ct == old(self).ct,
            final(self).garbage == old(self).garbage,
            final(self).garbage_amount == old(self).garbage_amount,
            final(self).ceiling == old(self).ceiling,
            final(self).all_synced() == old(self).all_synced(),
            final(self).pending_items() == old(self).pending_items(),
            final(self).pending_stamped() == old(self).pending_stamped(),
    {
        let a: Ghost<nat> = Ghost(self.advances@);
        let global = self.global_epoch;
        self.threads[tid].enter(global, a);
        proof {
            lemma_locals_total_update(old(self).threads@, tid as int, self.threads@[tid as int]);
            lemma_locals_items_update(old(self).threads@, tid as int, self.threads@[tid as int]);
            lemma_add_cancel(
                locals_items(self.threads@),
                locals_items(old(self).threads@),
                old(self).threads@[tid as int].pending_items(),
            );
            lemma_locals_stamped_update(old(self).threads@, tid as int, self.threads@[tid as int]);
            lemma_add_cancel(
                locals_stamped(self.threads@),
                locals_stamped(old(self).threads@),
                old(self).threads@[tid as int].pending_stamped(),
            );
            assert(self.threads@ == old(self).threads@.update(tid as int, self.threads@[tid as int]));
            lemma_threads_wf_update(old(self).threads@, self.threads@, tid as int, self.advances@);
            if old(self).all_synced() {
                assert forall|j: int| 0 <= j < self.threads@.len() implies (
                !#[trigger] self.threads@[j].epoch_spec().pinned_flag()
                    || self.threads@[j].epoch_spec().value() == self.global_epoch.value()) by {
                    if j != tid {
                        assert(self.threads@[j] == old(self).threads@[j]);
                    } else {
                        old(self).threads@[j].lemma_pinned_iff_shields(self.advances@);
                    }
                }
            }
            if !old(self).all_synced() {
                if !(!old(self).ct.epoch_spec().pinned_flag() || old(self).ct.epoch_spec().value()
                    == old(self).global_epoch.value()) {
                } else {
                    let j = choose|j: int|
                        0 <= j < old(self).threads@.len() && !(!#[trigger] old(
                            self,
                        ).threads@[j].epoch_spec().pinned_flag() || old(self).threads@[j].epoch_spec().value()
                            == old(self).global_epoch.value());
                    old(self).threads@[j].lemma_pinned_iff_shields(self.advances@);
                    if j != tid {
                        assert(self.threads@[j] == old(self).threads@[j]);
                    }
                    assert(self.threads@[j].epoch_spec() == old(self).threads@[j].epoch_spec());
                }
            }
        }
    }

    /// Drops a live shield of participant `tid`; when it was the last, counts the exit and, every
    /// `ADVANCE_PROBABILITY` exits with garbage waiting, tries to collect into `out`.
    fn exit_thin(&mut self, tid: usize, out: &mut Vec<D>)
        requires
            old(self).wf(),
            tid < old(self).participants(),
            old(self).shields(tid as int) > 0,
            old(self).released_aged(),
            old(out)@.len() == old(self).released@.len(),
        ensures
            final(self).wf(),
            final(self).released_aged(),
            final(out)@.len() == final(self).released@.len(),
            final(self).pending() + final(out)@.len() == old(self).pending() + old(out)@.len(),
            final(self).shields(tid as int) == shield_step(old(self).shields(tid as int), false),
            final(self).shields(tid as int) < usize::MAX,
            forall|t: int| t != tid ==> #[trigger] final(self).shields(t) == old(self).shields(t),
            forall|t: int| #[trigger] final(self).bag_len(t) == old(self).bag_len(t),
            forall|t: int| #[trigger] final(self).pin_stamp(t) == old(self).pin_stamp(t),
            final(self).participants() == old(self).participants(),
            final(self).ct == old(self).ct,
            final(self).ceiling == old(self).ceiling,
            final(self).advances() >= old(self).advances(),
            final(self).pending_items().add(final(out)@.to_multiset()) == old(self).pending_items().add(
                old(out)@.to_multiset(),
            ),
            old(self).shields(tid as int) == 1 ==> final(self).exit_count(tid as int) == if old(self).exit_count(tid as int) + 1 == ADVANCE_PROBABILITY {
                0
            } else {
                old(self).exit_count(tid as int) + 1
            },
            old(self).shields(tid as int) > 1 ==> final(self).exit_count(tid as int) == old(self).exit_count(tid as int),
            final(self).advances() <= old(self).advances() + 1,
            final(self).advances() == old(self).advances() + 1 ==> old(self).shields(tid as int) == 1
                && old(self).exit_count(tid as int) + 1 == ADVANCE_PROBABILITY
                && old(self).garbage_amount_spec() > 0,
            old(self).shields(tid as int) == 1 && old(self).exit_count(tid as int) + 1
                == ADVANCE_PROBABILITY && old(self).garbage_amount_spec() > 0 && old(self).synced_except(tid as int)
                ==> final(self).advances() == old(self).advances() + 1,
            final(self).pending_stamped().add(final(self).handed_stamped(final(out)@)) == old(self).pending_stamped().add(
                old(self).handed_stamped(old(out)@),
            ),
    {
        let a: Ghost<nat> = Ghost(self.advances@);
        self.threads[tid].exit(a);
        proof {
            lemma_locals_total_update(old(self).threads@, tid as int, self.threads@[tid as int]);
            lemma_locals_items_update(old(self).threads@, tid as int, self.threads@[tid as int]);
            lemma_add_cancel(
                locals_items(self.threads@),
                locals_items(old(self).threads@),
                old(self).threads@[tid as int].pending_items(),
            );
            lemma_locals_stamped_update(old(self).threads@, tid as int, self.threads@[tid as int]);
            lemma_add_cancel(
                locals_stamped(self.threads@),
                locals_stamped(old(self).threads@),
                old(self).threads@[tid as int].pending_stamped(),
            );
            lemma_threads_wf_update(old(self).threads@, self.threads@, tid as int, self.advances@);
        }
        if self.threads[tid].shield_count() == 0 {
            let waiting = self.should_advance();
            let ghost mid = *self;
            let go = self.threads[tid].should_advance(waiting, a);
            proof {
                lemma_locals_total_update(mid.threads@, tid as int, self.threads@[tid as int]);
                lemma_locals_items_update(mid.threads@, tid as int, self.threads@[tid as int]);
                lemma_add_cancel(
                    locals_items(self.threads@),
                    locals_items(mid.threads@),
                    mid.threads@[tid as int].pending_items(),
                );
                lemma_locals_stamped_update(mid.threads@, tid as int, self.threads@[tid as int]);
                lemma_add_cancel(
                    locals_stamped(self.threads@),
                    locals_stamped(mid.threads@),
                    mid.threads@[tid as int].pending_stamped(),
                );
                lemma_threads_wf_update(mid.threads@, self.threads@, tid as int, self.advances@);
            }
            proof {
                self.lemma_all_synced_iff();
                if old(self).synced_except(tid as int) {
                    assert forall|t: int|
                        0 <= t < self.participants() && self.shields(t) > 0 implies #[trigger] self.pin_stamp(
                            t,
                        ) == self.advances() by {
                        if t != tid {
                            assert(mid.threads@[t] == old(self).threads@[t]);
                            assert(self.threads@[t] == mid.threads@[t]);
                            assert(old(self).shields(t) > 0);
                            assert(old(self).pin_stamp(t) == old(self).advances());
                        }
                    }
                }
            }
            if go {
                self.try_cycle(out);
            }
        }
    }

    /// A handle on participant `tid`, registering it first if needed.
    pub fn local(&mut self, tid: usize) -> (r: Local)
        requires
            old(self).wf(),
            tid < MAX_THREADS,
        ensures
            final(self).wf(),
            r.tid_spec() == tid,
            tid < final(self).participants(),
            forall|t: int| #[trigger] final(self).shields(t) == old(self).shields(t),
            final(self).pending() == old(self).pending(),
            final(self).advances() == old(self).advances(),
            final(self).pending_items() == old(self).pending_items(),
            final(self).pending_stamped() == old(self).pending_stamped(),
    {
        self.local_state(tid);
        Local { tid }
    }

    /// Creates a shield on participant `tid`, registering it first if needed.
    pub fn thin_shield(&mut self, tid: usize) -> (r: ThinShield)
        requires
            old(self).wf(),
            tid < MAX_THREADS,
            old(self).shields(tid as int) < usize::MAX,
        ensures
            final(self).wf(),
            r.tid_spec() == tid,
            tid < final(self).participants(),
            final(self).shields(tid as int) == shield_step(old(self).shields(tid as int), true),
            forall|t: int| t != tid ==> #[trigger] final(self).shields(t) == old(self).shields(t),
            old(self).shields(tid as int) == 0 ==> final(self).pin_stamp(tid as int)
                == final(self).advances(),
            final(self).pending() == old(self).pending(),
            final(self).advances() == old(self).advances(),
            final(self).full_shields() == old(self).full_shields(),
            final(self).pending_items() == old(self).pending_items(),
            final(self).pending_stamped() == old(self).pending_stamped(),
    {
        self.local_state(tid);
        self.enter_thin(tid);
        ThinShield { tid }
    }

    /// A second shield on the participant of `shield`.
    pub fn clone_thin(&mut self, shield: &ThinShield) -> (r: ThinShield)
        requires
            old(self).wf(),
            shield.tid_spec() < old(self).participants(),
            old(self).shields(shield.tid_spec() as int) > 0,
            old(self).shields(shield.tid_spec() as int) < usize::MAX,
        ensures
            final(self).wf(),
            r.tid_spec() == shield.tid_spec(),
            final(self).shields(shield.tid_spec() as int) == shield_step(
                old(self).shields(shield.tid_spec() as int),
                true,
            ),
            forall|t: int|
                t != shield.tid_spec() ==> #[trigger] final(self).shields(t) == old(self).shields(t),
            final(self).participants() == old(self).participants(),
            final(self).pending() == old(self).pending(),
            final(self).advances() == old(self).advances(),
            final(self).full_shields() == old(self).full_shields(),
            final(self).pending_items() == old(self).pending_items(),
            final(self).pin_stamp(shield.tid_spec() as int) == old(self).pin_stamp(
                shield.tid_spec() as int,
            ),
            final(self).pending_stamped() == old(self).pending_stamped(),
    {
        self.enter_thin(shield.tid);
        ThinShield { tid: shield.tid }
    }

    /// Drops `shield`. Returns the work that became safe to run, oldest first.
    pub fn drop_thin(&mut self, shield: ThinShield) -> (r: Vec<D>)
        requires
            old(self).wf(),
            shield.tid_spec() < old(self).participants(),
            old(self).shields(shield.tid_spec() as int) > 0,
        ensures
            final(self).wf(),
            final(self).shields(shield.tid_spec() as int) == shield_step(
                old(self).shields(shield.tid_spec() as int),
                false,
            ),
            forall|t: int|
                t != shield.tid_spec() ==> #[trigger] final(self).shields(t) == old(self).shields(t),
            final(self).participants() == old(self).participants(),
            final(self).full_shields() == old(self).full_shields(),
            final(self).pending() + r@.len() == old(self).pending(),
            final(self).released().len() == r@.len(),
            final(self).released_safely(),
            final(self).released_old(),
            final(self).pending_items().add(r@.to_multiset()) == old(self).pending_items(),
            old(self).shields(shield.tid_spec() as int) == 1 ==> final(self).exit_count(shield.tid_spec() as int) == if old(self).exit_count(shield.tid_spec() as int) + 1 == ADVANCE_PROBABILITY {
                0
            } else {
                old(self).exit_count(shield.tid_spec() as int) + 1
            },
            old(self).shields(shield.tid_spec() as int) > 1 ==> final(self).exit_count(shield.tid_spec() as int) == old(self).exit_count(shield.tid_spec() as int),
            final(self).advances() <= old(self).advances() + 1,
            final(self).advances() == old(self).advances() + 1 ==> old(self).shields(shield.tid_spec() as int) == 1
                && old(self).exit_count(shield.tid_spec() as int) + 1 == ADVANCE_PROBABILITY
                && old(self).garbage_amount_spec() > 0,
            old(self).shields(shield.tid_spec() as int) == 1 && old(self).exit_count(shield.tid_spec() as int) + 1
                == ADVANCE_PROBABILITY && old(self).garbage_amount_spec() > 0 && old(self).synced_except(shield.tid_spec() as int)
                ==> final(self).advances() == old(self).advances() + 1,
            final(self).pending_stamped().add(final(self).handed_stamped(r@)) == old(self).pending_stamped(),
    {
        let mut out: Vec<D> = Vec::new();
        self.released = Ghost(Seq::empty());
        proof {
            assert forall|t: int| #[trigger] self.pin_stamp(t) == old(self).pin_stamp(t)
                && self.shields(t) == old(self).shields(t) by {}
            assert(self.advances() == old(self).advances());
            assert(self.participants() == old(self).participants());
            assert(self.full_shields() == old(self).full_shields());
            assert(self.full_pin_stamp() == old(self).full_pin_stamp());
            if old(self).synced_except(shield.tid_spec() as int) {
                assert forall|t: int|
                    0 <= t < self.participants() && t != shield.tid_spec() && self.shields(t)
                        > 0 implies #[trigger] self.pin_stamp(t) == self.advances() by {
                    assert(old(self).shields(t) > 0);
                    assert(old(self).pin_stamp(t) == old(self).advances());
                }
            }
        }
        self.exit_thin(shield.tid, &mut out);
        proof {
            self.lemma_released_safely();
        }
        out
    }

    /// Schedules `deferred` to be handed out once no participant that is pinned now can still
    /// observe what it destroys. Returns the work that became safe to run, oldest first.
    pub fn retire(&mut self, shield: &ThinShield, deferred: D) -> (r: Vec<D>)
        requires
            old(self).wf(),
            shield.tid_spec() < old(self).participants(),
            old(self).shields(shield.tid_spec() as int) > 0,
            old(self).pending() < usize::MAX,
        ensures
            final(self).wf(),
            forall|t: int| #[trigger] final(self).shields(t) == old(self).shields(t),
            final(self).bag_len(shield.tid_spec() as int) < BAG_SIZE,
            final(self).participants() == old(self).participants(),
            final(self).full_shields() == old(self).full_shields(),
            final(self).pending() + r@.len() == old(self).pending() + 1,
            final(self).released().len() == r@.len(),
            final(self).released_safely(),
            final(self).released_old(),
            final(self).pending_items().add(r@.to_multiset()) == old(self).pending_items().insert(
                deferred,
            ),
            r@.to_multiset().subset_of(old(self).pending_items()),
            final(self).bag_len(shield.tid_spec() as int) == 0 && old(self).garbage_amount_spec()
                + BAG_SIZE > old(self).ceiling_spec() ==> (final(self).advances() == old(self).advances() + 1 <==> old(self).all_synced()),
            final(self).bag_len(shield.tid_spec() as int) != 0 || old(self).garbage_amount_spec()
                + BAG_SIZE <= old(self).ceiling_spec() ==> final(self).advances() == old(
                self,
            ).advances(),
            final(self).pending_stamped().add(final(self).handed_stamped(r@)) == old(self).pending_stamped().insert(
                (deferred, old(self).advances()),
            ),
    {
        let tid = shield.tid;
        self.released = Ghost(Seq::empty());
        let a: Ghost<nat> = Ghost(self.advances@);
        let now = self.global_epoch;
        let (ready, sealed, stamps) = self.threads[tid].retire(deferred, now, a);
        proof {
            lemma_locals_total_update(old(self).threads@, tid as int, self.threads@[tid as int]);
            lemma_locals_items_update(old(self).threads@, tid as int, self.threads@[tid as int]);
            let lo = locals_items(old(self).threads@);
            let ln = locals_items(self.threads@);
            let oi = old(self).threads@[tid as int].pending_items();
            let ni = self.threads@[tid as int].pending_items();
            let lhs = self.pending_items().add(ready@.to_multiset()).add(sealed_items(sealed));
            let rhs = old(self).pending_items().insert(deferred);
            assert forall|x: D| #[trigger] lhs.count(x) == rhs.count(x) by {
                assert(ln.add(oi).count(x) == lo.add(ni).count(x));
                assert(ni.add(ready@.to_multiset()).add(sealed_items(sealed)).count(x) == oi.insert(
                    deferred,
                ).count(x));
            }
            assert(lhs =~= rhs);
            lemma_locals_stamped_update(old(self).threads@, tid as int, self.threads@[tid as int]);
            let slo = locals_stamped(old(self).threads@);
            let sln = locals_stamped(self.threads@);
            let soi = old(self).threads@[tid as int].pending_stamped();
            let sni = self.threads@[tid as int].pending_stamped();
            let tz = zip_stamps(ready@, stamps@).to_multiset();
            let slhs = self.pending_stamped().add(tz).add(sealed_stamped(sealed));
            let srhs = old(self).pending_stamped().insert((deferred, old(self).advances()));
            assert forall|x: (D, nat)| #[trigger] slhs.count(x) == srhs.count(x) by {
                assert(sln.add(soi).count(x) == slo.add(sni).count(x));
                assert(sni.add(tz).add(sealed_stamped(sealed)).count(x) == soi.insert(
                    (deferred, a@),
                ).count(x));
            }
            assert(slhs =~= srhs);
            lemma_threads_wf_update(old(self).threads@, self.threads@, tid as int, self.advances@);
            assert(self.all_synced() == old(self).all_synced()) by {
                if old(self).all_synced() {
                    assert forall|j: int| 0 <= j < self.threads@.len() implies (
                    !#[trigger] self.threads@[j].epoch_spec().pinned_flag()
                        || self.threads@[j].epoch_spec().value() == self.global_epoch.value()) by {
                        if j != tid {
                            assert(self.threads@[j] == old(self).threads@[j]);
                        }
                    }
                } else if !(!self.ct.epoch_spec().pinned_flag() || self.ct.epoch_spec().value()
                    == self.global_epoch.value()) {
                } else {
                    let j = choose|j: int|
                        0 <= j < old(self).threads@.len() && !(
                        !#[trigger] old(self).threads@[j].epoch_spec().pinned_flag()
                            || old(self).threads@[j].epoch_spec().value()
                            == old(self).global_epoch.value());
                    if j != tid {
                        assert(self.threads@[j] == old(self).threads@[j]);
                    }
                    assert(self.threads@[j].epoch_spec() == old(self).threads@[j].epoch_spec());
                }
            }
            if sealed is Some {
                assert(sealed->Some_0.items().len() == BAG_SIZE);
            } else {
                assert(self.threads@[tid as int].bag_spec().items().len() >= 1);
            }
        }
        let ghost mid = *self;
        let ghost ready_items = ready@.to_multiset();
        let ghost tz = zip_stamps(ready@, stamps@).to_multiset();
        let mut out = ready;
        self.released = stamps;
        match sealed {
            Some(bag) => {
                self.retire_bag(bag, &mut out);
                proof {
                    let lhs = self.pending_items().add(out@.to_multiset());
                    let rhs = old(self).pending_items().insert(deferred);
                    assert forall|x: D| #[trigger] lhs.count(x) == rhs.count(x) by {
                        assert(mid.pending_items().add(ready_items).add(sealed_items(sealed)).count(x)
                            == rhs.count(x));
                    }
                    assert(lhs =~= rhs);
                    let slhs = self.pending_stamped().add(self.handed_stamped(out@));
                    let srhs = old(self).pending_stamped().insert((deferred, old(self).advances()));
                    assert forall|x: (D, nat)| #[trigger] slhs.count(x) == srhs.count(x) by {
                        assert(mid.pending_stamped().add(tz).add(sealed_stamped(sealed)).count(x)
                            == srhs.count(x));
                    }
                    assert(slhs =~= srhs);
                }
            },
            None => {
                proof {
                    assert(mid.pending_items().add(ready_items).add(Multiset::<D>::empty())
                        =~= mid.pending_items().add(ready_items));
                    lemma_locals_items_at(self.threads@, tid as int, deferred);
                    assert(mid.pending_stamped().add(tz).add(Multiset::<(D, nat)>::empty())
                        =~= mid.pending_stamped().add(tz));
                }
            },
        }
        proof {
            assert(self.pending_items().count(deferred) >= 1);
            let eq_l = self.pending_items().add(out@.to_multiset());
            let eq_r = old(self).pending_items().insert(deferred);
            assert forall|x: D| #[trigger] out@.to_multiset().count(x) <= old(self).pending_items().count(
                x,
            ) by {
                assert(eq_l.count(x) == eq_r.count(x));
            }
            self.lemma_released_safely();
        }
        out
    }

    /// Seals the bag of the participant of `shield`, if it holds anything, and queues it.
    /// Returns the work that became safe to run, oldest first.
    pub fn flush(&mut self, shield: &ThinShield) -> (r: Vec<D>)
        requires
            old(self).wf(),
            shield.tid_spec() < old(self).participants(),
            old(self).shields(shield.tid_spec() as int) > 0,
        ensures
            final(self).wf(),
            forall|t: int| #[trigger] final(self).shields(t) == old(self).shields(t),
            final(self).bag_len(shield.tid_spec() as int) == 0,
            final(self).participants() == old(self).participants(),
            final(self).full_shields() == old(self).full_shields(),
            final(self).pending() + r@.len() == old(self).pending(),
            final(self).released().len() == r@.len(),
            final(self).released_safely(),
            final(self).released_old(),
            final(self).pending_items().add(r@.to_multiset()) == old(self).pending_items(),
            final(self).pending_stamped().add(final(self).handed_stamped(r@)) == old(self).pending_stamped(),
    {
        let tid = shield.tid;
        self.released = Ghost(Seq::empty());
        let a: Ghost<nat> = Ghost(self.advances@);
        let sealed = self.threads[tid].flush(a);
        proof {
            lemma_locals_total_update(old(self).threads@, tid as int, self.threads@[tid as int]);
            lemma_locals_items_update(old(self).threads@, tid as int, self.threads@[tid as int]);
            lemma_threads_wf_update(old(self).threads@, self.threads@, tid as int, self.advances@);
            let lo = locals_items(old(self).threads@);
            let ln = locals_items(self.threads@);
            let oi = old(self).threads@[tid as int].pending_items();
            let ni = self.threads@[tid as int].pending_items();
            let lhs = self.pending_items().add(sealed_items(sealed));
            assert forall|x: D| #[trigger] lhs.count(x) == old(self).pending_items().count(x) by {
                assert(ln.add(oi).count(x) == lo.add(ni).count(x));
            }
            assert(lhs =~= old(self).pending_items());
            lemma_locals_stamped_update(old(self).threads@, tid as int, self.threads@[tid as int]);
            let slo = locals_stamped(old(self).threads@);
            let sln = locals_stamped(self.threads@);
            let soi = old(self).threads@[tid as int].pending_stamped();
            let sni = self.threads@[tid as int].pending_stamped();
            let slhs = self.pending_stamped().add(sealed_stamped(sealed));
            assert forall|x: (D, nat)| #[trigger] slhs.count(x) == old(self).pending_stamped().count(
                x,
            ) by {
                assert(sln.add(soi).count(x) == slo.add(sni).count(x));
            }
            assert(slhs =~= old(self).pending_stamped());
        }
        let ghost mid = *self;
        let mut out: Vec<D> = Vec::new();
        proof {
            lemma_no_items(out@);
            lemma_no_items(zip_stamps(out@, self.released@));
        }
        match sealed {
            Some(bag) => {
                self.retire_bag(bag, &mut out);
                proof {
                    assert(self.pending_items().add(out@.to_multiset()) =~= old(self).pending_items());
                    assert(self.pending_stamped().add(self.handed_stamped(out@)) =~= old(
                        self,
                    ).pending_stamped());
                }
            },
            None => {
                proof {
                    assert(self.pending_items().add(out@.to_multiset()) =~= old(self).pending_items());
                    assert(self.pending_stamped().add(self.handed_stamped(out@)) =~= old(
                        self,
                    ).pending_stamped());
                }
            },
        }
        proof {
            self.lemma_released_safely();
        }
        out
    }

    /// Leaves and re-enters the critical section of the participant of `shield`, so that the
    /// epoch may advance; effective only when this is its only live shield. Returns the work that
    /// became safe to run, oldest first.
    pub fn repin(&mut self, shield: &ThinShield) -> (r: Vec<D>)
        requires
            old(self).wf(),
            shield.tid_spec() < old(self).participants(),
            old(self).shields(shield.tid_spec() as int) > 0,
        ensures
            final(self).wf(),
            forall|t: int| #[trigger] final(self).shields(t) == old(self).shields(t),
            final(self).participants() == old(self).participants(),
            final(self).full_shields() == old(self).full_shields(),
            final(self).pending() + r@.len() == old(self).pending(),
            final(self).released().len() == r@.len(),
            final(self).released_safely(),
            final(self).released_old(),
            final(self).pending_items().add(r@.to_multiset()) == old(self).pending_items(),
            old(self).shields(shield.tid_spec() as int) == 1 ==> final(self).pin_stamp(
                shield.tid_spec() as int,
            ) == final(self).advances(),
            final(self).pending_stamped().add(final(self).handed_stamped(r@)) == old(self).pending_stamped(),
    {
        let mut out: Vec<D> = Vec::new();
        self.released = Ghost(Seq::empty());
        self.exit_thin(shield.tid, &mut out);
        self.enter_thin(shield.tid);
        proof {
            self.lemma_released_safely();
        }
        out
    }

    /// Like `repin`, running `f` while the participant of `shield` is outside its critical
    /// section. Returns the work that became safe to run and what `f` returned.
    pub fn repin_after<F: FnOnce() -> R, R>(&mut self, shield: &ThinShield, f: F) -> (r: (
        Vec<D>,
        R,
    ))
        requires
            old(self).wf(),
            shield.tid_spec() < old(self).participants(),
            old(self).shields(shield.tid_spec() as int) > 0,
            f.requires(()),
        ensures
            final(self).wf(),
            forall|t: int| #[trigger] final(self).shields(t) == old(self).shields(t),
            final(self).participants() == old(self).participants(),
            final(self).full_shields() == old(self).full_shields(),
            final(self).pending() + r.0@.len() == old(self).pending(),
            final(self).released().len() == r.0@.len(),
            final(self).released_safely(),
            f.ensures((), r.1),
            final(self).released_old(),
            final(self).pending_items().add(r.0@.to_multiset()) == old(self).pending_items(),
            old(self).shields(shield.tid_spec() as int) == 1 ==> final(self).pin_stamp(
                shield.tid_spec() as int,
            ) == final(self).advances(),
            final(self).pending_stamped().add(final(self).handed_stamped(r.0@)) == old(self).pending_stamped(),
    {
        let mut out: Vec<D> = Vec::new();
        self.released = Ghost(Seq::empty());
        self.exit_thin(shield.tid, &mut out);
        let value = f();
        self.enter_thin(shield.tid);
        proof {
            self.lemma_released_safely();
        }
        (out, value)
    }
    /// Records a new live full shield on the shared participant.
    fn enter_full(&mut self)
        requires
            old(self).wf(),
            old(self).full_shields() < usize::MAX,
        ensures
            final(self).wf(),
            final(self).full_shields() == shield_step(old(self).full_shields(), true),
            old(self).full_shields() == 0 ==> final(self).full_pin_stamp() == old(self).advances(),
            old(self).full_shields() > 0 ==> final(self).full_pin_stamp() == old(
                self,
            ).full_pin_stamp(),
            final(self).threads == old(self).threads,
            forall|t: int| #[trigger] final(self).shields(t) == old(self).shields(t),
            forall|t: int| #[trigger] final(self).pin_stamp(t) == old(self).pin_stamp(t),
            final(self).pending() == old(self).pending(),
            final(self).advances == old(self).advances,
            final(self).global_epoch == old(self).global_epoch,
            final(self).released == old(self).released,
            final(self).garbage == old(self).garbage,
            final(self).garbage_amount == old(self).garbage_amount,
            final(self).ceiling == old(self).ceiling,
            final(self).all_synced() == old(self).all_synced(),
            final(self).pending_items() == old(self).pending_items(),
            final(self).pending_stamped() == old(self).pending_stamped(),
    {
        let a: Ghost<nat> = Ghost(self.advances@);
        let global = self.global_epoch;
        self.ct.enter(global, a);
        proof {
            old(self).ct.lemma_pinned_iff_shields(self.advances@);
        }
    }

    /// Drops a live full shield; when it was the last, tries to collect into `out` if garbage is
    /// waiting.
    fn exit_full(&mut self, out: &mut Vec<D>)
        requires
            old(self).wf(),
            old(self).full_shields() > 0,
            old(self).released_aged(),
            old(out)@.len() == old(self).released@.len(),
        ensures
            final(self).wf(),
            final(self).released_aged(),
            final(out)@.len() == final(self).released@.len(),
            final(self).pending() + final(out)@.len() == old(self).pending() + old(out)@.len(),
            final(self).full_shields() == shield_step(old(self).full_shields(), false),
            final(self).full_shields() < usize::MAX,
            forall|t: int| #[trigger] final(self).shields(t) == old(self).shields(t),
            forall|t: int| #[trigger] final(self).bag_len(t) == old(self).bag_len(t),
            forall|t: int| #[trigger] final(self).pin_stamp(t) == old(self).pin_stamp(t),
            final(self).participants() == old(self).participants(),
            final(self).full_pin_stamp() == old(self).full_pin_stamp(),
            final(self).ceiling == old(self).ceiling,
            final(self).pending_items().add(final(out)@.to_multiset()) == old(self).pending_items().add(
                old(out)@.to_multiset(),
            ),
            final(self).advances() <= old(self).advances() + 1,
            final(self).advances() == old(self).advances() + 1 ==> old(self).full_shields() == 1
                && old(self).garbage_amount_spec() > 0,
            old(self).full_shields() == 1 && old(self).garbage_amount_spec() > 0 && old(self).threads_synced()
                ==> final(self).advances() == old(self).advances() + 1,
            final(self).pending_stamped().add(final(self).handed_stamped(final(out)@)) == old(self).pending_stamped().add(
                old(self).handed_stamped(old(out)@),
            ),
    {
        let a: Ghost<nat> = Ghost(self.advances@);
        self.ct.exit(a);
        proof {
            self.lemma_all_synced_iff();
            if old(self).threads_synced() {
                assert forall|t: int|
                    0 <= t < self.participants() && self.shields(t) > 0 implies #[trigger] self.pin_stamp(t)
                    == self.advances() by {
                    assert(self.threads@ == old(self).threads@);
                    assert(old(self).shields(t) > 0);
                    assert(old(self).pin_stamp(t) == old(self).advances());
                }
            }
        }
        if self.ct.shield_count() == 0 && self.should_advance() {
            self.try_cycle(out);
        }
    }

    /// Creates a full shield: one that may move between threads.
    pub fn full_shield(&mut self) -> (r: FullShield)
        requires
            old(self).wf(),
            old(self).full_shields() < usize::MAX,
        ensures
            final(self).wf(),
            final(self).full_shields() == shield_step(old(self).full_shields(), true),
            forall|t: int| #[trigger] final(self).shields(t) == old(self).shields(t),
            final(self).participants() == old(self).participants(),
            final(self).pending() == old(self).pending(),
            final(self).advances() == old(self).advances(),
            final(self).pending_items() == old(self).pending_items(),
            old(self).full_shields() == 0 ==> final(self).full_pin_stamp() == final(self).advances(),
            final(self).pending_stamped() == old(self).pending_stamped(),
    {
        self.enter_full();
        FullShield { _private: () }
    }

    /// A second full shield.
    pub fn clone_full(&mut self, shield: &FullShield) -> (r: FullShield)
        requires
            old(self).wf(),
            0 < old(self).full_shields() < usize::MAX,
        ensures
            final(self).wf(),
            final(self).full_shields() == shield_step(old(self).full_shields(), true),
            forall|t: int| #[trigger] final(self).shields(t) == old(self).shields(t),
            final(self).participants() == old(self).participants(),
            final(self).pending() == old(self).pending(),
            final(self).advances() == old(self).advances(),
            final(self).pending_items() == old(self).pending_items(),
            final(self).full_pin_stamp() == old(self).full_pin_stamp(),
            final(self).pending_stamped() == old(self).pending_stamped(),
    {
        self.enter_full();
        FullShield { _private: () }
    }

    /// Drops a full shield. Returns the work that became safe to run, oldest first.
    pub fn drop_full(&mut self, shield: FullShield) -> (r: Vec<D>)
        requires
            old(self).wf(),
            old(self).full_shields() > 0,
        ensures
            final(self).wf(),
            final(self).full_shields() == shield_step(old(self).full_shields(), false),
            forall|t: int| #[trigger] final(self).shields(t) == old(self).shields(t),
            final(self).participants() == old(self).participants(),
            final(self).pending() + r@.len() == old(self).pending(),
            final(self).released().len() == r@.len(),
            final(self).released_safely(),
            final(self).released_old(),
            final(self).pending_items().add(r@.to_multiset()) == old(self).pending_items(),
            final(self).advances() <= old(self).advances() + 1,
            final(self).advances() == old(self).advances() + 1 ==> old(self).full_shields() == 1
                && old(self).garbage_amount_spec() > 0,
            old(self).full_shields() == 1 && old(self).garbage_amount_spec() > 0 && old(self).threads_synced()
                ==> final(self).advances() == old(self).advances() + 1,
            final(self).pending_stamped().add(final(self).handed_stamped(r@)) == old(self).pending_stamped(),
    {
        let mut out: Vec<D> = Vec::new();
        self.released = Ghost(Seq::empty());
        proof {
            assert forall|t: int| #[trigger] self.pin_stamp(t) == old(self).pin_stamp(t)
                && self.shields(t) == old(self).shields(t) by {}
            assert(self.advances() == old(self).advances());
            assert(self.participants() == old(self).participants());
            if old(self).threads_synced() {
                assert forall|t: int|
                    0 <= t < self.participants() && self.shields(t) > 0 implies #[trigger] self.pin_stamp(t)
                    == self.advances() by {
                    assert(old(self).shields(t) > 0);
                    assert(old(self).pin_stamp(t) == old(self).advances());
                }
            }
        }
        self.exit_full(&mut out);
        proof {
            self.lemma_released_safely();
        }
        out
    }

    /// Schedules `deferred` through a full shield. Returns the work that became safe to run,
    /// oldest first.
    pub fn retire_full(&mut self, shield: &FullShield, deferred: D) -> (r: Vec<D>)
        requires
            old(self).wf(),
            old(self).full_shields() > 0,
            old(self).pending() < usize::MAX,
        ensures
            final(self).wf(),
            final(self).full_shields() == old(self).full_shields(),
            forall|t: int| #[trigger] final(self).shields(t) == old(self).shields(t),
            final(self).participants() == old(self).participants(),
            final(self).pending() + r@.len() == old(self).pending() + 1,
            final(self).released().len() == r@.len(),
            final(self).released_safely(),
            final(self).released_old(),
            final(self).pending_items().add(r@.to_multiset()) == old(self).pending_items().insert(
                deferred,
            ),
            r@.to_multiset().subset_of(old(self).pending_items()),
            final(self).full_bag_len() == 0 && old(self).garbage_amount_spec()
                + BAG_SIZE > old(self).ceiling_spec() ==> (final(self).advances() == old(self).advances() + 1 <==> old(self).all_synced()),
            final(self).full_bag_len() != 0 || old(self).garbage_amount_spec()
                + BAG_SIZE <= old(self).ceiling_spec() ==> final(self).advances() == old(
                self,
            ).advances(),
            final(self).pending_stamped().add(final(self).handed_stamped(r@)) == old(self).pending_stamped().insert(
                (deferred, old(self).advances()),
            ),
    {
        self.released = Ghost(Seq::empty());
        let a: Ghost<nat> = Ghost(self.advances@);
        let now = self.global_epoch;
        let (ready, sealed, stamps) = self.ct.retire(deferred, now, a);
        let ghost mid = *self;
        let ghost ready_items = ready@.to_multiset();
        let ghost tz = zip_stamps(ready@, stamps@).to_multiset();
        proof {
            let slhs = self.pending_stamped().add(tz).add(sealed_stamped(sealed));
            let srhs = old(self).pending_stamped().insert((deferred, old(self).advances()));
            assert forall|x: (D, nat)| #[trigger] slhs.count(x) == srhs.count(x) by {
                assert(self.ct.pending_stamped().add(tz).add(sealed_stamped(sealed)).count(x)
                    == old(self).ct.pending_stamped().insert((deferred, a@)).count(x));
            }
            assert(slhs =~= srhs);
            let lhs = self.pending_items().add(ready_items).add(sealed_items(sealed));
            let rhs = old(self).pending_items().insert(deferred);
            assert forall|x: D| #[trigger] lhs.count(x) == rhs.count(x) by {
                assert(self.ct.pending_items().add(ready_items).add(sealed_items(sealed)).count(x)
                    == old(self).ct.pending_items().insert(deferred).count(x));
            }
            assert(lhs =~= rhs);
        }
        let mut out = ready;
        self.released = stamps;
        match sealed {
            Some(bag) => {
                self.retire_bag(bag, &mut out);
                proof {
                    let lhs = self.pending_items().add(out@.to_multiset());
                    let rhs = old(self).pending_items().insert(deferred);
                    assert forall|x: D| #[trigger] lhs.count(x) == rhs.count(x) by {
                        assert(mid.pending_items().add(ready_items).add(sealed_items(sealed)).count(x)
                            == rhs.count(x));
                    }
                    assert(lhs =~= rhs);
                    let slhs = self.pending_stamped().add(self.handed_stamped(out@));
                    let srhs = old(self).pending_stamped().insert((deferred, old(self).advances()));
                    assert forall|x: (D, nat)| #[trigger] slhs.count(x) == srhs.count(x) by {
                        assert(mid.pending_stamped().add(tz).add(sealed_stamped(sealed)).count(x)
                            == srhs.count(x));
                    }
                    assert(slhs =~= srhs);
                }
            },
            None => {
                proof {
                    assert(mid.pending_items().add(ready_items).add(Multiset::<D>::empty())
                        =~= mid.pending_items().add(ready_items));
                    assert(mid.pending_stamped().add(tz).add(Multiset::<(D, nat)>::empty())
                        =~= mid.pending_stamped().add(tz));
                }
            },
        }
        proof {
            assert(self.pending_items().count(deferred) >= 1);
            let eq_l = self.pending_items().add(out@.to_multiset());
            let eq_r = old(self).pending_items().insert(deferred);
            assert forall|x: D| #[trigger] out@.to_multiset().count(x) <= old(self).pending_items().count(
                x,
            ) by {
                assert(eq_l.count(x) == eq_r.count(x));
            }
            self.lemma_released_safely();
        }
        out
    }

    /// Seals the shared participant's bag, if it holds anything, and queues it. Returns the work
    /// that became safe to run, oldest first.
    pub fn flush_full(&mut self, shield: &FullShield) -> (r: Vec<D>)
        requires
            old(self).wf(),
            old(self).full_shields() > 0,
        ensures
            final(self).wf(),
            final(self).full_shields() == old(self).full_shields(),
            final(self).full_bag_len() == 0,
            forall|t: int| #[trigger] final(self).shields(t) == old(self).shields(t),
            final(self).participants() == old(self).participants(),
            final(self).pending() + r@.len() == old(self).pending(),
            final(self).released().len() == r@.len(),
            final(self).released_safely(),
            final(self).released_old(),
            final(self).pending_items().add(r@.to_multiset()) == old(self).pending_items(),
            final(self).pending_stamped().add(final(self).handed_stamped(r@)) == old(self).pending_stamped(),
    {
        self.released = Ghost(Seq::empty());
        let a: Ghost<nat> = Ghost(self.advances@);
        let sealed = self.ct.flush(a);
        let mut out: Vec<D> = Vec::new();
        match sealed {
            Some(bag) => {
                self.retire_bag(bag, &mut out);
            },
            None => {},
        }
        proof {
            self.lemma_released_safely();
        }
        out
    }

    /// Leaves and re-enters the shared participant's critical section. Returns the work that
    /// became safe to run, oldest first.
    pub fn repin_full(&mut self, shield: &FullShield) -> (r: Vec<D>)
        requires
            old(self).wf(),
            old(self).full_shields() > 0,
        ensures
            final(self).wf(),
            final(self).full_shields() == old(self).full_shields(),
            forall|t: int| #[trigger] final(self).shields(t) == old(self).shields(t),
            final(self).participants() == old(self).participants(),
            final(self).pending() + r@.len() == old(self).pending(),
            final(self).released().len() == r@.len(),
            final(self).released_safely(),
            final(self).released_old(),
            final(self).pending_items().add(r@.to_multiset()) == old(self).pending_items(),
            old(self).full_shields() == 1 ==> final(self).full_pin_stamp() == final(self).advances(),
            final(self).pending_stamped().add(final(self).handed_stamped(r@)) == old(self).pending_stamped(),
    {
        let mut out: Vec<D> = Vec::new();
        self.released = Ghost(Seq::empty());
        self.exit_full(&mut out);
        self.enter_full();
        proof {
            self.lemma_released_safely();
        }
        out
    }

    /// Pins participant `tid` for the duration of one attempt to advance the global epoch and
    /// collect the garbage queue; the participant's own bag is sealed and queued first. Returns
    /// the collected work, oldest first, if the epoch advanced; it advances exactly when every
    /// pinned participant pinned in the current epoch.
    pub fn try_collect_light(&mut self, tid: usize) -> (r: Option<Vec<D>>)
        requires
            old(self).wf(),
            tid < MAX_THREADS,
            old(self).shields(tid as int) < usize::MAX,
        ensures
            final(self).wf(),
            r is Some <==> old(self).all_synced(),
            r is Some ==> final(self).advances() == old(self).advances() + 1,
            r is None ==> final(self).advances() == old(self).advances() && final(self).pending()
                == old(self).pending() && final(self).released().len() == 0,
            r is Some ==> final(self).pending() + r->Some_0@.len() == old(self).pending()
                && final(self).released().len() == r->Some_0@.len() && !final(self).head_ready(),
            forall|t: int| #[trigger] final(self).shields(t) == old(self).shields(t),
            final(self).bag_len(tid as int) == 0,
            final(self).full_shields() == old(self).full_shields(),
            final(self).released_safely(),
            final(self).released_old(),
            r is Some ==> final(self).pending_items().add(r->Some_0@.to_multiset()) == old(
                self,
            ).pending_items(),
            r is None ==> final(self).pending_items() == old(self).pending_items(),
            r is Some ==> final(self).pending_stamped().add(final(self).handed_stamped(r->Some_0@)) == old(self).pending_stamped(),
            r is None ==> final(self).pending_stamped() == old(self).pending_stamped(),
    {
        self.released = Ghost(Seq::empty());
        let mut out: Vec<D> = Vec::new();
        self.local_state(tid);
        let ghost registered = *self;
        self.enter_thin(tid);
        let ghost pinned_state = *self;
        let a: Ghost<nat> = Ghost(self.advances@);
        let sealed = self.threads[tid].flush(a);
        proof {
            lemma_locals_total_update(pinned_state.threads@, tid as int, self.threads@[tid as int]);
            lemma_locals_items_update(pinned_state.threads@, tid as int, self.threads@[tid as int]);
            let lo = locals_items(pinned_state.threads@);
            let ln = locals_items(self.threads@);
            let oi = pinned_state.threads@[tid as int].pending_items();
            let ni = self.threads@[tid as int].pending_items();
            let lhs = self.pending_items().add(sealed_items(sealed));
            assert forall|x: D| #[trigger] lhs.count(x) == pinned_state.pending_items().count(x) by {
                assert(ln.add(oi).count(x) == lo.add(ni).count(x));
            }
            assert(lhs =~= pinned_state.pending_items());
            lemma_locals_stamped_update(pinned_state.threads@, tid as int, self.threads@[tid as int]);
            let slo = locals_stamped(pinned_state.threads@);
            let sln = locals_stamped(self.threads@);
            let soi = pinned_state.threads@[tid as int].pending_stamped();
            let sni = self.threads@[tid as int].pending_stamped();
            let slhs = self.pending_stamped().add(sealed_stamped(sealed));
            assert forall|x: (D, nat)| #[trigger] slhs.count(x) == pinned_state.pending_stamped().count(
                x,
            ) by {
                assert(sln.add(soi).count(x) == slo.add(sni).count(x));
            }
            assert(slhs =~= pinned_state.pending_stamped());
            lemma_threads_wf_update(pinned_state.threads@, self.threads@, tid as int, self.advances@);
            assert forall|t: int| #[trigger] self.shields(t) == pinned_state.shields(t) by {
                if 0 <= t < self.threads@.len() && t != tid {
                    assert(self.threads@[t] == pinned_state.threads@[t]);
                }
            }
            assert(self.all_synced() == pinned_state.all_synced()) by {
                if !pinned_state.all_synced() && (!self.ct.epoch_spec().pinned_flag()
                    || self.ct.epoch_spec().value() == self.global_epoch.value()) {
                    let j = choose|j: int|
                        0 <= j < pinned_state.threads@.len() && !(
                        !#[trigger] pinned_state.threads@[j].epoch_spec().pinned_flag()
                            || pinned_state.threads@[j].epoch_spec().value()
                            == pinned_state.global_epoch.value());
                    if j != tid {
                        assert(self.threads@[j] == pinned_state.threads@[j]);
                    }
                }
                if pinned_state.all_synced() {
                    assert forall|j: int| 0 <= j < self.threads@.len() implies (
                    !#[trigger] self.threads@[j].epoch_spec().pinned_flag()
                        || self.threads@[j].epoch_spec().value() == self.global_epoch.value()) by {
                        if j != tid {
                            assert(self.threads@[j] == pinned_state.threads@[j]);
                        }
                    }
                }
            }
        }
        let ghost flushed = *self;
        match sealed {
            Some(bag) => {
                self.queue_bag(bag);
            },
            None => {
                proof {
                    assert(flushed.pending_items().add(Multiset::<D>::empty())
                        =~= flushed.pending_items());
                    assert(flushed.pending_stamped().add(Multiset::<(D, nat)>::empty())
                        =~= flushed.pending_stamped());
                }
            },
        }
        let ghost entered = *self;
        proof {
            assert(entered.pending_items() == pinned_state.pending_items());
            assert(entered.pending_stamped() == pinned_state.pending_stamped());
            lemma_no_items(out@);
            lemma_no_items(zip_stamps(out@, self.released@));
        }
        let cycled = self.try_cycle(&mut out);
        let a: Ghost<nat> = Ghost(self.advances@);
        let ghost mid = *self;
        proof {
            assert(mid.shields(tid as int) == entered.shields(tid as int));
            assert(mid.threads@[tid as int].wf_at(a@));
        }
        self.threads[tid].exit(a);
        proof {
            lemma_locals_total_update(mid.threads@, tid as int, self.threads@[tid as int]);
            lemma_locals_items_update(mid.threads@, tid as int, self.threads@[tid as int]);
            lemma_add_cancel(
                locals_items(self.threads@),
                locals_items(mid.threads@),
                mid.threads@[tid as int].pending_items(),
            );
            lemma_locals_stamped_update(mid.threads@, tid as int, self.threads@[tid as int]);
            lemma_add_cancel(
                locals_stamped(self.threads@),
                locals_stamped(mid.threads@),
                mid.threads@[tid as int].pending_stamped(),
            );
            assert(self.pending_items() == mid.pending_items());
            assert(mid.pending_items().add(out@.to_multiset()) == entered.pending_items().add(
                Multiset::<D>::empty(),
            ));
            assert(entered.pending_items().add(Multiset::<D>::empty()) =~= old(self).pending_items());
            if !cycled {
                assert(mid.pending_items().add(Multiset::<D>::empty()) =~= mid.pending_items());
            }
            assert(self.pending_stamped() == mid.pending_stamped());
            assert(mid.pending_stamped().add(mid.handed_stamped(out@)) == entered.pending_stamped().add(
                Multiset::<(D, nat)>::empty(),
            ));
            assert(entered.pending_stamped().add(Multiset::<(D, nat)>::empty()) =~= old(
                self,
            ).pending_stamped());
            assert(self.handed_stamped(out@) == mid.handed_stamped(out@));
            if !cycled {
                assert(mid.handed_stamped(out@) =~= Multiset::<(D, nat)>::empty());
                assert(mid.pending_stamped().add(Multiset::<(D, nat)>::empty())
                    =~= mid.pending_stamped());
            }
            lemma_threads_wf_update(mid.threads@, self.threads@, tid as int, self.advances@);
            assert forall|t: int| #[trigger] self.shields(t) == old(self).shields(t) by {
                assert(mid.shields(t) == entered.shields(t));
                assert(registered.shields(t) == old(self).shields(t));
                assert(entered.shields(t) == flushed.shields(t));
                assert(flushed.shields(t) == pinned_state.shields(t));
                if t != tid {
                    assert(pinned_state.shields(t) == registered.shields(t));
                    assert(self.shields(t) == mid.shields(t));
                } else {
                    assert(pinned_state.shields(t) == registered.shields(t) + 1);
                }
            }
            assert forall|t: int| #[trigger] self.pin_stamp(t) == mid.pin_stamp(t) by {
                if t != tid {
                    assert(self.pin_stamp(t) == mid.pin_stamp(t));
                }
            }
            assert(self.bag_len(tid as int) == mid.bag_len(tid as int));
            assert(mid.bag_len(tid as int) == entered.bag_len(tid as int));
            assert(entered.bag_len(tid as int) == flushed.bag_len(tid as int));
            self.lemma_released_safely();
        }
        if cycled {
            Some(out)
        } else {
            None
        }
    }

    /// Tears the collector down: every work item still waiting, on the garbage queue first, then
    /// in each participant's bag, whatever its epoch.
    pub fn drain(self) -> (r: Vec<D>)
        requires
            self.wf(),
        ensures
            r@.len() == self.pending(),
            r@.to_multiset() == self.pending_items(),
    {
        let ghost total = self.pending();
        let ghost all_items = self.pending_items();
        let ghost a = self.advances@;
        let mut this = self;
        let mut out: Vec<D> = Vec::new();
        proof {
            lemma_no_items(out@);
            assert(out@.to_multiset().add(this.pending_items()) =~= all_items);
        }
        while this.garbage.len() > 0
            invariant
                out@.to_multiset().add(this.pending_items()) == all_items,
                this.garbage_amount == bags_total(this.garbage.view()),
                forall|j: int|
                    0 <= j < this.threads@.len() ==> #[trigger] this.threads@[j].wf_at(a),
                this.ct.wf_at(a),
                out@.len() + this.pending() == total,
            decreases this.garbage.view().len(),
        {
            let ghost before = this.garbage.view();
            match this.garbage.pop() {
                Some(bag) => {
                    let n = bag.len();
                    let ghost head_items = bag.items();
                    let ghost out_before = out@;
                    proof {
                        assert(bags_items(before) == before[0].items().to_multiset().add(
                            bags_items(before.drop_first()),
                        ));
                    }
                    let mut items = bag.into_items();
                    this.garbage_amount = this.garbage_amount - n;
                    out.append(&mut items);
                    proof {
                        lemma_append_items(out_before, head_items, out@);
                        assert(out@.to_multiset().add(this.pending_items()) =~= all_items);
                    }
                },
                None => {},
            }
        }
        proof {
            assert(this.garbage.view() =~= Seq::<SealedBag<D>>::empty());
        }
        let n = this.threads.len();
        let mut i: usize = 0;
        while i < n
            invariant
                n == this.threads@.len(),
                i <= n,
                this.garbage_amount == 0,
                this.garbage.view().len() == 0,
                out@.to_multiset().add(this.pending_items()) == all_items,
                forall|j: int| 0 <= j < i ==> #[trigger] this.threads@[j].pending() == 0,
                forall|j: int|
                    0 <= j < this.threads@.len() ==> #[trigger] this.threads@[j].wf_at(a),
                this.ct.wf_at(a),
                out@.len() + this.pending() == total,
            decreases n - i,
        {
            let ghost before = this.threads@;
            let ghost pending_before = this.pending_items();
            let mut items = this.threads[i].take_bag(Ghost(a));
            proof {
                lemma_locals_total_update(before, i as int, this.threads@[i as int]);
                lemma_locals_items_update(before, i as int, this.threads@[i as int]);
                lemma_threads_wf_update(before, this.threads@, i as int, a);
                assert forall|j: int| 0 <= j < i + 1 implies #[trigger] this.threads@[j].pending()
                    == 0 by {
                    if j != i {
                        assert(this.threads@[j] == before[j]);
                    }
                }
            }
            let ghost out_before = out@;
            let ghost taken = items@;
            out.append(&mut items);
            proof {
                lemma_append_items(out_before, taken, out@);
                let lo = locals_items(before);
                let ln = locals_items(this.threads@);
                let oi = before[i as int].pending_items();
                let ni = this.threads@[i as int].pending_items();
                assert forall|x: D| #[trigger] out@.to_multiset().add(this.pending_items()).count(x)
                    == all_items.count(x) by {
                    assert(ln.add(oi).count(x) == lo.add(ni).count(x));
                    assert(out_before.to_multiset().add(pending_before).count(x) == all_items.count(x));
                }
                assert(out@.to_multiset().add(this.pending_items()) =~= all_items);
            }
            i = i + 1;
        }
        let ghost before_ct = this.pending_items();
        let ghost out_before = out@;
        let mut items = this.ct.take_bag(Ghost(a));
        let ghost taken = items@;
        out.append(&mut items);
        proof {
            lemma_locals_total_zero(this.threads@);
            lemma_locals_items_empty(this.threads@);
            lemma_append_items(out_before, taken, out@);
            assert(this.garbage.view() =~= Seq::<SealedBag<D>>::empty());
            assert(bags_items(this.garbage.view()) == Multiset::<D>::empty());
            assert(this.pending_items() =~= Multiset::<D>::empty());
            assert(out@.to_multiset() =~= all_items);
        }
        out
    }

    /// The global epoch.
    pub fn global_epoch(&self) -> (r: Epoch)
        ensures
            r == self.global_epoch_spec(),
    {
        self.global_epoch
    }

    /// Work items in sealed bags on the garbage queue.
    pub fn garbage_amount(&self) -> (r: usize)
        ensures
            r == self.garbage_amount_spec(),
    {
        self.garbage_amount
    }

    /// Sealed bags on the garbage queue.
    pub fn garbage_bag_count(&self) -> (r: usize)
        ensures
            r == self.garbage_bags(),
    {
        self.garbage.len()
    }

    /// Number of registered participants.
    pub fn participant_count(&self) -> (r: usize)
        ensures
            r == self.participants(),
    {
        self.threads.len()
    }

    /// Live thin shields of participant `tid`.
    pub fn shield_count(&self, tid: usize) -> (r: usize)
        ensures
            r == self.shields(tid as int),
    {
        if tid < self.threads.len() {
            self.threads[tid].shield_count()
        } else {
            0
        }
    }

    /// Whether participant `tid` has live shields, read from its epoch word.
    pub fn is_pinned(&self, tid: usize) -> (r: bool)
        requires
            self.wf(),
        ensures
            r == (self.shields(tid as int) > 0),
    {
        if tid < self.threads.len() {
            proof {
                self.threads@[tid as int].lemma_pinned_iff_shields(self.advances@);
            }
            self.threads[tid].is_pinned()
        } else {
            false
        }
    }

    /// Work items waiting in the bag of participant `tid`.
    pub fn local_bag_len(&self, tid: usize) -> (r: usize)
        ensures
            r == self.bag_len(tid as int),
    {
        if tid < self.threads.len() {
            self.threads[tid].bag_len()
        } else {
            0
        }
    }

    /// Live full shields.
    pub fn full_shield_count(&self) -> (r: usize)
        ensures
            r == self.full_shields(),
    {
        self.ct.shield_count()
    }

    /// Work items waiting in the shared participant's bag.
    pub fn full_bag_count(&self) -> (r: usize)
        ensures
            r == self.full_bag_len(),
    {
        self.ct.bag_len()
    }

    /// Every retired work item not handed out yet.
    pub fn pending_count(&self) -> (r: usize)
        requires
            self.wf(),
        ensures
            r == self.pending(),
    {
        let n = self.threads.len();
        let mut sum: usize = self.garbage_amount + self.ct.bag_len();
        let mut i: usize = 0;
        while i < n
            invariant
                n == self.threads@.len(),
                i <= n,
                self.wf(),
                sum == self.garbage_amount + self.ct.pending() + locals_total(
                    self.threads@.take(i as int),
                ),
            decreases n - i,
        {
            proof {
                assert(self.threads@.take(i + 1).drop_last() =~= self.threads@.take(i as int));
                lemma_locals_total_prefix(self.threads@, i as int + 1);
            }
            sum = sum + self.threads[i].bag_len();
            i = i + 1;
        }
        proof {
            assert(self.threads@.take(n as int) =~= self.threads@);
        }
        sum
    }
}

} // verus!
