//! A table of per-thread values indexed by thread id.

use crate::collector::MAX_THREADS;
use vstd::prelude::*;

verus! {

/// The values present in a table, in id order.
pub open spec fn values<T>(s: Seq<Option<T>>) -> Seq<T>
    decreases s.len(),
{
    if s.len() == 0 {
        Seq::empty()
    } else {
        values(s.drop_last()) + match s.last() {
            Some(v) => seq![v],
            None => Seq::empty(),
        }
    }
}

proof fn lemma_values_fill<T>(s: Seq<Option<T>>, i: int, v: T)
    requires
        0 <= i < s.len(),
        s[i] is None,
    ensures
        values(s.update(i, Some(v))).len() == values(s).len() + 1,
    decreases s.len(),
{
    if i == s.len() - 1 {
        assert(s.update(i, Some(v)).drop_last() =~= s.drop_last());
    } else {
        assert(s.update(i, Some(v)).drop_last() =~= s.drop_last().update(i, Some(v)));
        lemma_values_fill(s.drop_last(), i, v);
    }
}

proof fn lemma_values_len<T>(s: Seq<Option<T>>)
    ensures
        values(s).len() <= s.len(),
    decreases s.len(),
{
    if s.len() > 0 {
        lemma_values_len(s.drop_last());
    }
}

proof fn lemma_values_push_none<T>(s: Seq<Option<T>>)
    ensures
        values(s.push(None)) == values(s),
{
    assert(s.push(None).drop_last() =~= s);
    assert(values(s) + Seq::<T>::empty() =~= values(s));
}

/// The modification count of a table at one moment.
pub struct Snapshot(pub usize);

/// One value per thread id, created on the first request from that id. Ids index the table
/// directly, so they should be small and dense.
pub struct ThreadLocal<T> {
    entries: Vec<Option<T>>,
    len: usize,
    mod_acc: usize,
}

impl<T> ThreadLocal<T> {
    /// The slot of each id, in id order.
    pub closed spec fn view(&self) -> Seq<Option<T>> {
        self.entries@
    }

    /// Modification count: two for each value inserted.
    pub closed spec fn mod_acc_spec(&self) -> nat {
        self.mod_acc as nat
    }

    pub closed spec fn wf(&self) -> bool {
        &&& self.entries@.len() <= MAX_THREADS
        &&& self.len == values(self.entries@).len()
        &&& self.mod_acc == 2 * self.len
    }

    /// An empty table.
    pub fn new() -> (r: ThreadLocal<T>)
        ensures
            r.wf(),
            r.view() == Seq::<Option<T>>::empty(),
            r.mod_acc_spec() == 0,
    {
        let r = ThreadLocal { entries: Vec::new(), len: 0, mod_acc: 0 };
        assert(values(r.entries@) =~= Seq::<T>::empty());
        r
    }

    /// Number of values in the table.
    pub fn len(&self) -> (r: usize)
        requires
            self.wf(),
        ensures
            r == values(self.view()).len(),
    {
        self.len
    }

    /// The modification count: it changes with every value inserted.
    pub fn mod_acc(&self) -> (r: usize)
        ensures
            r == self.mod_acc_spec(),
    {
        self.mod_acc
    }

    /// The value of thread `id`, made by `create` if the thread has none yet.
    pub fn get<F: FnOnce() -> T>(&mut self, id: usize, create: F) -> (r: &T)
        requires
            old(self).wf(),
            id < MAX_THREADS,
            create.requires(()),
        ensures
            final(self).wf(),
            final(self).view().len() == if id < old(self).view().len() {
                old(self).view().len()
            } else {
                id as nat + 1
            },
            final(self).view()[id as int] == Some(*r),
            id < old(self).view().len() && old(self).view()[id as int] is Some ==> *r == old(
                self,
            ).view()[id as int]->Some_0 && final(self).view() == old(self).view()
                && final(self).mod_acc_spec() == old(self).mod_acc_spec(),
            !(id < old(self).view().len() && old(self).view()[id as int] is Some) ==> create.ensures(
                (),
                *r,
            ) && final(self).mod_acc_spec() == old(self).mod_acc_spec() + 2,
            forall|j: int|
                0 <= j < final(self).view().len() && j != id ==> #[trigger] final(self).view()[j]
                    == if j < old(self).view().len() {
                    old(self).view()[j]
                } else {
                    None
                },
    {
        while self.entries.len() <= id
            invariant
                self.wf(),
                id < MAX_THREADS,
                old(self).entries@.len() <= self.entries@.len() <= if id < old(
                    self,
                ).entries@.len() {
                    old(self).entries@.len()
                } else {
                    id as nat + 1
                },
                forall|j: int|
                    0 <= j < self.entries@.len() ==> #[trigger] self.entries@[j] == if j < old(
                        self,
                    ).entries@.len() {
                        old(self).entries@[j]
                    } else {
                        None
                    },
                self.len == old(self).len,
                self.mod_acc == old(self).mod_acc,
            decreases id + 1 - self.entries@.len(),
        {
            proof {
                lemma_values_push_none(self.entries@);
            }
            self.entries.push(None);
        }
        if self.entries[id].is_none() {
            let value = create();
            proof {
                lemma_values_fill(self.entries@, id as int, value);
                lemma_values_len(self.entries@);
            }
            self.entries.set(id, Some(value));
            self.len = self.len + 1;
            self.mod_acc = self.mod_acc + 2;
        }
        self.entries[id].as_ref().unwrap()
    }

    /// References to every value in the table, in id order.
    pub fn iter(&self) -> (r: Vec<&T>)
        ensures
            r@.len() == values(self.view()).len(),
            forall|k: int| 0 <= k < r@.len() ==> *#[trigger] r@[k] == values(self.view())[k],
    {
        let n = self.entries.len();
        let mut out: Vec<&T> = Vec::new();
        let mut i: usize = 0;
        while i < n
            invariant
                n == self.entries@.len(),
                i <= n,
                out@.len() == values(self.entries@.take(i as int)).len(),
                forall|k: int|
                    0 <= k < out@.len() ==> *#[trigger] out@[k] == values(
                        self.entries@.take(i as int),
                    )[k],
            decreases n - i,
        {
            proof {
                assert(self.entries@.take(i + 1).drop_last() =~= self.entries@.take(i as int));
            }
            match self.entries[i].as_ref() {
                Some(v) => {
                    out.push(v);
                },
                None => {},
            }
            i = i + 1;
        }
        proof {
            assert(self.entries@.take(n as int) =~= self.entries@);
        }
        out
    }

    /// The modification count now, to compare with later.
    pub fn snapshot(&self) -> (r: Snapshot)
        ensures
            r.0 == self.mod_acc_spec(),
    {
        Snapshot(self.mod_acc)
    }

    /// Whether a value was inserted since `snapshot` was taken.
    pub fn changed_since(&self, snapshot: &Snapshot) -> (r: bool)
        ensures
            r == (self.mod_acc_spec() != snapshot.0),
    {
        self.mod_acc != snapshot.0
    }
}

} // verus!
