//! A table of replay queues, one per key, that the trace audits rebuild
//! event by event.

use vstd::prelude::*;

verus! {

/// What a queue is keyed by.
pub trait LaneKey: Sized {
    /// The key as a mathematical value.
    type Id;

    spec fn id(&self) -> Self::Id;

    fn same(&self, other: &Self) -> (r: bool)
        ensures
            r == (self.id() == other.id()),
    ;
}

impl LaneKey for usize {
    type Id = usize;

    open spec fn id(&self) -> usize {
        *self
    }

    fn same(&self, other: &usize) -> (r: bool) {
        *self == *other
    }
}

/// One queue of the table.
struct Lane<K, V> {
    key: K,
    items: Vec<V>,
}

/// Queues by key; a key that was never written to has an empty queue.
pub struct Ledger<K: LaneKey, V> {
    lanes: Vec<Lane<K, V>>,
}

impl<K: LaneKey, V> Ledger<K, V> {
    /// No two lanes have the same key.
    pub closed spec fn wf(&self) -> bool {
        forall|i: int, j: int|
            #![trigger self.lanes@[i], self.lanes@[j]]
            0 <= i < j < self.lanes@.len() ==> self.lanes@[i].key.id() != self.lanes@[j].key.id()
    }

    spec fn lane_at(&self, i: int, id: K::Id) -> bool {
        0 <= i < self.lanes@.len() && self.lanes@[i].key.id() == id
    }

    /// The queue kept for `id`, head first.
    pub closed spec fn queue(&self, id: K::Id) -> Seq<V> {
        if exists|i: int| self.lane_at(i, id) {
            self.lanes@[choose|i: int| self.lane_at(i, id)].items@
        } else {
            Seq::empty()
        }
    }

    proof fn lemma_queue_at(&self, i: int, id: K::Id)
        requires
            self.wf(),
            self.lane_at(i, id),
        ensures
            self.queue(id) == self.lanes@[i].items@,
    {
        let j = choose|j: int| self.lane_at(j, id);
        if i < j {
            assert(self.lanes@[i].key.id() != self.lanes@[j].key.id());
        } else if j < i {
            assert(self.lanes@[j].key.id() != self.lanes@[i].key.id());
        }
    }

    /// A table with every queue empty.
    pub fn new() -> (r: Self)
        ensures
            r.wf(),
            forall|id: K::Id| #[trigger] r.queue(id) == Seq::<V>::empty(),
    {
        Ledger { lanes: Vec::new() }
    }

    fn find(&self, key: &K) -> (r: Option<usize>)
        requires
            self.wf(),
        ensures
            match r {
                Some(i) => self.lane_at(i as int, key.id()) && self.queue(key.id())
                    == self.lanes@[i as int].items@,
                None => self.queue(key.id()) == Seq::<V>::empty() && forall|i: int|
                    !self.lane_at(i, key.id()),
            },
    {
        let mut i: usize = 0;
        while i < self.lanes.len()
            invariant
                self.wf(),
                i <= self.lanes@.len(),
                forall|j: int| 0 <= j < i ==> self.lanes@[j].key.id() != key.id(),
            decreases self.lanes@.len() - i,
        {
            if self.lanes[i].key.same(key) {
                proof {
                    self.lemma_queue_at(i as int, key.id());
                }
                return Some(i);
            }
            i += 1;
        }
        None
    }

    /// The length of the queue of `key`.
    pub fn depth(&self, key: &K) -> (r: usize)
        requires
            self.wf(),
        ensures
            r == self.queue(key.id()).len(),
    {
        match self.find(key) {
            Some(i) => self.lanes[i].items.len(),
            None => 0,
        }
    }

    /// The item at `at` in the queue of `key`.
    pub fn item(&self, key: &K, at: usize) -> (r: &V)
        requires
            self.wf(),
            at < self.queue(key.id()).len(),
        ensures
            *r == self.queue(key.id())[at as int],
    {
        match self.find(key) {
            Some(i) => &self.lanes[i].items[at],
            None => {
                assert(false);
                &self.lanes[0].items[0]
            },
        }
    }

    /// Appends `item` to the queue of `key`.
    pub fn push(&mut self, key: K, item: V)
        requires
            old(self).wf(),
        ensures
            final(self).wf(),
            final(self).queue(key.id()) == old(self).queue(key.id()).push(item),
            forall|id: K::Id|
                id != key.id() ==> #[trigger] final(self).queue(id) == old(self).queue(id),
    {
        match self.find(&key) {
            Some(i) => {
                let ghost before = *self;
                self.lanes[i].items.push(item);
                proof {
                    let ghost after = *self;
                    assert(after.lanes@[i as int].key.id() == before.lanes@[i as int].key.id());
                    after.lemma_queue_at(i as int, key.id());
                    after.lemma_same_elsewhere(before, key.id());
                    assert(after.lane_at(i as int, key.id()));
                }
            },
            None => {
                let ghost before = *self;
                let mut items: Vec<V> = Vec::new();
                items.push(item);
                let ghost id = key.id();
                self.lanes.push(Lane { key, items });
                proof {
                    let ghost after = *self;
                    let last = after.lanes@.len() - 1;
                    assert forall|i: int, j: int|
                        #![trigger after.lanes@[i], after.lanes@[j]]
                        0 <= i < j < after.lanes@.len() implies after.lanes@[i].key.id()
                        != after.lanes@[j].key.id() by {
                        if j == last {
                            assert(!before.lane_at(i, id));
                        }
                    }
                    after.lemma_queue_at(last, id);
                    assert(after.queue(id) =~= before.queue(id).push(item));
                    assert(after.lane_at(last, id));
                    after.lemma_same_elsewhere(before, id);
                }
            },
        }
    }

    /// Takes the item at `at` out of the queue of `key`.
    pub fn remove(&mut self, key: &K, at: usize) -> (r: V)
        requires
            old(self).wf(),
            at < old(self).queue(key.id()).len(),
        ensures
            final(self).wf(),
            r == old(self).queue(key.id())[at as int],
            final(self).queue(key.id()) == old(self).queue(key.id()).remove(at as int),
            forall|id: K::Id|
                id != key.id() ==> #[trigger] final(self).queue(id) == old(self).queue(id),
    {
        match self.find(key) {
            Some(i) => {
                let ghost before = *self;
                let r = self.lanes[i].items.remove(at);
                proof {
                    let ghost after = *self;
                    assert(after.lanes@[i as int].key.id() == before.lanes@[i as int].key.id());
                    after.lemma_queue_at(i as int, key.id());
                    after.lemma_same_elsewhere(before, key.id());
                    assert(after.lane_at(i as int, key.id()));
                    assert(before.lane_at(i as int, key.id()));
                }
                r
            },
            None => {
                assert(false);
                self.lanes[0].items.remove(0)
            },
        }
    }

    proof fn lemma_same_elsewhere(&self, before: Self, id: K::Id)
        requires
            before.wf(),
            self.wf(),
            before.lanes@.len() <= self.lanes@.len(),
            forall|i: int|
                0 <= i < before.lanes@.len() ==> #[trigger] self.lanes@[i].key.id()
                    == before.lanes@[i].key.id(),
            forall|i: int|
                0 <= i < before.lanes@.len() && self.lanes@[i].key.id() != id ==> (
                #[trigger] self.lanes@[i]).items == before.lanes@[i].items,
            forall|i: int|
                before.lanes@.len() <= i < self.lanes@.len() ==> #[trigger] self.lanes@[i].key.id()
                    == id,
        ensures
            forall|other: K::Id|
                other != id ==> #[trigger] self.queue(other) == before.queue(other),
    {
        assert forall|other: K::Id| other != id implies #[trigger] self.queue(other)
            == before.queue(other) by {
            if exists|i: int| self.lane_at(i, other) {
                let i = choose|i: int| self.lane_at(i, other);
                assert(i < before.lanes@.len());
                assert(before.lane_at(i, other));
                before.lemma_queue_at(i, other);
                self.lemma_queue_at(i, other);
            } else {
                if exists|i: int| before.lane_at(i, other) {
                    let i = choose|i: int| before.lane_at(i, other);
                    assert(self.lanes@[i].key.id() == before.lanes@[i].key.id());
                    assert(self.lane_at(i, other));
                }
            }
        }
    }
}

} // verus!
