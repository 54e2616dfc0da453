//! A table of values by key that remembers the order in which the keys came in.

use crate::ledger::LaneKey;
use vstd::prelude::*;

verus! {

impl LaneKey for String {
    type Id = Seq<char>;

    open spec fn id(&self) -> Seq<char> {
        self@
    }

    fn same(&self, other: &String) -> (r: bool) {
        *self == *other
    }
}

/// Values by key, in the order in which the keys were first inserted.
#[derive(Clone, Debug)]
pub struct KeyMap<K: LaneKey, V> {
    keys: Vec<K>,
    values: Vec<V>,
}

/// Values by name.
pub type NameMap<V> = KeyMap<String, V>;

impl<K: LaneKey, V> View for KeyMap<K, V> {
    type V = Map<K::Id, V>;

    closed spec fn view(&self) -> Map<K::Id, V> {
        Map::new(
            |id: K::Id| exists|i: int| self.key_is(i, id),
            |id: K::Id| self.values@[choose|i: int| self.key_is(i, id)],
        )
    }
}

impl<K: LaneKey, V> KeyMap<K, V> {
    spec fn key_is(&self, i: int, id: K::Id) -> bool {
        0 <= i < self.keys@.len() && self.keys@[i].id() == id
    }

    /// Each key has one value.
    pub closed spec fn wf(&self) -> bool {
        &&& self.keys@.len() == self.values@.len()
        &&& forall|i: int, j: int|
            #![trigger self.keys@[i], self.keys@[j]]
            0 <= i < j < self.keys@.len() ==> self.keys@[i].id() != self.keys@[j].id()
    }

    /// The keys, oldest first.
    pub closed spec fn ids(&self) -> Seq<K::Id> {
        Seq::new(self.keys@.len(), |i: int| self.keys@[i].id())
    }

    proof fn lemma_at(&self, i: int)
        requires
            self.wf(),
            0 <= i < self.keys@.len(),
        ensures
            self@.dom().contains(self.keys@[i].id()),
            self@[self.keys@[i].id()] == self.values@[i],
    {
        let id = self.keys@[i].id();
        assert(self.key_is(i, id));
        let j = choose|j: int| self.key_is(j, id);
        if i < j {
            assert(self.keys@[i].id() != self.keys@[j].id());
        } else if j < i {
            assert(self.keys@[j].id() != self.keys@[i].id());
        }
    }

    /// The keys of a table are those that have a value, each once.
    pub proof fn lemma_ids(&self)
        requires
            self.wf(),
        ensures
            self.ids().no_duplicates(),
            forall|id: K::Id| #[trigger]
                self@.dom().contains(id) <==> self.ids().contains(id),
            forall|i: int|
                0 <= i < self.ids().len() ==> self@.dom().contains(#[trigger] self.ids()[i]),
    {
        assert forall|i: int, j: int|
            0 <= i < self.ids().len() && 0 <= j < self.ids().len() && i != j implies
            self.ids()[i] != self.ids()[j] by {
            if i < j {
                assert(self.keys@[i].id() != self.keys@[j].id());
            } else {
                assert(self.keys@[j].id() != self.keys@[i].id());
            }
        }
        assert forall|i: int| 0 <= i < self.ids().len() implies self@.dom().contains(
            #[trigger] self.ids()[i],
        ) by {
            assert(self.key_is(i, self.ids()[i]));
        }
        assert forall|id: K::Id| #[trigger]
            self@.dom().contains(id) <==> self.ids().contains(id) by {
            if self@.dom().contains(id) {
                let i = choose|i: int| self.key_is(i, id);
                assert(self.ids()[i] == id);
            }
        }
    }

    /// A table without keys.
    pub fn new() -> (r: KeyMap<K, V>)
        ensures
            r.wf(),
            r@ == Map::<K::Id, V>::empty(),
            r.ids() == Seq::<K::Id>::empty(),
    {
        let r = KeyMap { keys: Vec::new(), values: Vec::new() };
        assert(r@ =~= Map::<K::Id, V>::empty());
        r
    }

    /// How many keys there are.
    pub fn len(&self) -> (n: usize)
        requires
            self.wf(),
        ensures
            n == self.ids().len(),
    {
        self.keys.len()
    }

    /// Where `key` stands among the keys.
    pub fn find(&self, key: &K) -> (r: Option<usize>)
        requires
            self.wf(),
        ensures
            match r {
                Some(i) => i < self.ids().len() && self.ids()[i as int] == key.id()
                    && self@.dom().contains(key.id()),
                None => !self@.dom().contains(key.id()),
            },
    {
        let mut i: usize = 0;
        while i < self.keys.len()
            invariant
                self.wf(),
                i <= self.keys@.len(),
                forall|j: int| 0 <= j < i ==> (#[trigger] self.keys@[j]).id() != key.id(),
            decreases self.keys@.len() - i,
        {
            if self.keys[i].same(key) {
                proof {
                    self.lemma_at(i as int);
                }
                return Some(i);
            }
            i += 1;
        }
        None
    }

    /// The key at `i`.
    pub fn key_at(&self, i: usize) -> (r: &K)
        requires
            self.wf(),
            i < self.ids().len(),
        ensures
            r.id() == self.ids()[i as int],
    {
        &self.keys[i]
    }

    /// The value of the key at `i`.
    pub fn value_at(&self, i: usize) -> (r: &V)
        requires
            self.wf(),
            i < self.ids().len(),
        ensures
            *r == self@[self.ids()[i as int]],
    {
        proof {
            self.lemma_at(i as int);
        }
        &self.values[i]
    }

    /// The value of `key`.
    pub fn get(&self, key: &K) -> (r: Option<&V>)
        requires
            self.wf(),
        ensures
            match r {
                Some(v) => self@.dom().contains(key.id()) && *v == self@[key.id()],
                None => !self@.dom().contains(key.id()),
            },
    {
        match self.find(key) {
            Some(i) => Some(self.value_at(i)),
            None => None,
        }
    }

    /// Whether `key` has a value.
    pub fn contains(&self, key: &K) -> (r: bool)
        requires
            self.wf(),
        ensures
            r == self@.dom().contains(key.id()),
    {
        self.find(key).is_some()
    }

    /// The value of the key at `i`, to be changed in place.
    pub fn value_mut(&mut self, i: usize) -> (r: &mut V)
        requires
            old(self).wf(),
            i < old(self).ids().len(),
        ensures
            *r == old(self)@[old(self).ids()[i as int]],
            final(self).wf(),
            final(self).ids() == old(self).ids(),
            final(self)@ == old(self)@.insert(old(self).ids()[i as int], *final(r)),
    {
        proof {
            let before = *self;
            before.lemma_at(i as int);
            assert forall|after: KeyMap<K, V>, x: V|
                after.keys == before.keys && after.values@ == before.values@.update(
                    i as int,
                    x,
                ) implies after.wf() && after.ids() == before.ids() && #[trigger] after@
                == #[trigger] before@.insert(before.ids()[i as int], x) by {
                lemma_changed(before, after, i as int);
            }
        }
        &mut self.values[i]
    }

    /// Removes `key` and returns the value that it had.
    pub fn remove(&mut self, key: &K) -> (r: Option<V>)
        requires
            old(self).wf(),
        ensures
            final(self).wf(),
            final(self)@ == old(self)@.remove(key.id()),
            match r {
                Some(v) => old(self)@.dom().contains(key.id()) && v == old(self)@[key.id()],
                None => !old(self)@.dom().contains(key.id()),
            },
    {
        match self.find(key) {
            Some(i) => {
                let ghost before = *self;
                proof {
                    self.lemma_at(i as int);
                }
                self.keys.remove(i);
                let v = self.values.remove(i);
                proof {
                    lemma_removed(before, *self, i as int);
                }
                Some(v)
            },
            None => {
                assert(self@.remove(key.id()) =~= self@);
                None
            },
        }
    }

    /// Gives `key` the value `value`. Returns the value that it had.
    pub fn insert(&mut self, key: K, value: V) -> (r: Option<V>)
        requires
            old(self).wf(),
        ensures
            final(self).wf(),
            final(self)@ == old(self)@.insert(key.id(), value),
            match r {
                Some(v) => old(self)@.dom().contains(key.id()) && v == old(self)@[key.id()]
                    && final(self).ids() == old(self).ids(),
                None => !old(self)@.dom().contains(key.id()) && final(self).ids() == old(
                    self,
                ).ids().push(key.id()),
            },
    {
        match self.find(&key) {
            Some(i) => {
                let mut held = value;
                core::mem::swap(self.value_mut(i), &mut held);
                Some(held)
            },
            None => {
                let ghost before = *self;
                self.keys.push(key);
                self.values.push(value);
                proof {
                    assert(self.keys@.drop_last() =~= before.keys@);
                    assert(self.values@.drop_last() =~= before.values@);
                    lemma_added(before, *self);
                }
                None
            },
        }
    }
}

proof fn lemma_changed<K: LaneKey, V>(before: KeyMap<K, V>, after: KeyMap<K, V>, i: int)
    requires
        before.wf(),
        0 <= i < before.keys@.len(),
        after.keys == before.keys,
        after.values@ == before.values@.update(i, after.values@[i]),
    ensures
        after.wf(),
        after.ids() == before.ids(),
        after@ == before@.insert(before.ids()[i], after.values@[i]),
{
    assert(after.wf());
    let expected = before@.insert(before.ids()[i], after.values@[i]);
    assert forall|id: K::Id| #[trigger]
        after@.dom().contains(id) == expected.dom().contains(id) by {
        if after@.dom().contains(id) {
            let j = choose|j: int| after.key_is(j, id);
            assert(before.key_is(j, id));
        }
        if expected.dom().contains(id) {
            let j = if id == before.ids()[i] {
                i
            } else {
                choose|j: int| before.key_is(j, id)
            };
            assert(after.key_is(j, id));
        }
    }
    assert forall|id: K::Id| #[trigger] after@.dom().contains(id) implies after@[id]
        == expected[id] by {
        let j = choose|j: int| after.key_is(j, id);
        after.lemma_at(j);
        before.lemma_at(j);
        before.lemma_at(i);
        if j != i {
            if j < i {
                assert(before.keys@[j].id() != before.keys@[i].id());
            } else {
                assert(before.keys@[i].id() != before.keys@[j].id());
            }
        }
    }
    assert(after@ =~= expected);
}

proof fn lemma_removed<K: LaneKey, V>(before: KeyMap<K, V>, after: KeyMap<K, V>, i: int)
    requires
        before.wf(),
        0 <= i < before.keys@.len(),
        after.keys@ == before.keys@.remove(i),
        after.values@ == before.values@.remove(i),
    ensures
        after.wf(),
        after@ == before@.remove(before.keys@[i].id()),
{
    let gone = before.keys@[i].id();
    let expected = before@.remove(gone);
    assert forall|a: int, b: int|
        #![trigger after.keys@[a], after.keys@[b]]
        0 <= a < b < after.keys@.len() implies after.keys@[a].id() != after.keys@[b].id() by {
        let c = if a < i {
            a
        } else {
            a + 1
        };
        let d = if b < i {
            b
        } else {
            b + 1
        };
        assert(before.keys@[c].id() != before.keys@[d].id());
    }
    assert forall|id: K::Id| #[trigger]
        after@.dom().contains(id) == expected.dom().contains(id) by {
        if after@.dom().contains(id) {
            let a = choose|a: int| after.key_is(a, id);
            let c = if a < i {
                a
            } else {
                a + 1
            };
            assert(before.key_is(c, id));
            if c < i {
                assert(before.keys@[c].id() != before.keys@[i].id());
            } else {
                assert(before.keys@[i].id() != before.keys@[c].id());
            }
        }
        if expected.dom().contains(id) {
            let c = choose|c: int| before.key_is(c, id);
            let a = if c < i {
                c
            } else {
                c - 1
            };
            assert(after.key_is(a, id));
        }
    }
    assert forall|id: K::Id| #[trigger] after@.dom().contains(id) implies after@[id]
        == expected[id] by {
        let a = choose|a: int| after.key_is(a, id);
        after.lemma_at(a);
        let c = if a < i {
            a
        } else {
            a + 1
        };
        before.lemma_at(c);
    }
    assert(after@ =~= expected);
}

proof fn lemma_added<K: LaneKey, V>(before: KeyMap<K, V>, after: KeyMap<K, V>)
    requires
        before.wf(),
        after.keys@.len() == before.keys@.len() + 1,
        after.keys@.drop_last() == before.keys@,
        after.values@.len() == before.values@.len() + 1,
        after.values@.drop_last() == before.values@,
        !before@.dom().contains(after.keys@.last().id()),
    ensures
        after.wf(),
        after.ids() == before.ids().push(after.keys@.last().id()),
        after@ == before@.insert(after.keys@.last().id(), after.values@.last()),
{
    let n = before.keys@.len() as int;
    let added = after.keys@.last().id();
    let expected = before@.insert(added, after.values@.last());
    assert forall|i: int| 0 <= i < n implies #[trigger] after.keys@[i] == before.keys@[i]
        && after.values@[i] == before.values@[i] && after.keys@[i].id() != added by {
        assert(after.keys@.drop_last()[i] == before.keys@[i]);
        assert(after.values@.drop_last()[i] == before.values@[i]);
        before.lemma_at(i);
    }
    assert forall|i: int, j: int|
        #![trigger after.keys@[i], after.keys@[j]]
        0 <= i < j < after.keys@.len() implies after.keys@[i].id() != after.keys@[j].id() by {
        if j < n {
            assert(before.keys@[i].id() != before.keys@[j].id());
        }
    }
    assert(after.ids() =~= before.ids().push(added));
    assert forall|id: K::Id| #[trigger]
        after@.dom().contains(id) == expected.dom().contains(id) by {
        if after@.dom().contains(id) {
            let j = choose|j: int| after.key_is(j, id);
            assert(j < n ==> before.key_is(j, id));
        }
        if expected.dom().contains(id) {
            let j = if id == added {
                n
            } else {
                choose|j: int| before.key_is(j, id)
            };
            assert(after.key_is(j, id));
        }
    }
    assert forall|id: K::Id| #[trigger] after@.dom().contains(id) implies after@[id]
        == expected[id] by {
        let j = choose|j: int| after.key_is(j, id);
        after.lemma_at(j);
        if j < n {
            before.lemma_at(j);
        }
    }
    assert(after@ =~= expected);
}

} // verus!
