//! A small map from names to values, kept as a list of distinct names.
use vstd::prelude::*;

verus! {

pub struct NameMap<V> {
    pub entries: Vec<(String, V)>,
}

impl<V> NameMap<V> {
    /// No name occurs twice.
    pub open spec fn wf(&self) -> bool {
        forall|i: int, j: int|
            0 <= i < j < self.entries@.len() ==> #[trigger] self.entries@[i].0@ != #[trigger] self.entries@[j].0@
    }

    pub open spec fn has(&self, key: Seq<char>) -> bool {
        exists|i: int| 0 <= i < self.entries@.len() && #[trigger] self.entries@[i].0@ == key
    }

    /// The position of `key`, when it is present.
    pub open spec fn pos(&self, key: Seq<char>) -> int {
        choose|i: int| 0 <= i < self.entries@.len() && #[trigger] self.entries@[i].0@ == key
    }

    /// The value stored under `key`, when it is present.
    pub open spec fn lookup(&self, key: Seq<char>) -> Option<V> {
        if self.has(key) {
            Some(self.entries@[self.pos(key)].1)
        } else {
            None
        }
    }

    pub open spec fn view(&self) -> Map<Seq<char>, V> {
        Map::new(|k: Seq<char>| self.has(k), |k: Seq<char>| self.entries@[self.pos(k)].1)
    }

    pub proof fn lemma_pos(&self, i: int)
        requires
            self.wf(),
            0 <= i < self.entries@.len(),
        ensures
            self.has(self.entries@[i].0@),
            self.pos(self.entries@[i].0@) == i,
    {
        let key = self.entries@[i].0@;
        assert(self.entries@[i].0@ == key);
        let p = self.pos(key);
        if p != i {
            if p < i {
                assert(self.entries@[p].0@ != self.entries@[i].0@);
            } else {
                assert(self.entries@[i].0@ != self.entries@[p].0@);
            }
        }
    }

    pub fn new() -> (m: Self)
        ensures
            m.wf(),
            m.entries@.len() == 0,
            m@ == Map::<Seq<char>, V>::empty(),
            forall|k: Seq<char>| !m.has(k),
    {
        let m = NameMap { entries: Vec::new() };
        assert(m@ =~= Map::<Seq<char>, V>::empty());
        m
    }

    /// The position of `key`, or `None` when it is absent.
    pub fn find(&self, key: &String) -> (r: Option<usize>)
        requires
            self.wf(),
        ensures
            r is None <==> !self.has(key@),
            r matches Some(i) ==> i < self.entries@.len() && self.entries@[i as int].0@ == key@
                && i == self.pos(key@),
    {
        let mut i: usize = 0;
        while i < self.entries.len()
            invariant
                self.wf(),
                i <= self.entries@.len(),
                forall|j: int| 0 <= j < i ==> self.entries@[j].0@ != key@,
            decreases self.entries@.len() - i,
        {
            if self.entries[i].0 == *key {
                proof {
                    self.lemma_pos(i as int);
                }
                return Some(i);
            }
            i = i + 1;
        }
        None
    }

    /// The value under `key`, or `None` when it is absent.
    pub fn get(&self, key: &String) -> (r: Option<&V>)
        requires
            self.wf(),
        ensures
            r is None <==> !self.has(key@),
            r matches Some(v) ==> self.lookup(key@) == Some(*v),
    {
        match self.find(key) {
            Some(i) => Some(&self.entries[i].1),
            None => None,
        }
    }

    /// Store `value` under `key`, replacing what was stored there.
    pub fn insert(&mut self, key: String, value: V)
        requires
            old(self).wf(),
        ensures
            final(self).wf(),
            final(self)@ == old(self)@.insert(key@, value),
            forall|k: Seq<char>| #[trigger] final(self).has(k) == (old(self).has(k) || k == key@),
            forall|k: Seq<char>| k != key@ ==> #[trigger] final(self).lookup(k) == old(self).lookup(k),
            final(self).lookup(key@) == Some(value),
    {
        let ghost old_self = *self;
        match self.find(&key) {
            Some(i) => {
                self.entries[i].1 = value;
                proof {
                    self.lemma_same_keys_update(old_self, i as int);
                }
            },
            None => {
                self.entries.push((key, value));
                proof {
                    self.lemma_push(old_self);
                }
            },
        }
        assert(self@ =~= old_self@.insert(key@, value));
    }

    pub proof fn lemma_same_keys_update(&self, old_self: Self, i: int)
        requires
            old_self.wf(),
            0 <= i < old_self.entries@.len(),
            self.entries@.len() == old_self.entries@.len(),
            forall|j: int| 0 <= j < self.entries@.len() ==> #[trigger] self.entries@[j].0@ == old_self.entries@[j].0@,
            forall|j: int| 0 <= j < self.entries@.len() && j != i ==> self.entries@[j].1 == old_self.entries@[j].1,
        ensures
            self.wf(),
            forall|k: Seq<char>| #[trigger] self.has(k) == old_self.has(k),
            forall|k: Seq<char>| k != self.entries@[i].0@ ==> #[trigger] self.lookup(k) == old_self.lookup(k),
            self.lookup(self.entries@[i].0@) == Some(self.entries@[i].1),
    {
        assert forall|a: int, b: int| 0 <= a < b < self.entries@.len() implies #[trigger] self.entries@[a].0@ != #[trigger] self.entries@[b].0@ by {
            assert(old_self.entries@[a].0@ != old_self.entries@[b].0@);
        }
        assert forall|k: Seq<char>| #[trigger] self.has(k) == old_self.has(k) by {
            if self.has(k) {
                let j = choose|j: int| 0 <= j < self.entries@.len() && #[trigger] self.entries@[j].0@ == k;
                assert(old_self.entries@[j].0@ == k);
            }
            if old_self.has(k) {
                let j = choose|j: int| 0 <= j < old_self.entries@.len() && #[trigger] old_self.entries@[j].0@ == k;
                assert(self.entries@[j].0@ == k);
            }
        }
        assert forall|k: Seq<char>| self.has(k) implies self.pos(k) == old_self.pos(k) by {
            let p = self.pos(k);
            self.lemma_pos(p);
            old_self.lemma_pos(p);
        }
        self.lemma_pos(i);
    }

    pub proof fn lemma_push(&self, old_self: Self)
        requires
            old_self.wf(),
            self.entries@.len() == old_self.entries@.len() + 1,
            forall|j: int| 0 <= j < old_self.entries@.len() ==> #[trigger] self.entries@[j] == old_self.entries@[j],
            !old_self.has(self.entries@.last().0@),
        ensures
            self.wf(),
            forall|k: Seq<char>| #[trigger] self.has(k) == (old_self.has(k) || k == self.entries@.last().0@),
            forall|k: Seq<char>| k != self.entries@.last().0@ ==> #[trigger] self.lookup(k) == old_self.lookup(k),
            self.lookup(self.entries@.last().0@) == Some(self.entries@.last().1),
    {
        let n = old_self.entries@.len() as int;
        assert forall|a: int, b: int| 0 <= a < b < self.entries@.len() implies #[trigger] self.entries@[a].0@ != #[trigger] self.entries@[b].0@ by {
            if b == n {
                assert(old_self.entries@[a].0@ == self.entries@[a].0@);
                if self.entries@[a].0@ == self.entries@[b].0@ {
                    assert(old_self.has(self.entries@.last().0@));
                }
            } else {
                assert(old_self.entries@[a].0@ != old_self.entries@[b].0@);
            }
        }
        assert forall|k: Seq<char>| #[trigger] self.has(k) == (old_self.has(k) || k == self.entries@.last().0@) by {
            if self.has(k) {
                let j = choose|j: int| 0 <= j < self.entries@.len() && #[trigger] self.entries@[j].0@ == k;
                if j < n {
                    assert(old_self.entries@[j].0@ == k);
                }
            }
            if old_self.has(k) {
                let j = choose|j: int| 0 <= j < old_self.entries@.len() && #[trigger] old_self.entries@[j].0@ == k;
                assert(self.entries@[j].0@ == k);
            }
            if k == self.entries@.last().0@ {
                assert(self.entries@[n].0@ == k);
            }
        }
        assert forall|k: Seq<char>| k != self.entries@.last().0@ && self.has(k) implies self.pos(k) == old_self.pos(k) by {
            let p = self.pos(k);
            self.lemma_pos(p);
            assert(p < n);
            old_self.lemma_pos(p);
        }
        self.lemma_pos(n);
    }
}

} // verus!
