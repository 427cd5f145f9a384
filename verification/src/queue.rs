//! The event queue of a proc: entries (cycle, event id, thread index), taken
//! out smallest first in lexicographic order.
use vstd::prelude::*;
use vstd::multiset::Multiset;

verus! {

pub open spec fn entry_le(a: (usize, usize, usize), b: (usize, usize, usize)) -> bool {
    a.0 < b.0 || (a.0 == b.0 && (a.1 < b.1 || (a.1 == b.1 && a.2 <= b.2)))
}

fn le(a: (usize, usize, usize), b: (usize, usize, usize)) -> (r: bool)
    ensures
        r == entry_le(a, b),
{
    a.0 < b.0 || (a.0 == b.0 && (a.1 < b.1 || (a.1 == b.1 && a.2 <= b.2)))
}

/// A min-queue of entries, kept in descending order so that the smallest is last.
pub struct EventQueue {
    pub entries: Vec<(usize, usize, usize)>,
}

impl EventQueue {
    pub open spec fn wf(&self) -> bool {
        forall|i: int, j: int| 0 <= i < j < self.entries@.len() ==> entry_le(#[trigger] self.entries@[j], #[trigger] self.entries@[i])
    }

    pub open spec fn view(&self) -> Multiset<(usize, usize, usize)> {
        self.entries@.to_multiset()
    }

    pub fn new() -> (q: Self)
        ensures
            q.wf(),
            q@ == Multiset::<(usize, usize, usize)>::empty(),
    {
        let q = EventQueue { entries: Vec::new() };
        proof {
            broadcast use vstd::seq_lib::group_to_multiset_ensures;
            assert(q@ =~= Multiset::<(usize, usize, usize)>::empty());
        }
        q
    }

    pub fn is_empty(&self) -> (r: bool)
        ensures
            r == (self@.len() == 0),
    {
        proof {
            broadcast use vstd::seq_lib::to_multiset_len;
        }
        self.entries.len() == 0
    }

    pub fn len(&self) -> (r: usize)
        ensures
            r == self@.len(),
    {
        proof {
            broadcast use vstd::seq_lib::to_multiset_len;
        }
        self.entries.len()
    }

    /// Add an entry.
    pub fn push(&mut self, e: (usize, usize, usize))
        requires
            old(self).wf(),
        ensures
            final(self).wf(),
            final(self)@ == old(self)@.insert(e),
    {
        let mut p: usize = 0;
        while p < self.entries.len() && !le(self.entries[p], e)
            invariant
                self.wf(),
                p <= self.entries@.len(),
                forall|i: int| 0 <= i < p ==> !entry_le(#[trigger] self.entries@[i], e),
            decreases self.entries@.len() - p,
        {
            p = p + 1;
        }
        let ghost old_entries = self.entries@;
        self.entries.insert(p, e);
        proof {
            broadcast use vstd::seq_lib::to_multiset_insert;
            assert(self.entries@ == old_entries.insert(p as int, e));
            assert forall|i: int, j: int| 0 <= i < j < self.entries@.len() implies entry_le(#[trigger] self.entries@[j], #[trigger] self.entries@[i]) by {
                if p < old_entries.len() {
                    assert(entry_le(old_entries[p as int], e));
                }
            }
        }
    }

    /// The smallest entry, if any.
    pub fn peek_min(&self) -> (r: Option<(usize, usize, usize)>)
        requires
            self.wf(),
        ensures
            r is None <==> self@.len() == 0,
            r matches Some(e) ==> self@.count(e) > 0 && forall|x: (usize, usize, usize)| #[trigger] self@.count(x) > 0 ==> entry_le(e, x),
    {
        proof {
            broadcast use vstd::seq_lib::to_multiset_len;
            broadcast use vstd::seq_lib::to_multiset_contains;
        }
        let n = self.entries.len();
        if n == 0 {
            None
        } else {
            let e = self.entries[n - 1];
            proof {
                assert(self.entries@.contains(e));
                assert forall|x: (usize, usize, usize)| #[trigger] self@.count(x) > 0 implies entry_le(e, x) by {
                    assert(self.entries@.contains(x));
                    let i = choose|i: int| 0 <= i < self.entries@.len() && self.entries@[i] == x;
                    if i < n - 1 {
                        assert(entry_le(self.entries@[n - 1], self.entries@[i]));
                    }
                }
            }
            Some(e)
        }
    }

    /// Take out the smallest entry, if any.
    pub fn pop_min(&mut self) -> (r: Option<(usize, usize, usize)>)
        requires
            old(self).wf(),
        ensures
            final(self).wf(),
            r is None <==> old(self)@.len() == 0,
            r is None ==> final(self)@ == old(self)@,
            r matches Some(e) ==> old(self)@.count(e) > 0
                && (forall|x: (usize, usize, usize)| #[trigger] old(self)@.count(x) > 0 ==> entry_le(e, x))
                && final(self)@ == old(self)@.remove(e),
    {
        let ghost old_entries = self.entries@;
        let r = self.peek_min();
        match r {
            None => None,
            Some(e) => {
                let n = self.entries.len();
                proof {
                    broadcast use vstd::seq_lib::to_multiset_len;
                    broadcast use vstd::seq_lib::to_multiset_contains;
                    assert(n > 0);
                    let last = old_entries[n - 1];
                    assert(old_entries.contains(last));
                    assert(self@.count(last) > 0);
                    assert(entry_le(e, last));
                    assert(self.entries@.contains(e));
                    let i = choose|i: int| 0 <= i < old_entries.len() && old_entries[i] == e;
                    if i < n - 1 {
                        assert(entry_le(old_entries[n - 1], old_entries[i]));
                    }
                    assert(e == last);
                }
                self.entries.pop();
                proof {
                    broadcast use vstd::seq_lib::to_multiset_remove;
                    assert(self.entries@ =~= old_entries.remove(n - 1));
                }
                Some(e)
            },
        }
    }
}


/// Law (smallest first): an entry taken out of the queue is no larger than
/// any entry taken out later, as long as nothing smaller was put in between.
/// `before` is the queue the first `pop_min` took `a` from and `pushed` what
/// was put in after it; `b` is in the queue the second `pop_min` takes from.
pub proof fn lemma_pops_in_order(
    before: Multiset<(usize, usize, usize)>,
    a: (usize, usize, usize),
    pushed: Multiset<(usize, usize, usize)>,
    b: (usize, usize, usize),
)
    requires
        before.count(a) > 0,
        forall|x: (usize, usize, usize)| #[trigger] before.count(x) > 0 ==> entry_le(a, x),
        forall|x: (usize, usize, usize)| #[trigger] pushed.count(x) > 0 ==> entry_le(a, x),
        before.remove(a).add(pushed).count(b) > 0,
    ensures
        entry_le(a, b),
{
    if pushed.count(b) == 0 {
        assert(before.count(b) > 0);
    }
}
} // verus!
