//! Stable sorting of events and wires by id.
use vstd::prelude::*;
use crate::ir::{Event, Wire};

verus! {

/// Things with an id to sort by.
pub trait Keyed: Sized {
    spec fn key(&self) -> usize;

    fn get_key(&self) -> (r: usize)
        ensures
            r == self.key(),
    ;
}

impl Keyed for Event {
    open spec fn key(&self) -> usize {
        self.id
    }

    fn get_key(&self) -> (r: usize) {
        self.id
    }
}

impl Keyed for Wire {
    open spec fn key(&self) -> usize {
        self.id
    }

    fn get_key(&self) -> (r: usize) {
        self.id
    }
}

/// `x` inserted into `s` after every element whose id is at most its own
/// that is not followed by a larger one: the place a stable sort gives it.
pub open spec fn insert_by_key<T: Keyed>(s: Seq<T>, x: T) -> Seq<T>
    decreases s.len(),
{
    if s.len() == 0 || s.last().key() <= x.key() {
        s.push(x)
    } else {
        insert_by_key(s.drop_last(), x).push(s.last())
    }
}

/// The elements sorted by id, elements with equal ids in their original order.
pub open spec fn stable_sort<T: Keyed>(s: Seq<T>) -> Seq<T>
    decreases s.len(),
{
    if s.len() == 0 {
        s
    } else {
        insert_by_key(stable_sort(s.drop_last()), s.last())
    }
}

pub open spec fn sorted_by_key<T: Keyed>(s: Seq<T>) -> bool {
    forall|i: int, j: int| 0 <= i <= j < s.len() ==> s[i].key() <= s[j].key()
}

proof fn lemma_insert_at<T: Keyed>(s: Seq<T>, x: T, p: int)
    requires
        0 <= p <= s.len(),
        p == 0 || s[p - 1].key() <= x.key(),
        forall|i: int| p <= i < s.len() ==> s[i].key() > x.key(),
    ensures
        insert_by_key(s, x) == s.insert(p, x),
    decreases s.len(),
{
    if s.len() == 0 || s.last().key() <= x.key() {
        assert(p == s.len());
        assert(s.push(x) =~= s.insert(p, x));
    } else {
        lemma_insert_at(s.drop_last(), x, p);
        assert(s.drop_last().insert(p, x).push(s.last()) =~= s.insert(p, x));
    }
}

/// Law: the stable sort is ordered by id.
pub proof fn lemma_stable_sort_sorted<T: Keyed>(s: Seq<T>)
    ensures
        sorted_by_key(stable_sort(s)),
        stable_sort(s).len() == s.len(),
    decreases s.len(),
{
    if s.len() > 0 {
        lemma_stable_sort_sorted(s.drop_last());
        lemma_insert_sorted(stable_sort(s.drop_last()), s.last());
    }
}

proof fn lemma_insert_sorted<T: Keyed>(s: Seq<T>, x: T)
    requires
        sorted_by_key(s),
    ensures
        sorted_by_key(insert_by_key(s, x)),
        insert_by_key(s, x).len() == s.len() + 1,
        insert_by_key(s, x).to_multiset() == s.to_multiset().insert(x),
    decreases s.len(),
{
    broadcast use vstd::seq_lib::to_multiset_build;
    if s.len() == 0 || s.last().key() <= x.key() {
    } else {
        let r = insert_by_key(s.drop_last(), x);
        lemma_insert_sorted(s.drop_last(), x);
        assert(s.drop_last().push(s.last()) =~= s);
        assert(r.to_multiset().insert(s.last()) =~= s.to_multiset().insert(x)) by {
            assert(s.drop_last().to_multiset().insert(s.last()) == s.to_multiset());
        }
        assert forall|i: int, j: int| 0 <= i <= j < r.push(s.last()).len() implies r.push(s.last())[i].key() <= r.push(s.last())[j].key() by {
            if j == r.len() && i < r.len() {
                // every element of r is x or an element of s.drop_last()
                assert(r.to_multiset().count(r[i]) > 0) by {
                    broadcast use vstd::seq_lib::to_multiset_contains;
                    assert(r.contains(r[i]));
                }
                let y = r[i];
                if y != x {
                    assert(s.drop_last().to_multiset().count(y) > 0);
                    broadcast use vstd::seq_lib::to_multiset_contains;
                    let k = choose|k: int| 0 <= k < s.drop_last().len() && s.drop_last()[k] == y;
                    assert(s[k] == y);
                }
            }
        }
    }
}

/// Law: the stable sort keeps the elements, each as many times.
pub proof fn lemma_stable_sort_perm<T: Keyed>(s: Seq<T>)
    ensures
        stable_sort(s).to_multiset() == s.to_multiset(),
    decreases s.len(),
{
    broadcast use vstd::seq_lib::to_multiset_build;
    if s.len() > 0 {
        lemma_stable_sort_perm(s.drop_last());
        lemma_stable_sort_sorted(s.drop_last());
        lemma_insert_sorted(stable_sort(s.drop_last()), s.last());
        assert(s.drop_last().push(s.last()) =~= s);
    }
}

/// Sort by id, keeping the order of elements with equal ids.
pub fn sort_by_id<T: Keyed>(v: Vec<T>) -> (r: Vec<T>)
    ensures
        r@ == stable_sort(v@),
{
    let ghost orig = v@;
    let n = v.len();
    let mut input = v;
    let mut out: Vec<T> = Vec::new();
    let mut consumed: usize = 0;
    proof {
        lemma_stable_sort_sorted(orig.take(0));
        assert(orig.take(0) =~= Seq::<T>::empty());
        assert(orig.skip(0) =~= orig);
    }
    while input.len() > 0
        invariant
            consumed + input@.len() == orig.len(),
            orig.len() == n,
            input@ == orig.skip(consumed as int),
            out@ == stable_sort(orig.take(consumed as int)),
        decreases input@.len(),
    {
        let x = input.remove(0);
        proof {
            lemma_stable_sort_sorted(orig.take(consumed as int));
            assert(x == orig[consumed as int]);
        }
        let k = x.get_key();
        let mut p: usize = out.len();
        while p > 0 && out[p - 1].get_key() > k
            invariant
                p <= out@.len(),
                forall|i: int| p <= i < out@.len() ==> out@[i].key() > k,
            decreases p,
        {
            p = p - 1;
        }
        proof {
            let s = out@;
            lemma_insert_at(s, x, p as int);
            assert(orig.take(consumed + 1).drop_last() =~= orig.take(consumed as int));
            assert(orig.take(consumed + 1).last() == x);
            assert(orig.skip(consumed as int).drop_first() =~= orig.skip(consumed + 1));
        }
        out.insert(p, x);
        consumed = consumed + 1;
    }
    proof {
        assert(orig.take(consumed as int) =~= orig);
    }
    out
}

} // verus!
