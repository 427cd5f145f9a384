//! The register file of a proc: per register, its history of versions, each
//! the storage committed at the end of some cycle.
use vstd::prelude::*;
use crate::bits::{history_view, read_reg_at_cycle, reg_write, version_at, write_reg_bits};
use crate::names::NameMap;

verus! {

/// A register write that waits for the end of its cycle: `size` bits of
/// `value` into `reg` from bit `offset`.
#[derive(Clone, Debug, PartialEq)]
pub struct PendingWrite {
    pub reg: String,
    pub offset: usize,
    pub size: usize,
    pub value: i64,
}

impl PendingWrite {
    pub open spec fn view(&self) -> (Seq<char>, usize, usize, i64) {
        (self.reg@, self.offset, self.size, self.value)
    }
}

pub open spec fn writes_view(ws: Seq<PendingWrite>) -> Seq<(Seq<char>, usize, usize, i64)> {
    ws.map_values(|w: PendingWrite| w@)
}

/// A write can be carried out: its last bit position fits in a `usize`.
pub open spec fn write_fits(w: (Seq<char>, usize, usize, i64)) -> bool {
    w.1 + w.2 + 7 <= usize::MAX
}

/// The storage a register holds at `cycle`, in a register file (none: empty).
pub open spec fn storage_at(regs: Map<Seq<char>, Seq<(usize, Seq<u8>)>>, name: Seq<char>, cycle: int) -> Seq<u8> {
    if regs.dom().contains(name) { version_at(regs[name], cycle) } else { Seq::empty() }
}

/// The history of `name` after a write committed at `cycle`: the last version
/// is changed when it was committed at `cycle`, otherwise a copy of it (or of
/// empty storage) committed at `cycle` is added and changed. A register
/// never written before starts with an empty version at cycle 0.
pub open spec fn history_after_write(
    regs: Map<Seq<char>, Seq<(usize, Seq<u8>)>>,
    w: (Seq<char>, usize, usize, i64),
    cycle: usize,
) -> Seq<(usize, Seq<u8>)> {
    let vs0 = if regs.dom().contains(w.0) { regs[w.0] } else { seq![(0usize, Seq::<u8>::empty())] };
    let vs1 = if vs0.len() == 0 || vs0.last().0 != cycle {
        vs0.push((cycle, if vs0.len() == 0 { Seq::<u8>::empty() } else { vs0.last().1 }))
    } else {
        vs0
    };
    vs1.update(vs1.len() - 1, (vs1.last().0, reg_write(vs1.last().1, w.1 as int, w.2 as int, w.3)))
}

pub open spec fn apply_write(
    regs: Map<Seq<char>, Seq<(usize, Seq<u8>)>>,
    w: (Seq<char>, usize, usize, i64),
    cycle: usize,
) -> Map<Seq<char>, Seq<(usize, Seq<u8>)>> {
    regs.insert(w.0, history_after_write(regs, w, cycle))
}

/// The register file after the writes, in order, all committed at `cycle`.
pub open spec fn apply_writes(
    regs: Map<Seq<char>, Seq<(usize, Seq<u8>)>>,
    ws: Seq<(Seq<char>, usize, usize, i64)>,
    cycle: usize,
) -> Map<Seq<char>, Seq<(usize, Seq<u8>)>>
    decreases ws.len(),
{
    if ws.len() == 0 {
        regs
    } else {
        apply_writes(apply_write(regs, ws[0], cycle), ws.drop_first(), cycle)
    }
}

pub struct RegFile {
    pub regs: NameMap<Vec<(usize, Vec<u8>)>>,
}

impl RegFile {
    pub open spec fn wf(&self) -> bool {
        self.regs.wf()
    }

    pub open spec fn view(&self) -> Map<Seq<char>, Seq<(usize, Seq<u8>)>> {
        Map::new(|k: Seq<char>| self.regs@.dom().contains(k), |k: Seq<char>| history_view(self.regs@[k]@))
    }

    pub fn new() -> (r: Self)
        ensures
            r.wf(),
            r@ == Map::<Seq<char>, Seq<(usize, Seq<u8>)>>::empty(),
    {
        let r = RegFile { regs: NameMap::new() };
        assert(r@ =~= Map::<Seq<char>, Seq<(usize, Seq<u8>)>>::empty());
        r
    }

    /// The storage of register `name` at `cycle` (empty for an unknown register).
    pub fn storage_at(&self, name: &String, cycle: usize) -> (r: &[u8])
        requires
            self.wf(),
        ensures
            r@ == storage_at(self@, name@, cycle as int),
    {
        match self.regs.get(name) {
            Some(versions) => {
                proof {
                    assert(self.regs@.dom().contains(name@));
                }
                read_reg_at_cycle(versions.as_slice(), cycle)
            },
            None => {
                let empty: &[u8] = &[];
                assert(empty@ =~= Seq::<u8>::empty());
                empty
            },
        }
    }

    /// Give `name` the history `versions` (used to set initial values).
    pub fn set_history(&mut self, name: String, versions: Vec<(usize, Vec<u8>)>)
        requires
            old(self).wf(),
        ensures
            final(self).wf(),
            final(self)@ == old(self)@.insert(name@, history_view(versions@)),
    {
        self.regs.insert(name, versions);
        assert(self@ =~= old(self)@.insert(name@, history_view(versions@)));
    }

    /// Whether register `name` has a history.
    pub fn has(&self, name: &String) -> (r: bool)
        requires
            self.wf(),
        ensures
            r == self@.dom().contains(name@),
    {
        self.regs.find(name).is_some()
    }

    /// Carry out one write committed at `cycle`.
    pub fn apply_write(&mut self, w: &PendingWrite, cycle: usize)
        requires
            old(self).wf(),
            write_fits(w@),
        ensures
            final(self).wf(),
            final(self)@ == apply_write(old(self)@, w@, cycle),
    {
        let ghost old_view = self@;
        let ghost old_regs = self.regs;
        let k: usize = match self.regs.find(&w.reg) {
            Some(k) => k,
            None => {
                let mut init: Vec<(usize, Vec<u8>)> = Vec::new();
                init.push((0, Vec::new()));
                self.regs.insert(w.reg.clone(), init);
                proof {
                    assert(history_view(init@) =~= seq![(0usize, Seq::<u8>::empty())]);
                }
                match self.regs.find(&w.reg) {
                    Some(k) => k,
                    None => {
                        proof {
                            assert(false);
                        }
                        0
                    },
                }
            },
        };
        let ghost vs0 = history_view(self.regs.entries@[k as int].1@);
        proof {
            assert(self.regs@[w.reg@] == self.regs.entries@[k as int].1);
            if old_view.dom().contains(w.reg@) {
                assert(vs0 == old_view[w.reg@]);
            } else {
                assert(vs0 =~= seq![(0usize, Seq::<u8>::empty())]);
            }
        }
        let ghost before_entries = self.regs.entries@;
        let ghost after_find = self.regs;
        proof {
            assert forall|key: Seq<char>| key != w.reg@ implies #[trigger] after_find.lookup(key) == old_regs.lookup(key) by {}
        }
        let n = self.regs.entries[k].1.len();
        if n == 0 || self.regs.entries[k].1[n - 1].0 != cycle {
            let base: Vec<u8> = if n == 0 {
                Vec::new()
            } else {
                let b = self.regs.entries[k].1[n - 1].1.clone();
                proof {
                    assert(b@ =~= self.regs.entries@[k as int].1@[n - 1].1@);
                }
                b
            };
            self.regs.entries[k].1.push((cycle, base));
        }
        let ghost vs1 = history_view(self.regs.entries@[k as int].1@);
        proof {
            let e = if vs0.len() == 0 || vs0.last().0 != cycle {
                vs0.push((cycle, if vs0.len() == 0 { Seq::<u8>::empty() } else { vs0.last().1 }))
            } else {
                vs0
            };
            assert(vs1 =~= e);
        }
        let m = self.regs.entries[k].1.len();
        let ghost mid = self.regs;
        proof {
            assert(mid.wf()) by {
                assert forall|a: int, b: int| 0 <= a < b < mid.entries@.len() implies #[trigger] mid.entries@[a].0@ != #[trigger] mid.entries@[b].0@ by {
                    assert(before_entries[a].0@ != before_entries[b].0@);
                }
            }
        }
        write_reg_bits(&mut self.regs.entries[k].1[m - 1].1, w.offset, w.size, w.value);
        proof {
            mid.lemma_same_keys_update(after_find, k as int);
            self.regs.lemma_same_keys_update(mid, k as int);
            mid.lemma_pos(k as int);
            let hv = history_view(self.regs.entries@[k as int].1@);
            assert(hv =~= vs1.update(vs1.len() - 1, (vs1.last().0, reg_write(vs1.last().1, w.offset as int, w.size as int, w.value))));
            assert(hv == history_after_write(old_view, w@, cycle));
            assert forall|key: Seq<char>| key != w.reg@ implies self.regs.lookup(key) == old_regs.lookup(key) by {
                assert(self.regs.lookup(key) == mid.lookup(key));
                assert(mid.lookup(key) == after_find.lookup(key));
            }
            assert forall|key: Seq<char>| key != w.reg@ implies self@.dom().contains(key) == old_view.dom().contains(key)
                && (self@.dom().contains(key) ==> self@[key] == old_view[key]) by {
                assert(self.regs.lookup(key) == old_regs.lookup(key));
            }
            assert(self.regs@[w.reg@] == self.regs.entries@[k as int].1);
            assert(self@ =~= apply_write(old_view, w@, cycle));
        }
    }
}


/// Carry out the pending writes in order, all committed at `cycle`, and
/// empty the list of pending writes.
pub fn apply_pending_writes(regs: &mut RegFile, pending: &mut Vec<PendingWrite>, cycle: usize)
    requires
        old(regs).wf(),
        forall|i: int| 0 <= i < old(pending)@.len() ==> write_fits(#[trigger] old(pending)@[i]@),
    ensures
        final(regs).wf(),
        final(regs)@ == apply_writes(old(regs)@, writes_view(old(pending)@), cycle),
        final(pending)@.len() == 0,
{
    let ghost ws = writes_view(pending@);
    let ghost target = apply_writes(regs@, ws, cycle);
    let mut i: usize = 0;
    assert(ws.skip(0) =~= ws);
    while i < pending.len()
        invariant
            regs.wf(),
            i <= pending@.len(),
            ws == writes_view(pending@),
            forall|j: int| 0 <= j < pending@.len() ==> write_fits(#[trigger] pending@[j]@),
            target == apply_writes(regs@, ws.skip(i as int), cycle),
        decreases pending@.len() - i,
    {
        let ghost before = regs@;
        regs.apply_write(&pending[i], cycle);
        proof {
            assert(ws.skip(i as int)[0] == pending@[i as int]@);
            assert(ws.skip(i as int).drop_first() =~= ws.skip(i + 1));
        }
        i = i + 1;
    }
    pending.clear();
}

/// Law: a write committed at the end of `cycle` does not change what any
/// register holds at an earlier cycle.
pub proof fn lemma_commit_keeps_past(
    regs: Map<Seq<char>, Seq<(usize, Seq<u8>)>>,
    ws: Seq<(Seq<char>, usize, usize, i64)>,
    cycle: usize,
    name: Seq<char>,
    earlier: int,
)
    requires
        earlier < cycle,
    ensures
        storage_at(apply_writes(regs, ws, cycle), name, earlier) == storage_at(regs, name, earlier),
    decreases ws.len(),
{
    if ws.len() > 0 {
        let w = ws[0];
        let r1 = apply_write(regs, w, cycle);
        lemma_commit_keeps_past(r1, ws.drop_first(), cycle, name, earlier);
        if name == w.0 {
            let vs0 = if regs.dom().contains(w.0) { regs[w.0] } else { seq![(0usize, Seq::<u8>::empty())] };
            let vs1 = if vs0.len() == 0 || vs0.last().0 != cycle {
                vs0.push((cycle, if vs0.len() == 0 { Seq::<u8>::empty() } else { vs0.last().1 }))
            } else {
                vs0
            };
            let vs2 = history_after_write(regs, w, cycle);
            assert(vs2.drop_last() =~= vs1.drop_last());
            if vs1 == vs0 {
                assert(version_at(vs0, earlier) == version_at(vs0.drop_last(), earlier));
            } else {
                assert(vs1.drop_last() =~= vs0);
            }
            if !regs.dom().contains(w.0) {
                assert(version_at(vs0, earlier) == version_at(vs0.drop_last(), earlier) || vs0.last().0 <= earlier);
                assert(version_at(vs0.drop_last(), earlier) == Seq::<u8>::empty());
            }
        }
    }
}

/// Law: at the end of `cycle`, a write to a register whose versions were all
/// committed at or before `cycle` becomes what the register holds at `cycle`.
pub proof fn lemma_commit_visible(
    regs: Map<Seq<char>, Seq<(usize, Seq<u8>)>>,
    w: (Seq<char>, usize, usize, i64),
    cycle: usize,
)
    requires
        regs.dom().contains(w.0) ==> forall|i: int| 0 <= i < regs[w.0].len() ==> (#[trigger] regs[w.0][i]).0 <= cycle,
    ensures
        storage_at(apply_write(regs, w, cycle), w.0, cycle as int)
            == reg_write(storage_at(regs, w.0, cycle as int), w.1 as int, w.2 as int, w.3),
{
    let vs0 = if regs.dom().contains(w.0) { regs[w.0] } else { seq![(0usize, Seq::<u8>::empty())] };
    if vs0.len() > 0 {
        assert(vs0[vs0.len() - 1].0 <= cycle);
        assert(version_at(vs0, cycle as int) == vs0.last().1);
    }
    if !regs.dom().contains(w.0) {
        assert(version_at(vs0, cycle as int) == Seq::<u8>::empty());
    }
}

/// A history lists its versions by commit cycle, strictly ascending.
pub open spec fn history_sorted(h: Seq<(usize, Seq<u8>)>) -> bool {
    forall|i: int, j: int| 0 <= i < j < h.len() ==> (#[trigger] h[i]).0 < (#[trigger] h[j]).0
}

/// Every register's history is sorted by commit cycle.
pub open spec fn regs_sorted(regs: Map<Seq<char>, Seq<(usize, Seq<u8>)>>) -> bool {
    forall|n: Seq<char>| #[trigger] regs.dom().contains(n) ==> history_sorted(regs[n])
}

/// Every version of each register that `ws` writes was committed at or
/// before `cycle`.
pub open spec fn written_committed_by(
    regs: Map<Seq<char>, Seq<(usize, Seq<u8>)>>,
    ws: Seq<(Seq<char>, usize, usize, i64)>,
    cycle: usize,
) -> bool {
    forall|k: int, i: int| 0 <= k < ws.len() && regs.dom().contains(#[trigger] ws[k].0) && 0 <= i < regs[ws[k].0].len()
        ==> (#[trigger] regs[ws[k].0][i]).0 <= cycle
}

proof fn lemma_write_keeps_sorted(regs: Map<Seq<char>, Seq<(usize, Seq<u8>)>>, w: (Seq<char>, usize, usize, i64), cycle: usize)
    requires
        regs_sorted(regs),
        regs.dom().contains(w.0) ==> forall|i: int| 0 <= i < regs[w.0].len() ==> (#[trigger] regs[w.0][i]).0 <= cycle,
    ensures
        regs_sorted(apply_write(regs, w, cycle)),
        forall|i: int| 0 <= i < apply_write(regs, w, cycle)[w.0].len() ==> (#[trigger] apply_write(regs, w, cycle)[w.0][i]).0 <= cycle,
{
    let vs0 = if regs.dom().contains(w.0) { regs[w.0] } else { seq![(0usize, Seq::<u8>::empty())] };
    let vs1 = if vs0.len() == 0 || vs0.last().0 != cycle {
        vs0.push((cycle, if vs0.len() == 0 { Seq::<u8>::empty() } else { vs0.last().1 }))
    } else {
        vs0
    };
    let vs2 = history_after_write(regs, w, cycle);
    assert(history_sorted(vs0) && forall|i: int| 0 <= i < vs0.len() ==> (#[trigger] vs0[i]).0 <= cycle);
    assert(history_sorted(vs1) && forall|i: int| 0 <= i < vs1.len() ==> (#[trigger] vs1[i]).0 <= cycle) by {
        if vs1 != vs0 {
            assert forall|i: int, j: int| 0 <= i < j < vs1.len() implies (#[trigger] vs1[i]).0 < (#[trigger] vs1[j]).0 by {
                if j < vs0.len() {
                    assert(vs1[i] == vs0[i] && vs1[j] == vs0[j]);
                } else {
                    assert(vs1[i] == vs0[i]);
                    assert(vs0[i].0 <= cycle);
                    if vs0[i].0 == cycle {
                        assert(vs0[vs0.len() - 1].0 >= vs0[i].0) by {
                            if i < vs0.len() - 1 {
                                assert(vs0[i].0 < vs0[vs0.len() - 1].0);
                            }
                        }
                        assert(vs0[vs0.len() - 1].0 <= cycle);
                    }
                }
            }
        }
    }
    assert(history_sorted(vs2) && forall|i: int| 0 <= i < vs2.len() ==> (#[trigger] vs2[i]).0 <= cycle) by {
        assert forall|i: int| 0 <= i < vs2.len() implies (#[trigger] vs2[i]).0 == vs1[i].0 by {}
        assert forall|i: int, j: int| 0 <= i < j < vs2.len() implies (#[trigger] vs2[i]).0 < (#[trigger] vs2[j]).0 by {
            assert(vs2[i].0 == vs1[i].0 && vs2[j].0 == vs1[j].0);
        }
    }
    let r = apply_write(regs, w, cycle);
    assert forall|n: Seq<char>| #[trigger] r.dom().contains(n) implies history_sorted(r[n]) by {
        if n != w.0 {
            assert(regs.dom().contains(n));
        }
    }
}

/// Law (histories stay sorted): committing writes at the end of a cycle no
/// earlier than any commit so far of the registers written keeps every
/// register's history sorted strictly by commit cycle. (What is held at
/// earlier cycles is unchanged: `lemma_commit_keeps_past`.)
pub proof fn lemma_commit_keeps_sorted(
    regs: Map<Seq<char>, Seq<(usize, Seq<u8>)>>,
    ws: Seq<(Seq<char>, usize, usize, i64)>,
    cycle: usize,
)
    requires
        regs_sorted(regs),
        written_committed_by(regs, ws, cycle),
    ensures
        regs_sorted(apply_writes(regs, ws, cycle)),
        written_committed_by(apply_writes(regs, ws, cycle), ws, cycle),
    decreases ws.len(),
{
    if ws.len() > 0 {
        let w = ws[0];
        assert(regs.dom().contains(w.0) ==> forall|i: int| 0 <= i < regs[w.0].len() ==> (#[trigger] regs[w.0][i]).0 <= cycle) by {
            if regs.dom().contains(w.0) {
                assert forall|i: int| 0 <= i < regs[w.0].len() implies (#[trigger] regs[w.0][i]).0 <= cycle by {
                    assert(regs.dom().contains(ws[0].0));
                }
            }
        }
        lemma_write_keeps_sorted(regs, w, cycle);
        let r1 = apply_write(regs, w, cycle);
        let rest = ws.drop_first();
        assert forall|k: int, i: int| 0 <= k < rest.len() && r1.dom().contains(#[trigger] rest[k].0) && 0 <= i < r1[rest[k].0].len()
            implies (#[trigger] r1[rest[k].0][i]).0 <= cycle by {
            assert(rest[k] == ws[k + 1]);
            if rest[k].0 != w.0 {
                assert(regs.dom().contains(ws[k + 1].0));
            }
        }
        lemma_commit_keeps_sorted(r1, rest, cycle);
        lemma_writes_keep_written(r1, rest, cycle, w.0);
        let r = apply_writes(regs, ws, cycle);
        assert forall|k: int, i: int| 0 <= k < ws.len() && r.dom().contains(#[trigger] ws[k].0) && 0 <= i < r[ws[k].0].len()
            implies (#[trigger] r[ws[k].0][i]).0 <= cycle by {
            if k > 0 {
                assert(ws[k] == rest[k - 1]);
            }
        }
    }
}

/// A register whose versions were all committed by `cycle` keeps it so
/// through writes committed at `cycle`.
proof fn lemma_writes_keep_written(
    regs: Map<Seq<char>, Seq<(usize, Seq<u8>)>>,
    ws: Seq<(Seq<char>, usize, usize, i64)>,
    cycle: usize,
    n: Seq<char>,
)
    requires
        regs.dom().contains(n),
        forall|i: int| 0 <= i < regs[n].len() ==> (#[trigger] regs[n][i]).0 <= cycle,
    ensures
        apply_writes(regs, ws, cycle).dom().contains(n),
        forall|i: int| 0 <= i < apply_writes(regs, ws, cycle)[n].len() ==> (#[trigger] apply_writes(regs, ws, cycle)[n][i]).0 <= cycle,
    decreases ws.len(),
{
    if ws.len() > 0 {
        let w = ws[0];
        let r1 = apply_write(regs, w, cycle);
        if w.0 == n {
            lemma_write_cycles(regs, w, cycle);
        }
        lemma_writes_keep_written(r1, ws.drop_first(), cycle, n);
    }
}

proof fn lemma_write_cycles(regs: Map<Seq<char>, Seq<(usize, Seq<u8>)>>, w: (Seq<char>, usize, usize, i64), cycle: usize)
    requires
        regs.dom().contains(w.0) ==> forall|i: int| 0 <= i < regs[w.0].len() ==> (#[trigger] regs[w.0][i]).0 <= cycle,
    ensures
        forall|i: int| 0 <= i < apply_write(regs, w, cycle)[w.0].len() ==> (#[trigger] apply_write(regs, w, cycle)[w.0][i]).0 <= cycle,
{
    let vs0 = if regs.dom().contains(w.0) { regs[w.0] } else { seq![(0usize, Seq::<u8>::empty())] };
    let vs1 = if vs0.len() == 0 || vs0.last().0 != cycle {
        vs0.push((cycle, if vs0.len() == 0 { Seq::<u8>::empty() } else { vs0.last().1 }))
    } else {
        vs0
    };
    let vs2 = history_after_write(regs, w, cycle);
    assert forall|i: int| 0 <= i < vs1.len() implies (#[trigger] vs1[i]).0 <= cycle by {
        if i < vs0.len() {
            assert(vs1[i] == vs0[i]);
        }
    }
    assert forall|i: int| 0 <= i < vs2.len() implies (#[trigger] vs2[i]).0 <= cycle by {
        assert(vs2[i].0 == vs1[i].0);
    }
}
} // verus!
