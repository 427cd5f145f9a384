//! Putting a program together: the procs of all compilation units, and the
//! channel table that the procs share.
use vstd::prelude::*;
use crate::channel::{ChanView, ChannelTable, TableView};
use crate::ir::{ChannelDef, Collection, ProcGraph, SpawnDef};

verus! {

/// The procs of all units, unit by unit, in order.
pub open spec fn all_procs(units: Seq<Collection>) -> Seq<ProcGraph>
    decreases units.len(),
{
    if units.len() == 0 {
        Seq::empty()
    } else {
        all_procs(units.drop_last()) + units.last().procs@
    }
}

/// Gather the procs of all compilation units, in order.
pub fn flatten_procs(units: Vec<Collection>) -> (r: Vec<ProcGraph>)
    ensures
        r@ == all_procs(units@),
{
    let ghost u0 = units@;
    let mut units = units;
    let mut out: Vec<ProcGraph> = Vec::new();
    let mut k: usize = 0;
    let n = units.len();
    assert(u0.take(0) =~= Seq::<Collection>::empty());
    assert(u0.skip(0) =~= u0);
    while units.len() > 0
        invariant
            k + units@.len() == n,
            n == u0.len(),
            units@ == u0.skip(k as int),
            out@ == all_procs(u0.take(k as int)),
        decreases units@.len(),
    {
        let mut c = units.remove(0);
        proof {
            assert(c == u0[k as int]);
            assert(u0.take(k + 1).drop_last() =~= u0.take(k as int));
            assert(u0.take(k + 1).last() == c);
            assert(u0.skip(k as int).drop_first() =~= u0.skip(k + 1));
        }
        let ghost before = out@;
        let ghost ps = c.procs@;
        out.append(&mut c.procs);
        proof {
            assert(out@ =~= before + ps);
        }
        k = k + 1;
    }
    proof {
        assert(u0.take(k as int) =~= u0);
    }
    out
}

/// The parameter names of the last proc called `name`.
pub open spec fn proc_args(procs: Seq<ProcGraph>, name: Seq<char>) -> Option<Seq<String>>
    decreases procs.len(),
{
    if procs.len() == 0 {
        None
    } else if procs.last().name@ == name {
        Some(procs.last().args@)
    } else {
        proc_args(procs.drop_last(), name)
    }
}

/// Each declared channel gets a new channel, which both its endpoint names stand for.
pub open spec fn declare_channels(tb: TableView, chs: Seq<ChannelDef>) -> TableView
    decreases chs.len(),
{
    if chs.len() == 0 {
        tb
    } else {
        let c = tb.chans.len() as usize;
        let tb1 = TableView {
            links: tb.links.insert(chs[0].left@, c).insert(chs[0].right@, c),
            chans: tb.chans.push(ChanView::empty()),
        };
        declare_channels(tb1, chs.drop_first())
    }
}

/// The parameter names of a spawned proc, taken in pairs with the endpoints
/// handed to them, stand for the same channels as those endpoints (when
/// they stand for one).
pub open spec fn alias_args(tb: TableView, args: Seq<String>, eps: Seq<String>) -> TableView
    decreases args.len(),
{
    if args.len() == 0 || eps.len() == 0 {
        tb
    } else {
        let tb1 = match tb.channel_of(eps[0]@) {
            Some(c) => TableView { links: tb.links.insert(args[0]@, c), ..tb },
            None => tb,
        };
        alias_args(tb1, args.drop_first(), eps.drop_first())
    }
}

pub open spec fn link_spawns(tb: TableView, spawns: Seq<SpawnDef>, all: Seq<ProcGraph>) -> TableView
    decreases spawns.len(),
{
    if spawns.len() == 0 {
        tb
    } else {
        let tb1 = match proc_args(all, spawns[0].module_name@) {
            Some(args) => alias_args(tb, args, spawns[0].endpoints@),
            None => tb,
        };
        link_spawns(tb1, spawns.drop_first(), all)
    }
}

/// Proc by proc: its channels, then the aliases of its spawns.
pub open spec fn table_after(procs: Seq<ProcGraph>, all: Seq<ProcGraph>, tb: TableView) -> TableView
    decreases procs.len(),
{
    if procs.len() == 0 {
        tb
    } else {
        table_after(procs.drop_first(), all, link_spawns(declare_channels(tb, procs[0].channels@), procs[0].spawns@, all))
    }
}

pub open spec fn empty_table() -> TableView {
    TableView { links: Map::empty(), chans: Seq::empty() }
}

fn find_proc_args<'a>(procs: &'a Vec<ProcGraph>, name: &String) -> (r: Option<&'a Vec<String>>)
    ensures
        r is None <==> proc_args(procs@, name@) is None,
        r matches Some(a) ==> proc_args(procs@, name@) == Some(a@),
{
    let mut k: usize = procs.len();
    assert(procs@.take(k as int) =~= procs@);
    while k > 0
        invariant
            k <= procs@.len(),
            proc_args(procs@, name@) == proc_args(procs@.take(k as int), name@),
        decreases k,
    {
        assert(procs@.take(k as int).drop_last() =~= procs@.take(k - 1));
        if procs[k - 1].name == *name {
            return Some(&procs[k - 1].args);
        }
        k = k - 1;
    }
    None
}

/// Build the channel table of a program: every channel a proc declares is a
/// new channel under the names of both its endpoints, and the parameters of
/// a spawned proc stand for the channels of the endpoints handed to them.
pub fn build_channel_table(procs: &Vec<ProcGraph>) -> (r: ChannelTable)
    ensures
        r.wf(),
        r@ == table_after(procs@, procs@, empty_table()),
{
    let mut table = ChannelTable::new();
    let mut i: usize = 0;
    assert(procs@.skip(0) =~= procs@);
    assert(table@ == empty_table());
    while i < procs.len()
        invariant
            table.wf(),
            i <= procs@.len(),
            table_after(procs@, procs@, empty_table()) == table_after(procs@.skip(i as int), procs@, table@),
        decreases procs@.len() - i,
    {
        let ghost rest = procs@.skip(i as int);
        assert(rest[0] == procs@[i as int]);
        assert(rest.drop_first() =~= procs@.skip(i + 1));
        let p = &procs[i];
        let mut j: usize = 0;
        let ghost tb0 = table@;
        assert(p.channels@.skip(0) =~= p.channels@);
        while j < p.channels.len()
            invariant
                table.wf(),
                j <= p.channels@.len(),
                declare_channels(tb0, p.channels@) == declare_channels(table@, p.channels@.skip(j as int)),
            decreases p.channels@.len() - j,
        {
            let ghost crest = p.channels@.skip(j as int);
            assert(crest[0] == p.channels@[j as int]);
            assert(crest.drop_first() =~= p.channels@.skip(j + 1));
            let ch = &p.channels[j];
            let ghost before = table@;
            let c = table.add_channel();
            table.link(ch.left.clone(), c);
            table.link(ch.right.clone(), c);
            j = j + 1;
        }
        assert(p.channels@.skip(j as int).len() == 0);
        let ghost tb1 = table@;
        let mut k: usize = 0;
        assert(p.spawns@.skip(0) =~= p.spawns@);
        while k < p.spawns.len()
            invariant
                table.wf(),
                k <= p.spawns@.len(),
                link_spawns(tb1, p.spawns@, procs@) == link_spawns(table@, p.spawns@.skip(k as int), procs@),
            decreases p.spawns@.len() - k,
        {
            let ghost srest = p.spawns@.skip(k as int);
            assert(srest[0] == p.spawns@[k as int]);
            assert(srest.drop_first() =~= p.spawns@.skip(k + 1));
            let sp = &p.spawns[k];
            match find_proc_args(procs, &sp.module_name) {
                Some(args) => {
                    let mut a: usize = 0;
                    let ghost tb2 = table@;
                    assert(args@.skip(0) =~= args@);
                    assert(sp.endpoints@.skip(0) =~= sp.endpoints@);
                    while a < args.len() && a < sp.endpoints.len()
                        invariant
                            table.wf(),
                            a <= args@.len(),
                            a <= sp.endpoints@.len(),
                            alias_args(tb2, args@, sp.endpoints@) == alias_args(table@, args@.skip(a as int), sp.endpoints@.skip(a as int)),
                        decreases args@.len() - a,
                    {
                        let ghost ar = args@.skip(a as int);
                        let ghost er = sp.endpoints@.skip(a as int);
                        assert(ar[0] == args@[a as int]);
                        assert(er[0] == sp.endpoints@[a as int]);
                        assert(ar.drop_first() =~= args@.skip(a + 1));
                        assert(er.drop_first() =~= sp.endpoints@.skip(a + 1));
                        match table.channel_of(&sp.endpoints[a]) {
                            Some(c) => {
                                let ghost before = table@;
                                table.link(args[a].clone(), c);
                                proof {
                                    assert(table@ == TableView { links: before.links.insert(args@[a as int]@, c), ..before });
                                }
                            },
                            None => {},
                        }
                        a = a + 1;
                    }
                    proof {
                        assert(args@.skip(a as int).len() == 0 || sp.endpoints@.skip(a as int).len() == 0);
                    }
                },
                None => {},
            }
            k = k + 1;
        }
        assert(p.spawns@.skip(k as int).len() == 0);
        i = i + 1;
    }
    assert(procs@.skip(i as int).len() == 0);
    table
}


/// Law (both endpoints of a declared channel stand for the same channel):
/// after declaring channels in order, the two endpoint names of a channel
/// that no later declaration names again stand for the channel made for it,
/// the one after those the table had.
pub proof fn lemma_declared_endpoints_share(tb: TableView, chs: Seq<ChannelDef>, i: int)
    requires
        0 <= i < chs.len(),
        tb.chans.len() + chs.len() <= usize::MAX,
        forall|j: int| i < j < chs.len() ==> {
            &&& (#[trigger] chs[j]).left@ != chs[i].left@
            &&& chs[j].right@ != chs[i].left@
            &&& chs[j].left@ != chs[i].right@
            &&& chs[j].right@ != chs[i].right@
        },
    ensures
        declare_channels(tb, chs).channel_of(chs[i].left@) == Some((tb.chans.len() + i) as usize),
        declare_channels(tb, chs).channel_of(chs[i].right@) == Some((tb.chans.len() + i) as usize),
        declare_channels(tb, chs).chans.len() == tb.chans.len() + chs.len(),
    decreases chs.len(),
{
    let c = tb.chans.len() as usize;
    let tb1 = TableView {
        links: tb.links.insert(chs[0].left@, c).insert(chs[0].right@, c),
        chans: tb.chans.push(ChanView::empty()),
    };
    let rest = chs.drop_first();
    if i == 0 {
        lemma_declare_keeps(tb1, rest, chs[0].left@);
        lemma_declare_keeps(tb1, rest, chs[0].right@);
    } else {
        assert forall|j: int| i - 1 < j < rest.len() implies {
            &&& (#[trigger] rest[j]).left@ != rest[i - 1].left@
            &&& rest[j].right@ != rest[i - 1].left@
            &&& rest[j].left@ != rest[i - 1].right@
            &&& rest[j].right@ != rest[i - 1].right@
        } by {
            assert(rest[j] == chs[j + 1]);
        }
        lemma_declared_endpoints_share(tb1, rest, i - 1);
    }
}

proof fn lemma_declare_keeps(tb: TableView, chs: Seq<ChannelDef>, name: Seq<char>)
    requires
        tb.chans.len() + chs.len() <= usize::MAX,
        forall|j: int| 0 <= j < chs.len() ==> (#[trigger] chs[j]).left@ != name && chs[j].right@ != name,
    ensures
        declare_channels(tb, chs).channel_of(name) == tb.channel_of(name),
        declare_channels(tb, chs).chans.len() == tb.chans.len() + chs.len(),
    decreases chs.len(),
{
    if chs.len() > 0 {
        let c = tb.chans.len() as usize;
        let tb1 = TableView {
            links: tb.links.insert(chs[0].left@, c).insert(chs[0].right@, c),
            chans: tb.chans.push(ChanView::empty()),
        };
        let rest = chs.drop_first();
        assert(chs[0].left@ != name && chs[0].right@ != name);
        assert forall|j: int| 0 <= j < rest.len() implies (#[trigger] rest[j]).left@ != name && rest[j].right@ != name by {
            assert(rest[j] == chs[j + 1]);
        }
        lemma_declare_keeps(tb1, rest, name);
    }
}

/// Law (a spawned proc's parameter stands for the channel handed to it): the
/// parameter name stands for the channel of the endpoint passed in its
/// place, when that endpoint stands for one, no earlier parameter is named
/// like that endpoint and no later one like the parameter.
pub proof fn lemma_alias_shares(tb: TableView, args: Seq<String>, eps: Seq<String>, i: int)
    requires
        0 <= i < args.len(),
        i < eps.len(),
        tb.channel_of(eps[i]@) is Some,
        forall|j: int| 0 <= j < i ==> (#[trigger] args[j])@ != eps[i]@,
        forall|j: int| i < j < args.len() ==> (#[trigger] args[j])@ != args[i]@,
    ensures
        alias_args(tb, args, eps).channel_of(args[i]@) == tb.channel_of(eps[i]@),
    decreases args.len(),
{
    let tb1 = match tb.channel_of(eps[0]@) {
        Some(c) => TableView { links: tb.links.insert(args[0]@, c), ..tb },
        None => tb,
    };
    if i == 0 {
        lemma_alias_keeps(tb1, args.drop_first(), eps.drop_first(), args[0]@);
    } else {
        assert(tb1.channel_of(eps[i]@) == tb.channel_of(eps[i]@)) by {
            assert(args[0]@ != eps[i]@);
        }
        let (ra, re) = (args.drop_first(), eps.drop_first());
        assert(ra[i - 1] == args[i] && re[i - 1] == eps[i]);
        assert forall|j: int| 0 <= j < i - 1 implies (#[trigger] ra[j])@ != re[i - 1]@ by {
            assert(ra[j] == args[j + 1]);
        }
        assert forall|j: int| i - 1 < j < ra.len() implies (#[trigger] ra[j])@ != ra[i - 1]@ by {
            assert(ra[j] == args[j + 1]);
        }
        lemma_alias_shares(tb1, ra, re, i - 1);
    }
}

proof fn lemma_alias_keeps(tb: TableView, args: Seq<String>, eps: Seq<String>, name: Seq<char>)
    requires
        forall|j: int| 0 <= j < args.len() ==> (#[trigger] args[j])@ != name,
    ensures
        alias_args(tb, args, eps).channel_of(name) == tb.channel_of(name),
    decreases args.len(),
{
    if args.len() > 0 && eps.len() > 0 {
        let tb1 = match tb.channel_of(eps[0]@) {
            Some(c) => TableView { links: tb.links.insert(args[0]@, c), ..tb },
            None => tb,
        };
        assert(args[0]@ != name);
        let ra = args.drop_first();
        assert forall|j: int| 0 <= j < ra.len() implies (#[trigger] ra[j])@ != name by {
            assert(ra[j] == args[j + 1]);
        }
        lemma_alias_keeps(tb1, ra, eps.drop_first(), name);
    }
}
} // verus!
