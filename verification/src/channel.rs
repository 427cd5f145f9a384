//! Channels between procs: each message name of a channel has a single slot
//! that holds at most one value, and the cycles of the last send and the
//! last receive on it.
use vstd::prelude::*;
use crate::names::NameMap;

verus! {

/// What a channel holds, per message name.
pub struct ChanView {
    pub data: Map<Seq<char>, Option<i64>>,
    pub send_ts: Map<Seq<char>, usize>,
    pub recv_ts: Map<Seq<char>, usize>,
}

impl ChanView {
    pub open spec fn empty() -> ChanView {
        ChanView { data: Map::empty(), send_ts: Map::empty(), recv_ts: Map::empty() }
    }

    /// The value waiting in the slot of `msg`, if any.
    pub open spec fn slot(self, msg: Seq<char>) -> Option<i64> {
        if self.data.dom().contains(msg) { self.data[msg] } else { None }
    }

    /// The cycle of the last send on `msg`, if any.
    pub open spec fn sent_at(self, msg: Seq<char>) -> Option<usize> {
        if self.send_ts.dom().contains(msg) { Some(self.send_ts[msg]) } else { None }
    }

    /// The cycle of the last receive on `msg`, if any.
    pub open spec fn received_at(self, msg: Seq<char>) -> Option<usize> {
        if self.recv_ts.dom().contains(msg) { Some(self.recv_ts[msg]) } else { None }
    }

    /// Send `v` on `msg` at cycle `ts`.
    pub open spec fn put(self, msg: Seq<char>, v: i64, ts: usize) -> ChanView {
        ChanView { data: self.data.insert(msg, Some(v)), send_ts: self.send_ts.insert(msg, ts), recv_ts: self.recv_ts }
    }

    /// Empty the slot of `msg` at cycle `ts`.
    pub open spec fn clear(self, msg: Seq<char>, ts: usize) -> ChanView {
        ChanView { data: self.data.insert(msg, None), send_ts: self.send_ts, recv_ts: self.recv_ts.insert(msg, ts) }
    }
}

/// The channel table: which channel each endpoint name stands for, and the channels.
pub struct TableView {
    pub links: Map<Seq<char>, usize>,
    pub chans: Seq<ChanView>,
}

impl TableView {
    pub open spec fn channel_of(self, endpoint: Seq<char>) -> Option<usize> {
        if self.links.dom().contains(endpoint) { Some(self.links[endpoint]) } else { None }
    }

    /// The value waiting on `msg` of the channel behind `endpoint`; `None`
    /// when the slot is empty or the endpoint unknown.
    pub open spec fn slot(self, endpoint: Seq<char>, msg: Seq<char>) -> Option<i64> {
        match self.channel_of(endpoint) {
            Some(c) => if c < self.chans.len() { self.chans[c as int].slot(msg) } else { None },
            None => None,
        }
    }

    pub open spec fn put(self, c: int, msg: Seq<char>, v: i64, ts: usize) -> TableView {
        TableView { links: self.links, chans: self.chans.update(c, self.chans[c].put(msg, v, ts)) }
    }

    pub open spec fn clear(self, c: int, msg: Seq<char>, ts: usize) -> TableView {
        TableView { links: self.links, chans: self.chans.update(c, self.chans[c].clear(msg, ts)) }
    }
}

/// One channel: per message name, the slot and the cycles of the last send
/// and receive.
pub struct SharedChannel {
    pub data: NameMap<Option<i64>>,
    pub send_timestamps: NameMap<usize>,
    pub recv_timestamps: NameMap<usize>,
}

impl SharedChannel {
    pub open spec fn wf(&self) -> bool {
        self.data.wf() && self.send_timestamps.wf() && self.recv_timestamps.wf()
    }

    pub open spec fn view(&self) -> ChanView {
        ChanView { data: self.data@, send_ts: self.send_timestamps@, recv_ts: self.recv_timestamps@ }
    }

    pub fn new() -> (r: Self)
        ensures
            r.wf(),
            r@ == ChanView::empty(),
    {
        SharedChannel { data: NameMap::new(), send_timestamps: NameMap::new(), recv_timestamps: NameMap::new() }
    }
}

/// Endpoint names and the channels they stand for; several names may stand
/// for one channel.
pub struct ChannelTable {
    pub endpoints: NameMap<usize>,
    pub channels: Vec<SharedChannel>,
}

impl ChannelTable {
    pub open spec fn wf(&self) -> bool {
        &&& self.endpoints.wf()
        &&& forall|k: Seq<char>| #[trigger] self.endpoints@.dom().contains(k) ==> self.endpoints@[k] < self.channels@.len()
        &&& forall|c: int| 0 <= c < self.channels@.len() ==> #[trigger] self.channels@[c].wf()
    }

    pub open spec fn view(&self) -> TableView {
        TableView { links: self.endpoints@, chans: self.channels@.map_values(|ch: SharedChannel| ch@) }
    }

    pub fn new() -> (r: Self)
        ensures
            r.wf(),
            r@.links == Map::<Seq<char>, usize>::empty(),
            r@.chans == Seq::<ChanView>::empty(),
    {
        let r = ChannelTable { endpoints: NameMap::new(), channels: Vec::new() };
        assert(r@.chans =~= Seq::<ChanView>::empty());
        r
    }

    /// Add a new empty channel; returns its index.
    pub fn add_channel(&mut self) -> (c: usize)
        requires
            old(self).wf(),
        ensures
            final(self).wf(),
            c == old(self)@.chans.len(),
            c == old(self).channels@.len(),
            final(self).channels@.len() == old(self).channels@.len() + 1,
            final(self)@.links == old(self)@.links,
            final(self)@.chans == old(self)@.chans.push(ChanView::empty()),
    {
        let c = self.channels.len();
        self.channels.push(SharedChannel::new());
        proof {
            assert(self@.chans =~= old(self)@.chans.push(ChanView::empty()));
        }
        c
    }

    /// Let the endpoint name `name` stand for channel `c`.
    pub fn link(&mut self, name: String, c: usize)
        requires
            old(self).wf(),
            c < old(self).channels@.len(),
        ensures
            final(self).wf(),
            final(self)@.links == old(self)@.links.insert(name@, c),
            final(self)@.chans == old(self)@.chans,
            final(self).channels == old(self).channels,
    {
        self.endpoints.insert(name, c);
    }

    /// The channel behind an endpoint name.
    pub fn channel_of(&self, endpoint: &String) -> (r: Option<usize>)
        requires
            self.wf(),
        ensures
            r == self@.channel_of(endpoint@),
            r matches Some(c) ==> c < self@.chans.len(),
    {
        match self.endpoints.get(endpoint) {
            Some(c) => {
                proof {
                    assert(self.endpoints@.dom().contains(endpoint@));
                }
                Some(*c)
            },
            None => None,
        }
    }

    /// The value waiting on `msg` of channel `c`, if any.
    pub fn slot(&self, c: usize, msg: &String) -> (r: Option<i64>)
        requires
            self.wf(),
            c < self@.chans.len(),
        ensures
            r == self@.chans[c as int].slot(msg@),
    {
        assert(self.channels@[c as int].wf());
        match self.channels[c].data.get(msg) {
            Some(v) => *v,
            None => None,
        }
    }

    /// The cycle of the last send on `msg` of channel `c`, if any.
    pub fn sent_at(&self, c: usize, msg: &String) -> (r: Option<usize>)
        requires
            self.wf(),
            c < self@.chans.len(),
        ensures
            r == self@.chans[c as int].sent_at(msg@),
    {
        assert(self.channels@[c as int].wf());
        match self.channels[c].send_timestamps.get(msg) {
            Some(t) => Some(*t),
            None => None,
        }
    }

    /// The cycle of the last receive on `msg` of channel `c`, if any.
    pub fn received_at(&self, c: usize, msg: &String) -> (r: Option<usize>)
        requires
            self.wf(),
            c < self@.chans.len(),
        ensures
            r == self@.chans[c as int].received_at(msg@),
    {
        assert(self.channels@[c as int].wf());
        match self.channels[c].recv_timestamps.get(msg) {
            Some(t) => Some(*t),
            None => None,
        }
    }

    /// Send `v` on `msg` of channel `c` at cycle `ts`.
    pub fn put(&mut self, c: usize, msg: &String, v: i64, ts: usize)
        requires
            old(self).wf(),
            c < old(self)@.chans.len(),
        ensures
            final(self).wf(),
            final(self)@ == old(self)@.put(c as int, msg@, v, ts),
    {
        assert(self.channels@[c as int].wf());
        self.channels[c].data.insert(msg.clone(), Some(v));
        self.channels[c].send_timestamps.insert(msg.clone(), ts);
        proof {
            assert(self@.chans =~= old(self)@.put(c as int, msg@, v, ts).chans);
        }
    }

    /// Empty the slot of `msg` of channel `c` at cycle `ts`.
    pub fn clear(&mut self, c: usize, msg: &String, ts: usize)
        requires
            old(self).wf(),
            c < old(self)@.chans.len(),
        ensures
            final(self).wf(),
            final(self)@ == old(self)@.clear(c as int, msg@, ts),
    {
        assert(self.channels@[c as int].wf());
        self.channels[c].data.insert(msg.clone(), None);
        self.channels[c].recv_timestamps.insert(msg.clone(), ts);
        proof {
            assert(self@.chans =~= old(self)@.clear(c as int, msg@, ts).chans);
        }
    }
}

/// Values received by `SeqRecv` events, by endpoint and message name, kept
/// so that wires can still read them after the channel slot was emptied.
pub struct RecvCache {
    pub by_endpoint: NameMap<NameMap<i64>>,
}

impl RecvCache {
    pub open spec fn wf(&self) -> bool {
        &&& self.by_endpoint.wf()
        &&& forall|i: int| 0 <= i < self.by_endpoint.entries@.len() ==> (#[trigger] self.by_endpoint.entries@[i]).1.wf()
    }

    pub open spec fn view(&self) -> Map<(Seq<char>, Seq<char>), i64> {
        Map::new(
            |k: (Seq<char>, Seq<char>)| self.by_endpoint@.dom().contains(k.0) && self.by_endpoint@[k.0]@.dom().contains(k.1),
            |k: (Seq<char>, Seq<char>)| self.by_endpoint@[k.0]@[k.1],
        )
    }

    pub fn new() -> (r: Self)
        ensures
            r.wf(),
            r@ == Map::<(Seq<char>, Seq<char>), i64>::empty(),
    {
        let r = RecvCache { by_endpoint: NameMap::new() };
        assert(r@ =~= Map::<(Seq<char>, Seq<char>), i64>::empty());
        r
    }

    pub fn get(&self, endpoint: &String, msg: &String) -> (r: Option<i64>)
        requires
            self.wf(),
        ensures
            r == (if self@.dom().contains((endpoint@, msg@)) { Some(self@[(endpoint@, msg@)]) } else { None }),
    {
        match self.by_endpoint.find(endpoint) {
            Some(i) => {
                assert(self.by_endpoint.entries@[i as int].1.wf());
                match self.by_endpoint.entries[i].1.get(msg) {
                    Some(v) => Some(*v),
                    None => None,
                }
            },
            None => None,
        }
    }

    pub fn insert(&mut self, endpoint: &String, msg: &String, v: i64)
        requires
            old(self).wf(),
        ensures
            final(self).wf(),
            final(self)@ == old(self)@.insert((endpoint@, msg@), v),
    {
        let ghost old_self = *self;
        match self.by_endpoint.find(endpoint) {
            Some(i) => {
                assert(self.by_endpoint.entries@[i as int].1.wf());
                self.by_endpoint.entries[i].1.insert(msg.clone(), v);
                proof {
                    self.by_endpoint.lemma_same_keys_update(old_self.by_endpoint, i as int);
                    assert forall|j: int| 0 <= j < self.by_endpoint.entries@.len() implies (#[trigger] self.by_endpoint.entries@[j]).1.wf() by {
                        if j != i {
                            assert(old_self.by_endpoint.entries@[j].1.wf());
                        }
                    }
                    assert forall|e: Seq<char>| e != endpoint@ implies self.by_endpoint@.dom().contains(e) == old_self.by_endpoint@.dom().contains(e)
                        && (self.by_endpoint@.dom().contains(e) ==> self.by_endpoint@[e] == old_self.by_endpoint@[e]) by {
                        assert(self.by_endpoint.lookup(e) == old_self.by_endpoint.lookup(e));
                    }
                    assert(self.by_endpoint.lookup(endpoint@) == Some(self.by_endpoint.entries@[i as int].1));
                    old_self.by_endpoint.lemma_pos(i as int);
                }
            },
            None => {
                let mut inner: NameMap<i64> = NameMap::new();
                inner.insert(msg.clone(), v);
                self.by_endpoint.insert(endpoint.clone(), inner);
                proof {
                    assert forall|j: int| 0 <= j < self.by_endpoint.entries@.len() implies (#[trigger] self.by_endpoint.entries@[j]).1.wf() by {
                        let key = self.by_endpoint.entries@[j].0@;
                        self.by_endpoint.lemma_pos(j);
                        if key != endpoint@ {
                            assert(self.by_endpoint.lookup(key) == old_self.by_endpoint.lookup(key));
                            let p = old_self.by_endpoint.pos(key);
                            assert(old_self.by_endpoint.entries@[p].1.wf());
                        }
                    }
                    assert forall|e: Seq<char>| e != endpoint@ implies self.by_endpoint@.dom().contains(e) == old_self.by_endpoint@.dom().contains(e)
                        && (self.by_endpoint@.dom().contains(e) ==> self.by_endpoint@[e] == old_self.by_endpoint@[e]) by {
                        assert(self.by_endpoint.lookup(e) == old_self.by_endpoint.lookup(e));
                    }
                }
            },
        }
        assert(self@ =~= old_self@.insert((endpoint@, msg@), v));
    }
}

} // verus!
