//! The simulator of one proc: an event queue, parked channel events, a
//! register file and the work left in the current event, advanced one step
//! at a time. Each step either does a bounded piece of work or reports what
//! it waits for; the caller does the waiting and steps again.
use vstd::prelude::*;
use vstd::multiset::Multiset;
use crate::channel::{ChannelTable, RecvCache, TableView};
use crate::eval::{eval_wire, wire_result, EvalEnv, EvalError};
use crate::ir::{Action, BranchCond, Event, EventGraph, EventSource, LoweringData, SustainedAction, Wire};
use crate::queue::{entry_le, EventQueue};
use crate::regs::{apply_pending_writes, apply_writes, write_fits, writes_view, PendingWrite, RegFile};
use crate::text::{dprint, format_dprint, parse_int, parse_i64};
use crate::sort::{sort_by_id, stable_sort};
use crate::bits::{reg_write, write_reg_bits};
use crate::ir::RegDef;

verus! {

/// What a parked channel event waits for.
#[derive(Clone, Debug, PartialEq)]
pub enum ParkedKind {
    /// Data in the slot of `msg`.
    Recv { endpoint: String, msg: String },
    /// An empty slot of `msg`, to put `value` in.
    Send { endpoint: String, msg: String, value: i64 },
}

/// A channel event that could not happen when it was scheduled.
#[derive(Clone, Debug, PartialEq)]
pub struct ParkedEvent {
    pub succ_id: usize,
    pub thread_idx: usize,
    pub cycle: usize,
    pub kind: ParkedKind,
}

/// A parked event can happen: a receive finds data, a send an empty slot.
/// (Parked events name known endpoints; one that did not would never be ready.)
pub open spec fn parked_ready(p: ParkedEvent, tb: TableView) -> bool {
    match p.kind {
        ParkedKind::Recv { endpoint, msg } => match tb.channel_of(endpoint@) {
            Some(c) => tb.chans[c as int].slot(msg@) is Some,
            None => false,
        },
        ParkedKind::Send { endpoint, msg, .. } => match tb.channel_of(endpoint@) {
            Some(c) => tb.chans[c as int].slot(msg@) is None,
            None => false,
        },
    }
}

/// A ready parked event goes back to the queue at the cycle it was parked
/// at; a send puts its value in the slot, sent at that cycle.
pub open spec fn unpark_one(p: ParkedEvent, tb: TableView) -> (usize, TableView) {
    match p.kind {
        ParkedKind::Recv { .. } => (p.cycle, tb),
        ParkedKind::Send { endpoint, msg, value } => {
            let c = tb.channel_of(endpoint@).unwrap();
            (p.cycle, tb.put(c as int, msg@, value, p.cycle))
        },
    }
}

/// One pass over the parked events in order: each ready one goes back to the
/// queue (the table changing as it happens), the others stay. The flag tells
/// whether any went.
pub open spec fn unpark_pass(ps: Seq<ParkedEvent>, q: Multiset<(usize, usize, usize)>, tb: TableView)
    -> (Seq<ParkedEvent>, Multiset<(usize, usize, usize)>, TableView, bool)
    decreases ps.len(),
{
    if ps.len() == 0 {
        (ps, q, tb, false)
    } else {
        let p = ps[0];
        if parked_ready(p, tb) {
            let (fc, tb1) = unpark_one(p, tb);
            let r = unpark_pass(ps.drop_first(), q.insert((fc, p.succ_id, p.thread_idx)), tb1);
            (r.0, r.1, r.2, true)
        } else {
            let r = unpark_pass(ps.drop_first(), q, tb);
            (seq![p] + r.0, r.1, r.2, r.3)
        }
    }
}

pub proof fn lemma_unpark_pass(ps: Seq<ParkedEvent>, q: Multiset<(usize, usize, usize)>, tb: TableView)
    ensures
        unpark_pass(ps, q, tb).3 ==> unpark_pass(ps, q, tb).0.len() < ps.len(),
        !unpark_pass(ps, q, tb).3 ==> unpark_pass(ps, q, tb).0 == ps && unpark_pass(ps, q, tb).1 == q
            && unpark_pass(ps, q, tb).2 == tb,
    decreases ps.len(),
{
    if ps.len() > 0 {
        let p = ps[0];
        if parked_ready(p, tb) {
            let (fc, tb1) = unpark_one(p, tb);
            lemma_unpark_pass(ps.drop_first(), q.insert((fc, p.succ_id, p.thread_idx)), tb1);
        } else {
            lemma_unpark_pass(ps.drop_first(), q, tb);
            assert(seq![p] + ps.drop_first() =~= ps);
        }
    }
}

/// Passes over the parked events until one moves none.
pub open spec fn unpark_rounds(ps: Seq<ParkedEvent>, q: Multiset<(usize, usize, usize)>, tb: TableView)
    -> (Seq<ParkedEvent>, Multiset<(usize, usize, usize)>, TableView)
    decreases ps.len(),
{
    let r = unpark_pass(ps, q, tb);
    if r.3 {
        proof {
            lemma_unpark_pass(ps, q, tb);
        }
        unpark_rounds(r.0, r.1, r.2)
    } else {
        (ps, q, tb)
    }
}


/// One logical thread of the proc: its wires and events (both indexed by
/// id) and its root event.
pub struct ThreadState {
    pub wires: Vec<Wire>,
    pub events: Vec<Event>,
    pub root_id: usize,
}

/// A piece of the work of firing an event, left to do.
#[derive(Clone, Copy, Debug, PartialEq, Eq)]
pub enum Task {
    /// Fire event `event` of thread `thread` at `cycle`.
    Fire { thread: usize, event: usize, cycle: usize },
    /// Run the event's `ImmediateSend` actions from action `next` on;
    /// `value` is the value computed for action `next` while waiting for its slot.
    Sends { thread: usize, event: usize, cycle: usize, next: usize, value: Option<i64> },
    /// Run the event's other actions (but `ImmediateRecv`) from action `next` on.
    Actions { thread: usize, event: usize, cycle: usize, next: usize },
    /// Run the event's `ImmediateRecv` actions from action `next` on.
    Recvs { thread: usize, event: usize, cycle: usize, next: usize },
    /// Schedule the event's successors from `next` on, then re-fire the
    /// thread's root if the event recurses.
    Schedule { thread: usize, event: usize, cycle: usize, next: usize },
    /// Empty the channel slot a `SeqRecv` event has received from.
    ClearRecv { thread: usize, event: usize, cycle: usize },
}

/// Why a simulation cannot go on (where the simulator would fail).
#[derive(Clone, Copy, Debug, PartialEq, Eq)]
pub enum SimError {
    /// A wire has no value.
    Eval(EvalError),
    /// A value refers to no wire.
    MissingWire,
    /// A thread index with no thread.
    UnknownThread(usize),
    /// An event id with no event.
    UnknownEvent(usize),
    /// A channel operation of an event on an endpoint in no channel.
    UnknownEndpoint(usize),
    /// A `SeqSend` event without the sustained send that gives its value.
    NoSustainedSend(usize),
    /// A branch selecting a pattern that is not there.
    NoPattern(usize),
    /// An action the simulator does not support.
    UnsupportedAction(usize),
    /// An event source the simulator does not support as a successor.
    UnsupportedSource(usize),
    /// A cycle number past `usize::MAX`.
    CycleOverflow,
    /// A register write past the last `usize` bit position.
    WriteOverflow,
    /// A debug print asking for more values than it has.
    FormatArgs,
    /// A register initial value that is not a 64-bit decimal integer.
    InvalidInit,
    /// A thread without a `RootInit` event.
    NoRootEvent,
}

/// Why a simulation ended.
#[derive(Clone, Copy, Debug, PartialEq, Eq)]
pub enum StopReason {
    /// This proc executed `DebugFinish`.
    Finished,
    /// The simulation as a whole finished.
    Halted,
    /// Nothing is queued (events may still be parked).
    Drained,
    /// The next event lies at or past the cycle limit.
    MaxCycles,
}

/// What a step did, and what the caller is to do before the next.
#[derive(Clone, Debug, PartialEq)]
pub enum StepOutcome {
    /// Some work was done; step again.
    Progress,
    /// Print this line, then step again.
    Print(String),
    /// A channel slot is not as needed: wait for another proc to change a
    /// channel (or for the simulation to finish), then step again.
    Blocked,
    /// This proc executed `DebugFinish`: the simulation as a whole has
    /// finished; wake any waiting proc, then step again.
    FinishRequested,
    /// The simulation of this proc is over.
    Stopped(StopReason),
    /// The simulation cannot go on.
    Fault(SimError),
}

pub enum OutcomeView {
    Progress,
    Print(Seq<char>),
    Blocked,
    FinishRequested,
    Stopped(StopReason),
    Fault(SimError),
}

impl StepOutcome {
    pub open spec fn view(&self) -> OutcomeView {
        match self {
            StepOutcome::Progress => OutcomeView::Progress,
            StepOutcome::Print(s) => OutcomeView::Print(s@),
            StepOutcome::Blocked => OutcomeView::Blocked,
            StepOutcome::FinishRequested => OutcomeView::FinishRequested,
            StepOutcome::Stopped(r) => OutcomeView::Stopped(*r),
            StepOutcome::Fault(e) => OutcomeView::Fault(*e),
        }
    }
}

/// The changing state of a proc's simulation.
pub struct SimState {
    /// Register histories.
    pub regs: RegFile,
    /// Register writes buffered until the end of the cycle.
    pub pending_writes: Vec<PendingWrite>,
    /// Events to fire, by (cycle, event id, thread index).
    pub heap: EventQueue,
    /// Set when this proc executed `DebugFinish`.
    pub finished: bool,
    /// Channel events waiting for their slot.
    pub parked: Vec<ParkedEvent>,
    /// Values received by `SeqRecv` events, by (endpoint, message).
    pub recv_cache: RecvCache,
    /// Per thread and event: whether one of the two predecessors of a
    /// `Later` event has arrived.
    pub later: Vec<Vec<bool>>,
    /// The work left in firing the current event, last on top.
    pub tasks: Vec<Task>,
    /// The cycle whose events are being fired, if any.
    pub batch: Option<usize>,
}

/// The state of a proc's simulation as values.
pub struct SimView {
    pub regs: Map<Seq<char>, Seq<(usize, Seq<u8>)>>,
    pub pending: Seq<(Seq<char>, usize, usize, i64)>,
    pub queue: Multiset<(usize, usize, usize)>,
    pub finished: bool,
    pub parked: Seq<ParkedEvent>,
    pub cache: Map<(Seq<char>, Seq<char>), i64>,
    pub later: Seq<Seq<bool>>,
    pub tasks: Seq<Task>,
    pub batch: Option<usize>,
}

impl SimState {
    pub open spec fn wf(&self) -> bool {
        self.regs.wf() && self.heap.wf() && self.recv_cache.wf()
    }

    pub open spec fn view(&self) -> SimView {
        SimView {
            regs: self.regs@,
            pending: writes_view(self.pending_writes@),
            queue: self.heap@,
            finished: self.finished,
            parked: self.parked@,
            cache: self.recv_cache@,
            later: self.later@.map_values(|v: Vec<bool>| v@),
            tasks: self.tasks@,
            batch: self.batch,
        }
    }

    pub fn set_top(&mut self, task: Task)
        requires
            old(self).wf(),
            old(self).tasks@.len() > 0,
        ensures
            final(self).wf(),
            final(self).later == old(self).later,
            final(self)@ == set_task(old(self)@, task),
    {
        let ghost s0 = self@;
        self.tasks.pop();
        self.tasks.push(task);
        proof {
            assert(self@.later =~= s0.later);
            assert(self@.tasks =~= s0.tasks.drop_last().push(task));
        }
    }
    pub fn push_top(&mut self, task: Task)
        requires
            old(self).wf(),
        ensures
            final(self).wf(),
            final(self).later == old(self).later,
            final(self)@ == push_task(old(self)@, task),
    {
        let ghost s0 = self@;
        self.tasks.push(task);
        proof {
            assert(self@.later =~= s0.later);
            assert(self@.tasks =~= s0.tasks.push(task));
        }
    }
    pub fn pop_top(&mut self)
        requires
            old(self).wf(),
            old(self).tasks@.len() > 0,
        ensures
            final(self).wf(),
            final(self).later == old(self).later,
            final(self)@ == pop_task(old(self)@),
    {
        let ghost s0 = self@;
        self.tasks.pop();
        proof {
            assert(self@.later =~= s0.later);
            assert(self@.tasks =~= s0.tasks.drop_last());
        }
    }
    pub fn finish_actions(&mut self, t: usize, e: usize, c: usize)
        requires
            old(self).wf(),
            old(self).tasks@.len() > 0,
        ensures
            final(self).wf(),
            final(self).later == old(self).later,
            final(self)@ == after_actions(pop_task(old(self)@), t, e, c),
    {
        let ghost s0 = self@;
        self.tasks.pop();
        if !self.finished {
            self.tasks.push(Task::ClearRecv { thread: t, event: e, cycle: c });
            self.tasks.push(Task::Schedule { thread: t, event: e, cycle: c, next: 0 });
        }
        proof {
            assert(self@.later =~= s0.later);
            if s0.finished {
                assert(self@.tasks =~= s0.tasks.drop_last());
            } else {
                assert(self@.tasks =~= s0.tasks.drop_last().push(Task::ClearRecv { thread: t, event: e, cycle: c }).push(Task::Schedule { thread: t, event: e, cycle: c, next: 0 }));
            }
        }
    }

    /// One pass over the parked events (see `unpark_pass`); returns whether
    /// any moved back to the queue.
    fn unpark_pass(&mut self, table: &mut ChannelTable) -> (progress: bool)
        requires
            old(self).wf(),
            old(table).wf(),
        ensures
            final(self).wf(),
            final(table).wf(),
            (final(self)@.parked, final(self)@.queue, final(table)@, progress)
                == unpark_pass(old(self)@.parked, old(self)@.queue, old(table)@),
            final(self).regs == old(self).regs,
            final(self).pending_writes == old(self).pending_writes,
            final(self).finished == old(self).finished,
            final(self).recv_cache == old(self).recv_cache,
            final(self).later == old(self).later,
            final(self).tasks == old(self).tasks,
            final(self).batch == old(self).batch,
    {
        let ghost p0 = self.parked@;
        let ghost q0 = self.heap@;
        let ghost t0 = table@;
        let mut progress = false;
        let mut i: usize = 0;
        assert(p0.take(0) + p0.skip(0) =~= p0);
        assert(p0.take(0) =~= Seq::<ParkedEvent>::empty());
        assert(p0.skip(0) =~= p0);
        assert(Seq::<ParkedEvent>::empty() + unpark_pass(p0, q0, t0).0 =~= unpark_pass(p0, q0, t0).0);
        while i < self.parked.len()
            invariant
                self.wf(),
                table.wf(),
                i <= self.parked@.len(),
                self.regs == old(self).regs,
                self.pending_writes == old(self).pending_writes,
                self.finished == old(self).finished,
                self.recv_cache == old(self).recv_cache,
                self.later == old(self).later,
                self.tasks == old(self).tasks,
                self.batch == old(self).batch,
                ({
                    let r = unpark_pass(self.parked@.skip(i as int), self.heap@, table@);
                    unpark_pass(p0, q0, t0) == (self.parked@.take(i as int) + r.0, r.1, r.2, progress || r.3)
                }),
            decreases self.parked@.len() - i,
        {
            let ghost ps = self.parked@;
            let ghost rest = ps.skip(i as int);
            assert(rest[0] == ps[i as int]);
            assert(rest.drop_first() =~= ps.skip(i + 1));
            let ready = match &self.parked[i].kind {
                ParkedKind::Recv { endpoint, msg } => match table.channel_of(endpoint) {
                    Some(c) => table.slot(c, msg).is_some(),
                    None => false,
                },
                ParkedKind::Send { endpoint, msg, .. } => match table.channel_of(endpoint) {
                    Some(c) => table.slot(c, msg).is_none(),
                    None => false,
                },
            };
            if ready {
                let p = self.parked.remove(i);
                let ghost tb = table@;
                let fire_cycle: usize = p.cycle;
                match &p.kind {
                    ParkedKind::Recv { .. } => {},
                    ParkedKind::Send { endpoint, msg, value } => {
                        let c = match table.channel_of(endpoint) { Some(c) => c, None => 0 };
                        table.put(c, msg, *value, fire_cycle);
                    },
                }
                proof {
                    assert(unpark_one(p, tb) == (fire_cycle, table@));
                }
                self.heap.push((fire_cycle, p.succ_id, p.thread_idx));
                progress = true;
                proof {
                    assert(self.parked@.take(i as int) =~= ps.take(i as int));
                    assert(self.parked@.skip(i as int) =~= ps.skip(i + 1));
                }
            } else {
                proof {
                    let r = unpark_pass(ps.skip(i + 1), self.heap@, table@);
                    assert(ps.take(i as int) + (seq![ps[i as int]] + r.0) =~= ps.take(i + 1) + r.0);
                }
                i = i + 1;
            }
        }
        proof {
            assert(self.parked@.skip(i as int).len() == 0);
            assert(self.parked@.take(i as int) + Seq::<ParkedEvent>::empty() =~= self.parked@);
        }
        progress
    }

    /// Move every parked event that can now happen back to the queue (see
    /// `unpark_rounds`); nothing moves once the simulation as a whole has finished.
    pub fn try_unpark(&mut self, table: &mut ChannelTable, global_finished: bool)
        requires
            old(self).wf(),
            old(table).wf(),
        ensures
            final(self).wf(),
            final(table).wf(),
            (final(self)@.parked, final(self)@.queue, final(table)@)
                == (if global_finished { (old(self)@.parked, old(self)@.queue, old(table)@) }
                    else { unpark_rounds(old(self)@.parked, old(self)@.queue, old(table)@) }),
            final(self).regs == old(self).regs,
            final(self).pending_writes == old(self).pending_writes,
            final(self).finished == old(self).finished,
            final(self).recv_cache == old(self).recv_cache,
            final(self).later == old(self).later,
            final(self).tasks == old(self).tasks,
            final(self).batch == old(self).batch,
    {
        if global_finished {
            return;
        }
        let ghost target = unpark_rounds(self.parked@, self.heap@, table@);
        let mut progress = true;
        while progress
            invariant
                self.wf(),
                table.wf(),
                self.regs == old(self).regs,
                self.pending_writes == old(self).pending_writes,
                self.finished == old(self).finished,
                self.recv_cache == old(self).recv_cache,
                self.later == old(self).later,
                self.tasks == old(self).tasks,
                self.batch == old(self).batch,
                target == unpark_rounds(self.parked@, self.heap@, table@),
                !progress ==> target == (self.parked@, self.heap@, table@),
            decreases self.parked@.len() * 2 + (if progress { 1int } else { 0int }),
        {
            let ghost ps = self.parked@;
            let ghost q = self.heap@;
            let ghost tb = table@;
            proof {
                lemma_unpark_pass(ps, q, tb);
            }
            progress = self.unpark_pass(table);
        }
    }

    /// Commit the buffered register writes at the end of `cycle`, in order.
    pub fn apply_pending_writes(&mut self, cycle: usize)
        requires
            old(self).wf(),
            writes_fit(old(self)@.pending),
        ensures
            final(self).wf(),
            final(self).later == old(self).later,
            final(self)@ == (SimView { regs: apply_writes(old(self)@.regs, old(self)@.pending, cycle), pending: Seq::empty(), ..old(self)@ }),
    {
        let ghost s0 = self@;
        proof {
            assert forall|j: int| 0 <= j < self.pending_writes@.len() implies write_fits(#[trigger] self.pending_writes@[j]@) by {
                assert(s0.pending[j] == self.pending_writes@[j]@);
            }
        }
        apply_pending_writes(&mut self.regs, &mut self.pending_writes, cycle);
        proof {
            assert(self@.pending =~= Seq::<(Seq<char>, usize, usize, i64)>::empty());
            assert(self@.later =~= s0.later);
        }
    }
}

/// The proc being simulated and the state of its simulation.
pub struct Simulator {
    pub proc_name: String,
    pub max_cycles: Option<usize>,
    pub threads: Vec<ThreadState>,
    pub state: SimState,
}

/// The state after a step, the channel table, whether the simulation as a
/// whole has finished, and the outcome.
pub struct Next {
    pub sim: SimView,
    pub table: TableView,
    pub global: bool,
    pub out: OutcomeView,
}

pub open spec fn next(sim: SimView, table: TableView, global: bool, out: OutcomeView) -> Next {
    Next { sim, table, global, out }
}

pub open spec fn pop_task(s: SimView) -> SimView {
    SimView { tasks: s.tasks.drop_last(), ..s }
}

pub open spec fn push_task(s: SimView, t: Task) -> SimView {
    SimView { tasks: s.tasks.push(t), ..s }
}

pub open spec fn set_task(s: SimView, t: Task) -> SimView {
    SimView { tasks: s.tasks.drop_last().push(t), ..s }
}

/// What wire evaluation reads, at `cycle`.
pub open spec fn env_at(s: SimView, tb: TableView, g: bool, cycle: usize) -> EvalEnv {
    EvalEnv { regs: s.regs, cycle, table: tb, cache: s.cache, halting: g }
}

/// The value an action refers to.
pub open spec fn ld_value(wires: Seq<Wire>, env: EvalEnv, ld: LoweringData) -> Result<i64, SimError> {
    match ld.wire_id {
        None => Err(SimError::MissingWire),
        Some(w) => match wire_result(wires, env, w as int) {
            Ok(v) => Ok(v),
            Err(e) => Err(SimError::Eval(e)),
        },
    }
}

/// An error that only means waiting for a channel.
pub open spec fn waits(e: SimError) -> bool {
    e matches SimError::Eval(EvalError::Pending(_))
}

/// A step that cannot finish: the caller waits and the state stays, or the
/// simulation fails (and the state stays as well).
pub open spec fn held(s: SimView, tb: TableView, g: bool, e: SimError) -> Next {
    if waits(e) { next(s, tb, g, OutcomeView::Blocked) } else { next(s, tb, g, OutcomeView::Fault(e)) }
}

/// After an event's actions: unless this proc has finished, empty the slot
/// of a `SeqRecv` (last) after scheduling the successors (first).
pub open spec fn after_actions(s: SimView, t: usize, e: usize, c: usize) -> SimView {
    if s.finished {
        s
    } else {
        push_task(push_task(s, Task::ClearRecv { thread: t, event: e, cycle: c }), Task::Schedule { thread: t, event: e, cycle: c, next: 0 })
    }
}

/// Firing an event: a `SeqRecv` keeps the value it receives; then its
/// `ImmediateSend` actions run. Nothing happens once this proc has finished.
pub open spec fn fire_spec(threads: Seq<ThreadState>, s: SimView, tb: TableView, g: bool, t: usize, e: usize, c: usize) -> Next {
    if t >= threads.len() {
        next(s, tb, g, OutcomeView::Fault(SimError::UnknownThread(t)))
    } else if s.finished {
        next(pop_task(s), tb, g, OutcomeView::Progress)
    } else if e >= threads[t as int].events@.len() {
        next(s, tb, g, OutcomeView::Fault(SimError::UnknownEvent(e)))
    } else {
        let s1 = set_task(s, Task::Sends { thread: t, event: e, cycle: c, next: 0, value: None });
        match threads[t as int].events@[e as int].source {
            EventSource::SeqRecv { endpoint, msg, .. } => match tb.channel_of(endpoint@) {
                None => next(s, tb, g, OutcomeView::Fault(SimError::UnknownEndpoint(e))),
                Some(ch) => match tb.chans[ch as int].slot(msg@) {
                    Some(v) => next(SimView { cache: s1.cache.insert((endpoint@, msg@), v), ..s1 }, tb, g, OutcomeView::Progress),
                    None => next(s1, tb, g, OutcomeView::Progress),
                },
            },
            _ => next(s1, tb, g, OutcomeView::Progress),
        }
    }
}

/// Running the `ImmediateSend` actions, one per step: the value is computed
/// once, then the send waits for an empty slot (or, once the simulation as a
/// whole has finished, gives up and ends the event's actions).
pub open spec fn sends_spec(threads: Seq<ThreadState>, s: SimView, tb: TableView, g: bool, t: usize, e: usize, c: usize, k: usize, value: Option<i64>) -> Next {
    if t >= threads.len() {
        next(s, tb, g, OutcomeView::Fault(SimError::UnknownThread(t)))
    } else if e >= threads[t as int].events@.len() {
        next(s, tb, g, OutcomeView::Fault(SimError::UnknownEvent(e)))
    } else {
        let acts = threads[t as int].events@[e as int].actions@;
        if k >= acts.len() {
            next(set_task(s, Task::Actions { thread: t, event: e, cycle: c, next: 0 }), tb, g, OutcomeView::Progress)
        } else {
            match acts[k as int] {
                Action::ImmediateSend { endpoint, msg, value: ld } => {
                    let vr = match value {
                        Some(v) => Ok(v),
                        None => ld_value(threads[t as int].wires@, env_at(s, tb, g, c), ld),
                    };
                    match vr {
                        Err(err) => held(s, tb, g, err),
                        Ok(v) => match tb.channel_of(endpoint@) {
                            None => next(s, tb, g, OutcomeView::Fault(SimError::UnknownEndpoint(e))),
                            Some(ch) => if tb.chans[ch as int].slot(msg@) is Some {
                                if g {
                                    next(after_actions(pop_task(s), t, e, c), tb, g, OutcomeView::Progress)
                                } else {
                                    next(set_task(s, Task::Sends { thread: t, event: e, cycle: c, next: k, value: Some(v) }), tb, g, OutcomeView::Blocked)
                                }
                            } else {
                                next(set_task(s, Task::Sends { thread: t, event: e, cycle: c, next: (k + 1) as usize, value: None }),
                                    tb.put(ch as int, msg@, v, c), g, OutcomeView::Progress)
                            },
                        },
                    }
                },
                _ => next(set_task(s, Task::Sends { thread: t, event: e, cycle: c, next: (k + 1) as usize, value: None }), tb, g, OutcomeView::Progress),
            }
        }
    }
}

/// The values of the arguments of a debug print, in order.
pub open spec fn args_values(wires: Seq<Wire>, env: EvalEnv, args: Seq<LoweringData>) -> Result<Seq<i64>, SimError>
    decreases args.len(),
{
    if args.len() == 0 {
        Ok(Seq::empty())
    } else {
        match ld_value(wires, env, args[0]) {
            Err(e) => Err(e),
            Ok(v) => match args_values(wires, env, args.drop_first()) {
                Err(e) => Err(e),
                Ok(vs) => Ok(seq![v] + vs),
            },
        }
    }
}

/// The bit offset a register assignment writes at.
pub open spec fn target_offset(wires: Seq<Wire>, env: EvalEnv, offset: usize, offset_is_const: bool) -> Result<usize, SimError> {
    if offset_is_const {
        Ok(offset)
    } else {
        match wire_result(wires, env, offset as int) {
            Ok(x) => Ok(x as usize),
            Err(e) => Err(SimError::Eval(e)),
        }
    }
}

/// Running the other actions, one per step: a register assignment buffers
/// its write until the end of the cycle, a debug print hands its line out,
/// and `DebugFinish` finishes this proc and the simulation as a whole, ending
/// the event's actions.
pub open spec fn actions_spec(threads: Seq<ThreadState>, s: SimView, tb: TableView, g: bool, t: usize, e: usize, c: usize, k: usize) -> Next {
    if t >= threads.len() {
        next(s, tb, g, OutcomeView::Fault(SimError::UnknownThread(t)))
    } else if e >= threads[t as int].events@.len() {
        next(s, tb, g, OutcomeView::Fault(SimError::UnknownEvent(e)))
    } else {
        let acts = threads[t as int].events@[e as int].actions@;
        let wires = threads[t as int].wires@;
        let env = env_at(s, tb, g, c);
        let s_next = set_task(s, Task::Actions { thread: t, event: e, cycle: c, next: (k + 1) as usize });
        if k >= acts.len() {
            next(set_task(s, Task::Recvs { thread: t, event: e, cycle: c, next: 0 }), tb, g, OutcomeView::Progress)
        } else {
            match acts[k as int] {
                Action::ImmediateSend { .. } => next(s_next, tb, g, OutcomeView::Progress),
                Action::ImmediateRecv { .. } => next(s_next, tb, g, OutcomeView::Progress),
                Action::DebugFinish => next(pop_task(SimView { finished: true, ..s }), tb, true, OutcomeView::FinishRequested),
                Action::DebugPrint { fmt, args } => match args_values(wires, env, args@) {
                    Err(err) => held(s, tb, g, err),
                    Ok(vals) => match dprint(fmt@, vals) {
                        None => next(s, tb, g, OutcomeView::Fault(SimError::FormatArgs)),
                        Some(txt) => next(s_next, tb, g, OutcomeView::Print(txt)),
                    },
                },
                Action::RegAssign { target, value } => match ld_value(wires, env, value) {
                    Err(err) => held(s, tb, g, err),
                    Ok(v) => match target_offset(wires, env, target.offset, target.offset_is_const) {
                        Err(err) => held(s, tb, g, err),
                        Ok(off) => next(SimView { pending: s.pending.push((target.reg@, off, target.size, v)), ..s_next }, tb, g, OutcomeView::Progress),
                    },
                },
                Action::PutShared { .. } => next(s, tb, g, OutcomeView::Fault(SimError::UnsupportedAction(e))),
            }
        }
    }
}

/// Running the `ImmediateRecv` actions, one per step: each empties its slot;
/// after the last, the event's actions are over.
pub open spec fn recvs_spec(threads: Seq<ThreadState>, s: SimView, tb: TableView, g: bool, t: usize, e: usize, c: usize, k: usize) -> Next {
    if t >= threads.len() {
        next(s, tb, g, OutcomeView::Fault(SimError::UnknownThread(t)))
    } else if e >= threads[t as int].events@.len() {
        next(s, tb, g, OutcomeView::Fault(SimError::UnknownEvent(e)))
    } else {
        let acts = threads[t as int].events@[e as int].actions@;
        let s_next = set_task(s, Task::Recvs { thread: t, event: e, cycle: c, next: (k + 1) as usize });
        if k >= acts.len() {
            next(after_actions(pop_task(s), t, e, c), tb, g, OutcomeView::Progress)
        } else {
            match acts[k as int] {
                Action::ImmediateRecv { endpoint, msg } => match tb.channel_of(endpoint@) {
                    None => next(s, tb, g, OutcomeView::Fault(SimError::UnknownEndpoint(e))),
                    Some(ch) => next(s_next, tb.clear(ch as int, msg@, c), g, OutcomeView::Progress),
                },
                _ => next(s_next, tb, g, OutcomeView::Progress),
            }
        }
    }
}

/// After a `SeqRecv` event is done with the value, its slot is emptied so
/// the sender can send again.
pub open spec fn clear_recv_spec(threads: Seq<ThreadState>, s: SimView, tb: TableView, g: bool, t: usize, e: usize, c: usize) -> Next {
    if t >= threads.len() {
        next(s, tb, g, OutcomeView::Fault(SimError::UnknownThread(t)))
    } else if e >= threads[t as int].events@.len() {
        next(s, tb, g, OutcomeView::Fault(SimError::UnknownEvent(e)))
    } else {
        match threads[t as int].events@[e as int].source {
            EventSource::SeqRecv { endpoint, msg, .. } => match tb.channel_of(endpoint@) {
                None => next(s, tb, g, OutcomeView::Fault(SimError::UnknownEndpoint(e))),
                Some(ch) => next(pop_task(s), tb.clear(ch as int, msg@, c), g, OutcomeView::Progress),
            },
            _ => next(pop_task(s), tb, g, OutcomeView::Progress),
        }
    }
}

/// The value of the first sustained send (in order) that lasts until
/// `succ` on endpoint `ep` and message `msg`.
pub open spec fn find_sustained_in(acts: Seq<SustainedAction>, succ: usize, ep: Seq<char>, msg: Seq<char>) -> Option<LoweringData>
    decreases acts.len(),
{
    if acts.len() == 0 {
        None
    } else {
        match acts[0] {
            SustainedAction::SustainedSend { until_id, endpoint, msg: m, value } => if until_id == succ && endpoint@ == ep && m@ == msg {
                Some(value)
            } else {
                find_sustained_in(acts.drop_first(), succ, ep, msg)
            },
        }
    }
}

/// The same, over the sustained actions of all events in order.
pub open spec fn find_sustained(events: Seq<Event>, succ: usize, ep: Seq<char>, msg: Seq<char>) -> Option<LoweringData>
    decreases events.len(),
{
    if events.len() == 0 {
        None
    } else {
        match find_sustained_in(events[0].sustained_actions@, succ, ep, msg) {
            Some(v) => Some(v),
            None => find_sustained(events.drop_first(), succ, ep, msg),
        }
    }
}

/// Whether a branch is taken, given the value of its condition.
pub open spec fn branch_taken(wires: Seq<Wire>, env: EvalEnv, succ: usize, branch_sel: usize, cond: BranchCond, cv: i64) -> Result<bool, SimError> {
    match cond {
        BranchCond::TrueFalse(_) => Ok((branch_sel == 0 && cv != 0) || (branch_sel == 1 && cv == 0)),
        BranchCond::MatchCases { patterns } => if branch_sel >= patterns@.len() {
            Err(SimError::NoPattern(succ))
        } else {
            match ld_value(wires, env, patterns@[branch_sel as int]) {
                Err(x) => Err(x),
                Ok(p) => Ok(cv == p),
            }
        },
    }
}

/// Scheduling an event's successors, one per step, by the kind of each:
/// `SeqCycles` goes in the queue that many cycles later; a taken branch, a
/// `Branch`, a `Later` whose other predecessor has arrived, a send finding
/// its slot empty (after filling it) and a receive finding data fire at once
/// (before the following successors); a send or receive that cannot happen
/// is parked. After the last successor, a recursing event fires its thread's
/// root again. Once this proc has finished, scheduling stops.
pub open spec fn schedule_spec(threads: Seq<ThreadState>, s: SimView, tb: TableView, g: bool, t: usize, e: usize, c: usize, k: usize) -> Next {
    if t >= threads.len() {
        next(s, tb, g, OutcomeView::Fault(SimError::UnknownThread(t)))
    } else if e >= threads[t as int].events@.len() {
        next(s, tb, g, OutcomeView::Fault(SimError::UnknownEvent(e)))
    } else {
        let events = threads[t as int].events@;
        let wires = threads[t as int].wires@;
        let ev = events[e as int];
        let outs = ev.outs@;
        if k >= outs.len() {
            let s1 = pop_task(s);
            next(if ev.is_recurse && !s.finished { push_task(s1, Task::Fire { thread: t, event: threads[t as int].root_id, cycle: c }) } else { s1 },
                tb, g, OutcomeView::Progress)
        } else if s.finished {
            next(pop_task(s), tb, g, OutcomeView::Progress)
        } else {
            let succ = outs[k as int];
            if succ >= events.len() {
                next(s, tb, g, OutcomeView::Fault(SimError::UnknownEvent(succ)))
            } else {
                let s1 = set_task(s, Task::Schedule { thread: t, event: e, cycle: c, next: (k + 1) as usize });
                let fire = push_task(s1, Task::Fire { thread: t, event: succ, cycle: c });
                let env = env_at(s, tb, g, c);
                match events[succ as int].source {
                    EventSource::SeqCycles { cycles, .. } => if c + cycles > usize::MAX {
                        next(s, tb, g, OutcomeView::Fault(SimError::CycleOverflow))
                    } else {
                        next(SimView { queue: s1.queue.insert(((c + cycles) as usize, succ, t)), ..s1 }, tb, g, OutcomeView::Progress)
                    },
                    EventSource::RootBranch { branch_sel, cond_wire_id, branch_cond, .. } => match cond_wire_id {
                        None => next(s, tb, g, OutcomeView::Fault(SimError::MissingWire)),
                        Some(cw) => match wire_result(wires, env, cw as int) {
                            Err(err) => held(s, tb, g, SimError::Eval(err)),
                            Ok(cv) => match branch_taken(wires, env, succ, branch_sel, branch_cond, cv) {
                                Err(x) => held(s, tb, g, x),
                                Ok(taken) => next(if taken { fire } else { s1 }, tb, g, OutcomeView::Progress),
                            },
                        },
                    },
                    EventSource::Branch { .. } => next(fire, tb, g, OutcomeView::Progress),
                    EventSource::Later { .. } => if s.later[t as int][succ as int] {
                        next(SimView { later: s.later.update(t as int, s.later[t as int].update(succ as int, false)), ..fire }, tb, g, OutcomeView::Progress)
                    } else {
                        next(SimView { later: s.later.update(t as int, s.later[t as int].update(succ as int, true)), ..s1 }, tb, g, OutcomeView::Progress)
                    },
                    EventSource::SeqSend { endpoint, msg, .. } => match find_sustained(events, succ, endpoint@, msg@) {
                        None => next(s, tb, g, OutcomeView::Fault(SimError::NoSustainedSend(succ))),
                        Some(ld) => match ld_value(wires, env, ld) {
                            Err(x) => held(s, tb, g, x),
                            Ok(v) => match tb.channel_of(endpoint@) {
                                None => next(s, tb, g, OutcomeView::Fault(SimError::UnknownEndpoint(succ))),
                                Some(ch) => if tb.chans[ch as int].slot(msg@) is None {
                                    next(fire, tb.put(ch as int, msg@, v, c), g, OutcomeView::Progress)
                                } else {
                                    next(SimView { parked: s1.parked.push(ParkedEvent { succ_id: succ, thread_idx: t, cycle: c,
                                        kind: ParkedKind::Send { endpoint, msg, value: v } }), ..s1 }, tb, g, OutcomeView::Progress)
                                },
                            },
                        },
                    },
                    EventSource::SeqRecv { endpoint, msg, .. } => match tb.channel_of(endpoint@) {
                        None => next(s, tb, g, OutcomeView::Fault(SimError::UnknownEndpoint(succ))),
                        Some(ch) => if tb.chans[ch as int].slot(msg@) is Some {
                            next(fire, tb, g, OutcomeView::Progress)
                        } else {
                            next(SimView { parked: s1.parked.push(ParkedEvent { succ_id: succ, thread_idx: t, cycle: c,
                                kind: ParkedKind::Recv { endpoint, msg } }), ..s1 }, tb, g, OutcomeView::Progress)
                        },
                    },
                    _ => next(s, tb, g, OutcomeView::Fault(SimError::UnsupportedSource(succ))),
                }
            }
        }
    }
}

fn find_sustained_exec<'a>(events: &'a Vec<Event>, succ: usize, ep: &String, msg: &String) -> (r: Option<&'a LoweringData>)
    ensures
        r is None <==> find_sustained(events@, succ, ep@, msg@) is None,
        r matches Some(l) ==> find_sustained(events@, succ, ep@, msg@) == Some(*l),
{
    let mut i: usize = 0;
    assert(events@.skip(0) =~= events@);
    while i < events.len()
        invariant
            i <= events@.len(),
            find_sustained(events@, succ, ep@, msg@) == find_sustained(events@.skip(i as int), succ, ep@, msg@),
        decreases events@.len() - i,
    {
        let ghost rest = events@.skip(i as int);
        assert(rest[0] == events@[i as int]);
        assert(rest.drop_first() =~= events@.skip(i + 1));
        let acts = &events[i].sustained_actions;
        let mut j: usize = 0;
        assert(acts@.skip(0) =~= acts@);
        while j < acts.len()
            invariant
                i < events@.len(),
                acts@ == events@[i as int].sustained_actions@,
                find_sustained(events@, succ, ep@, msg@) == find_sustained(events@.skip(i as int), succ, ep@, msg@),
                events@.skip(i as int)[0] == events@[i as int],
                events@.skip(i as int).drop_first() == events@.skip(i + 1),
                j <= acts@.len(),
                find_sustained_in(acts@, succ, ep@, msg@) == find_sustained_in(acts@.skip(j as int), succ, ep@, msg@),
            decreases acts@.len() - j,
        {
            let ghost arest = acts@.skip(j as int);
            assert(arest[0] == acts@[j as int]);
            assert(arest.drop_first() =~= acts@.skip(j + 1));
            match &acts[j] {
                SustainedAction::SustainedSend { until_id, endpoint, msg: m, value } => {
                    if *until_id == succ && *endpoint == *ep && *m == *msg {
                        return Some(value);
                    }
                },
            }
            j = j + 1;
        }
        assert(acts@.skip(j as int).len() == 0);
        i = i + 1;
    }
    assert(events@.skip(i as int).len() == 0);
    None
}

/// The smallest entry of the queue, if any.
pub open spec fn queue_min(q: Multiset<(usize, usize, usize)>) -> Option<(usize, usize, usize)> {
    if q.len() == 0 {
        None
    } else {
        Some(choose|m: (usize, usize, usize)| q.count(m) > 0 && forall|x: (usize, usize, usize)| #[trigger] q.count(x) > 0 ==> entry_le(m, x))
    }
}

pub proof fn lemma_queue_min(q: Multiset<(usize, usize, usize)>, m: (usize, usize, usize))
    requires
        q.count(m) > 0,
        forall|x: (usize, usize, usize)| #[trigger] q.count(x) > 0 ==> entry_le(m, x),
    ensures
        queue_min(q) == Some(m),
{
    assert(q.len() > 0) by {
        if q.len() == 0 {
            assert(q =~= Multiset::empty());
        }
    }
    let c = choose|m: (usize, usize, usize)| q.count(m) > 0 && forall|x: (usize, usize, usize)| #[trigger] q.count(x) > 0 ==> entry_le(m, x);
    assert(entry_le(c, m) && entry_le(m, c));
}

pub open spec fn writes_fit(ws: Seq<(Seq<char>, usize, usize, i64)>) -> bool {
    forall|i: int| 0 <= i < ws.len() ==> write_fits(#[trigger] ws[i])
}

pub open spec fn unpark_if(s: SimView, tb: TableView, g: bool) -> (SimView, TableView) {
    let r = if g { (s.parked, s.queue, tb) } else { unpark_rounds(s.parked, s.queue, tb) };
    (SimView { parked: r.0, queue: r.1, ..s }, r.2)
}

/// With no work left in an event. Inside the batch of a cycle: parked events
/// that can happen go back to the queue, then the next event of the same
/// cycle fires; when there is none, the cycle's register writes are
/// committed and the batch ends. Between batches: the simulation stops when
/// this proc or the whole simulation has finished or the queue is empty
/// (whatever is parked); otherwise the smallest entry is taken out of the
/// queue and either lies at or past the cycle limit (the simulation as a
/// whole ends) or starts the batch of its cycle.
pub open spec fn idle_spec(max_cycles: Option<usize>, s: SimView, tb: TableView, g: bool) -> Next {
    match s.batch {
        Some(c) => {
            let (s1, tb1) = unpark_if(s, tb, g);
            match queue_min(s1.queue) {
                Some(m) if m.0 == c => next(push_task(SimView { queue: s1.queue.remove(m), ..s1 }, Task::Fire { thread: m.2, event: m.1, cycle: c }),
                    tb1, g, OutcomeView::Progress),
                _ => if !writes_fit(s1.pending) {
                    next(s1, tb1, g, OutcomeView::Fault(SimError::WriteOverflow))
                } else {
                    next(SimView { regs: apply_writes(s1.regs, s1.pending, c), pending: Seq::empty(), batch: None, ..s1 }, tb1, g, OutcomeView::Progress)
                },
            }
        },
        None => {
            if s.finished {
                next(s, tb, g, OutcomeView::Stopped(StopReason::Finished))
            } else if g {
                next(s, tb, g, OutcomeView::Stopped(StopReason::Halted))
            } else if s.queue.len() == 0 {
                next(s, tb, g, OutcomeView::Stopped(StopReason::Drained))
            } else {
                let m = queue_min(s.queue).unwrap();
                let s2 = SimView { queue: s.queue.remove(m), ..s };
                if max_cycles matches Some(mx) && m.0 >= mx {
                    next(s2, tb, true, OutcomeView::Stopped(StopReason::MaxCycles))
                } else {
                    next(push_task(SimView { batch: Some(m.0), ..s2 }, Task::Fire { thread: m.2, event: m.1, cycle: m.0 }), tb, g, OutcomeView::Progress)
                }
            }
        },
    }
}

/// One step of the simulation: the piece of work on top, or, with none, the
/// next move of the event loop.
#[verifier::opaque]
pub open spec fn step_spec(threads: Seq<ThreadState>, max_cycles: Option<usize>, s: SimView, tb: TableView, g: bool) -> Next {
    if s.tasks.len() == 0 {
        idle_spec(max_cycles, s, tb, g)
    } else {
        match s.tasks.last() {
            Task::Fire { thread, event, cycle } => fire_spec(threads, s, tb, g, thread, event, cycle),
            Task::Sends { thread, event, cycle, next, value } => sends_spec(threads, s, tb, g, thread, event, cycle, next, value),
            Task::Actions { thread, event, cycle, next } => actions_spec(threads, s, tb, g, thread, event, cycle, next),
            Task::Recvs { thread, event, cycle, next } => recvs_spec(threads, s, tb, g, thread, event, cycle, next),
            Task::Schedule { thread, event, cycle, next } => schedule_spec(threads, s, tb, g, thread, event, cycle, next),
            Task::ClearRecv { thread, event, cycle } => clear_recv_spec(threads, s, tb, g, thread, event, cycle),
        }
    }
}

/// The id of the first `RootInit` event.
pub open spec fn find_root(events: Seq<Event>) -> Option<usize>
    decreases events.len(),
{
    if events.len() == 0 {
        None
    } else if events[0].source is RootInit {
        Some(events[0].id)
    } else {
        find_root(events.drop_first())
    }
}

/// A register's initial value: its decimal text, or 0 when it has none.
pub open spec fn init_value(r: RegDef) -> Option<i64> {
    match r.init {
        None => Some(0),
        Some(s) => parse_i64(s@),
    }
}

/// The storage of an initial value: its 64 bits, or empty storage for 0.
pub open spec fn init_storage(v: i64) -> Seq<u8> {
    if v != 0 { reg_write(Seq::empty(), 0, 64, v) } else { Seq::empty() }
}

pub open spec fn inits_valid(regs: Seq<RegDef>) -> bool {
    forall|i: int| 0 <= i < regs.len() ==> #[trigger] init_value(regs[i]) is Some
}

/// Registers get their initial value as a version at cycle 0; a register
/// declared again keeps the first.
pub open spec fn init_regs(m: Map<Seq<char>, Seq<(usize, Seq<u8>)>>, regs: Seq<RegDef>) -> Map<Seq<char>, Seq<(usize, Seq<u8>)>>
    decreases regs.len(),
{
    if regs.len() == 0 {
        m
    } else {
        let r = regs[0];
        let m1 = if m.dom().contains(r.name@) { m } else { m.insert(r.name@, seq![(0usize, init_storage(init_value(r).unwrap()))]) };
        init_regs(m1, regs.drop_first())
    }
}

/// The register file a proc starts with, thread by thread; a thread without
/// a root event or with an unreadable initial value stops the setup.
pub open spec fn setup_regs(gs: Seq<EventGraph>, m: Map<Seq<char>, Seq<(usize, Seq<u8>)>>) -> Result<Map<Seq<char>, Seq<(usize, Seq<u8>)>>, SimError>
    decreases gs.len(),
{
    if gs.len() == 0 {
        Ok(m)
    } else if find_root(stable_sort(gs[0].events@)) is None {
        Err(SimError::NoRootEvent)
    } else if !inits_valid(gs[0].regs@) {
        Err(SimError::InvalidInit)
    } else {
        setup_regs(gs.drop_first(), init_regs(m, gs[0].regs@))
    }
}

/// The queue a proc starts with: the root event of each thread at cycle 0.
pub open spec fn root_entries(threads: Seq<ThreadState>, n: nat) -> Multiset<(usize, usize, usize)>
    decreases n,
{
    if n == 0 {
        Multiset::empty()
    } else {
        root_entries(threads, (n - 1) as nat).insert((0usize, threads[n - 1].root_id, (n - 1) as usize))
    }
}

/// The state a simulation starts in, for the given threads and registers.
pub open spec fn initial_state(sim: &Simulator, regs: Map<Seq<char>, Seq<(usize, Seq<u8>)>>) -> bool {
    &&& sim.state@.regs == regs
    &&& sim.state@.pending == Seq::<(Seq<char>, usize, usize, i64)>::empty()
    &&& sim.state@.queue == root_entries(sim.threads@, sim.threads@.len())
    &&& !sim.state@.finished
    &&& sim.state@.parked == Seq::<ParkedEvent>::empty()
    &&& sim.state@.cache == Map::<(Seq<char>, Seq<char>), i64>::empty()
    &&& forall|t: int| 0 <= t < sim.threads@.len() ==> #[trigger] sim.state@.later[t] == Seq::new(sim.threads@[t].events@.len(), |i: int| false)
    &&& sim.state@.tasks == Seq::<Task>::empty()
    &&& sim.state@.batch == None::<usize>
}

proof fn lemma_root_entries_prefix(a: Seq<ThreadState>, b: Seq<ThreadState>, n: nat)
    requires
        n <= a.len(),
        n <= b.len(),
        forall|t: int| 0 <= t < n ==> #[trigger] a[t] == b[t],
    ensures
        root_entries(a, n) == root_entries(b, n),
    decreases n,
{
    if n > 0 {
        lemma_root_entries_prefix(a, b, (n - 1) as nat);
        assert(a[n - 1] == b[n - 1]);
    }
}

/// What running does: steps, collecting printed lines, until a step needs
/// the caller (to wait, stop or fail) or `budget` steps are done.
pub open spec fn run_spec(threads: Seq<ThreadState>, max_cycles: Option<usize>, s: SimView, tb: TableView, g: bool, budget: nat)
    -> (Next, Seq<Seq<char>>)
    decreases budget,
{
    if budget == 0 {
        (next(s, tb, g, OutcomeView::Progress), Seq::empty())
    } else {
        let n = step_spec(threads, max_cycles, s, tb, g);
        match n.out {
            OutcomeView::Progress => run_spec(threads, max_cycles, n.sim, n.table, n.global, (budget - 1) as nat),
            OutcomeView::Print(line) => {
                let r = run_spec(threads, max_cycles, n.sim, n.table, n.global, (budget - 1) as nat);
                (r.0, seq![line] + r.1)
            },
            _ => (n, Seq::empty()),
        }
    }
}

impl Simulator {
    pub open spec fn wf(&self) -> bool {
        &&& self.state.wf()
        &&& self.state.later@.len() == self.threads@.len()
        &&& forall|t: int| 0 <= t < self.threads@.len() ==> #[trigger] self.state.later@[t]@.len() == self.threads@[t].events@.len()
    }

    /// The program does not change as the simulation runs.
    pub open spec fn same_program(&self, other: &Simulator) -> bool {
        self.proc_name == other.proc_name && self.max_cycles == other.max_cycles && self.threads == other.threads
    }

    fn handle_fire(&mut self, table: &mut ChannelTable, global: &mut bool, t: usize, e: usize, c: usize) -> (r: StepOutcome)
        requires
            old(self).wf(),
            old(table).wf(),
            old(self).state.tasks@.len() > 0,
            old(self).state.tasks@.last() == (Task::Fire { thread: t, event: e, cycle: c }),
        ensures
            final(self).wf(),
            final(table).wf(),
            final(self).same_program(old(self)),
            next(final(self).state@, final(table)@, *final(global), r@)
                == fire_spec(old(self).threads@, old(self).state@, old(table)@, *old(global), t, e, c),
    {
        let ghost s0 = self.state@;
        if t >= self.threads.len() {
            return StepOutcome::Fault(SimError::UnknownThread(t));
        }
        if self.state.finished {
            self.state.tasks.pop();
            proof {
                assert(self.state@.later =~= s0.later);
                assert(self.state@ =~= pop_task(s0));
            }
            return StepOutcome::Progress;
        }
        if e >= self.threads[t].events.len() {
            return StepOutcome::Fault(SimError::UnknownEvent(e));
        }
        match &self.threads[t].events[e].source {
            EventSource::SeqRecv { endpoint, msg, .. } => {
                match table.channel_of(endpoint) {
                    None => {
                        return StepOutcome::Fault(SimError::UnknownEndpoint(e));
                    },
                    Some(ch) => {
                        match table.slot(ch, msg) {
                            Some(v) => {
                                self.state.recv_cache.insert(endpoint, msg, v);
                            },
                            None => {},
                        }
                    },
                }
            },
            _ => {},
        }
        self.state.tasks.pop();
        self.state.tasks.push(Task::Sends { thread: t, event: e, cycle: c, next: 0, value: None });
        proof {
            assert(self.state@.later =~= s0.later);
            assert(self.state@.tasks =~= s0.tasks.drop_last().push(Task::Sends { thread: t, event: e, cycle: c, next: 0, value: None }));
        }
        StepOutcome::Progress
    }

    fn eval_ld(&self, table: &ChannelTable, global: bool, t: usize, ld: &LoweringData, c: usize) -> (r: Result<i64, SimError>)
        requires
            self.wf(),
            table.wf(),
            t < self.threads@.len(),
        ensures
            r == ld_value(self.threads@[t as int].wires@, env_at(self.state@, table@, global, c), *ld),
    {
        match ld.wire_id {
            None => Err(SimError::MissingWire),
            Some(w) => match eval_wire(w, &self.threads[t].wires, &self.state.regs, c, table, global, &self.state.recv_cache) {
                Ok(v) => Ok(v),
                Err(err) => Err(SimError::Eval(err)),
            },
        }
    }

    /// The outcome of a step that cannot finish (see `held`).
    fn hold(err: SimError) -> (r: StepOutcome)
        ensures
            r@ == (if waits(err) { OutcomeView::Blocked } else { OutcomeView::Fault(err) }),
    {
        match err {
            SimError::Eval(EvalError::Pending(_)) => StepOutcome::Blocked,
            _ => StepOutcome::Fault(err),
        }
    }



    fn handle_sends(&mut self, table: &mut ChannelTable, global: &mut bool, t: usize, e: usize, c: usize, k: usize, value: Option<i64>) -> (r: StepOutcome)
        requires
            old(self).wf(),
            old(table).wf(),
            old(self).state.tasks@.len() > 0,
            old(self).state.tasks@.last() == (Task::Sends { thread: t, event: e, cycle: c, next: k, value }),
        ensures
            final(self).wf(),
            final(table).wf(),
            final(self).same_program(old(self)),
            next(final(self).state@, final(table)@, *final(global), r@)
                == sends_spec(old(self).threads@, old(self).state@, old(table)@, *old(global), t, e, c, k, value),
    {
        if t >= self.threads.len() {
            return StepOutcome::Fault(SimError::UnknownThread(t));
        }
        if e >= self.threads[t].events.len() {
            return StepOutcome::Fault(SimError::UnknownEvent(e));
        }
        if k >= self.threads[t].events[e].actions.len() {
            self.state.set_top(Task::Actions { thread: t, event: e, cycle: c, next: 0 });
            return StepOutcome::Progress;
        }
        match &self.threads[t].events[e].actions[k] {
            Action::ImmediateSend { endpoint, msg, value: ld } => {
                let vr = match value {
                    Some(v) => Ok(v),
                    None => self.eval_ld(table, *global, t, ld, c),
                };
                match vr {
                    Err(err) => Self::hold(err),
                    Ok(v) => match table.channel_of(endpoint) {
                        None => StepOutcome::Fault(SimError::UnknownEndpoint(e)),
                        Some(ch) => {
                            if table.slot(ch, msg).is_some() {
                                if *global {
                                    self.state.finish_actions(t, e, c);
                                    StepOutcome::Progress
                                } else {
                                    self.state.set_top(Task::Sends { thread: t, event: e, cycle: c, next: k, value: Some(v) });
                                    StepOutcome::Blocked
                                }
                            } else {
                                table.put(ch, msg, v, c);
                                self.state.set_top(Task::Sends { thread: t, event: e, cycle: c, next: k + 1, value: None });
                                StepOutcome::Progress
                            }
                        },
                    },
                }
            },
            _ => {
                self.state.set_top(Task::Sends { thread: t, event: e, cycle: c, next: k + 1, value: None });
                StepOutcome::Progress
            },
        }
    }

    fn eval_args(&self, table: &ChannelTable, global: bool, t: usize, args: &Vec<LoweringData>, c: usize) -> (r: Result<Vec<i64>, SimError>)
        requires
            self.wf(),
            table.wf(),
            t < self.threads@.len(),
        ensures
            match r {
                Ok(vs) => args_values(self.threads@[t as int].wires@, env_at(self.state@, table@, global, c), args@) == Ok::<Seq<i64>, SimError>(vs@),
                Err(err) => args_values(self.threads@[t as int].wires@, env_at(self.state@, table@, global, c), args@) == Err::<Seq<i64>, SimError>(err),
            },
    {
        let ghost wires = self.threads@[t as int].wires@;
        let ghost env = env_at(self.state@, table@, global, c);
        let mut vals: Vec<i64> = Vec::new();
        let mut i: usize = 0;
        assert(args@.skip(0) =~= args@);
        assert(Seq::<i64>::empty() + Seq::<i64>::empty() =~= Seq::<i64>::empty());
        while i < args.len()
            invariant
                self.wf(),
                table.wf(),
                t < self.threads@.len(),
                wires == self.threads@[t as int].wires@,
                env == env_at(self.state@, table@, global, c),
                i <= args@.len(),
                args_values(wires, env, args@) == (match args_values(wires, env, args@.skip(i as int)) {
                    Err(e) => Err(e),
                    Ok(vs) => Ok(vals@ + vs),
                }),
            decreases args@.len() - i,
        {
            let ghost rest = args@.skip(i as int);
            assert(rest[0] == args@[i as int]);
            assert(rest.drop_first() =~= args@.skip(i + 1));
            match self.eval_ld(table, global, t, &args[i], c) {
                Err(err) => {
                    return Err(err);
                },
                Ok(v) => {
                    let ghost before = vals@;
                    vals.push(v);
                    proof {
                        match args_values(wires, env, args@.skip(i + 1)) {
                            Err(e) => {},
                            Ok(vs) => {
                                assert(before + (seq![v] + vs) =~= vals@ + vs);
                            },
                        }
                    }
                },
            }
            i = i + 1;
        }
        proof {
            assert(args@.skip(i as int).len() == 0);
            assert(vals@ + Seq::<i64>::empty() =~= vals@);
        }
        Ok(vals)
    }

    fn handle_actions(&mut self, table: &mut ChannelTable, global: &mut bool, t: usize, e: usize, c: usize, k: usize) -> (r: StepOutcome)
        requires
            old(self).wf(),
            old(table).wf(),
            old(self).state.tasks@.len() > 0,
            old(self).state.tasks@.last() == (Task::Actions { thread: t, event: e, cycle: c, next: k }),
        ensures
            final(self).wf(),
            final(table).wf(),
            final(self).same_program(old(self)),
            next(final(self).state@, final(table)@, *final(global), r@)
                == actions_spec(old(self).threads@, old(self).state@, old(table)@, *old(global), t, e, c, k),
    {
        if t >= self.threads.len() {
            return StepOutcome::Fault(SimError::UnknownThread(t));
        }
        if e >= self.threads[t].events.len() {
            return StepOutcome::Fault(SimError::UnknownEvent(e));
        }
        if k >= self.threads[t].events[e].actions.len() {
            self.state.set_top(Task::Recvs { thread: t, event: e, cycle: c, next: 0 });
            return StepOutcome::Progress;
        }
        let ghost s0 = self.state@;
        match &self.threads[t].events[e].actions[k] {
            Action::ImmediateSend { .. } | Action::ImmediateRecv { .. } => {
                self.state.set_top(Task::Actions { thread: t, event: e, cycle: c, next: k + 1 });
                StepOutcome::Progress
            },
            Action::DebugFinish => {
                self.state.finished = true;
                *global = true;
                self.state.tasks.pop();
                proof {
                    assert(self.state@.later =~= s0.later);
                    assert(self.state@ =~= pop_task(SimView { finished: true, ..s0 }));
                }
                StepOutcome::FinishRequested
            },
            Action::DebugPrint { fmt, args } => {
                match self.eval_args(table, *global, t, args, c) {
                    Err(err) => Self::hold(err),
                    Ok(vals) => match format_dprint(fmt.as_str(), vals.as_slice()) {
                        None => StepOutcome::Fault(SimError::FormatArgs),
                        Some(txt) => {
                            self.state.set_top(Task::Actions { thread: t, event: e, cycle: c, next: k + 1 });
                            StepOutcome::Print(txt)
                        },
                    },
                }
            },
            Action::RegAssign { target, value } => {
                match self.eval_ld(table, *global, t, value, c) {
                    Err(err) => Self::hold(err),
                    Ok(v) => {
                        let off: Result<usize, SimError> = if target.offset_is_const {
                            Ok(target.offset)
                        } else {
                            match eval_wire(target.offset, &self.threads[t].wires, &self.state.regs, c, table, *global, &self.state.recv_cache) {
                                Ok(x) => Ok(#[verifier::truncate] (x as usize)),
                                Err(err) => Err(SimError::Eval(err)),
                            }
                        };
                        match off {
                            Err(err) => Self::hold(err),
                            Ok(o) => {
                                let w = PendingWrite { reg: target.reg.clone(), offset: o, size: target.size, value: v };
                                self.state.set_top(Task::Actions { thread: t, event: e, cycle: c, next: k + 1 });
                                self.state.pending_writes.push(w);
                                proof {
                                    assert(writes_view(self.state.pending_writes@) =~= s0.pending.push((target.reg@, o, target.size, v)));
                                }
                                StepOutcome::Progress
                            },
                        }
                    },
                }
            },
            Action::PutShared { .. } => StepOutcome::Fault(SimError::UnsupportedAction(e)),
        }
    }


    fn handle_recvs(&mut self, table: &mut ChannelTable, global: &mut bool, t: usize, e: usize, c: usize, k: usize) -> (r: StepOutcome)
        requires
            old(self).wf(),
            old(table).wf(),
            old(self).state.tasks@.len() > 0,
            old(self).state.tasks@.last() == (Task::Recvs { thread: t, event: e, cycle: c, next: k }),
        ensures
            final(self).wf(),
            final(table).wf(),
            final(self).same_program(old(self)),
            next(final(self).state@, final(table)@, *final(global), r@)
                == recvs_spec(old(self).threads@, old(self).state@, old(table)@, *old(global), t, e, c, k),
    {
        if t >= self.threads.len() {
            return StepOutcome::Fault(SimError::UnknownThread(t));
        }
        if e >= self.threads[t].events.len() {
            return StepOutcome::Fault(SimError::UnknownEvent(e));
        }
        if k >= self.threads[t].events[e].actions.len() {
            self.state.finish_actions(t, e, c);
            return StepOutcome::Progress;
        }
        match &self.threads[t].events[e].actions[k] {
            Action::ImmediateRecv { endpoint, msg } => {
                match table.channel_of(endpoint) {
                    None => StepOutcome::Fault(SimError::UnknownEndpoint(e)),
                    Some(ch) => {
                        table.clear(ch, msg, c);
                        self.state.set_top(Task::Recvs { thread: t, event: e, cycle: c, next: k + 1 });
                        StepOutcome::Progress
                    },
                }
            },
            _ => {
                self.state.set_top(Task::Recvs { thread: t, event: e, cycle: c, next: k + 1 });
                StepOutcome::Progress
            },
        }
    }

    fn handle_clear_recv(&mut self, table: &mut ChannelTable, global: &mut bool, t: usize, e: usize, c: usize) -> (r: StepOutcome)
        requires
            old(self).wf(),
            old(table).wf(),
            old(self).state.tasks@.len() > 0,
            old(self).state.tasks@.last() == (Task::ClearRecv { thread: t, event: e, cycle: c }),
        ensures
            final(self).wf(),
            final(table).wf(),
            final(self).same_program(old(self)),
            next(final(self).state@, final(table)@, *final(global), r@)
                == clear_recv_spec(old(self).threads@, old(self).state@, old(table)@, *old(global), t, e, c),
    {
        if t >= self.threads.len() {
            return StepOutcome::Fault(SimError::UnknownThread(t));
        }
        if e >= self.threads[t].events.len() {
            return StepOutcome::Fault(SimError::UnknownEvent(e));
        }
        match &self.threads[t].events[e].source {
            EventSource::SeqRecv { endpoint, msg, .. } => {
                match table.channel_of(endpoint) {
                    None => StepOutcome::Fault(SimError::UnknownEndpoint(e)),
                    Some(ch) => {
                        table.clear(ch, msg, c);
                        self.state.pop_top();
                        StepOutcome::Progress
                    },
                }
            },
            _ => {
                self.state.pop_top();
                StepOutcome::Progress
            },
        }
    }

    fn handle_schedule(&mut self, table: &mut ChannelTable, global: &mut bool, t: usize, e: usize, c: usize, k: usize) -> (r: StepOutcome)
        requires
            old(self).wf(),
            old(table).wf(),
            old(self).state.tasks@.len() > 0,
            old(self).state.tasks@.last() == (Task::Schedule { thread: t, event: e, cycle: c, next: k }),
        ensures
            final(self).wf(),
            final(table).wf(),
            final(self).same_program(old(self)),
            next(final(self).state@, final(table)@, *final(global), r@)
                == schedule_spec(old(self).threads@, old(self).state@, old(table)@, *old(global), t, e, c, k),
    {
        if t >= self.threads.len() {
            return StepOutcome::Fault(SimError::UnknownThread(t));
        }
        if e >= self.threads[t].events.len() {
            return StepOutcome::Fault(SimError::UnknownEvent(e));
        }
        let ghost s0 = self.state@;
        let n_outs = self.threads[t].events[e].outs.len();
        if k >= n_outs {
            let recurse = self.threads[t].events[e].is_recurse && !self.state.finished;
            let root = self.threads[t].root_id;
            self.state.pop_top();
            if recurse {
                self.state.push_top(Task::Fire { thread: t, event: root, cycle: c });
            }
            return StepOutcome::Progress;
        }
        if self.state.finished {
            self.state.pop_top();
            return StepOutcome::Progress;
        }
        let succ = self.threads[t].events[e].outs[k];
        if succ >= self.threads[t].events.len() {
            return StepOutcome::Fault(SimError::UnknownEvent(succ));
        }
        let s_next = Task::Schedule { thread: t, event: e, cycle: c, next: k + 1 };
        let fire = Task::Fire { thread: t, event: succ, cycle: c };
        match &self.threads[t].events[succ].source {
            EventSource::SeqCycles { cycles, .. } => {
                if *cycles > usize::MAX - c {
                    return StepOutcome::Fault(SimError::CycleOverflow);
                }
                self.state.set_top(s_next);
                self.state.heap.push((c + *cycles, succ, t));
                StepOutcome::Progress
            },
            EventSource::RootBranch { branch_sel, cond_wire_id, branch_cond, .. } => {
                let cw = match cond_wire_id {
                    None => {
                        return StepOutcome::Fault(SimError::MissingWire);
                    },
                    Some(cw) => *cw,
                };
                let cv = match eval_wire(cw, &self.threads[t].wires, &self.state.regs, c, table, *global, &self.state.recv_cache) {
                    Err(err) => {
                        return Self::hold(SimError::Eval(err));
                    },
                    Ok(cv) => cv,
                };
                let taken: Result<bool, SimError> = match branch_cond {
                    BranchCond::TrueFalse(_) => Ok((*branch_sel == 0 && cv != 0) || (*branch_sel == 1 && cv == 0)),
                    BranchCond::MatchCases { patterns } => {
                        if *branch_sel >= patterns.len() {
                            Err(SimError::NoPattern(succ))
                        } else {
                            match self.eval_ld(table, *global, t, &patterns[*branch_sel], c) {
                                Err(x) => Err(x),
                                Ok(p) => Ok(cv == p),
                            }
                        }
                    },
                };
                match taken {
                    Err(x) => Self::hold(x),
                    Ok(taken) => {
                        self.state.set_top(s_next);
                        if taken {
                            self.state.push_top(fire);
                        }
                        StepOutcome::Progress
                    },
                }
            },
            EventSource::Branch { .. } => {
                self.state.set_top(s_next);
                self.state.push_top(fire);
                StepOutcome::Progress
            },
            EventSource::Later { .. } => {
                self.state.set_top(s_next);
                let arrived = self.state.later[t][succ];
                if arrived {
                    self.state.later[t].set(succ, false);
                    self.state.push_top(fire);
                } else {
                    self.state.later[t].set(succ, true);
                }
                proof {
                    assert(self.state@.later =~= s0.later.update(t as int, s0.later[t as int].update(succ as int, !arrived)));
                }
                StepOutcome::Progress
            },
            EventSource::SeqSend { endpoint, msg, .. } => {
                let ld = match find_sustained_exec(&self.threads[t].events, succ, endpoint, msg) {
                    None => {
                        return StepOutcome::Fault(SimError::NoSustainedSend(succ));
                    },
                    Some(ld) => ld,
                };
                let v = match self.eval_ld(table, *global, t, ld, c) {
                    Err(x) => {
                        return Self::hold(x);
                    },
                    Ok(v) => v,
                };
                match table.channel_of(endpoint) {
                    None => StepOutcome::Fault(SimError::UnknownEndpoint(succ)),
                    Some(ch) => {
                        if table.slot(ch, msg).is_none() {
                            table.put(ch, msg, v, c);
                            self.state.set_top(s_next);
                            self.state.push_top(fire);
                        } else {
                            let p = ParkedEvent { succ_id: succ, thread_idx: t, cycle: c,
                                kind: ParkedKind::Send { endpoint: endpoint.clone(), msg: msg.clone(), value: v } };
                            self.state.set_top(s_next);
                            self.state.parked.push(p);
                        }
                        StepOutcome::Progress
                    },
                }
            },
            EventSource::SeqRecv { endpoint, msg, .. } => {
                match table.channel_of(endpoint) {
                    None => StepOutcome::Fault(SimError::UnknownEndpoint(succ)),
                    Some(ch) => {
                        if table.slot(ch, msg).is_some() {
                            self.state.set_top(s_next);
                            self.state.push_top(fire);
                        } else {
                            let p = ParkedEvent { succ_id: succ, thread_idx: t, cycle: c,
                                kind: ParkedKind::Recv { endpoint: endpoint.clone(), msg: msg.clone() } };
                            self.state.set_top(s_next);
                            self.state.parked.push(p);
                        }
                        StepOutcome::Progress
                    },
                }
            },
            _ => StepOutcome::Fault(SimError::UnsupportedSource(succ)),
        }
    }


    fn unpark_if(&mut self, table: &mut ChannelTable, global: bool)
        requires
            old(self).wf(),
            old(table).wf(),
        ensures
            final(self).wf(),
            final(table).wf(),
            final(self).same_program(old(self)),
            (final(self).state@, final(table)@) == unpark_if(old(self).state@, old(table)@, global),
    {
        let ghost s0 = self.state@;
        self.state.try_unpark(table, global);
        proof {
            assert(self.state@.later =~= s0.later);
            assert(self.state@ =~= unpark_if(s0, old(table)@, global).0);
        }
    }

    fn handle_idle(&mut self, table: &mut ChannelTable, global: &mut bool) -> (r: StepOutcome)
        requires
            old(self).wf(),
            old(table).wf(),
            old(self).state.tasks@.len() == 0,
        ensures
            final(self).wf(),
            final(table).wf(),
            final(self).same_program(old(self)),
            next(final(self).state@, final(table)@, *final(global), r@)
                == idle_spec(old(self).max_cycles, old(self).state@, old(table)@, *old(global)),
    {
        let ghost s0 = self.state@;
        let ghost t0 = table@;
        match self.state.batch {
            Some(c) => {
                self.unpark_if(table, *global);
                let ghost s1 = self.state@;
                match self.state.heap.peek_min() {
                    Some(m) => {
                        proof {
                            lemma_queue_min(s1.queue, m);
                        }
                        if m.0 == c {
                            self.state.heap.pop_min();
                            self.state.push_top(Task::Fire { thread: m.2, event: m.1, cycle: c });
                            proof {
                                assert(self.state@ =~= push_task(SimView { queue: s1.queue.remove(m), ..s1 }, Task::Fire { thread: m.2, event: m.1, cycle: c }));
                            }
                            return StepOutcome::Progress;
                        }
                    },
                    None => {},
                }
                let mut i: usize = 0;
                #[verifier::loop_isolation(false)]
                while i < self.state.pending_writes.len()
                    invariant
                        self.wf(),
                        self.state@ == s1,
                        i <= self.state.pending_writes@.len(),
                        forall|j: int| 0 <= j < i ==> write_fits(#[trigger] s1.pending[j]),
                    decreases self.state.pending_writes@.len() - i,
                {
                    let w = &self.state.pending_writes[i];
                    if w.offset > usize::MAX - 7 || w.size > usize::MAX - 7 - w.offset {
                        proof {
                            assert(s1.pending[i as int] == self.state.pending_writes@[i as int]@);
                        }
                        return StepOutcome::Fault(SimError::WriteOverflow);
                    }
                    proof {
                        assert(s1.pending[i as int] == self.state.pending_writes@[i as int]@);
                    }
                    i = i + 1;
                }
                proof {
                    assert(writes_fit(s1.pending)) by {
                        assert forall|j: int| 0 <= j < s1.pending.len() implies write_fits(#[trigger] s1.pending[j]) by {
                            assert(s1.pending[j] == self.state.pending_writes@[j]@);
                        }
                    }
                }
                self.state.apply_pending_writes(c);
                self.state.batch = None;
                proof {
                    assert(self.state@.later =~= s1.later);
                    assert(self.state@ =~= SimView { regs: apply_writes(s1.regs, s1.pending, c), pending: Seq::empty(), batch: None, ..s1 });
                }
                StepOutcome::Progress
            },
            None => {
                if self.state.finished {
                    return StepOutcome::Stopped(StopReason::Finished);
                }
                if *global {
                    return StepOutcome::Stopped(StopReason::Halted);
                }
                if self.state.heap.is_empty() {
                    return StepOutcome::Stopped(StopReason::Drained);
                }
                let ghost s1 = self.state@;
                match self.state.heap.pop_min() {
                    None => {
                        proof {
                            assert(false);
                        }
                        StepOutcome::Progress
                    },
                    Some(m) => {
                        proof {
                            lemma_queue_min(s1.queue, m);
                        }
                        let over = match self.max_cycles {
                            Some(mx) => m.0 >= mx,
                            None => false,
                        };
                        if over {
                            *global = true;
                            proof {
                                assert(self.state@ =~= SimView { queue: s1.queue.remove(m), ..s1 });
                            }
                            StepOutcome::Stopped(StopReason::MaxCycles)
                        } else {
                            self.state.batch = Some(m.0);
                            self.state.push_top(Task::Fire { thread: m.2, event: m.1, cycle: m.0 });
                            proof {
                                assert(self.state@ =~= push_task(SimView { batch: Some(m.0), queue: s1.queue.remove(m), ..s1 }, Task::Fire { thread: m.2, event: m.1, cycle: m.0 }));
                            }
                            StepOutcome::Progress
                        }
                    },
                }
            },
        }
    }

    /// Advance the simulation by one step (see `step_spec`), with the channel
    /// table and the flag of the simulation as a whole having finished, both
    /// shared with the other procs.
    pub fn step(&mut self, table: &mut ChannelTable, global_finished: &mut bool) -> (r: StepOutcome)
        requires
            old(self).wf(),
            old(table).wf(),
        ensures
            final(self).wf(),
            final(table).wf(),
            final(self).same_program(old(self)),
            next(final(self).state@, final(table)@, *final(global_finished), r@)
                == step_spec(old(self).threads@, old(self).max_cycles, old(self).state@, old(table)@, *old(global_finished)),
    {
        proof {
            reveal(step_spec);
        }
        let n = self.state.tasks.len();
        if n == 0 {
            return self.handle_idle(table, global_finished);
        }
        match self.state.tasks[n - 1] {
            Task::Fire { thread, event, cycle } => self.handle_fire(table, global_finished, thread, event, cycle),
            Task::Sends { thread, event, cycle, next, value } => self.handle_sends(table, global_finished, thread, event, cycle, next, value),
            Task::Actions { thread, event, cycle, next } => self.handle_actions(table, global_finished, thread, event, cycle, next),
            Task::Recvs { thread, event, cycle, next } => self.handle_recvs(table, global_finished, thread, event, cycle, next),
            Task::Schedule { thread, event, cycle, next } => self.handle_schedule(table, global_finished, thread, event, cycle, next),
            Task::ClearRecv { thread, event, cycle } => self.handle_clear_recv(table, global_finished, thread, event, cycle),
        }
    }

    /// Build a simulator from a proc's event graphs: each thread's events and
    /// wires sorted by id, its root event (the first `RootInit` in id order)
    /// queued at cycle 0, and the proc's registers at their initial values.
    pub fn new(proc_name: String, proc_threads: Vec<EventGraph>, max_cycles: Option<usize>) -> (r: Result<Simulator, SimError>)
        ensures
            match r {
                Err(e) => setup_regs(proc_threads@, Map::empty()) == Err::<Map<Seq<char>, Seq<(usize, Seq<u8>)>>, SimError>(e),
                Ok(sim) => {
                    &&& sim.wf()
                    &&& sim.proc_name == proc_name
                    &&& sim.max_cycles == max_cycles
                    &&& sim.threads@.len() == proc_threads@.len()
                    &&& forall|t: int| 0 <= t < proc_threads@.len() ==> {
                        &&& (#[trigger] sim.threads@[t]).events@ == stable_sort(proc_threads@[t].events@)
                        &&& sim.threads@[t].wires@ == stable_sort(proc_threads@[t].wires@)
                        &&& find_root(sim.threads@[t].events@) == Some(sim.threads@[t].root_id)
                    }
                    &&& setup_regs(proc_threads@, Map::empty()) == Ok::<Map<Seq<char>, Seq<(usize, Seq<u8>)>>, SimError>(sim.state@.regs)
                    &&& initial_state(&sim, sim.state@.regs)
                },
            },
    {
        let ghost gs0 = proc_threads@;
        let mut gs = proc_threads;
        let mut threads: Vec<ThreadState> = Vec::new();
        let mut regs = RegFile::new();
        let mut heap = EventQueue::new();
        let mut later: Vec<Vec<bool>> = Vec::new();
        let mut idx: usize = 0;
        let n = gs.len();
        proof {
            assert(gs0.skip(0) =~= gs0);
        }
        while gs.len() > 0
            invariant
                idx + gs@.len() == n,
                n == gs0.len(),
                gs0 == proc_threads@,
                gs@ == gs0.skip(idx as int),
                regs.wf(),
                heap.wf(),
                threads@.len() == idx,
                later@.len() == idx,
                setup_regs(gs0, Map::empty()) == setup_regs(gs@, regs@),
                heap@ == root_entries(threads@, idx as nat),
                forall|t: int| 0 <= t < idx ==> {
                    &&& (#[trigger] threads@[t]).events@ == stable_sort(gs0[t].events@)
                    &&& threads@[t].wires@ == stable_sort(gs0[t].wires@)
                    &&& find_root(threads@[t].events@) == Some(threads@[t].root_id)
                    &&& later@[t]@ == Seq::new(threads@[t].events@.len(), |i: int| false)
                },
            decreases gs@.len(),
        {
            let ghost gs_before = gs@;
            let g = gs.remove(0);
            proof {
                assert(gs_before[0] == g);
                assert(g == gs0[idx as int]);
                assert(gs0.skip(idx as int).drop_first() =~= gs0.skip(idx + 1));
            }
            let events = sort_by_id(g.events);
            let mut root: Option<usize> = None;
            let mut i: usize = 0;
            assert(events@.skip(0) =~= events@);
            while i < events.len() && root.is_none()
                invariant
                    i <= events@.len(),
                    root is None ==> find_root(events@) == find_root(events@.skip(i as int)),
                    root matches Some(r) ==> find_root(events@) == Some(r),
                decreases events@.len() - i,
            {
                let ghost rest = events@.skip(i as int);
                assert(rest[0] == events@[i as int]);
                assert(rest.drop_first() =~= events@.skip(i + 1));
                match &events[i].source {
                    EventSource::RootInit => {
                        root = Some(events[i].id);
                    },
                    _ => {},
                }
                i = i + 1;
            }
            let root_id = match root {
                None => {
                    proof {
                        assert(events@.skip(i as int).len() == 0);
                        assert(find_root(stable_sort(gs_before[0].events@)) is None);
                        assert(gs_before.len() > 0);
                        assert(setup_regs(gs_before, regs@) == Err::<Map<Seq<char>, Seq<(usize, Seq<u8>)>>, SimError>(SimError::NoRootEvent));
                        assert(setup_regs(gs0, Map::empty()) == setup_regs(gs_before, regs@));
                        assert(gs0 == proc_threads@);
                        assert(setup_regs(proc_threads@, Map::empty()) == Err::<Map<Seq<char>, Seq<(usize, Seq<u8>)>>, SimError>(SimError::NoRootEvent));
                    }
                    return Err(SimError::NoRootEvent);
                },
                Some(r) => r,
            };
            let wires = sort_by_id(g.wires);
            let ghost regs_before = regs@;
            assert(setup_regs(gs0, Map::empty()) == setup_regs(gs_before, regs_before));
            let rdefs = g.regs;
            let mut j: usize = 0;
            assert(rdefs@.skip(0) =~= rdefs@);
            while j < rdefs.len()
                invariant
                    regs.wf(),
                    j <= rdefs@.len(),
                    forall|q: int| 0 <= q < j ==> #[trigger] init_value(rdefs@[q]) is Some,
                    inits_valid(rdefs@) ==> init_regs(regs_before, rdefs@) == init_regs(regs@, rdefs@.skip(j as int)),
                    setup_regs(gs0, Map::empty()) == setup_regs(gs_before, regs_before),
                    gs_before.len() > 0,
                    gs_before[0] == g,
                    gs0 == proc_threads@,
                    rdefs@ == g.regs@,
                    find_root(stable_sort(g.events@)) is Some,
                decreases rdefs@.len() - j,
            {
                let r = &rdefs[j];
                let ghost rest = rdefs@.skip(j as int);
                assert(rest[0] == rdefs@[j as int]);
                assert(rest.drop_first() =~= rdefs@.skip(j + 1));
                let val: i64 = match &r.init {
                    None => 0,
                    Some(s) => match parse_int(s.as_str()) {
                        Some(v) => v,
                        None => {
                            proof {
                                assert(!inits_valid(rdefs@)) by {
                                    assert(init_value(rdefs@[j as int]) is None);
                                }
                                assert(find_root(stable_sort(gs_before[0].events@)) is Some);
                                assert(!inits_valid(gs_before[0].regs@));
                            }
                            return Err(SimError::InvalidInit);
                        },
                    },
                };
                if !regs.has(&r.name) {
                    let mut bytes: Vec<u8> = Vec::new();
                    if val != 0 {
                        write_reg_bits(&mut bytes, 0, 64, val);
                    }
                    let mut versions: Vec<(usize, Vec<u8>)> = Vec::new();
                    versions.push((0, bytes));
                    regs.set_history(r.name.clone(), versions);
                    proof {
                        assert(crate::bits::history_view(versions@) =~= seq![(0usize, init_storage(init_value(rdefs@[j as int]).unwrap()))]);
                    }
                }
                j = j + 1;
            }
            proof {
                assert(rdefs@.skip(j as int).len() == 0);
                assert(inits_valid(rdefs@));
            }
            heap.push((0, root_id, idx));
            let mut flags: Vec<bool> = Vec::new();
            let mut q: usize = 0;
            while q < events.len()
                invariant
                    q <= events@.len(),
                    flags@ == Seq::new(q as nat, |i: int| false),
                decreases events@.len() - q,
            {
                flags.push(false);
                q = q + 1;
                proof {
                    assert(flags@ =~= Seq::new(q as nat, |i: int| false));
                }
            }
            later.push(flags);
            let ghost old_threads = threads@;
            threads.push(ThreadState { wires, events, root_id });
            proof {
                assert forall|t: int| 0 <= t < old_threads.len() implies #[trigger] threads@[t] == old_threads[t] by {}
                assert(root_entries(threads@, idx as nat) == root_entries(old_threads, idx as nat)) by {
                    lemma_root_entries_prefix(threads@, old_threads, idx as nat);
                }
            }
            idx = idx + 1;
        }
        let sim = Simulator {
            proc_name,
            max_cycles,
            threads,
            state: SimState {
                regs,
                pending_writes: Vec::new(),
                heap,
                finished: false,
                parked: Vec::new(),
                recv_cache: RecvCache::new(),
                later,
                tasks: Vec::new(),
                batch: None,
            },
        };
        proof {
            assert(gs@.len() == 0);
            assert(sim.state@.pending =~= Seq::<(Seq<char>, usize, usize, i64)>::empty());
            assert(sim.state@.parked =~= Seq::<ParkedEvent>::empty());
            assert(sim.state@.tasks =~= Seq::<Task>::empty());
        }
        Ok(sim)
    }

    /// Step until a step needs the caller or `budget` steps are done (see
    /// `run_spec`); returns the printed lines and the last outcome
    /// (`Progress` when the budget ran out).
    pub fn run(&mut self, table: &mut ChannelTable, global_finished: &mut bool, budget: usize) -> (r: (Vec<String>, StepOutcome))
        requires
            old(self).wf(),
            old(table).wf(),
        ensures
            final(self).wf(),
            final(table).wf(),
            final(self).same_program(old(self)),
            ({
                let spec_r = run_spec(old(self).threads@, old(self).max_cycles, old(self).state@, old(table)@, *old(global_finished), budget as nat);
                &&& spec_r.0 == next(final(self).state@, final(table)@, *final(global_finished), r.1@)
                &&& spec_r.1 == r.0@.map_values(|l: String| l@)
            }),
    {
        let ghost target = run_spec(self.threads@, self.max_cycles, self.state@, table@, *global_finished, budget as nat);
        let mut lines: Vec<String> = Vec::new();
        let mut left = budget;
        loop
            invariant_except_break
                self.wf(),
                table.wf(),
                self.same_program(old(self)),
                target == run_spec(old(self).threads@, old(self).max_cycles, old(self).state@, old(table)@, *old(global_finished), budget as nat),
                ({
                    let rest = run_spec(self.threads@, self.max_cycles, self.state@, table@, *global_finished, left as nat);
                    &&& target.0 == rest.0
                    &&& target.1 == lines@.map_values(|l: String| l@) + rest.1
                }),
            ensures
                self.wf(),
                table.wf(),
                self.same_program(old(self)),
            decreases left,
        {
            if left == 0 {
                proof {
                    assert(lines@.map_values(|l: String| l@) + Seq::<Seq<char>>::empty() =~= lines@.map_values(|l: String| l@));
                }
                return (lines, StepOutcome::Progress);
            }
            let ghost before = lines@.map_values(|l: String| l@);
            let out = self.step(table, global_finished);
            left = left - 1;
            match out {
                StepOutcome::Progress => {},
                StepOutcome::Print(line) => {
                    lines.push(line);
                    proof {
                        let rest = run_spec(self.threads@, self.max_cycles, self.state@, table@, *global_finished, left as nat);
                        assert(lines@.map_values(|l: String| l@) =~= before.push(line@));
                        assert(before + (seq![line@] + rest.1) =~= lines@.map_values(|l: String| l@) + rest.1);
                    }
                },
                _ => {
                    proof {
                        assert(before + Seq::<Seq<char>>::empty() =~= before);
                    }
                    return (lines, out);
                },
            }
        }
    }
}
/// Every endpoint name stands for a channel of the table.
pub open spec fn links_ok(tb: TableView) -> bool {
    forall|k: Seq<char>| #[trigger] tb.links.dom().contains(k) ==> tb.links[k] < tb.chans.len()
}

proof fn lemma_unpark_pass_keeps_full(ps: Seq<ParkedEvent>, q: Multiset<(usize, usize, usize)>, tb: TableView, ch: int, msg: Seq<char>)
    requires
        links_ok(tb),
        0 <= ch < tb.chans.len(),
        tb.chans[ch].slot(msg) is Some,
    ensures
        unpark_pass(ps, q, tb).2.chans.len() == tb.chans.len(),
        unpark_pass(ps, q, tb).2.links == tb.links,
        unpark_pass(ps, q, tb).2.chans[ch].slot(msg) == tb.chans[ch].slot(msg),
    decreases ps.len(),
{
    if ps.len() > 0 {
        let p = ps[0];
        if parked_ready(p, tb) {
            let (fc, tb1) = unpark_one(p, tb);
            match p.kind {
                ParkedKind::Send { endpoint, msg: m, value } => {
                    let c = tb.channel_of(endpoint@).unwrap();
                    if c as int == ch && m@ == msg {
                        assert(false);
                    }
                    assert(links_ok(tb1));
                },
                _ => {},
            }
            lemma_unpark_pass_keeps_full(ps.drop_first(), q.insert((fc, p.succ_id, p.thread_idx)), tb1, ch, msg);
        } else {
            lemma_unpark_pass_keeps_full(ps.drop_first(), q, tb, ch, msg);
        }
    }
}

proof fn lemma_unpark_rounds_keeps_full(ps: Seq<ParkedEvent>, q: Multiset<(usize, usize, usize)>, tb: TableView, ch: int, msg: Seq<char>)
    requires
        links_ok(tb),
        0 <= ch < tb.chans.len(),
        tb.chans[ch].slot(msg) is Some,
    ensures
        unpark_rounds(ps, q, tb).2.chans.len() == tb.chans.len(),
        unpark_rounds(ps, q, tb).2.links == tb.links,
        unpark_rounds(ps, q, tb).2.chans[ch].slot(msg) == tb.chans[ch].slot(msg),
    decreases ps.len(),
{
    let r = unpark_pass(ps, q, tb);
    lemma_unpark_pass_keeps_full(ps, q, tb, ch, msg);
    if r.3 {
        lemma_unpark_pass(ps, q, tb);
        lemma_unpark_rounds_keeps_full(r.0, r.1, r.2, ch, msg);
    }
}

/// Law (single-slot channels): a step never overwrites a value waiting in a
/// slot; the value stays until a receive empties the slot.
pub proof fn lemma_step_keeps_waiting_value(
    threads: Seq<ThreadState>,
    max_cycles: Option<usize>,
    s: SimView,
    tb: TableView,
    g: bool,
    ch: int,
    msg: Seq<char>,
)
    requires
        links_ok(tb),
        0 <= ch < tb.chans.len(),
        tb.chans[ch].slot(msg) is Some,
    ensures
        ({
            let n = step_spec(threads, max_cycles, s, tb, g);
            &&& n.table.chans.len() == tb.chans.len()
            &&& (n.table.chans[ch].slot(msg) == tb.chans[ch].slot(msg) || n.table.chans[ch].slot(msg) is None)
        }),
{
    reveal(step_spec);
    if s.tasks.len() == 0 {
        if !g {
            lemma_unpark_rounds_keeps_full(s.parked, s.queue, tb, ch, msg);
        }
    }
}

/// Law (registers change at the end of a cycle): a step leaves the register
/// file as it is, except the step that ends the batch of a cycle, which
/// commits the cycle's buffered writes, in order, once no work is left and
/// no event of that cycle is queued. A batch ends only so, and a new batch
/// starts only after the last one ended. So every event of a cycle reads
/// the same register values, and the events of a later batch see the writes.
pub proof fn lemma_step_regs(threads: Seq<ThreadState>, max_cycles: Option<usize>, s: SimView, tb: TableView, g: bool)
    ensures
        ({
            let n = step_spec(threads, max_cycles, s, tb, g);
            &&& (s.batch is Some && n.sim.batch != s.batch) ==> n.sim.batch is None
            &&& (n.sim.regs != s.regs || (s.batch is Some && n.sim.batch is None)) ==> {
                &&& s.tasks.len() == 0
                &&& s.batch is Some
                &&& !(queue_min(unpark_if(s, tb, g).0.queue) matches Some(m) && m.0 == s.batch.unwrap())
                &&& n.sim.regs == apply_writes(s.regs, s.pending, s.batch.unwrap())
                &&& n.sim.pending.len() == 0
                &&& n.sim.batch is None
            }
        }),
{
    reveal(step_spec);
}

/// Law: register writes are only added to, in order, while a cycle's events fire.
pub proof fn lemma_step_pending(threads: Seq<ThreadState>, max_cycles: Option<usize>, s: SimView, tb: TableView, g: bool)
    ensures
        ({
            let n = step_spec(threads, max_cycles, s, tb, g);
            ||| n.sim.pending == s.pending
            ||| (s.tasks.len() > 0 && n.sim.pending.len() == s.pending.len() + 1 && n.sim.pending.drop_last() == s.pending)
            ||| (s.tasks.len() == 0 && s.batch is Some && n.sim.pending.len() == 0)
        }),
{
    reveal(step_spec);
    if s.tasks.len() > 0 {
        match s.tasks.last() {
            Task::Actions { thread, event, cycle, next } => lemma_actions_pending(threads, s, tb, g, thread, event, cycle, next),
            _ => {},
        }
    }
}

proof fn lemma_actions_pending(threads: Seq<ThreadState>, s: SimView, tb: TableView, g: bool, t: usize, e: usize, c: usize, k: usize)
    ensures
        ({
            let n = actions_spec(threads, s, tb, g, t, e, c, k);
            ||| n.sim.pending == s.pending
            ||| (n.sim.pending.len() == s.pending.len() + 1 && n.sim.pending.drop_last() == s.pending)
        }),
{
    let n = actions_spec(threads, s, tb, g, t, e, c, k);
    if n.sim.pending != s.pending {
        assert(n.sim.pending.drop_last() =~= s.pending);
    }
}

/// Work left on the stack: below the top there are only successors still to
/// schedule and receive slots still to empty.
pub open spec fn tasks_shaped(ts: Seq<Task>) -> bool {
    forall|i: int| 0 <= i < ts.len() - 1 ==> (#[trigger] ts[i] is Schedule || ts[i] is ClearRecv)
}

/// Work left once this proc has finished: nothing that runs actions.
pub open spec fn tasks_quiet(ts: Seq<Task>) -> bool {
    forall|i: int| 0 <= i < ts.len() ==> (#[trigger] ts[i] is Fire || ts[i] is Schedule || ts[i] is ClearRecv)
}

proof fn lemma_shaped_replace_top(ts: Seq<Task>, t: Task)
    requires
        tasks_shaped(ts),
        ts.len() > 0,
    ensures
        tasks_shaped(ts.drop_last().push(t)),
        tasks_shaped(ts.drop_last()),
{
    let r = ts.drop_last().push(t);
    assert forall|i: int| 0 <= i < r.len() - 1 implies (#[trigger] r[i] is Schedule || r[i] is ClearRecv) by {
        assert(r[i] == ts[i]);
    }
    let d = ts.drop_last();
    assert forall|i: int| 0 <= i < d.len() - 1 implies (#[trigger] d[i] is Schedule || d[i] is ClearRecv) by {
        assert(d[i] == ts[i]);
    }
}

proof fn lemma_shaped_under(ts: Seq<Task>, below: Task, t: Task)
    requires
        tasks_shaped(ts),
        ts.len() > 0,
        below is Schedule || below is ClearRecv,
    ensures
        tasks_shaped(ts.drop_last().push(below).push(t)),
{
    let r = ts.drop_last().push(below).push(t);
    assert forall|i: int| 0 <= i < r.len() - 1 implies (#[trigger] r[i] is Schedule || r[i] is ClearRecv) by {
        if i < ts.len() - 1 {
            assert(r[i] == ts[i]);
        }
    }
}

proof fn lemma_shaped_pop_push2(ts: Seq<Task>, a: Task, t: Task)
    requires
        tasks_shaped(ts),
        ts.len() > 0,
        a is Schedule || a is ClearRecv,
    ensures
        tasks_shaped(ts.drop_last().push(a).push(t)),
        tasks_shaped(ts.drop_last().push(t)),
{
    lemma_shaped_under(ts, a, t);
    lemma_shaped_replace_top(ts, t);
}

/// Law (the shape of the work stack): every step keeps it; a simulation
/// starts with no work.
pub proof fn lemma_step_keeps_shape(threads: Seq<ThreadState>, max_cycles: Option<usize>, s: SimView, tb: TableView, g: bool)
    requires
        tasks_shaped(s.tasks),
    ensures
        tasks_shaped(step_spec(threads, max_cycles, s, tb, g).sim.tasks),
{
    reveal(step_spec);
    let n = step_spec(threads, max_cycles, s, tb, g);
    if s.tasks.len() == 0 {
        assert(tasks_shaped(n.sim.tasks)) by {
            let ts = n.sim.tasks;
            assert(ts.len() <= 1);
        }
    } else {
        let top = s.tasks.last();
        match top {
            Task::Sends { thread: t, event: e, cycle: c, .. } => {
                lemma_shaped_replace_top(s.tasks, Task::Actions { thread: t, event: e, cycle: c, next: 0 });
                lemma_shaped_pop_push2(s.tasks, Task::ClearRecv { thread: t, event: e, cycle: c }, Task::Schedule { thread: t, event: e, cycle: c, next: 0 });
                lemma_shaped_replace_top(s.tasks, n.sim.tasks.last());
            },
            Task::Recvs { thread: t, event: e, cycle: c, .. } => {
                lemma_shaped_pop_push2(s.tasks, Task::ClearRecv { thread: t, event: e, cycle: c }, Task::Schedule { thread: t, event: e, cycle: c, next: 0 });
                lemma_shaped_replace_top(s.tasks, n.sim.tasks.last());
            },
            Task::Schedule { thread: t, event: e, cycle: c, next: k } => {
                lemma_shaped_replace_top(s.tasks, n.sim.tasks.last());
                lemma_shaped_under(s.tasks, Task::Schedule { thread: t, event: e, cycle: c, next: (k + 1) as usize }, n.sim.tasks.last());
                if t < threads.len() && e < threads[t as int].events@.len() {
                    lemma_shaped_replace_top(s.tasks, Task::Fire { thread: t, event: threads[t as int].root_id, cycle: c });
                }
            },
            _ => {
                lemma_shaped_replace_top(s.tasks, n.sim.tasks.last());
            },
        }
    }
}

proof fn lemma_quiet_pop(ts: Seq<Task>)
    requires
        tasks_quiet(ts),
        ts.len() > 0,
    ensures
        tasks_quiet(ts.drop_last()),
{
    let d = ts.drop_last();
    assert forall|i: int| 0 <= i < d.len() implies (#[trigger] d[i] is Fire || d[i] is Schedule || d[i] is ClearRecv) by {
        assert(d[i] == ts[i]);
    }
}

/// Law (`DebugFinish` ends the proc's work): the step that finishes the
/// proc leaves no work that runs actions.
pub proof fn lemma_finish_quiets(threads: Seq<ThreadState>, max_cycles: Option<usize>, s: SimView, tb: TableView, g: bool)
    requires
        tasks_shaped(s.tasks),
        step_spec(threads, max_cycles, s, tb, g).out is FinishRequested,
    ensures
        step_spec(threads, max_cycles, s, tb, g).sim.finished,
        step_spec(threads, max_cycles, s, tb, g).global,
        tasks_quiet(step_spec(threads, max_cycles, s, tb, g).sim.tasks),
{
    reveal(step_spec);
    let n = step_spec(threads, max_cycles, s, tb, g);
    let d = s.tasks.drop_last();
    assert forall|i: int| 0 <= i < d.len() implies (#[trigger] d[i] is Fire || d[i] is Schedule || d[i] is ClearRecv) by {
        assert(d[i] == s.tasks[i]);
    }
}

/// Law (nothing happens after `DebugFinish`): once this proc has finished,
/// with no work left that runs actions, every step keeps it so and prints
/// nothing.
pub proof fn lemma_finished_stays_quiet(threads: Seq<ThreadState>, max_cycles: Option<usize>, s: SimView, tb: TableView, g: bool)
    requires
        s.finished,
        tasks_quiet(s.tasks),
    ensures
        ({
            let n = step_spec(threads, max_cycles, s, tb, g);
            &&& n.sim.finished
            &&& tasks_quiet(n.sim.tasks)
            &&& !(n.out is Print)
            &&& !(n.out is FinishRequested)
        }),
{
    reveal(step_spec);
    let n = step_spec(threads, max_cycles, s, tb, g);
    if s.tasks.len() == 0 {
        assert(tasks_quiet(n.sim.tasks)) by {
            assert(n.sim.tasks.len() <= 1);
        }
    } else {
        lemma_quiet_pop(s.tasks);
        assert(s.tasks[s.tasks.len() - 1] == s.tasks.last());
    }
}

/// The cycle a piece of work belongs to.
pub open spec fn task_cycle(t: Task) -> usize {
    match t {
        Task::Fire { cycle, .. } => cycle,
        Task::Sends { cycle, .. } => cycle,
        Task::Actions { cycle, .. } => cycle,
        Task::Recvs { cycle, .. } => cycle,
        Task::Schedule { cycle, .. } => cycle,
        Task::ClearRecv { cycle, .. } => cycle,
    }
}

pub open spec fn tasks_at(ts: Seq<Task>, c: usize) -> bool {
    forall|i: int| 0 <= i < ts.len() ==> task_cycle(#[trigger] ts[i]) == c
}

/// All work left belongs to the batch of the current cycle, and that cycle
/// lies below the cycle limit, if there is one.
pub open spec fn within_limit(max_cycles: Option<usize>, s: SimView) -> bool {
    &&& s.tasks.len() > 0 ==> s.batch is Some
    &&& s.batch matches Some(c) ==> tasks_at(s.tasks, c)
    &&& s.batch matches Some(c) ==> (max_cycles matches Some(mx) ==> c < mx)
}

proof fn lemma_tasks_at_edit(ts: Seq<Task>, c: usize, a: Task, b: Task)
    requires
        tasks_at(ts, c),
        ts.len() > 0,
        task_cycle(a) == c,
        task_cycle(b) == c,
    ensures
        tasks_at(ts.drop_last(), c),
        tasks_at(ts.drop_last().push(a), c),
        tasks_at(ts.drop_last().push(a).push(b), c),
        tasks_at(ts.push(a), c),
{
    let d = ts.drop_last();
    assert forall|i: int| 0 <= i < d.len() implies task_cycle(#[trigger] d[i]) == c by {
        assert(d[i] == ts[i]);
    }
    let r1 = d.push(a);
    assert forall|i: int| 0 <= i < r1.len() implies task_cycle(#[trigger] r1[i]) == c by {
        if i < d.len() { assert(r1[i] == d[i]); }
    }
    let r2 = r1.push(b);
    assert forall|i: int| 0 <= i < r2.len() implies task_cycle(#[trigger] r2[i]) == c by {
        if i < r1.len() { assert(r2[i] == r1[i]); }
    }
    let r3 = ts.push(a);
    assert forall|i: int| 0 <= i < r3.len() implies task_cycle(#[trigger] r3[i]) == c by {
        if i < ts.len() { assert(r3[i] == ts[i]); }
    }
}

proof fn lemma_schedule_within(threads: Seq<ThreadState>, s: SimView, tb: TableView, g: bool, t: usize, e: usize, c: usize, k: usize)
    requires
        tasks_at(s.tasks, c),
        s.tasks.len() > 0,
        s.tasks.last() == (Task::Schedule { thread: t, event: e, cycle: c, next: k }),
    ensures
        tasks_at(schedule_spec(threads, s, tb, g, t, e, c, k).sim.tasks, c),
        schedule_spec(threads, s, tb, g, t, e, c, k).sim.batch == s.batch,
{
    let top = s.tasks.last();
    lemma_tasks_at_edit(s.tasks, c, Task::Schedule { thread: t, event: e, cycle: c, next: (k + 1) as usize }, top);
    if t < threads.len() && e < threads[t as int].events@.len() {
        let ev = threads[t as int].events@[e as int];
        lemma_tasks_at_edit(s.tasks, c, Task::Fire { thread: t, event: threads[t as int].root_id, cycle: c }, top);
        if k < ev.outs@.len() {
            lemma_tasks_at_edit(s.tasks, c, Task::Schedule { thread: t, event: e, cycle: c, next: (k + 1) as usize },
                Task::Fire { thread: t, event: ev.outs@[k as int], cycle: c });
        }
    }
}

proof fn lemma_sends_within(threads: Seq<ThreadState>, s: SimView, tb: TableView, g: bool, t: usize, e: usize, c: usize, k: usize, v: Option<i64>)
    requires
        tasks_at(s.tasks, c),
        s.tasks.len() > 0,
        s.tasks.last() == (Task::Sends { thread: t, event: e, cycle: c, next: k, value: v }),
    ensures
        tasks_at(sends_spec(threads, s, tb, g, t, e, c, k, v).sim.tasks, c),
        sends_spec(threads, s, tb, g, t, e, c, k, v).sim.batch == s.batch,
{
    let top = s.tasks.last();
    let n = sends_spec(threads, s, tb, g, t, e, c, k, v);
    lemma_tasks_at_edit(s.tasks, c, Task::Actions { thread: t, event: e, cycle: c, next: 0 }, top);
    lemma_tasks_at_edit(s.tasks, c, Task::ClearRecv { thread: t, event: e, cycle: c }, Task::Schedule { thread: t, event: e, cycle: c, next: 0 });
    if n.sim.tasks.len() > 0 && task_cycle(n.sim.tasks.last()) == c {
        lemma_tasks_at_edit(s.tasks, c, n.sim.tasks.last(), top);
    }
}

/// Law (the cycle limit): every step keeps all work in the current cycle's
/// batch and that cycle below the limit, so no event fires at or past it.
/// A simulation starts with no work and no batch.
pub proof fn lemma_step_within_limit(threads: Seq<ThreadState>, max_cycles: Option<usize>, s: SimView, tb: TableView, g: bool)
    requires
        within_limit(max_cycles, s),
    ensures
        within_limit(max_cycles, step_spec(threads, max_cycles, s, tb, g).sim),
{
    reveal(step_spec);
    let n = step_spec(threads, max_cycles, s, tb, g);
    if s.tasks.len() == 0 {
        assert(tasks_at(n.sim.tasks, n.sim.batch.unwrap_or(0))) by {
            if n.sim.tasks.len() > 0 {
                assert(n.sim.tasks.len() == 1);
            }
        }
    } else {
        let c = s.batch.unwrap();
        let top = s.tasks.last();
        assert(task_cycle(top) == c) by {
            assert(s.tasks[s.tasks.len() - 1] == top);
        }
        match top {
            Task::Fire { thread: t, event: e, cycle: c1 } => {
                lemma_tasks_at_edit(s.tasks, c, Task::Sends { thread: t, event: e, cycle: c1, next: 0, value: None }, top);
            },
            Task::Sends { thread: t, event: e, cycle: c1, next: k, value: v } => {
                lemma_sends_within(threads, s, tb, g, t, e, c1, k, v);
            },
            Task::Actions { thread: t, event: e, cycle: c1, next: k } => {
                lemma_tasks_at_edit(s.tasks, c, Task::Recvs { thread: t, event: e, cycle: c1, next: 0 }, top);
                lemma_tasks_at_edit(s.tasks, c, Task::Actions { thread: t, event: e, cycle: c1, next: (k + 1) as usize }, top);
            },
            Task::Recvs { thread: t, event: e, cycle: c1, next: k } => {
                lemma_tasks_at_edit(s.tasks, c, Task::Recvs { thread: t, event: e, cycle: c1, next: (k + 1) as usize }, top);
                lemma_tasks_at_edit(s.tasks, c, Task::ClearRecv { thread: t, event: e, cycle: c1 }, Task::Schedule { thread: t, event: e, cycle: c1, next: 0 });
            },
            Task::Schedule { thread: t, event: e, cycle: c1, next: k } => {
                lemma_schedule_within(threads, s, tb, g, t, e, c1, k);
            },
            Task::ClearRecv { .. } => {
                lemma_tasks_at_edit(s.tasks, c, top, top);
            },
        }
    }
}

/// Law (a receive gets what was sent): when a `SeqRecv` event fires with a
/// value waiting in its slot, that value is what its wires read from then on
/// (it is kept by endpoint and message); and once the event's work is done,
/// emptying the slot leaves it empty, so the sender can send again.
pub proof fn lemma_receive_takes_value(
    threads: Seq<ThreadState>,
    max_cycles: Option<usize>,
    s: SimView,
    tb: TableView,
    g: bool,
    t: usize,
    e: usize,
    c: usize,
)
    requires
        links_ok(tb),
        s.tasks.len() > 0,
        t < threads.len(),
        e < threads[t as int].events@.len(),
        threads[t as int].events@[e as int].source is SeqRecv,
        tb.channel_of(threads[t as int].events@[e as int].source->SeqRecv_endpoint@) is Some,
    ensures
        ({
            let src = threads[t as int].events@[e as int].source;
            let (ep, msg) = (src->SeqRecv_endpoint@, src->SeqRecv_msg@);
            let ch = tb.channel_of(ep).unwrap();
            &&& (s.tasks.last() == Task::Fire { thread: t, event: e, cycle: c } && !s.finished
                && tb.chans[ch as int].slot(msg) is Some) ==> {
                let n = step_spec(threads, max_cycles, s, tb, g);
                &&& n.sim.cache.dom().contains((ep, msg))
                &&& Some(n.sim.cache[(ep, msg)]) == tb.chans[ch as int].slot(msg)
                &&& n.table == tb
            }
            &&& s.tasks.last() == (Task::ClearRecv { thread: t, event: e, cycle: c }) ==> {
                let n = step_spec(threads, max_cycles, s, tb, g);
                &&& n.table.slot(ep, msg) is None
                &&& n.sim.tasks == s.tasks.drop_last()
            }
        }),
{
    reveal(step_spec);
}

/// Law (how successors are scheduled): a successor `SeqCycles { cycles }`
/// goes in the queue `cycles` later; a `Branch` fires at once, in the same
/// cycle, before the following successors; a `Later` fires at once when its
/// other predecessor has already arrived and otherwise waits for it; and
/// after the last successor, a recursing event fires its thread's root again
/// in the same cycle.
pub proof fn lemma_schedule_successor(
    threads: Seq<ThreadState>,
    max_cycles: Option<usize>,
    s: SimView,
    tb: TableView,
    g: bool,
    t: usize,
    e: usize,
    c: usize,
    k: usize,
)
    requires
        s.tasks.len() > 0,
        s.tasks.last() == (Task::Schedule { thread: t, event: e, cycle: c, next: k }),
        !s.finished,
        t < threads.len(),
        t < s.later.len(),
        e < threads[t as int].events@.len(),
    ensures
        ({
            let n = step_spec(threads, max_cycles, s, tb, g);
            let events = threads[t as int].events@;
            let outs = events[e as int].outs@;
            let rest = s.tasks.drop_last();
            let again = Task::Schedule { thread: t, event: e, cycle: c, next: (k + 1) as usize };
            &&& k >= outs.len() ==> n.sim.tasks == (if events[e as int].is_recurse {
                rest.push(Task::Fire { thread: t, event: threads[t as int].root_id, cycle: c })
            } else {
                rest
            })
            &&& (k < outs.len() && outs[k as int] < events.len()) ==> {
                let succ = outs[k as int];
                match events[succ as int].source {
                    EventSource::SeqCycles { cycles, .. } => c + cycles <= usize::MAX ==> {
                        &&& n.sim.queue == s.queue.insert(((c + cycles) as usize, succ, t))
                        &&& n.sim.tasks == rest.push(again)
                    },
                    EventSource::Branch { .. } => n.sim.tasks == rest.push(again).push(Task::Fire { thread: t, event: succ, cycle: c }),
                    EventSource::Later { .. } => succ < s.later[t as int].len() ==> if s.later[t as int][succ as int] {
                        &&& n.sim.tasks == rest.push(again).push(Task::Fire { thread: t, event: succ, cycle: c })
                        &&& !n.sim.later[t as int][succ as int]
                    } else {
                        &&& n.sim.tasks == rest.push(again)
                        &&& n.sim.later[t as int][succ as int]
                    },
                    _ => true,
                }
            }
        }),
{
    reveal(step_spec);
}

/// A step that waits changes nothing but the work on top (same cycle); one
/// that fails changes nothing.
pub open spec fn held_ok(s: SimView, tb: TableView, g: bool, n: Next) -> bool {
    &&& n.out is Blocked ==> {
        &&& n.table == tb
        &&& n.global == g
        &&& n.sim.tasks.len() == s.tasks.len()
        &&& n.sim.tasks.drop_last() == s.tasks.drop_last()
        &&& task_cycle(n.sim.tasks.last()) == task_cycle(s.tasks.last())
        &&& (SimView { tasks: s.tasks, ..n.sim }) == s
    }
    &&& n.out is Fault ==> n.sim == s && n.table == tb && n.global == g
}

proof fn lemma_sends_held(threads: Seq<ThreadState>, s: SimView, tb: TableView, g: bool, t: usize, e: usize, c: usize, k: usize, v: Option<i64>)
    requires
        s.tasks.len() > 0,
        s.tasks.last() == (Task::Sends { thread: t, event: e, cycle: c, next: k, value: v }),
    ensures
        held_ok(s, tb, g, sends_spec(threads, s, tb, g, t, e, c, k, v)),
{
    let n = sends_spec(threads, s, tb, g, t, e, c, k, v);
    if n.out is Blocked {
        assert(n.sim.tasks.drop_last() =~= s.tasks.drop_last());
        assert(n.sim.tasks.len() == s.tasks.len());
        let back = SimView { tasks: s.tasks, ..n.sim };
        assert(back.tasks == s.tasks);
    }
}

proof fn lemma_actions_held(threads: Seq<ThreadState>, s: SimView, tb: TableView, g: bool, t: usize, e: usize, c: usize, k: usize)
    requires
        s.tasks.len() > 0,
    ensures
        held_ok(s, tb, g, actions_spec(threads, s, tb, g, t, e, c, k)),
{
}

proof fn lemma_schedule_held(threads: Seq<ThreadState>, s: SimView, tb: TableView, g: bool, t: usize, e: usize, c: usize, k: usize)
    requires
        s.tasks.len() > 0,
    ensures
        held_ok(s, tb, g, schedule_spec(threads, s, tb, g, t, e, c, k)),
{
}

/// Law (a step that cannot go on can be tried again): a step that waits for
/// a channel changes nothing but the work on top, which keeps the value it
/// computed; a step that fails in the middle of an event changes nothing at
/// all, and one that fails between events commits no register write.
pub proof fn lemma_held_step_changes_nothing(threads: Seq<ThreadState>, max_cycles: Option<usize>, s: SimView, tb: TableView, g: bool)
    ensures
        ({
            let n = step_spec(threads, max_cycles, s, tb, g);
            &&& n.out is Blocked ==> s.tasks.len() > 0
            &&& s.tasks.len() > 0 ==> held_ok(s, tb, g, n)
            &&& (n.out is Fault && s.tasks.len() == 0) ==> n.sim.regs == s.regs && n.sim.pending == s.pending && n.global == g
        }),
{
    reveal(step_spec);
    if s.tasks.len() > 0 {
        match s.tasks.last() {
            Task::Fire { .. } => {},
            Task::Sends { thread, event, cycle, next, value } => lemma_sends_held(threads, s, tb, g, thread, event, cycle, next, value),
            Task::Actions { thread, event, cycle, next } => lemma_actions_held(threads, s, tb, g, thread, event, cycle, next),
            Task::Recvs { .. } => {},
            Task::Schedule { thread, event, cycle, next } => lemma_schedule_held(threads, s, tb, g, thread, event, cycle, next),
            Task::ClearRecv { .. } => {},
        }
    }
}

/// Law (a branch follows its condition): scheduling a `RootBranch`
/// successor whose condition wire has value `cv` fires it at once exactly
/// when its branch is the chosen one, and otherwise skips it: for a
/// true/false branch, branch 0 when `cv` is nonzero and branch 1 when it is
/// 0 (no other branch); for a match, when `cv` equals the value of the
/// pattern the branch selects.
pub proof fn lemma_branch_successor(
    threads: Seq<ThreadState>,
    max_cycles: Option<usize>,
    s: SimView,
    tb: TableView,
    g: bool,
    t: usize,
    e: usize,
    c: usize,
    k: usize,
    cv: i64,
    pw: usize,
    p: i64,
)
    requires
        s.tasks.len() > 0,
        s.tasks.last() == (Task::Schedule { thread: t, event: e, cycle: c, next: k }),
        !s.finished,
        t < threads.len(),
        e < threads[t as int].events@.len(),
        k < threads[t as int].events@[e as int].outs@.len(),
        threads[t as int].events@[e as int].outs@[k as int] < threads[t as int].events@.len(),
        ({
            let succ = threads[t as int].events@[e as int].outs@[k as int];
            let src = threads[t as int].events@[succ as int].source;
            &&& src is RootBranch
            &&& src->RootBranch_cond_wire_id matches Some(cw)
                && wire_result(threads[t as int].wires@, env_at(s, tb, g, c), cw as int) == Ok::<i64, EvalError>(cv)
        }),
    ensures
        ({
            let n = step_spec(threads, max_cycles, s, tb, g);
            let succ = threads[t as int].events@[e as int].outs@[k as int];
            let src = threads[t as int].events@[succ as int].source;
            let sel = src->RootBranch_branch_sel;
            let wires = threads[t as int].wires@;
            let skipped = s.tasks.drop_last().push(Task::Schedule { thread: t, event: e, cycle: c, next: (k + 1) as usize });
            let fired = skipped.push(Task::Fire { thread: t, event: succ, cycle: c });
            &&& src->RootBranch_branch_cond is TrueFalse ==> {
                &&& n.out is Progress
                &&& n.sim.tasks == (if (sel == 0 && cv != 0) || (sel == 1 && cv == 0) { fired } else { skipped })
            }
            &&& (src->RootBranch_branch_cond is MatchCases
                && sel < src->RootBranch_branch_cond->patterns@.len()
                && src->RootBranch_branch_cond->patterns@[sel as int].wire_id == Some(pw)
                && wire_result(wires, env_at(s, tb, g, c), pw as int) == Ok::<i64, EvalError>(p)) ==> {
                &&& n.out is Progress
                &&& n.sim.tasks == (if cv == p { fired } else { skipped })
            }
        }),
{
    reveal(step_spec);
}

proof fn lemma_bits_value_empty(k: nat)
    ensures
        crate::bits::bits_value(Seq::empty(), 0, k) == 0,
    decreases k,
{
    if k > 0 {
        lemma_bits_value_empty((k - 1) as nat);
    }
}

/// Law (a register starts holding its initial value): the storage made for
/// an initial value reads back, over 64 bits, as that value.
pub proof fn lemma_init_storage_reads_back(v: i64)
    ensures
        crate::bits::reg_read(init_storage(v), 0, 64) == v,
{
    if v != 0 {
        crate::bits::lemma_read_after_write(Seq::empty(), 0, 64, v);
        assert(v & -1i64 == v) by (bit_vector);
    } else {
        lemma_bits_value_empty(64);
    }
}

proof fn lemma_init_regs_keeps(m: Map<Seq<char>, Seq<(usize, Seq<u8>)>>, regs: Seq<RegDef>, n: Seq<char>)
    requires
        m.dom().contains(n),
    ensures
        init_regs(m, regs).dom().contains(n),
        init_regs(m, regs)[n] == m[n],
    decreases regs.len(),
{
    if regs.len() > 0 {
        let r = regs[0];
        let m1 = if m.dom().contains(r.name@) { m } else { m.insert(r.name@, seq![(0usize, init_storage(init_value(r).unwrap()))]) };
        lemma_init_regs_keeps(m1, regs.drop_first(), n);
    }
}

proof fn lemma_init_regs_value(m: Map<Seq<char>, Seq<(usize, Seq<u8>)>>, regs: Seq<RegDef>, i: int)
    requires
        0 <= i < regs.len(),
        !m.dom().contains(regs[i].name@),
        forall|j: int| 0 <= j < i ==> (#[trigger] regs[j]).name@ != regs[i].name@,
    ensures
        init_regs(m, regs).dom().contains(regs[i].name@),
        init_regs(m, regs)[regs[i].name@] == seq![(0usize, init_storage(init_value(regs[i]).unwrap()))],
    decreases regs.len(),
{
    let r = regs[0];
    let m1 = if m.dom().contains(r.name@) { m } else { m.insert(r.name@, seq![(0usize, init_storage(init_value(r).unwrap()))]) };
    if i == 0 {
        lemma_init_regs_keeps(m1, regs.drop_first(), r.name@);
    } else {
        let rest = regs.drop_first();
        assert(rest[i - 1] == regs[i]);
        assert(regs[0].name@ != regs[i].name@);
        assert forall|j: int| 0 <= j < i - 1 implies (#[trigger] rest[j]).name@ != rest[i - 1].name@ by {
            assert(rest[j] == regs[j + 1]);
        }
        lemma_init_regs_value(m1, rest, i - 1);
    }
}

proof fn lemma_setup_regs_keeps(gs: Seq<EventGraph>, m: Map<Seq<char>, Seq<(usize, Seq<u8>)>>, n: Seq<char>)
    requires
        m.dom().contains(n),
        setup_regs(gs, m) is Ok,
    ensures
        setup_regs(gs, m)->Ok_0.dom().contains(n),
        setup_regs(gs, m)->Ok_0[n] == m[n],
    decreases gs.len(),
{
    if gs.len() > 0 {
        lemma_init_regs_keeps(m, gs[0].regs@, n);
        lemma_setup_regs_keeps(gs.drop_first(), init_regs(m, gs[0].regs@), n);
    }
}

/// Law (registers start at their declared values): when the setup of a
/// proc's threads succeeds, a register read over 64 bits at cycle 0 gives
/// the initial value of its first declaration (thread by thread, in order),
/// 0 when it has none.
pub proof fn lemma_setup_regs_initial(gs: Seq<EventGraph>, q: int, i: int)
    requires
        0 <= q < gs.len(),
        0 <= i < gs[q].regs@.len(),
        forall|p: int, j: int| 0 <= p < q && 0 <= j < gs[p].regs@.len() ==> (#[trigger] gs[p].regs@[j]).name@ != gs[q].regs@[i].name@,
        forall|j: int| 0 <= j < i ==> (#[trigger] gs[q].regs@[j]).name@ != gs[q].regs@[i].name@,
        setup_regs(gs, Map::empty()) is Ok,
    ensures
        ({
            let r = gs[q].regs@[i];
            let regs = setup_regs(gs, Map::empty())->Ok_0;
            &&& regs.dom().contains(r.name@)
            &&& crate::bits::reg_read(crate::regs::storage_at(regs, r.name@, 0), 0, 64) == init_value(r).unwrap()
            &&& r.init is None ==> init_value(r) == Some(0i64)
        }),
{
    lemma_setup_regs_from(gs, Map::empty(), q, i);
}

proof fn lemma_setup_regs_from(gs: Seq<EventGraph>, m: Map<Seq<char>, Seq<(usize, Seq<u8>)>>, q: int, i: int)
    requires
        0 <= q < gs.len(),
        0 <= i < gs[q].regs@.len(),
        !m.dom().contains(gs[q].regs@[i].name@),
        forall|p: int, j: int| 0 <= p < q && 0 <= j < gs[p].regs@.len() ==> (#[trigger] gs[p].regs@[j]).name@ != gs[q].regs@[i].name@,
        forall|j: int| 0 <= j < i ==> (#[trigger] gs[q].regs@[j]).name@ != gs[q].regs@[i].name@,
        setup_regs(gs, m) is Ok,
    ensures
        ({
            let r = gs[q].regs@[i];
            let regs = setup_regs(gs, m)->Ok_0;
            &&& regs.dom().contains(r.name@)
            &&& crate::bits::reg_read(crate::regs::storage_at(regs, r.name@, 0), 0, 64) == init_value(r).unwrap()
        }),
    decreases gs.len(),
{
    let r = gs[q].regs@[i];
    let m1 = init_regs(m, gs[0].regs@);
    if q == 0 {
        lemma_init_regs_value(m, gs[0].regs@, i);
        lemma_setup_regs_keeps(gs.drop_first(), m1, r.name@);
        lemma_init_storage_reads_back(init_value(r).unwrap());
        let h = m1[r.name@];
        assert(h.last().0 == 0usize);
        assert(crate::bits::version_at(h, 0) == h.last().1);
    } else {
        let rest = gs.drop_first();
        assert(rest[q - 1] == gs[q]);
        assert(!m1.dom().contains(r.name@)) by {
            lemma_init_regs_absent(m, gs[0].regs@, r.name@);
        }
        assert forall|p: int, j: int| 0 <= p < q - 1 && 0 <= j < rest[p].regs@.len() implies (#[trigger] rest[p].regs@[j]).name@ != rest[q - 1].regs@[i].name@ by {
            assert(rest[p] == gs[p + 1]);
        }
        lemma_setup_regs_from(rest, m1, q - 1, i);
    }
}

proof fn lemma_init_regs_absent(m: Map<Seq<char>, Seq<(usize, Seq<u8>)>>, regs: Seq<RegDef>, n: Seq<char>)
    requires
        !m.dom().contains(n),
        forall|j: int| 0 <= j < regs.len() ==> (#[trigger] regs[j]).name@ != n,
    ensures
        !init_regs(m, regs).dom().contains(n),
    decreases regs.len(),
{
    if regs.len() > 0 {
        let r = regs[0];
        let m1 = if m.dom().contains(r.name@) { m } else { m.insert(r.name@, seq![(0usize, init_storage(init_value(r).unwrap()))]) };
        let rest = regs.drop_first();
        assert forall|j: int| 0 <= j < rest.len() implies (#[trigger] rest[j]).name@ != n by {
            assert(rest[j] == regs[j + 1]);
        }
        lemma_init_regs_absent(m1, rest, n);
    }
}

/// Law (an immediate receive empties its slot): the step that runs an
/// `ImmediateRecv` action on a known endpoint leaves the slot of its message
/// empty, records the receive at the current cycle, and leaves every other
/// slot as it was.
pub proof fn lemma_immediate_recv(
    threads: Seq<ThreadState>,
    max_cycles: Option<usize>,
    s: SimView,
    tb: TableView,
    g: bool,
    t: usize,
    e: usize,
    c: usize,
    k: usize,
)
    requires
        links_ok(tb),
        s.tasks.len() > 0,
        s.tasks.last() == (Task::Recvs { thread: t, event: e, cycle: c, next: k }),
        t < threads.len(),
        e < threads[t as int].events@.len(),
        k < threads[t as int].events@[e as int].actions@.len(),
        threads[t as int].events@[e as int].actions@[k as int] is ImmediateRecv,
        tb.channel_of(threads[t as int].events@[e as int].actions@[k as int]->ImmediateRecv_endpoint@) is Some,
    ensures
        ({
            let n = step_spec(threads, max_cycles, s, tb, g);
            let a = threads[t as int].events@[e as int].actions@[k as int];
            let (ep, msg) = (a->ImmediateRecv_endpoint@, a->ImmediateRecv_msg@);
            let ch = tb.channel_of(ep).unwrap();
            &&& n.out is Progress
            &&& n.table.slot(ep, msg) is None
            &&& n.table.chans[ch as int].received_at(msg) == Some(c)
            &&& n.table.links == tb.links
            &&& n.table.chans.len() == tb.chans.len()
            &&& forall|c2: int, m2: Seq<char>| 0 <= c2 < tb.chans.len() && (c2 != ch || m2 != msg)
                ==> #[trigger] n.table.chans[c2].slot(m2) == tb.chans[c2].slot(m2)
        }),
{
    reveal(step_spec);
}

/// Law (an immediate send fills an empty slot): the step that runs an
/// `ImmediateSend` action whose value is `v`, on a known endpoint whose slot
/// is empty, puts `v` in the slot, records the send at the current cycle,
/// and leaves every other slot as it was.
pub proof fn lemma_immediate_send(
    threads: Seq<ThreadState>,
    max_cycles: Option<usize>,
    s: SimView,
    tb: TableView,
    g: bool,
    t: usize,
    e: usize,
    c: usize,
    k: usize,
    v: i64,
)
    requires
        links_ok(tb),
        s.tasks.len() > 0,
        t < threads.len(),
        e < threads[t as int].events@.len(),
        k < threads[t as int].events@[e as int].actions@.len(),
        threads[t as int].events@[e as int].actions@[k as int] is ImmediateSend,
        ({
            let a = threads[t as int].events@[e as int].actions@[k as int];
            let ep = a->ImmediateSend_endpoint@;
            &&& tb.channel_of(ep) is Some
            &&& tb.slot(ep, a->ImmediateSend_msg@) is None
            &&& (s.tasks.last() == Task::Sends { thread: t, event: e, cycle: c, next: k, value: Some(v) }
                || (s.tasks.last() == Task::Sends { thread: t, event: e, cycle: c, next: k, value: None }
                    && ld_value(threads[t as int].wires@, env_at(s, tb, g, c), a->ImmediateSend_value) == Ok::<i64, SimError>(v)))
        }),
    ensures
        ({
            let n = step_spec(threads, max_cycles, s, tb, g);
            let a = threads[t as int].events@[e as int].actions@[k as int];
            let (ep, msg) = (a->ImmediateSend_endpoint@, a->ImmediateSend_msg@);
            let ch = tb.channel_of(ep).unwrap();
            &&& n.out is Progress
            &&& n.table.slot(ep, msg) == Some(v)
            &&& n.table.chans[ch as int].sent_at(msg) == Some(c)
            &&& n.table.links == tb.links
            &&& n.table.chans.len() == tb.chans.len()
            &&& forall|c2: int, m2: Seq<char>| 0 <= c2 < tb.chans.len() && (c2 != ch || m2 != msg)
                ==> #[trigger] n.table.chans[c2].slot(m2) == tb.chans[c2].slot(m2)
        }),
{
    reveal(step_spec);
}

proof fn lemma_args_values(wires: Seq<Wire>, env: EvalEnv, args: Seq<LoweringData>, ids: Seq<usize>, vals: Seq<i64>)
    requires
        args.len() == ids.len() == vals.len(),
        forall|j: int| 0 <= j < args.len() ==> (#[trigger] args[j]).wire_id == Some(ids[j])
            && wire_result(wires, env, ids[j] as int) == Ok::<i64, EvalError>(vals[j]),
    ensures
        args_values(wires, env, args) == Ok::<Seq<i64>, SimError>(vals),
    decreases args.len(),
{
    if args.len() > 0 {
        assert(args[0].wire_id == Some(ids[0]));
        let (ra, ri, rv) = (args.drop_first(), ids.drop_first(), vals.drop_first());
        assert forall|j: int| 0 <= j < ra.len() implies (#[trigger] ra[j]).wire_id == Some(ri[j])
            && wire_result(wires, env, ri[j] as int) == Ok::<i64, EvalError>(rv[j]) by {
            assert(ra[j] == args[j + 1] && ri[j] == ids[j + 1] && rv[j] == vals[j + 1]);
        }
        lemma_args_values(wires, env, ra, ri, rv);
        assert(ld_value(wires, env, args[0]) == Ok::<i64, SimError>(vals[0]));
        assert(seq![vals[0]] + rv =~= vals);
    } else {
        assert(vals =~= Seq::<i64>::empty());
    }
}

/// Law (what the actions do): a register assignment buffers a write of the
/// value its wire has at the current cycle, at its constant offset, and
/// changes no register yet; a debug print hands out its format filled with
/// the values of its argument wires; `DebugFinish` finishes this proc and the
/// simulation as a whole.
pub proof fn lemma_action_effects(
    threads: Seq<ThreadState>,
    max_cycles: Option<usize>,
    s: SimView,
    tb: TableView,
    g: bool,
    t: usize,
    e: usize,
    c: usize,
    k: usize,
    ids: Seq<usize>,
    vals: Seq<i64>,
)
    requires
        s.tasks.len() > 0,
        s.tasks.last() == (Task::Actions { thread: t, event: e, cycle: c, next: k }),
        t < threads.len(),
        e < threads[t as int].events@.len(),
        k < threads[t as int].events@[e as int].actions@.len(),
    ensures
        ({
            let n = step_spec(threads, max_cycles, s, tb, g);
            let a = threads[t as int].events@[e as int].actions@[k as int];
            let wires = threads[t as int].wires@;
            let env = env_at(s, tb, g, c);
            &&& (a matches Action::RegAssign { target, value } && target.offset_is_const
                && value.wire_id == Some(ids[0]) && ids.len() > 0 && vals.len() > 0
                && wire_result(wires, env, ids[0] as int) == Ok::<i64, EvalError>(vals[0])) ==> {
                &&& n.out is Progress
                &&& n.sim.pending == s.pending.push((a->RegAssign_target.reg@, a->RegAssign_target.offset, a->RegAssign_target.size, vals[0]))
                &&& n.sim.regs == s.regs
                &&& n.table == tb
            }
            &&& (a is DebugPrint && ids.len() == vals.len() && a->DebugPrint_args@.len() == ids.len()
                && (forall|j: int| 0 <= j < ids.len() ==> (#[trigger] a->DebugPrint_args@[j]).wire_id == Some(ids[j])
                    && wire_result(wires, env, ids[j] as int) == Ok::<i64, EvalError>(vals[j]))) ==> {
                &&& dprint(a->DebugPrint_fmt@, vals) matches Some(txt) ==> n.out == OutcomeView::Print(txt)
                &&& dprint(a->DebugPrint_fmt@, vals) is None ==> n.out == OutcomeView::Fault(SimError::FormatArgs)
            }
            &&& a is DebugFinish ==> n.out is FinishRequested && n.sim.finished && n.global
        }),
{
    reveal(step_spec);
    let a = threads[t as int].events@[e as int].actions@[k as int];
    if a is DebugPrint && ids.len() == vals.len() && a->DebugPrint_args@.len() == ids.len()
        && (forall|j: int| 0 <= j < ids.len() ==> (#[trigger] a->DebugPrint_args@[j]).wire_id == Some(ids[j])
            && wire_result(threads[t as int].wires@, env_at(s, tb, g, c), ids[j] as int) == Ok::<i64, EvalError>(vals[j])) {
        lemma_args_values(threads[t as int].wires@, env_at(s, tb, g, c), a->DebugPrint_args@, ids, vals);
    }
}

/// Law (a parked event goes back at its original cycle): a parked receive
/// that finds data, or a parked send that finds its slot empty, goes back to
/// the queue at the cycle it was parked at (a send putting its value in the
/// slot, sent at that cycle); one that is not ready stays parked.
pub proof fn lemma_unpark_at_parked_cycle(p: ParkedEvent, q: Multiset<(usize, usize, usize)>, tb: TableView)
    requires
        links_ok(tb),
    ensures
        ({
            let r = unpark_pass(seq![p], q, tb);
            &&& parked_ready(p, tb) ==> {
                &&& r.0.len() == 0
                &&& r.1 == q.insert((p.cycle, p.succ_id, p.thread_idx))
                &&& r.3
                &&& (p.kind matches ParkedKind::Send { endpoint, msg, value } ==> {
                    &&& r.2.slot(endpoint@, msg@) == Some(value)
                    &&& r.2.chans[tb.channel_of(endpoint@).unwrap() as int].sent_at(msg@) == Some(p.cycle)
                })
                &&& (p.kind is Recv ==> r.2 == tb)
            }
            &&& !parked_ready(p, tb) ==> r == (seq![p], q, tb, false)
        }),
{
    let s = seq![p];
    assert(s[0] == p);
    assert(s.drop_first() =~= Seq::<ParkedEvent>::empty());
    if !parked_ready(p, tb) {
        assert(unpark_pass(Seq::<ParkedEvent>::empty(), q, tb) == (Seq::<ParkedEvent>::empty(), q, tb, false));
        assert(seq![p] + Seq::<ParkedEvent>::empty() =~= seq![p]);
    } else {
        let (fc, tb1) = unpark_one(p, tb);
        let q1 = q.insert((fc, p.succ_id, p.thread_idx));
        assert(unpark_pass(Seq::<ParkedEvent>::empty(), q1, tb1) == (Seq::<ParkedEvent>::empty(), q1, tb1, false));
        match p.kind {
            ParkedKind::Send { endpoint, msg, value } => {
                let c = tb.channel_of(endpoint@).unwrap();
                assert(c < tb.chans.len());
                assert(tb1.chans[c as int] == tb.chans[c as int].put(msg@, value, p.cycle));
            },
            _ => {},
        }
    }
}

/// Law (channel successors): scheduling a `SeqRecv` successor fires it at
/// once when its slot holds data and otherwise parks it at the current
/// cycle; scheduling a `SeqSend` successor whose sustained value is `v` puts
/// `v` in an empty slot and fires it at once, and otherwise parks it with
/// `v` at the current cycle, leaving the full slot as it is.
pub proof fn lemma_channel_successor(
    threads: Seq<ThreadState>,
    max_cycles: Option<usize>,
    s: SimView,
    tb: TableView,
    g: bool,
    t: usize,
    e: usize,
    c: usize,
    k: usize,
    v: i64,
)
    requires
        links_ok(tb),
        s.tasks.len() > 0,
        s.tasks.last() == (Task::Schedule { thread: t, event: e, cycle: c, next: k }),
        !s.finished,
        t < threads.len(),
        e < threads[t as int].events@.len(),
        k < threads[t as int].events@[e as int].outs@.len(),
        threads[t as int].events@[e as int].outs@[k as int] < threads[t as int].events@.len(),
    ensures
        ({
            let n = step_spec(threads, max_cycles, s, tb, g);
            let events = threads[t as int].events@;
            let succ = events[e as int].outs@[k as int];
            let skipped = s.tasks.drop_last().push(Task::Schedule { thread: t, event: e, cycle: c, next: (k + 1) as usize });
            let fired = skipped.push(Task::Fire { thread: t, event: succ, cycle: c });
            match events[succ as int].source {
                EventSource::SeqRecv { endpoint, msg, .. } => tb.channel_of(endpoint@) is Some ==> {
                    &&& n.out is Progress
                    &&& n.table == tb
                    &&& tb.slot(endpoint@, msg@) is Some ==> n.sim.tasks == fired && n.sim.parked == s.parked
                    &&& tb.slot(endpoint@, msg@) is None ==> n.sim.tasks == skipped
                        && n.sim.parked == s.parked.push(ParkedEvent { succ_id: succ, thread_idx: t, cycle: c,
                            kind: ParkedKind::Recv { endpoint, msg } })
                },
                EventSource::SeqSend { endpoint, msg, .. } => match find_sustained(events, succ, endpoint@, msg@) {
                    Some(ld) => (tb.channel_of(endpoint@) is Some
                        && ld_value(threads[t as int].wires@, env_at(s, tb, g, c), ld) == Ok::<i64, SimError>(v)) ==> {
                        &&& n.out is Progress
                        &&& tb.slot(endpoint@, msg@) is None ==> n.sim.tasks == fired && n.table.slot(endpoint@, msg@) == Some(v)
                            && n.table.chans[tb.channel_of(endpoint@).unwrap() as int].sent_at(msg@) == Some(c)
                        &&& tb.slot(endpoint@, msg@) is Some ==> n.sim.tasks == skipped && n.table == tb
                            && n.sim.parked == s.parked.push(ParkedEvent { succ_id: succ, thread_idx: t, cycle: c,
                                kind: ParkedKind::Send { endpoint, msg, value: v } })
                    },
                    None => true,
                },
                _ => true,
            }
        }),
{
    reveal(step_spec);
}
} // verus!
