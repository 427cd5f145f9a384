use anvil_sim::channel::ChannelTable;
use anvil_sim::engine::{SimError, Simulator, StepOutcome, StopReason};
use anvil_sim::ir::{
    Action, BinOp, BranchCond, Event, EventGraph, EventSource, LValue, LoweringData, RegDef, SustainedAction, Wire, WireSource,
};

fn ld(w: usize) -> LoweringData {
    LoweringData { wire_id: Some(w) }
}

fn wire(id: usize, size: usize, source: WireSource) -> Wire {
    Wire { id, size, is_const: false, source }
}

fn event(id: usize, source: EventSource, outs: Vec<usize>, actions: Vec<Action>) -> Event {
    Event { id, is_recurse: false, outs, source, actions, sustained_actions: vec![] }
}

fn print(fmt: &str, args: Vec<usize>) -> Action {
    Action::DebugPrint { fmt: fmt.to_string(), args: args.into_iter().map(ld).collect() }
}

/// A thread that prints a register, adds one to it and waits a cycle, forever.
fn counter_thread(init: Option<&str>) -> EventGraph {
    let mut again = event(1, EventSource::SeqCycles { pred_id: 0, cycles: 1 }, vec![], vec![]);
    again.is_recurse = true;
    let root = event(
        0,
        EventSource::RootInit,
        vec![1],
        vec![
            print("count %d", vec![0]),
            Action::RegAssign {
                target: LValue { reg: "cnt".to_string(), offset: 0, size: 8, offset_is_const: true },
                value: ld(2),
            },
        ],
    );
    EventGraph {
        thread_id: 0,
        is_general_recursive: false,
        comb: false,
        // Given out of id order on purpose: the simulator sorts them.
        events: vec![again, root],
        wires: vec![
            wire(2, 8, WireSource::Binary { op: BinOp::Add, left: 0, right: Some(1) }),
            wire(0, 8, WireSource::RegRead { reg: "cnt".to_string() }),
            wire(1, 8, WireSource::Literal { value: 1, width: 8 }),
        ],
        regs: vec![RegDef { name: "cnt".to_string(), init: init.map(|s| s.to_string()) }],
    }
}

fn run_all(sim: &mut Simulator, table: &mut ChannelTable, global: &mut bool) -> (Vec<String>, StepOutcome) {
    sim.run(table, global, 100_000)
}

#[test]
fn counter_stops_at_the_cycle_limit() {
    let mut sim = Simulator::new("top".to_string(), vec![counter_thread(None)], Some(3)).unwrap();
    let mut table = ChannelTable::new();
    let mut global = false;
    let (lines, out) = run_all(&mut sim, &mut table, &mut global);
    assert_eq!(lines, vec!["count  0".to_string(), "count  1".to_string(), "count  2".to_string()]);
    assert_eq!(out, StepOutcome::Stopped(StopReason::MaxCycles));
    assert!(global);
}

#[test]
fn counter_starts_from_its_initial_value() {
    let mut sim = Simulator::new("top".to_string(), vec![counter_thread(Some("40"))], Some(2)).unwrap();
    let mut table = ChannelTable::new();
    let mut global = false;
    let (lines, out) = run_all(&mut sim, &mut table, &mut global);
    assert_eq!(lines, vec!["count 40".to_string(), "count 41".to_string()]);
    assert_eq!(out, StepOutcome::Stopped(StopReason::MaxCycles));
}

#[test]
fn halted_simulation_stops_the_proc() {
    let mut sim = Simulator::new("top".to_string(), vec![counter_thread(None)], None).unwrap();
    let mut table = ChannelTable::new();
    let mut global = true;
    let (lines, out) = run_all(&mut sim, &mut table, &mut global);
    assert!(lines.is_empty());
    assert_eq!(out, StepOutcome::Stopped(StopReason::Halted));
}

#[test]
fn budget_zero_does_nothing() {
    let mut sim = Simulator::new("top".to_string(), vec![counter_thread(None)], Some(3)).unwrap();
    let mut table = ChannelTable::new();
    let mut global = false;
    let (lines, out) = sim.run(&mut table, &mut global, 0);
    assert!(lines.is_empty());
    assert_eq!(out, StepOutcome::Progress);
    assert!(!global);
}

#[test]
fn finish_ends_the_proc_and_the_simulation() {
    let g = EventGraph {
        thread_id: 0,
        is_general_recursive: false,
        comb: false,
        events: vec![event(0, EventSource::RootInit, vec![], vec![print("bye", vec![]), Action::DebugFinish, print("never", vec![])])],
        wires: vec![],
        regs: vec![],
    };
    let mut sim = Simulator::new("top".to_string(), vec![g], None).unwrap();
    let mut table = ChannelTable::new();
    let mut global = false;
    let (lines, out) = run_all(&mut sim, &mut table, &mut global);
    assert_eq!(lines, vec!["bye".to_string()]);
    assert_eq!(out, StepOutcome::FinishRequested);
    assert!(global);
    let (lines, out) = run_all(&mut sim, &mut table, &mut global);
    assert!(lines.is_empty());
    assert_eq!(out, StepOutcome::Stopped(StopReason::Finished));
}

#[test]
fn drained_when_nothing_is_left() {
    let g = EventGraph {
        thread_id: 0,
        is_general_recursive: false,
        comb: false,
        events: vec![event(0, EventSource::RootInit, vec![], vec![print("once %d%%", vec![0])])],
        wires: vec![wire(0, 8, WireSource::Literal { value: 7, width: 8 })],
        regs: vec![],
    };
    let mut sim = Simulator::new("top".to_string(), vec![g], None).unwrap();
    let mut table = ChannelTable::new();
    let mut global = false;
    let (lines, out) = run_all(&mut sim, &mut table, &mut global);
    assert_eq!(lines, vec!["once  7%%".to_string()]);
    assert_eq!(out, StepOutcome::Stopped(StopReason::Drained));
    assert!(!global);
}

#[test]
fn missing_root_is_refused() {
    let g = EventGraph {
        thread_id: 0,
        is_general_recursive: false,
        comb: false,
        events: vec![event(0, EventSource::Branch { pred_id: 0 }, vec![], vec![])],
        wires: vec![],
        regs: vec![],
    };
    assert!(matches!(Simulator::new("top".to_string(), vec![g], None), Err(SimError::NoRootEvent)));
}

#[test]
fn unreadable_initial_value_is_refused() {
    assert!(matches!(
        Simulator::new("top".to_string(), vec![counter_thread(Some("12x"))], None),
        Err(SimError::InvalidInit)
    ));
}

#[test]
fn too_few_print_values_is_a_fault() {
    let g = EventGraph {
        thread_id: 0,
        is_general_recursive: false,
        comb: false,
        events: vec![event(0, EventSource::RootInit, vec![], vec![print("%d and %d", vec![0])])],
        wires: vec![wire(0, 8, WireSource::Literal { value: 1, width: 8 })],
        regs: vec![],
    };
    let mut sim = Simulator::new("top".to_string(), vec![g], None).unwrap();
    let mut table = ChannelTable::new();
    let mut global = false;
    let (lines, out) = run_all(&mut sim, &mut table, &mut global);
    assert!(lines.is_empty());
    assert_eq!(out, StepOutcome::Fault(SimError::FormatArgs));
}

/// A sender thread: its root sends `value` on `ep`, then prints "sent".
fn sender(ep: &str, value: i64) -> EventGraph {
    let mut root = event(0, EventSource::RootInit, vec![1], vec![]);
    root.sustained_actions = vec![SustainedAction::SustainedSend {
        until_id: 1,
        endpoint: ep.to_string(),
        msg: "data".to_string(),
        value: ld(0),
    }];
    EventGraph {
        thread_id: 0,
        is_general_recursive: false,
        comb: false,
        events: vec![
            root,
            event(1, EventSource::SeqSend { pred_id: 0, endpoint: ep.to_string(), msg: "data".to_string() }, vec![], vec![print("sent", vec![])]),
        ],
        wires: vec![wire(0, 8, WireSource::Literal { value, width: 8 })],
        regs: vec![],
    }
}

/// A receiver thread: its root waits for a message on `ep` and prints it.
fn receiver(ep: &str) -> EventGraph {
    EventGraph {
        thread_id: 0,
        is_general_recursive: false,
        comb: false,
        events: vec![
            event(0, EventSource::RootInit, vec![1], vec![]),
            event(1, EventSource::SeqRecv { pred_id: 0, endpoint: ep.to_string(), msg: "data".to_string() }, vec![], vec![print("got %d", vec![0])]),
        ],
        wires: vec![wire(0, 8, WireSource::MessagePort { endpoint: ep.to_string(), msg: "data".to_string(), index: 0 })],
        regs: vec![],
    }
}

fn linked_table() -> ChannelTable {
    let mut table = ChannelTable::new();
    let c = table.add_channel();
    table.link("left".to_string(), c);
    table.link("right".to_string(), c);
    table
}

#[test]
fn message_sent_before_it_is_received() {
    let mut table = linked_table();
    let mut global = false;
    let mut tx = Simulator::new("tx".to_string(), vec![sender("left", 42)], None).unwrap();
    let mut rx = Simulator::new("rx".to_string(), vec![receiver("right")], None).unwrap();
    let (lines, out) = run_all(&mut tx, &mut table, &mut global);
    assert_eq!(lines, vec!["sent".to_string()]);
    assert_eq!(out, StepOutcome::Stopped(StopReason::Drained));
    assert_eq!(table.slot(0, &"data".to_string()), Some(42));
    let (lines, out) = run_all(&mut rx, &mut table, &mut global);
    assert_eq!(lines, vec!["got 42".to_string()]);
    assert_eq!(out, StepOutcome::Stopped(StopReason::Drained));
    assert_eq!(table.slot(0, &"data".to_string()), None);
}

#[test]
fn receiver_without_data_ends_with_an_empty_queue() {
    let mut table = linked_table();
    let mut global = false;
    let mut tx = Simulator::new("tx".to_string(), vec![sender("left", 5)], None).unwrap();
    let mut rx = Simulator::new("rx".to_string(), vec![receiver("right")], None).unwrap();
    let (lines, out) = run_all(&mut rx, &mut table, &mut global);
    assert!(lines.is_empty());
    assert_eq!(out, StepOutcome::Stopped(StopReason::Drained));
    assert_eq!(rx.state.parked.len(), 1);
    let (lines, _) = run_all(&mut tx, &mut table, &mut global);
    assert_eq!(lines, vec!["sent".to_string()]);
    // The simulation of the receiver has ended: it does not take the value.
    let (lines, out) = run_all(&mut rx, &mut table, &mut global);
    assert!(lines.is_empty());
    assert_eq!(out, StepOutcome::Stopped(StopReason::Drained));
    assert_eq!(table.slot(0, &"data".to_string()), Some(5));
}

#[test]
fn parked_receive_resumes_in_its_cycle() {
    let mut table = linked_table();
    let mut global = false;
    let mut sim = Simulator::new("p".to_string(), vec![receiver("right"), sender("left", 42)], None).unwrap();
    let (lines, out) = run_all(&mut sim, &mut table, &mut global);
    assert_eq!(lines, vec!["sent".to_string(), "got 42".to_string()]);
    assert_eq!(out, StepOutcome::Stopped(StopReason::Drained));
    assert_eq!(table.slot(0, &"data".to_string()), None);
}

#[test]
fn second_send_waits_for_an_empty_slot() {
    let mut table = linked_table();
    let mut global = false;
    let mut sim = Simulator::new(
        "p".to_string(),
        vec![sender("left", 1), sender("left", 2), receiver("right")],
        None,
    )
    .unwrap();
    let (lines, out) = run_all(&mut sim, &mut table, &mut global);
    let expected: Vec<String> = ["sent", "got  1", "sent"].iter().map(|s| s.to_string()).collect();
    assert_eq!(lines, expected);
    assert_eq!(out, StepOutcome::Stopped(StopReason::Drained));
    assert_eq!(table.slot(0, &"data".to_string()), Some(2));
    assert_eq!(table.sent_at(0, &"data".to_string()), Some(0));
}

#[test]
fn unknown_endpoint_is_a_fault() {
    let mut table = ChannelTable::new();
    let mut global = false;
    let mut rx = Simulator::new("rx".to_string(), vec![receiver("nowhere")], None).unwrap();
    let (_, out) = run_all(&mut rx, &mut table, &mut global);
    assert_eq!(out, StepOutcome::Fault(SimError::UnknownEndpoint(1)));
}

fn single_thread(events: Vec<Event>, wires: Vec<Wire>) -> EventGraph {
    EventGraph { thread_id: 0, is_general_recursive: false, comb: false, events, wires, regs: vec![] }
}

#[test]
fn branch_follows_its_condition() {
    let cond = |sel: usize| EventSource::RootBranch {
        parent_id: 0,
        branch_sel: sel,
        cond_wire_id: Some(0),
        branch_count: 2,
        branch_cond: BranchCond::TrueFalse("c".to_string()),
    };
    for (value, expected) in [(1i64, "yes"), (0i64, "no")] {
        let g = single_thread(
            vec![
                event(0, EventSource::RootInit, vec![1, 2], vec![]),
                event(1, cond(0), vec![], vec![print("yes", vec![])]),
                event(2, cond(1), vec![], vec![print("no", vec![])]),
            ],
            vec![wire(0, 1, WireSource::Literal { value, width: 1 })],
        );
        let mut sim = Simulator::new("top".to_string(), vec![g], None).unwrap();
        let mut table = ChannelTable::new();
        let mut global = false;
        let (lines, out) = run_all(&mut sim, &mut table, &mut global);
        assert_eq!(lines, vec![expected.to_string()]);
        assert_eq!(out, StepOutcome::Stopped(StopReason::Drained));
    }
}

#[test]
fn later_waits_for_both_predecessors() {
    let g = single_thread(
        vec![
            event(0, EventSource::RootInit, vec![1, 2], vec![print("start", vec![])]),
            event(1, EventSource::Branch { pred_id: 0 }, vec![3], vec![print("now", vec![])]),
            event(2, EventSource::SeqCycles { pred_id: 0, cycles: 2 }, vec![3], vec![print("later", vec![])]),
            event(3, EventSource::Later { pred1_id: 1, pred2_id: 2 }, vec![], vec![print("joined", vec![])]),
        ],
        vec![],
    );
    let mut sim = Simulator::new("top".to_string(), vec![g], None).unwrap();
    let mut table = ChannelTable::new();
    let mut global = false;
    let (lines, out) = run_all(&mut sim, &mut table, &mut global);
    let expected: Vec<String> = ["start", "now", "later", "joined"].iter().map(|s| s.to_string()).collect();
    assert_eq!(lines, expected);
    assert_eq!(out, StepOutcome::Stopped(StopReason::Drained));
}

#[test]
fn writes_of_a_cycle_are_seen_the_next_cycle() {
    // Two events of the same cycle: the second still reads the old value.
    let assign = Action::RegAssign {
        target: LValue { reg: "r".to_string(), offset: 0, size: 8, offset_is_const: true },
        value: ld(1),
    };
    let g = single_thread(
        vec![
            event(0, EventSource::RootInit, vec![1, 2], vec![assign, print("a %d", vec![0])]),
            event(1, EventSource::Branch { pred_id: 0 }, vec![], vec![print("b %d", vec![0])]),
            event(2, EventSource::SeqCycles { pred_id: 0, cycles: 1 }, vec![], vec![print("c %d", vec![0])]),
        ],
        vec![
            wire(0, 8, WireSource::RegRead { reg: "r".to_string() }),
            wire(1, 8, WireSource::Literal { value: 9, width: 8 }),
        ],
    );
    let mut sim = Simulator::new("top".to_string(), vec![g], None).unwrap();
    let mut table = ChannelTable::new();
    let mut global = false;
    let (lines, _) = run_all(&mut sim, &mut table, &mut global);
    let expected: Vec<String> = ["a  0", "b  0", "c  9"].iter().map(|s| s.to_string()).collect();
    assert_eq!(lines, expected);
}

#[test]
fn nothing_fires_after_finish() {
    let g = single_thread(vec![event(0, EventSource::RootInit, vec![], vec![print("x", vec![])])], vec![]);
    let mut sim = Simulator::new("top".to_string(), vec![g], None).unwrap();
    // A finished proc in the middle of a batch, with a queued entry that
    // names no event: it is dropped like every other, not reported.
    sim.state.finished = true;
    sim.state.batch = Some(0);
    sim.state.heap.push((0, 99, 0));
    let mut table = ChannelTable::new();
    let mut global = false;
    let (lines, out) = run_all(&mut sim, &mut table, &mut global);
    assert!(lines.is_empty());
    assert_eq!(out, StepOutcome::Stopped(StopReason::Finished));
}
