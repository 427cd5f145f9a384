use anvil_sim::channel::{ChannelTable, RecvCache};
use anvil_sim::eval::{eval_wire, EvalError};
use anvil_sim::ir::{BinOp, SwitchCase, UnOp, UpdateEntry, Wire, WireSource};
use anvil_sim::regs::RegFile;

fn wire(id: usize, size: usize, source: WireSource) -> Wire {
    Wire { id, size, is_const: false, source }
}

fn lit(id: usize, size: usize, value: i64) -> Wire {
    wire(id, size, WireSource::Literal { value, width: size })
}

fn eval(wires: &Vec<Wire>, id: usize) -> Result<i64, EvalError> {
    eval_wire(id, wires, &RegFile::new(), 0, &ChannelTable::new(), false, &RecvCache::new())
}

#[test]
fn literal_is_cut_to_wire_size() {
    let wires = vec![lit(0, 4, 0x1f), lit(1, 64, -1)];
    assert_eq!(eval(&wires, 0), Ok(0xf));
    assert_eq!(eval(&wires, 1), Ok(-1));
}

#[test]
fn binary_and_unary_wires() {
    let wires = vec![
        lit(0, 8, 200),
        lit(1, 8, 100),
        wire(2, 8, WireSource::Binary { op: BinOp::Add, left: 0, right: Some(1) }),
        wire(3, 8, WireSource::Unary { op: UnOp::Not, operand: 0 }),
        wire(4, 1, WireSource::Unary { op: UnOp::AndAll, operand: 3 }),
    ];
    assert_eq!(eval(&wires, 2), Ok(44));
    assert_eq!(eval(&wires, 3), Ok(55));
    assert_eq!(eval(&wires, 4), Ok(0));
}

#[test]
fn switch_case_value_is_not_cut() {
    let wires = vec![
        lit(0, 1, 0),
        lit(1, 1, 1),
        lit(2, 16, 0x1234),
        lit(3, 16, 0x5678),
        wire(4, 4, WireSource::Switch { cases: vec![SwitchCase { cond: 0, val: 3 }, SwitchCase { cond: 1, val: 2 }], default: 3 }),
        wire(5, 4, WireSource::Switch { cases: vec![SwitchCase { cond: 0, val: 2 }], default: 3 }),
    ];
    assert_eq!(eval(&wires, 4), Ok(0x1234));
    assert_eq!(eval(&wires, 5), Ok(0x8));
}

#[test]
fn cases_match_the_value() {
    let wires = vec![
        lit(0, 8, 2),
        lit(1, 8, 1),
        lit(2, 8, 2),
        lit(3, 8, 10),
        lit(4, 8, 20),
        lit(5, 8, 30),
        wire(6, 8, WireSource::Cases { value: 0, cases: vec![SwitchCase { cond: 1, val: 3 }, SwitchCase { cond: 2, val: 4 }], default: 5 }),
        wire(7, 8, WireSource::Cases { value: 3, cases: vec![SwitchCase { cond: 1, val: 3 }], default: 5 }),
    ];
    assert_eq!(eval(&wires, 6), Ok(20));
    assert_eq!(eval(&wires, 7), Ok(30));
}

#[test]
fn concat_puts_first_wire_highest() {
    let wires = vec![lit(0, 2, 0b11), lit(1, 2, 0b01), wire(2, 4, WireSource::Concat { wires: vec![0, 1] })];
    assert_eq!(eval(&wires, 2), Ok(0b1101));
}

#[test]
fn slice_of_a_value() {
    let wires = vec![
        lit(0, 16, 0xabcd),
        wire(1, 8, WireSource::Slice { wire: 0, offset: 4, len: 8, offset_is_const: true }),
        lit(2, 8, 8),
        wire(3, 8, WireSource::Slice { wire: 0, offset: 2, len: 8, offset_is_const: false }),
        wire(4, 8, WireSource::Slice { wire: 0, offset: 70, len: 8, offset_is_const: true }),
    ];
    assert_eq!(eval(&wires, 1), Ok(0xbc));
    assert_eq!(eval(&wires, 3), Ok(0xab));
    assert_eq!(eval(&wires, 4), Ok(0));
}

#[test]
fn update_replaces_bit_ranges() {
    let wires = vec![
        lit(0, 16, 0xffff),
        lit(1, 4, 0),
        lit(2, 4, 0b1010),
        wire(3, 16, WireSource::Update { base: 0, updates: vec![UpdateEntry { offset: 4, size: 4, wire: 1 }, UpdateEntry { offset: 12, size: 4, wire: 2 }] }),
    ];
    assert_eq!(eval(&wires, 3), Ok(0xaf0f));
}

#[test]
fn register_reads_at_the_cycle() {
    let mut regs = RegFile::new();
    regs.set_history("r".to_string(), vec![(0, vec![5u8]), (4, vec![9u8])]);
    let wires = vec![
        wire(0, 8, WireSource::RegRead { reg: "r".to_string() }),
        wire(1, 2, WireSource::Slice { wire: 0, offset: 2, len: 2, offset_is_const: true }),
    ];
    let t = ChannelTable::new();
    let c = RecvCache::new();
    assert_eq!(eval_wire(0, &wires, &regs, 3, &t, false, &c), Ok(5));
    assert_eq!(eval_wire(0, &wires, &regs, 4, &t, false, &c), Ok(9));
    assert_eq!(eval_wire(1, &wires, &regs, 4, &t, false, &c), Ok(2));
}

#[test]
fn message_port_reads_cache_then_slot() {
    let mut table = ChannelTable::new();
    let ch = table.add_channel();
    table.link("a".to_string(), ch);
    let wires = vec![wire(0, 8, WireSource::MessagePort { endpoint: "a".to_string(), msg: "m".to_string(), index: 0 }),
                     wire(1, 1, WireSource::MessageValidPort { endpoint: "a".to_string(), msg: "m".to_string() })];
    let regs = RegFile::new();
    let mut cache = RecvCache::new();
    assert_eq!(eval_wire(0, &wires, &regs, 0, &table, false, &cache), Err(EvalError::Pending(0)));
    assert_eq!(eval_wire(0, &wires, &regs, 0, &table, true, &cache), Ok(0));
    assert_eq!(eval_wire(1, &wires, &regs, 0, &table, false, &cache), Ok(0));
    table.put(ch, &"m".to_string(), 300, 0);
    assert_eq!(eval_wire(0, &wires, &regs, 0, &table, false, &cache), Ok(300 & 0xff));
    assert_eq!(eval_wire(1, &wires, &regs, 0, &table, false, &cache), Ok(1));
    cache.insert(&"a".to_string(), &"m".to_string(), 7);
    assert_eq!(eval_wire(0, &wires, &regs, 0, &table, false, &cache), Ok(7));
}

#[test]
fn evaluation_errors() {
    let wires = vec![
        wire(0, 8, WireSource::Binary { op: BinOp::Add, left: 1, right: None }),
        lit(1, 8, 1),
        wire(2, 8, WireSource::Binary { op: BinOp::Inside, left: 1, right: Some(1) }),
        wire(3, 8, WireSource::Unary { op: UnOp::Neg, operand: 3 }),
        wire(4, 8, WireSource::MessagePort { endpoint: "nowhere".to_string(), msg: "m".to_string(), index: 0 }),
        wire(5, 8, WireSource::MessageAckPort { endpoint: "e".to_string(), msg: "m".to_string() }),
        wire(6, 8, WireSource::Concat { wires: vec![1, 42] }),
    ];
    assert_eq!(eval(&wires, 0), Err(EvalError::OperandList(0)));
    assert_eq!(eval(&wires, 2), Err(EvalError::Unsupported(2)));
    assert!(matches!(eval(&wires, 3), Err(EvalError::TooDeep(_))));
    assert_eq!(eval(&wires, 4), Err(EvalError::UnknownEndpoint(4)));
    assert_eq!(eval(&wires, 5), Err(EvalError::Unsupported(5)));
    assert_eq!(eval(&wires, 6), Err(EvalError::UnknownWire(42)));
    assert_eq!(eval(&wires, 9), Err(EvalError::UnknownWire(9)));
}
