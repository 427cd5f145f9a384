//! The intermediate representation of a compiled Anvil program: one event
//! graph per logical thread of each proc.
use vstd::prelude::*;

verus! {

/// One compilation unit: the procs it defines.
#[derive(Clone, Debug, PartialEq)]
pub struct Collection {
    pub procs: Vec<ProcGraph>,
}

/// A proc: its logical threads, the names of its channel parameters, the
/// channels it declares and the procs it spawns.
#[derive(Clone, Debug, PartialEq)]
pub struct ProcGraph {
    pub name: String,
    pub threads: Vec<EventGraph>,
    pub args: Vec<String>,
    pub channels: Vec<ChannelDef>,
    pub spawns: Vec<SpawnDef>,
}

/// A channel declared inside a proc, by the names of its two endpoints.
#[derive(Clone, Debug, PartialEq)]
pub struct ChannelDef {
    pub left: String,
    pub right: String,
}

/// A spawn of another proc, with the endpoints handed to its parameters.
#[derive(Clone, Debug, PartialEq)]
pub struct SpawnDef {
    pub module_name: String,
    pub endpoints: Vec<String>,
}

/// The event graph of one logical thread (one `loop {}` of a proc).
#[derive(Clone, Debug, PartialEq)]
pub struct EventGraph {
    pub thread_id: usize,
    pub is_general_recursive: bool,
    pub comb: bool,
    pub events: Vec<Event>,
    pub wires: Vec<Wire>,
    pub regs: Vec<RegDef>,
}

#[derive(Clone, Debug, PartialEq)]
pub struct Event {
    pub id: usize,
    pub is_recurse: bool,
    pub outs: Vec<usize>,
    pub source: EventSource,
    pub actions: Vec<Action>,
    pub sustained_actions: Vec<SustainedAction>,
}

/// What makes an event happen, relative to its predecessor(s).
#[derive(Clone, Debug, PartialEq)]
pub enum EventSource {
    RootInit,
    RootBranch {
        parent_id: usize,
        branch_sel: usize,
        cond_wire_id: Option<usize>,
        branch_count: usize,
        branch_cond: BranchCond,
    },
    SeqCycles { pred_id: usize, cycles: usize },
    SeqSend { pred_id: usize, endpoint: String, msg: String },
    SeqRecv { pred_id: usize, endpoint: String, msg: String },
    SeqSync { pred_id: usize, var_name: String },
    Later { pred1_id: usize, pred2_id: usize },
    Branch { pred_id: usize },
}

#[derive(Clone, Debug, PartialEq)]
pub enum BranchCond {
    TrueFalse(String),
    MatchCases { patterns: Vec<LoweringData> },
}

#[derive(Clone, Debug, PartialEq)]
pub enum Action {
    DebugFinish,
    DebugPrint { fmt: String, args: Vec<LoweringData> },
    RegAssign { target: LValue, value: LoweringData },
    PutShared { name: String, value: LoweringData },
    ImmediateSend { endpoint: String, msg: String, value: LoweringData },
    ImmediateRecv { endpoint: String, msg: String },
}

/// An action that lasts until the event `until_id` happens.
#[derive(Clone, Debug, PartialEq)]
pub enum SustainedAction {
    SustainedSend { until_id: usize, endpoint: String, msg: String, value: LoweringData },
}

/// The value an action or branch refers to: a wire, when there is one.
#[derive(Clone, Debug, PartialEq)]
pub struct LoweringData {
    pub wire_id: Option<usize>,
}

/// The register bits an assignment writes: `size` bits of `reg` from bit
/// `offset`, where `offset` is the offset itself when `offset_is_const` and
/// otherwise the id of the wire that computes it.
#[derive(Clone, Debug, PartialEq)]
pub struct LValue {
    pub reg: String,
    pub offset: usize,
    pub size: usize,
    pub offset_is_const: bool,
}

#[derive(Clone, Debug, PartialEq)]
pub struct Wire {
    pub id: usize,
    pub size: usize,
    pub is_const: bool,
    pub source: WireSource,
}

#[derive(Clone, Copy, Debug, PartialEq, Eq, Structural)]
pub enum BinOp {
    Add,
    Sub,
    Mul,
    Xor,
    And,
    Or,
    LAnd,
    LOr,
    Lt,
    Gt,
    Lte,
    Gte,
    Shl,
    Shr,
    Eq,
    Neq,
    Inside,
}

#[derive(Clone, Copy, Debug, PartialEq, Eq, Structural)]
pub enum UnOp {
    /// Two's complement negation.
    Neg,
    /// Bitwise complement.
    Not,
    /// 1 when every bit of the operand is set, else 0.
    AndAll,
    /// 1 when some bit of the operand is set, else 0.
    OrAll,
}

#[derive(Clone, Debug, PartialEq)]
pub enum WireSource {
    /// Constant value with a fixed bit width.
    Literal { value: i64, width: usize },
    /// The current value of a register.
    RegRead { reg: String },
    /// Binary operation on two wires; `right` is the right operand's wire id
    /// when the IR gives a single id (a list only occurs with `inside`).
    Binary { op: BinOp, left: usize, right: Option<u64> },
    /// Unary operation on one wire.
    Unary { op: UnOp, operand: usize },
    /// If/else chain: the value of the first case whose condition is nonzero,
    /// otherwise the default.
    Switch { cases: Vec<SwitchCase>, default: usize },
    /// Several wires joined into one wider value; the first is the most significant.
    Concat { wires: Vec<usize> },
    /// `len` bits of `wire` from bit `offset`; the offset is a wire id unless
    /// `offset_is_const`.
    Slice { wire: usize, offset: usize, len: usize, offset_is_const: bool },
    /// The value of the first case whose pattern equals `value`, otherwise the default.
    Cases { value: usize, cases: Vec<SwitchCase>, default: usize },
    /// `base` with bit ranges replaced by the values of other wires.
    Update { base: usize, updates: Vec<UpdateEntry> },
    /// The data of a channel message.
    MessagePort { endpoint: String, msg: String, index: usize },
    /// Whether a channel message holds data.
    MessageValidPort { endpoint: String, msg: String },
    /// Whether a channel message has been acknowledged.
    MessageAckPort { endpoint: String, msg: String },
}

#[derive(Clone, Debug, PartialEq)]
pub struct SwitchCase {
    pub cond: usize,
    pub val: usize,
}

/// Replace `size` bits at `offset` with the value of `wire`.
#[derive(Clone, Debug, PartialEq)]
pub struct UpdateEntry {
    pub offset: usize,
    pub size: usize,
    pub wire: usize,
}

/// A register and the decimal text of its initial value, if it has one.
#[derive(Clone, Debug, PartialEq)]
pub struct RegDef {
    pub name: String,
    pub init: Option<String>,
}

} // verus!
