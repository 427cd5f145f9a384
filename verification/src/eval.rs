//! Wire evaluation: the value of a wire, resolving the wires it depends on.
use vstd::prelude::*;
use crate::bits::{low_mask, read_reg_bits, read_width, reg_read};
use crate::channel::{ChannelTable, RecvCache, TableView};
use crate::ir::{BinOp, SwitchCase, UpdateEntry, Wire, WireSource};
use crate::ops::{bin_op_value, eval_bin_op, eval_un_op, mask_bits, un_op_value};
use crate::regs::{storage_at, RegFile};

verus! {

/// Why a wire has no value (yet). Each names the wire concerned.
#[derive(Clone, Copy, Debug, PartialEq, Eq)]
pub enum EvalError {
    /// A wire id with no wire.
    UnknownWire(usize),
    /// A binary operation whose right operand is not a single wire id.
    OperandList(usize),
    /// An operation the simulator does not support (`inside`, acknowledge ports).
    Unsupported(usize),
    /// A message port on an endpoint that is in no channel.
    UnknownEndpoint(usize),
    /// A slice of a register whose last bit position does not fit in a `usize`.
    OffsetOverflow(usize),
    /// A chain of dependencies longer than there are wires (a cycle).
    TooDeep(usize),
    /// A message port whose slot is empty: the value must be waited for.
    Pending(usize),
}

/// What wire evaluation reads besides the wires: the register file and the
/// cycle to read it at, the channels, the values kept from receives, and
/// whether the simulation as a whole has finished (then an empty message
/// port reads as 0 instead of waiting).
pub struct EvalEnv {
    pub regs: Map<Seq<char>, Seq<(usize, Seq<u8>)>>,
    pub cycle: usize,
    pub table: TableView,
    pub cache: Map<(Seq<char>, Seq<char>), i64>,
    pub halting: bool,
}

/// The mask of an update of `size` bits at `offset` (with 64-bit shifts
/// taken modulo 64, so a 64-bit update has an empty mask).
pub open spec fn update_mask(offset: usize, size: usize) -> i64 {
    if size >= 64 { 0 } else { low_mask(size as int).wrapping_shl(offset as u32) }
}

pub open spec fn update_step(acc: i64, u: UpdateEntry, v: i64) -> i64 {
    if u.offset + u.size <= 64 {
        let mask = update_mask(u.offset, u.size);
        (acc & !mask) | (v.wrapping_shl(u.offset as u32) & mask)
    } else {
        acc
    }
}

pub open spec fn concat_step(acc: i64, size: usize, v: i64) -> i64 {
    if size >= 64 { v } else { acc.wrapping_shl(size as u32) | (v & low_mask(size as int)) }
}

pub open spec fn slice_bits(v: i64, off: usize, len: usize) -> i64 {
    if off >= 64 {
        0
    } else if len >= 64 {
        v >> (off as u64)
    } else {
        (v >> (off as u64)) & low_mask(len as int)
    }
}

/// The value of wire `id` with at most `fuel` nested evaluations. The result
/// is cut to the wire's size, except for the value of a matching case of a
/// `Switch` or `Cases` wire, which is the case's own value.
pub open spec fn wire_value(wires: Seq<Wire>, env: EvalEnv, id: int, fuel: nat) -> Result<i64, EvalError>
    decreases fuel, 0int, 0int,
{
    if fuel == 0 {
        Err(EvalError::TooDeep(id as usize))
    } else if !(0 <= id < wires.len()) {
        Err(EvalError::UnknownWire(id as usize))
    } else {
        match wire_raw(wires, env, id, (fuel - 1) as nat) {
            Err(e) => Err(e),
            Ok((v, early)) => if early { Ok(v) } else { Ok(v & low_mask(wires[id].size as int)) },
        }
    }
}

/// The value of wire `id` before it is cut to the wire's size, with `f`
/// nested evaluations left for its operands; the flag is set when the value
/// is final as it is.
pub open spec fn wire_raw(wires: Seq<Wire>, env: EvalEnv, id: int, f: nat) -> Result<(i64, bool), EvalError>
    decreases f, 2int, 0int,
{
    if !(0 <= id < wires.len()) {
        Err(EvalError::UnknownWire(id as usize))
    } else {
        let w = wires[id];
        match w.source {
            WireSource::Literal { value, .. } => Ok((value, false)),
            WireSource::RegRead { reg } => Ok((reg_read(storage_at(env.regs, reg@, env.cycle as int), 0, w.size as int), false)),
            WireSource::Binary { op, left, right } => match wire_value(wires, env, left as int, f) {
                Err(e) => Err(e),
                Ok(l) => match right {
                    None => Err(EvalError::OperandList(id as usize)),
                    Some(r) => match wire_value(wires, env, (r as usize) as int, f) {
                        Err(e) => Err(e),
                        Ok(rv) => if op == BinOp::Inside {
                            Err(EvalError::Unsupported(id as usize))
                        } else {
                            Ok((bin_op_value(op, l, rv), false))
                        },
                    },
                },
            },
            WireSource::Unary { op, operand } => if !(operand < wires.len()) {
                Err(EvalError::UnknownWire(operand))
            } else {
                match wire_value(wires, env, operand as int, f) {
                    Err(e) => Err(e),
                    Ok(v) => Ok((un_op_value(op, v, wires[operand as int].size as int), false)),
                }
            },
            WireSource::Switch { cases, default } => switch_value(wires, env, cases@, default, f),
            WireSource::Cases { value, cases, default } => match wire_value(wires, env, value as int, f) {
                Err(e) => Err(e),
                Ok(mv) => cases_value(wires, env, cases@, mv, default, f),
            },
            WireSource::Concat { wires: ids } => match concat_value(wires, env, ids@, 0, f) {
                Err(e) => Err(e),
                Ok(v) => Ok((v, false)),
            },
            WireSource::Slice { wire, offset, len, offset_is_const } => {
                let off: Result<usize, EvalError> = if offset_is_const {
                    Ok(offset)
                } else {
                    match wire_value(wires, env, offset as int, f) {
                        Err(e) => Err(e),
                        Ok(v) => Ok(v as usize),
                    }
                };
                match off {
                    Err(e) => Err(e),
                    Ok(off) => if !(wire < wires.len()) {
                        Err(EvalError::UnknownWire(wire))
                    } else {
                        match wires[wire as int].source {
                            WireSource::RegRead { reg } => if off + read_width(len as int) > usize::MAX {
                                Err(EvalError::OffsetOverflow(id as usize))
                            } else {
                                Ok((reg_read(storage_at(env.regs, reg@, env.cycle as int), off as int, len as int), false))
                            },
                            _ => match wire_value(wires, env, wire as int, f) {
                                Err(e) => Err(e),
                                Ok(v) => Ok((slice_bits(v, off, len), false)),
                            },
                        }
                    },
                }
            },
            WireSource::Update { base, updates } => match wire_value(wires, env, base as int, f) {
                Err(e) => Err(e),
                Ok(b) => match update_value(wires, env, updates@, b, f) {
                    Err(e) => Err(e),
                    Ok(v) => Ok((v, false)),
                },
            },
            WireSource::MessagePort { endpoint, msg, .. } => port_value(env, endpoint@, msg@, id),
            WireSource::MessageValidPort { endpoint, msg } => match env.table.channel_of(endpoint@) {
                None => Err(EvalError::UnknownEndpoint(id as usize)),
                Some(c) => if c >= env.table.chans.len() {
                    Err(EvalError::UnknownEndpoint(id as usize))
                } else {
                    Ok((if env.table.chans[c as int].slot(msg@) is Some { 1i64 } else { 0i64 }, false))
                },
            },
            WireSource::MessageAckPort { .. } => Err(EvalError::Unsupported(id as usize)),
        }
    }
}

/// A message port reads the value kept from the last receive on its endpoint
/// and message, else the slot; an empty slot reads 0 (final as it is) once
/// the simulation has finished, and otherwise must be waited for.
pub open spec fn port_value(env: EvalEnv, endpoint: Seq<char>, msg: Seq<char>, id: int) -> Result<(i64, bool), EvalError> {
    if env.cache.dom().contains((endpoint, msg)) {
        Ok((env.cache[(endpoint, msg)], false))
    } else {
        match env.table.channel_of(endpoint) {
            None => Err(EvalError::UnknownEndpoint(id as usize)),
            Some(c) => if c >= env.table.chans.len() {
                Err(EvalError::UnknownEndpoint(id as usize))
            } else {
                match env.table.chans[c as int].slot(msg) {
                    Some(v) => Ok((v, false)),
                    None => if env.halting { Ok((0, true)) } else { Err(EvalError::Pending(id as usize)) },
                }
            },
        }
    }
}

/// The value of a `Switch` wire: the value of the first case whose condition
/// is nonzero (returned as it is, flagged `true`), else that of the default.
pub open spec fn switch_value(wires: Seq<Wire>, env: EvalEnv, cases: Seq<SwitchCase>, default: usize, f: nat)
    -> Result<(i64, bool), EvalError>
    decreases f, 1int, cases.len() + 1,
{
    if cases.len() == 0 {
        match wire_value(wires, env, default as int, f) {
            Err(e) => Err(e),
            Ok(v) => Ok((v, false)),
        }
    } else {
        match wire_value(wires, env, cases[0].cond as int, f) {
            Err(e) => Err(e),
            Ok(c) => if c != 0 {
                match wire_value(wires, env, cases[0].val as int, f) {
                    Err(e) => Err(e),
                    Ok(v) => Ok((v, true)),
                }
            } else {
                switch_value(wires, env, cases.drop_first(), default, f)
            },
        }
    }
}

/// The value of a `Cases` wire matching `mv`: the value of the first case
/// whose pattern equals `mv` (returned as it is, flagged `true`), else that
/// of the default.
pub open spec fn cases_value(wires: Seq<Wire>, env: EvalEnv, cases: Seq<SwitchCase>, mv: i64, default: usize, f: nat)
    -> Result<(i64, bool), EvalError>
    decreases f, 1int, cases.len() + 1,
{
    if cases.len() == 0 {
        match wire_value(wires, env, default as int, f) {
            Err(e) => Err(e),
            Ok(v) => Ok((v, false)),
        }
    } else {
        match wire_value(wires, env, cases[0].cond as int, f) {
            Err(e) => Err(e),
            Ok(p) => if mv == p {
                match wire_value(wires, env, cases[0].val as int, f) {
                    Err(e) => Err(e),
                    Ok(v) => Ok((v, true)),
                }
            } else {
                cases_value(wires, env, cases.drop_first(), mv, default, f)
            },
        }
    }
}

/// The value of joining the wires `ids` after the bits `acc`, each wire's
/// value cut to its size (a wire of 64 bits or more replaces the whole value).
pub open spec fn concat_value(wires: Seq<Wire>, env: EvalEnv, ids: Seq<usize>, acc: i64, f: nat)
    -> Result<i64, EvalError>
    decreases f, 1int, ids.len() + 1,
{
    if ids.len() == 0 {
        Ok(acc)
    } else if !(ids[0] < wires.len()) {
        Err(EvalError::UnknownWire(ids[0]))
    } else {
        match wire_value(wires, env, ids[0] as int, f) {
            Err(e) => Err(e),
            Ok(v) => concat_value(wires, env, ids.drop_first(), concat_step(acc, wires[ids[0] as int].size, v), f),
        }
    }
}

/// The value `acc` with the bit ranges of `ups` replaced in order.
pub open spec fn update_value(wires: Seq<Wire>, env: EvalEnv, ups: Seq<UpdateEntry>, acc: i64, f: nat)
    -> Result<i64, EvalError>
    decreases f, 1int, ups.len() + 1,
{
    if ups.len() == 0 {
        Ok(acc)
    } else {
        match wire_value(wires, env, ups[0].wire as int, f) {
            Err(e) => Err(e),
            Ok(v) => update_value(wires, env, ups.drop_first(), update_step(acc, ups[0], v), f),
        }
    }
}

/// The number of nested evaluations allowed: one more than there are wires.
pub open spec fn fuel_bound(n: int) -> nat {
    if n + 1 <= usize::MAX { (n + 1) as nat } else { n as nat }
}

/// The value of wire `id`, with nesting bounded by the number of wires.
pub open spec fn wire_result(wires: Seq<Wire>, env: EvalEnv, id: int) -> Result<i64, EvalError> {
    wire_value(wires, env, id, fuel_bound(wires.len() as int))
}

pub open spec fn env_of(regs: &RegFile, cycle: usize, table: &ChannelTable, halting: bool, cache: &RecvCache) -> EvalEnv {
    EvalEnv { regs: regs@, cycle, table: table@, cache: cache@, halting }
}


/// What one evaluation reads, gathered.
pub struct EvalCtx<'a> {
    pub wires: &'a Vec<Wire>,
    pub regs: &'a RegFile,
    pub cycle: usize,
    pub table: &'a ChannelTable,
    pub halting: bool,
    pub cache: &'a RecvCache,
}

impl<'a> EvalCtx<'a> {
    pub open spec fn wf(&self) -> bool {
        self.regs.wf() && self.table.wf() && self.cache.wf()
    }

    pub open spec fn env(&self) -> EvalEnv {
        env_of(self.regs, self.cycle, self.table, self.halting, self.cache)
    }
}

/// Evaluate wire `id` with at most `fuel` nested evaluations.
fn eval_fuel(ctx: &EvalCtx, id: usize, fuel: usize) -> (r: Result<i64, EvalError>)
    requires
        ctx.wf(),
    ensures
        r == wire_value(ctx.wires@, ctx.env(), id as int, fuel as nat),
    decreases fuel, 0int,
{
    if fuel == 0 {
        return Err(EvalError::TooDeep(id));
    }
    if id >= ctx.wires.len() {
        return Err(EvalError::UnknownWire(id));
    }
    match eval_raw(ctx, id, fuel - 1) {
        Err(e) => Err(e),
        Ok((v, early)) => if early { Ok(v) } else { Ok(v & mask_bits(ctx.wires[id].size)) },
    }
}

fn eval_raw(ctx: &EvalCtx, id: usize, f: usize) -> (r: Result<(i64, bool), EvalError>)
    requires
        ctx.wf(),
        id < ctx.wires@.len(),
    ensures
        r == wire_raw(ctx.wires@, ctx.env(), id as int, f as nat),
    decreases f, 2int,
{
    let wires = ctx.wires;
    let w = &wires[id];
    match &w.source {
        WireSource::Literal { value, .. } => Ok((*value, false)),
        WireSource::RegRead { reg } => {
            let data = ctx.regs.storage_at(reg, ctx.cycle);
            Ok((read_reg_bits(data, 0, w.size), false))
        },
        WireSource::Binary { .. } => eval_binary(ctx, id, f),
        WireSource::Unary { op, operand } => {
            if *operand >= wires.len() {
                Err(EvalError::UnknownWire(*operand))
            } else {
                let size = wires[*operand].size;
                match eval_operand(ctx, *operand, f) {
                    Err(e) => Err(e),
                    Ok(v) => Ok((eval_un_op(*op, v, size), false)),
                }
            }
        },
        WireSource::Switch { .. } => eval_switch(ctx, id, f),
        WireSource::Cases { .. } => eval_cases(ctx, id, f),
        WireSource::Concat { .. } => eval_concat(ctx, id, f),
        WireSource::Slice { .. } => eval_slice(ctx, id, f),
        WireSource::Update { .. } => eval_update(ctx, id, f),
        WireSource::MessagePort { endpoint, msg, .. } => eval_port(ctx, endpoint, msg, id),
        WireSource::MessageValidPort { endpoint, msg } => {
            match ctx.table.channel_of(endpoint) {
                None => Err(EvalError::UnknownEndpoint(id)),
                Some(c) => Ok((if ctx.table.slot(c, msg).is_some() { 1 } else { 0 }, false)),
            }
        },
        WireSource::MessageAckPort { .. } => Err(EvalError::Unsupported(id)),
    }
}

/// An operand evaluation, one level down.
fn eval_operand(ctx: &EvalCtx, id: usize, f: usize) -> (r: Result<i64, EvalError>)
    requires
        ctx.wf(),
    ensures
        r == wire_value(ctx.wires@, ctx.env(), id as int, f as nat),
    decreases f, 1int,
{
    eval_fuel(ctx, id, f)
}

fn eval_port(ctx: &EvalCtx, endpoint: &String, msg: &String, id: usize) -> (r: Result<(i64, bool), EvalError>)
    requires
        ctx.wf(),
    ensures
        r == port_value(ctx.env(), endpoint@, msg@, id as int),
{
    match ctx.cache.get(endpoint, msg) {
        Some(v) => Ok((v, false)),
        None => match ctx.table.channel_of(endpoint) {
            None => Err(EvalError::UnknownEndpoint(id)),
            Some(c) => match ctx.table.slot(c, msg) {
                Some(v) => Ok((v, false)),
                None => if ctx.halting { Ok((0, true)) } else { Err(EvalError::Pending(id)) },
            },
        },
    }
}

fn eval_binary(ctx: &EvalCtx, id: usize, f: usize) -> (r: Result<(i64, bool), EvalError>)
    requires
        ctx.wf(),
        id < ctx.wires@.len(),
        ctx.wires@[id as int].source is Binary,
    ensures
        r == wire_raw(ctx.wires@, ctx.env(), id as int, f as nat),
    decreases f, 1int,
{
    match &ctx.wires[id].source {
        WireSource::Binary { op, left, right } => {
            match eval_fuel(ctx, *left, f) {
                Err(e) => Err(e),
                Ok(l) => match right {
                    None => Err(EvalError::OperandList(id)),
                    Some(r) => match eval_fuel(ctx, *r as usize, f) {
                        Err(e) => Err(e),
                        Ok(rv) => if *op == BinOp::Inside {
                            Err(EvalError::Unsupported(id))
                        } else {
                            Ok((eval_bin_op(*op, l, rv), false))
                        },
                    },
                },
            }
        },
        _ => Err(EvalError::UnknownWire(id)),
    }
}

fn eval_switch(ctx: &EvalCtx, id: usize, f: usize) -> (r: Result<(i64, bool), EvalError>)
    requires
        ctx.wf(),
        id < ctx.wires@.len(),
        ctx.wires@[id as int].source is Switch,
    ensures
        r == wire_raw(ctx.wires@, ctx.env(), id as int, f as nat),
    decreases f, 1int,
{
    let ghost env = ctx.env();
    match &ctx.wires[id].source {
        WireSource::Switch { cases, default } => {
            let mut k: usize = 0;
            let mut out: Option<Result<(i64, bool), EvalError>> = None;
            assert(cases@.subrange(0, cases@.len() as int) =~= cases@);
            while k < cases.len() && out.is_none()
                invariant
                    ctx.wf(),
                    env == ctx.env(),
                    k <= cases@.len(),
                    out is None ==> switch_value(ctx.wires@, env, cases@, *default, f as nat)
                        == switch_value(ctx.wires@, env, cases@.subrange(k as int, cases@.len() as int), *default, f as nat),
                    out matches Some(o) ==> o == switch_value(ctx.wires@, env, cases@, *default, f as nat),
                decreases cases@.len() - k,
            {
                let ghost rest = cases@.subrange(k as int, cases@.len() as int);
                assert(rest[0] == cases@[k as int]);
                assert(rest.drop_first() =~= cases@.subrange(k + 1, cases@.len() as int));
                match eval_fuel(ctx, cases[k].cond, f) {
                    Err(e) => {
                        out = Some(Err(e));
                    },
                    Ok(c) => {
                        if c != 0 {
                            match eval_fuel(ctx, cases[k].val, f) {
                                Err(e) => {
                                    out = Some(Err(e));
                                },
                                Ok(v) => {
                                    out = Some(Ok((v, true)));
                                },
                            }
                        }
                    },
                }
                k = k + 1;
            }
            match out {
                Some(o) => o,
                None => {
                    assert(cases@.subrange(k as int, cases@.len() as int).len() == 0);
                    match eval_fuel(ctx, *default, f) {
                        Err(e) => Err(e),
                        Ok(v) => Ok((v, false)),
                    }
                },
            }
        },
        _ => Err(EvalError::UnknownWire(id)),
    }
}

fn eval_cases(ctx: &EvalCtx, id: usize, f: usize) -> (r: Result<(i64, bool), EvalError>)
    requires
        ctx.wf(),
        id < ctx.wires@.len(),
        ctx.wires@[id as int].source is Cases,
    ensures
        r == wire_raw(ctx.wires@, ctx.env(), id as int, f as nat),
    decreases f, 1int,
{
    let ghost env = ctx.env();
    match &ctx.wires[id].source {
        WireSource::Cases { value, cases, default } => {
            match eval_fuel(ctx, *value, f) {
                Err(e) => Err(e),
                Ok(mv) => {
                    let mut k: usize = 0;
                    let mut out: Option<Result<(i64, bool), EvalError>> = None;
                    assert(cases@.subrange(0, cases@.len() as int) =~= cases@);
                    while k < cases.len() && out.is_none()
                        invariant
                            ctx.wf(),
                            env == ctx.env(),
                            k <= cases@.len(),
                            out is None ==> cases_value(ctx.wires@, env, cases@, mv, *default, f as nat)
                                == cases_value(ctx.wires@, env, cases@.subrange(k as int, cases@.len() as int), mv, *default, f as nat),
                            out matches Some(o) ==> o == cases_value(ctx.wires@, env, cases@, mv, *default, f as nat),
                        decreases cases@.len() - k,
                    {
                        let ghost rest = cases@.subrange(k as int, cases@.len() as int);
                        assert(rest[0] == cases@[k as int]);
                        assert(rest.drop_first() =~= cases@.subrange(k + 1, cases@.len() as int));
                        match eval_fuel(ctx, cases[k].cond, f) {
                            Err(e) => {
                                out = Some(Err(e));
                            },
                            Ok(p) => {
                                if mv == p {
                                    match eval_fuel(ctx, cases[k].val, f) {
                                        Err(e) => {
                                            out = Some(Err(e));
                                        },
                                        Ok(v) => {
                                            out = Some(Ok((v, true)));
                                        },
                                    }
                                }
                            },
                        }
                        k = k + 1;
                    }
                    match out {
                        Some(o) => o,
                        None => {
                            assert(cases@.subrange(k as int, cases@.len() as int).len() == 0);
                            match eval_fuel(ctx, *default, f) {
                                Err(e) => Err(e),
                                Ok(v) => Ok((v, false)),
                            }
                        },
                    }
                },
            }
        },
        _ => Err(EvalError::UnknownWire(id)),
    }
}

fn eval_concat(ctx: &EvalCtx, id: usize, f: usize) -> (r: Result<(i64, bool), EvalError>)
    requires
        ctx.wf(),
        id < ctx.wires@.len(),
        ctx.wires@[id as int].source is Concat,
    ensures
        r == wire_raw(ctx.wires@, ctx.env(), id as int, f as nat),
    decreases f, 1int,
{
    let ghost env = ctx.env();
    let wires = ctx.wires;
    match &wires[id].source {
        WireSource::Concat { wires: ids } => {
            let mut k: usize = 0;
            let mut acc: i64 = 0;
            let mut failed: Option<EvalError> = None;
            assert(ids@.subrange(0, ids@.len() as int) =~= ids@);
            while k < ids.len() && failed.is_none()
                invariant
                    ctx.wf(),
                    env == ctx.env(),
                    wires == ctx.wires,
                    k <= ids@.len(),
                    failed is None ==> concat_value(wires@, env, ids@, 0, f as nat)
                        == concat_value(wires@, env, ids@.subrange(k as int, ids@.len() as int), acc, f as nat),
                    failed matches Some(e) ==> concat_value(wires@, env, ids@, 0, f as nat) == Err::<i64, EvalError>(e),
                decreases ids@.len() - k,
            {
                let ghost rest = ids@.subrange(k as int, ids@.len() as int);
                assert(rest[0] == ids@[k as int]);
                assert(rest.drop_first() =~= ids@.subrange(k + 1, ids@.len() as int));
                let wid = ids[k];
                if wid >= wires.len() {
                    failed = Some(EvalError::UnknownWire(wid));
                } else {
                    let size = wires[wid].size;
                    match eval_fuel(ctx, wid, f) {
                        Err(e) => {
                            failed = Some(e);
                        },
                        Ok(v) => {
                            if size >= 64 {
                                acc = v;
                            } else {
                                acc = acc.wrapping_shl(size as u32) | (v & mask_bits(size));
                            }
                        },
                    }
                }
                k = k + 1;
            }
            match failed {
                Some(e) => Err(e),
                None => {
                    assert(ids@.subrange(k as int, ids@.len() as int).len() == 0);
                    Ok((acc, false))
                },
            }
        },
        _ => Err(EvalError::UnknownWire(id)),
    }
}

fn eval_slice(ctx: &EvalCtx, id: usize, f: usize) -> (r: Result<(i64, bool), EvalError>)
    requires
        ctx.wf(),
        id < ctx.wires@.len(),
        ctx.wires@[id as int].source is Slice,
    ensures
        r == wire_raw(ctx.wires@, ctx.env(), id as int, f as nat),
    decreases f, 1int,
{
    let wires = ctx.wires;
    match &wires[id].source {
        WireSource::Slice { wire, offset, len, offset_is_const } => {
            let off: Result<usize, EvalError> = if *offset_is_const {
                Ok(*offset)
            } else {
                match eval_fuel(ctx, *offset, f) {
                    Err(e) => Err(e),
                    Ok(v) => Ok(#[verifier::truncate] (v as usize)),
                }
            };
            match off {
                Err(e) => Err(e),
                Ok(off) => {
                    if *wire >= wires.len() {
                        Err(EvalError::UnknownWire(*wire))
                    } else {
                        match &wires[*wire].source {
                            WireSource::RegRead { reg } => {
                                let width: usize = if *len < 64 { *len } else { 64 };
                                if off > usize::MAX - width {
                                    Err(EvalError::OffsetOverflow(id))
                                } else {
                                    let data = ctx.regs.storage_at(reg, ctx.cycle);
                                    Ok((read_reg_bits(data, off, *len), false))
                                }
                            },
                            _ => {
                                match eval_fuel(ctx, *wire, f) {
                                    Err(e) => Err(e),
                                    Ok(v) => {
                                        let r = if off >= 64 {
                                            0
                                        } else if *len >= 64 {
                                            v >> (off as u64)
                                        } else {
                                            (v >> (off as u64)) & mask_bits(*len)
                                        };
                                        Ok((r, false))
                                    },
                                }
                            },
                        }
                    }
                },
            }
        },
        _ => Err(EvalError::UnknownWire(id)),
    }
}

fn eval_update(ctx: &EvalCtx, id: usize, f: usize) -> (r: Result<(i64, bool), EvalError>)
    requires
        ctx.wf(),
        id < ctx.wires@.len(),
        ctx.wires@[id as int].source is Update,
    ensures
        r == wire_raw(ctx.wires@, ctx.env(), id as int, f as nat),
    decreases f, 1int,
{
    let ghost env = ctx.env();
    match &ctx.wires[id].source {
        WireSource::Update { base, updates } => {
            match eval_fuel(ctx, *base, f) {
                Err(e) => Err(e),
                Ok(b) => {
                    let mut k: usize = 0;
                    let mut acc: i64 = b;
                    let mut failed: Option<EvalError> = None;
                    assert(updates@.subrange(0, updates@.len() as int) =~= updates@);
                    while k < updates.len() && failed.is_none()
                        invariant
                            ctx.wf(),
                            env == ctx.env(),
                            k <= updates@.len(),
                            failed is None ==> update_value(ctx.wires@, env, updates@, b, f as nat)
                                == update_value(ctx.wires@, env, updates@.subrange(k as int, updates@.len() as int), acc, f as nat),
                            failed matches Some(e) ==> update_value(ctx.wires@, env, updates@, b, f as nat) == Err::<i64, EvalError>(e),
                        decreases updates@.len() - k,
                    {
                        let ghost rest = updates@.subrange(k as int, updates@.len() as int);
                        assert(rest[0] == updates@[k as int]);
                        assert(rest.drop_first() =~= updates@.subrange(k + 1, updates@.len() as int));
                        let u = &updates[k];
                        match eval_fuel(ctx, u.wire, f) {
                            Err(e) => {
                                failed = Some(e);
                            },
                            Ok(v) => {
                                if u.offset <= 64 && u.size <= 64 - u.offset {
                                    let mask: i64 = if u.size >= 64 {
                                        0
                                    } else {
                                        mask_bits(u.size).wrapping_shl(u.offset as u32)
                                    };
                                    acc = (acc & !mask) | (v.wrapping_shl(u.offset as u32) & mask);
                                }
                            },
                        }
                        k = k + 1;
                    }
                    match failed {
                        Some(e) => Err(e),
                        None => {
                            assert(updates@.subrange(k as int, updates@.len() as int).len() == 0);
                            Ok((acc, false))
                        },
                    }
                },
            }
        },
        _ => Err(EvalError::UnknownWire(id)),
    }
}

/// Evaluate wire `wire_id` (an index into `wires`), recursively resolving the
/// wires it depends on; registers are read as they stand at `cycle`. A message
/// port reads the value kept from the last receive on its endpoint and
/// message, else the channel slot; when that is empty it reads 0 if the
/// simulation has finished (`halting`) and otherwise reports that it must wait.
pub fn eval_wire(
    wire_id: usize,
    wires: &Vec<Wire>,
    regs: &RegFile,
    cycle: usize,
    table: &ChannelTable,
    halting: bool,
    recv_cache: &RecvCache,
) -> (r: Result<i64, EvalError>)
    requires
        regs.wf(),
        table.wf(),
        recv_cache.wf(),
    ensures
        r == wire_result(wires@, env_of(regs, cycle, table, halting, recv_cache), wire_id as int),
{
    let fuel: usize = match wires.len().checked_add(1) {
        Some(n) => n,
        None => wires.len(),
    };
    let ctx = EvalCtx { wires, regs, cycle, table, halting, cache: recv_cache };
    eval_fuel(&ctx, wire_id, fuel)
}

proof fn lemma_low_mask_nonneg(n: int)
    requires
        n < 64,
    ensures
        low_mask(n) >= 0,
{
    if 0 < n < 64 {
        let k = n as u64;
        assert(0 < k < 64 ==> ((1i64 << k) - 1) as i64 >= 0) by (bit_vector);
    }
}

/// Law (values fit their wires): a wire narrower than 64 bits, other than a
/// `Switch` or `Cases` wire (whose value is the chosen case's own), has a
/// value between 0 and its all-ones mask, whatever it reads.
pub proof fn lemma_value_fits_width(wires: Seq<Wire>, env: EvalEnv, id: int, fuel: nat)
    requires
        0 <= id < wires.len(),
        wires[id].size < 64,
        !(wires[id].source is Switch),
        !(wires[id].source is Cases),
        wire_value(wires, env, id, fuel) is Ok,
    ensures
        0 <= wire_value(wires, env, id, fuel)->Ok_0 <= low_mask(wires[id].size as int),
{
    let m = low_mask(wires[id].size as int);
    lemma_low_mask_nonneg(wires[id].size as int);
    let raw = wire_raw(wires, env, id, (fuel - 1) as nat);
    match raw {
        Ok((x, early)) => {
            if early {
                assert(wires[id].source is MessagePort);
            } else {
                assert(m >= 0 ==> 0 <= (x & m) <= m) by (bit_vector);
            }
        },
        Err(_) => {},
    }
}

proof fn lemma_cases_no_match(wires: Seq<Wire>, env: EvalEnv, cs: Seq<SwitchCase>, mv: i64, default: usize, f: nat, d: i64)
    requires
        forall|j: int| 0 <= j < cs.len() ==> (#[trigger] wire_value(wires, env, cs[j].cond as int, f)) is Ok
            && wire_value(wires, env, cs[j].cond as int, f)->Ok_0 != mv,
        wire_value(wires, env, default as int, f) == Ok::<i64, EvalError>(d),
    ensures
        cases_value(wires, env, cs, mv, default, f) == Ok::<(i64, bool), EvalError>((d, false)),
    decreases cs.len(),
{
    if cs.len() > 0 {
        assert(wire_value(wires, env, cs[0].cond as int, f) is Ok);
        let rest = cs.drop_first();
        assert forall|j: int| 0 <= j < rest.len() implies (#[trigger] wire_value(wires, env, rest[j].cond as int, f)) is Ok
            && wire_value(wires, env, rest[j].cond as int, f)->Ok_0 != mv by {
            assert(rest[j] == cs[j + 1]);
        }
        lemma_cases_no_match(wires, env, rest, mv, default, f, d);
    }
}

proof fn lemma_cases_first_match(wires: Seq<Wire>, env: EvalEnv, cs: Seq<SwitchCase>, mv: i64, default: usize, f: nat, k: int, v: i64)
    requires
        0 <= k < cs.len(),
        forall|j: int| 0 <= j < k ==> (#[trigger] wire_value(wires, env, cs[j].cond as int, f)) is Ok
            && wire_value(wires, env, cs[j].cond as int, f)->Ok_0 != mv,
        wire_value(wires, env, cs[k].cond as int, f) == Ok::<i64, EvalError>(mv),
        wire_value(wires, env, cs[k].val as int, f) == Ok::<i64, EvalError>(v),
    ensures
        cases_value(wires, env, cs, mv, default, f) == Ok::<(i64, bool), EvalError>((v, true)),
    decreases cs.len(),
{
    if k > 0 {
        assert(wire_value(wires, env, cs[0].cond as int, f) is Ok);
        let rest = cs.drop_first();
        assert forall|j: int| 0 <= j < k - 1 implies (#[trigger] wire_value(wires, env, rest[j].cond as int, f)) is Ok
            && wire_value(wires, env, rest[j].cond as int, f)->Ok_0 != mv by {
            assert(rest[j] == cs[j + 1]);
        }
        assert(rest[k - 1] == cs[k]);
        lemma_cases_first_match(wires, env, rest, mv, default, f, k - 1, v);
    }
}

/// Law (a `Cases` wire picks the case its value matches): with the matched
/// value `mv` and the patterns evaluated, the wire takes the value of the
/// first case whose pattern equals `mv`, as it is; when no pattern equals
/// it, the default's value cut to the wire's size.
pub proof fn lemma_cases_wire(wires: Seq<Wire>, env: EvalEnv, id: int, f: nat, mv: i64, k: int, v: i64)
    requires
        0 <= id < wires.len(),
        wires[id].source is Cases,
        wire_value(wires, env, wires[id].source->Cases_value as int, f) == Ok::<i64, EvalError>(mv),
    ensures
        ({
            let cs = wires[id].source->Cases_cases@;
            let default = wires[id].source->Cases_default;
            &&& (forall|j: int| 0 <= j < cs.len() ==> (#[trigger] wire_value(wires, env, cs[j].cond as int, f)) is Ok
                    && wire_value(wires, env, cs[j].cond as int, f)->Ok_0 != mv)
                && wire_value(wires, env, default as int, f) == Ok::<i64, EvalError>(v)
                ==> wire_value(wires, env, id, f + 1) == Ok::<i64, EvalError>(v & low_mask(wires[id].size as int))
            &&& (0 <= k < cs.len()
                && (forall|j: int| 0 <= j < k ==> (#[trigger] wire_value(wires, env, cs[j].cond as int, f)) is Ok
                    && wire_value(wires, env, cs[j].cond as int, f)->Ok_0 != mv)
                && wire_value(wires, env, cs[k].cond as int, f) == Ok::<i64, EvalError>(mv)
                && wire_value(wires, env, cs[k].val as int, f) == Ok::<i64, EvalError>(v))
                ==> wire_value(wires, env, id, f + 1) == Ok::<i64, EvalError>(v)
        }),
{
    let cs = wires[id].source->Cases_cases@;
    let default = wires[id].source->Cases_default;
    if (forall|j: int| 0 <= j < cs.len() ==> (#[trigger] wire_value(wires, env, cs[j].cond as int, f)) is Ok
        && wire_value(wires, env, cs[j].cond as int, f)->Ok_0 != mv) && wire_value(wires, env, default as int, f) == Ok::<i64, EvalError>(v) {
        lemma_cases_no_match(wires, env, cs, mv, default, f, v);
    }
    if 0 <= k < cs.len()
        && (forall|j: int| 0 <= j < k ==> (#[trigger] wire_value(wires, env, cs[j].cond as int, f)) is Ok
            && wire_value(wires, env, cs[j].cond as int, f)->Ok_0 != mv)
        && wire_value(wires, env, cs[k].cond as int, f) == Ok::<i64, EvalError>(mv)
        && wire_value(wires, env, cs[k].val as int, f) == Ok::<i64, EvalError>(v) {
        lemma_cases_first_match(wires, env, cs, mv, default, f, k, v);
    }
}

proof fn lemma_switch_none(wires: Seq<Wire>, env: EvalEnv, cs: Seq<SwitchCase>, default: usize, f: nat, d: i64)
    requires
        forall|j: int| 0 <= j < cs.len() ==> #[trigger] wire_value(wires, env, cs[j].cond as int, f) == Ok::<i64, EvalError>(0),
        wire_value(wires, env, default as int, f) == Ok::<i64, EvalError>(d),
    ensures
        switch_value(wires, env, cs, default, f) == Ok::<(i64, bool), EvalError>((d, false)),
    decreases cs.len(),
{
    if cs.len() > 0 {
        assert(wire_value(wires, env, cs[0].cond as int, f) == Ok::<i64, EvalError>(0));
        let rest = cs.drop_first();
        assert forall|j: int| 0 <= j < rest.len() implies #[trigger] wire_value(wires, env, rest[j].cond as int, f) == Ok::<i64, EvalError>(0) by {
            assert(rest[j] == cs[j + 1]);
        }
        lemma_switch_none(wires, env, rest, default, f, d);
    }
}

proof fn lemma_switch_first(wires: Seq<Wire>, env: EvalEnv, cs: Seq<SwitchCase>, default: usize, f: nat, k: int, c: i64, v: i64)
    requires
        0 <= k < cs.len(),
        forall|j: int| 0 <= j < k ==> #[trigger] wire_value(wires, env, cs[j].cond as int, f) == Ok::<i64, EvalError>(0),
        c != 0,
        wire_value(wires, env, cs[k].cond as int, f) == Ok::<i64, EvalError>(c),
        wire_value(wires, env, cs[k].val as int, f) == Ok::<i64, EvalError>(v),
    ensures
        switch_value(wires, env, cs, default, f) == Ok::<(i64, bool), EvalError>((v, true)),
    decreases cs.len(),
{
    if k > 0 {
        assert(wire_value(wires, env, cs[0].cond as int, f) == Ok::<i64, EvalError>(0));
        let rest = cs.drop_first();
        assert forall|j: int| 0 <= j < k - 1 implies #[trigger] wire_value(wires, env, rest[j].cond as int, f) == Ok::<i64, EvalError>(0) by {
            assert(rest[j] == cs[j + 1]);
        }
        assert(rest[k - 1] == cs[k]);
        lemma_switch_first(wires, env, rest, default, f, k - 1, c, v);
    }
}

/// Law (a `Switch` wire picks the first case whose condition holds): with
/// the earlier conditions 0 and condition `k` nonzero, the wire takes the
/// value of case `k` as it is; with every condition 0, the default's value
/// cut to the wire's size.
pub proof fn lemma_switch_wire(wires: Seq<Wire>, env: EvalEnv, id: int, f: nat, k: int, c: i64, v: i64)
    requires
        0 <= id < wires.len(),
        wires[id].source is Switch,
    ensures
        ({
            let cs = wires[id].source->Switch_cases@;
            let default = wires[id].source->Switch_default;
            &&& (forall|j: int| 0 <= j < cs.len() ==> #[trigger] wire_value(wires, env, cs[j].cond as int, f) == Ok::<i64, EvalError>(0))
                && wire_value(wires, env, default as int, f) == Ok::<i64, EvalError>(v)
                ==> wire_value(wires, env, id, f + 1) == Ok::<i64, EvalError>(v & low_mask(wires[id].size as int))
            &&& (0 <= k < cs.len()
                && (forall|j: int| 0 <= j < k ==> #[trigger] wire_value(wires, env, cs[j].cond as int, f) == Ok::<i64, EvalError>(0))
                && c != 0
                && wire_value(wires, env, cs[k].cond as int, f) == Ok::<i64, EvalError>(c)
                && wire_value(wires, env, cs[k].val as int, f) == Ok::<i64, EvalError>(v))
                ==> wire_value(wires, env, id, f + 1) == Ok::<i64, EvalError>(v)
        }),
{
    let cs = wires[id].source->Switch_cases@;
    let default = wires[id].source->Switch_default;
    if (forall|j: int| 0 <= j < cs.len() ==> #[trigger] wire_value(wires, env, cs[j].cond as int, f) == Ok::<i64, EvalError>(0))
        && wire_value(wires, env, default as int, f) == Ok::<i64, EvalError>(v) {
        lemma_switch_none(wires, env, cs, default, f, v);
    }
    if 0 <= k < cs.len()
        && (forall|j: int| 0 <= j < k ==> #[trigger] wire_value(wires, env, cs[j].cond as int, f) == Ok::<i64, EvalError>(0))
        && c != 0
        && wire_value(wires, env, cs[k].cond as int, f) == Ok::<i64, EvalError>(c)
        && wire_value(wires, env, cs[k].val as int, f) == Ok::<i64, EvalError>(v) {
        lemma_switch_first(wires, env, cs, default, f, k, c, v);
    }
}

proof fn lemma_low_mask_bit(x: i64, n: int, i: u64)
    requires
        i < 64,
    ensures
        crate::bits::i64_bit(x & low_mask(n), i as int) == (i < n && crate::bits::i64_bit(x, i as int)),
{
    if n >= 64 {
        assert((((x & -1i64) >> i) & 1i64 == 1i64) == ((x >> i) & 1i64 == 1i64)) by (bit_vector);
    } else if n <= 0 {
        assert((((x & 0i64) >> i) & 1i64 == 1i64) == false) by (bit_vector);
    } else {
        let k: u64 = n as u64;
        assert((((x & (((1i64 << k) - 1) as i64)) >> i) & 1i64 == 1i64) == (i < k && ((x >> i) & 1i64 == 1i64))) by (bit_vector)
            requires 0 < k < 64, i < 64;
    }
}

/// Law (slicing takes a bit range): bit `i` of `len` bits of `v` from bit
/// `off` is bit `off + i` of `v` (its sign past bit 63) for `i < len`, and 0
/// above; an offset of 64 or more gives 0.
pub proof fn lemma_slice_bits(v: i64, off: usize, len: usize, i: u64)
    requires
        i < 64,
    ensures
        off >= 64 ==> slice_bits(v, off, len) == 0,
        off < 64 ==> crate::bits::i64_bit(slice_bits(v, off, len), i as int)
            == (i < len && (if i + off < 64 { crate::bits::i64_bit(v, i + off) } else { v < 0 })),
{
    if off < 64 {
        let o: u64 = off as u64;
        assert(((((v >> o) >> i) & 1i64) == 1i64) == (if i + o < 64 { ((v >> ((i + o) as u64)) & 1i64) == 1i64 } else { v < 0 })) by (bit_vector)
            requires i < 64, o < 64;
        if len < 64 {
            lemma_low_mask_bit(v >> o, len as int, i);
        }
    }
}

/// Law (joining puts the new value below): after joining a value of `size`
/// bits (below 64) to the bits `acc`, the low `size` bits are the value's and
/// the bits above are those of `acc`, moved up; a value of 64 bits or more
/// replaces everything.
pub proof fn lemma_concat_step(acc: i64, size: usize, v: i64, i: u64)
    requires
        i < 64,
    ensures
        size >= 64 ==> concat_step(acc, size, v) == v,
        size < 64 ==> crate::bits::i64_bit(concat_step(acc, size, v), i as int)
            == (if i < size { crate::bits::i64_bit(v, i as int) } else { crate::bits::i64_bit(acc, i - size) }),
{
    if size < 64 {
        let s: u32 = size as u32;
        assert(s % 64 == s);
        let k: u64 = s as u64;
        lemma_low_mask_bit(v, size as int, i);
        let m = v & low_mask(size as int);
        assert((((((acc << k) | m) >> i) & 1i64) == 1i64)
            == ((((acc << k) >> i) & 1i64) == 1i64 || ((m >> i) & 1i64) == 1i64)) by (bit_vector);
        assert(((((acc << k) >> i) & 1i64) == 1i64) == (i >= k && ((acc >> ((i - k) as u64)) & 1i64) == 1i64)) by (bit_vector)
            requires i < 64, k < 64;
        if i < size {
            assert(crate::bits::i64_bit(acc.wrapping_shl(s), i as int) == false);
        } else {
            assert(!crate::bits::i64_bit(m, i as int));
        }
    }
}

/// Law (an update replaces a bit range): with the range inside the 64 bits
/// and narrower than 64, bit `i` of the result is bit `i - offset` of the new
/// value inside the range and bit `i` of the old value outside it.
pub proof fn lemma_update_step(acc: i64, u: UpdateEntry, v: i64, i: u64)
    requires
        i < 64,
        u.offset + u.size <= 64,
        u.size < 64,
    ensures
        crate::bits::i64_bit(update_step(acc, u, v), i as int)
            == (if u.offset <= i < u.offset + u.size { crate::bits::i64_bit(v, i - u.offset) } else { crate::bits::i64_bit(acc, i as int) }),
{
    let o32: u32 = u.offset as u32;
    let o: u64 = (o32 % 64) as u64;
    let n: u64 = u.size as u64;
    if u.size == 0 {
        assert(low_mask(0) == 0i64);
        let mask = update_mask(u.offset, u.size);
        assert(mask == 0i64) by {
            assert(0i64 << o == 0i64) by (bit_vector) requires o < 64;
        }
        assert((((acc & !0i64) | ((v << o) & 0i64)) >> i) & 1i64 == (acc >> i) & 1i64) by (bit_vector)
            requires o < 64, i < 64;
    } else {
        assert(o32 % 64 == o32);
        assert(((((acc & !((((1i64 << n) - 1) as i64) << o)) | ((v << o) & ((((1i64 << n) - 1) as i64) << o))) >> i) & 1i64 == 1i64)
            == (if o <= i && i < o + n { ((v >> ((i - o) as u64)) & 1i64) == 1i64 } else { ((acc >> i) & 1i64) == 1i64 })) by (bit_vector)
            requires 0 < n < 64, o + n <= 64, i < 64;
    }
}

/// Law (a register read gives the register's bits at the current cycle):
/// bit `i` of a `RegRead` wire is bit `i` of the storage its register holds
/// at the cycle read, for `i` below the wire's size, and 0 above.
pub proof fn lemma_reg_read_wire(wires: Seq<Wire>, env: EvalEnv, id: int, f: nat, i: u64)
    requires
        0 <= id < wires.len(),
        wires[id].source is RegRead,
        i < 64,
    ensures
        wire_value(wires, env, id, f + 1) is Ok,
        crate::bits::i64_bit(wire_value(wires, env, id, f + 1)->Ok_0, i as int)
            == (i < wires[id].size && crate::bits::storage_bit(
                storage_at(env.regs, wires[id].source->RegRead_reg@, env.cycle as int), i as int)),
{
    let data = storage_at(env.regs, wires[id].source->RegRead_reg@, env.cycle as int);
    let size = wires[id].size as int;
    crate::bits::lemma_bits_value_bit(data, 0, read_width(size), i as int);
    lemma_low_mask_bit(reg_read(data, 0, size), size, i);
}
} // verus!
