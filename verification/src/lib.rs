//! An event-driven simulator for Anvil programs: the event graphs of each
//! proc run on a queue of timed events, with registers committed at the end
//! of each cycle and single-slot channels between procs.
use vstd::prelude::*;

pub mod bits;
pub mod channel;
pub mod engine;
pub mod eval;
pub mod ir;
pub mod names;
pub mod ocaml;
pub mod ops;
pub mod queue;
pub mod regs;
pub mod setup;
pub mod sort;
pub mod text;

verus! {

} // verus!
