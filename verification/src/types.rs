//! The plain data the engine works on: signal values, typed handles, and the
//! step language that effect bodies are written in.

use vstd::prelude::*;

verus! {

/// The shape of a signal value. Heterogeneous signals share one store; each
/// slot keeps the shape it was created with for the life of the process.
#[derive(Clone, Copy, PartialEq, Eq, Structural, Debug)]
pub enum Kind {
    Int,
    Flag,
}

/// A signal value: one variant per supported shape. The store holds these
/// side by side, and a handle's kind says which variant its slot holds.
#[derive(Clone, Copy, PartialEq, Eq, Structural, Debug)]
pub enum Value {
    Int(i64),
    Flag(bool),
}

/// The shape of a value.
pub open spec fn kind_of(v: Value) -> Kind {
    match v {
        Value::Int(_) => Kind::Int,
        Value::Flag(_) => Kind::Flag,
    }
}

/// A typed, copyable handle to one slot of the value store. It carries no
/// data, only the slot's index and the shape the slot was created with; the
/// shape never changes, so access through a handle never meets a value of the
/// wrong shape.
#[derive(Clone, Copy, PartialEq, Eq, Structural, Debug)]
pub struct Signal {
    pub id: usize,
    pub kind: Kind,
}

/// One instruction of an effect body. Bodies are data: a body is a sequence
/// of steps, registered once and re-run whenever a signal the body reads is
/// written.
///
/// - `Read` reads a signal, appends the value seen to the run log, and
///   subscribes the running effect to the signal.
/// - `Write` overwrites a signal and re-runs its subscribers, except the
///   effect performing the write.
/// - `Mutate` is the in-place accessor: it first subscribes the running
///   effect to the signal — a mutate-access also subscribes, deliberately —
///   then overwrites and propagates like `Write`.
/// - `Spawn` creates a new effect from a registered body and runs it at once,
///   nested inside the current run.
#[derive(Clone, Copy, PartialEq, Eq, Structural, Debug)]
pub enum Step {
    Read(Signal),
    Write(Signal, Value),
    Mutate(Signal, Value),
    Spawn(usize),
}

} // verus!
