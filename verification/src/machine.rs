//! The mathematical model of the engine: a deterministic small-step machine.
//!
//! A machine is the abstract state of one runtime instance together with a
//! stack of activations ("frames"). The topmost frame is the running effect;
//! an activation created while another runs sits above it and the lower one
//! resumes when it is gone — this stack is the re-entrant running-effect
//! marker. `next` performs one step; `iterate` runs several; `runs_to` says a
//! start state runs to completion with a given final store.

use vstd::prelude::*;

use crate::types::{kind_of, Kind, Signal, Step, Value};

verus! {

/// The abstract state of one runtime instance.
///
/// - `values`: the value store, one slot per signal, in creation order.
/// - `subs`: per slot, the effects subscribed to it, in subscription order and
///   without duplicates. Subscriptions only grow; none is ever removed.
/// - `bodies`: the registered effect bodies, in registration order.
/// - `effects`: the effect store: per effect, the body it runs.
/// - `log`: the run log: one entry per read performed by a running effect,
///   recording the effect and the value it saw.
#[verifier::ext_equal]
pub ghost struct State {
    pub values: Seq<Value>,
    pub subs: Seq<Seq<usize>>,
    pub bodies: Seq<Seq<Step>>,
    pub effects: Seq<usize>,
    pub log: Seq<(usize, Value)>,
}

/// Abstract state plus the stack of activations. Each frame is an effect and
/// its program counter: how many steps of its body it has already executed.
#[verifier::ext_equal]
pub ghost struct Machine {
    pub st: State,
    pub frames: Seq<(usize, usize)>,
}

/// The state of a freshly constructed runtime: every store empty.
pub open spec fn initial() -> State {
    State {
        values: Seq::empty(),
        subs: Seq::empty(),
        bodies: Seq::empty(),
        effects: Seq::empty(),
        log: Seq::empty(),
    }
}

/// The shape of every stored value, in slot order. Writes preserve this
/// sequence: a slot's shape is fixed at creation.
pub open spec fn kinds(vals: Seq<Value>) -> Seq<Kind> {
    vals.map(|i: int, v: Value| kind_of(v))
}

/// The body the given effect runs.
pub open spec fn prog_at(bodies: Seq<Seq<Step>>, effects: Seq<usize>, e: int) -> Seq<Step> {
    bodies[effects[e] as int]
}

/// The body the given effect runs, read off a state.
pub open spec fn prog_of(st: State, e: int) -> Seq<Step> {
    prog_at(st.bodies, st.effects, e)
}

/// A step may only name live slots, write values of the slot's shape, and
/// spawn registered bodies. Well-formedness depends only on the slot shapes
/// and the number of registered bodies, so it survives new slots, new bodies
/// and every write.
pub open spec fn step_wf(s: Step, ks: Seq<Kind>, nbodies: int) -> bool {
    match s {
        Step::Read(h) => h.id < ks.len() && ks[h.id as int] == h.kind,
        Step::Write(h, v) => h.id < ks.len() && ks[h.id as int] == h.kind && kind_of(v)
            == h.kind,
        Step::Mutate(h, v) => h.id < ks.len() && ks[h.id as int] == h.kind && kind_of(v)
            == h.kind,
        Step::Spawn(b) => b < nbodies,
    }
}

/// Every step of the body is well-formed.
pub open spec fn body_wf(b: Seq<Step>, ks: Seq<Kind>, nbodies: int) -> bool {
    forall|i: int| 0 <= i < b.len() ==> step_wf(#[trigger] b[i], ks, nbodies)
}

/// No effect appears twice in the list.
pub open spec fn distinct(l: Seq<usize>) -> bool {
    forall|i: int, j: int| 0 <= i < j < l.len() ==> l[i] != l[j]
}

/// A subscriber list: a set of existing effects, kept in subscription order.
pub open spec fn sub_list_wf(l: Seq<usize>, neffects: int) -> bool {
    distinct(l) && forall|i: int| 0 <= i < l.len() ==> (#[trigger] l[i]) < neffects
}

/// The state invariant: one subscriber list per slot, subscriber lists are
/// duplicate-free sets of existing effects, every registered body is
/// well-formed and of machine-representable length, and every effect runs a
/// registered body.
pub open spec fn state_wf(st: State) -> bool {
    &&& st.subs.len() == st.values.len()
    &&& forall|b: int| 0 <= b < st.bodies.len() ==> (#[trigger] st.bodies[b]).len() <= usize::MAX
    &&& forall|i: int|
        0 <= i < st.subs.len() ==> sub_list_wf(#[trigger] st.subs[i], st.effects.len() as int)
    &&& forall|b: int|
        0 <= b < st.bodies.len() ==> body_wf(
            #[trigger] st.bodies[b],
            kinds(st.values),
            st.bodies.len() as int,
        )
    &&& forall|e: int| 0 <= e < st.effects.len() ==> (#[trigger] st.effects[e]) < st.bodies.len()
}

/// A frame names an existing effect and sits at or before the end of its body.
pub open spec fn frame_wf(f: (usize, usize), st: State) -> bool {
    f.0 < st.effects.len() && f.1 <= prog_of(st, f.0 as int).len()
}

/// The machine invariant: a well-formed state and well-formed frames.
pub open spec fn machine_wf(m: Machine) -> bool {
    state_wf(m.st) && forall|i: int| 0 <= i < m.frames.len() ==> frame_wf(#[trigger] m.frames[i], m.st)
}

/// The handle names a live slot and carries the slot's shape.
pub open spec fn sig_wf(h: Signal, st: State) -> bool {
    h.id < st.values.len() && kind_of(st.values[h.id as int]) == h.kind
}

/// Subscribe effect `e` to slot `s`, with set semantics: a second subscription
/// changes nothing.
pub open spec fn add_sub(subs: Seq<Seq<usize>>, s: int, e: usize) -> Seq<Seq<usize>> {
    if subs[s].contains(e) {
        subs
    } else {
        subs.update(s, subs[s].push(e))
    }
}

/// The activations a write schedules: one fresh frame per recorded subscriber
/// of the written slot, skipping the excluded (currently running) effect. The
/// earliest subscriber ends up topmost, so subscribers run in subscription
/// order.
pub open spec fn pending(l: Seq<usize>, excl: Option<usize>) -> Seq<(usize, usize)>
    decreases l.len(),
{
    if l.len() == 0 {
        Seq::empty()
    } else {
        let rest = pending(l.drop_last(), excl);
        if excl == Some(l.last()) {
            rest
        } else {
            seq![(l.last(), 0usize)] + rest
        }
    }
}

/// Whether the machine has a step to execute: a topmost activation whose body
/// is not yet finished.
pub open spec fn live(m: Machine) -> bool {
    m.frames.len() > 0 && {
        let f = m.frames.last();
        f.0 < m.st.effects.len() && f.1 < prog_of(m.st, f.0 as int).len()
    }
}

/// The currently running effect: the one of the topmost activation.
pub open spec fn running(m: Machine) -> usize {
    m.frames.last().0
}

/// The step the running effect is about to execute.
pub open spec fn cur_step(m: Machine) -> Step {
    prog_of(m.st, m.frames.last().0 as int)[m.frames.last().1 as int]
}

/// Advance the topmost activation past the step it just executed.
pub open spec fn bump_top(frames: Seq<(usize, usize)>) -> Seq<(usize, usize)> {
    frames.update(frames.len() - 1, (frames.last().0, (frames.last().1 + 1) as usize))
}

/// One step of the engine.
///
/// With no activation the machine is done and stutters. A finished topmost
/// activation is discarded, which resumes the activation below it: this is the
/// save/restore of the running-effect marker. Otherwise the running effect's
/// next step executes:
///
/// - `Read` logs the value seen and subscribes the running effect to the slot.
/// - `Write` replaces the value, then schedules every recorded subscriber of
///   the slot except the running effect itself (self-exclusion).
/// - `Mutate` first subscribes the running effect, then acts like `Write`.
/// - `Spawn` appends a new effect running the named body and activates it on
///   top of the stack, so it runs to completion before its creator resumes.
pub open spec fn next(m: Machine) -> Machine {
    if m.frames.len() == 0 {
        m
    } else if !live(m) {
        Machine { st: m.st, frames: m.frames.drop_last() }
    } else {
        let e = running(m);
        let fr = bump_top(m.frames);
        match cur_step(m) {
            Step::Read(h) => Machine {
                st: State {
                    subs: add_sub(m.st.subs, h.id as int, e),
                    log: m.st.log.push((e, m.st.values[h.id as int])),
                    ..m.st
                },
                frames: fr,
            },
            Step::Write(h, v) => Machine {
                st: State { values: m.st.values.update(h.id as int, v), ..m.st },
                frames: fr + pending(m.st.subs[h.id as int], Some(e)),
            },
            Step::Mutate(h, v) => {
                let subs1 = add_sub(m.st.subs, h.id as int, e);
                Machine {
                    st: State {
                        values: m.st.values.update(h.id as int, v),
                        subs: subs1,
                        ..m.st
                    },
                    frames: fr + pending(subs1[h.id as int], Some(e)),
                }
            },
            Step::Spawn(b) => Machine {
                st: State { effects: m.st.effects.push(b), ..m.st },
                frames: fr.push(((m.st.effects.len()) as usize, 0usize)),
            },
        }
    }
}

/// `n` steps of the engine.
pub open spec fn iterate(m: Machine, n: nat) -> Machine
    decreases n,
{
    if n == 0 {
        m
    } else {
        next(iterate(m, (n - 1) as nat))
    }
}

/// The engine, started in machine state `m0`, runs to completion and leaves
/// store `st`. The machine is deterministic, so `st` is unique when it exists
/// (`lemma_run_deterministic`); a run that never empties its stack — mutual
/// re-triggering through an intermediary effect can recurse forever — reaches
/// no such `st`, and the corresponding call does not return.
pub open spec fn runs_to(m0: Machine, st: State) -> bool {
    exists|n: nat| #[trigger] iterate(m0, n) == (Machine { st: st, frames: Seq::empty() })
}

/// The run started in `m0` empties its stack after finitely many steps.
///
/// Propagation is synchronous and unguarded: an effect that re-triggers
/// itself through an intermediary effect recurses forever, and avoiding that
/// is the caller's responsibility. Operations that propagate therefore ask
/// for this bound; a write with no subscribers, or whose subscribers only
/// read, satisfies it at once.
pub open spec fn terminates(m0: Machine) -> bool {
    exists|n: nat| (#[trigger] iterate(m0, n)).frames.len() == 0
}

/// A machine with no activations has already run to completion.
pub proof fn lemma_terminates_trivial(m0: Machine)
    requires
        m0.frames.len() == 0,
    ensures
        terminates(m0),
{
    assert(iterate(m0, 0).frames.len() == 0);
}

/// Machine state right after a top-level write to slot `i`: the value is
/// replaced and every recorded subscriber is scheduled — no effect is running
/// at top level, so none is excluded.
pub open spec fn write_start(st: State, i: int, v: Value) -> Machine {
    Machine {
        st: State { values: st.values.update(i, v), ..st },
        frames: pending(st.subs[i], None),
    }
}

/// Machine state right after a new effect is created from body `b`: the
/// effect store has grown by one and the sole activation is the new effect's
/// eager initial run.
pub open spec fn effect_start(st: State, b: usize) -> Machine {
    Machine {
        st: State { effects: st.effects.push(b), ..st },
        frames: seq![((st.effects.len() as usize), 0usize)],
    }
}

/// Step well-formedness survives new slots and new bodies.
pub proof fn lemma_step_wf_mono(s: Step, ks1: Seq<Kind>, n1: int, ks2: Seq<Kind>, n2: int)
    requires
        step_wf(s, ks1, n1),
        ks1.is_prefix_of(ks2),
        n1 <= n2,
    ensures
        step_wf(s, ks2, n2),
{
    match s {
        Step::Read(h) => {
            assert(ks2[h.id as int] == ks1[h.id as int]);
        },
        Step::Write(h, v) => {
            assert(ks2[h.id as int] == ks1[h.id as int]);
        },
        Step::Mutate(h, v) => {
            assert(ks2[h.id as int] == ks1[h.id as int]);
        },
        Step::Spawn(b) => {},
    }
}

/// Body well-formedness survives new slots and new bodies.
pub proof fn lemma_body_wf_mono(b: Seq<Step>, ks1: Seq<Kind>, n1: int, ks2: Seq<Kind>, n2: int)
    requires
        body_wf(b, ks1, n1),
        ks1.is_prefix_of(ks2),
        n1 <= n2,
    ensures
        body_wf(b, ks2, n2),
{
    assert forall|i: int| 0 <= i < b.len() implies step_wf(#[trigger] b[i], ks2, n2) by {
        lemma_step_wf_mono(b[i], ks1, n1, ks2, n2);
    }
}

/// Creating a signal preserves the state invariant: the new slot has the
/// written shape and no subscribers.
pub proof fn lemma_wf_push_signal(st: State, val: Value)
    requires
        state_wf(st),
    ensures
        state_wf(State { values: st.values.push(val), subs: st.subs.push(Seq::empty()), ..st }),
        kinds(st.values.push(val)) == kinds(st.values).push(kind_of(val)),
{
    let st1 = State { values: st.values.push(val), subs: st.subs.push(Seq::empty()), ..st };
    assert(kinds(st.values.push(val)) =~= kinds(st.values).push(kind_of(val)));
    assert(kinds(st.values).is_prefix_of(kinds(st1.values)));
    assert forall|b: int| 0 <= b < st1.bodies.len() implies body_wf(
        #[trigger] st1.bodies[b],
        kinds(st1.values),
        st1.bodies.len() as int,
    ) by {
        lemma_body_wf_mono(
            st.bodies[b],
            kinds(st.values),
            st.bodies.len() as int,
            kinds(st1.values),
            st1.bodies.len() as int,
        );
    }
    assert forall|i: int| 0 <= i < st1.subs.len() implies sub_list_wf(
        #[trigger] st1.subs[i],
        st1.effects.len() as int,
    ) by {
        if i < st.subs.len() {
            assert(st1.subs[i] == st.subs[i]);
        } else {
            assert(st1.subs[i] =~= Seq::<usize>::empty());
        }
    }
}

/// Registering a body preserves the state invariant, provided the body is
/// well-formed against the current slots and bodies.
pub proof fn lemma_wf_push_body(st: State, b: Seq<Step>)
    requires
        state_wf(st),
        body_wf(b, kinds(st.values), st.bodies.len() as int),
        b.len() <= usize::MAX,
    ensures
        state_wf(State { bodies: st.bodies.push(b), ..st }),
{
    let st1 = State { bodies: st.bodies.push(b), ..st };
    assert forall|k: int| 0 <= k < st1.bodies.len() implies body_wf(
        #[trigger] st1.bodies[k],
        kinds(st1.values),
        st1.bodies.len() as int,
    ) by {
        if k < st.bodies.len() {
            lemma_body_wf_mono(
                st.bodies[k],
                kinds(st.values),
                st.bodies.len() as int,
                kinds(st1.values),
                st1.bodies.len() as int,
            );
        } else {
            assert(st1.bodies[k] == b);
            lemma_body_wf_mono(
                b,
                kinds(st.values),
                st.bodies.len() as int,
                kinds(st1.values),
                st1.bodies.len() as int,
            );
        }
    }
}

/// Creating an effect from a registered body preserves the state invariant.
pub proof fn lemma_wf_push_effect(st: State, b: usize)
    requires
        state_wf(st),
        b < st.bodies.len(),
    ensures
        state_wf(State { effects: st.effects.push(b), ..st }),
{
    let st1 = State { effects: st.effects.push(b), ..st };
    assert forall|i: int| 0 <= i < st1.subs.len() implies sub_list_wf(
        #[trigger] st1.subs[i],
        st1.effects.len() as int,
    ) by {
        assert(sub_list_wf(st.subs[i], st.effects.len() as int));
        assert forall|j: int| 0 <= j < st1.subs[i].len() implies (#[trigger] st1.subs[i][j])
            < st1.effects.len() by {
            assert(st.subs[i][j] < st.effects.len());
        }
    }
}

/// Overwriting a slot with a value of its shape preserves the state
/// invariant and every slot's shape.
pub proof fn lemma_wf_update_value(st: State, i: int, v: Value)
    requires
        state_wf(st),
        0 <= i < st.values.len(),
        kind_of(v) == kind_of(st.values[i]),
    ensures
        state_wf(State { values: st.values.update(i, v), ..st }),
        kinds(st.values.update(i, v)) == kinds(st.values),
{
    lemma_kinds_update(st.values, i, v);
}

/// A machine with no activations stays put.
pub proof fn lemma_stutter(m: Machine, n: nat)
    requires
        m.frames.len() == 0,
    ensures
        iterate(m, n) == m,
    decreases n,
{
    if n > 0 {
        lemma_stutter(m, (n - 1) as nat);
    }
}

/// Running `a + b` steps is running `a` steps, then `b`.
pub proof fn lemma_iterate_add(m: Machine, a: nat, b: nat)
    ensures
        iterate(m, a + b) == iterate(iterate(m, a), b),
    decreases b,
{
    if b > 0 {
        lemma_iterate_add(m, a, (b - 1) as nat);
        assert(iterate(m, a + b) == next(iterate(m, (a + b - 1) as nat)));
    }
}

/// Running `n > 0` steps is one step, then `n - 1` more.
pub proof fn lemma_iterate_shift(m: Machine, n: nat)
    requires
        n > 0,
    ensures
        iterate(m, n) == iterate(next(m), (n - 1) as nat),
{
    lemma_iterate_add(m, 1, (n - 1) as nat);
    assert(iterate(m, 1) == next(iterate(m, 0)));
}

/// The step a live machine is about to execute is well-formed.
pub proof fn lemma_cur_step_wf(m: Machine)
    requires
        machine_wf(m),
        live(m),
    ensures
        step_wf(cur_step(m), kinds(m.st.values), m.st.bodies.len() as int),
        kinds(m.st.values).len() == m.st.values.len(),
        running(m) < m.st.effects.len(),
{
    assert(frame_wf(m.frames[m.frames.len() - 1], m.st));
    let e = running(m);
    let prog = prog_of(m.st, e as int);
    assert(body_wf(prog, kinds(m.st.values), m.st.bodies.len() as int));
    assert(cur_step(m) == prog[m.frames.last().1 as int]);
}

/// The machine is deterministic: every completed run from one start state
/// ends in the same store.
pub proof fn lemma_run_deterministic(m0: Machine, st1: State, st2: State)
    requires
        runs_to(m0, st1),
        runs_to(m0, st2),
    ensures
        st1 == st2,
{
    let n1 = choose|n: nat|
        #[trigger] iterate(m0, n) == (Machine { st: st1, frames: Seq::empty() });
    let n2 = choose|n: nat|
        #[trigger] iterate(m0, n) == (Machine { st: st2, frames: Seq::empty() });
    if n1 <= n2 {
        lemma_iterate_add(m0, n1, (n2 - n1) as nat);
        lemma_stutter(iterate(m0, n1), (n2 - n1) as nat);
    } else {
        lemma_iterate_add(m0, n2, (n1 - n2) as nat);
        lemma_stutter(iterate(m0, n2), (n1 - n2) as nat);
    }
}

/// Every sequence is a prefix of itself.
pub proof fn lemma_prefix_refl<A>(s: Seq<A>)
    ensures
        s.is_prefix_of(s),
{
    assert(s =~= s.subrange(0, s.len() as int));
}

/// A sequence is a prefix of itself extended.
pub proof fn lemma_prefix_push<A>(s: Seq<A>, x: A)
    ensures
        s.is_prefix_of(s.push(x)),
{
    assert(s =~= s.push(x).subrange(0, s.len() as int));
}

/// Being a prefix is transitive.
pub proof fn lemma_prefix_trans<A>(a: Seq<A>, b: Seq<A>, c: Seq<A>)
    requires
        a.is_prefix_of(b),
        b.is_prefix_of(c),
    ensures
        a.is_prefix_of(c),
{
    assert forall|i: int| 0 <= i < a.len() implies a[i] == c.subrange(0, a.len() as int)[i] by {
        assert(a[i] == b.subrange(0, a.len() as int)[i]);
        assert(b[i] == c.subrange(0, b.len() as int)[i]);
    }
    assert(a =~= c.subrange(0, a.len() as int));
}

/// Writing a value of the slot's shape leaves every slot's shape unchanged.
pub proof fn lemma_kinds_update(vals: Seq<Value>, i: int, v: Value)
    requires
        0 <= i < vals.len(),
        kind_of(v) == kind_of(vals[i]),
    ensures
        kinds(vals.update(i, v)) == kinds(vals),
{
    assert(kinds(vals.update(i, v)) =~= kinds(vals));
}

/// Every activation a write schedules is a fresh run of a recorded
/// subscriber, and never of the excluded effect.
pub proof fn lemma_pending_elems(l: Seq<usize>, excl: Option<usize>)
    ensures
        forall|j: int|
            0 <= j < pending(l, excl).len() ==> {
                let f = #[trigger] pending(l, excl)[j];
                l.contains(f.0) && f.1 == 0 && Some(f.0) != excl
            },
    decreases l.len(),
{
    if l.len() > 0 {
        lemma_pending_elems(l.drop_last(), excl);
        assert forall|j: int| 0 <= j < pending(l, excl).len() implies {
            let f = #[trigger] pending(l, excl)[j];
            l.contains(f.0) && f.1 == 0 && Some(f.0) != excl
        } by {
            let f = pending(l, excl)[j];
            let rest = pending(l.drop_last(), excl);
            if excl == Some(l.last()) {
                assert(rest.contains(f) || f == (l.last(), 0usize)) by {
                    assert(rest[j] == f);
                }
                assert(l.drop_last().contains(f.0));
                let w = choose|k: int| 0 <= k < l.drop_last().len() && l.drop_last()[k] == f.0;
                assert(l[w] == f.0);
            } else {
                if j == 0 {
                    assert(f == (l.last(), 0usize));
                    assert(l[l.len() - 1] == f.0);
                } else {
                    assert(rest[j - 1] == f);
                    assert(l.drop_last().contains(f.0));
                    let w = choose|k: int|
                        0 <= k < l.drop_last().len() && l.drop_last()[k] == f.0;
                    assert(l[w] == f.0);
                }
            }
        }
    }
}

/// Scheduling distributes over concatenation of subscriber lists: the later
/// part of the list is scheduled below the earlier part.
pub proof fn lemma_pending_concat(a: Seq<usize>, b: Seq<usize>, excl: Option<usize>)
    ensures
        pending(a + b, excl) == pending(b, excl) + pending(a, excl),
    decreases b.len(),
{
    if b.len() == 0 {
        assert(a + b =~= a);
        assert(pending(b, excl) + pending(a, excl) =~= pending(a, excl));
    } else {
        lemma_pending_concat(a, b.drop_last(), excl);
        assert((a + b).drop_last() =~= a + b.drop_last());
        assert((a + b).last() == b.last());
        if excl == Some(b.last()) {
            assert(pending(b, excl) == pending(b.drop_last(), excl));
        } else {
            assert(pending(a + b, excl) == seq![(b.last(), 0usize)] + (pending(
                b.drop_last(),
                excl,
            ) + pending(a, excl)));
            assert(seq![(b.last(), 0usize)] + (pending(b.drop_last(), excl) + pending(a, excl))
                =~= (seq![(b.last(), 0usize)] + pending(b.drop_last(), excl)) + pending(a, excl));
        }
    }
}

/// One machine step preserves the invariant. It never removes a slot, never
/// changes a slot's shape, never unregisters a body or an effect, never drops
/// a subscription, and only appends to the log.
pub proof fn lemma_next_preserves(m: Machine)
    requires
        machine_wf(m),
    ensures
        machine_wf(next(m)),
        next(m).st.values.len() == m.st.values.len(),
        kinds(next(m).st.values) == kinds(m.st.values),
        next(m).st.bodies == m.st.bodies,
        m.st.effects.is_prefix_of(next(m).st.effects),
        next(m).st.subs.len() == m.st.subs.len(),
        forall|i: int|
            0 <= i < m.st.subs.len() ==> (#[trigger] m.st.subs[i]).is_prefix_of(
                next(m).st.subs[i],
            ),
        m.st.log.is_prefix_of(next(m).st.log),
{
    let m1 = next(m);
    if m.frames.len() == 0 || !live(m) {
        assert(m1.st == m.st);
        lemma_prefix_refl(m.st.effects);
        lemma_prefix_refl(m.st.log);
        assert forall|i: int| 0 <= i < m.st.subs.len() implies (
        #[trigger] m.st.subs[i]).is_prefix_of(m1.st.subs[i]) by {
            lemma_prefix_refl(m.st.subs[i]);
        }
        if m.frames.len() > 0 {
            assert forall|i: int| 0 <= i < m1.frames.len() implies frame_wf(
                #[trigger] m1.frames[i],
                m1.st,
            ) by {
                assert(m1.frames[i] == m.frames[i]);
            }
        }
    } else {
        let e = running(m);
        let pc = m.frames.last().1;
        assert(frame_wf(m.frames[m.frames.len() - 1], m.st));
        let prog = prog_of(m.st, e as int);
        assert(body_wf(prog, kinds(m.st.values), m.st.bodies.len() as int));
        let s = cur_step(m);
        assert(step_wf(s, kinds(m.st.values), m.st.bodies.len() as int)) by {
            assert(s == prog[pc as int]);
        }
        assert(kinds(m.st.values).len() == m.st.values.len());
        let fr = bump_top(m.frames);
        assert forall|i: int| 0 <= i < fr.len() implies frame_wf(#[trigger] fr[i], m.st) by {
            if i < fr.len() - 1 {
                assert(fr[i] == m.frames[i]);
            }
        }
        match s {
            Step::Read(h) => {
                let l = m.st.subs[h.id as int];
                assert(sub_list_wf(l, m.st.effects.len() as int));
                assert forall|i: int| 0 <= i < m1.st.subs.len() implies sub_list_wf(
                    #[trigger] m1.st.subs[i],
                    m1.st.effects.len() as int,
                ) by {
                    if i == h.id as int && !l.contains(e) {
                        assert(m1.st.subs[i] == l.push(e));
                        assert forall|a: int, b: int| 0 <= a < b < l.push(e).len() implies l.push(
                            e,
                        )[a] != l.push(e)[b] by {
                            if b == l.len() as int {
                                assert(!l.contains(l.push(e)[b]));
                                assert(l[a] == l.push(e)[a]);
                            }
                        }
                    } else {
                        assert(m1.st.subs[i] == m.st.subs[i]);
                    }
                }
                assert forall|i: int| 0 <= i < m.st.subs.len() implies (
                #[trigger] m.st.subs[i]).is_prefix_of(m1.st.subs[i]) by {
                    if i == h.id as int && !l.contains(e) {
                        lemma_prefix_push(l, e);
                    } else {
                        lemma_prefix_refl(m.st.subs[i]);
                    }
                }
                lemma_prefix_refl(m.st.effects);
                lemma_prefix_push(m.st.log, (e, m.st.values[h.id as int]));
            },
            Step::Write(h, v) => {
                lemma_kinds_update(m.st.values, h.id as int, v);
                lemma_pending_elems(m.st.subs[h.id as int], Some(e));
                let l = m.st.subs[h.id as int];
                assert(sub_list_wf(l, m.st.effects.len() as int));
                let pend = pending(l, Some(e));
                assert forall|i: int| 0 <= i < m1.frames.len() implies frame_wf(
                    #[trigger] m1.frames[i],
                    m1.st,
                ) by {
                    if i < fr.len() {
                        assert(m1.frames[i] == fr[i]);
                    } else {
                        assert(m1.frames[i] == pend[i - fr.len()]);
                        let w = choose|k: int| 0 <= k < l.len() && l[k] == pend[i - fr.len()].0;
                        assert(l[w] < m.st.effects.len());
                    }
                }
                lemma_prefix_refl(m.st.effects);
                lemma_prefix_refl(m.st.log);
                assert forall|i: int| 0 <= i < m.st.subs.len() implies (
                #[trigger] m.st.subs[i]).is_prefix_of(m1.st.subs[i]) by {
                    lemma_prefix_refl(m.st.subs[i]);
                }
            },
            Step::Mutate(h, v) => {
                lemma_kinds_update(m.st.values, h.id as int, v);
                let l = m.st.subs[h.id as int];
                assert(sub_list_wf(l, m.st.effects.len() as int));
                let subs1 = add_sub(m.st.subs, h.id as int, e);
                let l1 = subs1[h.id as int];
                assert(sub_list_wf(l1, m.st.effects.len() as int)) by {
                    if !l.contains(e) {
                        assert(l1 == l.push(e));
                        assert forall|a: int, b: int| 0 <= a < b < l.push(e).len() implies l.push(
                            e,
                        )[a] != l.push(e)[b] by {
                            if b == l.len() as int {
                                assert(!l.contains(l.push(e)[b]));
                                assert(l[a] == l.push(e)[a]);
                            }
                        }
                    }
                }
                assert forall|i: int| 0 <= i < m1.st.subs.len() implies sub_list_wf(
                    #[trigger] m1.st.subs[i],
                    m1.st.effects.len() as int,
                ) by {
                    if i == h.id as int {
                        assert(m1.st.subs[i] == l1);
                    } else {
                        assert(m1.st.subs[i] == m.st.subs[i]);
                    }
                }
                lemma_pending_elems(l1, Some(e));
                let pend = pending(l1, Some(e));
                assert forall|i: int| 0 <= i < m1.frames.len() implies frame_wf(
                    #[trigger] m1.frames[i],
                    m1.st,
                ) by {
                    if i < fr.len() {
                        assert(m1.frames[i] == fr[i]);
                    } else {
                        assert(m1.frames[i] == pend[i - fr.len()]);
                        let w = choose|k: int| 0 <= k < l1.len() && l1[k] == pend[i - fr.len()].0;
                        assert(l1[w] < m.st.effects.len());
                    }
                }
                lemma_prefix_refl(m.st.effects);
                lemma_prefix_refl(m.st.log);
                assert forall|i: int| 0 <= i < m.st.subs.len() implies (
                #[trigger] m.st.subs[i]).is_prefix_of(m1.st.subs[i]) by {
                    if i == h.id as int && !l.contains(e) {
                        lemma_prefix_push(l, e);
                    } else {
                        lemma_prefix_refl(m.st.subs[i]);
                    }
                }
            },
            Step::Spawn(b) => {
                lemma_wf_push_effect(m.st, b);
                assert(m1.st == (State { effects: m.st.effects.push(b), ..m.st }));
                assert forall|i: int| 0 <= i < m1.frames.len() implies frame_wf(
                    #[trigger] m1.frames[i],
                    m1.st,
                ) by {
                    if i < fr.len() {
                        assert(m1.frames[i] == fr[i]);
                        assert(frame_wf(fr[i], m.st));
                        assert(m1.st.effects[fr[i].0 as int] == m.st.effects[fr[i].0 as int]);
                    }
                }
                lemma_prefix_push(m.st.effects, b);
                lemma_prefix_refl(m.st.log);
                assert forall|i: int| 0 <= i < m.st.subs.len() implies (
                #[trigger] m.st.subs[i]).is_prefix_of(m1.st.subs[i]) by {
                    lemma_prefix_refl(m.st.subs[i]);
                }
            },
        }
    }
}

/// Any number of machine steps preserves the invariant and the growth
/// discipline of `lemma_next_preserves`.
pub proof fn lemma_iterate_preserves(m: Machine, n: nat)
    requires
        machine_wf(m),
    ensures
        machine_wf(iterate(m, n)),
        iterate(m, n).st.values.len() == m.st.values.len(),
        kinds(iterate(m, n).st.values) == kinds(m.st.values),
        iterate(m, n).st.bodies == m.st.bodies,
        m.st.effects.is_prefix_of(iterate(m, n).st.effects),
        iterate(m, n).st.subs.len() == m.st.subs.len(),
        forall|i: int|
            0 <= i < m.st.subs.len() ==> (#[trigger] m.st.subs[i]).is_prefix_of(
                iterate(m, n).st.subs[i],
            ),
        m.st.log.is_prefix_of(iterate(m, n).st.log),
    decreases n,
{
    if n == 0 {
        lemma_prefix_refl(m.st.effects);
        lemma_prefix_refl(m.st.log);
        assert forall|i: int| 0 <= i < m.st.subs.len() implies (
        #[trigger] m.st.subs[i]).is_prefix_of(iterate(m, n).st.subs[i]) by {
            lemma_prefix_refl(m.st.subs[i]);
        }
    } else {
        let prev = iterate(m, (n - 1) as nat);
        lemma_iterate_preserves(m, (n - 1) as nat);
        lemma_next_preserves(prev);
        lemma_prefix_trans(m.st.effects, prev.st.effects, iterate(m, n).st.effects);
        lemma_prefix_trans(m.st.log, prev.st.log, iterate(m, n).st.log);
        assert forall|i: int| 0 <= i < m.st.subs.len() implies (
        #[trigger] m.st.subs[i]).is_prefix_of(iterate(m, n).st.subs[i]) by {
            lemma_prefix_trans(m.st.subs[i], prev.st.subs[i], iterate(m, n).st.subs[i]);
        }
    }
}

} // verus!
