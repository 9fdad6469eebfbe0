//! The executable engine: the stores, the handles, and the operations on them.

use vstd::prelude::*;

use crate::machine::{
    add_sub, body_wf, bump_top, cur_step, effect_start, frame_wf, initial, iterate, kinds, live,
    machine_wf, next, pending, prog_of, runs_to, sig_wf, state_wf, step_wf, terminates,
    write_start, Machine, State,
};
use crate::types::{kind_of, Signal, Step, Value};

verus! {

/// Per-slot views of a store of lists.
pub open spec fn views_of<T>(v: Vec<Vec<T>>) -> Seq<Seq<T>> {
    v@.map(|i: int, x: Vec<T>| x@)
}

/// The stores of one runtime instance. All of them are append-only: slots,
/// bodies and effects are never reclaimed, and subscriptions are never
/// removed — a long-lived instance grows without bound, by design.
#[derive(Debug)]
pub struct InnerContext {
    pub signal_values: Vec<Value>,
    pub signal_subscribers: Vec<Vec<usize>>,
    pub effect_bodies: Vec<Vec<Step>>,
    pub effects: Vec<usize>,
    pub run_log: Vec<(usize, Value)>,
}

impl View for InnerContext {
    type V = State;

    open spec fn view(&self) -> State {
        State {
            values: self.signal_values@,
            subs: views_of(self.signal_subscribers),
            bodies: views_of(self.effect_bodies),
            effects: self.effects@,
            log: self.run_log@,
        }
    }
}

impl InnerContext {
    /// A fresh instance: every store empty.
    pub fn new() -> (c: InnerContext)
        ensures
            c@ == initial(),
    {
        let c = InnerContext {
            signal_values: Vec::new(),
            signal_subscribers: Vec::new(),
            effect_bodies: Vec::new(),
            effects: Vec::new(),
            run_log: Vec::new(),
        };
        proof {
            assert(c@ =~~= initial());
        }
        c
    }
}

/// The runtime instance the public operations go through. It owns its
/// `InnerContext` outright and is threaded by reference through every
/// operation, instead of being leaked into a process-wide shared singleton:
/// the borrow discipline replaces the run-time exclusivity checks.
#[derive(Debug)]
pub struct Context {
    pub inner: InnerContext,
}

impl View for Context {
    type V = State;

    open spec fn view(&self) -> State {
        self.inner@
    }
}

impl Context {
    /// A fresh runtime with no signals, no bodies and no effects.
    pub fn new() -> (cx: Context)
        ensures
            cx@ == initial(),
            state_wf(cx@),
    {
        let cx = Context { inner: InnerContext::new() };
        cx
    }

    /// Append a value to the store and hand back a handle bound to the new
    /// slot and to the value's shape. Creation never fails and never runs an
    /// effect; the new slot starts with no subscribers.
    pub fn create_signal(&mut self, val: Value) -> (s: Signal)
        requires
            state_wf(old(self)@),
        ensures
            state_wf(final(self)@),
            final(self)@ == (State {
                values: old(self)@.values.push(val),
                subs: old(self)@.subs.push(Seq::empty()),
                ..old(self)@
            }),
            s == (Signal { id: old(self)@.values.len() as usize, kind: kind_of(val) }),
            sig_wf(s, final(self)@),
    {
        let id = self.inner.signal_values.len();
        let ghost prev = self@;
        self.inner.signal_values.push(val);
        self.inner.signal_subscribers.push(Vec::new());
        let s = Signal { id, kind: kind_of_exec(&val) };
        proof {
            assert(self@ =~~= (State {
                values: prev.values.push(val),
                subs: prev.subs.push(Seq::empty()),
                ..prev
            }));
            crate::machine::lemma_wf_push_signal(prev, val);
        }
        s
    }
}

/// The shape of a value, computed.
fn kind_of_exec(v: &Value) -> (k: crate::types::Kind)
    ensures
        k == kind_of(*v),
{
    match v {
        Value::Int(_) => crate::types::Kind::Int,
        Value::Flag(_) => crate::types::Kind::Flag,
    }
}

/// Linear membership test on a subscriber list.
fn contains_id(l: &Vec<usize>, x: usize) -> (b: bool)
    ensures
        b == l@.contains(x),
{
    let mut j: usize = 0;
    while j < l.len()
        invariant
            j <= l@.len(),
            forall|t: int| 0 <= t < j ==> l@[t] != x,
        decreases l@.len() - j,
    {
        if l[j] == x {
            return true;
        }
        j += 1;
    }
    false
}

impl Context {
    /// Subscribe effect `eff` to slot `sig`, with set semantics: re-adding an
    /// existing subscription changes nothing.
    fn try_add_sub(&mut self, sig: usize, eff: usize)
        requires
            sig < old(self)@.subs.len(),
        ensures
            final(self)@ == (State {
                subs: add_sub(old(self)@.subs, sig as int, eff),
                ..old(self)@
            }),
    {
        let ghost prev = self@;
        let already = contains_id(&self.inner.signal_subscribers[sig], eff);
        if !already {
            let l = &mut self.inner.signal_subscribers[sig];
            l.push(eff);
        }
        proof {
            assert(self@ =~~= (State { subs: add_sub(prev.subs, sig as int, eff), ..prev }));
        }
    }

    /// Schedule every recorded subscriber of the written slot, skipping the
    /// excluded running effect: one fresh activation per subscriber, the
    /// earliest subscriber pushed last, so it runs first.
    fn schedule(&self, frames: &mut Vec<(usize, usize)>, sig: usize, excl: Option<usize>)
        requires
            sig < self@.subs.len(),
        ensures
            final(frames)@ == old(frames)@ + pending(self@.subs[sig as int], excl),
    {
        let l = &self.inner.signal_subscribers[sig];
        let ghost lv = self@.subs[sig as int];
        proof {
            assert(lv == l@);
        }
        let mut k: usize = l.len();
        proof {
            assert(lv.subrange(k as int, lv.len() as int) =~= Seq::<usize>::empty());
            assert(frames@ =~= frames@ + pending(lv.subrange(k as int, lv.len() as int), excl));
        }
        while k > 0
            invariant
                k <= lv.len(),
                lv == l@,
                frames@ == old(frames)@ + pending(lv.subrange(k as int, lv.len() as int), excl),
            decreases k,
        {
            k -= 1;
            let s = l[k];
            let push_it = match excl {
                Some(x) => s != x,
                None => true,
            };
            if push_it {
                frames.push((s, 0));
            }
            proof {
                let hi = lv.subrange(k as int + 1, lv.len() as int);
                let hi2 = lv.subrange(k as int, lv.len() as int);
                assert(hi2 =~= seq![lv[k as int]] + hi);
                crate::machine::lemma_pending_concat(seq![lv[k as int]], hi, excl);
                let single = seq![lv[k as int]];
                assert(single.drop_last() =~= Seq::<usize>::empty());
                assert(pending(Seq::<usize>::empty(), excl) =~= Seq::<(usize, usize)>::empty());
                assert(pending(single.drop_last(), excl) =~= Seq::<(usize, usize)>::empty());
                assert(single.last() == lv[k as int]);
                if excl == Some(lv[k as int]) {
                    assert(pending(single, excl) =~= Seq::<(usize, usize)>::empty());
                } else {
                    assert(pending(single, excl) =~= seq![(lv[k as int], 0usize)] + Seq::<(
                        usize,
                        usize,
                    )>::empty());
                    assert(seq![(lv[k as int], 0usize)] + Seq::<(usize, usize)>::empty() =~= seq![
                        (lv[k as int], 0usize),
                    ]);
                }
                assert(frames@ =~= old(frames)@ + pending(hi2, excl));
            }
        }
        proof {
            assert(lv.subrange(0, lv.len() as int) =~= lv);
        }
    }

    /// The engine loop: execute activations until none is pending. Each pass
    /// performs exactly one machine step: a finished topmost activation is
    /// discarded, which resumes the one below it; otherwise the running
    /// effect's next step executes. A run that keeps re-triggering effects
    /// through intermediaries need not terminate; whenever this returns, the
    /// machine has run to completion and left exactly the resulting state.
    fn run_frames(&mut self, frames: Vec<(usize, usize)>)
        requires
            machine_wf(Machine { st: old(self)@, frames: frames@ }),
            terminates(Machine { st: old(self)@, frames: frames@ }),
        ensures
            state_wf(final(self)@),
            runs_to(Machine { st: old(self)@, frames: frames@ }, final(self)@),
            final(self)@.values.len() == old(self)@.values.len(),
            kinds(final(self)@.values) == kinds(old(self)@.values),
            final(self)@.bodies == old(self)@.bodies,
            old(self)@.effects.is_prefix_of(final(self)@.effects),
            final(self)@.subs.len() == old(self)@.subs.len(),
            forall|i: int|
                0 <= i < old(self)@.subs.len() ==> (#[trigger] old(self)@.subs[i]).is_prefix_of(
                    final(self)@.subs[i],
                ),
            old(self)@.log.is_prefix_of(final(self)@.log),
    {
        let mut frames = frames;
        let ghost m0 = Machine { st: self@, frames: frames@ };
        let ghost mut n: nat = 0;
        let ghost nmax = choose|k: nat| (#[trigger] iterate(m0, k)).frames.len() == 0;
        while frames.len() > 0
            invariant
                machine_wf(m0),
                iterate(m0, n) == (Machine { st: self@, frames: frames@ }),
                n <= nmax,
                iterate(m0, nmax).frames.len() == 0,
            decreases nmax - n,
        {
            proof {
                assert(n < nmax);
                crate::machine::lemma_iterate_preserves(m0, n);
            }
            let ghost mcur = Machine { st: self@, frames: frames@ };
            let flen = frames.len();
            let f = frames[flen - 1];
            let e = f.0;
            let pc = f.1;
            proof {
                assert(frame_wf(mcur.frames[mcur.frames.len() - 1], mcur.st));
            }
            let bi = self.inner.effects[e];
            let blen = self.inner.effect_bodies[bi].len();
            proof {
                assert(self.inner.effect_bodies@[bi as int]@ == prog_of(mcur.st, e as int));
            }
            if pc == blen {
                frames.pop();
                proof {
                    assert(!live(mcur));
                    assert(frames@ =~= mcur.frames.drop_last());
                    assert((Machine { st: self@, frames: frames@ }) =~~= next(mcur));
                    n = n + 1;
                }
            } else {
                let step = self.inner.effect_bodies[bi][pc];
                frames.pop();
                frames.push((e, pc + 1));
                proof {
                    assert(live(mcur));
                    assert(cur_step(mcur) == step);
                    assert(frames@ =~= bump_top(mcur.frames));
                    assert(step_wf(step, kinds(mcur.st.values), mcur.st.bodies.len() as int)) by {
                        assert(body_wf(
                            prog_of(mcur.st, e as int),
                            kinds(mcur.st.values),
                            mcur.st.bodies.len() as int,
                        ));
                        assert(prog_of(mcur.st, e as int)[pc as int] == step);
                    }
                    assert(kinds(mcur.st.values).len() == mcur.st.values.len());
                }
                match step {
                    Step::Read(h) => {
                        let v = self.inner.signal_values[h.id];
                        self.inner.run_log.push((e, v));
                        proof {
                            assert(self@ =~~= (State { log: mcur.st.log.push((e, v)), ..mcur.st }));
                        }
                        self.try_add_sub(h.id, e);
                        proof {
                            assert((Machine { st: self@, frames: frames@ }) =~~= next(mcur));
                        }
                    },
                    Step::Write(h, v) => {
                        self.inner.signal_values[h.id] = v;
                        proof {
                            assert(self@ =~~= (State {
                                values: mcur.st.values.update(h.id as int, v),
                                ..mcur.st
                            }));
                        }
                        self.schedule(&mut frames, h.id, Some(e));
                        proof {
                            assert((Machine { st: self@, frames: frames@ }) =~~= next(mcur));
                        }
                    },
                    Step::Mutate(h, v) => {
                        self.try_add_sub(h.id, e);
                        self.inner.signal_values[h.id] = v;
                        proof {
                            assert(self@ =~~= (State {
                                values: mcur.st.values.update(h.id as int, v),
                                subs: add_sub(mcur.st.subs, h.id as int, e),
                                ..mcur.st
                            }));
                        }
                        self.schedule(&mut frames, h.id, Some(e));
                        proof {
                            assert((Machine { st: self@, frames: frames@ }) =~~= next(mcur));
                        }
                    },
                    Step::Spawn(b) => {
                        let ne = self.inner.effects.len();
                        self.inner.effects.push(b);
                        frames.push((ne, 0));
                        proof {
                            assert(self@ =~~= (State {
                                effects: mcur.st.effects.push(b),
                                ..mcur.st
                            }));
                            assert(frames@ =~= bump_top(mcur.frames).push((ne, 0usize)));
                            assert((Machine { st: self@, frames: frames@ }) =~~= next(mcur));
                        }
                    },
                }
                proof {
                    n = n + 1;
                }
            }
        }
        proof {
            assert(frames@ =~= Seq::<(usize, usize)>::empty());
            assert(iterate(m0, n) == (Machine { st: self@, frames: Seq::empty() }));
            crate::machine::lemma_iterate_preserves(m0, n);
        }
    }

    /// Run one effect to completion: one fresh activation of it, then the
    /// engine loop.
    fn run_effect(&mut self, effect_id: usize)
        requires
            state_wf(old(self)@),
            effect_id < old(self)@.effects.len(),
            terminates(Machine { st: old(self)@, frames: seq![(effect_id, 0usize)] }),
        ensures
            state_wf(final(self)@),
            runs_to(
                Machine { st: old(self)@, frames: seq![(effect_id, 0usize)] },
                final(self)@,
            ),
            final(self)@.values.len() == old(self)@.values.len(),
            kinds(final(self)@.values) == kinds(old(self)@.values),
            final(self)@.bodies == old(self)@.bodies,
            old(self)@.effects.is_prefix_of(final(self)@.effects),
            final(self)@.subs.len() == old(self)@.subs.len(),
            forall|i: int|
                0 <= i < old(self)@.subs.len() ==> (#[trigger] old(self)@.subs[i]).is_prefix_of(
                    final(self)@.subs[i],
                ),
            old(self)@.log.is_prefix_of(final(self)@.log),
    {
        let mut frames: Vec<(usize, usize)> = Vec::new();
        frames.push((effect_id, 0));
        proof {
            assert(frames@ =~= seq![(effect_id, 0usize)]);
        }
        self.run_frames(frames);
    }

    /// Register an effect body without running it. `create_effect` and
    /// `Step::Spawn` name bodies by the identity returned here: a body is
    /// written down once and can be instantiated as an effect many times.
    pub fn define_body(&mut self, body: Vec<Step>) -> (b: usize)
        requires
            state_wf(old(self)@),
            body_wf(body@, kinds(old(self)@.values), old(self)@.bodies.len() as int),
        ensures
            state_wf(final(self)@),
            b == old(self)@.bodies.len(),
            final(self)@ == (State { bodies: old(self)@.bodies.push(body@), ..old(self)@ }),
    {
        let ghost prev = self@;
        let ghost bv = body@;
        let blen = body.len();
        proof {
            assert(bv.len() == blen);
        }
        let b = self.inner.effect_bodies.len();
        self.inner.effect_bodies.push(body);
        proof {
            assert(self@ =~~= (State { bodies: prev.bodies.push(bv), ..prev }));
            crate::machine::lemma_wf_push_body(prev, bv);
        }
        b
    }

    /// Register the given body, append a new effect running it, and execute
    /// the effect's eager initial run at once, so that the dependencies of
    /// its first run are recorded before the call returns. Returns the new
    /// effect's identity.
    pub fn create_effect(&mut self, body: Vec<Step>) -> (e: usize)
        requires
            state_wf(old(self)@),
            body_wf(body@, kinds(old(self)@.values), old(self)@.bodies.len() as int),
            terminates(
                effect_start(
                    State { bodies: old(self)@.bodies.push(body@), ..old(self)@ },
                    old(self)@.bodies.len() as usize,
                ),
            ),
        ensures
            state_wf(final(self)@),
            e == old(self)@.effects.len(),
            final(self)@.bodies == old(self)@.bodies.push(body@),
            runs_to(
                effect_start(
                    State { bodies: old(self)@.bodies.push(body@), ..old(self)@ },
                    old(self)@.bodies.len() as usize,
                ),
                final(self)@,
            ),
            final(self)@.values.len() == old(self)@.values.len(),
            kinds(final(self)@.values) == kinds(old(self)@.values),
            old(self)@.effects.push((old(self)@.bodies.len() as usize)).is_prefix_of(
                final(self)@.effects,
            ),
            final(self)@.subs.len() == old(self)@.subs.len(),
            forall|i: int|
                0 <= i < old(self)@.subs.len() ==> (#[trigger] old(self)@.subs[i]).is_prefix_of(
                    final(self)@.subs[i],
                ),
            old(self)@.log.is_prefix_of(final(self)@.log),
    {
        let ghost prev = self@;
        let b = self.define_body(body);
        let ghost mid = self@;
        let e = self.inner.effects.len();
        self.inner.effects.push(b);
        proof {
            assert(self@ =~~= (State { effects: mid.effects.push(b), ..mid }));
            crate::machine::lemma_wf_push_effect(mid, b);
            assert(effect_start(mid, b) =~~= (Machine { st: self@, frames: seq![(e, 0usize)] }));
        }
        self.run_effect(e);
        e
    }
}

impl Signal {
    /// Read the slot this handle is bound to. Between public calls no effect
    /// is running, so a top-level read registers no dependency; inside an
    /// effect body a read is `Step::Read`, which does.
    pub fn get(&self, cx: &Context) -> (v: Value)
        requires
            sig_wf(*self, cx@),
        ensures
            v == cx@.values[self.id as int],
            kind_of(v) == self.kind,
    {
        cx.inner.signal_values[self.id]
    }

    /// The by-reference read accessor: for these plain copyable values it
    /// behaves exactly like `get`. Inside an effect body the counterpart is
    /// `Step::Read`.
    pub fn with_ref(&self, cx: &Context) -> (v: Value)
        requires
            sig_wf(*self, cx@),
        ensures
            v == cx@.values[self.id as int],
            kind_of(v) == self.kind,
    {
        self.get(cx)
    }

    /// Propagate a top-level write: schedule every recorded subscriber of
    /// this slot — no effect is running at top level, so none is excluded —
    /// and run the engine to completion.
    fn run_effects_on_subs(&self, cx: &mut Context)
        requires
            state_wf(old(cx)@),
            self.id < old(cx)@.subs.len(),
            terminates(
                Machine { st: old(cx)@, frames: pending(old(cx)@.subs[self.id as int], None) },
            ),
        ensures
            state_wf(final(cx)@),
            runs_to(
                Machine {
                    st: old(cx)@,
                    frames: pending(old(cx)@.subs[self.id as int], None),
                },
                final(cx)@,
            ),
            final(cx)@.values.len() == old(cx)@.values.len(),
            kinds(final(cx)@.values) == kinds(old(cx)@.values),
            final(cx)@.bodies == old(cx)@.bodies,
            old(cx)@.effects.is_prefix_of(final(cx)@.effects),
            final(cx)@.subs.len() == old(cx)@.subs.len(),
            forall|i: int|
                0 <= i < old(cx)@.subs.len() ==> (#[trigger] old(cx)@.subs[i]).is_prefix_of(
                    final(cx)@.subs[i],
                ),
            old(cx)@.log.is_prefix_of(final(cx)@.log),
    {
        let mut frames: Vec<(usize, usize)> = Vec::new();
        cx.schedule(&mut frames, self.id, None);
        proof {
            let l = cx@.subs[self.id as int];
            assert(frames@ =~= pending(l, None));
            crate::machine::lemma_pending_elems(l, None);
            assert forall|i: int| 0 <= i < frames@.len() implies frame_wf(
                #[trigger] frames@[i],
                cx@,
            ) by {
                let w = choose|k: int| 0 <= k < l.len() && l[k] == frames@[i].0;
                assert(l[w] < cx@.effects.len());
            }
        }
        cx.run_frames(frames);
    }

    /// Overwrite the slot, then propagate: every recorded subscriber re-runs,
    /// synchronously and one per write — a write of an equal value propagates
    /// like any other write. Writing does not subscribe the writer.
    pub fn set(&self, cx: &mut Context, val: Value)
        requires
            state_wf(old(cx)@),
            sig_wf(*self, old(cx)@),
            kind_of(val) == self.kind,
            terminates(write_start(old(cx)@, self.id as int, val)),
        ensures
            state_wf(final(cx)@),
            runs_to(write_start(old(cx)@, self.id as int, val), final(cx)@),
            sig_wf(*self, final(cx)@),
            final(cx)@.values.len() == old(cx)@.values.len(),
            kinds(final(cx)@.values) == kinds(old(cx)@.values),
            final(cx)@.bodies == old(cx)@.bodies,
            old(cx)@.effects.is_prefix_of(final(cx)@.effects),
            final(cx)@.subs.len() == old(cx)@.subs.len(),
            forall|i: int|
                0 <= i < old(cx)@.subs.len() ==> (#[trigger] old(cx)@.subs[i]).is_prefix_of(
                    final(cx)@.subs[i],
                ),
            old(cx)@.log.is_prefix_of(final(cx)@.log),
            old(cx)@.subs[self.id as int].len() == 0 ==> final(cx)@ == (State {
                values: old(cx)@.values.update(self.id as int, val),
                ..old(cx)@
            }),
    {
        let ghost prev = cx@;
        cx.inner.signal_values[self.id] = val;
        proof {
            assert(cx@ =~~= (State {
                values: prev.values.update(self.id as int, val),
                ..prev
            }));
            crate::machine::lemma_wf_update_value(prev, self.id as int, val);
            assert(write_start(prev, self.id as int, val) =~~= (Machine {
                st: cx@,
                frames: pending(cx@.subs[self.id as int], None),
            }));
        }
        self.run_effects_on_subs(cx);
        proof {
            assert(kinds(cx@.values)[self.id as int] == kind_of(cx@.values[self.id as int]));
            if prev.subs[self.id as int].len() == 0 {
                crate::laws::lemma_read_after_write(prev, self.id as int, val, cx@);
            }
        }
    }

    /// The in-place mutate accessor: overwrite and propagate, like `set`. At
    /// top level no effect is running, so nothing subscribes; inside an
    /// effect body the counterpart is `Step::Mutate`, which also subscribes
    /// the mutating effect to the slot it writes — behaviour that is
    /// deliberately kept.
    pub fn with_mut(&self, cx: &mut Context, val: Value)
        requires
            state_wf(old(cx)@),
            sig_wf(*self, old(cx)@),
            kind_of(val) == self.kind,
            terminates(write_start(old(cx)@, self.id as int, val)),
        ensures
            state_wf(final(cx)@),
            runs_to(write_start(old(cx)@, self.id as int, val), final(cx)@),
            sig_wf(*self, final(cx)@),
            final(cx)@.values.len() == old(cx)@.values.len(),
            kinds(final(cx)@.values) == kinds(old(cx)@.values),
            final(cx)@.bodies == old(cx)@.bodies,
            old(cx)@.effects.is_prefix_of(final(cx)@.effects),
            final(cx)@.subs.len() == old(cx)@.subs.len(),
            forall|i: int|
                0 <= i < old(cx)@.subs.len() ==> (#[trigger] old(cx)@.subs[i]).is_prefix_of(
                    final(cx)@.subs[i],
                ),
            old(cx)@.log.is_prefix_of(final(cx)@.log),
            old(cx)@.subs[self.id as int].len() == 0 ==> final(cx)@ == (State {
                values: old(cx)@.values.update(self.id as int, val),
                ..old(cx)@
            }),
    {
        self.set(cx, val)
    }
}

} // verus!
