//! The headline properties of the engine, proved of the machine model.
//!
//! Each public proof function here states one guarantee of the runtime in
//! terms of the same machine model that the public operations' contracts use:
//! read-after-write, dependency registration (each subscriber re-runs exactly
//! once per write), self-exclusion, no re-run without a recorded dependency,
//! and re-entrant nesting of effect creation.

use vstd::prelude::*;

use crate::machine::{
    add_sub, bump_top, cur_step, frame_wf, iterate, live, machine_wf, next, pending, prog_at,
    running, runs_to, state_wf, sub_list_wf, write_start, Machine, State,
};
use crate::types::{kind_of, Signal, Step, Value};

verus! {

/// Read-after-write: writing a slot nobody subscribes to runs no effect, so
/// it changes exactly that slot, to exactly the written value; the read that
/// follows returns it.
pub proof fn lemma_read_after_write(st0: State, i: int, v: Value, st1: State)
    requires
        state_wf(st0),
        0 <= i < st0.values.len(),
        st0.subs[i].len() == 0,
        runs_to(write_start(st0, i, v), st1),
    ensures
        st1 == (State { values: st0.values.update(i, v), ..st0 }),
        st1.values[i] == v,
{
    let m0 = write_start(st0, i, v);
    assert(m0.frames =~= Seq::<(usize, usize)>::empty());
    let n = choose|n: nat|
        #[trigger] iterate(m0, n) == (Machine { st: st1, frames: Seq::empty() });
    crate::machine::lemma_stutter(m0, n);
}

/// Self-exclusion: while an effect runs, a write it performs never schedules
/// that effect itself. An effect subscribed to the very slot it writes is
/// therefore not re-entered during its own run: every activation the write
/// adds belongs to some other effect.
pub proof fn lemma_self_exclusion(m: Machine)
    requires
        machine_wf(m),
        live(m),
        cur_step(m) is Write || cur_step(m) is Mutate,
    ensures
        next(m).frames.len() >= m.frames.len(),
        forall|j: int|
            m.frames.len() <= j < next(m).frames.len() ==> (#[trigger] next(m).frames[j]).0
                != running(m),
{
    crate::machine::lemma_cur_step_wf(m);
    let e = running(m);
    let fr = bump_top(m.frames);
    match cur_step(m) {
        Step::Write(h, v) => {
            let l = m.st.subs[h.id as int];
            crate::machine::lemma_pending_elems(l, Some(e));
            assert forall|j: int|
                m.frames.len() <= j < next(m).frames.len() implies (
            #[trigger] next(m).frames[j]).0 != e by {
                assert(next(m).frames[j] == pending(l, Some(e))[j - fr.len()]);
            }
        },
        Step::Mutate(h, v) => {
            let l1 = add_sub(m.st.subs, h.id as int, e)[h.id as int];
            crate::machine::lemma_pending_elems(l1, Some(e));
            assert forall|j: int|
                m.frames.len() <= j < next(m).frames.len() implies (
            #[trigger] next(m).frames[j]).0 != e by {
                assert(next(m).frames[j] == pending(l1, Some(e))[j - fr.len()]);
            }
        },
        _ => {},
    }
}

/// A mutate-access also subscribes: after the running effect executes a
/// mutate step, it is recorded as a subscriber of the slot it wrote — unlike
/// a plain write, which never subscribes the writer. Deliberately kept
/// behaviour of the in-place accessor.
pub proof fn lemma_mutate_subscribes(m: Machine)
    requires
        machine_wf(m),
        live(m),
        cur_step(m) is Mutate,
    ensures
        next(m).st.subs[cur_step(m)->Mutate_0.id as int].contains(running(m)),
{
    crate::machine::lemma_cur_step_wf(m);
    let h = cur_step(m)->Mutate_0;
    let e = running(m);
    let l = m.st.subs[h.id as int];
    if !l.contains(e) {
        assert(next(m).st.subs[h.id as int] == l.push(e));
        assert(l.push(e)[l.len() as int] == e);
    }
}

/// Re-entrant nesting, arrival: spawning inside a running effect activates
/// the new effect on top of the stack, so it is the running effect from the
/// next step on. Its identity is fresh — distinct from its creator and not
/// yet recorded in any subscriber list — and the creator sits directly below,
/// suspended just past the spawn step, to resume when the child's run is
/// over.
pub proof fn lemma_reentrant_nesting(m: Machine)
    requires
        machine_wf(m),
        live(m),
        cur_step(m) is Spawn,
        m.st.effects.len() < usize::MAX,
    ensures
        next(m).frames.len() == m.frames.len() + 1,
        next(m).frames.last().0 == m.st.effects.len(),
        next(m).frames.last().1 == 0,
        next(m).frames.drop_last() == bump_top(m.frames),
        next(m).frames.last().0 != running(m),
        forall|i: int|
            0 <= i < m.st.subs.len() ==> !(#[trigger] m.st.subs[i]).contains(
                next(m).frames.last().0,
            ),
{
    crate::machine::lemma_cur_step_wf(m);
    assert(next(m).frames.drop_last() =~= bump_top(m.frames));
    let fresh = next(m).frames.last().0;
    assert(fresh == m.st.effects.len());
    assert forall|i: int| 0 <= i < m.st.subs.len() implies !(#[trigger] m.st.subs[i]).contains(
        fresh,
    ) by {
        if m.st.subs[i].contains(fresh) {
            assert(sub_list_wf(m.st.subs[i], m.st.effects.len() as int));
            let w = choose|k: int| 0 <= k < m.st.subs[i].len() && m.st.subs[i][k] == fresh;
            assert(m.st.subs[i][w] < m.st.effects.len());
        }
    }
}

/// Re-entrant nesting, attribution: a read is attributed to the running
/// (topmost) effect alone. Its log entry and its new subscription both name
/// the running effect — after a spawn that is the child, and once the child's
/// activation is gone it is the creator again — and nothing else changes.
pub proof fn lemma_read_attribution(m: Machine)
    requires
        machine_wf(m),
        live(m),
        cur_step(m) is Read,
    ensures
        next(m).st.log == m.st.log.push(
            (running(m), m.st.values[cur_step(m)->Read_0.id as int]),
        ),
        next(m).st.subs == add_sub(m.st.subs, cur_step(m)->Read_0.id as int, running(m)),
        next(m).st.values == m.st.values,
        next(m).st.effects == m.st.effects,
        next(m).st.bodies == m.st.bodies,
        next(m).frames == bump_top(m.frames),
{
}

/// Re-entrant nesting, return: when the running effect's body is finished its
/// activation vanishes, and the effect below — its creator or scheduler —
/// resumes exactly where it stopped: the save/restore of the running-effect
/// marker.
pub proof fn lemma_frame_restore(m: Machine)
    requires
        m.frames.len() > 0,
        !live(m),
    ensures
        next(m).st == m.st,
        next(m).frames == m.frames.drop_last(),
{
}

/// A body that only reads: no step of it writes, mutates or spawns.
pub open spec fn readonly_body(b: Seq<Step>) -> bool {
    forall|i: int| 0 <= i < b.len() ==> (#[trigger] b[i]) is Read
}

/// The slot a read step names.
pub open spec fn read_slot(s: Step) -> int {
    s->Read_0.id as int
}

/// The log entries effect `e` appends by running the read-only steps `b`
/// against the store `vals`: one per step, in order.
pub open spec fn reads_of(e: usize, b: Seq<Step>, vals: Seq<Value>) -> Seq<(usize, Value)> {
    Seq::new(b.len(), |i: int| (e, vals[read_slot(b[i])]))
}

/// What remains of a frame's body.
pub open spec fn remaining(
    bodies: Seq<Seq<Step>>,
    effects: Seq<usize>,
    f: (usize, usize),
) -> Seq<Step> {
    prog_at(bodies, effects, f.0 as int).subrange(
        f.1 as int,
        prog_at(bodies, effects, f.0 as int).len() as int,
    )
}

/// The log entries the pending activations will append, topmost activation
/// first, when every pending body is read-only — the store never changes
/// during such a run.
pub open spec fn frame_reads(
    frames: Seq<(usize, usize)>,
    bodies: Seq<Seq<Step>>,
    effects: Seq<usize>,
    vals: Seq<Value>,
) -> Seq<(usize, Value)>
    decreases frames.len(),
{
    if frames.len() == 0 {
        Seq::empty()
    } else {
        reads_of(frames.last().0, remaining(bodies, effects, frames.last()), vals)
            + frame_reads(frames.drop_last(), bodies, effects, vals)
    }
}

/// Steps left before the stack empties, when no step schedules new work.
pub open spec fn ro_measure(
    frames: Seq<(usize, usize)>,
    bodies: Seq<Seq<Step>>,
    effects: Seq<usize>,
) -> nat
    decreases frames.len(),
{
    if frames.len() == 0 {
        0
    } else {
        ro_measure(frames.drop_last(), bodies, effects) + remaining(
            bodies,
            effects,
            frames.last(),
        ).len() + 1
    }
}

/// Every pending activation runs a read-only body.
pub open spec fn frames_readonly(
    frames: Seq<(usize, usize)>,
    bodies: Seq<Seq<Step>>,
    effects: Seq<usize>,
) -> bool {
    forall|i: int|
        0 <= i < frames.len() ==> readonly_body(
            prog_at(bodies, effects, (#[trigger] frames[i]).0 as int),
        )
}

/// A run whose pending activations are all read-only terminates, runs each
/// activation to the end of its body, changes no value, creates no effect,
/// and appends exactly the reads of those activations to the log.
proof fn lemma_readonly_run(m: Machine)
    requires
        machine_wf(m),
        frames_readonly(m.frames, m.st.bodies, m.st.effects),
    ensures
        ({
            let mf = iterate(m, ro_measure(m.frames, m.st.bodies, m.st.effects));
            &&& mf.frames.len() == 0
            &&& mf.st.values == m.st.values
            &&& mf.st.bodies == m.st.bodies
            &&& mf.st.effects == m.st.effects
            &&& mf.st.log == m.st.log + frame_reads(
                m.frames,
                m.st.bodies,
                m.st.effects,
                m.st.values,
            )
        }),
    decreases ro_measure(m.frames, m.st.bodies, m.st.effects),
{
    let bodies = m.st.bodies;
    let effects = m.st.effects;
    let vals = m.st.values;
    let meas = ro_measure(m.frames, bodies, effects);
    if m.frames.len() == 0 {
        assert(meas == 0);
        assert(m.st.log + frame_reads(m.frames, bodies, effects, vals) =~= m.st.log);
    } else {
        let top = m.frames.last();
        assert(frame_wf(m.frames[m.frames.len() - 1], m.st));
        let m1 = next(m);
        crate::machine::lemma_next_preserves(m);
        crate::machine::lemma_iterate_shift(m, meas);
        if !live(m) {
            assert(top.1 == prog_at(bodies, effects, top.0 as int).len());
            assert(remaining(bodies, effects, top) =~= Seq::<Step>::empty());
            assert(reads_of(top.0, remaining(bodies, effects, top), vals) =~= Seq::<(
                usize,
                Value,
            )>::empty());
            assert(m1.st == m.st);
            assert(m1.frames == m.frames.drop_last());
            assert(ro_measure(m1.frames, bodies, effects) == meas - 1);
            assert(frames_readonly(m1.frames, bodies, effects)) by {
                assert forall|i: int| 0 <= i < m1.frames.len() implies readonly_body(
                    prog_at(bodies, effects, (#[trigger] m1.frames[i]).0 as int),
                ) by {
                    assert(m1.frames[i] == m.frames[i]);
                }
            }
            lemma_readonly_run(m1);
            assert(frame_reads(m.frames, bodies, effects, vals) =~= frame_reads(
                m.frames.drop_last(),
                bodies,
                effects,
                vals,
            ));
        } else {
            crate::machine::lemma_cur_step_wf(m);
            let s = cur_step(m);
            assert(s is Read) by {
                assert(readonly_body(prog_at(bodies, effects, top.0 as int)));
                assert(s == prog_at(bodies, effects, top.0 as int)[top.1 as int]);
            }
            let h = s->Read_0;
            let e = running(m);
            let fr = bump_top(m.frames);
            assert(m1.st.values == vals);
            assert(m1.st.bodies == bodies);
            assert(m1.st.effects == effects);
            assert(m1.st.log == m.st.log.push((e, vals[h.id as int])));
            assert(m1.frames == fr);
            assert(frames_readonly(fr, bodies, effects)) by {
                assert forall|i: int| 0 <= i < fr.len() implies readonly_body(
                    prog_at(bodies, effects, (#[trigger] fr[i]).0 as int),
                ) by {
                    assert(fr[i].0 == m.frames[i].0);
                }
            }
            let rem = remaining(bodies, effects, top);
            let newtop = fr.last();
            let rem1 = remaining(bodies, effects, newtop);
            assert(prog_at(bodies, effects, top.0 as int).len() <= usize::MAX) by {
                assert(effects[top.0 as int] < bodies.len());
                assert(bodies[effects[top.0 as int] as int].len() <= usize::MAX);
            }
            assert(newtop.1 == top.1 + 1);
            assert(rem =~= seq![s] + rem1);
            assert(fr.drop_last() =~= m.frames.drop_last());
            assert(ro_measure(fr, bodies, effects) == ro_measure(
                fr.drop_last(),
                bodies,
                effects,
            ) + rem1.len() + 1);
            assert(ro_measure(fr, bodies, effects) == meas - 1);
            lemma_readonly_run(m1);
            let mf = iterate(m1, (meas - 1) as nat);
            assert(mf == iterate(m, meas));
            assert(reads_of(e, rem, vals) =~= seq![(e, vals[h.id as int])] + reads_of(
                e,
                rem1,
                vals,
            ));
            assert(frame_reads(fr, bodies, effects, vals) == reads_of(e, rem1, vals)
                + frame_reads(m.frames.drop_last(), bodies, effects, vals));
            assert(frame_reads(m.frames, bodies, effects, vals) == reads_of(e, rem, vals)
                + frame_reads(m.frames.drop_last(), bodies, effects, vals));
            assert(mf.st.log =~= m.st.log + frame_reads(m.frames, bodies, effects, vals));
        }
    }
}

/// The log entries a top-level write appends: each recorded subscriber, in
/// subscription order, contributes the reads of its whole body, run against
/// the freshly written store.
pub open spec fn sub_reads(
    l: Seq<usize>,
    bodies: Seq<Seq<Step>>,
    effects: Seq<usize>,
    vals: Seq<Value>,
) -> Seq<(usize, Value)>
    decreases l.len(),
{
    if l.len() == 0 {
        Seq::empty()
    } else {
        sub_reads(l.drop_last(), bodies, effects, vals) + reads_of(
            l.last(),
            prog_at(bodies, effects, l.last() as int),
            vals,
        )
    }
}

/// Reads of concatenated pending stacks: the later-pushed part runs first.
proof fn lemma_frame_reads_concat(
    a: Seq<(usize, usize)>,
    b: Seq<(usize, usize)>,
    bodies: Seq<Seq<Step>>,
    effects: Seq<usize>,
    vals: Seq<Value>,
)
    ensures
        frame_reads(a + b, bodies, effects, vals) == frame_reads(b, bodies, effects, vals)
            + frame_reads(a, bodies, effects, vals),
    decreases b.len(),
{
    if b.len() == 0 {
        assert(a + b =~= a);
        assert(frame_reads(b, bodies, effects, vals) + frame_reads(a, bodies, effects, vals)
            =~= frame_reads(a, bodies, effects, vals));
    } else {
        lemma_frame_reads_concat(a, b.drop_last(), bodies, effects, vals);
        assert((a + b).drop_last() =~= a + b.drop_last());
        assert((a + b).last() == b.last());
        let rb = reads_of(b.last().0, remaining(bodies, effects, b.last()), vals);
        assert(frame_reads(a + b, bodies, effects, vals) == rb + (frame_reads(
            b.drop_last(),
            bodies,
            effects,
            vals,
        ) + frame_reads(a, bodies, effects, vals)));
        assert(rb + (frame_reads(b.drop_last(), bodies, effects, vals) + frame_reads(
            a,
            bodies,
            effects,
            vals,
        )) =~= (rb + frame_reads(b.drop_last(), bodies, effects, vals)) + frame_reads(
            a,
            bodies,
            effects,
            vals,
        ));
    }
}

/// What a freshly scheduled subscriber list will read: the pending stack of a
/// top-level write reads exactly the subscribers' bodies, in subscription
/// order.
proof fn lemma_pending_frame_reads(
    l: Seq<usize>,
    bodies: Seq<Seq<Step>>,
    effects: Seq<usize>,
    vals: Seq<Value>,
)
    ensures
        frame_reads(pending(l, None), bodies, effects, vals) == sub_reads(
            l,
            bodies,
            effects,
            vals,
        ),
    decreases l.len(),
{
    if l.len() == 0 {
        assert(pending(l, None) == Seq::<(usize, usize)>::empty());
    } else {
        lemma_pending_frame_reads(l.drop_last(), bodies, effects, vals);
        let single = seq![(l.last(), 0usize)];
        assert(pending(l, None) == single + pending(l.drop_last(), None));
        lemma_frame_reads_concat(single, pending(l.drop_last(), None), bodies, effects, vals);
        assert(single.drop_last() =~= Seq::<(usize, usize)>::empty());
        assert(frame_reads(single.drop_last(), bodies, effects, vals) =~= Seq::<(
            usize,
            Value,
        )>::empty());
        assert(single.last() == (l.last(), 0usize));
        let prog = prog_at(bodies, effects, l.last() as int);
        assert(remaining(bodies, effects, (l.last(), 0usize)) =~= prog);
        assert(frame_reads(single, bodies, effects, vals) =~= reads_of(l.last(), prog, vals));
        assert(frame_reads(pending(l, None), bodies, effects, vals) =~= sub_reads(
            l,
            bodies,
            effects,
            vals,
        ));
    }
}

/// Dependency registration: a top-level write to a slot whose recorded
/// subscribers are all read-only effects re-runs each subscriber exactly once,
/// in subscription order, and nothing else: the log grows by exactly the reads
/// those effects perform against the freshly written store, no value changes
/// further, and no effect is created.
pub proof fn lemma_dependency_registration(st0: State, i: int, v: Value, st1: State)
    requires
        state_wf(st0),
        0 <= i < st0.values.len(),
        kind_of(v) == kind_of(st0.values[i]),
        forall|k: int|
            0 <= k < st0.subs[i].len() ==> readonly_body(
                prog_at(st0.bodies, st0.effects, (#[trigger] st0.subs[i][k]) as int),
            ),
        runs_to(write_start(st0, i, v), st1),
    ensures
        st1.values == st0.values.update(i, v),
        st1.effects == st0.effects,
        st1.bodies == st0.bodies,
        st1.log == st0.log + sub_reads(st0.subs[i], st0.bodies, st0.effects, st0.values.update(i, v)),
{
    let m0 = write_start(st0, i, v);
    let l = st0.subs[i];
    crate::machine::lemma_wf_update_value(st0, i, v);
    crate::machine::lemma_pending_elems(l, None);
    assert(machine_wf(m0)) by {
        assert forall|j: int| 0 <= j < m0.frames.len() implies frame_wf(
            #[trigger] m0.frames[j],
            m0.st,
        ) by {
            assert(sub_list_wf(l, st0.effects.len() as int));
            let w = choose|k: int| 0 <= k < l.len() && l[k] == m0.frames[j].0;
            assert(l[w] < st0.effects.len());
        }
    }
    assert(frames_readonly(m0.frames, m0.st.bodies, m0.st.effects)) by {
        assert forall|j: int| 0 <= j < m0.frames.len() implies readonly_body(
            prog_at(m0.st.bodies, m0.st.effects, (#[trigger] m0.frames[j]).0 as int),
        ) by {
            let w = choose|k: int| 0 <= k < l.len() && l[k] == m0.frames[j].0;
            assert(readonly_body(prog_at(st0.bodies, st0.effects, l[w] as int)));
        }
    }
    lemma_readonly_run(m0);
    let meas = ro_measure(m0.frames, m0.st.bodies, m0.st.effects);
    let mf = iterate(m0, meas);
    assert(mf =~~= (Machine { st: mf.st, frames: Seq::empty() }));
    assert(runs_to(m0, mf.st));
    crate::machine::lemma_run_deterministic(m0, st1, mf.st);
    lemma_pending_frame_reads(l, st0.bodies, st0.effects, st0.values.update(i, v));
}

/// Entries appended by a write name recorded subscribers only.
proof fn lemma_sub_reads_elems(
    l: Seq<usize>,
    bodies: Seq<Seq<Step>>,
    effects: Seq<usize>,
    vals: Seq<Value>,
)
    ensures
        forall|j: int|
            0 <= j < sub_reads(l, bodies, effects, vals).len() ==> l.contains(
                (#[trigger] sub_reads(l, bodies, effects, vals)[j]).0,
            ),
    decreases l.len(),
{
    if l.len() > 0 {
        lemma_sub_reads_elems(l.drop_last(), bodies, effects, vals);
        let front = sub_reads(l.drop_last(), bodies, effects, vals);
        assert forall|j: int| 0 <= j < sub_reads(l, bodies, effects, vals).len() implies l
            .contains((#[trigger] sub_reads(l, bodies, effects, vals)[j]).0) by {
            if j < front.len() {
                assert(sub_reads(l, bodies, effects, vals)[j] == front[j]);
                assert(l.drop_last().contains(front[j].0));
                let w = choose|k: int| 0 <= k < l.drop_last().len() && l.drop_last()[k]
                    == front[j].0;
                assert(l[w] == front[j].0);
            } else {
                assert(sub_reads(l, bodies, effects, vals)[j].0 == l.last());
                assert(l[l.len() - 1] == l.last());
            }
        }
    }
}

/// One subscriber, one read: a write to a slot whose single recorded
/// subscriber merely reads it re-runs that effect exactly once, appending
/// exactly one log entry — the effect, seeing the value just written.
pub proof fn lemma_single_reader_rerun(st0: State, h: Signal, v: Value, e: usize, st1: State)
    requires
        state_wf(st0),
        crate::machine::sig_wf(h, st0),
        kind_of(v) == h.kind,
        e < st0.effects.len(),
        prog_at(st0.bodies, st0.effects, e as int) == seq![Step::Read(h)],
        st0.subs[h.id as int] == seq![e],
        runs_to(write_start(st0, h.id as int, v), st1),
    ensures
        st1.values == st0.values.update(h.id as int, v),
        st1.log == st0.log.push((e, v)),
{
    let prog = seq![Step::Read(h)];
    let l = st0.subs[h.id as int];
    assert(readonly_body(prog)) by {
        assert forall|i: int| 0 <= i < prog.len() implies (#[trigger] prog[i]) is Read by {
            assert(prog[i] == Step::Read(h));
        }
    }
    assert forall|k: int| 0 <= k < l.len() implies readonly_body(
        prog_at(st0.bodies, st0.effects, (#[trigger] l[k]) as int),
    ) by {
        assert(l[k] == e);
    }
    lemma_dependency_registration(st0, h.id as int, v, st1);
    let vals1 = st0.values.update(h.id as int, v);
    assert(sub_reads(l, st0.bodies, st0.effects, vals1) =~= seq![(e, v)]) by {
        assert(l.drop_last() =~= Seq::<usize>::empty());
        assert(sub_reads(Seq::<usize>::empty(), st0.bodies, st0.effects, vals1) == Seq::<(
            usize,
            Value,
        )>::empty());
        assert(l.last() == e);
        let r = reads_of(e, prog, vals1);
        assert(r.len() == 1);
        assert(prog[0] == Step::Read(h));
        assert(r[0] == (e, vals1[h.id as int]));
        assert(vals1[h.id as int] == v);
    }
    assert(st1.log =~= st0.log.push((e, v)));
}

/// A write to a slot with no recorded subscribers propagates to nothing, so
/// it terminates at once.
pub proof fn lemma_terminates_no_subscribers(st: State, i: int, v: Value)
    requires
        0 <= i < st.subs.len(),
        st.subs[i].len() == 0,
    ensures
        crate::machine::terminates(write_start(st, i, v)),
{
    assert(write_start(st, i, v).frames =~= Seq::<(usize, usize)>::empty());
    crate::machine::lemma_terminates_trivial(write_start(st, i, v));
}

/// A write whose recorded subscribers only read schedules no further work,
/// so its propagation terminates.
pub proof fn lemma_terminates_readonly_write(st: State, i: int, v: Value)
    requires
        state_wf(st),
        0 <= i < st.values.len(),
        kind_of(v) == kind_of(st.values[i]),
        forall|k: int|
            0 <= k < st.subs[i].len() ==> readonly_body(
                prog_at(st.bodies, st.effects, (#[trigger] st.subs[i][k]) as int),
            ),
    ensures
        crate::machine::terminates(write_start(st, i, v)),
{
    let m0 = write_start(st, i, v);
    let l = st.subs[i];
    crate::machine::lemma_wf_update_value(st, i, v);
    crate::machine::lemma_pending_elems(l, None);
    assert(machine_wf(m0)) by {
        assert forall|j: int| 0 <= j < m0.frames.len() implies frame_wf(
            #[trigger] m0.frames[j],
            m0.st,
        ) by {
            assert(sub_list_wf(l, st.effects.len() as int));
            let w = choose|k: int| 0 <= k < l.len() && l[k] == m0.frames[j].0;
            assert(l[w] < st.effects.len());
        }
    }
    assert(frames_readonly(m0.frames, m0.st.bodies, m0.st.effects)) by {
        assert forall|j: int| 0 <= j < m0.frames.len() implies readonly_body(
            prog_at(m0.st.bodies, m0.st.effects, (#[trigger] m0.frames[j]).0 as int),
        ) by {
            let w = choose|k: int| 0 <= k < l.len() && l[k] == m0.frames[j].0;
            assert(readonly_body(prog_at(st.bodies, st.effects, l[w] as int)));
        }
    }
    lemma_readonly_run(m0);
}

/// Creating an effect whose body only reads terminates: its eager initial
/// run schedules no further work.
pub proof fn lemma_terminates_readonly_effect(st: State, b: usize)
    requires
        state_wf(st),
        b < st.bodies.len(),
        readonly_body(st.bodies[b as int]),
        st.effects.len() < usize::MAX,
    ensures
        crate::machine::terminates(crate::machine::effect_start(st, b)),
{
    let m0 = crate::machine::effect_start(st, b);
    crate::machine::lemma_wf_push_effect(st, b);
    assert(machine_wf(m0)) by {
        assert forall|j: int| 0 <= j < m0.frames.len() implies frame_wf(
            #[trigger] m0.frames[j],
            m0.st,
        ) by {
            assert(m0.frames[j] == ((st.effects.len() as usize), 0usize));
        }
    }
    assert(frames_readonly(m0.frames, m0.st.bodies, m0.st.effects)) by {
        assert forall|j: int| 0 <= j < m0.frames.len() implies readonly_body(
            prog_at(m0.st.bodies, m0.st.effects, (#[trigger] m0.frames[j]).0 as int),
        ) by {
            assert(m0.frames[j].0 == st.effects.len() as usize);
            assert(m0.st.effects[m0.frames[j].0 as int] == b);
        }
    }
    lemma_readonly_run(m0);
}

/// No dependency without read: under the conditions of
/// `lemma_dependency_registration`, an effect that is not a recorded
/// subscriber of the written slot is not re-run by the write — no appended
/// log entry names it, however the effect and the slot were created.
pub proof fn lemma_no_spurious_rerun(st0: State, i: int, v: Value, st1: State, e: usize)
    requires
        state_wf(st0),
        0 <= i < st0.values.len(),
        kind_of(v) == kind_of(st0.values[i]),
        forall|k: int|
            0 <= k < st0.subs[i].len() ==> readonly_body(
                prog_at(st0.bodies, st0.effects, (#[trigger] st0.subs[i][k]) as int),
            ),
        runs_to(write_start(st0, i, v), st1),
        !st0.subs[i].contains(e),
    ensures
        st1.log.len() >= st0.log.len(),
        forall|k: int| st0.log.len() <= k < st1.log.len() ==> (#[trigger] st1.log[k]).0 != e,
{
    lemma_dependency_registration(st0, i, v, st1);
    let appended = sub_reads(st0.subs[i], st0.bodies, st0.effects, st0.values.update(i, v));
    lemma_sub_reads_elems(st0.subs[i], st0.bodies, st0.effects, st0.values.update(i, v));
    assert forall|k: int| st0.log.len() <= k < st1.log.len() implies (
    #[trigger] st1.log[k]).0 != e by {
        assert(st1.log[k] == appended[k - st0.log.len()]);
        assert(st0.subs[i].contains(appended[k - st0.log.len()].0));
    }
}

} // verus!
