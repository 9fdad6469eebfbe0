//! Scenario tests for the reactive core: signals, effects, subscription and
//! propagation, observed through the run log and the stores.

use hellmut::context::Context;
use hellmut::types::{Kind, Signal, Step, Value};

fn int_signal(cx: &mut Context, v: i64) -> Signal {
    cx.create_signal(Value::Int(v))
}

#[test]
fn read_after_write_returns_new_value() {
    let mut cx = Context::new();
    let s = int_signal(&mut cx, 5);
    assert_eq!(s.get(&cx), Value::Int(5));
    s.set(&mut cx, Value::Int(7));
    assert_eq!(s.get(&cx), Value::Int(7));
    assert!(cx.inner.run_log.is_empty());
}

#[test]
fn with_ref_reads_and_with_mut_writes() {
    let mut cx = Context::new();
    let s = int_signal(&mut cx, 11);
    assert_eq!(s.with_ref(&cx), Value::Int(11));
    s.with_mut(&mut cx, Value::Int(12));
    assert_eq!(s.get(&cx), Value::Int(12));
    assert_eq!(s.with_ref(&cx), Value::Int(12));
}

#[test]
fn heterogeneous_slots_coexist() {
    let mut cx = Context::new();
    let a = cx.create_signal(Value::Int(-3));
    let b = cx.create_signal(Value::Flag(true));
    assert_eq!(a.kind, Kind::Int);
    assert_eq!(b.kind, Kind::Flag);
    assert_eq!(a.get(&cx), Value::Int(-3));
    assert_eq!(b.get(&cx), Value::Flag(true));
    b.set(&mut cx, Value::Flag(false));
    assert_eq!(a.get(&cx), Value::Int(-3));
    assert_eq!(b.get(&cx), Value::Flag(false));
}

#[test]
fn effect_runs_eagerly_once_and_subscribes() {
    let mut cx = Context::new();
    let count = int_signal(&mut cx, 0);
    let e1: usize = cx.create_effect(vec![Step::Read(count)]);
    assert_eq!(cx.inner.run_log, vec![(e1, Value::Int(0))]);
    assert_eq!(cx.inner.signal_subscribers[count.id], vec![e1]);
}

#[test]
fn log_grows_once_per_write_even_for_equal_values() {
    let mut cx = Context::new();
    let count = int_signal(&mut cx, 0);
    let e1: usize = cx.create_effect(vec![Step::Read(count)]);
    assert_eq!(cx.inner.run_log, vec![(e1, Value::Int(0))]);
    count.set(&mut cx, Value::Int(1));
    assert_eq!(cx.inner.run_log, vec![(e1, Value::Int(0)), (e1, Value::Int(1))]);
    count.set(&mut cx, Value::Int(1));
    assert_eq!(
        cx.inner.run_log,
        vec![(e1, Value::Int(0)), (e1, Value::Int(1)), (e1, Value::Int(1))]
    );
}

#[test]
fn subscriber_runs_once_per_write() {
    let mut cx = Context::new();
    let s = int_signal(&mut cx, 0);
    let e: usize = cx.create_effect(vec![Step::Read(s)]);
    s.set(&mut cx, Value::Int(10));
    s.set(&mut cx, Value::Int(20));
    s.set(&mut cx, Value::Int(30));
    assert_eq!(
        cx.inner.run_log,
        vec![
            (e, Value::Int(0)),
            (e, Value::Int(10)),
            (e, Value::Int(20)),
            (e, Value::Int(30)),
        ]
    );
}

#[test]
fn independent_signals_do_not_cross() {
    let mut cx = Context::new();
    let a = int_signal(&mut cx, 1);
    let b = int_signal(&mut cx, 2);
    let ea: usize = cx.create_effect(vec![Step::Read(a)]);
    let eb: usize = cx.create_effect(vec![Step::Read(b)]);
    assert_eq!(cx.inner.run_log, vec![(ea, Value::Int(1)), (eb, Value::Int(2))]);
    a.set(&mut cx, Value::Int(10));
    assert_eq!(
        cx.inner.run_log,
        vec![(ea, Value::Int(1)), (eb, Value::Int(2)), (ea, Value::Int(10))]
    );
    b.set(&mut cx, Value::Int(20));
    assert_eq!(
        cx.inner.run_log,
        vec![
            (ea, Value::Int(1)),
            (eb, Value::Int(2)),
            (ea, Value::Int(10)),
            (eb, Value::Int(20)),
        ]
    );
}

#[test]
fn no_dependency_without_read() {
    let mut cx = Context::new();
    let read_one = int_signal(&mut cx, 0);
    let untouched = int_signal(&mut cx, 0);
    let e: usize = cx.create_effect(vec![Step::Read(read_one)]);
    assert_eq!(cx.inner.run_log.len(), 1);
    untouched.set(&mut cx, Value::Int(99));
    assert_eq!(cx.inner.run_log, vec![(e, Value::Int(0))]);
    assert!(cx.inner.signal_subscribers[untouched.id].is_empty());
}

#[test]
fn self_exclusion_stops_own_rerun() {
    let mut cx = Context::new();
    let s = int_signal(&mut cx, 0);
    let e: usize = cx.create_effect(vec![Step::Read(s), Step::Write(s, Value::Int(9))]);
    // The eager run reads 0, then writes 9; the write must not re-enter the
    // effect during its own run, so exactly one log entry exists.
    assert_eq!(cx.inner.run_log, vec![(e, Value::Int(0))]);
    assert_eq!(s.get(&cx), Value::Int(9));
    // A later top-level write re-runs the effect exactly once more.
    s.set(&mut cx, Value::Int(1));
    assert_eq!(cx.inner.run_log, vec![(e, Value::Int(0)), (e, Value::Int(1))]);
    assert_eq!(s.get(&cx), Value::Int(9));
}

#[test]
fn duplicate_reads_subscribe_once() {
    let mut cx = Context::new();
    let s = int_signal(&mut cx, 4);
    let e: usize = cx.create_effect(vec![Step::Read(s), Step::Read(s)]);
    assert_eq!(cx.inner.signal_subscribers[s.id], vec![e]);
    assert_eq!(cx.inner.run_log.len(), 2);
    s.set(&mut cx, Value::Int(5));
    // One subscription only, so one re-run: two more entries, not four.
    assert_eq!(cx.inner.run_log.len(), 4);
    assert_eq!(
        cx.inner.run_log,
        vec![
            (e, Value::Int(4)),
            (e, Value::Int(4)),
            (e, Value::Int(5)),
            (e, Value::Int(5)),
        ]
    );
}

#[test]
fn reentrant_nested_creation_attributes_to_child() {
    let mut cx = Context::new();
    let s1 = int_signal(&mut cx, 100);
    let s2 = int_signal(&mut cx, 200);
    let child_body: usize = cx.define_body(vec![Step::Read(s1)]);
    let parent: usize = cx.create_effect(vec![Step::Spawn(child_body), Step::Read(s2)]);
    let child: usize = parent + 1;
    // The child's eager run happens inside the parent's run; its read is
    // attributed to the child, and the parent's later read to the parent.
    assert_eq!(
        cx.inner.run_log,
        vec![(child, Value::Int(100)), (parent, Value::Int(200))]
    );
    assert_eq!(cx.inner.signal_subscribers[s1.id], vec![child]);
    assert_eq!(cx.inner.signal_subscribers[s2.id], vec![parent]);
    // Writing s1 re-runs only the child.
    s1.set(&mut cx, Value::Int(101));
    assert_eq!(cx.inner.run_log.last(), Some(&(child, Value::Int(101))));
    assert_eq!(cx.inner.run_log.len(), 3);
    // Writing s2 re-runs the parent, whose body spawns again: a second
    // child with a fresh identity is created and eagerly reads s1, and the
    // parent's own read still follows afterwards.
    s2.set(&mut cx, Value::Int(201));
    let second_child: usize = child + 1;
    assert_eq!(cx.inner.run_log.len(), 5);
    assert_eq!(cx.inner.run_log[3], (second_child, Value::Int(101)));
    assert_eq!(cx.inner.run_log.last(), Some(&(parent, Value::Int(201))));
    assert_eq!(cx.inner.signal_subscribers[s1.id], vec![child, second_child]);
}

#[test]
fn mutate_subscribes_the_writer() {
    let mut cx = Context::new();
    let s = int_signal(&mut cx, 1);
    let e: usize = cx.create_effect(vec![Step::Mutate(s, Value::Int(3))]);
    // The mutate-access subscribed the effect to the slot it wrote, but
    // self-exclusion kept its own write from re-entering it.
    assert_eq!(cx.inner.signal_subscribers[s.id], vec![e]);
    assert_eq!(s.get(&cx), Value::Int(3));
    assert!(cx.inner.run_log.is_empty());
    // A top-level write re-runs the effect, which restores its value.
    s.set(&mut cx, Value::Int(9));
    assert_eq!(s.get(&cx), Value::Int(3));
}

#[test]
fn cascade_through_intermediate_effect() {
    let mut cx = Context::new();
    let target = int_signal(&mut cx, 0);
    let trigger = int_signal(&mut cx, 0);
    let watcher: usize = cx.create_effect(vec![Step::Read(target)]);
    let writer: usize =
        cx.create_effect(vec![Step::Read(trigger), Step::Write(target, Value::Int(42))]);
    // The writer's eager run read the trigger and wrote the target, which
    // re-ran the watcher: self-exclusion spares only the running effect.
    assert_eq!(
        cx.inner.run_log,
        vec![
            (watcher, Value::Int(0)),
            (writer, Value::Int(0)),
            (watcher, Value::Int(42)),
        ]
    );
    // A write to the trigger cascades: writer re-runs, then watcher.
    trigger.set(&mut cx, Value::Int(7));
    assert_eq!(
        cx.inner.run_log,
        vec![
            (watcher, Value::Int(0)),
            (writer, Value::Int(0)),
            (watcher, Value::Int(42)),
            (writer, Value::Int(7)),
            (watcher, Value::Int(42)),
        ]
    );
    assert_eq!(target.get(&cx), Value::Int(42));
}

#[test]
fn signal_and_body_identities_are_sequential() {
    let mut cx = Context::new();
    let a = int_signal(&mut cx, 0);
    let b = int_signal(&mut cx, 0);
    assert_eq!(a.id, 0);
    assert_eq!(b.id, 1);
    let b0: usize = cx.define_body(vec![]);
    let b1: usize = cx.define_body(vec![Step::Read(a)]);
    assert_eq!(b0, 0);
    assert_eq!(b1, 1);
    let e0: usize = cx.create_effect(vec![]);
    let e1: usize = cx.create_effect(vec![Step::Read(a)]);
    assert_eq!(e0, 0);
    assert_eq!(e1, 1);
    // create_effect registers its body too, after the two defined above.
    assert_eq!(cx.inner.effects, vec![2, 3]);
}
