use suspense_engine::reactive::ReactiveGraph;
use suspense_engine::runtime::{rerun_resource_if_dirty, Runtime};
use suspense_engine::tree::Outcome;

#[test]
fn key_change_refires_the_resource() {
    let mut rt = Runtime::new();
    let mut g = ReactiveGraph::new();
    let key = g.create_signal(1);
    let hook = g.create_computation();
    let cid = rt.create_context();
    let rid = rt.create_resource(Some(cid), Outcome::Success(10));
    rt.settle(rid);
    assert!(rt.ready(cid));
    // The hook observed the key when the resource first ran.
    g.take_dirty(hook);
    g.read_signal(key, Some(hook));
    // A clean hook does nothing.
    assert!(!rerun_resource_if_dirty(&mut rt, &mut g, hook, rid, Outcome::Success(20)));
    assert_eq!(rt.read(rid), Some(Outcome::Success(10)));
    // The key changes: the hook goes dirty and the resource suspends again.
    g.set_signal(key, 2);
    assert!(rerun_resource_if_dirty(&mut rt, &mut g, hook, rid, Outcome::Success(20)));
    assert!(!rt.ready(cid));
    assert_eq!(rt.read(rid), None);
    rt.settle(rid);
    assert_eq!(rt.read(rid), Some(Outcome::Success(20)));
}

#[test]
fn signal_read_returns_current_value() {
    let mut g = ReactiveGraph::new();
    let s = g.create_signal(7);
    assert_eq!(g.read_signal(s, None), 7);
    g.set_signal(s, 8);
    assert_eq!(g.read_signal(s, None), 8);
    assert_eq!(g.signals[s].version, 1);
}

#[test]
fn tracked_read_subscribes_once() {
    let mut g = ReactiveGraph::new();
    let s = g.create_signal(0);
    let c = g.create_computation();
    assert_eq!(g.read_signal(s, Some(c)), 0);
    assert_eq!(g.read_signal(s, Some(c)), 0);
    assert_eq!(g.signals[s].subscribers.len(), 1);
    assert_eq!(g.signals[s].subscribers[0], c);
}

#[test]
fn untracked_read_does_not_subscribe() {
    let mut g = ReactiveGraph::new();
    let s = g.create_signal(3);
    let _ = g.create_computation();
    assert_eq!(g.read_signal(s, None), 3);
    assert!(g.signals[s].subscribers.is_empty());
}

#[test]
fn write_marks_subscribers_dirty() {
    let mut g = ReactiveGraph::new();
    let s = g.create_signal(1);
    let c1 = g.create_computation();
    let c2 = g.create_computation();
    // Both computations ran once and observed the signal.
    assert!(g.take_dirty(c1));
    assert!(g.take_dirty(c2));
    g.read_signal(s, Some(c1));
    g.read_signal(s, Some(c2));
    assert!(!g.computations[c1].dirty);
    g.set_signal(s, 2);
    assert!(g.computations[c1].dirty);
    assert!(g.computations[c2].dirty);
}

#[test]
fn disposed_computation_is_not_marked() {
    let mut g = ReactiveGraph::new();
    let s = g.create_signal(1);
    let c = g.create_computation();
    g.read_signal(s, Some(c));
    g.take_dirty(c);
    g.dispose_computation(c);
    // The stale subscription is a dead handle: the write skips it.
    g.set_signal(s, 2);
    assert!(!g.computations[c].dirty);
    assert!(!g.computations[c].alive);
}

#[test]
fn writes_only_touch_their_own_subscribers() {
    let mut g = ReactiveGraph::new();
    let s1 = g.create_signal(1);
    let s2 = g.create_signal(2);
    let c1 = g.create_computation();
    let c2 = g.create_computation();
    g.read_signal(s1, Some(c1));
    g.read_signal(s2, Some(c2));
    g.take_dirty(c1);
    g.take_dirty(c2);
    g.set_signal(s2, 9);
    assert!(!g.computations[c1].dirty);
    assert!(g.computations[c2].dirty);
    assert_eq!(g.signals[s1].value, 1);
    assert_eq!(g.signals[s1].version, 0);
}
