use event_ring::flow::{Ring, RingNode, RingNodeExt, RingNodeLinks, RingNodeWithData};
use event_ring::subscribers::CounterListener;

#[test]
fn dangling_link_is_unattached() {
    let l = RingNodeLinks::dangling();
    assert!(l.is_unattached());
}

#[test]
fn initialized_link_is_self_loop() {
    let mut l = RingNodeLinks::dangling();
    l.init(7);
    assert!(!l.is_unattached());
    assert_eq!(l.prev(), 7);
    assert_eq!(l.next(), 7);
    assert_eq!(l.node_links().prev, 7);
}

#[test]
fn empty_ring_emit_invokes_nothing() {
    let mut ring: Ring<CounterListener> = Ring::new();
    ring.init();
    let mut counter: i64 = 42;
    ring.emit(&(), &mut counter);
    assert_eq!(counter, 42);
    assert_eq!(ring.member_count(), 0);
}

#[test]
fn empty_ring_root_is_self_loop() {
    let mut ring: Ring<CounterListener> = Ring::new();
    assert!(!ring.is_initialized());
    ring.init();
    assert!(ring.is_initialized());
    let root = ring.node_links();
    assert_eq!(root.prev, 0);
    assert_eq!(root.next, 0);
}

#[test]
fn two_listeners_sum_their_effects() {
    let mut ring: Ring<CounterListener> = Ring::new();
    ring.init();
    let l1 = ring.add(RingNodeWithData::new(CounterListener::new(2)));
    let l2 = ring.add(RingNodeWithData::new(CounterListener::new(-1)));
    ring.insert_before(l1, 0);
    ring.insert_before(l2, 0);
    assert_eq!(ring.member_count(), 2);
    let mut counter: i64 = 0;
    ring.emit(&(), &mut counter);
    assert_eq!(counter, 1);
}

#[test]
fn attachment_order_is_invocation_order() {
    // near saturation the two orders give different results: the +1
    // listener must run first (and be swallowed) for the answer to drop
    let mut ring: Ring<CounterListener> = Ring::new();
    ring.init();
    let up = ring.add(RingNodeWithData::new(CounterListener::new(1)));
    let down = ring.add(RingNodeWithData::new(CounterListener::new(-1)));
    ring.insert_before(up, 0);
    ring.insert_before(down, 0);
    let mut counter: i64 = i64::MAX;
    ring.emit(&(), &mut counter);
    assert_eq!(counter, i64::MAX - 1);
}

#[test]
fn insert_before_member_takes_its_place() {
    // inserting `down` before `up` makes `down` run first, so from MAX
    // the +1 is no longer swallowed
    let mut ring: Ring<CounterListener> = Ring::new();
    ring.init();
    let up = ring.add(RingNodeWithData::new(CounterListener::new(1)));
    let down = ring.add(RingNodeWithData::new(CounterListener::new(-1)));
    ring.insert_before(up, 0);
    ring.insert_before(down, up);
    let mut counter: i64 = i64::MAX;
    ring.emit(&(), &mut counter);
    assert_eq!(counter, i64::MAX);
}

#[test]
fn detach_removes_only_that_listener() {
    let mut ring: Ring<CounterListener> = Ring::new();
    ring.init();
    let l1 = ring.add(RingNodeWithData::new(CounterListener::new(2)));
    let l2 = ring.add(RingNodeWithData::new(CounterListener::new(-1)));
    ring.insert_before(l1, 0);
    ring.insert_before(l2, 0);
    let mut counter: i64 = 0;
    ring.emit(&(), &mut counter);
    assert_eq!(counter, 1);
    ring.detach(l1);
    assert_eq!(ring.member_count(), 1);
    ring.emit(&(), &mut counter);
    assert_eq!(counter, 0);
}

#[test]
fn detach_twice_is_a_no_op() {
    let mut ring: Ring<CounterListener> = Ring::new();
    ring.init();
    let l1 = ring.add(RingNodeWithData::new(CounterListener::new(5)));
    let l2 = ring.add(RingNodeWithData::new(CounterListener::new(3)));
    ring.insert_before(l1, 0);
    ring.insert_before(l2, 0);
    ring.detach(l1);
    ring.detach(l1);
    assert_eq!(ring.member_count(), 1);
    let mut counter: i64 = 0;
    ring.emit(&(), &mut counter);
    assert_eq!(counter, 3);
}

#[test]
fn detach_unattached_is_a_no_op() {
    let mut ring: Ring<CounterListener> = Ring::new();
    ring.init();
    let l1 = ring.add(RingNodeWithData::new(CounterListener::new(5)));
    ring.detach(l1);
    assert_eq!(ring.member_count(), 0);
    let mut counter: i64 = 0;
    ring.emit(&(), &mut counter);
    assert_eq!(counter, 0);
}

#[test]
fn reattach_restores_membership_and_order() {
    let mut ring: Ring<CounterListener> = Ring::new();
    ring.init();
    let up = ring.add(RingNodeWithData::new(CounterListener::new(1)));
    let down = ring.add(RingNodeWithData::new(CounterListener::new(-1)));
    ring.insert_before(up, 0);
    ring.insert_before(down, 0);
    // round trip: down leaves and comes back before the root
    ring.detach(down);
    ring.insert_before(down, 0);
    assert_eq!(ring.member_count(), 2);
    let mut counter: i64 = i64::MAX;
    ring.emit(&(), &mut counter);
    // order is still up first, down second
    assert_eq!(counter, i64::MAX - 1);
}

#[test]
fn reinsert_attached_node_is_idempotent() {
    let mut ring: Ring<CounterListener> = Ring::new();
    ring.init();
    let up = ring.add(RingNodeWithData::new(CounterListener::new(1)));
    let down = ring.add(RingNodeWithData::new(CounterListener::new(-1)));
    ring.insert_before(up, 0);
    ring.insert_before(down, 0);
    // inserting an attached node before the same target changes nothing
    ring.insert_before(down, 0);
    assert_eq!(ring.member_count(), 2);
    let mut counter: i64 = i64::MAX;
    ring.emit(&(), &mut counter);
    assert_eq!(counter, i64::MAX - 1);
}

#[test]
fn passthrough_member_is_skipped() {
    let mut ring: Ring<CounterListener> = Ring::new();
    ring.init();
    let quiet = ring.add_passthrough();
    let loud = ring.add(RingNodeWithData::new(CounterListener::new(4)));
    ring.insert_before(quiet, 0);
    ring.insert_before(loud, 0);
    assert_eq!(ring.member_count(), 2);
    let mut counter: i64 = 0;
    ring.emit(&(), &mut counter);
    assert_eq!(counter, 4);
}

#[test]
fn collector_mut_reaches_the_listener() {
    let mut ring: Ring<CounterListener> = Ring::new();
    ring.init();
    let l1 = ring.add(RingNodeWithData::new(CounterListener::new(2)));
    ring.insert_before(l1, 0);
    ring.collector_mut(l1).delta = 10;
    let mut counter: i64 = 0;
    ring.emit(&(), &mut counter);
    assert_eq!(counter, 10);
}

#[test]
fn node_data_mut_before_attachment() {
    let mut node = RingNodeWithData::new(CounterListener::new(1));
    node.data_mut().delta = 9;
    let mut ring: Ring<CounterListener> = Ring::new();
    ring.init();
    let id = ring.add(node);
    ring.insert_before(id, 0);
    let mut counter: i64 = 0;
    ring.emit(&(), &mut counter);
    assert_eq!(counter, 9);
}

#[test]
fn counter_listener_swallows_overflow() {
    let mut ring: Ring<CounterListener> = Ring::new();
    ring.init();
    let l1 = ring.add(RingNodeWithData::new(CounterListener::new(1)));
    ring.insert_before(l1, 0);
    let mut counter: i64 = i64::MAX;
    ring.emit(&(), &mut counter);
    assert_eq!(counter, i64::MAX);
}
