use event_ring::flow::{Ring, RingNodeWithData};
use event_ring::subscribers::{CompositeMember, CompositeSubscriber};

#[test]
fn composite_channels_start_clean() {
    let comp = CompositeSubscriber::new(1, -1);
    assert_eq!(comp.cell, 0);
    assert_eq!(comp.first.delta, 1);
    assert_eq!(comp.first.tally, 0);
    assert_eq!(comp.second.delta, -1);
    assert_eq!(comp.second.tally, 0);
}

#[test]
fn emitting_on_one_ring_leaves_the_other_channel_alone() {
    let mut comp = CompositeSubscriber::new(1, -1);
    let mut ring_x: Ring<CompositeMember> = Ring::new();
    let mut ring_y: Ring<CompositeMember> = Ring::new();
    ring_x.init();
    ring_y.init();
    let x_id = ring_x.add(RingNodeWithData::new(comp.first));
    let y_id = ring_y.add(RingNodeWithData::new(comp.second));
    ring_x.insert_before(x_id, 0);
    ring_y.insert_before(y_id, 0);

    // emitting on X touches the shared cell and X's own tally, nothing else
    ring_x.emit(&(), &mut comp.cell);
    assert_eq!(comp.cell, 1);
    match ring_x.collector(x_id) {
        Some(m) => assert_eq!(m.tally, 1),
        None => panic!("ring X lost its member"),
    }
    match ring_y.collector(y_id) {
        Some(m) => assert_eq!(m.tally, 0),
        None => panic!("ring Y lost its member"),
    }

    // emitting on Y reaches the same cell only through the cell itself
    ring_y.emit(&(), &mut comp.cell);
    assert_eq!(comp.cell, 0);
    match ring_y.collector(y_id) {
        Some(m) => assert_eq!(m.tally, 1),
        None => panic!("ring Y lost its member"),
    }
}
