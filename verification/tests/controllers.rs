use event_ring::bounded::Bounded;
use event_ring::parameter_controllers::{
    CatchController, JumpController, ParameterController, PrevInput, ScaleController,
};

fn b(value: i32) -> Bounded {
    Bounded::new(value, 0, 100).expect("value must lie in the interval")
}

#[test]
fn bounded_accepts_only_its_interval() {
    assert!(Bounded::new(50, 0, 100).is_some());
    assert!(Bounded::new(0, 0, 100).is_some());
    assert!(Bounded::new(100, 0, 100).is_some());
    assert!(Bounded::new(101, 0, 100).is_none());
    assert!(Bounded::new(-1, 0, 100).is_none());
    assert_eq!(b(37).get(), 37);
}

#[test]
fn prev_input_remembers_the_last_reading() {
    let mut p: PrevInput<i32> = PrevInput::new();
    assert_eq!(p.poll(4), None);
    assert_eq!(p.poll(7), Some(4));
    p.sync(None);
    assert_eq!(p.poll(9), None);
    p.sync(Some(2));
    assert_eq!(p.poll(1), Some(2));
}

#[test]
fn jump_adopts_every_change() {
    let mut c = JumpController::new();
    assert_eq!(c.poll(b(10), b(30)), None); // nothing remembered yet
    assert_eq!(c.poll(b(10), b(30)), None); // unchanged reading
    assert_eq!(c.poll(b(10), b(40)), Some(b(40))); // changed reading
}

#[test]
fn jump_reset_forgets_the_reading() {
    let mut c = JumpController::new();
    assert_eq!(c.poll(b(10), b(30)), None);
    c.reset();
    assert_eq!(c.poll(b(10), b(40)), None);
}

#[test]
fn catch_waits_for_the_control_to_cross() {
    let mut c = CatchController::new();
    assert_eq!(c.poll(b(50), b(20)), None); // nothing remembered yet
    assert_eq!(c.poll(b(50), b(30)), None); // still below the stored value
    assert_eq!(c.poll(b(50), b(60)), Some(b(60))); // crossed it upwards
}

#[test]
fn catch_adopts_a_repeated_reading() {
    let mut c = CatchController::new();
    assert_eq!(c.poll(b(50), b(20)), None);
    assert_eq!(c.poll(b(50), b(20)), Some(b(20)));
}

#[test]
fn catch_crossing_downwards() {
    let mut c = CatchController::new();
    assert_eq!(c.poll(b(50), b(80)), None);
    assert_eq!(c.poll(b(50), b(40)), Some(b(40)));
}

#[test]
fn scale_glides_downwards_towards_the_low_end() {
    let mut c = ScaleController::new();
    assert_eq!(c.poll(b(50), b(80)), None); // nothing remembered yet
    // travel left in [0, 80] is rescaled onto [0, 50]: 40 * 50 / 80 = 25
    assert_eq!(c.poll(b(50), b(40)), Some(b(25)));
}

#[test]
fn scale_glides_upwards_towards_the_high_end() {
    let mut c = ScaleController::new();
    assert_eq!(c.poll(b(50), b(20)), None);
    // travel right in [20, 100] is rescaled onto [50, 100]: 50 + 40 * 50 / 80 = 75
    assert_eq!(c.poll(b(50), b(60)), Some(b(75)));
}

#[test]
fn scale_reaches_the_ends_exactly() {
    let mut c = ScaleController::new();
    assert_eq!(c.poll(b(50), b(80)), None);
    assert_eq!(c.poll(b(50), b(0)), Some(b(0)));
    let mut c2 = ScaleController::new();
    assert_eq!(c2.poll(b(50), b(20)), None);
    assert_eq!(c2.poll(b(50), b(100)), Some(b(100)));
}

#[test]
fn scale_ignores_an_unchanged_reading() {
    let mut c = ScaleController::new();
    assert_eq!(c.poll(b(50), b(80)), None);
    assert_eq!(c.poll(b(50), b(80)), None);
}

#[test]
fn scale_sync_replaces_the_memory() {
    let mut c = ScaleController::new();
    assert_eq!(c.poll(b(50), b(80)), None);
    c.sync(Some(b(40)));
    // now the stored reading is 40, so 20 glides down: 20 * 50 / 40 = 25
    assert_eq!(c.poll(b(50), b(20)), Some(b(25)));
}
