use event_ring::display::{AnimationScheduler, AnimationTask, CancellableTimer, TimerPoll};
use event_ring::ext_memory::{page_address, sector_address, sector_write_plan, PAGE_SIZE, SECTOR_SIZE};
use event_ring::user_inputs::UserInputsService;

#[test]
fn poll_emits_only_changed_controls() {
    let mut svc = UserInputsService::new(vec![0, 0, 1, 50]);
    let events = svc.poll(&vec![0, 1, 1, 40]);
    assert_eq!(events.len(), 2);
    assert_eq!(events[0].field, 1);
    assert_eq!(events[0].value, 1);
    assert_eq!(events[1].field, 3);
    assert_eq!(events[1].value, 40);
}

#[test]
fn poll_adopts_the_fresh_readings() {
    let mut svc = UserInputsService::new(vec![0, 0]);
    let first = svc.poll(&vec![7, 0]);
    assert_eq!(first.len(), 1);
    // the same readings again: nothing changed since the previous tick
    let second = svc.poll(&vec![7, 0]);
    assert!(second.is_empty());
}

#[test]
fn poll_with_no_change_is_silent() {
    let mut svc = UserInputsService::new(vec![3, 4, 5]);
    let events = svc.poll(&vec![3, 4, 5]);
    assert!(events.is_empty());
}

#[test]
fn sector_addresses_are_sector_aligned() {
    assert_eq!(sector_address(0), 0);
    assert_eq!(sector_address(1), 4096);
    assert_eq!(sector_address(255), 255 * 4096);
    assert_eq!(page_address(2, 0), 8192);
    assert_eq!(page_address(2, 3), 8192 + 3 * 256);
}

#[test]
fn write_plan_covers_the_sector_page_by_page() {
    let plan = sector_write_plan(3);
    assert_eq!(plan.len(), SECTOR_SIZE / PAGE_SIZE);
    assert_eq!(plan[0], 3 * 4096);
    assert_eq!(plan[15], 3 * 4096 + 15 * 256);
    for (k, addr) in plan.iter().enumerate() {
        assert_eq!(*addr, 3 * 4096 + (k as u32) * 256);
    }
}

#[test]
fn cancellation_wins_over_the_elapsed_delay() {
    let mut timer = CancellableTimer::new();
    assert_eq!(timer.poll(false), TimerPoll::Pending);
    assert_eq!(timer.poll(true), TimerPoll::Elapsed);
    timer.cancel();
    assert_eq!(timer.poll(false), TimerPoll::Cancelled);
    assert_eq!(timer.poll(true), TimerPoll::Cancelled);
}

#[test]
fn scheduler_cancels_exactly_on_task_changes() {
    let mut sched = AnimationScheduler::new();
    assert!(sched.observe(AnimationTask::Task1)); // interrupts idle
    assert!(!sched.observe(AnimationTask::Task1)); // unchanged
    assert!(sched.observe(AnimationTask::Task2)); // switched
    assert!(sched.observe(AnimationTask::Task3)); // switched again
    assert!(!sched.observe(AnimationTask::Task3));
}
