use vstd::prelude::*;

verus! {

/// What one poll of a cancellable wait reports.
#[derive(Clone, Copy, PartialEq, Eq, Structural, Debug)]
pub enum TimerPoll {
    /// The wait was called off before the time ran out.
    Cancelled,
    /// The time ran out first.
    Elapsed,
    /// Neither has happened yet.
    Pending,
}

/// The decision state of a cancellable one-shot wait: a flag the
/// cancelling side raises, read by every poll of the waiting side.
/// Cancellation wins over the time having run out. The sleeping and the
/// waking themselves stay with the caller, who reports on each poll
/// whether the underlying delay has elapsed.
pub struct CancellableTimer {
    cancelled: bool,
}

impl CancellableTimer {
    /// Whether the wait has been called off.
    pub closed spec fn is_cancelled(self) -> bool {
        self.cancelled
    }

    /// A wait that nobody has called off.
    pub fn new() -> (r: CancellableTimer)
        ensures
            !r.is_cancelled(),
    {
        CancellableTimer { cancelled: false }
    }

    /// Call the wait off; every later poll reports the cancellation.
    pub fn cancel(&mut self)
        ensures
            final(self).is_cancelled(),
    {
        self.cancelled = true;
    }

    /// One poll of the waiting side, given whether the underlying delay
    /// has elapsed.
    pub fn poll(&self, delay_elapsed: bool) -> (r: TimerPoll)
        ensures
            r == (if self.is_cancelled() {
                TimerPoll::Cancelled
            } else if delay_elapsed {
                TimerPoll::Elapsed
            } else {
                TimerPoll::Pending
            }),
    {
        if self.cancelled {
            TimerPoll::Cancelled
        } else if delay_elapsed {
            TimerPoll::Elapsed
        } else {
            TimerPoll::Pending
        }
    }
}

/// Which animation the display driver should be running.
#[derive(Clone, Copy, PartialEq, Eq, Structural, Debug)]
pub enum AnimationTask {
    Task1,
    Task2,
    Task3,
}

/// The decision half of the display's animation loop: it watches the
/// requested task and says when the running animation's timer must be
/// cancelled so the next one can take over. The waiting itself — timers
/// and wake-ups — stays with the caller, which hands back one observation
/// per pass.
pub struct AnimationScheduler {
    running: Option<AnimationTask>,
}

impl AnimationScheduler {
    /// The task the scheduler believes is running.
    pub closed spec fn running_task(self) -> Option<AnimationTask> {
        self.running
    }

    /// No animation has started yet.
    pub fn new() -> (r: AnimationScheduler)
        ensures
            r.running_task() is None,
    {
        AnimationScheduler { running: None }
    }

    /// One pass of the watch loop: adopt the requested task, and demand a
    /// cancel exactly when it differs from what was running — including
    /// the very first request, which interrupts the idle state.
    pub fn observe(&mut self, requested: AnimationTask) -> (cancel: bool)
        ensures
            final(self).running_task() == Some(requested),
            cancel == (old(self).running_task() != Some(requested)),
    {
        let cancel = match self.running {
            None => true,
            Some(t) => t != requested,
        };
        self.running = Some(requested);
        cancel
    }
}

} // verus!
