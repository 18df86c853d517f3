use vstd::prelude::*;

use crate::flow::RingCollector;

verus! {

/// The counter after one invocation that tries to add `delta`: the sum
/// when it fits in `i64`, the old value otherwise — a listener has no
/// failure channel, so an overflowing update is swallowed.
pub open spec fn counter_step(cxt: i64, delta: i64) -> i64 {
    if i64::MIN <= cxt + delta <= i64::MAX {
        (cxt + delta) as i64
    } else {
        cxt
    }
}

/// The private invocation tally after one more invocation; it saturates
/// rather than wraps.
pub open spec fn tally_step(t: u64) -> u64 {
    if t < u64::MAX {
        (t + 1) as u64
    } else {
        t
    }
}

/// A listener that adds a fixed signed amount to a counter handed in as
/// the emission context.
#[derive(Clone, Copy, PartialEq, Eq, Structural, Debug)]
pub struct CounterListener {
    pub delta: i64,
}

impl CounterListener {
    /// A listener that will add `delta` on every event.
    pub fn new(delta: i64) -> (r: CounterListener)
        ensures
            r.delta == delta,
    {
        CounterListener { delta }
    }
}

impl<V> RingCollector<V, i64> for CounterListener {
    open spec fn on_event_spec(self, value: V, cxt: i64) -> (Self, i64) {
        (self, counter_step(cxt, self.delta))
    }

    fn emit(&mut self, value: &V, context: &mut i64) {
        match (*context).checked_add(self.delta) {
            Some(x) => {
                *context = x;
            },
            None => {},
        }
    }
}

/// One channel of a `CompositeSubscriber`: it adds its amount to the
/// shared cell handed in as the emission context, and counts its own
/// invocations in private state that nothing else can reach.
#[derive(Clone, Copy, PartialEq, Eq, Structural, Debug)]
pub struct CompositeMember {
    pub delta: i64,
    pub tally: u64,
}

impl CompositeMember {
    /// A fresh channel that will add `delta` and has run zero times.
    pub fn new(delta: i64) -> (r: CompositeMember)
        ensures
            r.delta == delta,
            r.tally == 0,
    {
        CompositeMember { delta, tally: 0 }
    }
}

impl<V> RingCollector<V, i64> for CompositeMember {
    open spec fn on_event_spec(self, value: V, cxt: i64) -> (Self, i64) {
        (
            CompositeMember { delta: self.delta, tally: tally_step(self.tally) },
            counter_step(cxt, self.delta),
        )
    }

    fn emit(&mut self, value: &V, context: &mut i64) {
        match (*context).checked_add(self.delta) {
            Some(x) => {
                *context = x;
            },
            None => {},
        }
        if self.tally < u64::MAX {
            self.tally = self.tally + 1;
        }
    }
}

/// Private shared state bundled with two co-located listener channels
/// that cooperate on it.
///
/// The cell is the counter both channels mutate; it is handed to `emit`
/// as the context, so each channel reaches it only for the duration of
/// its own invocation and only through the ring's authority. The two
/// channels are meant for two different rings; each keeps its own tally,
/// so the only path between those rings is the explicitly shared cell.
pub struct CompositeSubscriber {
    pub cell: i64,
    pub first: CompositeMember,
    pub second: CompositeMember,
}

impl CompositeSubscriber {
    /// A zeroed cell with its two channels.
    pub fn new(first_delta: i64, second_delta: i64) -> (r: CompositeSubscriber)
        ensures
            r.cell == 0,
            r.first == (CompositeMember { delta: first_delta, tally: 0 }),
            r.second == (CompositeMember { delta: second_delta, tally: 0 }),
    {
        CompositeSubscriber {
            cell: 0,
            first: CompositeMember::new(first_delta),
            second: CompositeMember::new(second_delta),
        }
    }
}

} // verus!
