use vstd::prelude::*;

verus! {

/// One "field changed" event produced by a polling tick: the control's
/// field index and its fresh reading.
///
/// Continuous controls carry their level reading; switches are carried as
/// readings of 0 or 1.
#[derive(Clone, Copy, PartialEq, Eq, Structural, Debug)]
pub struct UserInputsChangedEvent {
    pub field: usize,
    pub value: i32,
}

/// The events one polling tick owes for the controls from `i` on: exactly
/// the fields whose fresh reading differs from the stored one, in field
/// order, each carrying the fresh reading.
pub open spec fn changed_events(prev: Seq<i32>, cur: Seq<i32>, i: int) -> Seq<UserInputsChangedEvent>
    decreases cur.len() - i,
{
    if i < 0 || i >= cur.len() {
        Seq::empty()
    } else {
        let rest = changed_events(prev, cur, i + 1);
        if prev[i] != cur[i] {
            seq![UserInputsChangedEvent { field: i as usize, value: cur[i] }] + rest
        } else {
            rest
        }
    }
}

/// Debounced view of the panel: remembers the last reading of every
/// control and turns each polling pass into the finite sequence of
/// "field changed" events — one pass over all controls, emitting only
/// the ones whose value changed since the previous tick.
///
/// Reading the hardware itself stays with the caller, who hands in one
/// plain reading per control.
pub struct UserInputsService {
    data: Vec<i32>,
}

impl UserInputsService {
    /// The stored readings, one per control.
    pub closed spec fn stored(self) -> Seq<i32> {
        self.data@
    }

    /// Start from the given resting readings.
    pub fn new(initial: Vec<i32>) -> (r: UserInputsService)
        ensures
            r.stored() == initial@,
    {
        UserInputsService { data: initial }
    }

    /// One polling tick: compare every control's fresh reading with the
    /// stored one, adopt the fresh readings, and hand back the changed
    /// fields in field order.
    pub fn poll(&mut self, readings: &Vec<i32>) -> (events: Vec<UserInputsChangedEvent>)
        requires
            readings@.len() == old(self).stored().len(),
        ensures
            final(self).stored() == readings@,
            events@ == changed_events(old(self).stored(), readings@, 0),
    {
        let ghost prev = self.data@;
        let ghost cur = readings@;
        let mut events: Vec<UserInputsChangedEvent> = Vec::new();
        let mut i: usize = 0;
        while i < readings.len()
            invariant
                i <= readings.len(),
                readings@ == cur,
                cur.len() == prev.len(),
                self.data@.len() == prev.len(),
                forall|k: int| 0 <= k < i ==> self.data@[k] == cur[k],
                forall|k: int| i <= k < prev.len() ==> self.data@[k] == prev[k],
                changed_events(prev, cur, 0) == events@ + changed_events(prev, cur, i as int),
            decreases readings.len() - i,
        {
            let fresh = readings[i];
            if self.data[i] != fresh {
                events.push(UserInputsChangedEvent { field: i, value: fresh });
                self.data[i] = fresh;
                proof {
                    assert(changed_events(prev, cur, i as int) == seq![
                        UserInputsChangedEvent { field: i, value: cur[i as int] },
                    ] + changed_events(prev, cur, i as int + 1));
                    assert(events@ + changed_events(prev, cur, i as int + 1) =~= (
                    events@.drop_last() + seq![
                        UserInputsChangedEvent { field: i, value: cur[i as int] },
                    ]) + changed_events(prev, cur, i as int + 1));
                    assert((events@.drop_last() + seq![
                        UserInputsChangedEvent { field: i, value: cur[i as int] },
                    ]) + changed_events(prev, cur, i as int + 1) =~= events@.drop_last() + (seq![
                        UserInputsChangedEvent { field: i, value: cur[i as int] },
                    ] + changed_events(prev, cur, i as int + 1)));
                }
            }
            i = i + 1;
        }
        proof {
            assert(changed_events(prev, cur, cur.len() as int) =~= Seq::<
                UserInputsChangedEvent,
            >::empty());
            assert(events@ + Seq::<UserInputsChangedEvent>::empty() =~= events@);
            assert(self.data@ =~= cur);
        }
        events
    }
}

} // verus!
