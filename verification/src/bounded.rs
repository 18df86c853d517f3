use vstd::prelude::*;

verus! {

/// A control value confined to a closed interval `[min, max]`.
///
/// Panel controls, DAC words and pitch-wheel ranges are all values of this
/// shape: an integer reading together with the interval it must stay in.
/// `new` is the checked constructor; every operation that consumes a
/// `Bounded` requires `wf()`, which `new` establishes.
#[derive(Clone, Copy, PartialEq, Eq, Structural, Debug)]
pub struct Bounded {
    pub value: i32,
    pub min: i32,
    pub max: i32,
}

impl Bounded {
    /// The value lies inside its interval.
    pub open spec fn wf(self) -> bool {
        self.min <= self.value <= self.max
    }

    /// Checked constructor: `Some` exactly when `value` lies in `[min, max]`.
    pub fn new(value: i32, min: i32, max: i32) -> (r: Option<Bounded>)
        ensures
            min <= value <= max ==> r == Some(Bounded { value, min, max }),
            !(min <= value <= max) ==> r is None,
            r is Some ==> r->0.wf(),
    {
        if value < min || value > max {
            return None;
        }
        Some(Bounded { value, min, max })
    }

    /// The plain reading of the control.
    pub fn get(&self) -> (r: i32)
        ensures
            r == self.value,
    {
        self.value
    }
}

} // verus!
