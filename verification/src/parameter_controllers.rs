use vstd::prelude::*;

use crate::bounded::Bounded;
use vstd::arithmetic::div_mod::lemma_div_by_multiple;
use vstd::arithmetic::div_mod::lemma_div_is_ordered;
use vstd::arithmetic::mul::lemma_mul_inequality;

verus! {

/// The most recent raw input a controller has seen, if any.
pub struct PrevInput<T>(pub Option<T>);

impl<T> PrevInput<T> {
    /// The remembered input.
    pub open spec fn prev(self) -> Option<T> {
        self.0
    }

    /// Remembers nothing yet.
    pub fn new() -> (r: PrevInput<T>)
        ensures
            r.prev() is None,
    {
        PrevInput(None)
    }

    /// Remember `new_input` and hand back what was remembered before.
    pub fn poll(&mut self, new_input: T) -> (r: Option<T>) where T: Copy
        ensures
            r == old(self).prev(),
            final(self).prev() == Some(new_input),
    {
        let prev_input = self.0;
        self.0 = Some(new_input);
        prev_input
    }

    /// Overwrite the remembered input.
    pub fn sync(&mut self, value: Option<T>)
        ensures
            final(self).prev() == value,
    {
        self.0 = value;
    }
}

/// Take-over logic deciding when a raw panel reading becomes the new
/// value of the parameter it controls.
pub trait ParameterController: Sized {
    /// The inputs a poll accepts in the controller's current state.
    spec fn poll_req(self, current_value: Bounded, new_input: Bounded) -> bool;

    /// The controller's next state paired with its decision for one poll.
    spec fn poll_spec(self, current_value: Bounded, new_input: Bounded) -> (Self, Option<Bounded>);

    /// The controller's state after adopting a remembered input.
    spec fn sync_spec(self, prev_input: Option<Bounded>) -> Self;

    /// Feed one raw reading; `Some` carries the freshly adopted value.
    fn poll(&mut self, current_value: Bounded, new_input: Bounded) -> (r: Option<Bounded>)
        requires
            old(self).poll_req(current_value, new_input),
        ensures
            (*final(self), r) == old(self).poll_spec(current_value, new_input),
    ;

    /// Adopt a remembered input wholesale.
    fn sync(&mut self, prev_input: Option<Bounded>)
        ensures
            *final(self) == old(self).sync_spec(prev_input),
    ;

    /// Forget the remembered input.
    fn reset(&mut self)
        ensures
            *final(self) == old(self).sync_spec(None),
    {
        self.sync(None)
    }
}

/// Adopts every reading that differs from the previous one, as soon as it
/// arrives.
pub struct JumpController {
    pub prev_input: PrevInput<Bounded>,
}

impl JumpController {
    /// A controller that has seen no reading yet.
    pub fn new() -> (r: JumpController)
        ensures
            r.prev_input.prev() is None,
    {
        JumpController { prev_input: PrevInput::new() }
    }
}

impl ParameterController for JumpController {
    open spec fn poll_req(self, current_value: Bounded, new_input: Bounded) -> bool {
        true
    }

    open spec fn poll_spec(self, current_value: Bounded, new_input: Bounded) -> (
        Self,
        Option<Bounded>,
    ) {
        let next = JumpController { prev_input: PrevInput(Some(new_input)) };
        match self.prev_input.prev() {
            None => (next, None),
            Some(p) => if p.value != new_input.value {
                (next, Some(new_input))
            } else {
                (next, None)
            },
        }
    }

    open spec fn sync_spec(self, prev_input: Option<Bounded>) -> Self {
        JumpController { prev_input: PrevInput(prev_input) }
    }

    fn poll(&mut self, current_value: Bounded, new_input: Bounded) -> (r: Option<Bounded>) {
        match self.prev_input.poll(new_input) {
            None => None,
            Some(p) => if p.value != new_input.value {
                Some(new_input)
            } else {
                None
            },
        }
    }

    fn sync(&mut self, prev_input: Option<Bounded>) {
        self.prev_input.sync(prev_input);
    }
}

/// Adopts a reading only once the physical control has caught up with the
/// stored value: when the reading repeats the previous one, or the stored
/// value lies strictly between the previous and the new reading.
pub struct CatchController {
    pub prev_input: PrevInput<Bounded>,
}

impl CatchController {
    /// A controller that has seen no reading yet.
    pub fn new() -> (r: CatchController)
        ensures
            r.prev_input.prev() is None,
    {
        CatchController { prev_input: PrevInput::new() }
    }
}

impl ParameterController for CatchController {
    open spec fn poll_req(self, current_value: Bounded, new_input: Bounded) -> bool {
        true
    }

    open spec fn poll_spec(self, current_value: Bounded, new_input: Bounded) -> (
        Self,
        Option<Bounded>,
    ) {
        let next = CatchController { prev_input: PrevInput(Some(new_input)) };
        match self.prev_input.prev() {
            None => (next, None),
            Some(p) => {
                let caught = new_input.value == p.value || (new_input.value > current_value.value
                    && current_value.value > p.value) || (new_input.value < current_value.value
                    && current_value.value < p.value);
                if caught {
                    (next, Some(new_input))
                } else {
                    (next, None)
                }
            },
        }
    }

    open spec fn sync_spec(self, prev_input: Option<Bounded>) -> Self {
        CatchController { prev_input: PrevInput(prev_input) }
    }

    fn poll(&mut self, current_value: Bounded, new_input: Bounded) -> (r: Option<Bounded>) {
        match self.prev_input.poll(new_input) {
            None => None,
            Some(p) => {
                if new_input.value == p.value || (new_input.value > current_value.value
                    && current_value.value > p.value) || (new_input.value < current_value.value
                    && current_value.value < p.value) {
                    Some(new_input)
                } else {
                    None
                }
            },
        }
    }

    fn sync(&mut self, prev_input: Option<Bounded>) {
        self.prev_input.sync(prev_input);
    }
}

/// Linear take-over mapping: where `x` sits inside `[from_lo, from_hi]`,
/// rescaled into `[to_lo, to_hi]`; integer division rounds down.
pub open spec fn scale_map(x: int, from_lo: int, from_hi: int, to_lo: int, to_hi: int) -> int {
    to_lo + (x - from_lo) * (to_hi - to_lo) / (from_hi - from_lo)
}

/// Rescales the remaining travel of the physical control onto the
/// remaining range of the stored value, so the parameter glides from its
/// stored value to the end of the range the control is moving towards.
pub struct ScaleController {
    pub prev_input: PrevInput<Bounded>,
}

impl ScaleController {
    /// A controller that has seen no reading yet.
    pub fn new() -> (r: ScaleController)
        ensures
            r.prev_input.prev() is None,
    {
        ScaleController { prev_input: PrevInput::new() }
    }
}

impl ParameterController for ScaleController {
    /// Readings and the stored value must be well formed and share one
    /// interval; the remembered input, when present, must live in it too.
    open spec fn poll_req(self, current_value: Bounded, new_input: Bounded) -> bool {
        &&& current_value.wf()
        &&& new_input.wf()
        &&& current_value.min == new_input.min
        &&& current_value.max == new_input.max
        &&& match self.prev_input.prev() {
            None => true,
            Some(p) => p.wf() && p.min == new_input.min && p.max == new_input.max,
        }
    }

    open spec fn poll_spec(self, current_value: Bounded, new_input: Bounded) -> (
        Self,
        Option<Bounded>,
    ) {
        let next = ScaleController { prev_input: PrevInput(Some(new_input)) };
        let lo = new_input.min;
        let hi = new_input.max;
        match self.prev_input.prev() {
            None => (next, None),
            Some(p) => if new_input.value < p.value {
                (
                    next,
                    Some(
                        Bounded {
                            value: scale_map(
                                new_input.value as int,
                                lo as int,
                                p.value as int,
                                lo as int,
                                current_value.value as int,
                            ) as i32,
                            min: lo,
                            max: hi,
                        },
                    ),
                )
            } else if new_input.value > p.value {
                (
                    next,
                    Some(
                        Bounded {
                            value: scale_map(
                                new_input.value as int,
                                p.value as int,
                                hi as int,
                                current_value.value as int,
                                hi as int,
                            ) as i32,
                            min: lo,
                            max: hi,
                        },
                    ),
                )
            } else {
                (next, None)
            },
        }
    }

    open spec fn sync_spec(self, prev_input: Option<Bounded>) -> Self {
        ScaleController { prev_input: PrevInput(prev_input) }
    }

    fn poll(&mut self, current_value: Bounded, new_input: Bounded) -> (r: Option<Bounded>) {
        let lo = new_input.min;
        let hi = new_input.max;
        let cv = current_value.value;
        let v = new_input.value;
        match self.prev_input.poll(new_input) {
            None => None,
            Some(p) => {
                let pv = p.value;
                if v < pv {
                    // remaining downward travel [lo, pv] maps onto [lo, cv]
                    let num_a: u64 = (v as i64 - lo as i64) as u64;
                    let num_b: u64 = (cv as i64 - lo as i64) as u64;
                    let den: u64 = (pv as i64 - lo as i64) as u64;
                    proof {
                        assert(num_a * num_b <= 0xffff_ffffu64 * 0xffff_ffffu64)
                            by (nonlinear_arith)
                            requires
                                num_a <= 0xffff_ffffu64,
                                num_b <= 0xffff_ffffu64,
                        ;
                        lemma_mul_inequality(num_a as int, den as int, num_b as int);
                        lemma_div_is_ordered(
                            (num_a * num_b) as int,
                            (den * num_b) as int,
                            den as int,
                        );
                        lemma_div_by_multiple(num_b as int, den as int);
                    }
                    let q: u64 = (num_a * num_b) / den;
                    let value: i32 = (lo as i64 + q as i64) as i32;
                    Some(Bounded { value, min: lo, max: hi })
                } else if v > pv {
                    // remaining upward travel [pv, hi] maps onto [cv, hi]
                    let num_a: u64 = (v as i64 - pv as i64) as u64;
                    let num_b: u64 = (hi as i64 - cv as i64) as u64;
                    let den: u64 = (hi as i64 - pv as i64) as u64;
                    proof {
                        assert(num_a * num_b <= 0xffff_ffffu64 * 0xffff_ffffu64)
                            by (nonlinear_arith)
                            requires
                                num_a <= 0xffff_ffffu64,
                                num_b <= 0xffff_ffffu64,
                        ;
                        lemma_mul_inequality(num_a as int, den as int, num_b as int);
                        lemma_div_is_ordered(
                            (num_a * num_b) as int,
                            (den * num_b) as int,
                            den as int,
                        );
                        lemma_div_by_multiple(num_b as int, den as int);
                    }
                    let q: u64 = (num_a * num_b) / den;
                    let value: i32 = (cv as i64 + q as i64) as i32;
                    Some(Bounded { value, min: lo, max: hi })
                } else {
                    None
                }
            },
        }
    }

    fn sync(&mut self, prev_input: Option<Bounded>) {
        self.prev_input.sync(prev_input);
    }
}

} // verus!
