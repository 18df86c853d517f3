use vstd::prelude::*;

use crate::flow::lemma_remove_entry;
use vstd::arithmetic::div_mod::lemma_fundamental_div_mod;

verus! {

/// A distinct sequence of field indices drawn from `0..bound` cannot be
/// longer than that range.
proof fn lemma_distinct_indices_len(m: Seq<usize>, bound: int)
    requires
        m.no_duplicates(),
        forall|k: int| 0 <= k < m.len() ==> (#[trigger] m[k]) < bound,
        bound >= 0,
    ensures
        m.len() <= bound,
    decreases bound,
{
    if bound > 0 {
        if exists|i: int| 0 <= i < m.len() && m[i] == bound - 1 {
            let i = choose|i: int| 0 <= i < m.len() && m[i] == bound - 1;
            let m2 = m.remove(i);
            lemma_remove_entry(m, i);
            assert forall|k: int| 0 <= k < m2.len() implies (#[trigger] m2[k]) < bound - 1 by {
                let q: int = if k < i {
                    k
                } else {
                    k + 1
                };
                assert(m2[k] == m[q]);
                assert(m[q] != m[i]);
            }
            lemma_distinct_indices_len(m2, bound - 1);
        } else {
            assert forall|k: int| 0 <= k < m.len() implies (#[trigger] m[k]) < bound - 1 by {
                assert(m[k] != bound - 1);
            }
            lemma_distinct_indices_len(m, bound - 1);
        }
    } else {
        if m.len() > 0 {
            assert(m[0] < 0);
            assert(false);
        }
    }
}

/// A sink for one field's freshly read value.
pub trait FieldSetter<T>: Sized {
    /// When the sink accepts a call.
    spec fn set_req(self, value: T) -> bool;

    /// How the state after accepting `value` relates to the state before.
    spec fn set_post(self, post: Self, value: T) -> bool;

    /// Accept `value`.
    fn set(&mut self, value: T)
        requires
            old(self).set_req(value),
        ensures
            old(self).set_post(*final(self), value),
    ;
}

impl<T> FieldSetter<T> for Option<T> {
    open spec fn set_req(self, value: T) -> bool {
        true
    }

    open spec fn set_post(self, post: Self, value: T) -> bool {
        post == Some(value)
    }

    fn set(&mut self, value: T) {
        *self = Some(value);
    }
}

/// Collects at most one value per field: a bitmap remembers which fields
/// have already reported, and the first value each field reports is kept,
/// in report order. Repeated reports of one field change nothing.
pub struct BitFieldSetters<T> {
    bits: Vec<u32>,
    values: Vec<T>,
    count: usize,
}

impl<T> BitFieldSetters<T> {
    /// Whether field `i` has reported a value.
    pub closed spec fn seen(self, i: int) -> bool {
        (self.bits@[i / 32] >> ((i % 32) as u32)) & 1u32 == 1u32
    }

    /// The values reported so far, first report first.
    pub closed spec fn collected(self) -> Seq<T> {
        self.values@
    }

    /// How many field indices the bitmap can hold.
    pub closed spec fn capacity(self) -> int {
        self.bits@.len() * 32int
    }

    /// The collected values and their counter agree.
    pub closed spec fn wf(self) -> bool {
        self.count == self.values@.len()
    }

    /// Room for fields `0 .. 32 * words`, none seen yet.
    pub fn new(words: usize) -> (r: BitFieldSetters<T>)
        requires
            words <= usize::MAX / 32,
        ensures
            r.wf(),
            r.capacity() == words * 32,
            forall|i: int| 0 <= i < r.capacity() ==> !r.seen(i),
            r.collected() =~= Seq::<T>::empty(),
    {
        let mut bits: Vec<u32> = Vec::new();
        let mut k: usize = 0;
        while k < words
            invariant
                k <= words,
                bits@.len() == k,
                forall|w: int| 0 <= w < k ==> bits@[w] == 0u32,
            decreases words - k,
        {
            bits.push(0u32);
            k = k + 1;
        }
        let r = BitFieldSetters { bits, values: Vec::new(), count: 0 };
        proof {
            assert forall|i: int| 0 <= i < r.capacity() implies !r.seen(i) by {
                assert(0 <= i / 32 < r.bits@.len()) by (nonlinear_arith)
                    requires
                        0 <= i < r.bits@.len() * 32,
                ;
                let sh = (i % 32) as u32;
                assert((0u32 >> sh) & 1u32 == 0u32) by (bit_vector);
            }
        }
        r
    }

    /// Record `value` for field `index` unless the field already reported:
    /// the first value wins, and values arrive in first-report order.
    pub fn set_at(&mut self, index: usize, value: T)
        requires
            old(self).wf(),
            (index as int) < old(self).capacity(),
        ensures
            final(self).wf(),
            final(self).capacity() == old(self).capacity(),
            final(self).seen(index as int),
            forall|i: int|
                0 <= i < old(self).capacity() && i != index ==> final(self).seen(i) == old(
                    self,
                ).seen(i),
            !old(self).seen(index as int) ==> final(self).collected() == old(
                self,
            ).collected().push(value),
            old(self).seen(index as int) ==> *final(self) == *old(self),
    {
        let w = index / 32;
        let b: u32 = (index % 32) as u32;
        proof {
            assert(0 <= (index as int) / 32 < self.bits@.len()) by (nonlinear_arith)
                requires
                    0 <= (index as int) < self.bits@.len() * 32,
            ;
        }
        let word = self.bits[w];
        let mask: u32 = 1u32 << b;
        proof {
            assert((word & (1u32 << b) == 0u32) == !((word >> b) & 1u32 == 1u32)) by (bit_vector)
                requires
                    b < 32u32,
            ;
        }
        if word & mask == 0 {
            self.bits[w] = word | mask;
            self.values.push(value);
            self.count = self.values.len();
            proof {
                let nw = word | (1u32 << b);
                assert((nw >> b) & 1u32 == 1u32) by (bit_vector)
                    requires
                        b < 32u32,
                        nw == word | (1u32 << b),
                ;
                assert forall|i: int|
                    0 <= i < old(self).capacity() && i != index implies self.seen(i) == old(
                    self,
                ).seen(i) by {
                    assert(0 <= i / 32 < self.bits@.len()) by (nonlinear_arith)
                        requires
                            0 <= i < self.bits@.len() * 32,
                    ;
                    if i / 32 == w as int {
                        let sh = (i % 32) as u32;
                        assert(sh != b) by {
                            if sh == b {
                                lemma_fundamental_div_mod(i, 32);
                                lemma_fundamental_div_mod(index as int, 32);
                            }
                        }
                        assert((nw >> sh) & 1u32 == (word >> sh) & 1u32) by (bit_vector)
                            requires
                                b < 32u32,
                                sh < 32u32,
                                sh != b,
                                nw == word | (1u32 << b),
                        ;
                    }
                }
            }
        }
    }

    /// Whether field `index` has reported a value.
    pub fn is_seen(&self, index: usize) -> (r: bool)
        requires
            (index as int) < self.capacity(),
        ensures
            r == self.seen(index as int),
    {
        let w = index / 32;
        let b: u32 = (index % 32) as u32;
        proof {
            assert(0 <= (index as int) / 32 < self.bits@.len()) by (nonlinear_arith)
                requires
                    0 <= (index as int) < self.bits@.len() * 32,
            ;
        }
        let word = self.bits[w];
        proof {
            assert((word & (1u32 << b) != 0u32) == ((word >> b) & 1u32 == 1u32)) by (bit_vector)
                requires
                    b < 32u32,
            ;
        }
        word & (1u32 << b) != 0
    }

    /// How many values have been collected.
    pub fn collected_len(&self) -> (n: usize)
        requires
            self.wf(),
        ensures
            n == self.collected().len(),
    {
        self.count
    }

    /// The `k`-th collected value, in first-report order.
    pub fn value_at(&self, k: usize) -> (r: &T)
        requires
            (k as int) < self.collected().len(),
        ensures
            *r == self.collected()[k as int],
    {
        &self.values[k]
    }
}

/// Keeps the latest value per field: a position table gives each field at
/// most one slot among the collected values — slots are handed out in
/// first-report order — and a repeated report overwrites its slot in
/// place.
pub struct PerfFieldSetters<T> {
    pos: Vec<u16>,
    values: Vec<T>,
    count: usize,
    assigned: Ghost<Seq<usize>>,
}

impl<T> PerfFieldSetters<T> {
    /// The fields that have reported, in first-report order.
    pub closed spec fn fields(self) -> Seq<usize> {
        self.assigned@
    }

    /// The latest values, one per reported field, in first-report order.
    pub closed spec fn collected(self) -> Seq<T> {
        self.values@
    }

    /// How many field indices the table can hold.
    pub closed spec fn capacity(self) -> int {
        self.pos@.len() as int
    }

    /// The latest value field `i` reported, if any.
    pub closed spec fn entry(self, i: int) -> Option<T> {
        if self.pos@[i] == 0u16 {
            None
        } else {
            Some(self.values@[self.pos@[i] - 1])
        }
    }

    /// The position table and the collected values tell one consistent
    /// story: each reported field owns exactly the slot its table entry
    /// names, and unreported fields have no slot.
    pub closed spec fn wf(self) -> bool {
        &&& self.count == self.values@.len()
        &&& self.count == self.assigned@.len()
        &&& self.assigned@.no_duplicates()
        &&& self.pos@.len() <= 0xfffe
        &&& forall|k: int|
            0 <= k < self.assigned@.len() ==> (#[trigger] self.assigned@[k]) < self.pos@.len()
        &&& forall|k: int|
            0 <= k < self.assigned@.len() ==> self.pos@[(#[trigger] self.assigned@[k]) as int]
                == k + 1
        &&& forall|i: int|
            0 <= i < self.pos@.len() && !self.assigned@.contains(i as usize) ==> (
            #[trigger] self.pos@[i]) == 0u16
    }

    /// Room for fields `0 .. fields`, none reported yet.
    pub fn new(fields: usize) -> (r: PerfFieldSetters<T>)
        requires
            fields <= 0xfffe,
        ensures
            r.wf(),
            r.capacity() == fields,
            r.fields() =~= Seq::<usize>::empty(),
            r.collected() =~= Seq::<T>::empty(),
            forall|i: int| 0 <= i < r.capacity() ==> r.entry(i) is None,
    {
        let mut pos: Vec<u16> = Vec::new();
        let mut k: usize = 0;
        while k < fields
            invariant
                k <= fields,
                pos@.len() == k,
                forall|w: int| 0 <= w < k ==> pos@[w] == 0u16,
            decreases fields - k,
        {
            pos.push(0u16);
            k = k + 1;
        }
        PerfFieldSetters { pos, values: Vec::new(), count: 0, assigned: Ghost(Seq::empty()) }
    }

    /// Record `value` as the latest report of field `index`: a first
    /// report appends a fresh slot, a repeated report overwrites the
    /// field's own slot and nothing else.
    pub fn set_at(&mut self, index: usize, value: T)
        requires
            old(self).wf(),
            (index as int) < old(self).capacity(),
        ensures
            final(self).wf(),
            final(self).capacity() == old(self).capacity(),
            final(self).entry(index as int) == Some(value),
            forall|i: int|
                0 <= i < old(self).capacity() && i != index ==> final(self).entry(i) == old(
                    self,
                ).entry(i),
            old(self).entry(index as int) is None ==> final(self).fields() == old(
                self,
            ).fields().push(index) && final(self).collected() == old(self).collected().push(value),
            old(self).entry(index as int) is Some ==> final(self).fields() == old(self).fields()
                && final(self).collected() == old(self).collected().update(
                old(self).fields().index_of(index),
                value,
            ),
    {
        let ghost m = self.assigned@;
        let p = self.pos[index];
        if p == 0 {
            proof {
                assert(!m.contains(index)) by {
                    if m.contains(index) {
                        let k = choose|k: int| 0 <= k < m.len() && m[k] == index;
                        assert(self.pos@[index as int] == k + 1);
                    }
                }
                lemma_distinct_indices_len(m, self.pos@.len() as int);
            }
            self.values.push(value);
            let slot: u16 = (self.count as u16) + 1;
            self.pos[index] = slot;
            self.count = self.count + 1;
            self.assigned = Ghost(m.push(index));
            proof {
                let m2 = self.assigned@;
                assert forall|i1: int, i2: int|
                    0 <= i1 < m2.len() && 0 <= i2 < m2.len() && i1 != i2 implies m2[i1]
                    != m2[i2] by {
                    if i1 < m.len() && i2 < m.len() {
                        assert(m2[i1] == m[i1] && m2[i2] == m[i2]);
                    }
                }
                assert forall|i: int|
                    0 <= i < self.pos@.len() && !m2.contains(i as usize) implies (
                #[trigger] self.pos@[i]) == 0u16 by {
                    assert(m2[m.len() as int] == index);
                    assert(i != index);
                    if m.contains(i as usize) {
                        let k = choose|k: int| 0 <= k < m.len() && m[k] == i as usize;
                        assert(m2[k] == m[k]);
                        assert(false);
                    }
                }
                assert forall|i: int|
                    0 <= i < old(self).capacity() && i != index implies self.entry(i) == old(
                    self,
                ).entry(i) by {
                    if old(self).pos@[i] != 0u16 {
                        assert(m.contains(i as usize)) by {
                            if !m.contains(i as usize) {
                                assert(old(self).pos@[i] == 0u16);
                            }
                        }
                        let k = choose|k: int| 0 <= k < m.len() && m[k] == i as usize;
                        assert(old(self).pos@[i] == k + 1);
                        assert(self.values@[k] == old(self).values@[k]);
                    }
                }
            }
        } else {
            let slot = (p - 1) as usize;
            proof {
                assert(m.contains(index)) by {
                    if !m.contains(index) {
                        assert(self.pos@[index as int] == 0u16);
                    }
                }
                let k0 = choose|k: int| 0 <= k < m.len() && m[k] == index;
                assert(self.pos@[index as int] == k0 + 1);
                assert(slot == k0);
                assert(m.index_of(index) == k0) by {
                    let kk = m.index_of(index);
                    assert(0 <= kk < m.len() && m[kk] == index);
                }
            }
            self.values[slot] = value;
            proof {
                let k0 = slot as int;
                assert forall|i: int|
                    0 <= i < old(self).capacity() && i != index implies self.entry(i) == old(
                    self,
                ).entry(i) by {
                    if old(self).pos@[i] != 0u16 {
                        assert(m.contains(i as usize)) by {
                            if !m.contains(i as usize) {
                                assert(old(self).pos@[i] == 0u16);
                            }
                        }
                        let k = choose|k: int| 0 <= k < m.len() && m[k] == i as usize;
                        assert(old(self).pos@[i] == k + 1);
                        assert(k != k0) by {
                            assert(m[k0] == index);
                        }
                        assert(self.values@[k] == old(self).values@[k]);
                    }
                }
            }
        }
    }

    /// Whether field `index` has reported a value.
    pub fn has_entry(&self, index: usize) -> (r: bool)
        requires
            (index as int) < self.capacity(),
        ensures
            r == (self.entry(index as int) is Some),
    {
        self.pos[index] != 0
    }

    /// The latest value field `index` reported.
    pub fn entry_at(&self, index: usize) -> (r: &T)
        requires
            self.wf(),
            (index as int) < self.capacity(),
            self.entry(index as int) is Some,
        ensures
            Some(*r) == self.entry(index as int),
    {
        let p = self.pos[index];
        proof {
            let m = self.assigned@;
            assert(m.contains(index)) by {
                if !m.contains(index) {
                    assert(self.pos@[index as int] == 0u16);
                }
            }
            let k0 = choose|k: int| 0 <= k < m.len() && m[k] == index;
            assert(self.pos@[index as int] == k0 + 1);
        }
        &self.values[(p - 1) as usize]
    }

    /// How many fields have reported.
    pub fn collected_len(&self) -> (n: usize)
        requires
            self.wf(),
        ensures
            n == self.collected().len(),
    {
        self.count
    }

    /// The `k`-th collected value, in first-report order.
    pub fn value_at(&self, k: usize) -> (r: &T)
        requires
            (k as int) < self.collected().len(),
        ensures
            *r == self.collected()[k as int],
    {
        &self.values[k]
    }
}

/// One field's handle into a `PerfFieldSetters`: setting through it
/// records the value as the latest report of the field it names.
pub struct PerfFieldLeafSetter<T> {
    pub setters: PerfFieldSetters<T>,
    pub index: usize,
}

impl<T> FieldSetter<T> for PerfFieldLeafSetter<T> {
    open spec fn set_req(self, value: T) -> bool {
        self.setters.wf() && (self.index as int) < self.setters.capacity()
    }

    open spec fn set_post(self, post: Self, value: T) -> bool {
        &&& post.index == self.index
        &&& post.setters.wf()
        &&& post.setters.capacity() == self.setters.capacity()
        &&& post.setters.entry(self.index as int) == Some(value)
        &&& forall|i: int|
            0 <= i < self.setters.capacity() && i != self.index ==> post.setters.entry(i)
                == self.setters.entry(i)
        &&& self.setters.entry(self.index as int) is None ==> post.setters.fields()
            == self.setters.fields().push(self.index) && post.setters.collected()
            == self.setters.collected().push(value)
        &&& self.setters.entry(self.index as int) is Some ==> post.setters.fields()
            == self.setters.fields() && post.setters.collected()
            == self.setters.collected().update(self.setters.fields().index_of(self.index), value)
    }

    fn set(&mut self, value: T) {
        self.setters.set_at(self.index, value);
    }
}

/// One field's handle into a `BitFieldSetters`: setting through it records
/// the value for the field it names.
pub struct BitFieldLeafSetter<T> {
    pub setters: BitFieldSetters<T>,
    pub index: usize,
}

impl<T> FieldSetter<T> for BitFieldLeafSetter<T> {
    open spec fn set_req(self, value: T) -> bool {
        self.setters.wf() && (self.index as int) < self.setters.capacity()
    }

    open spec fn set_post(self, post: Self, value: T) -> bool {
        &&& post.index == self.index
        &&& post.setters.wf()
        &&& post.setters.capacity() == self.setters.capacity()
        &&& post.setters.seen(self.index as int)
        &&& forall|i: int|
            0 <= i < self.setters.capacity() && i != self.index ==> post.setters.seen(i)
                == self.setters.seen(i)
        &&& !self.setters.seen(self.index as int) ==> post.setters.collected()
            == self.setters.collected().push(value)
        &&& self.setters.seen(self.index as int) ==> post.setters == self.setters
    }

    fn set(&mut self, value: T) {
        self.setters.set_at(self.index, value);
    }
}

} // verus!
