use vstd::prelude::*;

verus! {

/// Sentinel slot index standing for "no node": the dangling value an
/// unattached link carries in place of a real slot index.
pub const NIL: usize = usize::MAX;

/// The raw prev/next intrusive link embedded in every attachable node.
///
/// A link names its neighbours by slot index inside the owning `Ring`'s
/// slot table; `NIL` in both fields marks a link attached to nothing.
/// The link owns no data, only topology.
#[derive(Clone, Copy, PartialEq, Eq, Structural, Debug)]
pub struct RingNodeLinks {
    pub prev: usize,
    pub next: usize,
}

impl RingNodeLinks {
    /// Both directions carry the dangling sentinel.
    pub open spec fn is_dangling(self) -> bool {
        self.prev == NIL && self.next == NIL
    }

    /// A fresh, unattached link.
    pub fn dangling() -> (r: RingNodeLinks)
        ensures
            r.is_dangling(),
    {
        RingNodeLinks { prev: NIL, next: NIL }
    }

    /// Make the link a self-loop at its own slot `me`; only valid for ring
    /// roots, which is where `Ring::init` uses it.
    pub fn init(&mut self, me: usize)
        ensures
            final(self).prev == me,
            final(self).next == me,
    {
        self.prev = me;
        self.next = me;
    }

    /// Whether the link is attached to nothing, by comparing its `prev`
    /// against the dangling sentinel.
    pub fn is_unattached(&self) -> (r: bool)
        ensures
            r == (self.prev == NIL),
    {
        self.prev == NIL
    }
}

/// An attachable element of a ring: anything that embeds a `RingNodeLinks`.
pub trait RingNode {
    /// The embedded link, as specification-level data.
    spec fn links_spec(&self) -> RingNodeLinks;

    /// Read the embedded link.
    fn node_links(&self) -> (r: RingNodeLinks)
        ensures
            r == self.links_spec(),
    ;
}

/// Derived link accessors shared by every `RingNode`.
pub trait RingNodeExt: RingNode {
    /// The slot index the link names as its predecessor.
    fn prev(&self) -> (r: usize)
        ensures
            r == self.links_spec().prev,
    ;

    /// The slot index the link names as its successor.
    fn next(&self) -> (r: usize)
        ensures
            r == self.links_spec().next,
    ;
}

impl<N: RingNode> RingNodeExt for N {
    fn prev(&self) -> (r: usize) {
        self.node_links().prev
    }

    fn next(&self) -> (r: usize) {
        self.node_links().next
    }
}

impl RingNode for RingNodeLinks {
    open spec fn links_spec(&self) -> RingNodeLinks {
        *self
    }

    fn node_links(&self) -> (r: RingNodeLinks) {
        *self
    }
}

/// The listener capability, invoked once per attached node per emission.
pub trait RingCollector<V, Cxt>: Sized {
    /// The functional meaning of one invocation: the listener's next state
    /// paired with the context's next value.
    spec fn on_event_spec(self, value: V, cxt: Cxt) -> (Self, Cxt);

    /// React to one emission of `value`, mutating private state and the
    /// shared `context`; there is no failure channel.
    fn emit(&mut self, value: &V, context: &mut Cxt)
        ensures
            (*final(self), *final(context)) == old(self).on_event_spec(*value, *old(context)),
    ;
}

/// A detached subscriber: one listener coupled with its (still dangling)
/// link, ready to be handed to a `Ring`.
pub struct RingNodeWithData<T> {
    node: RingNodeLinks,
    data: T,
}

impl<T> View for RingNodeWithData<T> {
    type V = T;

    closed spec fn view(&self) -> T {
        self.data
    }
}

impl<T> RingNodeWithData<T> {
    /// The embedded link is still the dangling sentinel.
    pub closed spec fn detached(self) -> bool {
        self.node.is_dangling()
    }

    /// Couple a listener with a fresh, unattached link.
    pub fn new(data: T) -> (n: RingNodeWithData<T>)
        ensures
            n@ == data,
            n.detached(),
    {
        RingNodeWithData { node: RingNodeLinks::dangling(), data }
    }

    /// Mutable view of the listener.
    pub fn data_mut(&mut self) -> (d: &mut T)
        ensures
            *d == old(self)@,
            final(self)@ == *final(d),
            final(self).detached() == old(self).detached(),
    {
        &mut self.data
    }
}

impl<T> RingNode for RingNodeWithData<T> {
    closed spec fn links_spec(&self) -> RingNodeLinks {
        self.node
    }

    fn node_links(&self) -> (r: RingNodeLinks) {
        self.node
    }
}

/// Successor of position `k` in the cyclic order described by `s`.
pub open spec fn next_in(s: Seq<usize>, k: int) -> usize {
    if k + 1 < s.len() {
        s[k + 1]
    } else {
        s[0]
    }
}

/// Predecessor of position `k` in the cyclic order described by `s`.
pub open spec fn prev_in(s: Seq<usize>, k: int) -> usize {
    if k == 0 {
        s[s.len() - 1]
    } else {
        s[k - 1]
    }
}

/// The slot at position `k` of the cyclic order `s` is wired to its cyclic
/// neighbours.
pub open spec fn wired_at(links: Seq<RingNodeLinks>, s: Seq<usize>, k: int) -> bool {
    &&& links[s[k] as int].next == next_in(s, k)
    &&& links[s[k] as int].prev == prev_in(s, k)
}

/// The whole cyclic order `s` is wired: prev/next form one consistent
/// doubly-linked cycle through exactly the slots `s` lists.
pub open spec fn ring_wired(links: Seq<RingNodeLinks>, s: Seq<usize>) -> bool {
    forall|k: int| 0 <= k < s.len() ==> #[trigger] wired_at(links, s, k)
}

/// Ring membership after detaching node `n`: `n`'s entry is removed, every
/// other entry keeps its place.
pub open spec fn spec_detach(m: Seq<usize>, n: usize) -> Seq<usize> {
    if m.contains(n) {
        m.remove(m.index_of(n))
    } else {
        m
    }
}

/// Ring membership after inserting node `n` immediately before `t` (before
/// the root when `t == 0`, which appends `n` at the end of the traversal
/// order): `n` first leaves whatever place it held.
pub open spec fn spec_insert_before(m: Seq<usize>, n: usize, t: usize) -> Seq<usize> {
    let m1 = spec_detach(m, n);
    if t == 0 {
        m1.push(n)
    } else {
        m1.insert(m1.index_of(t), n)
    }
}

/// Removing an entry keeps a distinct sequence distinct, keeps every other
/// value, and drops the removed one.
pub(crate) proof fn lemma_remove_entry(m: Seq<usize>, j: int)
    requires
        m.no_duplicates(),
        0 <= j < m.len(),
    ensures
        m.remove(j).no_duplicates(),
        !m.remove(j).contains(m[j]),
        forall|x: usize| #[trigger] m.remove(j).contains(x) ==> m.contains(x),
        forall|x: usize| m.contains(x) && x != m[j] ==> #[trigger] m.remove(j).contains(x),
{
    let m1 = m.remove(j);
    assert forall|i1: int, i2: int|
        0 <= i1 < m1.len() && 0 <= i2 < m1.len() && i1 != i2 implies m1[i1] != m1[i2] by {
        let k1: int = if i1 < j { i1 } else { i1 + 1 };
        let k2: int = if i2 < j { i2 } else { i2 + 1 };
        assert(m1[i1] == m[k1] && m1[i2] == m[k2]);
    }
    assert forall|i1: int| 0 <= i1 < m1.len() implies m1[i1] != m[j] by {
        let k1: int = if i1 < j { i1 } else { i1 + 1 };
        assert(m1[i1] == m[k1]);
    }
    assert forall|x: usize| m.contains(x) && x != m[j] implies #[trigger] m.remove(j).contains(
        x,
    ) by {
        let q = choose|q: int| 0 <= q < m.len() && m[q] == x;
        if q < j {
            assert(m1[q] == m[q]);
        } else {
            assert(m1[q - 1] == m[q]);
        }
    }
    assert forall|x: usize| #[trigger] m1.contains(x) implies m.contains(x) by {
        let q = choose|q: int| 0 <= q < m1.len() && m1[q] == x;
        let k: int = if q < j { q } else { q + 1 };
        assert(m[k] == m1[q]);
    }
}

/// A distinct sequence of slot indices drawn from `1..bound` cannot be
/// longer than that range.
proof fn lemma_distinct_bounded_len(m: Seq<usize>, bound: int)
    requires
        m.no_duplicates(),
        forall|k: int| 0 <= k < m.len() ==> 1 <= #[trigger] m[k] < bound,
        bound >= 1,
    ensures
        m.len() <= bound - 1,
    decreases bound,
{
    if bound > 1 {
        if exists|i: int| 0 <= i < m.len() && m[i] == bound - 1 {
            let i = choose|i: int| 0 <= i < m.len() && m[i] == bound - 1;
            let m2 = m.remove(i);
            lemma_remove_entry(m, i);
            assert forall|k: int| 0 <= k < m2.len() implies 1 <= #[trigger] m2[k] < bound - 1 by {
                let q: int = if k < i { k } else { k + 1 };
                assert(m2[k] == m[q]);
                assert(m[q] != m[i]);
            }
            lemma_distinct_bounded_len(m2, bound - 1);
        } else {
            assert forall|k: int| 0 <= k < m.len() implies 1 <= #[trigger] m[k] < bound - 1 by {
                assert(m[k] != bound - 1);
            }
            lemma_distinct_bounded_len(m, bound - 1);
        }
    } else {
        if m.len() > 0 {
            assert(1 <= m[0]);
            assert(m[0] < bound);
            assert(false);
        }
    }
}

/// Inserting a fresh entry keeps a distinct sequence distinct and adds
/// exactly that one value.
proof fn lemma_insert_entry(m: Seq<usize>, j: int, v: usize)
    requires
        m.no_duplicates(),
        0 <= j <= m.len(),
        !m.contains(v),
    ensures
        m.insert(j, v).no_duplicates(),
        m.insert(j, v).contains(v),
        m.insert(j, v).len() == m.len() + 1,
        forall|x: usize| m.contains(x) ==> #[trigger] m.insert(j, v).contains(x),
        forall|x: usize| #[trigger] m.insert(j, v).contains(x) ==> x == v || m.contains(x),
{
    let m2 = m.insert(j, v);
    assert forall|i1: int, i2: int|
        0 <= i1 < m2.len() && 0 <= i2 < m2.len() && i1 != i2 implies m2[i1] != m2[i2] by {
        if i1 != j && i2 != j {
            let k1: int = if i1 < j { i1 } else { i1 - 1 };
            let k2: int = if i2 < j { i2 } else { i2 - 1 };
            assert(m2[i1] == m[k1] && m2[i2] == m[k2]);
        } else if i1 == j {
            let k2: int = if i2 < j { i2 } else { i2 - 1 };
            assert(m2[i2] == m[k2]);
            assert(m2[i1] == v);
        } else {
            let k1: int = if i1 < j { i1 } else { i1 - 1 };
            assert(m2[i1] == m[k1]);
            assert(m2[i2] == v);
        }
    }
    assert(m2[j] == v);
    assert forall|x: usize| m.contains(x) implies #[trigger] m2.contains(x) by {
        let q = choose|q: int| 0 <= q < m.len() && m[q] == x;
        if q < j {
            assert(m2[q] == m[q]);
        } else {
            assert(m2[q + 1] == m[q]);
        }
    }
    assert forall|x: usize| #[trigger] m2.contains(x) implies x == v || m.contains(x) by {
        let q = choose|q: int| 0 <= q < m2.len() && m2[q] == x;
        if q != j {
            let k: int = if q < j { q } else { q - 1 };
            assert(m2[q] == m[k]);
        }
    }
}

/// After splicing the detached slot `node` into the wired order `s` at
/// position `ins` — between its new predecessor and successor — the longer
/// order is wired again.
proof fn lemma_splice_wired(
    links: Seq<RingNodeLinks>,
    links2: Seq<RingNodeLinks>,
    s: Seq<usize>,
    node: usize,
    ins: int,
)
    requires
        ring_wired(links, s),
        s.no_duplicates(),
        forall|k: int| 0 <= k < s.len() ==> (#[trigger] s[k]) < links.len(),
        1 <= ins <= s.len(),
        (node as int) < links.len(),
        !s.contains(node),
        links2.len() == links.len(),
        ({
            let t = if ins < s.len() { s[ins] } else { s[0] };
            let tp = s[ins - 1];
            &&& forall|i: int|
                0 <= i < links.len() && i != tp as int && i != node as int && i != t as int
                    ==> links2[i] == #[trigger] links[i]
            &&& links2[node as int] == RingNodeLinks { prev: tp, next: t }
            &&& tp != t ==> links2[tp as int] == RingNodeLinks {
                prev: links[tp as int].prev,
                next: node,
            }
            &&& tp != t ==> links2[t as int] == RingNodeLinks { prev: node, next: links[t as int].next }
            &&& tp == t ==> links2[t as int] == RingNodeLinks { prev: node, next: node }
        }),
    ensures
        ring_wired(links2, s.insert(ins, node)),
{
    let t = if ins < s.len() { s[ins] } else { s[0] };
    let tp = s[ins - 1];
    let s2 = s.insert(ins, node);
    assert(s2[ins] == node);
    assert(t != node && tp != node);
    assert forall|k: int| 0 <= k < s2.len() implies #[trigger] wired_at(links2, s2, k) by {
        if k == ins {
            // the spliced node itself
            assert(next_in(s2, ins) == t) by {
                if ins + 1 < s2.len() {
                    assert(s2[ins + 1] == s[ins]);
                } else {
                    assert(s2[0] == s[0]);
                }
            }
            assert(prev_in(s2, ins) == tp) by {
                assert(s2[ins - 1] == s[ins - 1]);
            }
        } else {
            let kk: int = if k < ins { k } else { k - 1 };
            assert(s2[k] == s[kk]);
            assert(wired_at(links, s, kk));
            let x = s2[k];
            if x == tp && x == t {
                // splicing into the ring that held only this entry
                assert(s.len() == 1 && ins == 1);
                assert(k == 0 && s2.len() == 2);
                assert(next_in(s2, 0) == s2[1] && s2[1] == node);
                assert(prev_in(s2, 0) == s2[1]);
            } else if x == tp {
                assert(kk == ins - 1) by {
                    if kk != ins - 1 {
                        assert(s[kk] == s[ins - 1]);
                    }
                }
                assert(k == ins - 1);
                assert(links2[x as int].next == node);
                assert(links2[x as int].prev == links[x as int].prev);
                assert(next_in(s2, k) == s2[ins]);
                assert(prev_in(s2, k) == prev_in(s, kk)) by {
                    if k == 0 {
                        assert(ins == 1);
                        // tp != t rules the one-entry ring out of this branch
                        assert(s.len() >= 2) by {
                            if s.len() == 1 {
                                assert(t == s[0] && tp == s[0]);
                            }
                        }
                        assert(prev_in(s2, 0) == s2[s2.len() - 1]);
                        assert(s2[s2.len() - 1] == s[s.len() - 1]);
                        assert(prev_in(s, 0) == s[s.len() - 1]);
                    } else {
                        assert(prev_in(s2, k) == s2[k - 1]);
                        assert(s2[k - 1] == s[k - 1]);
                    }
                }
            } else if x == t {
                assert(links2[x as int].prev == node);
                assert(links2[x as int].next == links[x as int].next);
                if ins < s.len() {
                    assert(kk == ins) by {
                        if kk != ins {
                            assert(s[kk] == s[ins]);
                        }
                    }
                    assert(k == ins + 1);
                    assert(prev_in(s2, k) == s2[ins]);
                    assert(next_in(s2, k) == next_in(s, kk)) by {
                        if k + 1 < s2.len() {
                            assert(s2[k + 1] == s[kk + 1]);
                        } else {
                            assert(kk == s.len() - 1);
                            assert(s2[0] == s[0]);
                        }
                    }
                } else {
                    // node went to the end, so t is the entry at position 0
                    assert(t == s[0]);
                    assert(kk == 0) by {
                        if kk != 0 {
                            assert(s[kk] == s[0]);
                        }
                    }
                    assert(k == 0);
                    assert(prev_in(s2, 0) == s2[s2.len() - 1]);
                    assert(s2[s2.len() - 1] == node);
                    assert(next_in(s2, 0) == next_in(s, 0)) by {
                        assert(s2.len() >= 3) by {
                            if s.len() == 1 {
                                assert(t == s[0] && tp == s[0]);
                            }
                        }
                        assert(s2[1] == s[1]);
                    }
                }
            } else {
                assert(links2[x as int] == links[x as int]);
                assert(next_in(s2, k) == next_in(s, kk)) by {
                    if k + 1 < s2.len() {
                        if k + 1 == ins {
                            // x would be the new predecessor tp
                            assert(kk == ins - 1);
                            assert(s[kk] == tp);
                            assert(false);
                        }
                        if k < ins {
                            assert(kk == k);
                            assert(s2[k + 1] == s[k + 1]);
                            assert(next_in(s, kk) == s[kk + 1]);
                        } else {
                            assert(kk == k - 1);
                            assert(s2[k + 1] == s[k]);
                            assert(next_in(s, kk) == s[kk + 1]);
                        }
                    } else {
                        assert(k == s2.len() - 1);
                        assert(next_in(s2, k) == s2[0] && s2[0] == s[0]);
                        if ins == s2.len() - 1 {
                            // then k == ins, excluded
                            assert(false);
                        }
                        assert(kk == s.len() - 1);
                        assert(next_in(s, kk) == s[0]);
                    }
                }
                assert(prev_in(s2, k) == prev_in(s, kk)) by {
                    if k == 0 {
                        assert(kk == 0);
                        assert(prev_in(s2, 0) == s2[s2.len() - 1]);
                        if ins == s.len() {
                            // node went last: x's old predecessor gains node as
                            // its successor only if x == t, excluded here
                            assert(t == s[0] && s2[0] == s[0]);
                            assert(x == t);
                            assert(false);
                        }
                        assert(s2[s2.len() - 1] == s[s.len() - 1]);
                        assert(prev_in(s, 0) == s[s.len() - 1]);
                    } else {
                        if k - 1 == ins {
                            // x's new predecessor would be node, so x == t
                            assert(kk == ins);
                            assert(ins < s.len());
                            assert(s[kk] == t);
                            assert(false);
                        }
                        assert(prev_in(s2, k) == s2[k - 1]);
                        if k - 1 < ins {
                            assert(s2[k - 1] == s[k - 1]);
                            assert(kk == k);
                            assert(prev_in(s, kk) == s[kk - 1]);
                        } else {
                            assert(s2[k - 1] == s[k - 2]);
                            assert(kk == k - 1);
                            assert(prev_in(s, kk) == s[kk - 1]);
                        }
                    }
                }
            }
        }
    }
}

/// After unsplicing the slot at cycle position `pos` — rewiring its two
/// cyclic neighbours around it and letting its own link dangle — the
/// remaining order is wired again.
proof fn lemma_unsplice_wired(
    links: Seq<RingNodeLinks>,
    links2: Seq<RingNodeLinks>,
    s: Seq<usize>,
    pos: int,
)
    requires
        ring_wired(links, s),
        s.no_duplicates(),
        forall|k: int| 0 <= k < s.len() ==> (#[trigger] s[k]) < links.len(),
        1 <= pos < s.len(),
        links2.len() == links.len(),
        ({
            let node = s[pos];
            let p = prev_in(s, pos);
            let n = next_in(s, pos);
            &&& forall|i: int|
                0 <= i < links.len() && i != p as int && i != n as int && i != node as int
                    ==> links2[i] == #[trigger] links[i]
            &&& p != n ==> links2[p as int] == RingNodeLinks {
                prev: links[p as int].prev,
                next: n,
            }
            &&& p != n ==> links2[n as int] == RingNodeLinks { prev: p, next: links[n as int].next }
            &&& p == n ==> links2[p as int] == RingNodeLinks { prev: p, next: n }
        }),
    ensures
        ring_wired(links2, s.remove(pos)),
{
    let node = s[pos];
    let p = prev_in(s, pos);
    let n = next_in(s, pos);
    let s1 = s.remove(pos);
    assert(p == s[pos - 1]);
    assert(p != node && n != node);
    assert forall|k: int| 0 <= k < s1.len() implies #[trigger] wired_at(links2, s1, k) by {
        let kk: int = if k < pos { k } else { k + 1 };
        assert(s1[k] == s[kk]);
        assert(wired_at(links, s, kk));
        let x = s1[k];
        let nx = next_in(s1, k);
        let pv = prev_in(s1, k);
        if x == p && x == n {
            // the removed node was the only entry besides x
            assert(s.len() == 2) by {
                if pos + 1 < s.len() {
                    assert(n == s[pos + 1] && p == s[pos - 1]);
                    assert(pos + 1 == pos - 1);
                } else {
                    assert(n == s[0] && p == s[pos - 1]);
                    assert(pos - 1 == 0);
                }
            }
            assert(pos == 1 && k == 0 && s1.len() == 1);
            assert(links2[x as int] == RingNodeLinks { prev: p, next: n });
            assert(nx == s1[0] && pv == s1[0]);
            assert(s1[0] == s[0] && p == s[0] && n == s[0]);
        } else if x == p {
            assert(kk == pos - 1) by {
                if kk != pos - 1 {
                    assert(s[kk] == s[pos - 1]);
                }
            }
            assert(k == pos - 1);
            assert(links2[x as int].next == n);
            assert(links2[x as int].prev == links[x as int].prev);
            // successor in the shorter order is n
            assert(nx == n) by {
                if k + 1 < s1.len() {
                    assert(s1[k + 1] == s[pos + 1]);
                    assert(pos + 1 < s.len());
                    assert(n == s[pos + 1]);
                } else {
                    // x is last in s1, so the removed node was last in s
                    assert(k == s1.len() - 1 && pos == s.len() - 1);
                    assert(nx == s1[0] && s1[0] == s[0]);
                    assert(n == s[0]);
                }
            }
            // predecessor is unchanged
            assert(pv == prev_in(s, kk)) by {
                if k == 0 {
                    assert(pos == 1);
                    // p != n rules the two-entry ring out of this branch
                    assert(s.len() >= 3) by {
                        if s.len() == 2 {
                            assert(n == next_in(s, 1));
                            assert(n == s[0] && p == s[0]);
                        }
                    }
                    assert(pv == s1[s1.len() - 1]);
                    assert(s1.len() - 1 >= pos);
                    assert(s1[s1.len() - 1] == s[s.len() - 1]);
                    assert(prev_in(s, 0) == s[s.len() - 1]);
                } else {
                    assert(pv == s1[k - 1]);
                    assert(k - 1 < pos);
                    assert(s1[k - 1] == s[k - 1]);
                    assert(prev_in(s, kk) == s[kk - 1]);
                }
            }
        } else if x == n {
            assert(links2[x as int].prev == p);
            assert(links2[x as int].next == links[x as int].next);
            if pos + 1 < s.len() {
                assert(n == s[pos + 1]);
                assert(kk == pos + 1) by {
                    if kk != pos + 1 {
                        assert(s[kk] == s[pos + 1]);
                    }
                }
                assert(k == pos);
                assert(pv == s1[k - 1] && s1[k - 1] == s[pos - 1]);
                assert(nx == next_in(s, kk)) by {
                    if k + 1 < s1.len() {
                        assert(s1[k + 1] == s[kk + 1]);
                        assert(kk + 1 < s.len());
                    } else {
                        assert(kk == s.len() - 1);
                        assert(nx == s1[0] && s1[0] == s[0]);
                    }
                }
            } else {
                // the removed node was last in s, so n is the root
                assert(n == s[0]);
                assert(kk == 0) by {
                    if kk != 0 {
                        assert(s[kk] == s[0]);
                    }
                }
                assert(k == 0 && pos == s.len() - 1);
                // p != n rules the two-entry ring out of this branch
                assert(s.len() >= 3) by {
                    if s.len() == 2 {
                        assert(p == s[0]);
                    }
                }
                assert(pv == s1[s1.len() - 1]);
                assert(s1.len() - 1 == pos - 1 && pos - 1 < pos);
                assert(s1[s1.len() - 1] == s[pos - 1]);
                assert(nx == next_in(s, 0)) by {
                    assert(1 < s1.len());
                    assert(s1[1] == s[1]);
                }
            }
        } else {
            assert(links2[x as int] == links[x as int]);
            assert(nx == next_in(s, kk)) by {
                if k + 1 < s1.len() {
                    let kn: int = if k + 1 < pos { k + 1 } else { k + 2 };
                    assert(s1[k + 1] == s[kn]);
                    if kn != kk + 1 {
                        // only when x sits just before the removed node
                        assert(k + 1 == pos && kk == k);
                        assert(next_in(s, kk) == s[pos]);
                        assert(links[x as int].next == node);
                        assert(x == prev_in(s, pos)) by {
                            assert(wired_at(links, s, pos));
                        }
                        assert(false);
                    }
                } else {
                    assert(k == s1.len() - 1);
                    if kk == s.len() - 1 {
                        assert(nx == s1[0] && s1[0] == s[0]);
                        assert(next_in(s, kk) == s[0]);
                    } else {
                        // x last in s1 but not in s: the removed node was last
                        assert(kk == k && pos == s.len() - 1);
                        assert(kk == pos - 1);
                        assert(x == s[pos - 1] && x == prev_in(s, pos));
                        assert(false);
                    }
                }
            }
            assert(pv == prev_in(s, kk)) by {
                if k == 0 {
                    assert(kk == 0);
                    if s1.len() - 1 < pos {
                        // the removed node was last in s, so x's old
                        // predecessor was the removed node: x is n
                        assert(pos == s.len() - 1);
                        assert(prev_in(s, 0) == s[s.len() - 1]);
                        assert(links[x as int].prev == node);
                        assert(x == next_in(s, pos)) by {
                            assert(wired_at(links, s, pos));
                        }
                        assert(false);
                    } else {
                        assert(s1[s1.len() - 1] == s[s.len() - 1]);
                        assert(pv == s1[s1.len() - 1]);
                    }
                } else {
                    let kp: int = if k - 1 < pos { k - 1 } else { k };
                    assert(pv == s1[k - 1] && s1[k - 1] == s[kp]);
                    if kp != kk - 1 {
                        // only when x sits just after the removed node: x is n
                        assert(k == pos && kk == pos + 1);
                        assert(prev_in(s, kk) == s[pos]);
                        assert(links[x as int].prev == node);
                        assert(x == next_in(s, pos)) by {
                            assert(wired_at(links, s, pos));
                        }
                        assert(false);
                    }
                }
            }
        }
    }
}

/// The result of one emission pass over the members `mem`, starting from
/// listener states `datas` and context `cxt`: each member's listener (when
/// the slot carries one — pass-through slots are skipped) is applied in
/// order, threading the context from one listener to the next.
pub open spec fn emit_fold<T: RingCollector<V, Cxt>, V, Cxt>(
    datas: Seq<Option<T>>,
    mem: Seq<usize>,
    value: V,
    cxt: Cxt,
) -> (Seq<Option<T>>, Cxt)
    decreases mem.len(),
{
    if mem.len() == 0 {
        (datas, cxt)
    } else {
        let i = mem[0] as int;
        match datas[i] {
            Some(d) => {
                let dc = d.on_event_spec(value, cxt);
                emit_fold(datas.update(i, Some(dc.0)), mem.drop_first(), value, dc.1)
            },
            None => emit_fold(datas, mem.drop_first(), value, cxt),
        }
    }
}

/// The anchor and single owning authority of a circular subscriber list.
///
/// The ring owns a slot table; slot 0 is the root, which never carries a
/// listener and marks where traversal starts and stops. Every attach,
/// detach and listener access goes through `&mut` on this one owner, so
/// the type system alone rules out two overlapping mutable views of any
/// node — the single-authority aliasing discipline.
pub struct Ring<T> {
    links: Vec<RingNodeLinks>,
    datas: Vec<Option<T>>,
    count: usize,
    members: Ghost<Seq<usize>>,
}

impl<T> Ring<T> {
    /// The attached node slots, in traversal order (root excluded).
    pub closed spec fn members(self) -> Seq<usize> {
        self.members@
    }

    /// The listener slots: `datas()[i]` is the listener living in slot `i`,
    /// `None` for the root and for pass-through nodes.
    pub closed spec fn datas(self) -> Seq<Option<T>> {
        self.datas@
    }

    /// Number of slots the ring has handed out, the root included.
    pub closed spec fn n_slots(self) -> nat {
        self.links@.len()
    }

    /// The root has been made a self-loop; emission is only defined after
    /// this holds.
    pub closed spec fn initialized(self) -> bool {
        self.links@[0].prev != NIL
    }

    /// The full cyclic traversal order: the root, then the members.
    pub open spec fn cycle(self) -> Seq<usize> {
        seq![0usize] + self.members()
    }

    /// The slot the link in slot `i` names as its successor.
    pub closed spec fn next_index(self, i: usize) -> usize {
        self.links@[i as int].next
    }

    /// The slot the link in slot `i` names as its predecessor.
    pub closed spec fn prev_index(self, i: usize) -> usize {
        self.links@[i as int].prev
    }

    /// Slot reached from the root after `k` steps along `next`.
    pub open spec fn walk_next(self, k: nat) -> usize
        decreases k,
    {
        if k == 0 {
            0
        } else {
            self.next_index(self.walk_next((k - 1) as nat))
        }
    }

    /// Slot reached from the root after `k` steps along `prev`.
    pub open spec fn walk_prev(self, k: nat) -> usize
        decreases k,
    {
        if k == 0 {
            0
        } else {
            self.prev_index(self.walk_prev((k - 1) as nat))
        }
    }

    /// The ring invariant: the slot tables agree in length, the root
    /// carries no listener, the members are distinct real slots, attached
    /// slots form one consistent doubly-linked cycle with the root, and
    /// every unattached slot is dangling.
    pub closed spec fn wf(self) -> bool {
        &&& self.links@.len() == self.datas@.len()
        &&& self.links@.len() >= 1
        &&& self.datas@[0] is None
        &&& self.count == self.members@.len()
        &&& self.members@.no_duplicates()
        &&& forall|k: int|
            0 <= k < self.members@.len() ==> 1 <= #[trigger] self.members@[k] < self.links@.len()
        &&& !self.initialized() ==> self.members@.len() == 0 && self.links@[0].is_dangling()
        &&& self.initialized() ==> ring_wired(self.links@, self.cycle())
        &&& forall|i: int|
            1 <= i < self.links@.len() && !self.members@.contains(i as usize)
                ==> (#[trigger] self.links@[i]).is_dangling()
    }

    /// A fresh ring: one root slot, still dangling, no members.
    pub fn new() -> (r: Ring<T>)
        ensures
            r.wf(),
            !r.initialized(),
            r.members() =~= Seq::<usize>::empty(),
            r.n_slots() == 1,
            r.datas() =~= seq![Option::<T>::None],
    {
        let mut links: Vec<RingNodeLinks> = Vec::new();
        links.push(RingNodeLinks::dangling());
        let mut datas: Vec<Option<T>> = Vec::new();
        datas.push(None);
        let r = Ring { links, datas, count: 0, members: Ghost(Seq::empty()) };
        proof {
            assert(r.links@[0].is_dangling());
        }
        r
    }

    /// Make the root a self-loop: the empty, but now live, ring.
    pub fn init(&mut self)
        requires
            old(self).wf(),
            old(self).members().len() == 0,
        ensures
            final(self).wf(),
            final(self).initialized(),
            final(self).members() == old(self).members(),
            final(self).datas() == old(self).datas(),
            final(self).n_slots() == old(self).n_slots(),
    {
        let mut root = self.links[0];
        root.init(0);
        self.links[0] = root;
        proof {
            assert(self.cycle() =~= seq![0usize]);
            assert(wired_at(self.links@, self.cycle(), 0));
            assert(ring_wired(self.links@, self.cycle()));
        }
    }

    /// Hand a detached subscriber to the ring's authority. The node gets a
    /// stable slot index, which from now on names it; it is not yet a
    /// member of the traversal.
    pub fn add(&mut self, node: RingNodeWithData<T>) -> (id: usize)
        requires
            old(self).wf(),
            node.detached(),
            old(self).n_slots() < usize::MAX,
        ensures
            final(self).wf(),
            id == old(self).n_slots(),
            final(self).n_slots() == old(self).n_slots() + 1,
            final(self).members() == old(self).members(),
            final(self).initialized() == old(self).initialized(),
            final(self).datas() == old(self).datas().push(Some(node@)),
    {
        let id = self.links.len();
        self.links.push(node.node);
        self.datas.push(Some(node.data));
        proof {
            if self.initialized() {
                assert forall|k: int| 0 <= k < self.cycle().len() implies #[trigger] wired_at(
                    self.links@,
                    self.cycle(),
                    k,
                ) by {
                    assert(wired_at(old(self).links@, old(self).cycle(), k));
                }
            }
        }
        id
    }

    /// Pass-through slot: a member-capable node that carries no listener,
    /// so emission skips it without effect. Supports anchoring one ring's
    /// traversal inside another.
    pub fn add_passthrough(&mut self) -> (id: usize)
        requires
            old(self).wf(),
            old(self).n_slots() < usize::MAX,
        ensures
            final(self).wf(),
            id == old(self).n_slots(),
            final(self).n_slots() == old(self).n_slots() + 1,
            final(self).members() == old(self).members(),
            final(self).initialized() == old(self).initialized(),
            final(self).datas() == old(self).datas().push(Option::<T>::None),
    {
        let id = self.links.len();
        self.links.push(RingNodeLinks::dangling());
        self.datas.push(None);
        proof {
            if self.initialized() {
                assert forall|k: int| 0 <= k < self.cycle().len() implies #[trigger] wired_at(
                    self.links@,
                    self.cycle(),
                    k,
                ) by {
                    assert(wired_at(old(self).links@, old(self).cycle(), k));
                }
            }
        }
        id
    }

    /// The slot table is a real vector, so its length fits in `usize` and
    /// no slot index can collide with the dangling sentinel.
    proof fn lemma_len_bound(self)
        ensures
            self.links@.len() <= usize::MAX,
    {
        broadcast use vstd::std_specs::vec::axiom_spec_len;

        assert(vstd::std_specs::vec::spec_vec_len(&self.links) == self.links@.len());
    }

    /// The cycle lists distinct slot indices, all below `n_slots`, with the
    /// root exactly at position 0.
    proof fn lemma_cycle(self)
        requires
            self.wf(),
        ensures
            self.cycle().len() == self.members().len() + 1,
            self.cycle()[0] == 0,
            self.cycle().no_duplicates(),
            forall|k: int|
                0 <= k < self.cycle().len() ==> (#[trigger] self.cycle()[k]) < self.n_slots(),
            forall|k: int| 1 <= k < self.cycle().len() ==> 1 <= #[trigger] self.cycle()[k],
    {
        let s = self.cycle();
        let m = self.members@;
        assert forall|k: int| 0 <= k < s.len() implies (#[trigger] s[k]) < self.n_slots() by {
            if k >= 1 {
                assert(s[k] == m[k - 1]);
            }
        }
        assert forall|i: int, j: int|
            0 <= i < s.len() && 0 <= j < s.len() && i != j implies s[i] != s[j] by {
            if i >= 1 && j >= 1 {
                assert(s[i] == m[i - 1]);
                assert(s[j] == m[j - 1]);
            } else if i == 0 && j >= 1 {
                assert(s[j] == m[j - 1]);
                assert(m[j - 1] >= 1);
            } else if j == 0 && i >= 1 {
                assert(s[i] == m[i - 1]);
                assert(m[i - 1] >= 1);
            }
        }
    }

    /// A slot is a member exactly when its link is not dangling; a member's
    /// stored neighbours are the cyclic neighbours of its (unique) position.
    proof fn lemma_member_links(self, node: usize)
        requires
            self.wf(),
            1 <= node < self.n_slots(),
        ensures
            self.members().contains(node) <==> self.links_of(node).prev != NIL,
            self.members().contains(node) ==> {
                let pos = self.members().index_of(node) + 1;
                &&& self.initialized()
                &&& 1 <= pos < self.cycle().len()
                &&& self.cycle()[pos] == node
                &&& self.members()[pos - 1] == node
                &&& self.links_of(node).prev == prev_in(self.cycle(), pos)
                &&& self.links_of(node).next == next_in(self.cycle(), pos)
            },
    {
        self.lemma_cycle();
        let s = self.cycle();
        let m = self.members@;
        if m.contains(node) {
            let j = choose|j: int| 0 <= j < m.len() && m[j] == node;
            assert(m.index_of(node) == j) by {
                let j2 = m.index_of(node);
                assert(m[j2] == node);
            }
            assert(s[j + 1] == node);
            assert(self.initialized()) by {
                assert(m.len() > 0);
            }
            assert(wired_at(self.links@, s, j + 1));
            assert(prev_in(s, j + 1) < self.n_slots()) by {
                assert(prev_in(s, j + 1) == s[j]);
            }
            assert(self.links_of(node).prev != NIL) by {
                assert(self.links@.len() <= usize::MAX) by {
                    broadcast use vstd::std_specs::vec::axiom_spec_len;
                    assert(vstd::std_specs::vec::spec_vec_len(&self.links) == self.links@.len());
                }
            }
        } else {
            assert(self.links@[node as int].is_dangling());
        }
    }

    /// The link stored in slot `i`.
    pub closed spec fn links_of(self, i: usize) -> RingNodeLinks {
        self.links@[i as int]
    }

    /// Detach node `node` from the ring: a no-op when it is unattached,
    /// otherwise its neighbours are rewired around it in O(1) and its own
    /// link returns to the dangling state. Never fails; detaching twice in
    /// a row is a no-op, and the second call leaves the ring untouched.
    pub fn detach(&mut self, node: usize)
        requires
            old(self).wf(),
            1 <= node < old(self).n_slots(),
        ensures
            final(self).wf(),
            final(self).members() == spec_detach(old(self).members(), node),
            !final(self).members().contains(node),
            final(self).datas() == old(self).datas(),
            final(self).n_slots() == old(self).n_slots(),
            final(self).initialized() == old(self).initialized(),
            !old(self).members().contains(node) ==> *final(self) == *old(self),
            forall|x: usize|
                x != node ==> (final(self).members().contains(x) <==> old(
                    self,
                ).members().contains(x)),
    {
        let l = self.links[node];
        proof {
            self.lemma_member_links(node);
        }
        if l.prev == NIL {
            proof {
                assert(spec_detach(self.members@, node) =~= self.members@);
            }
            return;
        }
        let ghost s = old(self).cycle();
        let ghost m = old(self).members@;
        let ghost j = m.index_of(node);
        let ghost pos = j + 1;
        let ghost m1 = m.remove(j);
        let ghost s1 = seq![0usize] + m1;
        proof {
            old(self).lemma_cycle();
            assert(m.contains(node));
            assert(0 <= j < m.len() && m[j] == node);
            assert(s[pos] == node);
            assert(wired_at(self.links@, s, pos));
        }
        let p = l.prev;
        let n = l.next;
        proof {
            // p and n are real slots, distinct from node
            assert(p == prev_in(s, pos) && n == next_in(s, pos));
            assert(prev_in(s, pos) == s[pos - 1]);
            assert(p < self.links@.len() && n < self.links@.len());
            assert(p != node && n != node);
        }
        let mut lp = self.links[p];
        lp.next = n;
        self.links[p] = lp;
        let mut ln = self.links[n];
        ln.prev = p;
        self.links[n] = ln;
        self.links[node] = RingNodeLinks::dangling();
        self.count = self.count - 1;
        self.members = Ghost(m1);
        proof {
            assert(spec_detach(m, node) == m1);
            lemma_remove_entry(m, j);
            old(self).lemma_len_bound();
            // the new cycle is the old one with the node's position removed,
            // and it is wired again after the unsplice
            assert(s1 =~= s.remove(pos));
            lemma_unsplice_wired(old(self).links@, self.links@, s, pos);
            assert(ring_wired(self.links@, s1));
            // member entries keep their bounds
            assert forall|k: int| 0 <= k < m1.len() implies 1 <= #[trigger] m1[k]
                < self.links@.len() by {
                let q: int = if k < j { k } else { k + 1 };
                assert(m1[k] == m[q]);
            }
            // untouched non-members are still dangling
            assert forall|i: int|
                1 <= i < self.links@.len() && !self.members@.contains(i as usize)
                implies (#[trigger] self.links@[i]).is_dangling() by {
                if i != node as int {
                    assert(!m.contains(i as usize)) by {
                        if m.contains(i as usize) {
                            assert(m1.contains(i as usize));
                        }
                    }
                    assert(i != p as int) by {
                        if i == p as int {
                            assert(p != 0);
                            assert(s[pos - 1] == p);
                            assert(m[pos - 2] == p);
                        }
                    }
                    assert(i != n as int) by {
                        if i == n as int {
                            assert(n != 0);
                            if pos + 1 < s.len() {
                                assert(s[pos + 1] == n);
                                assert(m[pos] == n);
                            } else {
                                assert(s[0] == n);
                            }
                        }
                    }
                    assert(self.links@[i] == old(self).links@[i]);
                }
            }
            // the root is still wired, hence still initialized
            assert(self.initialized()) by {
                assert(wired_at(self.links@, s1, 0));
                assert(self.links@[0].prev == prev_in(s1, 0));
                assert(prev_in(s1, 0) == s1[s1.len() - 1]);
                if s1.len() == 1 {
                    assert(s1[0] == 0);
                } else {
                    assert(s1[s1.len() - 1] == m1[s1.len() - 2]);
                }
            }
            assert(self.wf());
        }
    }

    /// Splice node `node` into the ring immediately before `target`:
    /// before the root when `target == 0`, which appends `node` to the
    /// traversal order. The node first leaves whatever place it held, so
    /// repeated insertion is safe and idempotent; the splice itself is
    /// O(1), using exactly the neighbour read at call time.
    #[verifier::rlimit(60)]
    pub fn insert_before(&mut self, node: usize, target: usize)
        requires
            old(self).wf(),
            old(self).initialized(),
            1 <= node < old(self).n_slots(),
            target == 0 || old(self).members().contains(target),
            node != target,
        ensures
            final(self).wf(),
            final(self).initialized(),
            final(self).members() == spec_insert_before(old(self).members(), node, target),
            final(self).members().contains(node),
            final(self).datas() == old(self).datas(),
            final(self).n_slots() == old(self).n_slots(),
    {
        self.detach(node);
        let ghost mid = *self;
        let ghost links1 = self.links@;
        let ghost m1 = self.members@;
        let ghost s1 = self.cycle();
        let ghost jt: int = if target == 0 { m1.len() as int } else { m1.index_of(target) };
        let ghost ins: int = jt + 1;
        proof {
            self.lemma_cycle();
            self.lemma_len_bound();
            if target != 0 {
                assert(m1.contains(target));
                assert(0 <= jt < m1.len() && m1[jt] == target);
                assert(s1[ins] == target);
            }
            assert(!m1.contains(node));
            assert(!s1.contains(node)) by {
                if s1.contains(node) {
                    let q = choose|q: int| 0 <= q < s1.len() && s1[q] == node;
                    assert(q >= 1);
                    assert(m1[q - 1] == node);
                }
            }
            assert(wired_at(self.links@, s1, if target == 0 { 0int } else { ins }));
        }
        let tp = self.links[target].prev;
        proof {
            assert(tp == s1[ins - 1]) by {
                if target == 0 {
                    assert(prev_in(s1, 0) == s1[s1.len() - 1]);
                } else {
                    assert(prev_in(s1, ins) == s1[ins - 1]);
                }
            }
            assert(tp < self.links@.len());
            assert(tp != node);
        }
        let mut ltp = self.links[tp];
        ltp.next = node;
        self.links[tp] = ltp;
        self.links[node] = RingNodeLinks { prev: tp, next: target };
        let mut ltg = self.links[target];
        ltg.prev = node;
        self.links[target] = ltg;
        proof {
            lemma_distinct_bounded_len(m1, self.links@.len() as int);
        }
        self.count = self.count + 1;
        self.members = Ghost(spec_insert_before(old(self).members@, node, target));
        proof {
            let m2 = self.members@;
            let s2 = s1.insert(ins, node);
            lemma_insert_entry(m1, jt, node);
            assert(m2 == m1.insert(jt, node)) by {
                if target == 0 {
                    assert(m1.insert(jt, node) =~= m1.push(node));
                }
            }
            assert(s2 =~= seq![0usize] + m2);
            lemma_splice_wired(links1, self.links@, s1, node, ins);
            assert(ring_wired(self.links@, s2));
            // member entries keep their bounds
            assert forall|k: int| 0 <= k < m2.len() implies 1 <= #[trigger] m2[k]
                < self.links@.len() by {
                if k < jt {
                    assert(m2[k] == m1[k]);
                } else if k > jt {
                    assert(m2[k] == m1[k - 1]);
                } else {
                    assert(m2[k] == node);
                }
            }
            // untouched non-members are still dangling
            assert forall|i: int|
                1 <= i < self.links@.len() && !self.members@.contains(i as usize)
                implies (#[trigger] self.links@[i]).is_dangling() by {
                assert(m2.contains(node));
                assert(i != node as int);
                assert(i != tp as int) by {
                    if i == tp as int {
                        assert(tp != 0);
                        assert(m1[ins - 2] == tp);
                        assert(m1.contains(tp));
                        assert(m2.contains(tp));
                    }
                }
                assert(i != target as int) by {
                    if i == target as int {
                        assert(target != 0);
                        assert(m2.contains(target));
                    }
                }
                assert(self.links@[i] == links1[i]);
                assert(!m1.contains(i as usize)) by {
                    if m1.contains(i as usize) {
                        assert(m2.contains(i as usize));
                    }
                }
                assert(mid.wf());
            }
            // the root is wired, hence the ring stays initialized
            assert(self.initialized()) by {
                assert(wired_at(self.links@, s2, 0));
                assert(self.links@[0].prev == prev_in(s2, 0));
                assert(prev_in(s2, 0) == s2[s2.len() - 1]);
                assert(s2[s2.len() - 1] == m2[m2.len() - 1]);
            }
            assert(self.wf());
        }
    }

    /// Emit `value` to every attached listener, in traversal order,
    /// threading `context` through the calls. Starting from the node after
    /// the root, each member is visited exactly once; members without a
    /// listener are skipped without effect; the pass stops when the links
    /// lead back to the root. On an empty ring no listener runs and
    /// `context` is left untouched.
    pub fn emit<V, Cxt>(&mut self, value: &V, context: &mut Cxt) where T: RingCollector<V, Cxt>
        requires
            old(self).wf(),
            old(self).initialized(),
        ensures
            final(self).wf(),
            final(self).initialized(),
            final(self).members() == old(self).members(),
            final(self).n_slots() == old(self).n_slots(),
            ({
                let r = emit_fold(old(self).datas(), old(self).members(), *value, *old(context));
                final(self).datas() == r.0 && *final(context) == r.1
            }),
    {
        let ghost mem = self.members@;
        let ghost links0 = self.links@;
        let ghost datas0 = self.datas@;
        let ghost cxt0: Cxt = *context;
        let mut cursor: usize = 0;
        let ghost mut j: int = 0;
        proof {
            assert(mem.skip(0) =~= mem);
        }
        loop
            invariant
                self.wf(),
                self.initialized(),
                self.members@ == mem,
                self.links@ == links0,
                self.count == old(self).count,
                self.datas@.len() == datas0.len(),
                0 <= j <= mem.len(),
                cursor == (if j == 0 { 0usize } else { mem[j - 1] }),
                cursor < self.links@.len(),
                emit_fold(datas0, mem, *value, cxt0) == emit_fold(
                    self.datas@,
                    mem.skip(j),
                    *value,
                    *context,
                ),
            ensures
                j == mem.len(),
                self.wf(),
                self.initialized(),
                self.members@ == mem,
                self.links@ == links0,
                self.count == old(self).count,
                emit_fold(datas0, mem, *value, cxt0) == emit_fold(
                    self.datas@,
                    mem.skip(j),
                    *value,
                    *context,
                ),
            decreases mem.len() - j,
        {
            proof {
                self.lemma_cycle();
                assert(self.cycle()[j] == cursor);
                assert(wired_at(self.links@, self.cycle(), j));
            }
            let next = self.links[cursor].next;
            if next == 0 {
                proof {
                    // only the wrap back to the root yields slot 0
                    assert(j == mem.len()) by {
                        if j + 1 < self.cycle().len() {
                            assert(next_in(self.cycle(), j) == self.cycle()[j + 1]);
                            assert(self.cycle()[j + 1] == mem[j]);
                            assert(mem[j] >= 1);
                        }
                    }
                }
                break;
            }
            proof {
                // the successor is the member at position j
                assert(j < mem.len()) by {
                    if j == mem.len() {
                        assert(next_in(self.cycle(), j) == self.cycle()[0]);
                    }
                }
                assert(next_in(self.cycle(), j) == self.cycle()[j + 1]);
                assert(next == mem[j]);
                assert(1 <= next < self.datas@.len());
            }
            let ghost datas_i = self.datas@;
            let ghost cxt_i: Cxt = *context;
            let slot = &mut self.datas[next];
            match slot {
                Some(d) => {
                    d.emit(value, context);
                },
                None => {},
            }
            proof {
                assert(mem.skip(j)[0] == mem[j]);
                assert(mem.skip(j).drop_first() =~= mem.skip(j + 1));
                if datas_i[next as int] is Some {
                    assert(emit_fold(datas_i, mem.skip(j), *value, cxt_i) == emit_fold(
                        self.datas@,
                        mem.skip(j + 1),
                        *value,
                        *context,
                    ));
                } else {
                    assert(self.datas@ =~= datas_i);
                    assert(emit_fold(datas_i, mem.skip(j), *value, cxt_i) == emit_fold(
                        self.datas@,
                        mem.skip(j + 1),
                        *value,
                        *context,
                    ));
                }
                j = j + 1;
            }
            cursor = next;
        }
        proof {
            assert(mem.skip(mem.len() as int) =~= Seq::<usize>::empty());
            assert(emit_fold(self.datas@, mem.skip(j), *value, *context) == (
                self.datas@,
                *context,
            ));
        }
    }

    /// Whether `init` has made the root live; emission is only allowed
    /// after it has.
    pub fn is_initialized(&self) -> (r: bool)
        requires
            self.wf(),
        ensures
            r == self.initialized(),
    {
        !self.links[0].is_unattached()
    }

    /// Number of nodes currently attached.
    pub fn member_count(&self) -> (n: usize)
        requires
            self.wf(),
        ensures
            n == self.members().len(),
    {
        self.count
    }

    /// Mutable view of the listener in slot `node`, gated by the ring's
    /// single authority: while the returned borrow lives, no other view
    /// into the node graph can exist.
    pub fn collector_mut(&mut self, node: usize) -> (d: &mut T)
        requires
            old(self).wf(),
            node < old(self).n_slots(),
            old(self).datas()[node as int] is Some,
        ensures
            final(self).wf(),
            *d == old(self).datas()[node as int]->0,
            final(self).datas() == old(self).datas().update(node as int, Some(*final(d))),
            final(self).members() == old(self).members(),
            final(self).n_slots() == old(self).n_slots(),
            final(self).initialized() == old(self).initialized(),
    {
        let slot = &mut self.datas[node];
        match slot {
            Some(d) => d,
            None => vstd::pervasive::unreached(),
        }
    }

    /// Read the listener in slot `node`.
    pub fn collector(&self, node: usize) -> (d: &Option<T>)
        requires
            self.wf(),
            node < self.n_slots(),
        ensures
            *d == self.datas()[node as int],
    {
        &self.datas[node]
    }

    /// The root's link, as any other `RingNode` exposes its own.
    pub fn node_links(&self) -> (r: RingNodeLinks)
        requires
            self.wf(),
        ensures
            r.prev == self.prev_index(0),
            r.next == self.next_index(0),
    {
        self.links[0]
    }

    /// Walking `next` from the root visits each member once, in ring
    /// order, and returns to the root after exactly `members().len() + 1`
    /// steps; walking `prev` does the same in reverse order. This is what
    /// makes the link tables of a well-formed ring one valid circular
    /// list, whatever sequence of attaches and detaches produced it.
    pub proof fn lemma_ring_traversal(self)
        requires
            self.wf(),
            self.initialized(),
        ensures
            forall|k: int|
                1 <= k <= self.members().len() ==> #[trigger] self.walk_next(k as nat)
                    == self.members()[k - 1],
            self.walk_next((self.members().len() + 1) as nat) == 0,
            forall|k: int|
                1 <= k <= self.members().len() ==> #[trigger] self.walk_prev(k as nat)
                    == self.members()[self.members().len() - k],
            self.walk_prev((self.members().len() + 1) as nat) == 0,
    {
        let s = self.cycle();
        assert forall|k: int| 1 <= k <= self.members().len() implies #[trigger] self.walk_next(
            k as nat,
        ) == self.members()[k - 1] by {
            self.lemma_walk_next_pos(k);
        }
        self.lemma_walk_next_pos(s.len() as int);
        assert forall|k: int| 1 <= k <= self.members().len() implies #[trigger] self.walk_prev(
            k as nat,
        ) == self.members()[self.members().len() - k] by {
            self.lemma_walk_prev_pos(k);
        }
        self.lemma_walk_prev_pos(s.len() as int);
    }

    /// The `next` walk lands on cycle position `k` (wrapping to the root
    /// one step past the last member).
    proof fn lemma_walk_next_pos(self, k: int)
        requires
            self.wf(),
            self.initialized(),
            0 <= k <= self.cycle().len(),
        ensures
            self.walk_next(k as nat) == (if k < self.cycle().len() {
                self.cycle()[k]
            } else {
                self.cycle()[0]
            }),
        decreases k,
    {
        if k > 0 {
            self.lemma_walk_next_pos(k - 1);
            self.lemma_cycle();
            assert(wired_at(self.links@, self.cycle(), k - 1));
            assert(self.walk_next(k as nat) == self.next_index(self.walk_next((k - 1) as nat)));
        }
    }

    /// The `prev` walk lands on cycle position `len - k` (wrapping to the
    /// root one step past the last member).
    proof fn lemma_walk_prev_pos(self, k: int)
        requires
            self.wf(),
            self.initialized(),
            0 <= k <= self.cycle().len(),
        ensures
            self.walk_prev(k as nat) == (if k == 0 {
                0usize
            } else {
                self.cycle()[self.cycle().len() - k]
            }),
        decreases k,
    {
        let s = self.cycle();
        if k > 0 {
            self.lemma_walk_prev_pos(k - 1);
            self.lemma_cycle();
            let pos: int = if k == 1 { 0 } else { s.len() - (k - 1) };
            assert(self.walk_prev((k - 1) as nat) == s[pos]);
            assert(wired_at(self.links@, s, pos));
            assert(self.walk_prev(k as nat) == self.prev_index(self.walk_prev((k - 1) as nat)));
            if k == 1 {
                assert(prev_in(s, 0) == s[s.len() - 1]);
            } else {
                assert(prev_in(s, pos) == s[pos - 1]);
            }
        }
    }
}

/// Detaching is idempotent at the membership level: once a node is out —
/// by an explicit detach or already before — detaching it again changes
/// nothing.
pub proof fn lemma_detach_idempotent(m: Seq<usize>, n: usize)
    requires
        m.no_duplicates(),
    ensures
        spec_detach(spec_detach(m, n), n) == spec_detach(m, n),
{
    if m.contains(n) {
        let j = m.index_of(n);
        assert(0 <= j < m.len() && m[j] == n);
        lemma_remove_entry(m, j);
        assert(!m.remove(j).contains(n));
    }
}

/// An emission pass over no members changes nothing: on an empty ring no
/// listener is invoked and the context comes back untouched.
pub proof fn lemma_emit_fold_empty<T: RingCollector<V, Cxt>, V, Cxt>(
    datas: Seq<Option<T>>,
    value: V,
    cxt: Cxt,
)
    ensures
        emit_fold(datas, Seq::<usize>::empty(), value, cxt) == (datas, cxt),
{
}

/// With two members attached in that order, an emission applies the first
/// member's listener to the incoming context and the second member's
/// listener to the context the first produced: invocation order is ring
/// order, which is attachment order when each node was inserted before
/// the root.
pub proof fn lemma_emit_fold_two<T: RingCollector<V, Cxt>, V, Cxt>(
    datas: Seq<Option<T>>,
    a: usize,
    b: usize,
    da: T,
    db: T,
    value: V,
    cxt: Cxt,
)
    requires
        a != b,
        (a as int) < datas.len(),
        (b as int) < datas.len(),
        datas[a as int] == Some(da),
        datas[b as int] == Some(db),
    ensures
        ({
            let ra = da.on_event_spec(value, cxt);
            let rb = db.on_event_spec(value, ra.1);
            emit_fold(datas, seq![a, b], value, cxt) == (
                datas.update(a as int, Some(ra.0)).update(b as int, Some(rb.0)),
                rb.1,
            )
        }),
{
    let m = seq![a, b];
    let ra = da.on_event_spec(value, cxt);
    let datas1 = datas.update(a as int, Some(ra.0));
    assert(m.drop_first() =~= seq![b]);
    assert(emit_fold(datas, m, value, cxt) == emit_fold(datas1, seq![b], value, ra.1));
    assert(datas1[b as int] == Some(db));
    let rb = db.on_event_spec(value, ra.1);
    let datas2 = datas1.update(b as int, Some(rb.0));
    assert(seq![b].drop_first() =~= Seq::<usize>::empty());
    assert(emit_fold(datas1, seq![b], value, ra.1) == emit_fold(
        datas2,
        Seq::<usize>::empty(),
        value,
        rb.1,
    ));
}

/// Round trip: detaching a node and inserting it again before the same
/// target restores membership and order exactly — as if a fresh node had
/// been attached in the same slot.
pub proof fn lemma_round_trip(m: Seq<usize>, n: usize, t: usize)
    requires
        m.no_duplicates(),
        t != n,
        t == 0 || m.contains(t),
        !m.contains(0),
    ensures
        spec_insert_before(spec_detach(spec_insert_before(m, n, t), n), n, t)
            == spec_insert_before(m, n, t),
{
    let m1 = spec_detach(m, n);
    if m.contains(n) {
        let j = m.index_of(n);
        assert(0 <= j < m.len() && m[j] == n);
        lemma_remove_entry(m, j);
    }
    assert(!m1.contains(n));
    assert(m1.no_duplicates());
    assert(t != 0 ==> m1.contains(t)) by {
        if t != 0 && m.contains(n) {
            let j = m.index_of(n);
            lemma_remove_entry(m, j);
        }
    }
    let jj: int = if t == 0 {
        m1.len() as int
    } else {
        m1.index_of(t)
    };
    if t != 0 {
        assert(0 <= jj < m1.len() && m1[jj] == t);
    }
    let m2 = spec_insert_before(m, n, t);
    assert(m2 == m1.insert(jj, n)) by {
        if t == 0 {
            assert(m1.insert(jj, n) =~= m1.push(n));
        }
    }
    lemma_insert_entry(m1, jj, n);
    // detaching n from m2 lands back on m1
    assert(m2.contains(n));
    let j2 = m2.index_of(n);
    assert(0 <= j2 < m2.len() && m2[j2] == n);
    assert(j2 == jj) by {
        if j2 != jj {
            assert(m2[jj] == n);
        }
    }
    assert(spec_detach(m2, n) == m1) by {
        assert(m2.remove(jj) =~= m1);
    }
    // and re-inserting n before t rebuilds m2 exactly
    assert(spec_insert_before(m1, n, t) == m2) by {
        if t == 0 {
            assert(spec_detach(m1, n) == m1);
            assert(m1.push(n) == m2) by {
                assert(m1.insert(jj, n) =~= m1.push(n));
            }
        } else {
            assert(spec_detach(m1, n) == m1);
        }
    }
}

} // verus!
