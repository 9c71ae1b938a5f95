//! Disjoint sets kept as one component id per element: a lookup reads one cell,
//! a union rewrites every cell of one component.

use vstd::prelude::*;

verus! {

/// Two elements are in one set when they carry the same component id.
pub open spec fn same_component(ids: Seq<int>, a: int, b: int) -> bool {
    ids[a] == ids[b]
}

/// Whether `x` and `y` are in one set once the sets of `a` and `b` are joined.
pub open spec fn joined(ids: Seq<int>, a: int, b: int, x: int, y: int) -> bool {
    ||| same_component(ids, x, y)
    ||| (same_component(ids, x, a) && same_component(ids, y, b))
    ||| (same_component(ids, x, b) && same_component(ids, y, a))
}

/// The ids after the component of `end` has taken the id of `start`.
pub open spec fn relabelled(ids: Seq<int>, start: int, end: int) -> Seq<int> {
    Seq::new(
        ids.len(),
        |i: int|
            if ids[i] == ids[end] {
                ids[start]
            } else {
                ids[i]
            },
    )
}

/// The ids of a fresh structure: every element is its own component.
pub open spec fn singletons(len: int) -> Seq<int> {
    Seq::new(
        if len > 0 {
            len as nat
        } else {
            0
        },
        |i: int| i,
    )
}

/// Every id is an element, and that element carries the id itself.
pub open spec fn ids_valid(ids: Seq<int>) -> bool {
    forall|i: int|
        0 <= i < ids.len() ==> 0 <= #[trigger] ids[i] < ids.len() && ids[ids[i]] == ids[i]
}

/// `internal[i]` is the component id of the element `i`.
pub struct QuickFind {
    internal: Vec<i64>,
}

impl View for QuickFind {
    type V = Seq<int>;

    /// The component id of each element, by element.
    closed spec fn view(&self) -> Seq<int> {
        self.internal@.map_values(|id: i64| id as int)
    }
}

impl QuickFind {
    /// Every component id names an element that carries it.
    pub open spec fn wf(&self) -> bool {
        ids_valid(self@)
    }

    /// A structure of `size` elements, each alone in its set. A size that is
    /// not positive gives the structure without elements.
    pub fn new(size: i64) -> (s: QuickFind)
        ensures
            s.wf(),
            s@ == singletons(size as int),
            forall|a: int, b: int|
                0 <= a < s@.len() && 0 <= b < s@.len() ==> (#[trigger] same_component(s@, a, b)
                    <==> a == b),
    {
        let mut internal: Vec<i64> = Vec::new();
        let mut i: i64 = 0;
        while i < size
            invariant
                0 <= i,
                i <= size || i == 0,
                internal@.len() == i,
                forall|j: int| 0 <= j < i ==> internal@[j] == j,
            decreases size - i,
        {
            internal.push(i);
            i += 1;
        }
        let s = QuickFind { internal };
        assert(s@ =~= singletons(size as int));
        s
    }

    /// Gives every element of the set of `end` the component id of `start`.
    pub fn union(&mut self, start: i64, end: i64)
        requires
            old(self).wf(),
            0 <= start < old(self)@.len(),
            0 <= end < old(self)@.len(),
        ensures
            final(self).wf(),
            final(self)@ == relabelled(old(self)@, start as int, end as int),
            same_component(final(self)@, start as int, end as int),
            forall|x: int, y: int|
                0 <= x < old(self)@.len() && 0 <= y < old(self)@.len() ==> (
                #[trigger] same_component(final(self)@, x, y) <==> joined(
                    old(self)@,
                    start as int,
                    end as int,
                    x,
                    y,
                )),
    {
        let ghost before = self@;
        let from: i64 = self.internal[end as usize];
        let to: i64 = self.internal[start as usize];
        let n: usize = self.internal.len();
        let mut i: usize = 0;
        while i < n
            invariant
                i <= n,
                self.internal@.len() == n,
                before.len() == n,
                forall|j: int|
                    0 <= j < i ==> #[trigger] self.internal@[j] == (if before[j] == from {
                        to
                    } else {
                        before[j] as i64
                    }),
                forall|j: int| i <= j < n ==> #[trigger] self.internal@[j] == before[j],
            decreases n - i,
        {
            if self.internal[i] == from {
                self.internal[i] = to;
            }
            i += 1;
        }
        assert(self@ =~= relabelled(before, start as int, end as int));
    }

    /// Whether `start` and `end` are in one set.
    pub fn connected(&self, start: i64, end: i64) -> (r: bool)
        requires
            0 <= start < self@.len(),
            0 <= end < self@.len(),
        ensures
            r == same_component(self@, start as int, end as int),
    {
        assert(self.internal.len() == self@.len());
        self.internal[start as usize] == self.internal[end as usize]
    }

    /// The component ids as they are stored.
    pub fn internal(&self) -> (ids: &Vec<i64>)
        ensures
            ids@.len() == self@.len(),
            forall|i: int| 0 <= i < ids@.len() ==> #[trigger] ids@[i] == self@[i],
    {
        &self.internal
    }
}

/// An element is in its own set.
pub proof fn lemma_same_component_reflexive(ids: Seq<int>, a: int)
    ensures
        same_component(ids, a, a),
{
}

/// Being in one set does not depend on the order of the two elements.
pub proof fn lemma_same_component_symmetric(ids: Seq<int>, a: int, b: int)
    ensures
        same_component(ids, a, b) == same_component(ids, b, a),
{
}

/// Two elements that are each in one set with a third are in one set.
pub proof fn lemma_same_component_transitive(ids: Seq<int>, a: int, b: int, c: int)
    requires
        same_component(ids, a, b),
        same_component(ids, b, c),
    ensures
        same_component(ids, a, c),
{
}

/// A second union of the same two elements changes nothing.
pub proof fn lemma_union_twice(ids: Seq<int>, start: int, end: int)
    requires
        0 <= start < ids.len(),
        0 <= end < ids.len(),
    ensures
        relabelled(relabelled(ids, start, end), start, end) == relabelled(ids, start, end),
{
    let once = relabelled(ids, start, end);
    assert(relabelled(once, start, end) =~= once);
}

} // verus!
