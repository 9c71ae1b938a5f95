//! Disjoint sets kept as a forest of parent links: a union links one root to
//! another, a lookup walks from an element to its root.

use crate::forest::{
    all_roots, depth, is_forest, joined, lemma_all_roots, lemma_link_joins, lemma_root_of,
    root_of, same_set, span,
};
use vstd::prelude::*;

verus! {

/// The links after the root of `start` has been linked to the root of `end`.
pub open spec fn linked(parent: Map<int, int>, start: int, end: int) -> Map<int, int> {
    parent.insert(root_of(parent, start), root_of(parent, end))
}

/// `internal[i]` is the parent of the element `i`; a root is its own parent.
pub struct QuickUnion {
    internal: Vec<i64>,
}

impl View for QuickUnion {
    type V = Map<int, int>;

    /// The parent of each element.
    closed spec fn view(&self) -> Map<int, int> {
        Map::new(|i: int| 0 <= i < self.internal@.len(), |i: int| self.internal@[i] as int)
    }
}

impl QuickUnion {
    /// The links form a forest.
    pub open spec fn wf(&self) -> bool {
        is_forest(self@)
    }

    /// A structure of `size` elements, each alone in its set. A size that is
    /// not positive gives the structure without elements.
    pub fn new(size: i64) -> (s: QuickUnion)
        ensures
            s.wf(),
            s@ == all_roots(span(size as int)),
            forall|a: int| s@.dom().contains(a) ==> #[trigger] root_of(s@, a) == a,
            forall|a: int, b: int|
                s@.dom().contains(a) && s@.dom().contains(b) ==> (#[trigger] same_set(s@, a, b)
                    <==> a == b),
    {
        let mut internal: Vec<i64> = Vec::new();
        let mut i: i64 = 0;
        while i < size
            invariant
                0 <= i,
                i <= size || i == 0,
                internal@.len() == i,
                forall|j: int| 0 <= j < i ==> internal@[j] == j,
            decreases size - i,
        {
            internal.push(i);
            i += 1;
        }
        let s = QuickUnion { internal };
        proof {
            assert(s@ =~= all_roots(span(size as int)));
            lemma_all_roots(span(size as int));
        }
        s
    }

    /// One step along the links.
    fn parent_of(&self, item: i64) -> (parent: i64)
        requires
            self.wf(),
            self@.dom().contains(item as int),
        ensures
            parent as int == self@[item as int],
            self@.dom().contains(parent as int),
    {
        assert(self.internal.len() == self.internal@.len());
        self.internal[item as usize]
    }

    /// Links the root of `start` to the root of `end`.
    pub fn union(&mut self, start: i64, end: i64)
        requires
            old(self).wf(),
            old(self)@.dom().contains(start as int),
            old(self)@.dom().contains(end as int),
        ensures
            final(self).wf(),
            final(self)@ == linked(old(self)@, start as int, end as int),
            final(self)@.dom() == old(self)@.dom(),
            same_set(final(self)@, start as int, end as int),
            forall|x: int, y: int|
                old(self)@.dom().contains(x) && old(self)@.dom().contains(y) ==> (
                #[trigger] same_set(final(self)@, x, y) <==> joined(
                    old(self)@,
                    start as int,
                    end as int,
                    x,
                    y,
                )),
    {
        let start_root: i64 = self.get_root(start);
        let end_root: i64 = self.get_root(end);
        proof {
            lemma_root_of(self@, start as int);
            lemma_link_joins(self@, start as int, end as int);
        }
        assert(self.internal.len() == self.internal@.len());
        self.internal[start_root as usize] = end_root;
        assert(self@ =~= linked(old(self)@, start as int, end as int));
    }

    /// Whether `start` and `end` are in one set.
    pub fn connected(&self, start: i64, end: i64) -> (r: bool)
        requires
            self.wf(),
            self@.dom().contains(start as int),
            self@.dom().contains(end as int),
        ensures
            r == same_set(self@, start as int, end as int),
    {
        let start_root: i64 = self.get_root(start);
        let end_root: i64 = self.get_root(end);
        end_root == start_root
    }

    /// The root of the tree of `item`.
    pub fn get_root(&self, item: i64) -> (root: i64)
        requires
            self.wf(),
            self@.dom().contains(item as int),
        ensures
            root as int == root_of(self@, item as int),
            self@.dom().contains(root as int),
    {
        let mut root: i64 = self.parent_of(item);
        proof {
            lemma_root_of(self@, item as int);
        }
        while root != self.parent_of(root)
            invariant
                self.wf(),
                self@.dom().contains(root as int),
                root_of(self@, root as int) == root_of(self@, item as int),
            decreases depth(self@, root as int),
        {
            proof {
                lemma_root_of(self@, root as int);
            }
            root = self.parent_of(root);
        }
        root
    }

    /// The parents as they are stored.
    pub fn internal(&self) -> (parents: &Vec<i64>)
        ensures
            forall|i: int| 0 <= i < parents@.len() <==> self@.dom().contains(i),
            forall|i: int| 0 <= i < parents@.len() ==> #[trigger] parents@[i] == self@[i],
    {
        &self.internal
    }
}

/// A second union of the same two elements changes nothing.
pub proof fn lemma_union_twice(parent: Map<int, int>, start: int, end: int)
    requires
        is_forest(parent),
        parent.dom().contains(start),
        parent.dom().contains(end),
    ensures
        linked(linked(parent, start, end), start, end) == linked(parent, start, end),
{
    let once = linked(parent, start, end);
    lemma_link_joins(parent, start, end);
    lemma_root_of(parent, start);
    lemma_root_of(parent, end);
    lemma_root_of(once, start);
    lemma_root_of(once, end);
    assert(same_set(once, start, end));
    assert(linked(once, start, end) =~= once);
}

} // verus!
