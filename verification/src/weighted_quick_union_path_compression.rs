//! Disjoint sets kept as a forest of parent links with one counter per
//! element. A lookup halves the walk it makes; a union compares the counters of
//! the two roots, links one root to the other and counts the linked root up.

use crate::forest::{
    absorbed, all_roots, always, depth, found, halved, is_forest, joined, lemma_all_roots,
    lemma_root_of, lemma_skip_shortens, lemma_union_by_weight, root_of, same_set, span,
    union_by_weight, weighted_ok, Weighted,
};
use vstd::prelude::*;

verus! {

/// The structure after a union of `start` and `end`: a union by weight whose
/// lookups halve their walks as far as the root, and which raises the counter
/// of the absorbed root.
pub open spec fn merged(w: Weighted<int>, start: int, end: int) -> Weighted<int> {
    union_by_weight(w, start, end, always(), false)
}

/// The counters of a fresh structure: each element carries its own number.
pub open spec fn own_numbers(size: int) -> Map<int, int> {
    Map::new(|i: int| 0 <= i < size, |i: int| i)
}

/// `internal[i]` is the parent of the element `i`, `sizes[i]` its counter.
pub struct WeightedQuickUnionPathCompression {
    internal: Vec<i64>,
    sizes: Vec<i64>,
}

impl View for WeightedQuickUnionPathCompression {
    type V = Weighted<int>;

    /// The parent and the counter of each element.
    closed spec fn view(&self) -> Weighted<int> {
        Weighted {
            parent: Map::new(
                |i: int| 0 <= i < self.internal@.len(),
                |i: int| self.internal@[i] as int,
            ),
            weight: Map::new(|i: int| 0 <= i < self.sizes@.len(), |i: int| self.sizes@[i] as int),
        }
    }
}

impl WeightedQuickUnionPathCompression {
    /// The links form a forest, and every element has a counter.
    pub open spec fn wf(&self) -> bool {
        weighted_ok(self@)
    }

    /// A structure of `size` elements, each alone in its set and with its own
    /// number as its counter. A size that is not positive gives the structure
    /// without elements.
    pub fn new(size: i64) -> (s: WeightedQuickUnionPathCompression)
        ensures
            s.wf(),
            s@.parent == all_roots(span(size as int)),
            s@.weight == own_numbers(size as int),
            forall|a: int| s@.parent.dom().contains(a) ==> #[trigger] root_of(s@.parent, a) == a,
            forall|a: int, b: int|
                s@.parent.dom().contains(a) && s@.parent.dom().contains(b) ==> (
                #[trigger] same_set(s@.parent, a, b) <==> a == b),
    {
        let mut internal: Vec<i64> = Vec::new();
        let mut sizes: Vec<i64> = Vec::new();
        let mut i: i64 = 0;
        while i < size
            invariant
                0 <= i,
                i <= size || i == 0,
                internal@.len() == i,
                sizes@.len() == i,
                forall|j: int| 0 <= j < i ==> internal@[j] == j,
                forall|j: int| 0 <= j < i ==> sizes@[j] == j,
            decreases size - i,
        {
            internal.push(i);
            sizes.push(i);
            i += 1;
        }
        let s = WeightedQuickUnionPathCompression { internal, sizes };
        proof {
            assert(s@.parent =~= all_roots(span(size as int)));
            assert(s@.weight =~= own_numbers(size as int));
            lemma_all_roots(span(size as int));
        }
        s
    }

    /// The two vectors have one length.
    proof fn lemma_lengths(&self)
        requires
            self.wf(),
        ensures
            self.sizes@.len() == self.internal@.len(),
    {
        let n = self.internal@.len() as int;
        let m = self.sizes@.len() as int;
        if m < n {
            assert(self@.parent.dom().contains(m));
            assert(!self@.weight.dom().contains(m));
        }
        if n < m {
            assert(self@.weight.dom().contains(n));
            assert(!self@.parent.dom().contains(n));
        }
    }

    /// One step along the links.
    fn parent_of(&self, item: i64) -> (parent: i64)
        requires
            self.wf(),
            self@.parent.dom().contains(item as int),
        ensures
            parent as int == self@.parent[item as int],
            self@.parent.dom().contains(parent as int),
    {
        assert(self.internal.len() == self.internal@.len());
        self.internal[item as usize]
    }

    /// The counter of an element.
    fn size_of(&self, item: i64) -> (size: i64)
        requires
            self.wf(),
            self@.parent.dom().contains(item as int),
        ensures
            size as int == self@.weight[item as int],
    {
        proof {
            self.lemma_lengths();
        }
        assert(self.sizes.len() == self.sizes@.len());
        self.sizes[item as usize]
    }

    /// Links the root `low` to the root `high` and counts `low` up.
    fn link(&mut self, low: i64, high: i64)
        requires
            old(self).wf(),
            old(self)@.parent.dom().contains(low as int),
            old(self)@.parent.dom().contains(high as int),
            old(self)@.weight[low as int] < i64::MAX,
        ensures
            final(self)@.parent == old(self)@.parent.insert(low as int, high as int),
            final(self)@.weight == old(self)@.weight.insert(
                low as int,
                old(self)@.weight[low as int] + 1,
            ),
    {
        proof {
            self.lemma_lengths();
        }
        assert(self.internal.len() == self.internal@.len());
        self.internal[low as usize] = high;
        let count: i64 = self.sizes[low as usize];
        self.sizes[low as usize] = count + 1;
        assert(self@.parent =~= old(self)@.parent.insert(low as int, high as int));
        assert(self@.weight =~= old(self)@.weight.insert(
            low as int,
            old(self)@.weight[low as int] + 1,
        ));
    }

    /// Looks up both roots, links the one with the smaller counter, or on equal
    /// counters the root of `start`, to the other, and counts the linked root up.
    /// The counter that is raised has to be below the greatest `i64`.
    pub fn union(&mut self, start: i64, end: i64)
        requires
            old(self).wf(),
            old(self)@.parent.dom().contains(start as int),
            old(self)@.parent.dom().contains(end as int),
            old(self)@.weight[absorbed(old(self)@, start as int, end as int)] < i64::MAX,
        ensures
            final(self).wf(),
            final(self)@ == merged(old(self)@, start as int, end as int),
            final(self)@.parent.dom() == old(self)@.parent.dom(),
            same_set(final(self)@.parent, start as int, end as int),
            forall|x: int, y: int|
                old(self)@.parent.dom().contains(x) && old(self)@.parent.dom().contains(y) ==> (
                #[trigger] same_set(final(self)@.parent, x, y) <==> joined(
                    old(self)@.parent,
                    start as int,
                    end as int,
                    x,
                    y,
                )),
    {
        proof {
            lemma_union_by_weight(self@, start as int, end as int, always(), false);
        }
        let start_root: i64 = self.get_root(start);
        let end_root: i64 = self.get_root(end);
        if self.size_of(start_root) > self.size_of(end_root) {
            self.link(end_root, start_root);
        } else {
            self.link(start_root, end_root);
        }
    }

    /// Whether `start` and `end` are in one set. Both lookups halve their walks.
    pub fn connected(&mut self, start: i64, end: i64) -> (r: bool)
        requires
            old(self).wf(),
            old(self)@.parent.dom().contains(start as int),
            old(self)@.parent.dom().contains(end as int),
        ensures
            r == same_set(old(self)@.parent, start as int, end as int),
            final(self).wf(),
            final(self)@.parent == found(found(old(self)@.parent, start as int), end as int),
            final(self)@.weight == old(self)@.weight,
            final(self)@.parent.dom() == old(self)@.parent.dom(),
            forall|k: int|
                old(self)@.parent.dom().contains(k) ==> #[trigger] root_of(final(self)@.parent, k)
                    == root_of(old(self)@.parent, k),
    {
        let start_root: i64 = self.get_root(start);
        let end_root: i64 = self.get_root(end);
        end_root == start_root
    }

    /// The root of the tree of `item`. The walk starts at the parent of `item`;
    /// each element that it stops at is linked to the element two links up.
    pub fn get_root(&mut self, item: i64) -> (root: i64)
        requires
            old(self).wf(),
            old(self)@.parent.dom().contains(item as int),
        ensures
            root as int == root_of(old(self)@.parent, item as int),
            old(self)@.parent.dom().contains(root as int),
            final(self).wf(),
            final(self)@.parent == found(old(self)@.parent, item as int),
            final(self)@.weight == old(self)@.weight,
            final(self)@.parent.dom() == old(self)@.parent.dom(),
            forall|k: int|
                old(self)@.parent.dom().contains(k) ==> #[trigger] root_of(final(self)@.parent, k)
                    == root_of(old(self)@.parent, k),
    {
        let ghost before = self@;
        let mut root: i64 = self.parent_of(item);
        proof {
            lemma_root_of(before.parent, item as int);
        }
        while root != self.parent_of(root)
            invariant
                self.wf(),
                is_forest(before.parent),
                before.parent.dom().contains(item as int),
                self@.weight == before.weight,
                self@.parent.dom() == before.parent.dom(),
                self@.parent.dom().contains(root as int),
                root_of(before.parent, root as int) == root_of(before.parent, item as int),
                forall|k: int|
                    before.parent.dom().contains(k) ==> #[trigger] root_of(self@.parent, k)
                        == root_of(before.parent, k),
                halved(self@.parent, root as int) == found(before.parent, item as int),
            decreases depth(self@.parent, root as int),
        {
            let ghost links = self@.parent;
            let parent: i64 = self.parent_of(root);
            let up: i64 = self.parent_of(parent);
            proof {
                lemma_skip_shortens(links, root as int);
                lemma_root_of(links, root as int);
                lemma_root_of(links, parent as int);
            }
            assert(self.internal.len() == self.internal@.len());
            self.internal[root as usize] = up;
            assert(self@.parent =~= links.insert(root as int, up as int));
            assert(self@.weight =~= before.weight);
            root = self.parent_of(root);
        }
        assert(root_of(self@.parent, root as int) == root as int);
        root
    }

    /// The parents as they are stored.
    pub fn internal(&self) -> (parents: &Vec<i64>)
        ensures
            forall|i: int| 0 <= i < parents@.len() <==> self@.parent.dom().contains(i),
            forall|i: int| 0 <= i < parents@.len() ==> #[trigger] parents@[i] == self@.parent[i],
    {
        &self.internal
    }

    /// The counters as they are stored.
    pub fn sizes(&self) -> (counters: &Vec<i64>)
        ensures
            forall|i: int| 0 <= i < counters@.len() <==> self@.weight.dom().contains(i),
            forall|i: int| 0 <= i < counters@.len() ==> #[trigger] counters@[i] == self@.weight[i],
    {
        &self.sizes
    }
}

} // verus!
