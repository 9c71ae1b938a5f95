//! A square grid of sites with a virtual site above it and one below it, kept
//! as a forest of parent links between coordinates, with one counter per site.
//! The virtual top is tied to every site of row 0 and the virtual bottom to
//! every site of the last row; the grid percolates when the two virtual sites
//! are in one set.

use crate::forest::{
    absorbing, depth, halved_while, is_forest, joined, lemma_forest_by_rank, lemma_root_of,
    lemma_skip_shortens, lemma_union_by_weight, root_of, same_set, union_by_weight, weighted_ok,
    Weighted,
};
use vstd::prelude::*;

verus! {

/// The sites of a grid of `size` columns and `size` rows, with the two virtual
/// sites `(size, 0)` and `(size, 1)`.
pub open spec fn sites(size: int) -> Set<(int, int)> {
    Set::new(
        |c: (int, int)| (0 <= c.0 < size && 0 <= c.1 < size) || (c.0 == size && 0 <= c.1 < 2),
    )
}

/// A pair of coordinates as a site.
pub open spec fn site(c: (i64, i64)) -> (int, int) {
    (c.0 as int, c.1 as int)
}

/// Both coordinates of a site differ from those of its parent.
pub open spec fn both_differ() -> spec_fn((int, int), (int, int)) -> bool {
    |node: (int, int), above: (int, int)| node.0 != above.0 && node.1 != above.1
}

/// The links after a walk from `k` that, while both coordinates of the site it
/// stops at differ from those of the site's parent, links the site to the site
/// two links up and goes on from there.
pub open spec fn skew_halved(parent: Map<(int, int), (int, int)>, k: (int, int)) -> Map<
    (int, int),
    (int, int),
> {
    halved_while(parent, k, both_differ())
}

/// The links after a lookup of the root of `item`: the walk starts at the
/// parent of `item`.
pub open spec fn skew_found(parent: Map<(int, int), (int, int)>, item: (int, int)) -> Map<
    (int, int),
    (int, int),
> {
    skew_halved(parent, parent[item])
}

/// The structure after a union of `start` and `end`: a union by weight whose
/// lookups shorten their walks while both coordinates differ, and which raises
/// the counter of the absorbing root. On equal counters the root of `end`
/// absorbs.
pub open spec fn merged(w: Weighted<(int, int)>, start: (int, int), end: (int, int)) -> Weighted<
    (int, int),
> {
    union_by_weight(w, start, end, both_differ(), true)
}

/// The structure of a grid of `size` columns once the first `columns` of them
/// are tied to the virtual sites: their sites of row 0 hang below the virtual
/// top and their sites of the last row below the virtual bottom, and each
/// virtual site has counted its unions. In a grid of one site the two rows are
/// one, and the virtual bottom hangs below the virtual top.
pub open spec fn tied(size: int, columns: int) -> Weighted<(int, int)> {
    Weighted {
        parent: Map::new(
            |c: (int, int)| sites(size).contains(c),
            |c: (int, int)|
                if c.0 < columns && c.0 < size && c.1 == 0 {
                    (size, 0)
                } else if c.0 < columns && c.0 < size && c.1 == size - 1 {
                    (size, 1)
                } else if size == 1 && columns == 1 && c == (1int, 1int) {
                    (1, 0)
                } else {
                    c
                },
        ),
        weight: Map::new(
            |c: (int, int)| sites(size).contains(c),
            |c: (int, int)|
                if c.0 != size {
                    0
                } else if size == 1 && columns == 1 {
                    if c.1 == 0 {
                        2
                    } else {
                        0
                    }
                } else {
                    columns
                },
        ),
    }
}

/// A grid of `size` columns and rows. `grid[x][y]` is the parent of the site
/// `(x, y)` and `sizes[x][y]` its counter; the last row of each holds the two
/// virtual sites.
pub struct Percolation {
    size: i64,
    grid: Vec<Vec<(i64, i64)>>,
    sizes: Vec<Vec<i64>>,
}

impl View for Percolation {
    type V = Weighted<(int, int)>;

    /// The parent and the counter of each site.
    closed spec fn view(&self) -> Weighted<(int, int)> {
        Weighted {
            parent: Map::new(
                |c: (int, int)| sites(self.size as int).contains(c),
                |c: (int, int)| site(self.grid@[c.0]@[c.1]),
            ),
            weight: Map::new(
                |c: (int, int)| sites(self.size as int).contains(c),
                |c: (int, int)| self.sizes@[c.0]@[c.1] as int,
            ),
        }
    }
}

impl Percolation {
    /// The number of columns, which is the number of rows.
    pub closed spec fn side(&self) -> int {
        self.size as int
    }

    /// The stored rows have the lengths of the grid: one row of `side` cells
    /// per column, and a last row of two cells for the virtual sites.
    pub closed spec fn shaped(&self) -> bool {
        &&& self.size >= 0
        &&& self.grid@.len() == self.size + 1
        &&& self.sizes@.len() == self.size + 1
        &&& forall|x: int| 0 <= x < self.size ==> (#[trigger] self.grid@[x])@.len() == self.size
        &&& forall|x: int| 0 <= x < self.size ==> (#[trigger] self.sizes@[x])@.len() == self.size
        &&& self.grid@[self.size as int]@.len() == 2
        &&& self.sizes@[self.size as int]@.len() == 2
    }

    /// The rows have their lengths, the links form a forest over the sites
    /// of the grid, and every site has a counter.
    pub open spec fn wf(&self) -> bool {
        &&& self.shaped()
        &&& self.side() >= 0
        &&& weighted_ok(self@)
        &&& self@.parent.dom() == sites(self.side())
    }

    /// A grid of `size` columns and rows with its two virtual sites, the
    /// virtual top tied to every site of row 0 and the virtual bottom to every
    /// site of the last row. A size that is not positive gives the grid without
    /// sites, which has the two virtual sites alone.
    pub fn new(size: i64) -> (s: Percolation)
        ensures
            s.wf(),
            s.side() == (if size > 0 {
                size as int
            } else {
                0
            }),
            s@ == tied(s.side(), s.side()),
            forall|c: (int, int)| s@.parent.dom().contains(c) ==> same_set(s@.parent, c, c),
            forall|x: int|
                0 <= x < s.side() ==> #[trigger] same_set(s@.parent, (x, 0), (s.side(), 0)),
            forall|x: int|
                0 <= x < s.side() ==> #[trigger] same_set(
                    s@.parent,
                    (x, s.side() - 1),
                    (s.side(), 1),
                ),
    {
        let n: i64 = if size > 0 {
            size
        } else {
            0
        };
        let mut grid: Vec<Vec<(i64, i64)>> = Vec::new();
        let mut sizes: Vec<Vec<i64>> = Vec::new();
        let mut x: i64 = 0;
        while x < n
            invariant
                0 <= x <= n,
                grid@.len() == x,
                sizes@.len() == x,
                forall|i: int| 0 <= i < x ==> (#[trigger] grid@[i])@.len() == n,
                forall|i: int| 0 <= i < x ==> (#[trigger] sizes@[i])@.len() == n,
                forall|i: int, j: int|
                    0 <= i < x && 0 <= j < n ==> site(#[trigger] grid@[i]@[j]) == (i, j),
                forall|i: int, j: int| 0 <= i < x && 0 <= j < n ==> #[trigger] sizes@[i]@[j] == 0,
            decreases n - x,
        {
            let mut row: Vec<(i64, i64)> = Vec::new();
            let mut counters: Vec<i64> = Vec::new();
            let mut y: i64 = 0;
            while y < n
                invariant
                    0 <= y <= n,
                    row@.len() == y,
                    counters@.len() == y,
                    forall|j: int| 0 <= j < y ==> site(#[trigger] row@[j]) == (x as int, j),
                    forall|j: int| 0 <= j < y ==> #[trigger] counters@[j] == 0,
                decreases n - y,
            {
                row.push((x, y));
                counters.push(0);
                y += 1;
            }
            grid.push(row);
            sizes.push(counters);
            x += 1;
        }
        let mut row: Vec<(i64, i64)> = Vec::new();
        let mut counters: Vec<i64> = Vec::new();
        row.push((n, 0));
        counters.push(0);
        row.push((n, 1));
        counters.push(0);
        grid.push(row);
        sizes.push(counters);
        let mut result = Percolation { size: n, grid, sizes };
        proof {
            assert(result@.parent =~= tied(n as int, 0).parent);
            assert(result@.weight =~= tied(n as int, 0).weight);
            lemma_tied_ok(n as int, 0);
        }
        let mut x: i64 = 0;
        while x < n
            invariant
                0 <= x <= n,
                result.wf(),
                result.side() == n,
                result@ == tied(n as int, x as int),
            decreases n - x,
        {
            proof {
                lemma_tied_step(n as int, x as int);
            }
            result.union((x, 0), (n, 0));
            result.union((x, n - 1), (n, 1));
            x += 1;
        }
        proof {
            lemma_tied_connects(n as int);
        }
        result
    }

    /// One step along the links.
    fn parent_of(&self, item: (i64, i64)) -> (parent: (i64, i64))
        requires
            self.wf(),
            self@.parent.dom().contains(site(item)),
        ensures
            site(parent) == self@.parent[site(item)],
            self@.parent.dom().contains(site(parent)),
    {
        assert(self.grid.len() == self.grid@.len());
        let row = &self.grid[item.0 as usize];
        assert(row.len() == row@.len());
        let parent = row[item.1 as usize];
        assert(site(parent) == self@.parent[site(item)]);
        assert(self@.parent.dom().contains(self@.parent[site(item)]));
        parent
    }

    /// The counter of a site.
    fn size_of(&self, item: (i64, i64)) -> (size: i64)
        requires
            self.wf(),
            self@.parent.dom().contains(site(item)),
        ensures
            size as int == self@.weight[site(item)],
    {
        assert(self.sizes.len() == self.sizes@.len());
        let row = &self.sizes[item.0 as usize];
        assert(row.len() == row@.len());
        row[item.1 as usize]
    }

    /// Writes the parent of a site.
    fn set_parent(&mut self, item: (i64, i64), parent: (i64, i64))
        requires
            old(self).shaped(),
            sites(old(self).side()).contains(site(item)),
        ensures
            final(self).shaped(),
            final(self).side() == old(self).side(),
            final(self)@.parent == old(self)@.parent.insert(site(item), site(parent)),
            final(self)@.weight == old(self)@.weight,
    {
        assert(self.grid.len() == self.grid@.len());
        assert(self.grid[item.0 as int].len() == self.grid[item.0 as int]@.len());
        self.grid[item.0 as usize][item.1 as usize] = parent;
        assert(self@.parent =~= old(self)@.parent.insert(site(item), site(parent)));
        assert(self@.weight =~= old(self)@.weight);
    }

    /// Counts a site up.
    fn count_up(&mut self, item: (i64, i64))
        requires
            old(self).shaped(),
            sites(old(self).side()).contains(site(item)),
            old(self)@.weight[site(item)] < i64::MAX,
        ensures
            final(self).shaped(),
            final(self).side() == old(self).side(),
            final(self)@.parent == old(self)@.parent,
            final(self)@.weight == old(self)@.weight.insert(
                site(item),
                old(self)@.weight[site(item)] + 1,
            ),
    {
        assert(self.sizes.len() == self.sizes@.len());
        assert(self.sizes[item.0 as int].len() == self.sizes[item.0 as int]@.len());
        let count: i64 = self.sizes[item.0 as usize][item.1 as usize];
        self.sizes[item.0 as usize][item.1 as usize] = count + 1;
        assert(self@.parent =~= old(self)@.parent);
        assert(self@.weight =~= old(self)@.weight.insert(
            site(item),
            old(self)@.weight[site(item)] + 1,
        ));
    }

    /// Looks up both roots, links the one with the smaller counter, or on equal
    /// counters the root of `start`, to the other, and counts the other root
    /// up: the root of `start` absorbs only where its counter is the greater.
    /// The counter that is raised has to be below the greatest `i64`.
    pub fn union(&mut self, start: (i64, i64), end: (i64, i64))
        requires
            old(self).wf(),
            old(self)@.parent.dom().contains(site(start)),
            old(self)@.parent.dom().contains(site(end)),
            old(self)@.weight[absorbing(old(self)@, site(start), site(end))] < i64::MAX,
        ensures
            final(self).wf(),
            final(self).side() == old(self).side(),
            final(self)@ == merged(old(self)@, site(start), site(end)),
            same_set(final(self)@.parent, site(start), site(end)),
            forall|x: (int, int), y: (int, int)|
                old(self)@.parent.dom().contains(x) && old(self)@.parent.dom().contains(y) ==> (
                #[trigger] same_set(final(self)@.parent, x, y) <==> joined(
                    old(self)@.parent,
                    site(start),
                    site(end),
                    x,
                    y,
                )),
    {
        proof {
            lemma_union_by_weight(self@, site(start), site(end), both_differ(), true);
        }
        let start_root = self.get_root(start);
        let end_root = self.get_root(end);
        if self.size_of(start_root) > self.size_of(end_root) {
            self.set_parent(end_root, start_root);
            self.count_up(start_root);
        } else {
            self.set_parent(start_root, end_root);
            self.count_up(end_root);
        }
    }

    /// Whether `start` and `end` are in one set. Both lookups may shorten
    /// their walks.
    pub fn connected(&mut self, start: (i64, i64), end: (i64, i64)) -> (r: bool)
        requires
            old(self).wf(),
            old(self)@.parent.dom().contains(site(start)),
            old(self)@.parent.dom().contains(site(end)),
        ensures
            r == same_set(old(self)@.parent, site(start), site(end)),
            final(self).wf(),
            final(self).side() == old(self).side(),
            final(self)@.parent == skew_found(
                skew_found(old(self)@.parent, site(start)),
                site(end),
            ),
            final(self)@.weight == old(self)@.weight,
            forall|k: (int, int)|
                old(self)@.parent.dom().contains(k) ==> #[trigger] root_of(final(self)@.parent, k)
                    == root_of(old(self)@.parent, k),
    {
        let start_root = self.get_root(start);
        let end_root = self.get_root(end);
        start_root.0 == end_root.0 && start_root.1 == end_root.1
    }

    /// The root of the tree of `item`. The walk starts at the parent of `item`.
    /// While both coordinates of the site it stops at differ from those of the
    /// site's parent, the site is linked to the site two links up; from the
    /// first site for which they do not, the walk goes on to the root and
    /// changes nothing.
    pub fn get_root(&mut self, item: (i64, i64)) -> (root: (i64, i64))
        requires
            old(self).wf(),
            old(self)@.parent.dom().contains(site(item)),
        ensures
            site(root) == root_of(old(self)@.parent, site(item)),
            old(self)@.parent.dom().contains(site(root)),
            final(self).wf(),
            final(self).side() == old(self).side(),
            final(self)@.parent == skew_found(old(self)@.parent, site(item)),
            final(self)@.weight == old(self)@.weight,
            forall|k: (int, int)|
                old(self)@.parent.dom().contains(k) ==> #[trigger] root_of(final(self)@.parent, k)
                    == root_of(old(self)@.parent, k),
    {
        let ghost before = self@;
        let mut result = self.parent_of(item);
        proof {
            lemma_root_of(before.parent, site(item));
        }
        while result.0 != self.parent_of(result).0 && result.1 != self.parent_of(result).1
            invariant
                self.wf(),
                self.side() == old(self).side(),
                is_forest(before.parent),
                before.parent.dom().contains(site(item)),
                self@.weight == before.weight,
                self@.parent.dom() == before.parent.dom(),
                self@.parent.dom().contains(site(result)),
                root_of(before.parent, site(result)) == root_of(before.parent, site(item)),
                forall|k: (int, int)|
                    before.parent.dom().contains(k) ==> #[trigger] root_of(self@.parent, k)
                        == root_of(before.parent, k),
                skew_halved(self@.parent, site(result)) == skew_found(before.parent, site(item)),
            decreases depth(self@.parent, site(result)),
        {
            let ghost links = self@.parent;
            let parent = self.parent_of(result);
            let up = self.parent_of(parent);
            proof {
                lemma_skip_shortens(links, site(result));
                lemma_root_of(links, site(result));
                lemma_root_of(links, site(parent));
            }
            self.set_parent(result, up);
            result = self.parent_of(result);
        }
        while result.0 != self.parent_of(result).0 || result.1 != self.parent_of(result).1
            invariant
                self.wf(),
                self@.parent.dom().contains(site(result)),
                root_of(self@.parent, site(result)) == root_of(before.parent, site(item)),
            decreases depth(self@.parent, site(result)),
        {
            proof {
                lemma_root_of(self@.parent, site(result));
            }
            result = self.parent_of(result);
        }
        assert(root_of(self@.parent, site(result)) == site(result));
        result
    }

    /// Whether the virtual top and the virtual bottom are in one set.
    pub fn percolates(&mut self) -> (r: bool)
        requires
            old(self).wf(),
        ensures
            r == same_set(old(self)@.parent, (old(self).side(), 0), (old(self).side(), 1)),
            final(self).wf(),
            final(self).side() == old(self).side(),
            final(self)@.parent == skew_found(
                skew_found(old(self)@.parent, (old(self).side(), 0)),
                (old(self).side(), 1),
            ),
            final(self)@.weight == old(self)@.weight,
            forall|k: (int, int)|
                old(self)@.parent.dom().contains(k) ==> #[trigger] root_of(final(self)@.parent, k)
                    == root_of(old(self)@.parent, k),
    {
        self.connected((self.size, 0), (self.size, 1))
    }

    /// The parents as they are stored: one row per column, then the row of the
    /// two virtual sites.
    pub fn grid(&self) -> (rows: &Vec<Vec<(i64, i64)>>)
        requires
            self.wf(),
        ensures
            rows@.len() == self.side() + 1,
            forall|x: int| 0 <= x < self.side() ==> (#[trigger] rows@[x])@.len() == self.side(),
            rows@[self.side()]@.len() == 2,
            forall|c: (int, int)|
                sites(self.side()).contains(c) ==> site(#[trigger] rows@[c.0]@[c.1])
                    == self@.parent[c],
    {
        &self.grid
    }

    /// The counters as they are stored, in the layout of the parents.
    pub fn sizes(&self) -> (rows: &Vec<Vec<i64>>)
        requires
            self.wf(),
        ensures
            rows@.len() == self.side() + 1,
            forall|x: int| 0 <= x < self.side() ==> (#[trigger] rows@[x])@.len() == self.side(),
            rows@[self.side()]@.len() == 2,
            forall|c: (int, int)|
                sites(self.side()).contains(c) ==> #[trigger] rows@[c.0]@[c.1] == self@.weight[c],
    {
        &self.sizes
    }
}

/// A grid whose first columns are tied to the virtual sites is well formed.
pub proof fn lemma_tied_ok(size: int, columns: int)
    requires
        0 <= columns <= size,
    ensures
        weighted_ok(tied(size, columns)),
        tied(size, columns).parent.dom() == sites(size),
{
    let w = tied(size, columns);
    let rank = |c: (int, int)|
        if c == (size, 0int) {
            0nat
        } else if c == (size, 1int) {
            1nat
        } else {
            2nat
        };
    assert(w.parent.dom() =~= sites(size));
    assert(w.weight.dom() =~= sites(size));
    lemma_forest_by_rank(w.parent, rank);
}

/// Tying one more column is two unions: of the column's site of row 0 with the
/// virtual top, and of its site of the last row with the virtual bottom.
/// Neither counter that these unions raise is at its limit.
pub proof fn lemma_tied_step(size: int, x: int)
    requires
        0 <= x < size <= i64::MAX,
    ensures
        tied(size, x).weight[absorbing(tied(size, x), (x, 0), (size, 0))] < i64::MAX,
        merged(tied(size, x), (x, 0), (size, 0)).weight[absorbing(
            merged(tied(size, x), (x, 0), (size, 0)),
            (x, size - 1),
            (size, 1),
        )] < i64::MAX,
        merged(merged(tied(size, x), (x, 0), (size, 0)), (x, size - 1), (size, 1)) == tied(
            size,
            x + 1,
        ),
{
    let top = (size, 0int);
    let bottom = (size, 1int);
    let upper = (x, 0int);
    let lower = (x, size - 1);
    let w = tied(size, x);
    lemma_tied_ok(size, x);
    assert(root_of(w.parent, top) == top);
    assert(root_of(w.parent, upper) == upper);
    assert(skew_found(w.parent, upper) == w.parent);
    assert(skew_found(w.parent, top) == w.parent);
    let mid = merged(w, upper, top);
    assert(mid.parent == w.parent.insert(upper, top));
    assert(mid.weight == w.weight.insert(top, x + 1));
    lemma_union_by_weight(w, upper, top, both_differ(), true);
    assert(root_of(mid.parent, top) == top);
    assert(root_of(mid.parent, bottom) == bottom);
    assert(skew_found(mid.parent, bottom) == mid.parent);
    if size == 1 {
        assert(root_of(mid.parent, lower) == top);
        assert(skew_found(mid.parent, lower) == mid.parent);
    } else {
        assert(root_of(mid.parent, lower) == lower);
        assert(skew_found(mid.parent, lower) == mid.parent);
    }
    let after = merged(mid, lower, bottom);
    assert(after.parent =~= tied(size, x + 1).parent);
    assert(after.weight =~= tied(size, x + 1).weight);
}

/// In a grid whose columns are all tied, every site of row 0 is in the set of
/// the virtual top and every site of the last row in that of the virtual bottom.
pub proof fn lemma_tied_connects(size: int)
    requires
        0 <= size,
    ensures
        forall|x: int|
            0 <= x < size ==> #[trigger] same_set(tied(size, size).parent, (x, 0), (size, 0)),
        forall|x: int|
            0 <= x < size ==> #[trigger] same_set(
                tied(size, size).parent,
                (x, size - 1),
                (size, 1),
            ),
{
    let w = tied(size, size);
    let top = (size, 0int);
    let bottom = (size, 1int);
    lemma_tied_ok(size, size);
    assert(root_of(w.parent, top) == top);
    assert forall|x: int| 0 <= x < size implies #[trigger] same_set(w.parent, (x, 0), top) by {
        assert(w.parent[(x, 0int)] == top);
    }
    assert forall|x: int| 0 <= x < size implies #[trigger] same_set(
        w.parent,
        (x, size - 1),
        bottom,
    ) by {
        if size == 1 {
            assert(w.parent[bottom] == top);
            assert(w.parent[(x, size - 1)] == top);
        } else {
            assert(w.parent[bottom] == bottom);
            assert(w.parent[(x, size - 1)] == bottom);
        }
    }
}

} // verus!
