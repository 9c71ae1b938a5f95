//! Forests of parent links. A node whose link leads to itself is a root; every
//! other node hangs below the node that its link names. The links form a forest
//! when every walk along them ends at a root, and then each node has exactly
//! one root: the representative of its set.

use vstd::prelude::*;

verus! {

/// Every link leads to a node.
pub open spec fn closed_links<K>(parent: Map<K, K>) -> bool {
    forall|k: K| parent.dom().contains(k) ==> parent.dom().contains(#[trigger] parent[k])
}

/// `rank` falls along every link that leaves its node.
pub open spec fn falls_along<K>(parent: Map<K, K>, rank: spec_fn(K) -> nat) -> bool {
    forall|k: K|
        parent.dom().contains(k) && #[trigger] parent[k] != k ==> rank(parent[k]) < rank(k)
}

/// The links are closed and no walk along them goes on for ever.
pub open spec fn is_forest<K>(parent: Map<K, K>) -> bool {
    closed_links(parent) && exists|rank: spec_fn(K) -> nat| falls_along(parent, rank)
}

/// Some rank that falls along the links of a forest.
pub open spec fn some_rank<K>(parent: Map<K, K>) -> spec_fn(K) -> nat {
    choose|rank: spec_fn(K) -> nat| falls_along(parent, rank)
}

/// The root that the walk from `k` ends at.
pub open spec fn root_of<K>(parent: Map<K, K>, k: K) -> K
    decreases some_rank(parent)(k),
    when is_forest(parent) && parent.dom().contains(k)
{
    if parent[k] == k {
        k
    } else {
        root_of(parent, parent[k])
    }
}

/// The number of links between `k` and its root.
pub open spec fn depth<K>(parent: Map<K, K>, k: K) -> nat
    decreases some_rank(parent)(k),
    when is_forest(parent) && parent.dom().contains(k)
{
    if parent[k] == k {
        0
    } else {
        1 + depth(parent, parent[k])
    }
}

/// Two nodes are in one set when their walks end at the same root.
pub open spec fn same_set<K>(parent: Map<K, K>, a: K, b: K) -> bool {
    root_of(parent, a) == root_of(parent, b)
}

/// A forest whose nodes each carry a counter. A union reads the counters of
/// two roots to decide which of them comes under the other.
#[verifier::reject_recursive_types(K)]
pub struct Weighted<K> {
    pub parent: Map<K, K>,
    pub weight: Map<K, int>,
}

/// The links form a forest, and the nodes that carry a counter are its nodes.
pub open spec fn weighted_ok<K>(w: Weighted<K>) -> bool {
    is_forest(w.parent) && w.weight.dom() == w.parent.dom()
}

/// The links after a lookup of the root of `item`: the walk from the parent of
/// `item` has been halved.
pub open spec fn found<K>(parent: Map<K, K>, item: K) -> Map<K, K> {
    halved(parent, parent[item])
}

/// Whether `x` and `y` are in one set once the sets of `a` and `b` are joined.
pub open spec fn joined<K>(parent: Map<K, K>, a: K, b: K, x: K, y: K) -> bool {
    ||| same_set(parent, x, y)
    ||| (same_set(parent, x, a) && same_set(parent, y, b))
    ||| (same_set(parent, x, b) && same_set(parent, y, a))
}

/// The elements `0..size`; none where `size` is not positive.
pub open spec fn span(size: int) -> Set<int> {
    Set::new(|i: int| 0 <= i < size)
}

/// The links of a forest in which every node is a root.
pub open spec fn all_roots<K>(nodes: Set<K>) -> Map<K, K> {
    Map::new(|k: K| nodes.contains(k), |k: K| k)
}

/// The links after a walk from `k` that goes on while the node it stops at is
/// no root and `shorten` holds of the node and its parent: the node is linked
/// to the node two links up, and the walk goes on from there.
pub open spec fn halved_while<K>(
    parent: Map<K, K>,
    k: K,
    shorten: spec_fn(K, K) -> bool,
) -> Map<K, K>
    decreases depth(parent, k),
    when is_forest(parent) && parent.dom().contains(k)
{
    if parent[k] != k && shorten(k, parent[k]) {
        proof {
            lemma_skip_shortens(parent, k);
        }
        let up = parent[parent[k]];
        halved_while(parent.insert(k, up), up, shorten)
    } else {
        parent
    }
}

/// Holds of every node and its parent.
pub open spec fn always<K>() -> spec_fn(K, K) -> bool {
    |node: K, above: K| true
}

/// The links after the walk from `k` has been halved: each node that the walk
/// stops at is linked to the node two links up, as far as the root.
pub open spec fn halved<K>(parent: Map<K, K>, k: K) -> Map<K, K> {
    halved_while(parent, k, always())
}

/// The root that a union of `start` and `end` links to the other root: the
/// root of `end` where the root of `start` has the greater counter, else the
/// root of `start`.
pub open spec fn absorbed<K>(w: Weighted<K>, start: K, end: K) -> K {
    if w.weight[root_of(w.parent, start)] > w.weight[root_of(w.parent, end)] {
        root_of(w.parent, end)
    } else {
        root_of(w.parent, start)
    }
}

/// The root that a union of `start` and `end` links the other root to: the
/// root of `start` where it has the greater counter, else the root of `end`.
pub open spec fn absorbing<K>(w: Weighted<K>, start: K, end: K) -> K {
    if w.weight[root_of(w.parent, start)] > w.weight[root_of(w.parent, end)] {
        root_of(w.parent, start)
    } else {
        root_of(w.parent, end)
    }
}

/// The structure after a union of `start` and `end` by weight. The roots of
/// `start` and of `end` are looked up in turn, each by a walk from the parent
/// that shortens while `shorten` holds. Then the absorbed root is linked to the
/// absorbing one and one counter is raised by one: that of the absorbing root
/// where `count_absorbing` holds, else that of the absorbed root.
pub open spec fn union_by_weight<K>(
    w: Weighted<K>,
    start: K,
    end: K,
    shorten: spec_fn(K, K) -> bool,
    count_absorbing: bool,
) -> Weighted<K> {
    let first = halved_while(w.parent, w.parent[start], shorten);
    let second = halved_while(first, first[end], shorten);
    let counted = if count_absorbing {
        absorbing(w, start, end)
    } else {
        absorbed(w, start, end)
    };
    Weighted {
        parent: second.insert(absorbed(w, start, end), absorbing(w, start, end)),
        weight: w.weight.insert(counted, w.weight[counted] + 1),
    }
}

/// `links` has the nodes of `parent`, and each node has the root it has there.
pub open spec fn same_roots<K>(parent: Map<K, K>, links: Map<K, K>) -> bool {
    &&& is_forest(links)
    &&& links.dom() == parent.dom()
    &&& forall|j: K| parent.dom().contains(j) ==> #[trigger] root_of(links, j) == root_of(parent, j)
}

/// A rank that falls along closed links shows a forest.
pub proof fn lemma_forest_by_rank<K>(parent: Map<K, K>, rank: spec_fn(K) -> nat)
    requires
        closed_links(parent),
        falls_along(parent, rank),
    ensures
        is_forest(parent),
{
}

/// Where every node is a root there is a forest, and each node is its own root.
pub proof fn lemma_all_roots<K>(nodes: Set<K>)
    ensures
        is_forest(all_roots(nodes)),
        all_roots(nodes).dom() == nodes,
        forall|k: K| nodes.contains(k) ==> #[trigger] root_of(all_roots(nodes), k) == k,
{
    let parent = all_roots(nodes);
    let rank = |k: K| 0nat;
    assert(falls_along(parent, rank));
    assert(parent.dom() =~= nodes);
}

/// The root of a node is a root, and it is the root of the node's parent too.
pub proof fn lemma_root_of<K>(parent: Map<K, K>, k: K)
    requires
        is_forest(parent),
        parent.dom().contains(k),
    ensures
        parent.dom().contains(root_of(parent, k)),
        parent[root_of(parent, k)] == root_of(parent, k),
        root_of(parent, root_of(parent, k)) == root_of(parent, k),
        root_of(parent, parent[k]) == root_of(parent, k),
    decreases some_rank(parent)(k),
{
    if parent[k] != k {
        lemma_root_of(parent, parent[k]);
    }
}

/// The depth falls along the links of a forest.
pub proof fn lemma_depth_falls<K>(parent: Map<K, K>)
    requires
        is_forest(parent),
    ensures
        falls_along(parent, |k: K| depth(parent, k)),
{
}

/// Linking `c` to a node of lower rank leaves a forest, with the same rank.
pub proof fn lemma_relink_is_forest<K>(parent: Map<K, K>, rank: spec_fn(K) -> nat, c: K, v: K)
    requires
        closed_links(parent),
        falls_along(parent, rank),
        parent.dom().contains(c),
        parent.dom().contains(v),
        rank(v) < rank(c),
    ensures
        is_forest(parent.insert(c, v)),
        falls_along(parent.insert(c, v), rank),
        parent.insert(c, v).dom() == parent.dom(),
{
    let next = parent.insert(c, v);
    assert(next.dom() =~= parent.dom());
    assert forall|k: K| next.dom().contains(k) implies next.dom().contains(#[trigger] next[k]) by {
        if k != c {
            assert(next[k] == parent[k]);
        }
    }
    assert forall|k: K| next.dom().contains(k) && #[trigger] next[k] != k implies rank(next[k])
        < rank(k) by {
        if k != c {
            assert(next[k] == parent[k]);
        }
    }
    assert(falls_along(next, rank));
}

/// Linking `c` to a node of lower rank changes nothing for a node whose rank
/// is below that of `c`: its walk never comes to `c`.
pub proof fn lemma_relink_below<K>(
    parent: Map<K, K>,
    rank: spec_fn(K) -> nat,
    c: K,
    v: K,
    k: K,
)
    requires
        closed_links(parent),
        falls_along(parent, rank),
        parent.dom().contains(c),
        parent.dom().contains(v),
        parent.dom().contains(k),
        rank(v) < rank(c),
        rank(k) < rank(c),
    ensures
        root_of(parent.insert(c, v), k) == root_of(parent, k),
        depth(parent.insert(c, v), k) == depth(parent, k),
    decreases rank(k),
{
    lemma_relink_is_forest(parent, rank, c, v);
    let next = parent.insert(c, v);
    assert(next[k] == parent[k]);
    if parent[k] != k {
        lemma_relink_below(parent, rank, c, v, parent[k]);
    }
}

/// Linking `c` to a node of lower rank in its own tree keeps every root.
pub proof fn lemma_relink_in_tree<K>(
    parent: Map<K, K>,
    rank: spec_fn(K) -> nat,
    c: K,
    v: K,
    k: K,
)
    requires
        closed_links(parent),
        falls_along(parent, rank),
        parent.dom().contains(c),
        parent.dom().contains(v),
        parent.dom().contains(k),
        rank(v) < rank(c),
        root_of(parent, v) == root_of(parent, c),
    ensures
        root_of(parent.insert(c, v), k) == root_of(parent, k),
    decreases rank(k),
{
    lemma_relink_is_forest(parent, rank, c, v);
    let next = parent.insert(c, v);
    if k == c {
        lemma_relink_below(parent, rank, c, v, v);
        assert(next[c] == v);
    } else {
        assert(next[k] == parent[k]);
        if parent[k] != k {
            lemma_relink_in_tree(parent, rank, c, v, parent[k]);
        }
    }
}

/// Linking a node that is no root to the node two links up leaves a forest
/// with the same roots, and the walk from that node is shorter than the walk
/// from the node that was relinked.
pub proof fn lemma_skip_shortens<K>(parent: Map<K, K>, k: K)
    requires
        is_forest(parent),
        parent.dom().contains(k),
        parent[k] != k,
    ensures
        is_forest(parent.insert(k, parent[parent[k]])),
        parent.insert(k, parent[parent[k]]).dom() == parent.dom(),
        parent.dom().contains(parent[parent[k]]),
        depth(parent.insert(k, parent[parent[k]]), parent[parent[k]]) < depth(parent, k),
        forall|j: K|
            parent.dom().contains(j) ==> #[trigger] root_of(
                parent.insert(k, parent[parent[k]]),
                j,
            ) == root_of(parent, j),
{
    let up = parent[parent[k]];
    let rank = |j: K| depth(parent, j);
    lemma_depth_falls(parent);
    assert(parent.dom().contains(parent[k]));
    assert(parent.dom().contains(up));
    assert(rank(parent[k]) < rank(k));
    assert(rank(up) <= rank(parent[k]));
    lemma_relink_is_forest(parent, rank, k, up);
    lemma_relink_below(parent, rank, k, up, up);
    lemma_root_of(parent, k);
    lemma_root_of(parent, parent[k]);
    assert forall|j: K| parent.dom().contains(j) implies #[trigger] root_of(
        parent.insert(k, up),
        j,
    ) == root_of(parent, j) by {
        lemma_relink_in_tree(parent, rank, k, up, j);
    }
}

/// A walk that links nodes to the node two links up, wherever it stops doing
/// so, leaves a forest with the same nodes and the same roots.
pub proof fn lemma_halved_while<K>(parent: Map<K, K>, k: K, shorten: spec_fn(K, K) -> bool)
    requires
        is_forest(parent),
        parent.dom().contains(k),
    ensures
        same_roots(parent, halved_while(parent, k, shorten)),
    decreases depth(parent, k),
{
    if parent[k] != k && shorten(k, parent[k]) {
        let up = parent[parent[k]];
        let next = parent.insert(k, up);
        lemma_skip_shortens(parent, k);
        lemma_halved_while(next, up, shorten);
        assert forall|j: K| parent.dom().contains(j) implies #[trigger] root_of(
            halved_while(parent, k, shorten),
            j,
        ) == root_of(parent, j) by {
            assert(root_of(halved_while(next, up, shorten), j) == root_of(next, j));
        }
    }
}


/// Linking one root to another leaves a forest: the nodes below the first root
/// come under the second, and every other node keeps its root.
pub proof fn lemma_link<K>(parent: Map<K, K>, below: K, above: K)
    requires
        is_forest(parent),
        parent.dom().contains(below),
        parent.dom().contains(above),
        parent[below] == below,
        parent[above] == above,
    ensures
        is_forest(parent.insert(below, above)),
        parent.insert(below, above).dom() == parent.dom(),
        forall|k: K|
            parent.dom().contains(k) ==> #[trigger] root_of(parent.insert(below, above), k) == (
            if root_of(parent, k) == below {
                above
            } else {
                root_of(parent, k)
            }),
{
    let next = parent.insert(below, above);
    assert(next.dom() =~= parent.dom());
    if below == above {
        assert(next =~= parent);
    } else {
        let old_rank = some_rank(parent);
        let rank = |k: K|
            if root_of(parent, k) == below {
                (old_rank(k) + old_rank(above) + 1) as nat
            } else {
                old_rank(k)
            };
        assert forall|k: K| next.dom().contains(k) implies next.dom().contains(
            #[trigger] next[k],
        ) by {
            if k != below {
                assert(next[k] == parent[k]);
            }
        }
        assert forall|k: K| next.dom().contains(k) && #[trigger] next[k] != k implies rank(next[k])
            < rank(k) by {
            lemma_root_of(parent, k);
            if k != below {
                assert(next[k] == parent[k]);
            }
        }
        assert(falls_along(next, rank));
        assert forall|k: K| parent.dom().contains(k) implies #[trigger] root_of(next, k) == (
        if root_of(parent, k) == below {
            above
        } else {
            root_of(parent, k)
        }) by {
            lemma_link_root(parent, below, above, k);
        }
    }
}

proof fn lemma_link_root<K>(parent: Map<K, K>, below: K, above: K, k: K)
    requires
        is_forest(parent),
        is_forest(parent.insert(below, above)),
        parent.dom().contains(below),
        parent.dom().contains(above),
        parent.dom().contains(k),
        parent[below] == below,
        parent[above] == above,
        below != above,
    ensures
        root_of(parent.insert(below, above), k) == (if root_of(parent, k) == below {
            above
        } else {
            root_of(parent, k)
        }),
    decreases some_rank(parent)(k),
{
    let next = parent.insert(below, above);
    assert(next.dom() =~= parent.dom());
    if k == below {
        assert(next[below] == above);
        assert(next[above] == above);
        assert(root_of(next, above) == above);
    } else {
        assert(next[k] == parent[k]);
        if parent[k] != k {
            lemma_link_root(parent, below, above, parent[k]);
        }
    }
}

/// Linking the root of `a` to the root of `b` leaves a forest in which two
/// nodes are in one set exactly when they were before, or when one was in the
/// set of `a` and the other in the set of `b`.
pub proof fn lemma_link_joins<K>(parent: Map<K, K>, a: K, b: K)
    requires
        is_forest(parent),
        parent.dom().contains(a),
        parent.dom().contains(b),
    ensures
        is_forest(parent.insert(root_of(parent, a), root_of(parent, b))),
        parent.insert(root_of(parent, a), root_of(parent, b)).dom() == parent.dom(),
        forall|x: K, y: K|
            parent.dom().contains(x) && parent.dom().contains(y) ==> (#[trigger] same_set(
                parent.insert(root_of(parent, a), root_of(parent, b)),
                x,
                y,
            ) <==> joined(parent, a, b, x, y)),
{
    lemma_root_of(parent, a);
    lemma_root_of(parent, b);
    lemma_link(parent, root_of(parent, a), root_of(parent, b));
}

/// A union by weight leaves a well-formed structure with the same nodes. In it
/// `start` and `end` are in one set, and two nodes are in one set exactly when
/// they were before, or when one was in the set of `start` and the other in
/// the set of `end`. This holds however the lookups shorten their walks,
/// whichever counter is raised and whatever the counters hold.
pub proof fn lemma_union_by_weight<K>(
    w: Weighted<K>,
    start: K,
    end: K,
    shorten: spec_fn(K, K) -> bool,
    count_absorbing: bool,
)
    requires
        weighted_ok(w),
        w.parent.dom().contains(start),
        w.parent.dom().contains(end),
    ensures
        weighted_ok(union_by_weight(w, start, end, shorten, count_absorbing)),
        union_by_weight(w, start, end, shorten, count_absorbing).parent.dom() == w.parent.dom(),
        same_set(union_by_weight(w, start, end, shorten, count_absorbing).parent, start, end),
        forall|x: K, y: K|
            w.parent.dom().contains(x) && w.parent.dom().contains(y) ==> (#[trigger] same_set(
                union_by_weight(w, start, end, shorten, count_absorbing).parent,
                x,
                y,
            ) <==> joined(w.parent, start, end, x, y)),
{
    let first = halved_while(w.parent, w.parent[start], shorten);
    lemma_halved_while(w.parent, w.parent[start], shorten);
    assert(first.dom().contains(first[end]));
    let second = halved_while(first, first[end], shorten);
    lemma_halved_while(first, first[end], shorten);
    lemma_root_of(w.parent, start);
    lemma_root_of(w.parent, end);
    assert(root_of(second, start) == root_of(w.parent, start));
    assert(root_of(second, end) == root_of(w.parent, end));
    let after = union_by_weight(w, start, end, shorten, count_absorbing);
    if w.weight[root_of(w.parent, start)] > w.weight[root_of(w.parent, end)] {
        lemma_link_joins(second, end, start);
    } else {
        lemma_link_joins(second, start, end);
    }
    assert(after.weight.dom() =~= w.weight.dom());
    assert forall|x: K, y: K|
        w.parent.dom().contains(x) && w.parent.dom().contains(y) implies (#[trigger] same_set(
        after.parent,
        x,
        y,
    ) <==> joined(w.parent, start, end, x, y)) by {
        assert(root_of(second, x) == root_of(w.parent, x));
        assert(root_of(second, y) == root_of(w.parent, y));
        assert(joined(second, start, end, x, y) == joined(w.parent, start, end, x, y));
        assert(joined(second, end, start, x, y) == joined(w.parent, start, end, x, y));
    }
    assert(same_set(w.parent, start, start));
    assert(joined(w.parent, start, end, start, end));
}

/// A second union by weight of the same two nodes changes no set: they are in
/// one set after it, and whatever two nodes were in one set after the first
/// union, and no others, are in one set after the second. This holds whatever
/// the counters hold.
pub proof fn lemma_union_by_weight_twice<K>(
    w: Weighted<K>,
    start: K,
    end: K,
    shorten: spec_fn(K, K) -> bool,
    count_absorbing: bool,
    x: K,
    y: K,
)
    requires
        weighted_ok(w),
        w.parent.dom().contains(start),
        w.parent.dom().contains(end),
        w.parent.dom().contains(x),
        w.parent.dom().contains(y),
    ensures
        same_set(
            union_by_weight(
                union_by_weight(w, start, end, shorten, count_absorbing),
                start,
                end,
                shorten,
                count_absorbing,
            ).parent,
            start,
            end,
        ),
        same_set(
            union_by_weight(
                union_by_weight(w, start, end, shorten, count_absorbing),
                start,
                end,
                shorten,
                count_absorbing,
            ).parent,
            x,
            y,
        ) == same_set(union_by_weight(w, start, end, shorten, count_absorbing).parent, x, y),
{
    let once = union_by_weight(w, start, end, shorten, count_absorbing);
    lemma_union_by_weight(w, start, end, shorten, count_absorbing);
    lemma_union_by_weight(once, start, end, shorten, count_absorbing);
}

/// A node is in its own set.
pub proof fn lemma_same_set_reflexive<K>(parent: Map<K, K>, a: K)
    ensures
        same_set(parent, a, a),
{
}

/// Being in one set does not depend on the order of the two nodes.
pub proof fn lemma_same_set_symmetric<K>(parent: Map<K, K>, a: K, b: K)
    ensures
        same_set(parent, a, b) == same_set(parent, b, a),
{
}

/// Two nodes that are each in one set with a third are in one set.
pub proof fn lemma_same_set_transitive<K>(parent: Map<K, K>, a: K, b: K, c: K)
    requires
        same_set(parent, a, b),
        same_set(parent, b, c),
    ensures
        same_set(parent, a, c),
{
}


} // verus!
