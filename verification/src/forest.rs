//! A union-find forest over the indices below a length, with path halving.
//!
//! Every node points to a parent, roots point to themselves. A ghost
//! sequence of distances, strictly smaller at the parent than at the child,
//! shows that following parents ends, and gives the root of a node a
//! definition.

use vstd::prelude::*;

verus! {

/// Parents stay within the forest, and every step to a parent strictly
/// lowers the distance.
pub open spec fn is_forest(parent: Seq<usize>, dist: Seq<nat>) -> bool {
    &&& dist.len() == parent.len()
    &&& forall|c: int| 0 <= c < parent.len() ==> (#[trigger] parent[c]) < parent.len()
    &&& forall|c: int|
        0 <= c < parent.len() && #[trigger] parent[c] != c ==> dist[parent[c] as int] < dist[c]
}

/// The root that node `c` leads to.
pub open spec fn root(parent: Seq<usize>, dist: Seq<nat>, c: int) -> int
    decreases dist[c],
{
    if 0 <= c < parent.len() && parent[c] != c && parent[c] < parent.len() && dist[parent[c] as int]
        < dist[c] {
        root(parent, dist, parent[c] as int)
    } else {
        c
    }
}

/// The distances after the root `a` was put under the root `b`: the tree of
/// `a` moves away by the distance of `b` and one more.
pub open spec fn linked_dist(parent: Seq<usize>, dist: Seq<nat>, a: int, b: int) -> Seq<nat> {
    Seq::new(
        parent.len(),
        |x: int|
            if root(parent, dist, x) == a {
                dist[x] + dist[b] + 1
            } else {
                dist[x]
            },
    )
}

/// The root of a node is a node that is its own parent, and the parent of a
/// node has the same root.
pub proof fn lemma_root(parent: Seq<usize>, dist: Seq<nat>, c: int)
    requires
        is_forest(parent, dist),
        0 <= c < parent.len(),
    ensures
        0 <= root(parent, dist, c) < parent.len(),
        parent[root(parent, dist, c)] == root(parent, dist, c),
        root(parent, dist, parent[c] as int) == root(parent, dist, c),
    decreases dist[c],
{
    if parent[c] != c {
        lemma_root(parent, dist, parent[c] as int);
    }
}

/// Pointing a node to its grandparent keeps the forest and every root.
pub proof fn lemma_halve(parent: Seq<usize>, dist: Seq<nat>, i: int)
    requires
        is_forest(parent, dist),
        0 <= i < parent.len(),
    ensures
        is_forest(parent.update(i, parent[parent[i] as int]), dist),
        forall|x: int|
            0 <= x < parent.len() ==> #[trigger] root(
                parent.update(i, parent[parent[i] as int]),
                dist,
                x,
            ) == root(parent, dist, x),
{
    let p = parent[i] as int;
    let g = parent[p];
    let halved = parent.update(i, g);
    assert(is_forest(halved, dist)) by {
        assert forall|c: int| 0 <= c < halved.len() && #[trigger] halved[c] != c implies dist[halved[c] as int]
            < dist[c] by {
            if c == i && p != i && g != p {
                assert(dist[g as int] < dist[p]);
                assert(dist[p] < dist[i]);
            }
        }
    }
    assert forall|x: int| 0 <= x < parent.len() implies #[trigger] root(halved, dist, x) == root(
        parent,
        dist,
        x,
    ) by {
        lemma_halve_root(parent, dist, i, x);
    }
}

proof fn lemma_halve_root(parent: Seq<usize>, dist: Seq<nat>, i: int, x: int)
    requires
        is_forest(parent, dist),
        is_forest(parent.update(i, parent[parent[i] as int]), dist),
        0 <= i < parent.len(),
        0 <= x < parent.len(),
    ensures
        root(parent.update(i, parent[parent[i] as int]), dist, x) == root(parent, dist, x),
    decreases dist[x],
{
    let p = parent[i] as int;
    let g = parent[p];
    let halved = parent.update(i, g);
    if x == i {
        if p != i && g != p {
            assert(dist[g as int] < dist[p]);
            assert(dist[p] < dist[i]);
            lemma_halve_root(parent, dist, i, g as int);
            assert(root(parent, dist, p) == root(parent, dist, g as int));
            assert(root(parent, dist, i) == root(parent, dist, p));
            assert(root(halved, dist, i) == root(halved, dist, g as int));
        } else {
            assert(halved =~= parent);
        }
    } else {
        if parent[x] != x {
            lemma_halve_root(parent, dist, i, parent[x] as int);
            assert(halved[x] == parent[x]);
        }
    }
}

/// Putting the root `a` under another root `b` keeps the forest; the nodes
/// of `a` now lead to `b`, and every other node leads where it led before.
pub proof fn lemma_link(parent: Seq<usize>, dist: Seq<nat>, a: int, b: int)
    requires
        is_forest(parent, dist),
        0 <= a < parent.len(),
        0 <= b < parent.len(),
        parent[a] == a,
        parent[b] == b,
        a != b,
    ensures
        is_forest(parent.update(a, b as usize), linked_dist(parent, dist, a, b)),
        forall|x: int|
            0 <= x < parent.len() ==> #[trigger] root(
                parent.update(a, b as usize),
                linked_dist(parent, dist, a, b),
                x,
            ) == if root(parent, dist, x) == a {
                b
            } else {
                root(parent, dist, x)
            },
{
    let joined = parent.update(a, b as usize);
    let moved = linked_dist(parent, dist, a, b);
    lemma_link_forest(parent, dist, a, b);
    assert forall|x: int| 0 <= x < parent.len() implies #[trigger] root(joined, moved, x) == if root(
        parent,
        dist,
        x,
    ) == a {
        b
    } else {
        root(parent, dist, x)
    } by {
        lemma_link_root(parent, dist, a, b, x);
    }
}

proof fn lemma_link_forest(parent: Seq<usize>, dist: Seq<nat>, a: int, b: int)
    requires
        is_forest(parent, dist),
        0 <= a < parent.len(),
        0 <= b < parent.len(),
        parent[a] == a,
        parent[b] == b,
        a != b,
    ensures
        is_forest(parent.update(a, b as usize), linked_dist(parent, dist, a, b)),
{
    let joined = parent.update(a, b as usize);
    let moved = linked_dist(parent, dist, a, b);
    assert(root(parent, dist, b) == b);
    assert(root(parent, dist, a) == a);
    assert forall|c: int| 0 <= c < joined.len() && #[trigger] joined[c] != c implies moved[joined[c] as int]
        < moved[c] by {
        if c != a {
            lemma_root(parent, dist, c);
        }
    }
}

proof fn lemma_link_root(parent: Seq<usize>, dist: Seq<nat>, a: int, b: int, x: int)
    requires
        is_forest(parent, dist),
        is_forest(parent.update(a, b as usize), linked_dist(parent, dist, a, b)),
        0 <= a < parent.len(),
        0 <= b < parent.len(),
        parent[a] == a,
        parent[b] == b,
        a != b,
        0 <= x < parent.len(),
    ensures
        root(parent.update(a, b as usize), linked_dist(parent, dist, a, b), x) == if root(
            parent,
            dist,
            x,
        ) == a {
            b
        } else {
            root(parent, dist, x)
        },
    decreases dist[x],
{
    let joined = parent.update(a, b as usize);
    let moved = linked_dist(parent, dist, a, b);
    if x == a {
        assert(joined[b] == b);
        assert(root(joined, moved, b) == b);
        assert(root(joined, moved, a) == root(joined, moved, b));
        assert(root(parent, dist, a) == a);
    } else if parent[x] != x {
        lemma_link_root(parent, dist, a, b, parent[x] as int);
        lemma_root(parent, dist, x);
        assert(joined[x] == parent[x]);
        assert(root(joined, moved, x) == root(joined, moved, parent[x] as int));
    } else {
        assert(joined[x] == x);
    }
}

/// A forest in which every node is its own root.
pub fn singletons(n: usize) -> (parent: Vec<usize>)
    ensures
        parent@.len() == n,
        forall|c: int| 0 <= c < n ==> #[trigger] parent@[c] == c,
        is_forest(parent@, Seq::new(n as nat, |c: int| 0nat)),
{
    let mut parent: Vec<usize> = Vec::new();
    let mut c: usize = 0;
    while c < n
        invariant
            c <= n,
            parent@.len() == c,
            forall|k: int| 0 <= k < c ==> #[trigger] parent@[k] == k,
        decreases n - c,
    {
        parent.push(c);
        c = c + 1;
    }
    parent
}

/// Finds the root of node `i`, pointing every node on the way to its
/// grandparent. No root changes.
pub(crate) fn find(parent: &mut Vec<usize>, i: usize, Ghost(dist): Ghost<Seq<nat>>) -> (r: usize)
    requires
        is_forest(old(parent)@, dist),
        i < old(parent)@.len(),
    ensures
        is_forest(final(parent)@, dist),
        final(parent)@.len() == old(parent)@.len(),
        r == root(old(parent)@, dist, i as int),
        r < old(parent)@.len(),
        final(parent)@[r as int] == r,
        forall|x: int|
            0 <= x < old(parent)@.len() ==> #[trigger] root(final(parent)@, dist, x) == root(
                old(parent)@,
                dist,
                x,
            ),
{
    let ghost start = parent@;
    let mut at: usize = i;
    while parent[at] != at
        invariant
            is_forest(parent@, dist),
            parent@.len() == start.len(),
            at < parent@.len(),
            root(parent@, dist, at as int) == root(start, dist, i as int),
            forall|x: int|
                0 <= x < start.len() ==> #[trigger] root(parent@, dist, x) == root(start, dist, x),
        decreases dist[at as int],
    {
        let p: usize = parent[at];
        let g: usize = parent[p];
        proof {
            lemma_halve(parent@, dist, at as int);
            lemma_root(parent@, dist, at as int);
            lemma_root(parent@, dist, p as int);
        }
        parent[at] = g;
        at = g;
    }
    at
}

} // verus!
