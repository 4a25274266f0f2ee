//! What a cluster of flagged pixels is, and what its marker says.
//!
//! Pixels are quantised to grid cells. Two pixels touch when their cells are
//! equal or neighbours, diagonals included. A cluster is a class of the
//! closure of that relation: two pixels belong together when a chain of
//! touching pixels leads from one to the other.

use crate::pixel::DiffPixel;
use vstd::prelude::*;

verus! {

/// A marker for one cluster: centre, radius and the number of pixels of the
/// cluster (the largest `u32` where there are more). Centre and radius are
/// counted in half pixels, so that the midpoint of a bounding box is exact:
/// `x2` is twice the x coordinate of the centre, `radius2` twice the radius.
#[derive(Clone, Copy, Debug, PartialEq, Eq, Structural)]
pub struct DiffMarker {
    pub x2: u64,
    pub y2: u64,
    pub radius2: u64,
    pub count: u32,
}

/// The grid cell of a pixel, as column and row of the grid.
pub open spec fn cell_of(p: DiffPixel, grid: int) -> (int, int) {
    (p.x as int / grid, p.y as int / grid)
}

/// Two cells are equal or neighbours: their columns and their rows differ by
/// at most one.
pub open spec fn cells_touch(c: (int, int), d: (int, int)) -> bool {
    &&& c.0 - d.0 <= 1
    &&& d.0 - c.0 <= 1
    &&& c.1 - d.1 <= 1
    &&& d.1 - c.1 <= 1
}

/// Pixels `i` and `j` of the list lie in touching cells.
pub open spec fn pixels_touch(pixels: Seq<DiffPixel>, grid: int, i: int, j: int) -> bool {
    cells_touch(cell_of(pixels[i], grid), cell_of(pixels[j], grid))
}

/// A chain of pixels of the list in which each touches the next.
pub open spec fn is_chain(pixels: Seq<DiffPixel>, grid: int, chain: Seq<int>) -> bool {
    &&& chain.len() >= 1
    &&& forall|k: int| 0 <= k < chain.len() ==> 0 <= #[trigger] chain[k] < pixels.len()
    &&& forall|k: int|
        0 <= k < chain.len() - 1 ==> pixels_touch(pixels, grid, #[trigger] chain[k], chain[k + 1])
}

/// Pixels `i` and `j` of the list belong to the same cluster.
#[verifier::opaque]
pub open spec fn same_cluster(pixels: Seq<DiffPixel>, grid: int, i: int, j: int) -> bool {
    exists|chain: Seq<int>|
        is_chain(pixels, grid, chain) && chain[0] == i && chain[chain.len() - 1] == j
}

/// The pixels of the cluster of pixel `r`, as a predicate on positions.
pub open spec fn cluster_of(pixels: Seq<DiffPixel>, grid: int, r: int) -> spec_fn(int) -> bool {
    |j: int| same_cluster(pixels, grid, r, j)
}

/// The x coordinate (axis 0) or the y coordinate (any other axis) of a pixel.
pub open spec fn coord(p: DiffPixel, axis: int) -> int {
    if axis == 0 {
        p.x as int
    } else {
        p.y as int
    }
}

/// Number of positions below `n` that the predicate holds of.
pub open spec fn count_where(n: int, pred: spec_fn(int) -> bool) -> int
    decreases n,
{
    if n <= 0 {
        0
    } else {
        count_where(n - 1, pred) + if pred(n - 1) {
            1int
        } else {
            0int
        }
    }
}

/// Least coordinate among the first `n` pixels that the predicate holds of;
/// the largest `u32` where it holds of none.
pub open spec fn least(pixels: Seq<DiffPixel>, n: int, pred: spec_fn(int) -> bool, axis: int) -> int
    decreases n,
{
    if n <= 0 {
        u32::MAX as int
    } else {
        let rest = least(pixels, n - 1, pred, axis);
        if pred(n - 1) && coord(pixels[n - 1], axis) < rest {
            coord(pixels[n - 1], axis)
        } else {
            rest
        }
    }
}

/// Greatest coordinate among the first `n` pixels that the predicate holds
/// of; 0 where it holds of none.
pub open spec fn greatest(pixels: Seq<DiffPixel>, n: int, pred: spec_fn(int) -> bool, axis: int) -> int
    decreases n,
{
    if n <= 0 {
        0
    } else {
        let rest = greatest(pixels, n - 1, pred, axis);
        if pred(n - 1) && coord(pixels[n - 1], axis) > rest {
            coord(pixels[n - 1], axis)
        } else {
            rest
        }
    }
}

/// Twice the padding added around a bounding box: 100 pixels where the
/// least radius is above 200 pixels, else 60. The least radius is given in
/// half pixels.
pub open spec fn padding2(min_radius2: u32) -> int {
    if min_radius2 > 400 {
        200
    } else {
        120
    }
}

/// The marker of a bounding box with a pixel count. The centre is the
/// midpoint of the box. The radius is half the longer side plus the padding,
/// and at least the least radius; `min_radius2` is twice the least radius.
pub open spec fn marker_of_box(
    min_x: int,
    max_x: int,
    min_y: int,
    max_y: int,
    count: int,
    min_radius2: u32,
) -> DiffMarker {
    let side = if max_x - min_x >= max_y - min_y {
        max_x - min_x
    } else {
        max_y - min_y
    };
    let padded = side + padding2(min_radius2);
    DiffMarker {
        x2: (min_x + max_x) as u64,
        y2: (min_y + max_y) as u64,
        radius2: (if min_radius2 >= padded {
            min_radius2 as int
        } else {
            padded
        }) as u64,
        count: saturated(count),
    }
}

/// A count as a `u32`: the count itself where it fits, else the largest
/// `u32`.
pub open spec fn saturated(count: int) -> u32 {
    if count > u32::MAX {
        u32::MAX
    } else {
        count as u32
    }
}

/// The marker of the pixels that a predicate holds of.
pub open spec fn marker_where(
    pixels: Seq<DiffPixel>,
    pred: spec_fn(int) -> bool,
    min_radius2: u32,
) -> DiffMarker {
    marker_of_box(
        least(pixels, pixels.len() as int, pred, 0),
        greatest(pixels, pixels.len() as int, pred, 0),
        least(pixels, pixels.len() as int, pred, 1),
        greatest(pixels, pixels.len() as int, pred, 1),
        count_where(pixels.len() as int, pred),
        min_radius2,
    )
}

/// Number of pixels in the cluster of pixel `r`.
pub open spec fn cluster_size(pixels: Seq<DiffPixel>, grid: int, r: int) -> int {
    count_where(pixels.len() as int, cluster_of(pixels, grid, r))
}

/// The marker of the cluster of pixel `r`.
pub open spec fn cluster_marker(pixels: Seq<DiffPixel>, grid: int, min_radius2: u32, r: int) -> DiffMarker {
    marker_where(pixels, cluster_of(pixels, grid, r), min_radius2)
}

/// The list is ordered by count, largest first.
pub open spec fn by_count_descending(markers: Seq<DiffMarker>) -> bool {
    forall|s: int, t: int| 0 <= s < t < markers.len() ==> markers[s].count >= markers[t].count
}

/// The markers are those of the clusters of the pixels `reps`, one cluster
/// each: every marker is the marker of the cluster of its pixel, no two of
/// the pixels belong to one cluster, each of the clusters has at least
/// `min_cluster` pixels, and every cluster of that size is among them.
pub open spec fn marks_clusters(
    pixels: Seq<DiffPixel>,
    grid: int,
    min_cluster: u32,
    min_radius2: u32,
    markers: Seq<DiffMarker>,
    reps: Seq<int>,
) -> bool {
    &&& reps.len() == markers.len()
    &&& forall|t: int|
        0 <= t < reps.len() ==> {
            &&& 0 <= #[trigger] reps[t] < pixels.len()
            &&& markers[t] == cluster_marker(pixels, grid, min_radius2, reps[t])
            &&& cluster_size(pixels, grid, reps[t]) >= min_cluster
        }
    &&& forall|t: int, u: int|
        0 <= t < reps.len() && 0 <= u < reps.len() && t != u ==> !same_cluster(
            pixels,
            grid,
            #[trigger] reps[t],
            #[trigger] reps[u],
        )
    &&& forall|j: int|
        0 <= j < pixels.len() && cluster_size(pixels, grid, j) >= min_cluster
            ==> #[trigger] is_marked(pixels, grid, reps, j)
}

/// Pixel `j` belongs to the cluster of one of the pixels `reps`.
pub open spec fn is_marked(pixels: Seq<DiffPixel>, grid: int, reps: Seq<int>, j: int) -> bool {
    exists|t: int| 0 <= t < reps.len() && same_cluster(pixels, grid, j, #[trigger] reps[t])
}

/// Touching pixels belong to the same cluster; so does a pixel with itself.
pub proof fn lemma_touching_same_cluster(pixels: Seq<DiffPixel>, grid: int, i: int, j: int)
    requires
        0 <= i < pixels.len(),
        0 <= j < pixels.len(),
        pixels_touch(pixels, grid, i, j),
    ensures
        same_cluster(pixels, grid, i, j),
        same_cluster(pixels, grid, i, i),
{
    reveal(same_cluster);
    let chain = seq![i, j];
    assert(is_chain(pixels, grid, chain));
    assert(chain[0] == i && chain[chain.len() - 1] == j);
    let single = seq![i];
    assert(is_chain(pixels, grid, single));
    assert(single[0] == i && single[single.len() - 1] == i);
}

/// Belonging to the same cluster is symmetric.
pub proof fn lemma_cluster_symmetric(pixels: Seq<DiffPixel>, grid: int, i: int, j: int)
    requires
        same_cluster(pixels, grid, i, j),
    ensures
        same_cluster(pixels, grid, j, i),
{
    reveal(same_cluster);
    let chain = choose|chain: Seq<int>|
        is_chain(pixels, grid, chain) && chain[0] == i && chain[chain.len() - 1] == j;
    let back = Seq::new(chain.len(), |k: int| chain[chain.len() - 1 - k]);
    assert(is_chain(pixels, grid, back)) by {
        assert forall|k: int| 0 <= k < back.len() - 1 implies pixels_touch(
            pixels,
            grid,
            #[trigger] back[k],
            back[k + 1],
        ) by {
            let m = chain.len() - 2 - k;
            assert(pixels_touch(pixels, grid, chain[m], chain[m + 1]));
        }
    }
    assert(back[0] == j && back[back.len() - 1] == i);
}

/// Belonging to the same cluster is transitive.
pub proof fn lemma_cluster_transitive(pixels: Seq<DiffPixel>, grid: int, i: int, j: int, k: int)
    requires
        same_cluster(pixels, grid, i, j),
        same_cluster(pixels, grid, j, k),
    ensures
        same_cluster(pixels, grid, i, k),
{
    reveal(same_cluster);
    let first = choose|chain: Seq<int>|
        is_chain(pixels, grid, chain) && chain[0] == i && chain[chain.len() - 1] == j;
    let second = choose|chain: Seq<int>|
        is_chain(pixels, grid, chain) && chain[0] == j && chain[chain.len() - 1] == k;
    let both = first + second;
    assert(is_chain(pixels, grid, both)) by {
        assert forall|m: int| 0 <= m < both.len() - 1 implies pixels_touch(
            pixels,
            grid,
            #[trigger] both[m],
            both[m + 1],
        ) by {
            if m < first.len() - 1 {
                assert(pixels_touch(pixels, grid, first[m], first[m + 1]));
            } else if m == first.len() - 1 {
                assert(both[m] == j && both[m + 1] == j);
                assert(0 <= first[first.len() - 1] < pixels.len());
            } else {
                let n = m - first.len();
                assert(pixels_touch(pixels, grid, second[n], second[n + 1]));
            }
        }
    }
    assert(both[0] == i && both[both.len() - 1] == k);
}

/// Where touching pixels always carry the same label, so do the pixels of
/// one cluster.
pub proof fn lemma_cluster_shares_label(
    pixels: Seq<DiffPixel>,
    grid: int,
    label: spec_fn(int) -> int,
    i: int,
    j: int,
)
    requires
        forall|a: int, b: int|
            0 <= a < pixels.len() && 0 <= b < pixels.len() && #[trigger] pixels_touch(
                pixels,
                grid,
                a,
                b,
            ) ==> label(a) == label(b),
        same_cluster(pixels, grid, i, j),
    ensures
        label(i) == label(j),
{
    reveal(same_cluster);
    let chain = choose|chain: Seq<int>|
        is_chain(pixels, grid, chain) && chain[0] == i && chain[chain.len() - 1] == j;
    lemma_chain_shares_label(pixels, grid, label, chain, chain.len() - 1);
}

proof fn lemma_chain_shares_label(
    pixels: Seq<DiffPixel>,
    grid: int,
    label: spec_fn(int) -> int,
    chain: Seq<int>,
    k: int,
)
    requires
        forall|a: int, b: int|
            0 <= a < pixels.len() && 0 <= b < pixels.len() && #[trigger] pixels_touch(
                pixels,
                grid,
                a,
                b,
            ) ==> label(a) == label(b),
        is_chain(pixels, grid, chain),
        0 <= k < chain.len(),
    ensures
        label(chain[0]) == label(chain[k]),
    decreases k,
{
    if k > 0 {
        lemma_chain_shares_label(pixels, grid, label, chain, k - 1);
        assert(pixels_touch(pixels, grid, chain[k - 1], chain[k - 1 + 1]));
        assert(0 <= chain[k - 1] < pixels.len());
        assert(0 <= chain[k] < pixels.len());
    }
}

/// A group of pixels that no pixel outside it touches keeps its clusters to
/// itself: no pixel of the group belongs to the cluster of a pixel outside.
pub proof fn lemma_apart_stay_apart(
    pixels: Seq<DiffPixel>,
    grid: int,
    group: spec_fn(int) -> bool,
    i: int,
    j: int,
)
    requires
        forall|a: int, b: int|
            0 <= a < pixels.len() && 0 <= b < pixels.len() && group(a) && !group(b)
                ==> !#[trigger] pixels_touch(pixels, grid, a, b),
        forall|a: int, b: int|
            0 <= a < pixels.len() && 0 <= b < pixels.len() && !group(a) && group(b)
                ==> !#[trigger] pixels_touch(pixels, grid, a, b),
        group(i),
        !group(j),
    ensures
        !same_cluster(pixels, grid, i, j),
{
    if same_cluster(pixels, grid, i, j) {
        let label = |a: int|
            if group(a) {
                1int
            } else {
                0int
            };
        lemma_cluster_shares_label(pixels, grid, label, i, j);
    }
}

/// The cluster of a pixel whose cell touches no other cell with a pixel in
/// it is the set of pixels in that cell.
pub proof fn lemma_lonely_cell(pixels: Seq<DiffPixel>, grid: int, r: int, j: int)
    requires
        0 <= r < pixels.len(),
        0 <= j < pixels.len(),
        forall|b: int|
            0 <= b < pixels.len() && #[trigger] pixels_touch(pixels, grid, r, b) ==> cell_of(
                pixels[b],
                grid,
            ) == cell_of(pixels[r], grid),
    ensures
        same_cluster(pixels, grid, r, j) <==> cell_of(pixels[j], grid) == cell_of(pixels[r], grid),
{
    if cell_of(pixels[j], grid) == cell_of(pixels[r], grid) {
        lemma_touching_same_cluster(pixels, grid, r, j);
    } else {
        let home = cell_of(pixels[r], grid);
        let group = |a: int| cell_of(pixels[a], grid) == home;
        assert forall|a: int, b: int|
            0 <= a < pixels.len() && 0 <= b < pixels.len() && group(a) && !group(
                b,
            ) implies !#[trigger] pixels_touch(pixels, grid, a, b) by {
            if pixels_touch(pixels, grid, a, b) {
                assert(pixels_touch(pixels, grid, r, b));
            }
        }
        assert forall|a: int, b: int|
            0 <= a < pixels.len() && 0 <= b < pixels.len() && !group(a) && group(
                b,
            ) implies !#[trigger] pixels_touch(pixels, grid, a, b) by {
            if pixels_touch(pixels, grid, a, b) {
                assert(pixels_touch(pixels, grid, r, a));
            }
        }
        lemma_apart_stay_apart(pixels, grid, group, r, j);
    }
}

/// Predicates that agree on the first `n` positions count the same pixels
/// and have the same extremes.
pub proof fn lemma_same_where(
    pixels: Seq<DiffPixel>,
    n: int,
    p: spec_fn(int) -> bool,
    q: spec_fn(int) -> bool,
)
    requires
        forall|j: int| 0 <= j < n ==> #[trigger] p(j) == q(j),
    ensures
        count_where(n, p) == count_where(n, q),
        forall|axis: int| least(pixels, n, p, axis) == least(pixels, n, q, axis),
        forall|axis: int| greatest(pixels, n, p, axis) == greatest(pixels, n, q, axis),
    decreases n,
{
    if n > 0 {
        lemma_same_where(pixels, n - 1, p, q);
        assert(p(n - 1) == q(n - 1));
        assert forall|axis: int| least(pixels, n, p, axis) == least(pixels, n, q, axis) by {
            assert(least(pixels, n - 1, p, axis) == least(pixels, n - 1, q, axis));
        }
        assert forall|axis: int| greatest(pixels, n, p, axis) == greatest(pixels, n, q, axis) by {
            assert(greatest(pixels, n - 1, p, axis) == greatest(pixels, n - 1, q, axis));
        }
    }
}

/// A predicate that holds of none of the first `n` positions counts nothing,
/// and its extremes are the empty ones.
pub proof fn lemma_none_where(pixels: Seq<DiffPixel>, n: int, p: spec_fn(int) -> bool)
    requires
        forall|j: int| 0 <= j < n ==> !#[trigger] p(j),
    ensures
        count_where(n, p) == 0,
        forall|axis: int| least(pixels, n, p, axis) == u32::MAX,
        forall|axis: int| greatest(pixels, n, p, axis) == 0,
    decreases n,
{
    if n > 0 {
        lemma_none_where(pixels, n - 1, p);
        assert(!p(n - 1));
        assert forall|axis: int| least(pixels, n, p, axis) == u32::MAX by {
            assert(least(pixels, n - 1, p, axis) == u32::MAX);
        }
        assert forall|axis: int| greatest(pixels, n, p, axis) == 0 by {
            assert(greatest(pixels, n - 1, p, axis) == 0);
        }
    }
}

/// Counts and extremes stay within their types.
pub proof fn lemma_where_bounds(pixels: Seq<DiffPixel>, n: int, p: spec_fn(int) -> bool, axis: int)
    requires
        0 <= n <= pixels.len(),
    ensures
        0 <= count_where(n, p) <= n,
        0 <= least(pixels, n, p, axis) <= u32::MAX,
        0 <= greatest(pixels, n, p, axis) <= u32::MAX,
    decreases n,
{
    if n > 0 {
        lemma_where_bounds(pixels, n - 1, p, axis);
    }
}

/// A pixel that the predicate holds of is counted and lies between the
/// extremes.
pub proof fn lemma_member_where(
    pixels: Seq<DiffPixel>,
    n: int,
    p: spec_fn(int) -> bool,
    axis: int,
    j: int,
)
    requires
        0 <= j < n <= pixels.len(),
        p(j),
    ensures
        count_where(n, p) >= 1,
        least(pixels, n, p, axis) <= coord(pixels[j], axis) <= greatest(pixels, n, p, axis),
    decreases n,
{
    lemma_where_bounds(pixels, n - 1, p, axis);
    if j < n - 1 {
        lemma_member_where(pixels, n - 1, p, axis, j);
    }
}

/// Of two predicates that never hold together, the union counts the sum;
/// its least is the lesser least and its greatest the greater greatest.
pub proof fn lemma_union_where(
    pixels: Seq<DiffPixel>,
    n: int,
    p: spec_fn(int) -> bool,
    q: spec_fn(int) -> bool,
    u: spec_fn(int) -> bool,
)
    requires
        forall|j: int| 0 <= j < n ==> #[trigger] u(j) == (p(j) || q(j)),
        forall|j: int| 0 <= j < n ==> !(#[trigger] p(j) && q(j)),
    ensures
        count_where(n, u) == count_where(n, p) + count_where(n, q),
        forall|axis: int|
            least(pixels, n, u, axis) == if least(pixels, n, p, axis) <= least(pixels, n, q, axis) {
                least(pixels, n, p, axis)
            } else {
                least(pixels, n, q, axis)
            },
        forall|axis: int|
            greatest(pixels, n, u, axis) == if greatest(pixels, n, p, axis) >= greatest(
                pixels,
                n,
                q,
                axis,
            ) {
                greatest(pixels, n, p, axis)
            } else {
                greatest(pixels, n, q, axis)
            },
    decreases n,
{
    if n > 0 {
        lemma_union_where(pixels, n - 1, p, q, u);
        assert(u(n - 1) == (p(n - 1) || q(n - 1)));
        assert(!(p(n - 1) && q(n - 1)));
        assert forall|axis: int|
            least(pixels, n, u, axis) == if least(pixels, n, p, axis) <= least(pixels, n, q, axis) {
                least(pixels, n, p, axis)
            } else {
                least(pixels, n, q, axis)
            } by {
            let a = least(pixels, n - 1, p, axis);
            let b = least(pixels, n - 1, q, axis);
            assert(least(pixels, n - 1, u, axis) == if a <= b {
                a
            } else {
                b
            });
        }
        assert forall|axis: int|
            greatest(pixels, n, u, axis) == if greatest(pixels, n, p, axis) >= greatest(
                pixels,
                n,
                q,
                axis,
            ) {
                greatest(pixels, n, p, axis)
            } else {
                greatest(pixels, n, q, axis)
            } by {
            let a = greatest(pixels, n - 1, p, axis);
            let b = greatest(pixels, n - 1, q, axis);
            assert(greatest(pixels, n - 1, u, axis) == if a >= b {
                a
            } else {
                b
            });
        }
    }
}

/// Pixels of one cluster have the same cluster, the same cluster size and
/// the same marker.
pub proof fn lemma_cluster_marker_shared(
    pixels: Seq<DiffPixel>,
    grid: int,
    min_radius2: u32,
    i: int,
    j: int,
)
    requires
        same_cluster(pixels, grid, i, j),
    ensures
        cluster_size(pixels, grid, i) == cluster_size(pixels, grid, j),
        cluster_marker(pixels, grid, min_radius2, i) == cluster_marker(pixels, grid, min_radius2, j),
{
    let p = cluster_of(pixels, grid, i);
    let q = cluster_of(pixels, grid, j);
    assert forall|k: int| 0 <= k < pixels.len() implies #[trigger] p(k) == q(k) by {
        lemma_cluster_symmetric(pixels, grid, i, j);
        if same_cluster(pixels, grid, i, k) {
            lemma_cluster_transitive(pixels, grid, j, i, k);
        }
        if same_cluster(pixels, grid, j, k) {
            lemma_cluster_transitive(pixels, grid, i, j, k);
        }
    }
    lemma_same_where(pixels, pixels.len() as int, p, q);
}

/// A cluster with fewer pixels than `min_cluster` has no marker: none of
/// the marked pixels belongs to it.
pub proof fn lemma_small_cluster_unmarked(
    pixels: Seq<DiffPixel>,
    grid: int,
    min_cluster: u32,
    min_radius2: u32,
    markers: Seq<DiffMarker>,
    reps: Seq<int>,
    j: int,
    t: int,
)
    requires
        marks_clusters(pixels, grid, min_cluster, min_radius2, markers, reps),
        cluster_size(pixels, grid, j) < min_cluster,
        0 <= t < reps.len(),
    ensures
        !same_cluster(pixels, grid, j, reps[t]),
{
    if same_cluster(pixels, grid, j, reps[t]) {
        lemma_cluster_marker_shared(pixels, grid, min_radius2, j, reps[t]);
    }
}

/// Two pixels of different clusters that are large enough have different
/// markers: no marker stands for both.
pub proof fn lemma_separate_markers(
    pixels: Seq<DiffPixel>,
    grid: int,
    min_cluster: u32,
    min_radius2: u32,
    markers: Seq<DiffMarker>,
    reps: Seq<int>,
    i: int,
    j: int,
)
    requires
        marks_clusters(pixels, grid, min_cluster, min_radius2, markers, reps),
        0 <= i < pixels.len(),
        0 <= j < pixels.len(),
        !same_cluster(pixels, grid, i, j),
        cluster_size(pixels, grid, i) >= min_cluster,
        cluster_size(pixels, grid, j) >= min_cluster,
    ensures
        exists|t: int, u: int|
            0 <= t < reps.len() && 0 <= u < reps.len() && t != u && same_cluster(
                pixels,
                grid,
                i,
                #[trigger] reps[t],
            ) && same_cluster(pixels, grid, j, #[trigger] reps[u]),
{
    assert(is_marked(pixels, grid, reps, i));
    assert(is_marked(pixels, grid, reps, j));
    let t = choose|t: int| 0 <= t < reps.len() && same_cluster(pixels, grid, i, #[trigger] reps[t]);
    let u = choose|u: int| 0 <= u < reps.len() && same_cluster(pixels, grid, j, #[trigger] reps[u]);
    if t == u {
        lemma_cluster_symmetric(pixels, grid, j, reps[u]);
        lemma_cluster_transitive(pixels, grid, i, reps[t], j);
    }
}

} // verus!
