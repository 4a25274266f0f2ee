//! Clustering flagged pixels into markers.
//!
//! The pixels are sorted into grid cells, touching cells are merged in a
//! union-find forest, every tree of the forest is summed up to one group,
//! and each group with enough pixels becomes a marker.

use crate::forest::find;
use crate::forest::is_forest;
use crate::forest::lemma_link;
use crate::forest::lemma_root;
use crate::forest::linked_dist;
use crate::forest::root;
use crate::forest::singletons;
use crate::grid::build_grid;
use crate::grid::cell_key;
use crate::grid::cell_sums;
use crate::grid::in_cell;
use crate::grid::is_grid;
use crate::grid::GridCell;
use crate::pixel::DiffPixel;
use crate::region::by_count_descending;
use crate::region::cell_of;
use crate::region::cells_touch;
use crate::region::cluster_marker;
use crate::region::cluster_of;
use crate::region::cluster_size;
use crate::region::count_where;
use crate::region::greatest;
use crate::region::is_marked;
use crate::region::least;
use crate::region::lemma_cluster_marker_shared;
use crate::region::lemma_cluster_shares_label;
use crate::region::lemma_cluster_symmetric;
use crate::region::lemma_cluster_transitive;
use crate::region::lemma_member_where;
use crate::region::lemma_none_where;
use crate::region::lemma_same_where;
use crate::region::lemma_touching_same_cluster;
use crate::region::lemma_union_where;
use crate::region::lemma_where_bounds;
use crate::region::marker_of_box;
use crate::region::marks_clusters;
use crate::region::pixels_touch;
use crate::region::same_cluster;
use crate::region::DiffMarker;
use vstd::prelude::*;

verus! {

/// The pixels of one cluster summed up: their bounding box and their number.
#[derive(Clone, Copy, Debug)]
pub struct ClusterGroup {
    pub min_x: u32,
    pub max_x: u32,
    pub min_y: u32,
    pub max_y: u32,
    pub count: u64,
}

/// The forest joins the cells of the grid into clusters: the pixels of a
/// cell belong to the cluster of the pixels of its root, and touching cells
/// have the same root.
pub open spec fn is_joined(
    pixels: Seq<DiffPixel>,
    grid: int,
    cells: Seq<GridCell>,
    first: Seq<int>,
    parent: Seq<usize>,
    dist: Seq<nat>,
) -> bool {
    &&& parent.len() == cells.len()
    &&& is_forest(parent, dist)
    &&& forall|c: int|
        0 <= c < cells.len() ==> same_cluster(
            pixels,
            grid,
            first[c],
            first[#[trigger] root(parent, dist, c)],
        )
    &&& forall|c: int, d: int|
        0 <= c < cells.len() && 0 <= d < cells.len() && cells_touch(
            cell_key(cells[c]),
            cell_key(cells[d]),
        ) ==> #[trigger] root(parent, dist, c) == #[trigger] root(parent, dist, d)
}

/// The touching pairs of cells before the pair `(i, j)`, in the order in
/// which the pairs are visited, have the same root.
pub open spec fn joined_before(
    cells: Seq<GridCell>,
    parent: Seq<usize>,
    dist: Seq<nat>,
    i: int,
    j: int,
) -> bool {
    forall|c: int, d: int|
        0 <= c < d < cells.len() && (c < i || (c == i && d < j)) && cells_touch(
            cell_key(cells[c]),
            cell_key(cells[d]),
        ) ==> #[trigger] root(parent, dist, c) == #[trigger] root(parent, dist, d)
}

/// The pixels of every cell belong to the cluster of the pixels of its root.
pub open spec fn roots_reached(
    pixels: Seq<DiffPixel>,
    grid: int,
    cells: Seq<GridCell>,
    first: Seq<int>,
    parent: Seq<usize>,
    dist: Seq<nat>,
) -> bool {
    forall|c: int|
        0 <= c < cells.len() ==> same_cluster(
            pixels,
            grid,
            first[c],
            first[#[trigger] root(parent, dist, c)],
        )
}

fn near(a: u32, b: u32) -> (r: bool)
    ensures
        r == (a - b <= 1 && b - a <= 1),
{
    if a >= b {
        a - b <= 1
    } else {
        b - a <= 1
    }
}

/// Merges the trees of two touching cells. Cells that had the same root
/// before still have the same root.
fn merge_cells(
    parent: &mut Vec<usize>,
    Ghost(dist): Ghost<Seq<nat>>,
    i: usize,
    j: usize,
    Ghost(cells): Ghost<Seq<GridCell>>,
    Ghost(pixels): Ghost<Seq<DiffPixel>>,
    Ghost(grid): Ghost<int>,
    Ghost(home): Ghost<Seq<int>>,
    Ghost(first): Ghost<Seq<int>>,
) -> (moved: Ghost<Seq<nat>>)
    requires
        is_grid(pixels, grid, pixels.len() as int, cells, home, first),
        old(parent)@.len() == cells.len(),
        is_forest(old(parent)@, dist),
        roots_reached(pixels, grid, cells, first, old(parent)@, dist),
        i < cells.len(),
        j < cells.len(),
        cells_touch(cell_key(cells[i as int]), cell_key(cells[j as int])),
    ensures
        final(parent)@.len() == cells.len(),
        is_forest(final(parent)@, moved@),
        roots_reached(pixels, grid, cells, first, final(parent)@, moved@),
        root(final(parent)@, moved@, i as int) == root(final(parent)@, moved@, j as int),
        forall|c: int, d: int|
            0 <= c < cells.len() && 0 <= d < cells.len() && root(old(parent)@, dist, c) == root(
                old(parent)@,
                dist,
                d,
            ) ==> #[trigger] root(final(parent)@, moved@, c) == #[trigger] root(
                final(parent)@,
                moved@,
                d,
            ),
{
    let ghost before = parent@;
    let ghost count = cells.len();
    let pi: usize = find(parent, i, Ghost(dist));
    let ghost between = parent@;
    let pj: usize = find(parent, j, Ghost(dist));
    let ghost found = parent@;
    proof {
        assert forall|x: int| 0 <= x < count implies #[trigger] root(found, dist, x) == root(
            before,
            dist,
            x,
        ) by {
            assert(root(between, dist, x) == root(before, dist, x));
        }
        assert(pi == root(found, dist, i as int));
        assert(pj == root(found, dist, j as int));
        lemma_root(found, dist, i as int);
        assert(roots_reached(pixels, grid, cells, first, found, dist)) by {
            assert forall|c: int| 0 <= c < count implies same_cluster(
                pixels,
                grid,
                first[c],
                first[#[trigger] root(found, dist, c)],
            ) by {
                assert(same_cluster(pixels, grid, first[c], first[root(before, dist, c)]));
            }
        }
    }
    if pi != pj {
        proof {
            lemma_link(found, dist, pi as int, pj as int);
            lemma_roots_touch(pixels, grid, cells, home, first, found, dist, i as int, j as int);
        }
        parent[pi] = pj;
        let ghost moved = linked_dist(found, dist, pi as int, pj as int);
        proof {
            assert(parent@ == found.update(pi as int, pj));
            assert forall|c: int| 0 <= c < count implies same_cluster(
                pixels,
                grid,
                first[c],
                first[#[trigger] root(parent@, moved, c)],
            ) by {
                assert(same_cluster(pixels, grid, first[c], first[root(found, dist, c)]));
                if root(found, dist, c) == pi {
                    lemma_cluster_transitive(
                        pixels,
                        grid,
                        first[c],
                        first[pi as int],
                        first[pj as int],
                    );
                }
            }
            assert forall|c: int, d: int|
                0 <= c < count && 0 <= d < count && root(before, dist, c) == root(
                    before,
                    dist,
                    d,
                ) implies #[trigger] root(parent@, moved, c) == #[trigger] root(parent@, moved, d) by {
                assert(root(found, dist, c) == root(before, dist, c));
                assert(root(found, dist, d) == root(before, dist, d));
            }
        }
        Ghost(moved)
    } else {
        Ghost(dist)
    }
}

/// Merges every pair of touching cells.
pub(crate) fn join_cells(
    cells: &Vec<GridCell>,
    Ghost(pixels): Ghost<Seq<DiffPixel>>,
    Ghost(grid): Ghost<int>,
    Ghost(home): Ghost<Seq<int>>,
    Ghost(first): Ghost<Seq<int>>,
) -> (out: (Vec<usize>, Ghost<Seq<nat>>))
    requires
        is_grid(pixels, grid, pixels.len() as int, cells@, home, first),
    ensures
        is_joined(pixels, grid, cells@, first, out.0@, out.1@),
{
    let count: usize = cells.len();
    let mut parent: Vec<usize> = singletons(count);
    let ghost mut dist: Seq<nat> = Seq::new(count as nat, |c: int| 0nat);
    proof {
        assert forall|c: int| 0 <= c < count implies same_cluster(
            pixels,
            grid,
            first[c],
            first[#[trigger] root(parent@, dist, c)],
        ) by {
            assert(root(parent@, dist, c) == c);
            lemma_touching_same_cluster(pixels, grid, first[c], first[c]);
        }
    }
    let mut i: usize = 0;
    while i < count
        invariant
            i <= count,
            count == cells@.len(),
            parent@.len() == count,
            is_grid(pixels, grid, pixels.len() as int, cells@, home, first),
            is_forest(parent@, dist),
            roots_reached(pixels, grid, cells@, first, parent@, dist),
            joined_before(cells@, parent@, dist, i as int, 0),
        decreases count - i,
    {
        let mut j: usize = i + 1;
        while j < count
            invariant
                i < count,
                i < j <= count,
                count == cells@.len(),
                parent@.len() == count,
                is_grid(pixels, grid, pixels.len() as int, cells@, home, first),
                is_forest(parent@, dist),
                roots_reached(pixels, grid, cells@, first, parent@, dist),
                joined_before(cells@, parent@, dist, i as int, j as int),
            decreases count - j,
        {
            if near(cells[i].gx, cells[j].gx) && near(cells[i].gy, cells[j].gy) {
                let ghost before = parent@;
                let ghost old_dist = dist;
                let moved = merge_cells(
                    &mut parent,
                    Ghost(dist),
                    i,
                    j,
                    Ghost(cells@),
                    Ghost(pixels),
                    Ghost(grid),
                    Ghost(home),
                    Ghost(first),
                );
                proof {
                    dist = moved@;
                    assert forall|c: int, d: int|
                        0 <= c < d < count && (c < i || (c == i && d < j + 1)) && cells_touch(
                            cell_key(cells@[c]),
                            cell_key(cells@[d]),
                        ) implies #[trigger] root(parent@, dist, c) == #[trigger] root(
                        parent@,
                        dist,
                        d,
                    ) by {
                        if !(c == i && d == j) {
                            assert(root(before, old_dist, c) == root(before, old_dist, d));
                        }
                    }
                }
            }
            j = j + 1;
        }
        i = i + 1;
    }
    proof {
        assert forall|c: int, d: int|
            0 <= c < count && 0 <= d < count && cells_touch(
                cell_key(cells@[c]),
                cell_key(cells@[d]),
            ) implies #[trigger] root(parent@, dist, c) == #[trigger] root(parent@, dist, d) by {
            if c < d {
                assert(root(parent@, dist, c) == root(parent@, dist, d));
            } else if d < c {
                assert(cells_touch(cell_key(cells@[d]), cell_key(cells@[c])));
                assert(root(parent@, dist, d) == root(parent@, dist, c));
            }
        }
    }
    (parent, Ghost(dist))
}

/// Where two cells touch, the pixels of their roots belong to one cluster.
proof fn lemma_roots_touch(
    pixels: Seq<DiffPixel>,
    grid: int,
    cells: Seq<GridCell>,
    home: Seq<int>,
    first: Seq<int>,
    parent: Seq<usize>,
    dist: Seq<nat>,
    i: int,
    j: int,
)
    requires
        is_grid(pixels, grid, pixels.len() as int, cells, home, first),
        is_forest(parent, dist),
        parent.len() == cells.len(),
        roots_reached(pixels, grid, cells, first, parent, dist),
        0 <= i < cells.len(),
        0 <= j < cells.len(),
        cells_touch(cell_key(cells[i]), cell_key(cells[j])),
    ensures
        same_cluster(pixels, grid, first[root(parent, dist, i)], first[root(parent, dist, j)]),
{
    let ri = root(parent, dist, i);
    let rj = root(parent, dist, j);
    assert(same_cluster(pixels, grid, first[i], first[ri]));
    assert(same_cluster(pixels, grid, first[j], first[rj]));
    assert(home[first[i]] == i);
    assert(home[first[j]] == j);
    assert(cell_key(cells[home[first[i]]]) == cell_of(pixels[first[i]], grid));
    assert(cell_key(cells[home[first[j]]]) == cell_of(pixels[first[j]], grid));
    assert(pixels_touch(pixels, grid, first[i], first[j]));
    lemma_touching_same_cluster(pixels, grid, first[i], first[j]);
    lemma_cluster_symmetric(pixels, grid, first[i], first[ri]);
    lemma_cluster_transitive(pixels, grid, first[ri], first[i], first[j]);
    lemma_cluster_transitive(pixels, grid, first[ri], first[j], first[rj]);
}

/// Two pixels belong to one cluster exactly when their cells have the same
/// root.
pub proof fn lemma_cluster_is_root(
    pixels: Seq<DiffPixel>,
    grid: int,
    cells: Seq<GridCell>,
    home: Seq<int>,
    first: Seq<int>,
    parent: Seq<usize>,
    dist: Seq<nat>,
    a: int,
    b: int,
)
    requires
        is_grid(pixels, grid, pixels.len() as int, cells, home, first),
        is_joined(pixels, grid, cells, first, parent, dist),
        0 <= a < pixels.len(),
        0 <= b < pixels.len(),
    ensures
        same_cluster(pixels, grid, a, b) <==> root(parent, dist, home[a]) == root(
            parent,
            dist,
            home[b],
        ),
{
    let label = |x: int| root(parent, dist, home[x]);
    if same_cluster(pixels, grid, a, b) {
        assert forall|x: int, y: int|
            0 <= x < pixels.len() && 0 <= y < pixels.len() && #[trigger] pixels_touch(
                pixels,
                grid,
                x,
                y,
            ) implies label(x) == label(y) by {
            assert(cell_key(cells[home[x]]) == cell_of(pixels[x], grid));
            assert(cell_key(cells[home[y]]) == cell_of(pixels[y], grid));
            assert(root(parent, dist, home[x]) == root(parent, dist, home[y]));
        }
        lemma_cluster_shares_label(pixels, grid, label, a, b);
    }
    if root(parent, dist, home[a]) == root(parent, dist, home[b]) {
        let r = root(parent, dist, home[a]);
        lemma_to_first(pixels, grid, cells, home, first, a);
        lemma_to_first(pixels, grid, cells, home, first, b);
        assert(same_cluster(pixels, grid, first[home[a]], first[r]));
        assert(same_cluster(pixels, grid, first[home[b]], first[r]));
        lemma_cluster_transitive(pixels, grid, a, first[home[a]], first[r]);
        lemma_cluster_transitive(pixels, grid, b, first[home[b]], first[r]);
        lemma_cluster_symmetric(pixels, grid, b, first[r]);
        lemma_cluster_transitive(pixels, grid, a, first[r], b);
    }
}

/// A pixel belongs to the cluster of the first pixel of its cell.
proof fn lemma_to_first(
    pixels: Seq<DiffPixel>,
    grid: int,
    cells: Seq<GridCell>,
    home: Seq<int>,
    first: Seq<int>,
    a: int,
)
    requires
        is_grid(pixels, grid, pixels.len() as int, cells, home, first),
        0 <= a < pixels.len(),
    ensures
        same_cluster(pixels, grid, a, first[home[a]]),
{
    let c = home[a];
    assert(0 <= first[c] < pixels.len() && home[first[c]] == c);
    assert(cell_key(cells[home[a]]) == cell_of(pixels[a], grid));
    assert(cell_key(cells[home[first[c]]]) == cell_of(pixels[first[c]], grid));
    lemma_touching_same_cluster(pixels, grid, a, first[c]);
}

/// The group sums up the pixels of the list that the predicate holds of.
pub open spec fn group_sums(
    pixels: Seq<DiffPixel>,
    group: ClusterGroup,
    pred: spec_fn(int) -> bool,
) -> bool {
    &&& group.count == count_where(pixels.len() as int, pred)
    &&& group.min_x == least(pixels, pixels.len() as int, pred, 0)
    &&& group.max_x == greatest(pixels, pixels.len() as int, pred, 0)
    &&& group.min_y == least(pixels, pixels.len() as int, pred, 1)
    &&& group.max_y == greatest(pixels, pixels.len() as int, pred, 1)
}

/// The pixels whose cell comes before `upto` in the list of cells and has
/// the root `r`, as a predicate on positions.
pub open spec fn gathered(home: Seq<int>, roots: Seq<int>, r: int, upto: int) -> spec_fn(int) -> bool {
    |j: int| 0 <= home[j] < upto && roots[home[j]] == r
}

/// The root of every cell.
pub open spec fn roots_of(parent: Seq<usize>, dist: Seq<nat>) -> Seq<int> {
    Seq::new(parent.len(), |c: int| root(parent, dist, c))
}

/// Sums up every tree of the forest: the group at the place of a root holds
/// the bounding box and the number of the pixels of its cluster.
pub(crate) fn gather_groups(
    cells: &Vec<GridCell>,
    parent: &mut Vec<usize>,
    Ghost(dist): Ghost<Seq<nat>>,
    Ghost(pixels): Ghost<Seq<DiffPixel>>,
    Ghost(grid): Ghost<int>,
    Ghost(home): Ghost<Seq<int>>,
    Ghost(first): Ghost<Seq<int>>,
) -> (groups: Vec<ClusterGroup>)
    requires
        pixels.len() <= usize::MAX,
        is_grid(pixels, grid, pixels.len() as int, cells@, home, first),
        is_joined(pixels, grid, cells@, first, old(parent)@, dist),
    ensures
        is_joined(pixels, grid, cells@, first, final(parent)@, dist),
        groups@.len() == cells@.len(),
        forall|r: int|
            0 <= r < cells@.len() && final(parent)@[r] == r ==> group_sums(
                pixels,
                #[trigger] groups@[r],
                cluster_of(pixels, grid, first[r]),
            ),
{
    let count: usize = cells.len();
    let ghost roots = roots_of(parent@, dist);
    let ghost n = pixels.len() as int;
    let mut groups: Vec<ClusterGroup> = Vec::new();
    let mut c: usize = 0;
    while c < count
        invariant
            c <= count,
            n == pixels.len(),
            groups@.len() == c,
            forall|r: int|
                0 <= r < c ==> group_sums(pixels, #[trigger] groups@[r], gathered(home, roots, r, 0)),
        decreases count - c,
    {
        groups.push(ClusterGroup { min_x: u32::MAX, max_x: 0, min_y: u32::MAX, max_y: 0, count: 0 });
        proof {
            let none = gathered(home, roots, c as int, 0);
            assert forall|j: int| 0 <= j < n implies !#[trigger] none(j) by {}
            lemma_none_where(pixels, n, none);
            assert(least(pixels, n, none, 0) == u32::MAX);
            assert(least(pixels, n, none, 1) == u32::MAX);
            assert(greatest(pixels, n, none, 0) == 0);
            assert(greatest(pixels, n, none, 1) == 0);
        }
        c = c + 1;
    }
    let mut c: usize = 0;
    while c < count
        invariant
            c <= count,
            count == cells@.len(),
            n == pixels.len(),
            n <= usize::MAX,
            groups@.len() == count,
            parent@.len() == count,
            roots.len() == count,
            is_grid(pixels, grid, n, cells@, home, first),
            is_joined(pixels, grid, cells@, first, parent@, dist),
            forall|x: int| 0 <= x < count ==> #[trigger] root(parent@, dist, x) == roots[x],
            forall|r: int|
                0 <= r < count ==> group_sums(
                    pixels,
                    #[trigger] groups@[r],
                    gathered(home, roots, r, c as int),
                ),
        decreases count - c,
    {
        let ghost before = parent@;
        let ghost old_groups = groups@;
        let r: usize = find(parent, c, Ghost(dist));
        let cell = cells[c];
        let group = groups[r];
        proof {
            assert forall|x: int| 0 <= x < count implies #[trigger] root(parent@, dist, x)
                == roots[x] by {
                assert(root(before, dist, x) == roots[x]);
            }
            assert(is_joined(pixels, grid, cells@, first, parent@, dist)) by {
                assert forall|x: int| 0 <= x < count implies same_cluster(
                    pixels,
                    grid,
                    first[x],
                    first[#[trigger] root(parent@, dist, x)],
                ) by {
                    assert(same_cluster(pixels, grid, first[x], first[root(before, dist, x)]));
                }
                assert forall|x: int, y: int|
                    0 <= x < count && 0 <= y < count && cells_touch(
                        cell_key(cells@[x]),
                        cell_key(cells@[y]),
                    ) implies #[trigger] root(parent@, dist, x) == #[trigger] root(
                    parent@,
                    dist,
                    y,
                ) by {
                    assert(root(before, dist, x) == root(before, dist, y));
                }
            }
            let p = gathered(home, roots, r as int, c as int);
            let q = in_cell(pixels, grid, cell_key(cell));
            let u = gathered(home, roots, r as int, c + 1);
            assert(group_sums(pixels, old_groups[r as int], p));
            assert(cell_sums(pixels, grid, n, cells@[c as int]));
            assert forall|j: int| 0 <= j < n implies #[trigger] u(j) == (p(j) || q(j)) by {
                assert(cell_key(cells@[home[j]]) == cell_of(pixels[j], grid));
            }
            assert forall|j: int| 0 <= j < n implies !(#[trigger] p(j) && q(j)) by {
                assert(cell_key(cells@[home[j]]) == cell_of(pixels[j], grid));
            }
            lemma_union_where(pixels, n, p, q, u);
            lemma_where_bounds(pixels, n, u, 0);
            assert(least(pixels, n, u, 0) == if least(pixels, n, p, 0) <= least(pixels, n, q, 0) {
                least(pixels, n, p, 0)
            } else {
                least(pixels, n, q, 0)
            });
            assert(least(pixels, n, u, 1) == if least(pixels, n, p, 1) <= least(pixels, n, q, 1) {
                least(pixels, n, p, 1)
            } else {
                least(pixels, n, q, 1)
            });
            assert(greatest(pixels, n, u, 0) == if greatest(pixels, n, p, 0) >= greatest(
                pixels,
                n,
                q,
                0,
            ) {
                greatest(pixels, n, p, 0)
            } else {
                greatest(pixels, n, q, 0)
            });
            assert(greatest(pixels, n, u, 1) == if greatest(pixels, n, p, 1) >= greatest(
                pixels,
                n,
                q,
                1,
            ) {
                greatest(pixels, n, p, 1)
            } else {
                greatest(pixels, n, q, 1)
            });
        }
        let merged = ClusterGroup {
            min_x: if group.min_x <= cell.min_x {
                group.min_x
            } else {
                cell.min_x
            },
            max_x: if group.max_x >= cell.max_x {
                group.max_x
            } else {
                cell.max_x
            },
            min_y: if group.min_y <= cell.min_y {
                group.min_y
            } else {
                cell.min_y
            },
            max_y: if group.max_y >= cell.max_y {
                group.max_y
            } else {
                cell.max_y
            },
            count: group.count + cell.count,
        };
        groups[r] = merged;
        proof {
            assert forall|s: int| 0 <= s < count implies group_sums(
                pixels,
                #[trigger] groups@[s],
                gathered(home, roots, s, c + 1),
            ) by {
                if s != r {
                    let p = gathered(home, roots, s, c as int);
                    let u = gathered(home, roots, s, c + 1);
                    assert(group_sums(pixels, old_groups[s], p));
                    assert forall|j: int| 0 <= j < n implies #[trigger] p(j) == u(j) by {}
                    lemma_same_where(pixels, n, p, u);
                    assert(least(pixels, n, p, 0) == least(pixels, n, u, 0));
                    assert(least(pixels, n, p, 1) == least(pixels, n, u, 1));
                    assert(greatest(pixels, n, p, 0) == greatest(pixels, n, u, 0));
                    assert(greatest(pixels, n, p, 1) == greatest(pixels, n, u, 1));
                }
            }
        }
        c = c + 1;
    }
    proof {
        assert forall|r: int| 0 <= r < count && parent@[r] == r implies group_sums(
            pixels,
            #[trigger] groups@[r],
            cluster_of(pixels, grid, first[r]),
        ) by {
            let p = gathered(home, roots, r, count as int);
            let q = cluster_of(pixels, grid, first[r]);
            assert(group_sums(pixels, groups@[r], p));
            assert(root(parent@, dist, r) == r);
            assert(0 <= first[r] < n && home[first[r]] == r);
            assert forall|j: int| 0 <= j < n implies #[trigger] p(j) == q(j) by {
                lemma_cluster_is_root(
                    pixels,
                    grid,
                    cells@,
                    home,
                    first,
                    parent@,
                    dist,
                    first[r],
                    j,
                );
                assert(root(parent@, dist, home[j]) == roots[home[j]]);
            }
            lemma_same_where(pixels, n, p, q);
            assert(least(pixels, n, p, 0) == least(pixels, n, q, 0));
            assert(least(pixels, n, p, 1) == least(pixels, n, q, 1));
            assert(greatest(pixels, n, p, 0) == greatest(pixels, n, q, 0));
            assert(greatest(pixels, n, p, 1) == greatest(pixels, n, q, 1));
        }
    }
    groups
}

/// The marker of a group.
pub open spec fn marker_of_group(group: ClusterGroup, min_radius2: u32) -> DiffMarker {
    marker_of_box(
        group.min_x as int,
        group.max_x as int,
        group.min_y as int,
        group.max_y as int,
        group.count as int,
        min_radius2,
    )
}

/// Computes the marker of a group.
pub fn make_marker(group: ClusterGroup, min_radius2: u32) -> (marker: DiffMarker)
    requires
        group.min_x <= group.max_x,
        group.min_y <= group.max_y,
    ensures
        marker == marker_of_group(group, min_radius2),
{
    let wide: u64 = (group.max_x - group.min_x) as u64;
    let high: u64 = (group.max_y - group.min_y) as u64;
    let side: u64 = if wide >= high {
        wide
    } else {
        high
    };
    let padding: u64 = if min_radius2 > 400 {
        200
    } else {
        120
    };
    let padded: u64 = side + padding;
    let least_radius: u64 = min_radius2 as u64;
    DiffMarker {
        x2: group.min_x as u64 + group.max_x as u64,
        y2: group.min_y as u64 + group.max_y as u64,
        radius2: if least_radius >= padded {
            least_radius
        } else {
            padded
        },
        count: if group.count > u32::MAX as u64 {
            u32::MAX
        } else {
            group.count as u32
        },
    }
}

/// The markers are those of the groups at the places `owners`: each owner is
/// a root whose group has at least `min_cluster` pixels, no root owns two
/// markers, and every such root owns one.
pub open spec fn marks_groups(
    groups: Seq<ClusterGroup>,
    parent: Seq<usize>,
    min_cluster: u32,
    min_radius2: u32,
    upto: int,
    markers: Seq<DiffMarker>,
    owners: Seq<int>,
) -> bool {
    &&& owners.len() == markers.len()
    &&& forall|t: int|
        0 <= t < owners.len() ==> {
            &&& 0 <= #[trigger] owners[t] < upto
            &&& parent[owners[t]] == owners[t]
            &&& groups[owners[t]].count >= min_cluster
            &&& markers[t] == marker_of_group(groups[owners[t]], min_radius2)
        }
    &&& forall|t: int, u: int|
        0 <= t < owners.len() && 0 <= u < owners.len() && t != u ==> #[trigger] owners[t]
            != #[trigger] owners[u]
    &&& forall|r: int|
        0 <= r < upto && parent[r] == r && (#[trigger] groups[r]).count >= min_cluster
            ==> owners.contains(r)
}

/// Turns the groups of the roots with at least `min_cluster` pixels into
/// markers, the largest count first; equal counts keep the order of their
/// roots.
pub(crate) fn rank_markers(
    groups: &Vec<ClusterGroup>,
    parent: &Vec<usize>,
    min_cluster: u32,
    min_radius2: u32,
) -> (out: (Vec<DiffMarker>, Ghost<Seq<int>>))
    requires
        groups@.len() == parent@.len(),
        forall|r: int|
            0 <= r < groups@.len() && parent@[r] == r ==> (#[trigger] groups@[r]).min_x
                <= groups@[r].max_x && groups@[r].min_y <= groups@[r].max_y,
    ensures
        by_count_descending(out.0@),
        marks_groups(
            groups@,
            parent@,
            min_cluster,
            min_radius2,
            groups@.len() as int,
            out.0@,
            out.1@,
        ),
{
    let count: usize = groups.len();
    let mut markers: Vec<DiffMarker> = Vec::new();
    let ghost mut owners: Seq<int> = Seq::empty();
    let mut r: usize = 0;
    while r < count
        invariant
            r <= count,
            count == groups@.len(),
            count == parent@.len(),
            forall|s: int|
                0 <= s < groups@.len() && parent@[s] == s ==> (#[trigger] groups@[s]).min_x
                    <= groups@[s].max_x && groups@[s].min_y <= groups@[s].max_y,
            by_count_descending(markers@),
            marks_groups(groups@, parent@, min_cluster, min_radius2, r as int, markers@, owners),
        decreases count - r,
    {
        let group = groups[r];
        if parent[r] == r && group.count >= min_cluster as u64 {
            let marker = make_marker(group, min_radius2);
            let mut place: usize = 0;
            while place < markers.len() && markers[place].count >= marker.count
                invariant
                    place <= markers@.len(),
                    forall|t: int| 0 <= t < place ==> markers@[t].count >= marker.count,
                decreases markers@.len() - place,
            {
                place = place + 1;
            }
            let ghost old_markers = markers@;
            let ghost old_owners = owners;
            markers.insert(place, marker);
            proof {
                owners = old_owners.insert(place as int, r as int);
                assert forall|s: int, t: int| 0 <= s < t < markers@.len() implies markers@[s].count
                    >= markers@[t].count by {
                    if t == place {
                    } else if s == place {
                        assert(markers@[t] == old_markers[t - 1]);
                        assert(old_markers[place as int].count >= old_markers[t - 1].count
                            || t - 1 == place);
                    } else {
                        let s0 = if s < place {
                            s
                        } else {
                            s - 1
                        };
                        let t0 = if t < place {
                            t
                        } else {
                            t - 1
                        };
                        assert(markers@[s] == old_markers[s0]);
                        assert(markers@[t] == old_markers[t0]);
                    }
                }
                assert forall|t: int| 0 <= t < owners.len() implies {
                    &&& 0 <= #[trigger] owners[t] < r + 1
                    &&& parent@[owners[t]] == owners[t]
                    &&& groups@[owners[t]].count >= min_cluster
                    &&& markers@[t] == marker_of_group(groups@[owners[t]], min_radius2)
                } by {
                    if t < place {
                        assert(owners[t] == old_owners[t]);
                        assert(markers@[t] == old_markers[t]);
                    } else if t > place {
                        assert(owners[t] == old_owners[t - 1]);
                        assert(markers@[t] == old_markers[t - 1]);
                    }
                }
                assert forall|t: int, u: int|
                    0 <= t < owners.len() && 0 <= u < owners.len() && t != u implies #[trigger] owners[t]
                    != #[trigger] owners[u] by {
                    let t0 = if t < place {
                        t
                    } else {
                        t - 1
                    };
                    let u0 = if u < place {
                        u
                    } else {
                        u - 1
                    };
                    if t != place {
                        assert(owners[t] == old_owners[t0]);
                    }
                    if u != place {
                        assert(owners[u] == old_owners[u0]);
                    }
                }
                assert forall|s: int|
                    0 <= s < r + 1 && parent@[s] == s && (#[trigger] groups@[s]).count
                        >= min_cluster implies owners.contains(s) by {
                    if s < r {
                        assert(old_owners.contains(s));
                        let t0 = choose|t0: int| 0 <= t0 < old_owners.len() && old_owners[t0] == s;
                        let t = if t0 < place {
                            t0
                        } else {
                            t0 + 1
                        };
                        assert(owners[t] == s);
                    } else {
                        assert(owners[place as int] == s);
                    }
                }
            }
        } else {
            proof {
                assert forall|s: int|
                    0 <= s < r + 1 && parent@[s] == s && (#[trigger] groups@[s]).count
                        >= min_cluster implies owners.contains(s) by {
                    assert(s < r);
                }
            }
        }
        r = r + 1;
    }
    (markers, Ghost(owners))
}

/// Clusters flagged pixels and returns one marker for each cluster of at
/// least `min_cluster` pixels, ordered by count, the largest first.
///
/// `grid_size` is the side of a grid cell in pixels; `min_radius2` is the
/// least radius of a marker in half pixels, like the radius of a marker.
pub fn cluster_markers(pixels: &[DiffPixel], grid_size: u32, min_cluster: u32, min_radius2: u32) -> (markers:
    Vec<DiffMarker>)
    requires
        grid_size > 0,
    ensures
        by_count_descending(markers@),
        exists|reps: Seq<int>|
            marks_clusters(pixels@, grid_size as int, min_cluster, min_radius2, markers@, reps),
{
    let ghost grid = grid_size as int;
    let ghost n = pixels@.len() as int;
    if pixels.len() == 0 {
        let markers: Vec<DiffMarker> = Vec::new();
        proof {
            assert(marks_clusters(
                pixels@,
                grid,
                min_cluster,
                min_radius2,
                markers@,
                Seq::<int>::empty(),
            ));
        }
        return markers;
    }
    let built = build_grid(pixels, grid_size);
    let cells = built.0;
    let ghost home = built.1@;
    let ghost first = built.2@;
    let joined = join_cells(&cells, Ghost(pixels@), Ghost(grid), Ghost(home), Ghost(first));
    let mut parent = joined.0;
    let ghost dist = joined.1@;
    let groups = gather_groups(
        &cells,
        &mut parent,
        Ghost(dist),
        Ghost(pixels@),
        Ghost(grid),
        Ghost(home),
        Ghost(first),
    );
    proof {
        assert forall|r: int| 0 <= r < groups@.len() && parent@[r] == r implies (#[trigger] groups@[r]).min_x
            <= groups@[r].max_x && groups@[r].min_y <= groups@[r].max_y by {
            let q = cluster_of(pixels@, grid, first[r]);
            assert(group_sums(pixels@, groups@[r], q));
            assert(0 <= first[r] < n);
            lemma_touching_same_cluster(pixels@, grid, first[r], first[r]);
            assert(q(first[r]));
            lemma_member_where(pixels@, n, q, 0, first[r]);
            lemma_member_where(pixels@, n, q, 1, first[r]);
        }
    }
    let ranked = rank_markers(&groups, &parent, min_cluster, min_radius2);
    let markers = ranked.0;
    proof {
        let owners = ranked.1@;
        let reps = Seq::new(owners.len(), |t: int| first[owners[t]]);
        assert forall|t: int| 0 <= t < reps.len() implies {
            &&& 0 <= #[trigger] reps[t] < n
            &&& markers@[t] == cluster_marker(pixels@, grid, min_radius2, reps[t])
            &&& cluster_size(pixels@, grid, reps[t]) >= min_cluster
        } by {
            let r = owners[t];
            assert(group_sums(pixels@, groups@[r], cluster_of(pixels@, grid, first[r])));
        }
        assert forall|t: int, u: int|
            0 <= t < reps.len() && 0 <= u < reps.len() && t != u implies !same_cluster(
            pixels@,
            grid,
            #[trigger] reps[t],
            #[trigger] reps[u],
        ) by {
            let a = owners[t];
            let b = owners[u];
            assert(a != b);
            assert(root(parent@, dist, a) == a);
            assert(root(parent@, dist, b) == b);
            assert(home[first[a]] == a);
            assert(home[first[b]] == b);
            lemma_cluster_is_root(
                pixels@,
                grid,
                cells@,
                home,
                first,
                parent@,
                dist,
                first[a],
                first[b],
            );
        }
        assert forall|j: int|
            0 <= j < n && cluster_size(pixels@, grid, j) >= min_cluster implies #[trigger] is_marked(
            pixels@,
            grid,
            reps,
            j,
        ) by {
            let r = root(parent@, dist, home[j]);
            lemma_root(parent@, dist, home[j]);
            assert(parent@[r] == r);
            assert(root(parent@, dist, r) == r);
            assert(home[first[r]] == r);
            lemma_cluster_is_root(pixels@, grid, cells@, home, first, parent@, dist, j, first[r]);
            lemma_cluster_marker_shared(pixels@, grid, min_radius2, j, first[r]);
            assert(group_sums(pixels@, groups@[r], cluster_of(pixels@, grid, first[r])));
            assert(groups@[r].count >= min_cluster);
            assert(owners.contains(r));
            let t = choose|t: int| 0 <= t < owners.len() && owners[t] == r;
            assert(reps[t] == first[r]);
        }
        assert(marks_clusters(pixels@, grid, min_cluster, min_radius2, markers@, reps));
    }
    markers
}

} // verus!
