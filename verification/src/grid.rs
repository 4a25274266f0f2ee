//! Quantising flagged pixels to grid cells: one cell per occupied square of
//! the grid, with the count and the bounding box of its pixels.

use crate::pixel::DiffPixel;
use crate::region::cell_of;
use crate::region::count_where;
use crate::region::greatest;
use crate::region::least;
use crate::region::lemma_none_where;
use crate::region::lemma_where_bounds;
use std::collections::HashMap;
use vstd::prelude::*;

verus! {

broadcast use vstd::std_specs::hash::group_hash_axioms;

/// The pixels of one occupied grid cell: column and row of the cell, the
/// number of pixels in it, and their bounding box in pixel coordinates.
#[derive(Clone, Copy, Debug)]
pub struct GridCell {
    pub gx: u32,
    pub gy: u32,
    pub count: u64,
    pub min_x: u32,
    pub max_x: u32,
    pub min_y: u32,
    pub max_y: u32,
}

/// Column and row of a cell.
pub open spec fn cell_key(cell: GridCell) -> (int, int) {
    (cell.gx as int, cell.gy as int)
}

/// The pixels of the list that fall in the cell `key`, as a predicate on
/// positions.
pub open spec fn in_cell(pixels: Seq<DiffPixel>, grid: int, key: (int, int)) -> spec_fn(int) -> bool {
    |j: int| cell_of(pixels[j], grid) == key
}

/// The cell sums up the pixels among the first `n` that fall in it.
pub open spec fn cell_sums(pixels: Seq<DiffPixel>, grid: int, n: int, cell: GridCell) -> bool {
    let p = in_cell(pixels, grid, cell_key(cell));
    &&& cell.count == count_where(n, p)
    &&& cell.min_x == least(pixels, n, p, 0)
    &&& cell.max_x == greatest(pixels, n, p, 0)
    &&& cell.min_y == least(pixels, n, p, 1)
    &&& cell.max_y == greatest(pixels, n, p, 1)
}

/// The cells are the grid of the first `n` pixels: `home[j]` is the cell of
/// pixel `j`, `first[c]` is a pixel of cell `c`, no two cells have the same
/// column and row, and every cell sums up its pixels.
pub open spec fn is_grid(
    pixels: Seq<DiffPixel>,
    grid: int,
    n: int,
    cells: Seq<GridCell>,
    home: Seq<int>,
    first: Seq<int>,
) -> bool {
    &&& home.len() == n
    &&& first.len() == cells.len()
    &&& forall|j: int|
        0 <= j < n ==> 0 <= #[trigger] home[j] < cells.len() && cell_key(cells[home[j]]) == cell_of(
            pixels[j],
            grid,
        )
    &&& forall|c: int| 0 <= c < cells.len() ==> 0 <= #[trigger] first[c] < n && home[first[c]] == c
    &&& forall|c: int| 0 <= c < cells.len() ==> cell_sums(pixels, grid, n, #[trigger] cells[c])
    &&& forall|c: int, d: int|
        0 <= c < cells.len() && 0 <= d < cells.len() && c != d ==> cell_key(#[trigger] cells[c])
            != cell_key(#[trigger] cells[d])
}

/// Column and row of a cell packed into one number.
pub open spec fn packed(key: (int, int)) -> int {
    key.0 * 0x1_0000_0000 + key.1
}

/// The lookup table leads from every packed cell to its place in the list
/// of cells, and holds nothing else.
pub open spec fn is_lookup(lookup: Map<u64, usize>, cells: Seq<GridCell>) -> bool {
    &&& forall|c: int|
        0 <= c < cells.len() ==> lookup.contains_key(packed(cell_key(#[trigger] cells[c])) as u64)
            && lookup[packed(cell_key(cells[c])) as u64] == c
    &&& forall|k: u64| #[trigger]
        lookup.contains_key(k) ==> lookup[k] < cells.len() && packed(
            cell_key(cells[lookup[k] as int]),
        ) == k
}

/// Sorts the pixels into grid cells of side `grid_size`, in the order in
/// which the cells are first met.
pub(crate) fn build_grid(pixels: &[DiffPixel], grid_size: u32) -> (out: (
    Vec<GridCell>,
    Ghost<Seq<int>>,
    Ghost<Seq<int>>,
))
    requires
        grid_size > 0,
    ensures
        is_grid(pixels@, grid_size as int, pixels@.len() as int, out.0@, out.1@, out.2@),
        out.0@.len() <= pixels@.len(),
{
    let ghost grid = grid_size as int;
    let mut cells: Vec<GridCell> = Vec::new();
    let mut lookup: HashMap<u64, usize> = HashMap::new();
    let ghost mut home: Seq<int> = Seq::empty();
    let ghost mut first: Seq<int> = Seq::empty();
    let mut n: usize = 0;
    while n < pixels.len()
        invariant
            n <= pixels.len(),
            grid == grid_size,
            grid_size > 0,
            cells@.len() <= n,
            is_grid(pixels@, grid, n as int, cells@, home, first),
            is_lookup(lookup@, cells@),
        decreases pixels.len() - n,
    {
        let p = pixels[n];
        let gx: u32 = p.x / grid_size;
        let gy: u32 = p.y / grid_size;
        let key: u64 = (gx as u64) * 0x1_0000_0000 + (gy as u64);
        let ghost here = (gx as int, gy as int);
        let ghost old_cells = cells@;
        assert(cell_of(pixels@[n as int], grid) == here);
        let found: Option<usize> = match lookup.get(&key) {
            Some(c) => Some(*c),
            None => None,
        };
        match found {
            Some(c) => {
                let cell = cells[c];
                proof {
                    assert(cell_sums(pixels@, grid, n as int, old_cells[c as int]));
                    lemma_where_bounds(
                        pixels@,
                        n as int,
                        in_cell(pixels@, grid, cell_key(cell)),
                        0,
                    );
                    lemma_packed_distinct(cell_key(cell), here);
                }
                let grown = GridCell {
                    gx: cell.gx,
                    gy: cell.gy,
                    count: cell.count + 1,
                    min_x: if p.x < cell.min_x {
                        p.x
                    } else {
                        cell.min_x
                    },
                    max_x: if p.x > cell.max_x {
                        p.x
                    } else {
                        cell.max_x
                    },
                    min_y: if p.y < cell.min_y {
                        p.y
                    } else {
                        cell.min_y
                    },
                    max_y: if p.y > cell.max_y {
                        p.y
                    } else {
                        cell.max_y
                    },
                };
                cells[c] = grown;
                proof {
                    home = home.push(c as int);
                    assert forall|d: int| 0 <= d < cells@.len() implies cell_sums(
                        pixels@,
                        grid,
                        n + 1,
                        #[trigger] cells@[d],
                    ) by {
                        assert(cell_sums(pixels@, grid, n as int, old_cells[d]));
                        let q = in_cell(pixels@, grid, cell_key(old_cells[d]));
                        if d != c {
                            assert(cell_key(old_cells[d]) != cell_key(old_cells[c as int]));
                            assert(!q(n as int));
                        } else {
                            assert(q(n as int));
                        }
                    }
                    assert forall|d: int| 0 <= d < cells@.len() implies lookup@.contains_key(
                        packed(cell_key(#[trigger] cells@[d])) as u64,
                    ) && lookup@[packed(cell_key(cells@[d])) as u64] == d by {
                        assert(cell_key(cells@[d]) == cell_key(old_cells[d]));
                    }
                    assert forall|k: u64| #[trigger] lookup@.contains_key(k) implies lookup@[k]
                        < cells@.len() && packed(cell_key(cells@[lookup@[k] as int])) == k by {
                        assert(cell_key(cells@[lookup@[k] as int]) == cell_key(
                            old_cells[lookup@[k] as int],
                        ));
                    }
                    assert forall|c1: int, d: int|
                        0 <= c1 < cells@.len() && 0 <= d < cells@.len() && c1 != d implies cell_key(
                        #[trigger] cells@[c1],
                    ) != cell_key(#[trigger] cells@[d]) by {
                        assert(cell_key(cells@[c1]) == cell_key(old_cells[c1]));
                        assert(cell_key(cells@[d]) == cell_key(old_cells[d]));
                    }
                    assert forall|j: int| 0 <= j < n + 1 implies 0 <= #[trigger] home[j]
                        < cells@.len() && cell_key(cells@[home[j]]) == cell_of(
                        pixels@[j],
                        grid,
                    ) by {
                        assert(cell_key(cells@[home[j]]) == cell_key(old_cells[home[j]]));
                    }
                }
            },
            None => {
                let ghost fresh = in_cell(pixels@, grid, here);
                proof {
                    assert forall|j: int| 0 <= j < n implies !#[trigger] fresh(j) by {
                        if fresh(j) {
                            let d = home[j];
                            assert(cell_key(old_cells[d]) == here);
                            assert(lookup@.contains_key(packed(cell_key(old_cells[d])) as u64));
                        }
                    }
                    lemma_none_where(pixels@, n as int, fresh);
                    assert(fresh(n as int));
                    assert forall|d: int| 0 <= d < old_cells.len() implies cell_key(
                        #[trigger] old_cells[d],
                    ) != here by {
                        assert(lookup@.contains_key(packed(cell_key(old_cells[d])) as u64));
                    }
                }
                let place: usize = cells.len();
                lookup.insert(key, place);
                cells.push(
                    GridCell {
                        gx,
                        gy,
                        count: 1,
                        min_x: p.x,
                        max_x: p.x,
                        min_y: p.y,
                        max_y: p.y,
                    },
                );
                proof {
                    home = home.push(place as int);
                    first = first.push(n as int);
                    assert forall|d: int| 0 <= d < cells@.len() implies cell_sums(
                        pixels@,
                        grid,
                        n + 1,
                        #[trigger] cells@[d],
                    ) by {
                        if d < place {
                            assert(cell_sums(pixels@, grid, n as int, old_cells[d]));
                            let q = in_cell(pixels@, grid, cell_key(old_cells[d]));
                            assert(cell_key(old_cells[d]) != here);
                            assert(!q(n as int));
                        } else {
                            assert(cell_key(cells@[d]) == here);
                            assert(count_where(n as int, fresh) == 0);
                            assert(least(pixels@, n as int, fresh, 0) == u32::MAX);
                            assert(least(pixels@, n as int, fresh, 1) == u32::MAX);
                            assert(greatest(pixels@, n as int, fresh, 0) == 0);
                            assert(greatest(pixels@, n as int, fresh, 1) == 0);
                            assert(count_where(n + 1, fresh) == 1);
                            assert(least(pixels@, n + 1, fresh, 0) == p.x);
                            assert(least(pixels@, n + 1, fresh, 1) == p.y);
                            assert(greatest(pixels@, n + 1, fresh, 0) == p.x);
                            assert(greatest(pixels@, n + 1, fresh, 1) == p.y);
                        }
                    }
                    assert forall|d: int| 0 <= d < cells@.len() implies lookup@.contains_key(
                        packed(cell_key(#[trigger] cells@[d])) as u64,
                    ) && lookup@[packed(cell_key(cells@[d])) as u64] == d by {
                        if d < place {
                            assert(cells@[d] == old_cells[d]);
                            lemma_packed_distinct(cell_key(old_cells[d]), here);
                        }
                    }
                    assert forall|k: u64| #[trigger] lookup@.contains_key(k) implies lookup@[k]
                        < cells@.len() && packed(cell_key(cells@[lookup@[k] as int])) == k by {
                        if k != key {
                            assert(cells@[lookup@[k] as int] == old_cells[lookup@[k] as int]);
                        }
                    }
                    assert forall|j: int| 0 <= j < n + 1 implies 0 <= #[trigger] home[j]
                        < cells@.len() && cell_key(cells@[home[j]]) == cell_of(
                        pixels@[j],
                        grid,
                    ) by {
                        if j < n {
                            assert(cells@[home[j]] == old_cells[home[j]]);
                        }
                    }
                    assert forall|c1: int, d: int|
                        0 <= c1 < cells@.len() && 0 <= d < cells@.len() && c1 != d implies cell_key(
                        #[trigger] cells@[c1],
                    ) != cell_key(#[trigger] cells@[d]) by {
                        if c1 < place {
                            assert(cells@[c1] == old_cells[c1]);
                        }
                        if d < place {
                            assert(cells@[d] == old_cells[d]);
                        }
                    }
                }
            },
        }
        n = n + 1;
    }
    (cells, Ghost(home), Ghost(first))
}

/// Packing is one to one on cells with 32-bit columns and rows.
pub proof fn lemma_packed_distinct(a: (int, int), b: (int, int))
    requires
        0 <= a.0 <= u32::MAX,
        0 <= a.1 <= u32::MAX,
        0 <= b.0 <= u32::MAX,
        0 <= b.1 <= u32::MAX,
    ensures
        0 <= packed(a) <= u64::MAX,
        packed(a) == packed(b) ==> a == b,
{
}

} // verus!
