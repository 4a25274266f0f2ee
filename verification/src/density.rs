//! Counting flagged pixels in boxes: the summed-area table and the clipped
//! window around a pixel.

use vstd::prelude::*;

verus! {

/// Half the side of the density window, in pixels: the window around a
/// pixel spans this many pixels in each direction, clipped to the image.
pub const WINDOW_RADIUS: u32 = 15;

/// Number of flagged pixels of row `y` in the columns from `x0` up to, not
/// including, `x1`.
pub open spec fn row_count(mask: Seq<bool>, width: int, y: int, x0: int, x1: int) -> int
    decreases x1 - x0,
{
    if x1 <= x0 {
        0
    } else {
        row_count(mask, width, y, x0, x1 - 1) + if mask[y * width + x1 - 1] {
            1int
        } else {
            0int
        }
    }
}

/// Number of flagged pixels in the box of columns `x0..x1` and rows
/// `y0..y1`.
pub open spec fn box_count(mask: Seq<bool>, width: int, x0: int, x1: int, y0: int, y1: int) -> int
    decreases y1 - y0,
{
    if y1 <= y0 {
        0
    } else {
        box_count(mask, width, x0, x1, y0, y1 - 1) + row_count(mask, width, y1 - 1, x0, x1)
    }
}

/// First column (or row) of the window around coordinate `c`.
pub open spec fn window_lo(c: int) -> int {
    if c >= WINDOW_RADIUS {
        c - WINDOW_RADIUS
    } else {
        0
    }
}

/// One past the last column (or row) of the window around coordinate `c` in
/// an image that is `extent` wide (or high).
pub open spec fn window_hi(c: int, extent: int) -> int {
    if c + WINDOW_RADIUS + 1 <= extent {
        c + WINDOW_RADIUS + 1
    } else {
        extent
    }
}

/// Number of flagged pixels in the window around pixel `(x, y)`.
pub open spec fn window_hits(mask: Seq<bool>, width: int, height: int, x: int, y: int) -> int {
    box_count(
        mask,
        width,
        window_lo(x),
        window_hi(x, width),
        window_lo(y),
        window_hi(y, height),
    )
}

/// Number of pixels in the window around pixel `(x, y)`.
pub open spec fn window_area(width: int, height: int, x: int, y: int) -> int {
    (window_hi(x, width) - window_lo(x)) * (window_hi(y, height) - window_lo(y))
}

/// Entry `(x, y)` of a table with `width + 1` columns stored row by row.
pub open spec fn table_at(table: Seq<u64>, width: int, x: int, y: int) -> int {
    table[y * (width + 1) + x] as int
}

/// The table holds, for every corner `(x, y)`, the number of flagged pixels
/// above and to the left of it.
pub open spec fn is_summed_area(table: Seq<u64>, mask: Seq<bool>, width: int, height: int) -> bool {
    &&& table.len() == (width + 1) * (height + 1)
    &&& forall|x: int, y: int|
        0 <= x <= width && 0 <= y <= height ==> #[trigger] table_at(table, width, x, y)
            == box_count(mask, width, 0, x, 0, y)
}

/// A row segment holds at most one flagged pixel per column.
pub proof fn lemma_row_count_bounds(mask: Seq<bool>, width: int, y: int, x0: int, x1: int)
    requires
        x0 <= x1,
    ensures
        0 <= row_count(mask, width, y, x0, x1) <= x1 - x0,
    decreases x1 - x0,
{
    if x1 > x0 {
        lemma_row_count_bounds(mask, width, y, x0, x1 - 1);
    }
}

/// A box holds at most as many flagged pixels as it has pixels.
pub proof fn lemma_box_count_bounds(
    mask: Seq<bool>,
    width: int,
    x0: int,
    x1: int,
    y0: int,
    y1: int,
)
    requires
        x0 <= x1,
        y0 <= y1,
    ensures
        0 <= box_count(mask, width, x0, x1, y0, y1) <= (x1 - x0) * (y1 - y0),
    decreases y1 - y0,
{
    if y1 > y0 {
        lemma_box_count_bounds(mask, width, x0, x1, y0, y1 - 1);
        lemma_row_count_bounds(mask, width, y1 - 1, x0, x1);
        assert((x1 - x0) * (y1 - 1 - y0) + (x1 - x0) == (x1 - x0) * (y1 - y0))
            by (nonlinear_arith);
    } else {
        assert((x1 - x0) * (y1 - y0) == 0) by (nonlinear_arith)
            requires
                y1 == y0,
        ;
    }
}

/// A row segment is the difference of two segments that start at column 0.
pub proof fn lemma_row_count_split(mask: Seq<bool>, width: int, y: int, x0: int, x1: int)
    requires
        0 <= x0 <= x1,
    ensures
        row_count(mask, width, y, x0, x1) == row_count(mask, width, y, 0, x1) - row_count(
            mask,
            width,
            y,
            0,
            x0,
        ),
    decreases x1 - x0,
{
    if x1 > x0 {
        lemma_row_count_split(mask, width, y, x0, x1 - 1);
    }
}

/// Inclusion and exclusion: a box is counted from the four boxes that start
/// at the origin and end at its corners.
pub proof fn lemma_box_count_corners(
    mask: Seq<bool>,
    width: int,
    x0: int,
    x1: int,
    y0: int,
    y1: int,
)
    requires
        0 <= x0 <= x1,
        0 <= y0 <= y1,
    ensures
        box_count(mask, width, x0, x1, y0, y1) == box_count(mask, width, 0, x1, 0, y1) - box_count(
            mask,
            width,
            0,
            x1,
            0,
            y0,
        ) - box_count(mask, width, 0, x0, 0, y1) + box_count(mask, width, 0, x0, 0, y0),
    decreases y1 - y0,
{
    if y1 > y0 {
        lemma_box_count_corners(mask, width, x0, x1, y0, y1 - 1);
        lemma_row_count_split(mask, width, y1 - 1, x0, x1);
    }
}

/// Extending a box from the origin by one column and one row.
pub proof fn lemma_box_count_step(mask: Seq<bool>, width: int, x: int, y: int)
    requires
        0 <= x,
        0 <= y,
    ensures
        box_count(mask, width, 0, x + 1, 0, y + 1) == (if mask[y * width + x] {
            1int
        } else {
            0int
        }) + box_count(mask, width, 0, x + 1, 0, y) + box_count(mask, width, 0, x, 0, y + 1)
            - box_count(mask, width, 0, x, 0, y),
{
    assert(box_count(mask, width, 0, x + 1, 0, y + 1) == box_count(mask, width, 0, x + 1, 0, y)
        + row_count(mask, width, y, 0, x + 1));
    assert(box_count(mask, width, 0, x, 0, y + 1) == box_count(mask, width, 0, x, 0, y)
        + row_count(mask, width, y, 0, x));
    assert(row_count(mask, width, y, 0, x + 1) == row_count(mask, width, y, 0, x) + if mask[y
        * width + x] {
        1int
    } else {
        0int
    });
}

/// A box without columns or without rows is empty.
pub proof fn lemma_box_count_empty(mask: Seq<bool>, width: int, x: int, y: int)
    requires
        0 <= y,
    ensures
        box_count(mask, width, 0, 0, 0, y) == 0,
        box_count(mask, width, 0, x, 0, 0) == 0,
    decreases y,
{
    if y > 0 {
        lemma_box_count_empty(mask, width, x, y - 1);
    }
}

/// The window around a pixel of the image is a box of at least one and at
/// most 31 columns and rows within the image, and it holds the pixel.
pub proof fn lemma_window_range(c: int, extent: int)
    requires
        0 <= c < extent,
    ensures
        0 <= window_lo(c) <= c < window_hi(c, extent) <= extent,
        window_hi(c, extent) - window_lo(c) <= 2 * WINDOW_RADIUS + 1,
{
}

/// Builds the summed-area table of a mask given by rows.
///
/// The table has one more column and one more row than the image; its first
/// row and first column are zero.
pub(crate) fn summed_area_table(rows: &Vec<Vec<bool>>, width: u32, height: u32, Ghost(mask): Ghost<
    Seq<bool>,
>) -> (table: Vec<u64>)
    requires
        width >= 1,
        height >= 1,
        4 * width * height <= usize::MAX,
        rows_of_mask(rows, mask, width as int, height as int),
    ensures
        is_summed_area(table@, mask, width as int, height as int),
{
    proof {
        lemma_table_fits(width as int, height as int, 0);
    }
    let iw: usize = width as usize + 1;
    let mut table: Vec<u64> = Vec::new();
    let mut x: usize = 0;
    while x < iw
        invariant
            x <= iw,
            iw == width + 1,
            table@.len() == x,
            forall|k: int| 0 <= k < x ==> table@[k] == 0,
        decreases iw - x,
    {
        table.push(0);
        x = x + 1;
    }
    proof {
        assert forall|xx: int, yy: int|
            0 <= xx <= width && 0 <= yy && yy * (width + 1) + xx < table@.len() implies #[trigger] table_at(
            table@,
            width as int,
            xx,
            yy,
        ) == box_count(mask, width as int, 0, xx, 0, yy) by {
            assert(yy == 0) by (nonlinear_arith)
                requires
                    0 <= xx,
                    0 <= yy,
                    yy * (width + 1) + xx < width + 1,
            ;
            lemma_box_count_empty(mask, width as int, xx, 0);
        }
    }
    let mut y: usize = 0;
    while y < height as usize
        invariant
            y <= height,
            width >= 1,
            height >= 1,
            iw == width + 1,
            4 * width * height <= usize::MAX,
            rows_of_mask(rows, mask, width as int, height as int),
            table@.len() == (y + 1) * iw,
            forall|xx: int, yy: int|
                0 <= xx <= width && 0 <= yy && yy * (width + 1) + xx < table@.len()
                    ==> #[trigger] table_at(table@, width as int, xx, yy) == box_count(
                    mask,
                    width as int,
                    0,
                    xx,
                    0,
                    yy,
                ),
        decreases height - y,
    {
        proof {
            lemma_table_fits(width as int, height as int, y as int);
        }
        let row = &rows[y];
        let ghost start = table@;
        table.push(0);
        proof {
            lemma_box_count_empty(mask, width as int, 0, y as int + 1);
            assert forall|xx: int, yy: int|
                0 <= xx <= width && 0 <= yy && yy * (width + 1) + xx < table@.len() implies #[trigger] table_at(
                table@,
                width as int,
                xx,
                yy,
            ) == box_count(mask, width as int, 0, xx, 0, yy) by {
                if yy * (width + 1) + xx < start.len() {
                    assert(table_at(start, width as int, xx, yy) == table_at(
                        table@,
                        width as int,
                        xx,
                        yy,
                    ));
                } else {
                    lemma_cell_unique(width as int, xx, yy, 0, y as int + 1);
                }
            }
        }
        let mut x: usize = 0;
        while x < width as usize
            invariant
                x <= width,
                y < height,
                width >= 1,
                height >= 1,
                iw == width + 1,
                4 * width * height <= usize::MAX,
                (y + 2) * iw <= usize::MAX,
                rows_of_mask(rows, mask, width as int, height as int),
                row@ == rows@[y as int]@,
                table@.len() == (y + 1) * iw + x + 1,
                forall|xx: int, yy: int|
                    0 <= xx <= width && 0 <= yy && yy * (width + 1) + xx < table@.len()
                        ==> #[trigger] table_at(table@, width as int, xx, yy) == box_count(
                        mask,
                        width as int,
                        0,
                        xx,
                        0,
                        yy,
                    ),
            decreases width - x,
        {
            proof {
                assert((y + 1) * iw + iw == (y + 2) * iw) by (nonlinear_arith);
                assert(0 <= (y + 1) * iw) by (nonlinear_arith);
            }
            let idx: usize = (y + 1) * iw + x + 1;
            let ghost prior = table@;
            proof {
                lemma_row_in_grid(width as int, height as int, x as int, y as int);
                lemma_cell_index(width as int, x as int, y as int);
                assert(table_at(prior, width as int, x as int, y as int + 1) == prior[idx - 1]);
                assert(table_at(prior, width as int, x as int + 1, y as int) == prior[idx - iw]);
                assert(table_at(prior, width as int, x as int, y as int) == prior[idx - iw - 1]);
                lemma_box_count_step(mask, width as int, x as int, y as int);
                lemma_box_count_bounds(mask, width as int, 0, x as int + 1, 0, y as int + 1);
                lemma_box_count_bounds(mask, width as int, 0, x as int, 0, y as int + 1);
                lemma_box_count_bounds(mask, width as int, 0, x as int + 1, 0, y as int);
                lemma_box_count_bounds(mask, width as int, 0, x as int, 0, y as int);
                assert((x + 1) * (y + 1) <= width * height) by (nonlinear_arith)
                    requires
                        x + 1 <= width,
                        y + 1 <= height,
                ;
                assert(rows@[y as int]@[x as int] == mask[y * width + x]);
                let beside = box_count(mask, width as int, 0, x as int, 0, y as int + 1);
                let above = box_count(mask, width as int, 0, x as int + 1, 0, y as int);
                assert(beside <= width * height) by (nonlinear_arith)
                    requires
                        beside <= (x - 0) * (y + 1 - 0),
                        0 <= x < width,
                        0 <= y < height,
                ;
                assert(above <= width * height) by (nonlinear_arith)
                    requires
                        above <= (x + 1 - 0) * (y - 0),
                        0 <= x < width,
                        0 <= y < height,
                ;
                assert(4 * width * height == 4 * (width * height)) by (nonlinear_arith);
            }
            let m: u64 = if row[x] {
                1
            } else {
                0
            };
            let left: u64 = table[idx - 1] as u64;
            let up: u64 = table[idx - iw] as u64;
            let diag: u64 = table[idx - iw - 1] as u64;
            let v: u64 = m + left + up - diag;
            table.push(v);
            proof {
                assert forall|xx: int, yy: int|
                    0 <= xx <= width && 0 <= yy && yy * (width + 1) + xx < table@.len() implies #[trigger] table_at(
                    table@,
                    width as int,
                    xx,
                    yy,
                ) == box_count(mask, width as int, 0, xx, 0, yy) by {
                    if yy * (width + 1) + xx < prior.len() {
                        assert(table_at(prior, width as int, xx, yy) == table_at(
                            table@,
                            width as int,
                            xx,
                            yy,
                        ));
                    } else {
                        lemma_cell_unique(width as int, xx, yy, x as int + 1, y as int + 1);
                    }
                }
            }
            x = x + 1;
        }
        proof {
            assert((y + 1) * iw + width + 1 == (y + 2) * iw) by (nonlinear_arith)
                requires
                    iw == width + 1,
            ;
        }
        y = y + 1;
    }
    proof {
        assert((height + 1) * iw == (width + 1) * (height + 1)) by (nonlinear_arith)
            requires
                iw == width + 1,
        ;
        assert forall|xx: int, yy: int| 0 <= xx <= width && 0 <= yy <= height implies #[trigger] table_at(
            table@,
            width as int,
            xx,
            yy,
        ) == box_count(mask, width as int, 0, xx, 0, yy) by {
            assert(yy * (width + 1) + xx < (height + 1) * (width + 1)) by (nonlinear_arith)
                requires
                    0 <= xx <= width,
                    0 <= yy <= height,
            ;
        }
    }
    table
}

/// The rows hold the mask: row `y` has `width` entries, and entry `x` of it
/// is the flag of pixel `(x, y)`.
pub open spec fn rows_of_mask(rows: &Vec<Vec<bool>>, mask: Seq<bool>, width: int, height: int) -> bool {
    &&& mask.len() == width * height
    &&& rows@.len() == height
    &&& forall|y: int| 0 <= y < height ==> (#[trigger] rows@[y])@.len() == width
    &&& forall|x: int, y: int|
        0 <= x < width && 0 <= y < height ==> #[trigger] rows@[y]@[x] == mask[y * width + x]
}

/// Pixel `(x, y)` has a row-major index within the image.
pub proof fn lemma_row_in_grid(width: int, height: int, x: int, y: int)
    requires
        0 <= x < width,
        0 <= y < height,
    ensures
        0 <= y * width + x < width * height,
{
    assert(0 <= y * width) by (nonlinear_arith)
        requires
            0 <= width,
            0 <= y,
    ;
    assert(y * width + width <= width * height) by (nonlinear_arith)
        requires
            0 <= width,
            y + 1 <= height,
    ;
}

/// The table rows up to row `y + 2` fit in memory.
proof fn lemma_table_fits(width: int, height: int, y: int)
    requires
        width >= 1,
        height >= 1,
        0 <= y < height,
    ensures
        (y + 2) * (width + 1) <= 4 * width * height,
        width + 1 <= 4 * width * height,
{
    assert(width + 1 <= 4 * width * height) by (nonlinear_arith)
        requires
            width >= 1,
            height >= 1,
    ;
    assert((y + 2) * (width + 1) <= (height + 1) * (width + 1)) by (nonlinear_arith)
        requires
            y + 2 <= height + 1,
            width >= 0,
    ;
    assert((height + 1) * (width + 1) <= 4 * width * height) by (nonlinear_arith)
        requires
            width >= 1,
            height >= 1,
    ;
}

/// Positions of the neighbours of cell `(x + 1, y + 1)` in the table.
proof fn lemma_cell_index(width: int, x: int, y: int)
    ensures
        (y + 1) * (width + 1) + x + 1 - 1 == (y + 1) * (width + 1) + x,
        (y + 1) * (width + 1) + x + 1 - (width + 1) == y * (width + 1) + (x + 1),
        (y + 1) * (width + 1) + x + 1 - (width + 1) - 1 == y * (width + 1) + x,
{
    assert((y + 1) * (width + 1) == y * (width + 1) + (width + 1)) by (nonlinear_arith);
}

/// Two cells at the same position of the table are the same cell.
proof fn lemma_cell_unique(width: int, x1: int, y1: int, x2: int, y2: int)
    requires
        0 <= x1 <= width,
        0 <= x2 <= width,
        0 <= y1,
        0 <= y2,
        y1 * (width + 1) + x1 == y2 * (width + 1) + x2,
    ensures
        x1 == x2,
        y1 == y2,
{
    assert(y1 == y2) by (nonlinear_arith)
        requires
            0 <= x1 <= width,
            0 <= x2 <= width,
            0 <= y1,
            0 <= y2,
            y1 * (width + 1) + x1 == y2 * (width + 1) + x2,
    ;
}

} // verus!
