//! The thresholded pixel diff: a red-on-black overlay and the list of
//! differing pixels.

use crate::parallel::par_map_index;
use crate::pixel::differs_at;
use crate::pixel::diff_mask;
use crate::pixel::row_selection;
use crate::pixel::same_shape;
use crate::pixel::selection;
use crate::pixel::DiffPixel;
use crate::region::saturated;
use vstd::prelude::*;

verus! {

/// Byte `k` of the overlay drawn from a mask: flagged pixels are opaque red,
/// all others opaque black.
pub open spec fn overlay_byte(mask: Seq<bool>, k: int) -> u8 {
    if k % 4 == 3 {
        255
    } else if k % 4 == 0 && mask[k / 4] {
        255
    } else {
        0
    }
}

/// The RGBA overlay drawn from a mask.
pub open spec fn overlay_of(mask: Seq<bool>) -> Seq<u8> {
    Seq::new(4 * mask.len(), |k: int| overlay_byte(mask, k))
}

/// Row `y` of the overlay.
pub open spec fn overlay_row(mask: Seq<bool>, width: int, y: int) -> Seq<u8> {
    Seq::new((4 * width) as nat, |k: int| overlay_byte(mask, 4 * width * y + k))
}

/// Overlay bytes, count and coordinates of the differing pixels of row `y`.
pub fn diff_row(a: &[u8], b: &[u8], width: u32, height: u32, y: u32, threshold: u8) -> (row: (
    Vec<u8>,
    u32,
    Vec<DiffPixel>,
))
    requires
        same_shape(a@, b@, width, height),
        y < height,
    ensures
        row.0@ == overlay_row(diff_mask(a@, b@, width * height, threshold), width as int, y as int),
        row.2@ == row_selection(
            diff_mask(a@, b@, width * height, threshold),
            width as int,
            y as int,
            width as int,
        ),
        row.1 == row.2@.len(),
{
    let ghost mask = diff_mask(a@, b@, width * height, threshold);
    let mut buf: Vec<u8> = Vec::new();
    let mut count: u32 = 0;
    let mut pixels: Vec<DiffPixel> = Vec::new();
    proof {
        lemma_row_in_bounds(width as int, height as int, y as int);
    }
    let base: usize = (y as usize) * (width as usize);
    let mut x: u32 = 0;
    while x < width
        invariant
            same_shape(a@, b@, width, height),
            y < height,
            x <= width,
            base == y * width,
            base + width <= width * height,
            width * height <= usize::MAX,
            mask == diff_mask(a@, b@, width * height, threshold),
            buf@ == Seq::new((4 * x) as nat, |k: int| overlay_byte(mask, 4 * width * y + k)),
            pixels@ == row_selection(mask, width as int, y as int, x as int),
            count == pixels@.len(),
            count <= x,
        decreases width - x,
    {
        let i: usize = base + x as usize;
        let d = differs_at(a, b, i, threshold);
        let ghost before = buf@;
        assert(4 * width * y + 4 * x == 4 * i) by (nonlinear_arith)
            requires
                i == y * width + x,
        ;
        assert(mask[i as int] == d);
        if d {
            buf.push(255);
            count = count + 1;
            pixels.push(DiffPixel { x, y });
        } else {
            buf.push(0);
        }
        buf.push(0);
        buf.push(0);
        buf.push(255);
        assert(buf@ == Seq::new((4 * (x + 1)) as nat, |k: int| overlay_byte(mask, 4 * width * y + k)))
            by {
            assert forall|k: int| 0 <= k < 4 * (x + 1) implies buf@[k] == overlay_byte(
                mask,
                4 * width * y + k,
            ) by {
                if k < 4 * x {
                    assert(buf@[k] == before[k]);
                } else {
                    assert((4 * i + (k - 4 * x)) % 4 == k - 4 * x);
                    assert((4 * i + (k - 4 * x)) / 4 == i);
                }
            }
        }
        x = x + 1;
    }
    (buf, count, pixels)
}

/// Compares two RGBA buffers of equal size pixel by pixel.
///
/// Returns the overlay (differing pixels opaque red on opaque black), the
/// number of differing pixels (the largest `u32` where there are more), and
/// their coordinates in row-major order. The
/// rows are computed in parallel and put together in row order.
pub fn diff_simple_core(a: &[u8], b: &[u8], width: u32, height: u32, threshold: u8) -> (out: (
    Vec<u8>,
    u32,
    Vec<DiffPixel>,
))
    requires
        same_shape(a@, b@, width, height),
    ensures
        out.0@ == overlay_of(diff_mask(a@, b@, width * height, threshold)),
        out.2@ == selection(
            diff_mask(a@, b@, width * height, threshold),
            width as int,
            height as int,
        ),
        out.1 == saturated(out.2@.len() as int),
{
    let ghost mask = diff_mask(a@, b@, width * height, threshold);
    let one_row = |y: usize| -> (row: (Vec<u8>, u32, Vec<DiffPixel>))
        requires
            y < height,
        ensures
            row.0@ == overlay_row(
                diff_mask(a@, b@, width * height, threshold),
                width as int,
                y as int,
            ),
            row.2@ == row_selection(
                diff_mask(a@, b@, width * height, threshold),
                width as int,
                y as int,
                width as int,
            ),
            row.1 == row.2@.len(),
        { diff_row(a, b, width, height, y as u32, threshold) };
    let rows = par_map_index(height as usize, one_row);
    let mut diff_buf: Vec<u8> = Vec::new();
    let mut total_count: u32 = 0;
    let mut all_pixels: Vec<DiffPixel> = Vec::new();
    let mut y: usize = 0;
    while y < height as usize
        invariant
            y <= height,
            mask.len() == width * height,
            rows@.len() == height,
            forall|r: int|
                0 <= r < height ==> {
                    &&& (#[trigger] rows@[r]).0@ == overlay_row(mask, width as int, r)
                    &&& rows@[r].2@ == row_selection(mask, width as int, r, width as int)
                    &&& rows@[r].1 == rows@[r].2@.len()
                },
            diff_buf@ == Seq::new((4 * width * y) as nat, |k: int| overlay_byte(mask, k)),
            all_pixels@ == selection(mask, width as int, y as int),
            total_count == saturated(all_pixels@.len() as int),
        decreases height - y,
    {
        let row = &rows[y];
        proof {
            lemma_row_in_bounds(width as int, height as int, y as int);
            lemma_row_selection_len(mask, width as int, y as int, width as int);
            assert(4 * width * y + 4 * width == 4 * width * (y + 1)) by (nonlinear_arith);
            assert(y * width + width == (y + 1) * width) by (nonlinear_arith);
        }
        let ghost before = diff_buf@;
        diff_buf.extend_from_slice(row.0.as_slice());
        total_count = total_count.saturating_add(row.1);
        all_pixels.extend_from_slice(row.2.as_slice());
        proof {
            assert forall|k: int| 0 <= k < 4 * width * (y + 1) implies diff_buf@[k] == overlay_byte(
                mask,
                k,
            ) by {
                if k < 4 * width * y {
                    assert(diff_buf@[k] == before[k]);
                } else {
                    let j = k - 4 * width * y;
                    assert(rows@[y as int].0@[j] == overlay_byte(mask, 4 * width * y + j));
                    assert(cloned::<u8>(row.0@[j], diff_buf@[k]));
                }
            }
            assert(diff_buf@ =~= Seq::new(
                (4 * width * (y + 1)) as nat,
                |k: int| overlay_byte(mask, k),
            ));
            assert forall|k: int| 0 <= k < row.2@.len() implies all_pixels@[all_pixels@.len()
                - row.2@.len() + k] == row.2@[k] by {
                assert(cloned::<DiffPixel>(
                    row.2@[k],
                    all_pixels@[all_pixels@.len() - row.2@.len() + k],
                ));
            }
            assert(all_pixels@ =~= selection(mask, width as int, y as int) + row_selection(
                mask,
                width as int,
                y as int,
                width as int,
            ));
        }
        y = y + 1;
    }
    proof {
        assert(4 * width * height == 4 * mask.len()) by (nonlinear_arith)
            requires
                mask.len() == width * height,
        ;
        assert(diff_buf@ =~= overlay_of(mask));
    }
    (diff_buf, total_count, all_pixels)
}

/// A row selects at most one pixel per column.
pub proof fn lemma_row_selection_len(mask: Seq<bool>, width: int, y: int, upto: int)
    requires
        0 <= upto,
    ensures
        row_selection(mask, width, y, upto).len() <= upto,
    decreases upto,
{
    if upto > 0 {
        lemma_row_selection_len(mask, width, y, upto - 1);
    }
}

/// Row `y` of a `width` by `height` grid lies within the grid.
pub proof fn lemma_row_in_bounds(width: int, height: int, y: int)
    requires
        0 <= width,
        0 <= y < height,
    ensures
        0 <= y * width,
        y * width + width <= width * height,
{
    assert(0 <= y * width) by (nonlinear_arith)
        requires
            0 <= width,
            0 <= y,
    ;
    assert(y * width + width <= width * height) by (nonlinear_arith)
        requires
            0 <= width,
            y + 1 <= height,
    ;
}

} // verus!
