//! Pixel coordinates, RGBA buffers and the row-major selection of flagged
//! pixels that both diff kernels report.

use vstd::prelude::*;

verus! {

/// Coordinate of a pixel flagged as differing.
#[derive(Clone, Copy, Debug, PartialEq, Eq, Structural)]
pub struct DiffPixel {
    pub x: u32,
    pub y: u32,
}

/// Absolute difference of two channel values.
pub open spec fn channel_gap(p: u8, q: u8) -> int {
    if p >= q {
        p - q
    } else {
        q - p
    }
}

/// Whether pixel `i` (row-major index) of the RGBA buffers `a` and `b`
/// counts as different: some colour channel differs by strictly more than
/// `threshold`. Alpha is not compared.
pub open spec fn pixel_differs(a: Seq<u8>, b: Seq<u8>, i: int, threshold: u8) -> bool {
    ||| channel_gap(a[4 * i], b[4 * i]) > threshold
    ||| channel_gap(a[4 * i + 1], b[4 * i + 1]) > threshold
    ||| channel_gap(a[4 * i + 2], b[4 * i + 2]) > threshold
}

/// The difference mask of the first `pixels` pixels of two RGBA buffers.
pub open spec fn diff_mask(a: Seq<u8>, b: Seq<u8>, pixels: int, threshold: u8) -> Seq<bool> {
    Seq::new(pixels as nat, |i: int| pixel_differs(a, b, i, threshold))
}

/// The flagged pixels of row `y` among the columns below `upto`, by
/// ascending column.
pub open spec fn row_selection(mask: Seq<bool>, width: int, y: int, upto: int) -> Seq<DiffPixel>
    decreases upto,
{
    if upto <= 0 {
        Seq::empty()
    } else {
        let before = row_selection(mask, width, y, upto - 1);
        if mask[y * width + upto - 1] {
            before.push(DiffPixel { x: (upto - 1) as u32, y: y as u32 })
        } else {
            before
        }
    }
}

/// The flagged pixels of the first `rows` rows in row-major order.
pub open spec fn selection(mask: Seq<bool>, width: int, rows: int) -> Seq<DiffPixel>
    decreases rows,
{
    if rows <= 0 {
        Seq::empty()
    } else {
        selection(mask, width, rows - 1) + row_selection(mask, width, rows - 1, width)
    }
}

/// Two buffers hold `width * height` RGBA pixels each. The last clause is
/// true of every buffer in memory.
pub open spec fn same_shape(a: Seq<u8>, b: Seq<u8>, width: u32, height: u32) -> bool {
    &&& a.len() == width * height * 4
    &&& b.len() == width * height * 4
    &&& width * height * 4 <= usize::MAX
}

/// Tests one pixel of two buffers against the threshold.
pub fn differs_at(a: &[u8], b: &[u8], i: usize, threshold: u8) -> (d: bool)
    requires
        4 * i + 3 < a.len(),
        a.len() == b.len(),
    ensures
        d == pixel_differs(a@, b@, i as int, threshold),
{
    let k: usize = 4 * i;
    gap(a[k], b[k]) > threshold || gap(a[k + 1], b[k + 1]) > threshold || gap(a[k + 2], b[k + 2])
        > threshold
}

fn gap(p: u8, q: u8) -> (g: u8)
    ensures
        g == channel_gap(p, q),
{
    if p >= q {
        p - q
    } else {
        q - p
    }
}

/// A row contributes nothing where the mask is clear on it.
pub proof fn lemma_row_selection_clear(mask: Seq<bool>, width: int, y: int, upto: int)
    requires
        forall|x: int| 0 <= x < upto ==> !#[trigger] mask[y * width + x],
    ensures
        row_selection(mask, width, y, upto) == Seq::<DiffPixel>::empty(),
    decreases upto,
{
    if upto > 0 {
        lemma_row_selection_clear(mask, width, y, upto - 1);
        assert(!mask[y * width + (upto - 1)]);
    }
}

/// Nothing is selected from a mask that is clear everywhere.
pub proof fn lemma_selection_clear(mask: Seq<bool>, width: int, rows: int)
    requires
        0 <= width,
        forall|i: int| 0 <= i < width * rows ==> !mask[i],
    ensures
        selection(mask, width, rows) == Seq::<DiffPixel>::empty(),
    decreases rows,
{
    if rows > 0 {
        assert(width * (rows - 1) <= width * rows) by (nonlinear_arith)
            requires
                0 <= width,
        ;
        lemma_selection_clear(mask, width, rows - 1);
        assert forall|x: int| 0 <= x < width implies !#[trigger] mask[(rows - 1) * width + x] by {
            assert((rows - 1) * width + x < width * rows) by (nonlinear_arith)
                requires
                    0 <= x < width,
            ;
            assert(0 <= (rows - 1) * width + x) by (nonlinear_arith)
                requires
                    0 <= x,
                    0 <= width,
                    rows >= 1,
            ;
        }
        lemma_row_selection_clear(mask, width, rows - 1, width);
    }
}

/// The threshold is exclusive. A pixel whose colour channels all differ by
/// no more than the threshold (by exactly the threshold, for instance) is
/// not flagged; a pixel with a channel that differs by the threshold plus
/// one is.
pub proof fn lemma_threshold_is_exclusive(a: Seq<u8>, b: Seq<u8>, i: int, threshold: u8)
    ensures
        channel_gap(a[4 * i], b[4 * i]) <= threshold && channel_gap(a[4 * i + 1], b[4 * i + 1])
            <= threshold && channel_gap(a[4 * i + 2], b[4 * i + 2]) <= threshold ==> !pixel_differs(
            a,
            b,
            i,
            threshold,
        ),
        channel_gap(a[4 * i], b[4 * i]) == threshold + 1 || channel_gap(a[4 * i + 1], b[4 * i + 1])
            == threshold + 1 || channel_gap(a[4 * i + 2], b[4 * i + 2]) == threshold + 1
            ==> pixel_differs(a, b, i, threshold),
{
}

/// Every pixel that a row selects lies in the row and is flagged.
pub proof fn lemma_row_selection_sound(mask: Seq<bool>, width: int, y: int, upto: int, k: int)
    requires
        0 <= upto <= u32::MAX,
        0 <= y <= u32::MAX,
        0 <= k < row_selection(mask, width, y, upto).len(),
    ensures
        row_selection(mask, width, y, upto)[k].y == y,
        row_selection(mask, width, y, upto)[k].x < upto,
        mask[y * width + row_selection(mask, width, y, upto)[k].x],
    decreases upto,
{
    let before = row_selection(mask, width, y, upto - 1);
    if k < before.len() {
        lemma_row_selection_sound(mask, width, y, upto - 1, k);
    }
}

/// Every pixel of the selection lies in the image and is flagged.
pub proof fn lemma_selection_sound(mask: Seq<bool>, width: int, rows: int, k: int)
    requires
        0 <= width <= u32::MAX,
        0 <= rows <= u32::MAX,
        0 <= k < selection(mask, width, rows).len(),
    ensures
        selection(mask, width, rows)[k].x < width,
        selection(mask, width, rows)[k].y < rows,
        mask[selection(mask, width, rows)[k].y * width + selection(mask, width, rows)[k].x],
    decreases rows,
{
    let before = selection(mask, width, rows - 1);
    if k < before.len() {
        lemma_selection_sound(mask, width, rows - 1, k);
    } else {
        lemma_row_selection_sound(mask, width, rows - 1, width, k - before.len());
    }
}

/// A row selects every flagged pixel below `upto`.
pub proof fn lemma_row_selection_complete(mask: Seq<bool>, width: int, y: int, upto: int, x: int)
    requires
        0 <= x < upto <= u32::MAX,
        0 <= y <= u32::MAX,
        mask[y * width + x],
    ensures
        row_selection(mask, width, y, upto).contains(DiffPixel { x: x as u32, y: y as u32 }),
    decreases upto,
{
    let now = row_selection(mask, width, y, upto);
    if x == upto - 1 {
        assert(now[now.len() - 1] == DiffPixel { x: x as u32, y: y as u32 });
    } else {
        lemma_row_selection_complete(mask, width, y, upto - 1, x);
        let before = row_selection(mask, width, y, upto - 1);
        let k = choose|k: int|
            0 <= k < before.len() && before[k] == DiffPixel { x: x as u32, y: y as u32 };
        assert(now[k] == before[k]);
    }
}

/// The selection holds every flagged pixel of the image.
pub proof fn lemma_selection_complete(mask: Seq<bool>, width: int, rows: int, x: int, y: int)
    requires
        0 <= x < width <= u32::MAX,
        0 <= y < rows <= u32::MAX,
        mask[y * width + x],
    ensures
        selection(mask, width, rows).contains(DiffPixel { x: x as u32, y: y as u32 }),
    decreases rows,
{
    let now = selection(mask, width, rows);
    let before = selection(mask, width, rows - 1);
    let row = row_selection(mask, width, rows - 1, width);
    let p = DiffPixel { x: x as u32, y: y as u32 };
    if y == rows - 1 {
        lemma_row_selection_complete(mask, width, y, width, x);
        let k = choose|k: int| 0 <= k < row.len() && row[k] == p;
        assert(now[before.len() + k] == p);
    } else {
        lemma_selection_complete(mask, width, rows - 1, x, y);
        let k = choose|k: int| 0 <= k < before.len() && before[k] == p;
        assert(now[k] == p);
    }
}

} // verus!
