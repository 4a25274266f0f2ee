//! The density heatmap diff.
//!
//! The difference mask of two images is turned into a density field (the
//! fraction of flagged pixels in the window around each pixel), the field is
//! normalised by its peak, and flagged pixels are coloured by their
//! normalised density. Only the pixels of the top band are reported.

use crate::density::box_count;
use crate::density::is_summed_area;
use crate::density::lemma_box_count_bounds;
use crate::density::lemma_box_count_corners;
use crate::density::lemma_row_in_grid;
use crate::density::lemma_window_range;
use crate::density::summed_area_table;
use crate::density::table_at;
use crate::density::window_area;
use crate::density::window_hi;
use crate::density::window_hits;
use crate::density::window_lo;
use crate::density::WINDOW_RADIUS;
use crate::heat::denser;
use crate::heat::heat_channel;
use crate::heat::heat_pixel;
use crate::heat::is_hot;
use crate::heat::norm_den;
use crate::heat::norm_num;
use crate::heat::shown;
use crate::heat::top_band;
use crate::heat::lemma_fraction_order;
use crate::heat::lemma_quotient_below;
use crate::heat::lemma_red_marks_hot;
use crate::heat::WINDOW_MAX_AREA;
use crate::parallel::par_map_index;
use crate::pixel::differs_at;
use crate::pixel::diff_mask;
use crate::pixel::lemma_selection_clear;
use crate::pixel::lemma_selection_complete;
use crate::pixel::lemma_selection_sound;
use crate::pixel::row_selection;
use crate::pixel::same_shape;
use crate::pixel::selection;
use crate::pixel::DiffPixel;
use crate::region::saturated;
use crate::simple::lemma_row_in_bounds;
use crate::simple::lemma_row_selection_len;
use vstd::arithmetic::div_mod::lemma_fundamental_div_mod;
use vstd::arithmetic::div_mod::lemma_fundamental_div_mod_converse;
use vstd::prelude::*;

verus! {

/// The greatest density among the first `upto` pixels of row `y`, as hits
/// and area; `(0, 1)` where no window holds a flagged pixel. Of equal
/// densities the first one met stands.
pub open spec fn row_peak(mask: Seq<bool>, width: int, height: int, y: int, upto: int) -> (
    int,
    int,
)
    decreases upto,
{
    if upto <= 0 {
        (0, 1)
    } else {
        let before = row_peak(mask, width, height, y, upto - 1);
        let hits = window_hits(mask, width, height, upto - 1, y);
        let area = window_area(width, height, upto - 1, y);
        if denser(hits, area, before.0, before.1) {
            (hits, area)
        } else {
            before
        }
    }
}

/// The greatest density among the pixels of the first `rows` rows.
pub open spec fn peak(mask: Seq<bool>, width: int, height: int, rows: int) -> (int, int)
    decreases rows,
{
    if rows <= 0 {
        (0, 1)
    } else {
        let before = peak(mask, width, height, rows - 1);
        let row = row_peak(mask, width, height, rows - 1, width);
        if denser(row.0, row.1, before.0, before.1) {
            row
        } else {
            before
        }
    }
}

/// Whether pixel `(x, y)` is hot: flagged, denser than one twentieth, and
/// at least three fifths as dense as the densest pixel of the image.
pub open spec fn hot_at(mask: Seq<bool>, width: int, height: int, x: int, y: int) -> bool {
    is_hot(
        mask[y * width + x],
        window_hits(mask, width, height, x, y),
        window_area(width, height, x, y),
        peak(mask, width, height, height).0,
        peak(mask, width, height, height).1,
    )
}

/// The mask of the hot pixels.
pub open spec fn hot_mask(mask: Seq<bool>, width: int, height: int) -> Seq<bool> {
    Seq::new((width * height) as nat, |i: int| hot_at(mask, width, height, i % width, i / width))
}

/// Byte `c` of pixel `(x, y)` of the heatmap.
pub open spec fn heat_byte(mask: Seq<bool>, width: int, height: int, x: int, y: int, c: int) -> int {
    heat_channel(
        mask[y * width + x],
        window_hits(mask, width, height, x, y),
        window_area(width, height, x, y),
        peak(mask, width, height, height).0,
        peak(mask, width, height, height).1,
        c,
    )
}

/// The RGBA heatmap of a mask.
pub open spec fn heat_overlay(mask: Seq<bool>, width: int, height: int) -> Seq<u8> {
    Seq::new(
        (4 * width * height) as nat,
        |k: int| heat_byte(mask, width, height, (k / 4) % width, (k / 4) / width, k % 4) as u8,
    )
}

/// Column and row of a row-major index.
pub proof fn lemma_index_to_cell(width: int, x: int, y: int)
    requires
        0 <= x < width,
        0 <= y,
    ensures
        (y * width + x) % width == x,
        (y * width + x) / width == y,
{
    assert(y * width + x == width * y + x) by (nonlinear_arith);
    lemma_fundamental_div_mod_converse(y * width + x, width, y, x);
}

/// The window of a pixel holds between 1 and 961 pixels, and no more
/// flagged pixels than pixels.
pub proof fn lemma_window_bounds(mask: Seq<bool>, width: int, height: int, x: int, y: int)
    requires
        0 <= x < width,
        0 <= y < height,
    ensures
        1 <= window_area(width, height, x, y) <= WINDOW_MAX_AREA,
        0 <= window_hits(mask, width, height, x, y) <= window_area(width, height, x, y),
{
    lemma_window_range(x, width);
    lemma_window_range(y, height);
    let dx = window_hi(x, width) - window_lo(x);
    let dy = window_hi(y, height) - window_lo(y);
    assert(1 <= dx * dy <= 961) by (nonlinear_arith)
        requires
            1 <= dx <= 31,
            1 <= dy <= 31,
    ;
    lemma_box_count_bounds(
        mask,
        width,
        window_lo(x),
        window_hi(x, width),
        window_lo(y),
        window_hi(y, height),
    );
}

/// The peak of a row is a density of at most 1 that no pixel of the row
/// exceeds.
pub proof fn lemma_row_peak_bounds(mask: Seq<bool>, width: int, height: int, y: int, upto: int)
    requires
        0 <= upto <= width,
        0 <= y < height,
    ensures
        0 <= row_peak(mask, width, height, y, upto).0 <= row_peak(mask, width, height, y, upto).1,
        1 <= row_peak(mask, width, height, y, upto).1 <= WINDOW_MAX_AREA,
        forall|x: int|
            0 <= x < upto ==> #[trigger] window_hits(mask, width, height, x, y) * row_peak(
                mask,
                width,
                height,
                y,
                upto,
            ).1 <= row_peak(mask, width, height, y, upto).0 * window_area(width, height, x, y),
    decreases upto,
{
    if upto > 0 {
        lemma_row_peak_bounds(mask, width, height, y, upto - 1);
        lemma_window_bounds(mask, width, height, upto - 1, y);
        let before = row_peak(mask, width, height, y, upto - 1);
        let now = row_peak(mask, width, height, y, upto);
        let hits = window_hits(mask, width, height, upto - 1, y);
        let area = window_area(width, height, upto - 1, y);
        assert forall|x: int| 0 <= x < upto implies #[trigger] window_hits(
            mask,
            width,
            height,
            x,
            y,
        ) * now.1 <= now.0 * window_area(width, height, x, y) by {
            let hx = window_hits(mask, width, height, x, y);
            let ax = window_area(width, height, x, y);
            lemma_window_bounds(mask, width, height, x, y);
            if x == upto - 1 {
                if denser(hits, area, before.0, before.1) {
                    assert(hits * area == area * hits) by (nonlinear_arith);
                } else {
                    assert(hx * before.1 <= before.0 * ax);
                }
            } else {
                assert(hx * before.1 <= before.0 * ax);
                if denser(hits, area, before.0, before.1) {
                    assert(before.0 * area <= hits * before.1);
                    lemma_fraction_order(hx, ax, before.0, before.1, hits, area);
                    assert(hx * area <= hits * ax);
                }
            }
        }
    }
}

/// The peak of the image is a density of at most 1 that no pixel exceeds.
pub proof fn lemma_peak_bounds(mask: Seq<bool>, width: int, height: int, rows: int)
    requires
        0 <= width,
        0 <= rows <= height,
    ensures
        0 <= peak(mask, width, height, rows).0 <= peak(mask, width, height, rows).1,
        1 <= peak(mask, width, height, rows).1 <= WINDOW_MAX_AREA,
        forall|x: int, y: int|
            0 <= x < width && 0 <= y < rows ==> #[trigger] window_hits(mask, width, height, x, y)
                * peak(mask, width, height, rows).1 <= peak(mask, width, height, rows).0
                * window_area(width, height, x, y),
    decreases rows,
{
    if rows > 0 {
        lemma_peak_bounds(mask, width, height, rows - 1);
        lemma_row_peak_bounds(mask, width, height, rows - 1, width);
        let before = peak(mask, width, height, rows - 1);
        let row = row_peak(mask, width, height, rows - 1, width);
        let now = peak(mask, width, height, rows);
        assert forall|x: int, y: int| 0 <= x < width && 0 <= y < rows implies #[trigger] window_hits(
            mask,
            width,
            height,
            x,
            y,
        ) * now.1 <= now.0 * window_area(width, height, x, y) by {
            let hx = window_hits(mask, width, height, x, y);
            let ax = window_area(width, height, x, y);
            lemma_window_bounds(mask, width, height, x, y);
            if y == rows - 1 {
                assert(hx * row.1 <= row.0 * ax);
                if !denser(row.0, row.1, before.0, before.1) {
                    assert(row.0 * before.1 <= before.0 * row.1);
                    lemma_fraction_order(hx, ax, row.0, row.1, before.0, before.1);
                }
            } else {
                assert(hx * before.1 <= before.0 * ax);
                if denser(row.0, row.1, before.0, before.1) {
                    assert(before.0 * row.1 <= row.0 * before.1);
                    lemma_fraction_order(hx, ax, before.0, before.1, row.0, row.1);
                }
            }
        }
    }
}

/// The difference flags of row `y`.
pub(crate) fn mask_row(a: &[u8], b: &[u8], width: u32, height: u32, y: u32, threshold: u8) -> (row:
    Vec<bool>)
    requires
        same_shape(a@, b@, width, height),
        y < height,
    ensures
        row@.len() == width,
        forall|x: int|
            0 <= x < width ==> #[trigger] row@[x] == diff_mask(
                a@,
                b@,
                width * height,
                threshold,
            )[y * width + x],
{
    let mut row: Vec<bool> = Vec::new();
    proof {
        lemma_row_in_bounds(width as int, height as int, y as int);
    }
    let base: usize = (y as usize) * (width as usize);
    let mut x: u32 = 0;
    while x < width
        invariant
            same_shape(a@, b@, width, height),
            y < height,
            x <= width,
            base == y * width,
            base + width <= width * height,
            row@.len() == x,
            forall|c: int|
                0 <= c < x ==> #[trigger] row@[c] == diff_mask(
                    a@,
                    b@,
                    width * height,
                    threshold,
                )[y * width + c],
        decreases width - x,
    {
        let d = differs_at(a, b, base + x as usize, threshold);
        row.push(d);
        x = x + 1;
    }
    row
}

/// The hits of every window of row `y`, read from the summed-area table,
/// and the peak of the row.
pub(crate) fn density_row(
    table: &Vec<u64>,
    width: u32,
    height: u32,
    y: u32,
    Ghost(mask): Ghost<Seq<bool>>,
) -> (row: (Vec<u32>, u32, u32))
    requires
        4 * width * height <= usize::MAX,
        y < height,
        is_summed_area(table@, mask, width as int, height as int),
    ensures
        row.0@.len() == width,
        forall|x: int|
            0 <= x < width ==> #[trigger] row.0@[x] == window_hits(
                mask,
                width as int,
                height as int,
                x,
                y as int,
            ),
        row.1 == row_peak(mask, width as int, height as int, y as int, width as int).0,
        row.2 == row_peak(mask, width as int, height as int, y as int, width as int).1,
{
    let mut hits_row: Vec<u32> = Vec::new();
    let mut peak_hits: u32 = 0;
    let mut peak_area: u32 = 1;
    let y0: usize = if y >= WINDOW_RADIUS {
        (y - WINDOW_RADIUS) as usize
    } else {
        0
    };
    let y1: usize = if height - y > WINDOW_RADIUS {
        (y + WINDOW_RADIUS + 1) as usize
    } else {
        height as usize
    };
    assert(table@.len() == table.len());
    proof {
        assert(width + 1 <= (width + 1) * (height + 1)) by (nonlinear_arith)
            requires
                width >= 0,
                height >= 0,
        ;
    }
    let iw: usize = width as usize + 1;
    proof {
        lemma_window_range(y as int, height as int);
        assert(y1 * iw + width < (width + 1) * (height + 1)) by (nonlinear_arith)
            requires
                y1 <= height,
                iw == width + 1,
                width >= 0,
        ;
        assert(y0 * iw <= y1 * iw) by (nonlinear_arith)
            requires
                y0 <= y1,
                iw >= 0,
        ;
    }
    let mut x: u32 = 0;
    while x < width
        invariant
            x <= width,
            y < height,
            4 * width * height <= usize::MAX,
            iw == width + 1,
            y0 == window_lo(y as int),
            y1 == window_hi(y as int, height as int),
            y0 < y1 <= height,
            y1 - y0 <= 31,
            0 <= y0 * iw <= y1 * iw,
            y1 * iw + width < (width + 1) * (height + 1),
            (width + 1) * (height + 1) <= usize::MAX,
            is_summed_area(table@, mask, width as int, height as int),
            hits_row@.len() == x,
            forall|c: int|
                0 <= c < x ==> #[trigger] hits_row@[c] == window_hits(
                    mask,
                    width as int,
                    height as int,
                    c,
                    y as int,
                ),
            peak_hits == row_peak(mask, width as int, height as int, y as int, x as int).0,
            peak_area == row_peak(mask, width as int, height as int, y as int, x as int).1,
        decreases width - x,
    {
        let x0: usize = if x >= WINDOW_RADIUS {
            (x - WINDOW_RADIUS) as usize
        } else {
            0
        };
        let x1: usize = if width - x > WINDOW_RADIUS {
            (x + WINDOW_RADIUS + 1) as usize
        } else {
            width as usize
        };
        proof {
            lemma_window_range(x as int, width as int);
            lemma_window_bounds(mask, width as int, height as int, x as int, y as int);
            lemma_row_peak_bounds(mask, width as int, height as int, y as int, x as int);
            lemma_box_count_corners(mask, width as int, x0 as int, x1 as int, y0 as int, y1 as int);
            lemma_box_count_bounds(mask, width as int, 0, x1 as int, 0, y1 as int);
            lemma_box_count_bounds(mask, width as int, 0, x0 as int, 0, y1 as int);
            lemma_box_count_bounds(mask, width as int, 0, x1 as int, 0, y0 as int);
            lemma_box_count_bounds(mask, width as int, 0, x0 as int, 0, y0 as int);
            let whole = box_count(mask, width as int, 0, x1 as int, 0, y1 as int);
            let corner = box_count(mask, width as int, 0, x0 as int, 0, y0 as int);
            assert(whole <= width * height) by (nonlinear_arith)
                requires
                    whole <= (x1 - 0) * (y1 - 0),
                    0 <= x1 <= width,
                    0 <= y1 <= height,
            ;
            assert(corner <= width * height) by (nonlinear_arith)
                requires
                    corner <= (x0 - 0) * (y0 - 0),
                    0 <= x0 <= width,
                    0 <= y0 <= height,
            ;
            assert(4 * width * height == 4 * (width * height)) by (nonlinear_arith);
            assert(table_at(table@, width as int, x1 as int, y1 as int) == table@[y1 * iw + x1]);
            assert(table_at(table@, width as int, x0 as int, y1 as int) == table@[y1 * iw + x0]);
            assert(table_at(table@, width as int, x1 as int, y0 as int) == table@[y0 * iw + x1]);
            assert(table_at(table@, width as int, x0 as int, y0 as int) == table@[y0 * iw + x0]);
        }
        let far: u64 = table[y1 * iw + x1] as u64;
        let right: u64 = table[y0 * iw + x1] as u64;
        let below: u64 = table[y1 * iw + x0] as u64;
        let near: u64 = table[y0 * iw + x0] as u64;
        let hits: u32 = (far + near - right - below) as u32;
        let span_x: u32 = (x1 - x0) as u32;
        let span_y: u32 = (y1 - y0) as u32;
        assert(span_x * span_y <= 961) by (nonlinear_arith)
            requires
                span_x <= 31,
                span_y <= 31,
        ;
        let area: u32 = span_x * span_y;
        assert(hits * peak_area <= 961 * 961 && peak_hits * area <= 961 * 961) by (nonlinear_arith)
            requires
                hits <= 961,
                peak_area <= 961,
                peak_hits <= 961,
                area <= 961,
        ;
        if (hits as u64) * (peak_area as u64) > (peak_hits as u64) * (area as u64) {
            peak_hits = hits;
            peak_area = area;
        }
        hits_row.push(hits);
        x = x + 1;
    }
    (hits_row, peak_hits, peak_area)
}

/// Heatmap bytes, count and coordinates of the hot pixels of row `y`.
pub(crate) fn heat_row(
    flags: &Vec<bool>,
    hits: &Vec<u32>,
    peak_hits: u32,
    peak_area: u32,
    width: u32,
    height: u32,
    y: u32,
    Ghost(mask): Ghost<Seq<bool>>,
) -> (row: (Vec<u8>, u32, Vec<DiffPixel>))
    requires
        y < height,
        4 * width * height <= usize::MAX,
        mask.len() == width * height,
        flags@.len() == width,
        hits@.len() == width,
        forall|x: int| 0 <= x < width ==> #[trigger] flags@[x] == mask[y * width + x],
        forall|x: int|
            0 <= x < width ==> #[trigger] hits@[x] == window_hits(
                mask,
                width as int,
                height as int,
                x,
                y as int,
            ),
        peak_hits == peak(mask, width as int, height as int, height as int).0,
        peak_area == peak(mask, width as int, height as int, height as int).1,
    ensures
        row.0@.len() == 4 * width,
        forall|x: int, c: int|
            0 <= x < width && 0 <= c < 4 ==> #[trigger] row.0@[4 * x + c] == heat_byte(
                mask,
                width as int,
                height as int,
                x,
                y as int,
                c,
            ),
        row.2@ == row_selection(
            hot_mask(mask, width as int, height as int),
            width as int,
            y as int,
            width as int,
        ),
        row.1 == row.2@.len(),
{
    let ghost hot = hot_mask(mask, width as int, height as int);
    let mut buf: Vec<u8> = Vec::new();
    let mut count: u32 = 0;
    let mut pixels: Vec<DiffPixel> = Vec::new();
    let y0: u32 = if y >= WINDOW_RADIUS {
        y - WINDOW_RADIUS
    } else {
        0
    };
    let y1: u32 = if height - y > WINDOW_RADIUS {
        y + WINDOW_RADIUS + 1
    } else {
        height
    };
    proof {
        lemma_window_range(y as int, height as int);
    }
    let mut x: u32 = 0;
    while x < width
        invariant
            x <= width,
            y < height,
            4 * width * height <= usize::MAX,
            mask.len() == width * height,
            hot == hot_mask(mask, width as int, height as int),
            flags@.len() == width,
            hits@.len() == width,
            forall|c: int| 0 <= c < width ==> #[trigger] flags@[c] == mask[y * width + c],
            forall|c: int|
                0 <= c < width ==> #[trigger] hits@[c] == window_hits(
                    mask,
                    width as int,
                    height as int,
                    c,
                    y as int,
                ),
            peak_hits == peak(mask, width as int, height as int, height as int).0,
            peak_area == peak(mask, width as int, height as int, height as int).1,
            y0 == window_lo(y as int),
            y1 == window_hi(y as int, height as int),
            y0 < y1,
            y1 - y0 <= 31,
            buf@.len() == 4 * x,
            forall|xx: int, c: int|
                0 <= xx < x && 0 <= c < 4 ==> #[trigger] buf@[4 * xx + c] == heat_byte(
                    mask,
                    width as int,
                    height as int,
                    xx,
                    y as int,
                    c,
                ),
            pixels@ == row_selection(hot, width as int, y as int, x as int),
            count == pixels@.len(),
            count <= x,
        decreases width - x,
    {
        let x0: u32 = if x >= WINDOW_RADIUS {
            x - WINDOW_RADIUS
        } else {
            0
        };
        let x1: u32 = if width - x > WINDOW_RADIUS {
            x + WINDOW_RADIUS + 1
        } else {
            width
        };
        proof {
            lemma_window_range(x as int, width as int);
            lemma_window_bounds(mask, width as int, height as int, x as int, y as int);
            lemma_peak_bounds(mask, width as int, height as int, height as int);
            lemma_row_in_grid(width as int, height as int, x as int, y as int);
            lemma_index_to_cell(width as int, x as int, y as int);
            assert((x1 - x0) * (y1 - y0) <= 961) by (nonlinear_arith)
                requires
                    0 <= x1 - x0 <= 31,
                    0 <= y1 - y0 <= 31,
            ;
        }
        let area: u32 = (x1 - x0) * (y1 - y0);
        let flag = flags[x as usize];
        let h = hits[x as usize];
        assert(h == window_hits(mask, width as int, height as int, x as int, y as int));
        let px = heat_pixel(flag, h, area, peak_hits, peak_area);
        let ghost before = buf@;
        buf.push(px.0);
        buf.push(px.1);
        buf.push(px.2);
        buf.push(255);
        if px.3 {
            count = count + 1;
            pixels.push(DiffPixel { x, y });
        }
        proof {
            assert(hot[y * width + x] == hot_at(
                mask,
                width as int,
                height as int,
                x as int,
                y as int,
            ));
            assert forall|xx: int, c: int| 0 <= xx < x + 1 && 0 <= c < 4 implies #[trigger] buf@[4
                * xx + c] == heat_byte(mask, width as int, height as int, xx, y as int, c) by {
                if xx < x {
                    assert(buf@[4 * xx + c] == before[4 * xx + c]);
                }
            }
        }
        x = x + 1;
    }
    (buf, count, pixels)
}

/// Compares two RGBA buffers of equal size and draws the density heatmap of
/// their differences.
///
/// Returns the heatmap, the number of hot pixels (the largest `u32` where
/// there are more), and their coordinates in row-major order. The mask, the densities and the colours are computed by
/// rows in parallel; the summed-area table between them is built in one
/// sequential pass.
pub fn diff_heatmap_core(a: &[u8], b: &[u8], width: u32, height: u32, threshold: u8) -> (out: (
    Vec<u8>,
    u32,
    Vec<DiffPixel>,
))
    requires
        same_shape(a@, b@, width, height),
    ensures
        out.0@ == heat_overlay(
            diff_mask(a@, b@, width * height, threshold),
            width as int,
            height as int,
        ),
        out.2@ == selection(
            hot_mask(diff_mask(a@, b@, width * height, threshold), width as int, height as int),
            width as int,
            height as int,
        ),
        out.1 == saturated(out.2@.len() as int),
{
    let mask: Ghost<Seq<bool>> = Ghost(diff_mask(a@, b@, width * height, threshold));
    let ghost hot = hot_mask(mask@, width as int, height as int);
    if width == 0 || height == 0 {
        proof {
            assert(width * height == 0) by (nonlinear_arith)
                requires
                    width == 0 || height == 0,
            ;
            assert(4 * width * height == 0) by (nonlinear_arith)
                requires
                    width == 0 || height == 0,
            ;
            lemma_selection_clear(hot, width as int, height as int);
            assert(heat_overlay(mask@, width as int, height as int) =~= Seq::<u8>::empty());
        }
        return (Vec::new(), 0, Vec::new());
    }
    let flags_of = |y: usize| -> (row: Vec<bool>)
        requires
            y < height,
        ensures
            row@.len() == width,
            forall|x: int|
                0 <= x < width ==> #[trigger] row@[x] == diff_mask(
                    a@,
                    b@,
                    width * height,
                    threshold,
                )[y * width + x],
        { mask_row(a, b, width, height, y as u32, threshold) };
    let mask_rows = par_map_index(height as usize, flags_of);
    proof {
        assert forall|x: int, y: int| 0 <= x < width && 0 <= y < height implies #[trigger] mask_rows@[y]@[x]
            == mask@[y * width + x] by {
            assert(call_ensures(flags_of, (y as usize,), mask_rows@[y]));
        }
        assert forall|y: int| 0 <= y < height implies (#[trigger] mask_rows@[y])@.len()
            == width by {
            assert(call_ensures(flags_of, (y as usize,), mask_rows@[y]));
        }
        assert(4 * width * height == width * height * 4) by (nonlinear_arith);
    }
    let table = summed_area_table(&mask_rows, width, height, mask);
    let hits_of = |y: usize| -> (row: (Vec<u32>, u32, u32))
        requires
            y < height,
        ensures
            row.0@.len() == width,
            forall|x: int|
                0 <= x < width ==> #[trigger] row.0@[x] == window_hits(
                    mask@,
                    width as int,
                    height as int,
                    x,
                    y as int,
                ),
            row.1 == row_peak(mask@, width as int, height as int, y as int, width as int).0,
            row.2 == row_peak(mask@, width as int, height as int, y as int, width as int).1,
        { density_row(&table, width, height, y as u32, mask) };
    let density = par_map_index(height as usize, hits_of);
    let mut peak_hits: u32 = 0;
    let mut peak_area: u32 = 1;
    let mut y: usize = 0;
    while y < height as usize
        invariant
            y <= height,
            density@.len() == height,
            forall|r: int|
                0 <= r < height ==> {
                    &&& (#[trigger] density@[r]).1 == row_peak(
                        mask@,
                        width as int,
                        height as int,
                        r,
                        width as int,
                    ).0
                    &&& density@[r].2 == row_peak(
                        mask@,
                        width as int,
                        height as int,
                        r,
                        width as int,
                    ).1
                },
            peak_hits == peak(mask@, width as int, height as int, y as int).0,
            peak_area == peak(mask@, width as int, height as int, y as int).1,
        decreases height - y,
    {
        let row_hits: u32 = density[y].1;
        let row_area: u32 = density[y].2;
        proof {
            lemma_row_peak_bounds(mask@, width as int, height as int, y as int, width as int);
            lemma_peak_bounds(mask@, width as int, height as int, y as int);
            assert(row_hits * peak_area <= 961 * 961 && peak_hits * row_area <= 961 * 961)
                by (nonlinear_arith)
                requires
                    row_hits <= 961,
                    peak_area <= 961,
                    peak_hits <= 961,
                    row_area <= 961,
            ;
        }
        if (row_hits as u64) * (peak_area as u64) > (peak_hits as u64) * (row_area as u64) {
            peak_hits = row_hits;
            peak_area = row_area;
        }
        y = y + 1;
    }
    let colours_of = |y: usize| -> (row: (Vec<u8>, u32, Vec<DiffPixel>))
        requires
            y < height,
        ensures
            row.0@.len() == 4 * width,
            forall|x: int, c: int|
                0 <= x < width && 0 <= c < 4 ==> #[trigger] row.0@[4 * x + c] == heat_byte(
                    mask@,
                    width as int,
                    height as int,
                    x,
                    y as int,
                    c,
                ),
            row.2@ == row_selection(
                hot_mask(mask@, width as int, height as int),
                width as int,
                y as int,
                width as int,
            ),
            row.1 == row.2@.len(),
        {
            assert(call_ensures(hits_of, (y,), density@[y as int]));
            heat_row(&mask_rows[y], &density[y].0, peak_hits, peak_area, width, height, y as u32, mask)
        };
    let rows = par_map_index(height as usize, colours_of);
    let mut heatmap_buf: Vec<u8> = Vec::new();
    let mut total_high: u32 = 0;
    let mut all_high_pixels: Vec<DiffPixel> = Vec::new();
    let mut y: usize = 0;
    while y < height as usize
        invariant
            y <= height,
            width >= 1,
            hot == hot_mask(mask@, width as int, height as int),
            rows@.len() == height,
            forall|r: int|
                0 <= r < height ==> {
                    &&& (#[trigger] rows@[r]).0@.len() == 4 * width
                    &&& forall|x: int, c: int|
                        0 <= x < width && 0 <= c < 4 ==> #[trigger] rows@[r].0@[4 * x + c]
                            == heat_byte(mask@, width as int, height as int, x, r, c)
                    &&& rows@[r].2@ == row_selection(hot, width as int, r, width as int)
                    &&& rows@[r].1 == rows@[r].2@.len()
                },
            heatmap_buf@.len() == 4 * width * y,
            forall|r: int, x: int, c: int|
                0 <= r < y && 0 <= x < width && 0 <= c < 4 ==> #[trigger] heatmap_buf@[4 * (r
                    * width + x) + c] == heat_byte(mask@, width as int, height as int, x, r, c),
            all_high_pixels@ == selection(hot, width as int, y as int),
            total_high == saturated(all_high_pixels@.len() as int),
        decreases height - y,
    {
        let row = &rows[y];
        proof {
            lemma_row_in_bounds(width as int, height as int, y as int);
            lemma_row_selection_len(hot, width as int, y as int, width as int);
            assert(4 * width * y + 4 * width == 4 * width * (y + 1)) by (nonlinear_arith);
            assert(y * width + width == (y + 1) * width) by (nonlinear_arith);
        }
        let ghost before = heatmap_buf@;
        heatmap_buf.extend_from_slice(row.0.as_slice());
        total_high = total_high.saturating_add(row.1);
        all_high_pixels.extend_from_slice(row.2.as_slice());
        proof {
            assert forall|r: int, x: int, c: int|
                0 <= r < y + 1 && 0 <= x < width && 0 <= c < 4 implies #[trigger] heatmap_buf@[4 * (
            r * width + x) + c] == heat_byte(mask@, width as int, height as int, x, r, c) by {
                let k = 4 * (r * width + x) + c;
                if r < y {
                    assert(r * width + x < y * width) by (nonlinear_arith)
                        requires
                            r + 1 <= y,
                            0 <= x < width,
                    ;
                    assert(0 <= r * width + x) by (nonlinear_arith)
                        requires
                            0 <= r,
                            0 <= x,
                            0 <= width,
                    ;
                    assert(k < 4 * width * y) by (nonlinear_arith)
                        requires
                            k == 4 * (r * width + x) + c,
                            r * width + x < y * width,
                            c < 4,
                    ;
                    assert(heatmap_buf@[k] == before[k]);
                } else {
                    let j = 4 * x + c;
                    assert(k == 4 * width * y + j) by (nonlinear_arith)
                        requires
                            k == 4 * (r * width + x) + c,
                            j == 4 * x + c,
                            r == y,
                    ;
                    assert(rows@[y as int].0@[4 * x + c] == heat_byte(
                        mask@,
                        width as int,
                        height as int,
                        x,
                        y as int,
                        c,
                    ));
                    assert(cloned::<u8>(row.0@[j], heatmap_buf@[k]));
                }
            }
            assert forall|k: int| 0 <= k < row.2@.len() implies all_high_pixels@[
                all_high_pixels@.len() - row.2@.len() + k] == row.2@[k] by {
                assert(cloned::<DiffPixel>(
                    row.2@[k],
                    all_high_pixels@[all_high_pixels@.len() - row.2@.len() + k],
                ));
            }
            assert(all_high_pixels@ =~= selection(hot, width as int, y as int) + row_selection(
                hot,
                width as int,
                y as int,
                width as int,
            ));
        }
        y = y + 1;
    }
    proof {
        let spec_map = heat_overlay(mask@, width as int, height as int);
        assert forall|k: int| 0 <= k < 4 * width * height implies heatmap_buf@[k]
            == spec_map[k] by {
            let i = k / 4;
            let c = k % 4;
            assert(0 <= i < width * height);
            assert(width * height == height * width) by (nonlinear_arith);
            lemma_fundamental_div_mod(i, width as int);
            lemma_quotient_below(i, width as int, height as int);
            let r = i / (width as int);
            let x = i % (width as int);
            assert(i == r * width + x) by (nonlinear_arith)
                requires
                    i == width * r + x,
            ;
            assert(k == 4 * (r * width + x) + c);
            lemma_heat_byte_range(mask@, width as int, height as int, x, r, c);
        }
        assert(heatmap_buf@ =~= spec_map);
    }
    (heatmap_buf, total_high, all_high_pixels)
}

/// Every byte of the heatmap is a byte.
pub proof fn lemma_heat_byte_range(
    mask: Seq<bool>,
    width: int,
    height: int,
    x: int,
    y: int,
    c: int,
)
    requires
        0 <= x < width,
        0 <= y < height,
        0 <= c < 4,
    ensures
        0 <= heat_byte(mask, width, height, x, y, c) <= 255,
{
    lemma_window_bounds(mask, width, height, x, y);
    lemma_peak_bounds(mask, width, height, height);
    let hits = window_hits(mask, width, height, x, y);
    let area = window_area(width, height, x, y);
    let p = peak(mask, width, height, height);
    let n = crate::heat::norm_num(hits, p.0, p.1);
    let d = crate::heat::norm_den(area, p.0);
    assert(hits * p.1 <= p.0 * area);
    if p.0 > 0 {
        assert(hits * p.1 <= area * p.0) by (nonlinear_arith)
            requires
                hits * p.1 <= p.0 * area,
        ;
        assert(area * p.0 > 0) by (nonlinear_arith)
            requires
                area >= 1,
                p.0 >= 1,
        ;
        assert(hits * p.1 >= 0) by (nonlinear_arith)
            requires
                hits >= 0,
                p.1 >= 1,
        ;
    }
    crate::heat::lemma_ramp_is_bytes(n, d);
}

/// Only the top band is reported. Every pixel in the list of hot pixels is
/// flagged, denser than one twentieth, and at least three fifths as dense
/// as the densest pixel; a pixel that is coloured in a lower band, or not
/// at all, is not in the list.
pub proof fn lemma_reported_are_top_band(mask: Seq<bool>, width: int, height: int, k: int)
    requires
        0 <= width <= u32::MAX,
        0 <= height <= u32::MAX,
        mask.len() == width * height,
        0 <= k < selection(hot_mask(mask, width, height), width, height).len(),
    ensures
        ({
            let p = selection(hot_mask(mask, width, height), width, height)[k];
            let hits = window_hits(mask, width, height, p.x as int, p.y as int);
            let area = window_area(width, height, p.x as int, p.y as int);
            let top = peak(mask, width, height, height);
            &&& p.x < width
            &&& p.y < height
            &&& mask[p.y * width + p.x]
            &&& shown(true, hits, area)
            &&& top_band(norm_num(hits, top.0, top.1), norm_den(area, top.0))
        }),
{
    let hot = hot_mask(mask, width, height);
    lemma_selection_sound(hot, width, height, k);
    let p = selection(hot, width, height)[k];
    lemma_row_in_grid(width, height, p.x as int, p.y as int);
    lemma_index_to_cell(width, p.x as int, p.y as int);
    assert(hot[p.y * width + p.x] == hot_at(mask, width, height, p.x as int, p.y as int));
}

/// The list of hot pixels holds exactly the pixels whose red is full in the
/// heatmap. A pixel that is drawn in a lower band is not in the list, has
/// less red, and is not black.
pub proof fn lemma_listed_iff_red(mask: Seq<bool>, width: int, height: int, x: int, y: int)
    requires
        0 <= x < width <= u32::MAX,
        0 <= y < height <= u32::MAX,
        mask.len() == width * height,
    ensures
        selection(hot_mask(mask, width, height), width, height).contains(
            DiffPixel { x: x as u32, y: y as u32 },
        ) <==> heat_byte(mask, width, height, x, y, 0) == 255,
        heat_byte(mask, width, height, x, y, 0) == 255 <==> hot_at(mask, width, height, x, y),
        shown(
            mask[y * width + x],
            window_hits(mask, width, height, x, y),
            window_area(width, height, x, y),
        ) && !hot_at(mask, width, height, x, y) ==> {
            &&& heat_byte(mask, width, height, x, y, 0) < 255
            &&& heat_byte(mask, width, height, x, y, 1) >= 200 || heat_byte(
                mask,
                width,
                height,
                x,
                y,
                2,
            ) == 200
        },
{
    let hot = hot_mask(mask, width, height);
    let listed = selection(hot, width, height);
    let p = DiffPixel { x: x as u32, y: y as u32 };
    lemma_window_bounds(mask, width, height, x, y);
    lemma_peak_bounds(mask, width, height, height);
    let top = peak(mask, width, height, height);
    assert(window_hits(mask, width, height, x, y) * top.1 <= top.0 * window_area(
        width,
        height,
        x,
        y,
    ));
    lemma_red_marks_hot(
        mask[y * width + x],
        window_hits(mask, width, height, x, y),
        window_area(width, height, x, y),
        top.0,
        top.1,
    );
    lemma_row_in_grid(width, height, x, y);
    lemma_index_to_cell(width, x, y);
    assert(hot[y * width + x] == hot_at(mask, width, height, x, y));
    if hot_at(mask, width, height, x, y) {
        lemma_selection_complete(hot, width, height, x, y);
    }
    if listed.contains(p) {
        let k = choose|k: int| 0 <= k < listed.len() && listed[k] == p;
        lemma_selection_sound(hot, width, height, k);
    }
}

} // verus!
