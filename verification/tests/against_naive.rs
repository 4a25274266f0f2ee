use proof_diff::cluster::cluster_markers;
use proof_diff::heatmap::diff_heatmap_core;
use proof_diff::pixel::DiffPixel;
use proof_diff::simple::diff_simple_core;

struct Dice(u64);

impl Dice {
    fn roll(&mut self, sides: u32) -> u32 {
        self.0 = self.0.wrapping_mul(6364136223846793005).wrapping_add(1442695040888963407);
        ((self.0 >> 33) % sides as u64) as u32
    }
}

fn noisy_pair(dice: &mut Dice, width: u32, height: u32, one_in: u32) -> (Vec<u8>, Vec<u8>) {
    let a: Vec<u8> = (0..4 * width * height).map(|_| dice.roll(256) as u8).collect();
    let mut b = a.clone();
    for i in 0..(width * height) as usize {
        if dice.roll(one_in) == 0 {
            let c = dice.roll(4) as usize;
            b[4 * i + c] = b[4 * i + c].wrapping_add(20 + dice.roll(100) as u8);
        }
    }
    (a, b)
}

fn flagged(a: &[u8], b: &[u8], i: usize, threshold: u8) -> bool {
    (0..3).any(|c| (a[4 * i + c] as i32 - b[4 * i + c] as i32).abs() > threshold as i32)
}

#[test]
fn the_simple_diff_agrees_with_a_pixel_by_pixel_count() {
    let mut dice = Dice(7);
    for &(w, h) in &[(1u32, 1u32), (17, 5), (64, 48), (3, 100)] {
        let (a, b) = noisy_pair(&mut dice, w, h, 5);
        for &threshold in &[0u8, 19, 20, 60, 255] {
            let (overlay, count, pixels) = diff_simple_core(&a, &b, w, h, threshold);
            let mut expected = Vec::new();
            for y in 0..h {
                for x in 0..w {
                    if flagged(&a, &b, (y * w + x) as usize, threshold) {
                        expected.push(DiffPixel { x, y });
                    }
                }
            }
            assert_eq!(count as usize, expected.len());
            assert_eq!(pixels, expected);
            for i in 0..(w * h) as usize {
                let red = if flagged(&a, &b, i, threshold) { 255 } else { 0 };
                assert_eq!(&overlay[4 * i..4 * i + 4], &[red, 0, 0, 255]);
            }
        }
    }
}

#[test]
fn the_heatmap_agrees_with_counting_every_window() {
    let mut dice = Dice(11);
    for &(w, h, one_in) in &[(40u32, 35u32, 3u32), (70, 20, 8), (16, 90, 2), (33, 33, 40)] {
        let (a, b) = noisy_pair(&mut dice, w, h, one_in);
        let threshold = 10;
        let mask: Vec<bool> = (0..(w * h) as usize).map(|i| flagged(&a, &b, i, threshold)).collect();
        let window = |x: u32, y: u32| -> (u64, u64) {
            let x0 = x.saturating_sub(15);
            let y0 = y.saturating_sub(15);
            let x1 = (x + 15).min(w - 1);
            let y1 = (y + 15).min(h - 1);
            let mut hits = 0u64;
            for yy in y0..=y1 {
                for xx in x0..=x1 {
                    if mask[(yy * w + xx) as usize] {
                        hits += 1;
                    }
                }
            }
            (hits, ((x1 - x0 + 1) * (y1 - y0 + 1)) as u64)
        };
        let mut peak = (0u64, 1u64);
        for y in 0..h {
            for x in 0..w {
                let d = window(x, y);
                if d.0 * peak.1 > peak.0 * d.1 {
                    peak = d;
                }
            }
        }
        let (map, count, pixels) = diff_heatmap_core(&a, &b, w, h, threshold);
        let mut hot = Vec::new();
        for y in 0..h {
            for x in 0..w {
                let i = (y * w + x) as usize;
                let (hits, area) = window(x, y);
                let px = &map[4 * i..4 * i + 4];
                assert_eq!(px[3], 255);
                if !(mask[i] && 20 * hits > area) {
                    assert_eq!(&px[0..3], &[0, 0, 0]);
                    continue;
                }
                let n = hits * peak.1;
                let d = area * peak.0;
                if 10 * n < 3 * d {
                    assert_eq!(&px[0..3], &[0, (2000 * n / (3 * d)) as u8, 200]);
                } else if 5 * n < 3 * d {
                    let t = 10 * n - 3 * d;
                    assert_eq!(px[0] as u64, 85 * t / d);
                    assert_eq!(px[1] as u64, 200 + 55 * t / (3 * d));
                    assert_eq!(px[2] as u64, 200 * (6 * d - 10 * n) / (3 * d));
                } else {
                    assert_eq!(&px[0..3], &[255, (1275 * (d - n) / (2 * d)) as u8, 0]);
                    hot.push(DiffPixel { x, y });
                }
            }
        }
        assert_eq!(count as usize, hot.len());
        assert_eq!(pixels, hot);
    }
}

fn naive_clusters(pixels: &[DiffPixel], grid: u32) -> Vec<(u32, u32, u32, u32, u32)> {
    let cell = |p: &DiffPixel| ((p.x / grid) as i64, (p.y / grid) as i64);
    let mut label: Vec<usize> = (0..pixels.len()).collect();
    let mut changed = true;
    while changed {
        changed = false;
        for i in 0..pixels.len() {
            for j in 0..pixels.len() {
                let (a, b) = (cell(&pixels[i]), cell(&pixels[j]));
                if (a.0 - b.0).abs() <= 1 && (a.1 - b.1).abs() <= 1 && label[j] < label[i] {
                    label[i] = label[j];
                    changed = true;
                }
            }
        }
    }
    let mut groups: Vec<(usize, (u32, u32, u32, u32, u32))> = Vec::new();
    for (i, p) in pixels.iter().enumerate() {
        match groups.iter_mut().find(|g| g.0 == label[i]) {
            Some(g) => {
                g.1 = (g.1 .0.min(p.x), g.1 .1.max(p.x), g.1 .2.min(p.y), g.1 .3.max(p.y), g.1 .4 + 1)
            }
            None => groups.push((label[i], (p.x, p.x, p.y, p.y, 1))),
        }
    }
    groups.into_iter().map(|g| g.1).collect()
}

#[test]
fn clustering_agrees_with_labels_spread_until_nothing_changes() {
    let mut dice = Dice(23);
    for &(n, span, grid, min_cluster, min_radius2) in &[
        (60usize, 2000u32, 200u32, 1u32, 600u32),
        (120, 3000, 250, 3, 160),
        (80, 40, 1, 2, 160),
        (150, 1000, 37, 1, 401),
        (40, 100000, 200, 1, 600),
    ] {
        let pixels: Vec<DiffPixel> =
            (0..n).map(|_| DiffPixel { x: dice.roll(span), y: dice.roll(span) }).collect();
        let markers = cluster_markers(&pixels, grid, min_cluster, min_radius2);
        let mut expected: Vec<(u64, u64, u64, u32)> = naive_clusters(&pixels, grid)
            .into_iter()
            .filter(|g| g.4 >= min_cluster)
            .map(|(x0, x1, y0, y1, count)| {
                let side = (x1 - x0).max(y1 - y0) as u64;
                let padding = if min_radius2 > 400 { 200 } else { 120 };
                (
                    x0 as u64 + x1 as u64,
                    y0 as u64 + y1 as u64,
                    (min_radius2 as u64).max(side + padding),
                    count,
                )
            })
            .collect();
        let mut got: Vec<(u64, u64, u64, u32)> =
            markers.iter().map(|m| (m.x2, m.y2, m.radius2, m.count)).collect();
        for pair in markers.windows(2) {
            assert!(pair[0].count >= pair[1].count);
        }
        expected.sort();
        got.sort();
        assert_eq!(got, expected);
    }
}

#[test]
fn a_large_image_is_compared_in_good_time() {
    let mut dice = Dice(5);
    let (a, b) = noisy_pair(&mut dice, 900, 700, 50);
    let (overlay, count, pixels) = diff_simple_core(&a, &b, 900, 700, 10);
    assert_eq!(overlay.len(), 4 * 900 * 700);
    assert_eq!(count as usize, pixels.len());
    assert!(count > 5000);
    let markers = cluster_markers(&pixels, 200, 1, 600);
    assert_eq!(markers.len(), 1);
    assert_eq!(markers[0].count, count);
    let (map, hot, hot_pixels) = diff_heatmap_core(&a, &b, 900, 700, 10);
    assert_eq!(map.len(), 4 * 900 * 700);
    assert_eq!(hot as usize, hot_pixels.len());
    let markers = cluster_markers(&hot_pixels, 250, 20, 160);
    let total: u32 = markers.iter().map(|m| m.count).sum();
    assert!(total <= hot);
}
