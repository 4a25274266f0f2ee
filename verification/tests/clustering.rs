use proof_diff::cluster::cluster_markers;
use proof_diff::cluster::make_marker;
use proof_diff::cluster::ClusterGroup;
use proof_diff::pixel::DiffPixel;
use proof_diff::region::DiffMarker;

fn block(x0: u32, y0: u32, n: u32) -> Vec<DiffPixel> {
    (0..n).map(|i| DiffPixel { x: x0 + i % 10, y: y0 + i / 10 }).collect()
}

#[test]
fn no_pixels_no_markers() {
    assert!(cluster_markers(&[], 200, 1, 600).is_empty());
}

#[test]
fn one_pixel_gives_one_marker_of_least_radius() {
    let markers = cluster_markers(&[DiffPixel { x: 10, y: 20 }], 200, 1, 600);
    assert_eq!(markers, vec![DiffMarker { x2: 20, y2: 40, radius2: 600, count: 1 }]);
    let markers = cluster_markers(&[DiffPixel { x: 10, y: 20 }], 250, 1, 160);
    assert_eq!(markers, vec![DiffMarker { x2: 20, y2: 40, radius2: 160, count: 1 }]);
}

#[test]
fn the_larger_cluster_comes_first() {
    let mut pixels = block(0, 0, 5);
    pixels.extend(block(2000, 2000, 50));
    let markers = cluster_markers(&pixels, 200, 1, 600);
    assert_eq!(markers.len(), 2);
    assert_eq!(markers[0].count, 50);
    assert_eq!(markers[1].count, 5);
    assert_eq!(markers[0].x2, 2000 + 2009);
    assert_eq!(markers[0].y2, 2000 + 2004);
    assert_eq!(markers[1].x2, 4);
    assert_eq!(markers[1].y2, 0);
}

#[test]
fn markers_are_sorted_by_descending_count() {
    let mut pixels = Vec::new();
    for (i, n) in [3u32, 9, 1, 7, 5].iter().enumerate() {
        pixels.extend(block(1000 * i as u32, 0, *n));
    }
    let counts: Vec<u32> = cluster_markers(&pixels, 200, 1, 600).iter().map(|m| m.count).collect();
    assert_eq!(counts, vec![9, 7, 5, 3, 1]);
}

#[test]
fn neighbouring_cells_merge_even_diagonally() {
    let pixels = [DiffPixel { x: 199, y: 199 }, DiffPixel { x: 200, y: 200 }];
    let markers = cluster_markers(&pixels, 200, 1, 160);
    assert_eq!(markers, vec![DiffMarker { x2: 399, y2: 399, radius2: 160, count: 2 }]);
}

#[test]
fn cells_with_a_gap_between_them_stay_apart() {
    let pixels = [DiffPixel { x: 0, y: 0 }, DiffPixel { x: 400, y: 0 }];
    let markers = cluster_markers(&pixels, 200, 1, 160);
    assert_eq!(markers.len(), 2);
    assert_eq!(markers[0], DiffMarker { x2: 0, y2: 0, radius2: 160, count: 1 });
    assert_eq!(markers[1], DiffMarker { x2: 800, y2: 0, radius2: 160, count: 1 });
    let pixels = [DiffPixel { x: 0, y: 0 }, DiffPixel { x: 0, y: 400 }];
    assert_eq!(cluster_markers(&pixels, 200, 1, 160).len(), 2);
}

#[test]
fn a_chain_of_cells_is_one_cluster() {
    let pixels = [
        DiffPixel { x: 900, y: 10 },
        DiffPixel { x: 100, y: 10 },
        DiffPixel { x: 500, y: 10 },
        DiffPixel { x: 700, y: 10 },
        DiffPixel { x: 300, y: 10 },
    ];
    let markers = cluster_markers(&pixels, 200, 1, 160);
    assert_eq!(markers, vec![DiffMarker { x2: 1000, y2: 20, radius2: 800 + 120, count: 5 }]);
}

#[test]
fn small_clusters_are_dropped() {
    let mut pixels = block(0, 0, 19);
    pixels.extend(block(3000, 0, 20));
    let markers = cluster_markers(&pixels, 250, 20, 160);
    assert_eq!(markers.len(), 1);
    assert_eq!(markers[0].count, 20);
    assert_eq!(markers[0].x2, 3000 + 3009);
    assert!(cluster_markers(&block(0, 0, 19), 250, 20, 160).is_empty());
}

#[test]
fn the_radius_follows_the_longer_side() {
    let pixels = [DiffPixel { x: 100, y: 100 }, DiffPixel { x: 180, y: 199 }];
    // 80 wide, 99 high; with a least radius of 80 pixels the padding is 60.
    let markers = cluster_markers(&pixels, 200, 1, 160);
    assert_eq!(markers, vec![DiffMarker { x2: 280, y2: 299, radius2: 99 + 120, count: 2 }]);
    // With a least radius above 200 pixels the padding is 100, and the
    // least radius wins over a small box.
    let markers = cluster_markers(&pixels, 200, 1, 402);
    assert_eq!(markers, vec![DiffMarker { x2: 280, y2: 299, radius2: 402, count: 2 }]);
    // A least radius of 200.5 pixels is above 200: the padding is 100.
    let markers = cluster_markers(&pixels, 200, 1, 401);
    assert_eq!(markers, vec![DiffMarker { x2: 280, y2: 299, radius2: 401, count: 2 }]);
    let wide = [DiffPixel { x: 100, y: 100 }, DiffPixel { x: 180, y: 399 }];
    let markers = cluster_markers(&wide, 200, 1, 401);
    assert_eq!(markers, vec![DiffMarker { x2: 280, y2: 499, radius2: 299 + 200, count: 2 }]);
    let markers = cluster_markers(&wide, 200, 1, 400);
    assert_eq!(markers, vec![DiffMarker { x2: 280, y2: 499, radius2: 299 + 120, count: 2 }]);
    let markers = cluster_markers(&pixels, 200, 1, 400);
    assert_eq!(markers, vec![DiffMarker { x2: 280, y2: 299, radius2: 400, count: 2 }]);
}

#[test]
fn a_large_box_outgrows_the_least_radius() {
    let pixels = [DiffPixel { x: 0, y: 0 }, DiffPixel { x: 150, y: 0 }, DiffPixel { x: 300, y: 0 }, DiffPixel { x: 450, y: 0 }, DiffPixel { x: 600, y: 0 }, DiffPixel { x: 750, y: 0 }];
    let markers = cluster_markers(&pixels, 200, 1, 600);
    assert_eq!(markers, vec![DiffMarker { x2: 750, y2: 0, radius2: 750 + 200, count: 6 }]);
}

#[test]
fn repeated_pixels_are_counted_each_time() {
    let pixels = [DiffPixel { x: 5, y: 5 }, DiffPixel { x: 5, y: 5 }, DiffPixel { x: 5, y: 5 }];
    let markers = cluster_markers(&pixels, 200, 1, 160);
    assert_eq!(markers, vec![DiffMarker { x2: 10, y2: 10, radius2: 160, count: 3 }]);
}

#[test]
fn equal_counts_keep_the_order_of_first_sight() {
    let pixels = [DiffPixel { x: 5000, y: 0 }, DiffPixel { x: 0, y: 0 }, DiffPixel { x: 2500, y: 0 }];
    let xs: Vec<u64> = cluster_markers(&pixels, 200, 1, 160).iter().map(|m| m.x2).collect();
    assert_eq!(xs, vec![10000, 0, 5000]);
}

#[test]
fn a_grid_of_one_pixel_joins_neighbours_only() {
    let pixels = [DiffPixel { x: 0, y: 0 }, DiffPixel { x: 1, y: 1 }, DiffPixel { x: 3, y: 1 }];
    let counts: Vec<u32> = cluster_markers(&pixels, 1, 1, 160).iter().map(|m| m.count).collect();
    assert_eq!(counts, vec![2, 1]);
}

#[test]
fn pixels_at_the_far_corner() {
    let far = u32::MAX;
    let pixels = [DiffPixel { x: far, y: far }, DiffPixel { x: far - 1, y: far }];
    let markers = cluster_markers(&pixels, 200, 1, 600);
    assert_eq!(
        markers,
        vec![DiffMarker {
            x2: 2 * far as u64 - 1,
            y2: 2 * far as u64,
            radius2: 600,
            count: 2,
        }]
    );
}

#[test]
fn the_marker_of_a_group() {
    let group = ClusterGroup { min_x: 10, max_x: 110, min_y: 40, max_y: 60, count: 7 };
    assert_eq!(make_marker(group, 160), DiffMarker { x2: 120, y2: 100, radius2: 220, count: 7 });
    assert_eq!(make_marker(group, 600), DiffMarker { x2: 120, y2: 100, radius2: 600, count: 7 });
}
