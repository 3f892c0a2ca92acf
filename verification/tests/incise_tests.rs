use ocr_lib::filter::Tu8uc1;
use ocr_lib::incise::{incise_connected_area, incise_scope_aisle, merge_incise_ranges, InciseRange};

/// A black image of `cols` x `rows` with the given white pixels.
fn image(cols: i32, rows: i32, whites: &[(i32, i32)], fill_value: u8) -> Tu8uc1 {
    let mut buffer = vec![0u8; (cols * rows) as usize];
    for (x, y) in whites {
        buffer[(y * cols + x) as usize] = 255;
    }
    Tu8uc1::new(rows, cols, buffer, fill_value)
}

fn bare_range(x: i32, y: i32, cols: i32) -> InciseRange {
    InciseRange {
        x,
        y,
        cols,
        rows: 1,
        positions: vec![],
        min_x: x,
        min_y: y,
        max_x: x,
        max_y: y,
        source: Tu8uc1::new(0, 0, vec![], 255),
        is_empty_source: true,
    }
}

#[test]
fn test_connected_area_four_neighbours_keep_diagonals_apart() {
    let mut img = image(5, 5, &[(1, 1), (2, 2)], 0);
    let ranges = incise_connected_area(&mut img, true, false);
    assert_eq!(ranges.len(), 2);
    assert_eq!((ranges[0].x, ranges[0].y, ranges[0].cols, ranges[0].rows), (1, 1, 1, 1));
    assert_eq!((ranges[1].x, ranges[1].y, ranges[1].cols, ranges[1].rows), (2, 2, 1, 1));
    assert_eq!(ranges[0].source.buffer, vec![255]);
    assert!(!ranges[0].is_empty_source);
    assert_eq!(ranges[0].source.fill_value, 0);
    assert_eq!(img.buffer[6], 255);
}

#[test]
fn test_connected_area_eight_neighbours_join_diagonals() {
    let mut img = image(5, 5, &[(1, 1), (2, 2)], 0);
    let ranges = incise_connected_area(&mut img, true, true);
    assert_eq!(ranges.len(), 1);
    let r = &ranges[0];
    assert_eq!((r.x, r.y), (1, 1));
    assert_eq!((r.min_x, r.min_y, r.max_x, r.max_y), (1, 1, 2, 2));
    assert_eq!((r.cols, r.rows), (2, 2));
    assert_eq!(r.source.buffer, vec![255, 0, 0, 255]);
    assert_eq!((r.source.cols, r.source.rows), (2, 2));
    // The seed is met again from its neighbour before it is marked.
    assert_eq!(r.positions.len(), 3);
    assert_eq!((r.positions[0].x(), r.positions[0].y()), (0, 0));
    assert_eq!((r.positions[1].x(), r.positions[1].y()), (1, 1));
    assert_eq!((r.positions[2].x(), r.positions[2].y()), (0, 0));
}

#[test]
fn test_connected_area_holds_each_white_pixel_once() {
    let mut img = image(5, 5, &[(1, 1), (2, 1), (3, 3)], 0);
    let ranges = incise_connected_area(&mut img, true, false);
    assert_eq!(ranges.len(), 2);
    assert_eq!((ranges[0].x, ranges[0].y, ranges[0].cols, ranges[0].rows), (1, 1, 2, 1));
    assert_eq!(ranges[0].source.buffer, vec![255, 255]);
    assert_eq!((ranges[1].x, ranges[1].y, ranges[1].cols, ranges[1].rows), (3, 3, 1, 1));
}

#[test]
fn test_connected_area_without_bitmaps() {
    let mut img = image(5, 5, &[(1, 1), (2, 1)], 0);
    let ranges = incise_connected_area(&mut img, false, false);
    assert_eq!(ranges.len(), 1);
    assert_eq!((ranges[0].cols, ranges[0].rows), (2, 1));
    assert!(ranges[0].source.buffer.is_empty());
    assert!(ranges[0].is_empty_source);
    assert_eq!(ranges[0].source.fill_value, 255);
}

#[test]
fn test_connected_area_needs_a_black_fill_value() {
    let mut img = image(5, 5, &[(1, 1)], 255);
    assert!(incise_connected_area(&mut img, true, true).is_empty());
    let mut img = image(5, 5, &[(1, 1)], 7);
    assert!(incise_connected_area(&mut img, true, false).is_empty());
    assert_eq!(img.fill_value, 7);
}

#[test]
fn test_connected_area_of_black_image_is_empty() {
    let mut img = image(4, 3, &[], 0);
    assert!(incise_connected_area(&mut img, true, true).is_empty());
}

#[test]
fn test_merge_of_nothing_is_nothing() {
    let ranges: Vec<InciseRange> = vec![];
    assert!(merge_incise_ranges(&ranges, 1, 1).is_empty());
}

#[test]
fn test_merge_joins_close_ranges() {
    let mut img = image(5, 5, &[(1, 1), (2, 2)], 0);
    let ranges = incise_connected_area(&mut img, true, false);
    let merged = merge_incise_ranges(&ranges, 1, 1);
    assert_eq!(merged.len(), 1);
    let r = &merged[0];
    assert_eq!((r.x, r.y), (1, 1));
    assert_eq!((r.min_x, r.min_y, r.max_x, r.max_y), (1, 1, 2, 2));
    assert_eq!((r.cols, r.rows), (2, 2));
    assert_eq!(r.source.buffer, vec![255, 0, 0, 255]);
    assert_eq!(r.source.fill_value, 255);
    assert!(r.is_empty_source);
    // The first range's positions come twice, then the second range's, shifted.
    assert_eq!(r.positions.len(), 3);
    assert_eq!((r.positions[2].x(), r.positions[2].y()), (1, 1));
}

#[test]
fn test_merge_keeps_far_ranges_apart() {
    let mut img = image(9, 9, &[(1, 1), (7, 7)], 0);
    let ranges = incise_connected_area(&mut img, true, false);
    let merged = merge_incise_ranges(&ranges, 1, 1);
    assert_eq!(merged.len(), 2);
    assert_eq!((merged[0].x, merged[0].y, merged[0].cols, merged[0].rows), (1, 1, 1, 1));
    assert_eq!((merged[1].x, merged[1].y, merged[1].cols, merged[1].rows), (7, 7, 1, 1));
    assert_eq!(merged[1].source.buffer, vec![255]);
}

#[test]
fn test_merge_margin_decides() {
    // Two single pixels four columns apart touch once each box is widened by two.
    let ranges = vec![bare_range(1, 1, 1), bare_range(5, 1, 1)];
    assert_eq!(merge_incise_ranges(&ranges, 1, 0).len(), 2);
    let joined = merge_incise_ranges(&ranges, 2, 0);
    assert_eq!(joined.len(), 1);
    assert_eq!((joined[0].min_x, joined[0].max_x, joined[0].cols), (1, 5, 5));
    assert_eq!(joined[0].source.buffer, vec![0; 5]);
}

#[test]
fn test_merge_takes_a_seed_once() {
    let ranges = vec![bare_range(2, 3, 1), bare_range(2, 3, 4)];
    let merged = merge_incise_ranges(&ranges, 0, 0);
    assert_eq!(merged.len(), 1);
    assert_eq!((merged[0].x, merged[0].y, merged[0].cols), (2, 3, 1));
}

#[test]
fn test_ranges_are_equal_by_seed() {
    assert!(bare_range(2, 3, 1) == bare_range(2, 3, 9));
    assert!(bare_range(2, 3, 1) != bare_range(2, 4, 1));
    assert!(bare_range(2, 3, 1) != bare_range(1, 3, 1));
}

#[test]
fn test_scope_aisle_single_pixel() {
    let mut img = image(6, 6, &[(1, 1)], 0);
    let ranges = incise_scope_aisle(&mut img, 1, 1);
    assert_eq!(ranges.len(), 1);
    let r = &ranges[0];
    assert_eq!((r.x, r.y, r.cols, r.rows), (1, 1, 1, 1));
    assert_eq!((r.min_x, r.min_y, r.max_x, r.max_y), (1, 1, 1, 1));
    assert!(r.positions.is_empty());
    assert_eq!(r.source.buffer, vec![255]);
    assert_eq!(r.source.fill_value, 0);
    assert!(r.is_empty_source);
    assert_eq!(img.buffer[7], 255);
}

#[test]
fn test_scope_aisle_grows_along_the_diagonal() {
    let mut img = image(6, 6, &[(1, 1), (2, 2)], 0);
    let ranges = incise_scope_aisle(&mut img, 1, 1);
    assert_eq!(ranges.len(), 1);
    assert_eq!((ranges[0].x, ranges[0].y, ranges[0].cols, ranges[0].rows), (1, 1, 2, 2));
    assert_eq!(ranges[0].source.buffer, vec![255, 0, 0, 255]);
}

#[test]
fn test_scope_aisle_narrow_gap_keeps_regions_apart() {
    let mut img = image(6, 6, &[(1, 1), (4, 1)], 0);
    let ranges = incise_scope_aisle(&mut img, 1, 1);
    assert_eq!(ranges.len(), 2);
    assert_eq!((ranges[0].x, ranges[0].y, ranges[0].cols, ranges[0].rows), (1, 1, 1, 1));
    assert_eq!((ranges[1].x, ranges[1].y, ranges[1].cols, ranges[1].rows), (4, 1, 1, 1));
}

#[test]
fn test_scope_aisle_wide_aisle_joins_regions() {
    let mut img = image(6, 6, &[(1, 1), (4, 1)], 0);
    let ranges = incise_scope_aisle(&mut img, 1, 3);
    assert_eq!(ranges.len(), 1);
    let r = &ranges[0];
    assert_eq!((r.x, r.y, r.cols, r.rows), (1, 1, 4, 1));
    assert_eq!((r.max_x, r.max_y), (4, 1));
    assert_eq!(r.source.buffer, vec![255, 0, 0, 255]);
}

#[test]
fn test_scope_aisle_of_black_image_is_empty() {
    let mut img = image(4, 4, &[], 0);
    assert!(incise_scope_aisle(&mut img, 2, 2).is_empty());
}

#[test]
fn test_preview_rect_frames_the_box() {
    let mut img = image(6, 6, &[(2, 1), (3, 1)], 0);
    let ranges = incise_connected_area(&mut img, false, false);
    assert_eq!(ocr_lib::image::preview_rect(&ranges[0]), (1, 0, 4, 3));
}

#[test]
fn test_scope_aisle_can_reach_one_column_past_the_right_edge() {
    // The pixel right of (2, 0) is read by its linear index, which is that of (0, 1).
    let mut img = image(3, 3, &[(0, 1), (2, 0)], 0);
    let ranges = incise_scope_aisle(&mut img, 1, 1);
    assert_eq!(ranges.len(), 2);
    assert_eq!((ranges[0].x, ranges[0].y, ranges[0].cols, ranges[0].rows), (0, 1, 1, 1));
    let r = &ranges[1];
    assert_eq!((r.x, r.y, r.cols, r.rows), (2, 0, 2, 1));
    assert_eq!((r.max_x, r.max_y), (3, 0));
    assert_eq!(r.source.buffer, vec![255, 255]);
}

#[test]
fn test_scope_aisle_without_aisle_cuts_single_pixels() {
    let mut img = image(4, 4, &[(1, 1), (2, 1)], 0);
    let ranges = incise_scope_aisle(&mut img, 0, 0);
    assert_eq!(ranges.len(), 2);
    assert_eq!((ranges[0].x, ranges[0].y, ranges[0].cols, ranges[0].rows), (1, 1, 1, 1));
    assert_eq!((ranges[1].x, ranges[1].y, ranges[1].cols, ranges[1].rows), (2, 1, 1, 1));
}

#[test]
fn test_scope_aisle_ignores_huge_aisles_when_nothing_grows() {
    let mut black = image(1, 1, &[], 0);
    assert!(incise_scope_aisle(&mut black, i32::MAX, i32::MAX).is_empty());
    let mut filled = image(3, 3, &[(1, 1)], 255);
    assert!(incise_scope_aisle(&mut filled, i32::MAX, 2).is_empty());
    assert_eq!(filled.buffer[4], 255);
}

#[test]
fn test_connected_area_with_nonzero_fill_reads_no_pixels() {
    let mut img = Tu8uc1::new(1, 1, vec![], 255);
    assert!(incise_connected_area(&mut img, true, true).is_empty());
    let mut flat = Tu8uc1::new(-1, 0, vec![], 0);
    assert!(incise_connected_area(&mut flat, true, false).is_empty());
}

#[test]
fn test_empty_of_negative_dimension_with_zero_product() {
    let mut img = Tu8uc1::new(-3, 0, vec![], 9);
    let e = img.empty();
    assert!(e.buffer.is_empty());
    assert_eq!((e.rows, e.cols, e.fill_value), (-3, 0, 9));
}

#[test]
fn test_merge_far_apart_ranges_needs_no_common_span() {
    let ranges = vec![bare_range(-(1 << 30) - 5, 0, 1), bare_range((1 << 30) + 5, 0, 1)];
    let merged = merge_incise_ranges(&ranges, 0, 0);
    assert_eq!(merged.len(), 2);
    assert_eq!(merged[0].x, -(1 << 30) - 5);
    assert_eq!(merged[1].source.buffer, vec![0]);
}

#[test]
fn test_connected_area_records_pixels_depth_first() {
    let mut img = image(5, 5, &[(1, 1), (2, 1), (1, 2)], 0);
    let ranges = incise_connected_area(&mut img, true, false);
    assert_eq!(ranges.len(), 1);
    let got: Vec<(i32, i32)> = ranges[0].positions.iter().map(|p| (p.x(), p.y())).collect();
    assert_eq!(got, vec![(0, 0), (1, 0), (0, 0), (0, 1)]);
    assert_eq!(ranges[0].source.buffer, vec![255, 255, 255, 0]);
}
