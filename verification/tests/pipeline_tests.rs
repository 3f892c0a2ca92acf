use ocr_lib::filter::{filter_binaryzation_rgb, RGB};
use ocr_lib::incise::{incise_connected_area, incise_scope_aisle, merge_incise_ranges};
use ocr_lib::libs::lib_parse;
use ocr_lib::ocr::ocr_base;

/// A blue-green-red picture of `cols` x `rows`, all (40, 80, 120) but the given pixels,
/// which have the colour `ink`.
fn picture(cols: usize, rows: usize, ink: (u8, u8, u8), pixels: &[(usize, usize)]) -> Vec<u8> {
    let mut data = Vec::new();
    for y in 0..rows {
        for x in 0..cols {
            if pixels.contains(&(x, y)) {
                data.extend_from_slice(&[ink.2, ink.1, ink.0]);
            } else {
                data.extend_from_slice(&[120, 80, 40]);
            }
        }
    }
    data
}

/// An "L" of three pixels and an "I" of three pixels.
const TEXT: [(usize, usize); 6] = [(1, 1), (1, 2), (2, 2), (6, 1), (6, 2), (6, 3)];

const LIBRARY: &str = "L|2,2|1101\r\nI|1,3|111";

#[test]
fn test_preview_connect_area() {
    let data = picture(10, 6, (255, 255, 255), &TEXT);
    let lib1 = lib_parse(LIBRARY, "lib1");
    let mut filtered_data = filter_binaryzation_rgb(&data, 6, 10, vec![RGB { r: 255, g: 255, b: 255 }]);
    let ranges = incise_connected_area(&mut filtered_data, false, true);
    assert_eq!(ranges.len(), 2);
    let ranges2 = merge_incise_ranges(&ranges, 1, 1);
    assert_eq!(ranges2.len(), 2);
    let ocr_ret = ocr_base(&lib1, &ranges2, 100);
    assert_eq!(ocr_ret.len(), 2);
    assert_eq!(ocr_ret[0].text, "L");
    assert_eq!((ocr_ret[0].x, ocr_ret[0].y, ocr_ret[0].width, ocr_ret[0].height), (1, 1, 2, 2));
    assert_eq!(ocr_ret[1].text, "I");
    assert_eq!((ocr_ret[1].x, ocr_ret[1].y, ocr_ret[1].width, ocr_ret[1].height), (6, 1, 1, 3));
}

#[test]
fn test_preview_scope_aisle() {
    let data = picture(10, 6, (25, 25, 25), &TEXT);
    let lib1 = lib_parse(LIBRARY, "lib1");
    let mut filtered_data = filter_binaryzation_rgb(&data, 6, 10, vec![RGB { r: 25, g: 25, b: 25 }]);
    let ranges = incise_scope_aisle(&mut filtered_data, 2, 2);
    assert_eq!(ranges.len(), 2);
    assert_eq!(ranges[0].source.buffer, vec![255, 0, 255, 255]);
    assert_eq!(ranges[1].source.buffer, vec![255, 255, 255]);
    let ocr_ret = ocr_base(&lib1, &ranges, 100);
    assert_eq!(ocr_ret.len(), 2);
    assert_eq!(ocr_ret[0].text, "L");
    assert_eq!((ocr_ret[0].x, ocr_ret[0].y, ocr_ret[0].width, ocr_ret[0].height), (1, 1, 2, 2));
    assert_eq!(ocr_ret[1].text, "I");
    assert_eq!((ocr_ret[1].x, ocr_ret[1].y, ocr_ret[1].width, ocr_ret[1].height), (6, 1, 1, 3));
}
