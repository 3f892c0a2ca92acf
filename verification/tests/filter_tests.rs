use ocr_lib::filter::{filter_binaryzation, filter_binaryzation_rgb, Tu8uc1, RGB};

fn six() -> Tu8uc1 {
    Tu8uc1::new(2, 3, vec![0, 1, 2, 3, 4, 5], 7)
}

#[test]
fn test_new_keeps_its_arguments() {
    let img = six();
    assert_eq!(img.rows, 2);
    assert_eq!(img.cols, 3);
    assert_eq!(img.buffer, vec![0, 1, 2, 3, 4, 5]);
    assert_eq!(img.fill_value, 7);
}

#[test]
fn test_empty_is_filled_with_fill_value() {
    let mut img = six();
    let e = img.empty();
    assert_eq!(e.rows, 2);
    assert_eq!(e.cols, 3);
    assert_eq!(e.fill_value, 7);
    assert_eq!(e.buffer, vec![7; 6]);
    assert_eq!(img.buffer, vec![0, 1, 2, 3, 4, 5]);
}

#[test]
fn test_empty_of_zero_sized_image() {
    let mut img = Tu8uc1::new(0, 4, vec![], 3);
    let e = img.empty();
    assert!(e.buffer.is_empty());
    assert_eq!(e.cols, 4);
}

#[test]
fn test_at_reads_row_by_row() {
    let mut img = six();
    assert_eq!(img.at(0, 0), 0);
    assert_eq!(img.at(2, 0), 2);
    assert_eq!(img.at(0, 1), 3);
    assert_eq!(img.at(2, 1), 5);
}

#[test]
fn test_at_reads_what_set_wrote() {
    let mut img = six();
    img.set(1, 1, 99);
    assert_eq!(img.at(1, 1), 99);
    assert_eq!(img.at(0, 1), 3);
    assert_eq!(img.at(1, 0), 1);
    assert_eq!(img.buffer, vec![0, 1, 2, 3, 99, 5]);
    assert_eq!(img.rows, 2);
    assert_eq!(img.cols, 3);
    assert_eq!(img.fill_value, 7);
}

#[test]
fn test_binaryzation_gives_an_all_white_image() {
    let data = vec![0, 0, 0, 200, 200, 200, 30, 60, 90];
    let img = filter_binaryzation(&data, 1, 3, "10-100");
    assert_eq!(img.buffer, vec![255, 255, 255]);
    assert_eq!(img.rows, 1);
    assert_eq!(img.cols, 3);
    assert_eq!(img.fill_value, 0);
}

#[test]
fn test_binaryzation_of_empty_data() {
    let data: Vec<u8> = vec![];
    let img = filter_binaryzation(&data, 0, 0, "0-255");
    assert!(img.buffer.is_empty());
}

#[test]
fn test_binaryzation_rgb_marks_matching_colours() {
    // Pixels are stored blue, green, red.
    let data = vec![255, 255, 255, 0, 0, 0, 10, 20, 30, 30, 20, 10];
    let threshold = vec![RGB { r: 255, g: 255, b: 255 }, RGB { r: 30, g: 20, b: 10 }];
    let img = filter_binaryzation_rgb(&data, 2, 2, threshold);
    assert_eq!(img.buffer, vec![255, 0, 255, 0]);
    assert_eq!(img.rows, 2);
    assert_eq!(img.cols, 2);
    assert_eq!(img.fill_value, 0);
}

#[test]
fn test_binaryzation_rgb_without_colours_is_black() {
    let data = vec![1, 2, 3, 4, 5, 6];
    let img = filter_binaryzation_rgb(&data, 1, 2, vec![]);
    assert_eq!(img.buffer, vec![0, 0]);
}

#[test]
fn test_binaryzation_rgb_output_is_binary() {
    let data: Vec<u8> = (0..30u8).collect();
    let img = filter_binaryzation_rgb(&data, 2, 5, vec![RGB { r: 5, g: 4, b: 3 }]);
    assert_eq!(img.buffer.len(), 10);
    assert!(img.buffer.iter().all(|v| *v == 0 || *v == 255));
    assert_eq!(img.buffer[1], 255);
    assert_eq!(img.buffer.iter().filter(|v| **v == 255).count(), 1);
}

#[test]
fn test_binaryzation_of_empty_data_needs_one_value_only() {
    let data: Vec<u8> = vec![];
    let img = filter_binaryzation(&data, 0, 0, "5");
    assert!(img.buffer.is_empty());
}
