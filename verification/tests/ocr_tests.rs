use ocr_lib::filter::Tu8uc1;
use ocr_lib::incise::InciseRange;
use ocr_lib::libs::lib_parse;
use ocr_lib::ocr::ocr_base;

/// A range at (`x`, `y`) whose bitmap is `bits`, `cols` wide.
fn range(x: i32, y: i32, cols: i32, rows: i32, bits: Vec<u8>) -> InciseRange {
    InciseRange {
        x,
        y,
        cols,
        rows,
        positions: vec![],
        min_x: x,
        min_y: y,
        max_x: x + cols - 1,
        max_y: y + rows - 1,
        source: Tu8uc1::new(rows, cols, bits, 0),
        is_empty_source: false,
    }
}

#[test]
fn test_ocr_reads_exact_matches() {
    let lib = lib_parse("A|2,1|11\r\nB|1,1|1", "lib");
    let ranges = vec![range(4, 5, 2, 1, vec![255, 255]), range(9, 8, 1, 1, vec![255])];
    let texts = ocr_base(&lib, &ranges, 100);
    assert_eq!(texts.len(), 2);
    assert_eq!((texts[0].x, texts[0].y, texts[0].width, texts[0].height), (4, 5, 2, 1));
    assert_eq!(texts[0].text, "A");
    assert_eq!((texts[1].x, texts[1].y, texts[1].width, texts[1].height), (9, 8, 1, 1));
    assert_eq!(texts[1].text, "B");
}

#[test]
fn test_ocr_leaves_out_unrecognised_ranges() {
    let lib = lib_parse("A|2,1|11", "lib");
    let ranges = vec![range(0, 0, 3, 1, vec![255, 255, 255]), range(1, 1, 2, 1, vec![255, 255])];
    let texts = ocr_base(&lib, &ranges, 100);
    assert_eq!(texts.len(), 1);
    assert_eq!((texts[0].x, texts[0].y), (1, 1));
}

#[test]
fn test_ocr_similarity_sets_the_allowed_mismatches() {
    let lib = lib_parse("A|2,1|11", "lib");
    let ranges = vec![range(0, 0, 2, 1, vec![255, 0])];
    // (100 - 100) / 100 and (100 - 50) / 100 are both 0: no mismatch is allowed.
    assert!(ocr_base(&lib, &ranges, 100).is_empty());
    assert!(ocr_base(&lib, &ranges, 50).is_empty());
    assert!(ocr_base(&lib, &ranges, 1).is_empty());
    // (100 - 0) / 100 is 1: two pixels times one allow two mismatches.
    let texts = ocr_base(&lib, &ranges, 0);
    assert_eq!(texts.len(), 1);
    assert_eq!(texts[0].text, "A");
}

#[test]
fn test_ocr_first_matching_glyph_wins() {
    let lib = lib_parse("X|1,1|0\r\nY|1,1|1\r\nZ|1,1|1", "lib");
    let ranges = vec![range(0, 0, 1, 1, vec![255])];
    let texts = ocr_base(&lib, &ranges, 100);
    assert_eq!(texts.len(), 1);
    assert_eq!(texts[0].text, "Y");
    // With a mismatch allowed the first glyph of the size already matches.
    let texts = ocr_base(&lib, &ranges, 0);
    assert_eq!(texts[0].text, "X");
}

#[test]
fn test_ocr_range_without_bitmap_matches_any_glyph_of_its_size() {
    let lib = lib_parse("Q|2,2|0110", "lib");
    let mut r = range(3, 3, 2, 2, vec![]);
    r.source = Tu8uc1::new(0, 0, vec![], 255);
    r.is_empty_source = true;
    let texts = ocr_base(&lib, &vec![r], 100);
    assert_eq!(texts.len(), 1);
    assert_eq!(texts[0].text, "Q");
}

#[test]
fn test_ocr_of_no_ranges_is_empty() {
    let lib = lib_parse("A|1,1|1", "lib");
    let ranges: Vec<InciseRange> = vec![];
    assert!(ocr_base(&lib, &ranges, 100).is_empty());
}

#[test]
fn test_ocr_lower_similarity_reads_no_fewer_texts() {
    let lib = lib_parse("A|2,1|11\r\nB|1,1|1", "lib");
    let ranges = vec![range(0, 0, 2, 1, vec![255, 0]), range(5, 0, 1, 1, vec![255])];
    let strict = ocr_base(&lib, &ranges, 100).len();
    let loose = ocr_base(&lib, &ranges, 0).len();
    assert_eq!((strict, loose), (1, 2));
}
