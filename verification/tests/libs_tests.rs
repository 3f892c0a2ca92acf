use ocr_lib::libs::{find_char_bounday, lib_parse, lib_try_parse};

#[test]
fn test_char_boundary_of_ascii_is_one() {
    assert_eq!(find_char_bounday("abc", 0), 1);
    assert_eq!(find_char_bounday("abc", 2), 1);
}

#[test]
fn test_char_boundary_of_multibyte_characters() {
    let s = "a\u{e9}\u{6c49}";
    assert_eq!(find_char_bounday(s, 1), 2);
    assert_eq!(find_char_bounday(s, 3), 3);
}

#[test]
fn test_char_boundary_at_or_past_the_end_returns_index() {
    assert_eq!(find_char_bounday("ab", 2), 2);
    assert_eq!(find_char_bounday("ab", 10), 10);
    assert_eq!(find_char_bounday("", 0), 0);
}

#[test]
fn test_char_boundary_inside_a_character() {
    // Byte 1 lies inside the three-byte character; the next boundary is at byte 3.
    assert_eq!(find_char_bounday("\u{6c49}", 1), 2);
}

#[test]
fn test_lib_parse_reads_each_line() {
    let lib = lib_parse("A|2,1|11\r\nB|1,1|1", "lib1");
    assert_eq!(lib.name, "lib1");
    assert_eq!(lib.data.len(), 2);
    let a = &lib.data[0];
    assert_eq!(a.text, "A");
    assert_eq!(a.cols, 2);
    assert_eq!(a.rows, 1);
    assert_eq!(a.buffer, vec![255, 255]);
    assert_eq!(a.num_pixels, 2);
    assert_eq!(a.num_text_length, 2);
    let b = &lib.data[1];
    assert_eq!(b.text, "B");
    assert_eq!(b.buffer, vec![255]);
}

#[test]
fn test_lib_parse_bits_are_column_by_column() {
    let lib = lib_parse("L|2,2|1101", "l");
    let l = &lib.data[0];
    assert_eq!(l.cols, 2);
    assert_eq!(l.rows, 2);
    // Column 0 holds rows 0 and 1 set; column 1 holds only row 1.
    assert_eq!(l.buffer, vec![255, 0, 255, 255]);
    assert_eq!(l.num_text_length, 3);
    assert_eq!(l.num_pixels, 4);
}

#[test]
fn test_lib_parse_multibyte_text_and_wide_sizes() {
    let lib = lib_parse("\u{6c49}|3,12|000000000000111111111111000000000001", "cn");
    let g = &lib.data[0];
    assert_eq!(g.text, "\u{6c49}");
    assert_eq!(g.cols, 3);
    assert_eq!(g.rows, 12);
    assert_eq!(g.num_pixels, 36);
    assert_eq!(g.num_text_length, 13);
    // Column 1 is fully set; of column 2 only the last row.
    for h in 0..12usize {
        assert_eq!(g.buffer[h * 3], 0);
        assert_eq!(g.buffer[h * 3 + 1], 255);
        assert_eq!(g.buffer[h * 3 + 2], if h == 11 { 255 } else { 0 });
    }
}

#[test]
fn test_lib_try_parse_accepts_a_good_library() {
    let lib = lib_try_parse("A|2,1|11\r\nB|1,1|1", "lib1").unwrap();
    assert_eq!(lib.name, "lib1");
    assert_eq!(lib.data.len(), 2);
    assert_eq!(lib.data[1].text, "B");
}

#[test]
fn test_lib_try_parse_refuses_a_bad_size() {
    assert!(lib_try_parse("A|x,1|11", "lib").is_none());
    assert!(lib_try_parse("A|2,y|11", "lib").is_none());
    assert!(lib_try_parse("A|2,1|11\r\nB|1,1|1\r\nC|1,99999999999|1", "lib").is_none());
}

#[test]
fn test_lib_try_parse_refuses_missing_bits() {
    assert!(lib_try_parse("A|2,2|11", "lib").is_none());
    assert!(lib_try_parse("A|2,1|11\r\n", "lib").is_some());
}
