use vstd::prelude::*;
use vstd::string::StringSliceAdditionalSpecFns;
use vstd::utf8::{
    encode_utf8, encode_utf8_valid_utf8, is_char_boundary, is_char_boundary_start_end_of_seq,
    is_char_boundary_iff_not_is_continuation_byte, is_continuation_byte, valid_utf8, valid_utf8_split,
    pop_first_scalar, valid_first_scalar,
};
use crate::filter::{all_digits, digits_value, is_digit, lemma_digits_value_grows, lemma_digits_value_nonneg, lin};

verus! {

/// The distance in bytes from `index` to the next character boundary after it.
pub open spec fn char_width_at(b: Seq<u8>, index: int, w: int) -> bool {
    &&& w >= 1
    &&& index + w <= b.len()
    &&& is_char_boundary(b, index + w)
    &&& forall|j: int| index < j < index + w ==> !#[trigger] is_char_boundary(b, j)
}

/// The number of bytes of the character that starts at byte `index` of `s`: the distance to
/// the next character boundary. Where `index` is at or past the end, `index` itself.
pub fn find_char_bounday(s: &str, index: usize) -> (r: usize)
    ensures
        s.spec_bytes().len() <= index ==> r == index,
        s.spec_bytes().len() > index ==> char_width_at(s.spec_bytes(), index as int, r as int),
{
    let ghost b = s.spec_bytes();
    proof {
        encode_utf8_valid_utf8(s@);
        is_char_boundary_start_end_of_seq(b);
    }
    let bytes: &[u8] = s.as_bytes();
    assert(bytes@.len() == bytes.len());
    if s.len() <= index {
        return index;
    }
    let mut idx = index + 1;
    while !s.is_char_boundary(idx)
        invariant
            b == s.spec_bytes(),
            valid_utf8(b),
            is_char_boundary(b, b.len() as int),
            index < idx <= b.len(),
            b.len() <= usize::MAX,
            forall|j: int| index < j < idx ==> !#[trigger] is_char_boundary(b, j),
        decreases b.len() - idx,
    {
        idx += 1;
    }
    idx - index
}


/// One glyph of a library: the text it stands for and its bitmap.
#[derive(Debug)]
pub struct TuLibText {
    pub text: String,
    pub cols: i32,
    pub rows: i32,
    pub buffer: Vec<u8>,
    pub num_text_length: i32,
    pub num_pixels: i32,
}

/// A named library of glyphs.
#[derive(Debug)]
pub struct TuLib {
    pub name: String,
    pub data: Vec<TuLibText>,
}

/// An ASCII byte in valid UTF-8 ends a character: the next index is a boundary.
pub proof fn lemma_after_ascii(b: Seq<u8>, k: int)
    requires
        valid_utf8(b),
        0 <= k < b.len(),
        b[k] < 128,
    ensures
        is_char_boundary(b, k),
        is_char_boundary(b, k + 1),
{
    is_char_boundary_start_end_of_seq(b);
    is_char_boundary_iff_not_is_continuation_byte(b, k);
    if k + 1 < b.len() {
        valid_utf8_split(b, k);
        let tail = b.subrange(k, b.len() as int);
        assert(valid_utf8(tail));
        assert(tail[0] == b[k]);
        let rest = pop_first_scalar(tail);
        assert(rest =~= b.subrange(k + 1, b.len() as int));
        assert(valid_utf8(rest));
        assert(valid_first_scalar(rest));
        assert(rest[0] == b[k + 1]);
        is_char_boundary_iff_not_is_continuation_byte(b, k + 1);
    }
}

/// The value of `s` read as an `i32` in decimal, as `str::parse::<i32>` reads it: an optional
/// `+` or `-` followed by at least one digit, with a value in the range of `i32`.
pub open spec fn i32_value(s: Seq<u8>) -> Option<i32> {
    let neg = s.len() > 0 && s[0] == 45;
    let d = if s.len() > 0 && (s[0] == 43 || s[0] == 45) { s.drop_first() } else { s };
    let v = if neg { -digits_value(d) } else { digits_value(d) };
    if all_digits(d) && i32::MIN <= v <= i32::MAX {
        Some(v as i32)
    } else {
        None
    }
}

/// Reads the bytes `t[start..end]` as an `i32` the way `str::parse::<i32>` does.
fn parse_i32(t: &[u8], start: usize, end: usize) -> (r: Option<i32>)
    requires
        start <= end <= t@.len(),
    ensures
        r == i32_value(t@.subrange(start as int, end as int)),
{
    let ghost s = t@.subrange(start as int, end as int);
    let mut i = start;
    let mut neg = false;
    if start < end && (t[start] == 43 || t[start] == 45) {
        neg = t[start] == 45;
        i = start + 1;
    }
    let ghost d = t@.subrange(i as int, end as int);
    assert(d =~= (if s.len() > 0 && (s[0] == 43 || s[0] == 45) { s.drop_first() } else { s }));
    if i == end {
        return None;
    }
    let mut value: i64 = 0;
    let mut j = i;
    while j < end
        invariant
            i <= j <= end <= t@.len(),
            d == t@.subrange(i as int, end as int),
            s == t@.subrange(start as int, end as int),
            d == (if s.len() > 0 && (s[0] == 43 || s[0] == 45) { s.drop_first() } else { s }),
            neg == (s.len() > 0 && s[0] == 45),
            forall|k: int| i <= k < j ==> is_digit(#[trigger] t@[k]),
            value == digits_value(t@.subrange(i as int, j as int)),
            0 <= value <= 2147483648,
        decreases end - j,
    {
        let c = t[j];
        if !(48 <= c && c <= 57) {
            assert(!is_digit(d[j - i]));
            return None;
        }
        assert(t@.subrange(i as int, j + 1).drop_last() =~= t@.subrange(i as int, j as int));
        let next: i64 = value * 10 + (c - 48) as i64;
        if next > 2147483648 {
            proof {
                if all_digits(d) {
                    lemma_digits_value_grows(d, (j + 1 - i) as int);
                    assert(t@.subrange(i as int, j + 1) =~= d.subrange(0, j + 1 - i));
                }
            }
            return None;
        }
        value = next;
        j = j + 1;
    }
    assert(t@.subrange(i as int, j as int) =~= d);
    if neg {
        Some((-value) as i32)
    } else if value > 2147483647 {
        None
    } else {
        Some(value as i32)
    }
}

/// The header of a line of a library, `text|cols,rows|bits`, read from byte `i` on in the
/// state (`cols`, `rows`, `rows_start`, `text_end`): every `,` after the first byte reads
/// the columns from what lies between the end of the text and it; the first `|` (at a
/// position other than 0) ends the text; the next one reads the rows from what lies between
/// the last `,` and it, and the bits start after it. The result is the columns, rows, end of
/// the text and start of the bits (0 if the second `|` never comes); `None` where a number
/// does not read.
pub open spec fn header(b: Seq<u8>, i: int, cols: i32, rows: i32, rows_start: int, text_end: int) -> Option<
    (i32, i32, int, int),
>
    decreases b.len() - i,
{
    if i >= b.len() || i < 0 {
        Some((cols, rows, text_end, 0))
    } else {
        let c = b[i];
        let comma = i > 0 && c == 44;
        let cols1 = if comma { i32_value(b.subrange(text_end + 1, i)) } else { Some(cols) };
        let rs1 = if comma { i } else { rows_start };
        match cols1 {
            None => None,
            Some(cv) => if c == 124 {
                if text_end == 0 {
                    header(b, i + 1, cv, rows, rs1, i)
                } else {
                    match i32_value(b.subrange(rs1 + 1, i)) {
                        None => None,
                        Some(rv) => Some((cv, rv, text_end, i + 1)),
                    }
                }
            } else {
                header(b, i + 1, cv, rows, rs1, text_end)
            },
        }
    }
}

/// The header of the line `b`.
pub open spec fn line_header(b: Seq<u8>) -> Option<(i32, i32, int, int)> {
    header(b, 0, 0, 0, 0, 0)
}

/// The glyph's size can be allocated and its pixel count fits in an `i32`.
pub open spec fn sizes_ok(cols: int, rows: int) -> bool {
    cols == 0 || rows == 0 || (cols > 0 && rows > 0 && cols * rows <= i32::MAX)
}

/// The number of pixels of a glyph of that size.
pub open spec fn glyph_len(cols: int, rows: int) -> int {
    if cols > 0 && rows > 0 { cols * rows } else { 0 }
}

/// The line `b` reads as a glyph: its header reads, its size fits, and its bits lie in the
/// line as ASCII bytes.
pub open spec fn line_ok(b: Seq<u8>) -> bool {
    match line_header(b) {
        None => false,
        Some((c, r, te, bs)) => {
            &&& sizes_ok(c as int, r as int)
            &&& bs + glyph_len(c as int, r as int) <= b.len()
            &&& forall|k: int| bs <= k < bs + glyph_len(c as int, r as int) ==> #[trigger] b[k] < 128
        },
    }
}

/// The number of `1` bytes among the `n` bytes of `b` from `from` on.
pub open spec fn ones(b: Seq<u8>, from: int, n: int) -> int
    decreases n,
{
    if n <= 0 {
        0
    } else {
        ones(b, from, n - 1) + if b[from + n - 1] == 49 { 1int } else { 0int }
    }
}

pub proof fn lemma_ones_bound(b: Seq<u8>, from: int, n: int)
    requires
        n >= 0,
    ensures
        0 <= ones(b, from, n) <= n,
    decreases n,
{
    if n > 0 {
        lemma_ones_bound(b, from, n - 1);
    }
}

/// The glyph `t` is what the line `b` describes: its text is the line's bytes before the first
/// `|`, its size is the header's, and pixel (`w`, `h`) is 255 where bit `w * rows + h` is `1`
/// (the bits list the glyph column by column), 0 elsewhere.
pub open spec fn glyph_of(t: TuLibText, b: Seq<u8>) -> bool {
    let (c, r, te, bs) = line_header(b)->0;
    &&& t.cols == c
    &&& t.rows == r
    &&& encode_utf8(t.text@) == b.subrange(0, te)
    &&& t.num_pixels == c * r
    &&& t.buffer@.len() == glyph_len(c as int, r as int)
    &&& forall|w: int, h: int|
        0 <= w < c && 0 <= h < r ==> t.buffer@[#[trigger] lin(w, h, c as int)] == (if b[bs + w * r + h] == 49 {
            255u8
        } else {
            0u8
        })
    &&& t.num_text_length == ones(b, bs, glyph_len(c as int, r as int))
}


/// Skipping the continuation bytes of a character leaves the header unchanged.
proof fn lemma_header_skip(b: Seq<u8>, i: int, j: int, cols: i32, rows: i32, rs: int, te: int)
    requires
        0 <= i <= j <= b.len(),
        forall|k: int| i <= k < j ==> is_continuation_byte(#[trigger] b[k]),
    ensures
        header(b, i, cols, rows, rs, te) == header(b, j, cols, rows, rs, te),
    decreases j - i,
{
    if i < j {
        assert(is_continuation_byte(b[i]));
        lemma_header_skip(b, i + 1, j, cols, rows, rs, te);
    }
}

/// Distinct pixels of a grid have distinct linear indices.
proof fn lemma_lin_inj(w1: int, h1: int, w2: int, h2: int, c: int)
    requires
        0 <= w1 < c,
        0 <= w2 < c,
        lin(w1, h1, c) == lin(w2, h2, c),
    ensures
        w1 == w2,
        h1 == h2,
{
    assert(h1 == h2) by (nonlinear_arith)
        requires 0 <= w1 < c, 0 <= w2 < c, h1 * c + w1 == h2 * c + w2;
}

/// Reads the header of a line: columns, rows, end of the text, start of the bits; `None`
/// where a size does not read as an `i32`.
fn read_header(item: &str) -> (r: Option<(i32, i32, usize, usize)>)
    ensures
        match r {
            None => line_header(item.spec_bytes()) is None,
            Some(h) => {
                &&& line_header(item.spec_bytes()) == Some((h.0, h.1, h.2 as int, h.3 as int))
                &&& (h.2 == 0 || (h.2 < item.spec_bytes().len() && item.spec_bytes()[h.2 as int] == 124))
            },
        },
{
    let ghost b = item.spec_bytes();
    proof {
        encode_utf8_valid_utf8(item@);
        is_char_boundary_start_end_of_seq(b);
    }
    let bytes: &[u8] = item.as_bytes();
    let n = bytes.len();
    let ghost goal = line_header(b);
    let mut cols: i32 = 0;
    let mut rows: i32 = 0;
    let mut rows_start: usize = 0;
    let mut text_end: usize = 0;
    let mut binary_start: usize = 0;
    let mut i: usize = 0;
    while i < n
        invariant_except_break
            header(b, i as int, cols, rows, rows_start as int, text_end as int) == goal,
            binary_start == 0,
        invariant
            b == bytes@,
            b == item.spec_bytes(),
            n == b.len(),
            valid_utf8(b),
            goal == line_header(b),
            0 <= i <= n,
            rows_start <= i,
            text_end <= i,
            text_end == 0 || (text_end < n && b[text_end as int] == 124),
            text_end < i || text_end == 0,
            rows_start < i || rows_start == 0,
        ensures
            goal == Some((cols, rows, text_end as int, binary_start as int)),
            text_end == 0 || (text_end < n && b[text_end as int] == 124),
        decreases n - i,
    {
        let len = find_char_bounday(item, i);
        proof {
            assert(0 <= i < b.len());
            if b[i as int] < 128 {
                lemma_after_ascii(b, i as int);
                assert(len == 1) by {
                    if len > 1 {
                        assert(!is_char_boundary(b, i + 1));
                    }
                }
            }
        }
        let ghost c = b[i as int];
        let ghost st = (cols, rows, rows_start, text_end);
        if i > 0 && bytes[i] == 44 {
            match parse_i32(bytes, text_end + len, i) {
                None => {
                    return None;
                },
                Some(v) => {
                    cols = v;
                },
            }
            rows_start = i;
        }
        if bytes[i] == 124 {
            if text_end == 0 {
                text_end = i;
            } else {
                match parse_i32(bytes, rows_start + len, i) {
                    None => {
                        return None;
                    },
                    Some(v) => {
                        rows = v;
                    },
                }
                binary_start = i + 1;
                break;
            }
        }
        proof {
            assert(header(b, i as int, st.0, st.1, st.2 as int, st.3 as int) == header(
                b,
                i + 1,
                cols,
                rows,
                rows_start as int,
                text_end as int,
            ));
            assert forall|k: int| i + 1 <= k < i + len implies is_continuation_byte(#[trigger] b[k]) by {
                assert(!is_char_boundary(b, k));
                is_char_boundary_iff_not_is_continuation_byte(b, k);
            }
            lemma_header_skip(b, i + 1, i + len, cols, rows, rows_start as int, text_end as int);
        }
        i += len;
    }
    Some((cols, rows, text_end, binary_start))
}

/// Whether the line `item` reads as a glyph.
fn line_reads(item: &str) -> (r: bool)
    ensures
        r == line_ok(item.spec_bytes()),
{
    let ghost b = item.spec_bytes();
    let bytes: &[u8] = item.as_bytes();
    assert(bytes@ == b);
    let n = bytes.len();
    match read_header(item) {
        None => false,
        Some((cols, rows, text_end, binary_start)) => {
            if !(cols == 0 || rows == 0 || (cols > 0 && rows > 0)) {
                return false;
            }
            let mut glen: usize = 0;
            if cols > 0 && rows > 0 {
                assert((cols as int) * (rows as int) <= 0x4000_0000_0000_0000) by (nonlinear_arith)
                    requires 0 < cols <= 0x8000_0000, 0 < rows <= 0x8000_0000;
                let p: i64 = (cols as i64) * (rows as i64);
                if p > 0x7fff_ffff {
                    return false;
                }
                glen = (cols as usize) * (rows as usize);
            }
            assert(glen == glyph_len(cols as int, rows as int));
            if binary_start > n || glen > n - binary_start {
                return false;
            }
            let end = binary_start + glen;
            let mut k = binary_start;
            while k < end
                invariant
                    bytes@ == b,
                    b == item.spec_bytes(),
                    n == b.len(),
                    binary_start <= k <= end <= n,
                    line_header(b) == Some((cols, rows, text_end as int, binary_start as int)),
                    sizes_ok(cols as int, rows as int),
                    end == binary_start + glyph_len(cols as int, rows as int),
                    forall|j: int| binary_start <= j < k ==> #[trigger] b[j] < 128,
                decreases end - k,
            {
                if bytes[k] >= 128 {
                    assert(b[k as int] >= 128);
                    return false;
                }
                k += 1;
            }
            true
        },
    }
}

/// Reads one line of a library, `text|cols,rows|bits`, into a glyph.
fn parse_line(item: &str) -> (t: TuLibText)
    requires
        line_ok(item.spec_bytes()),
    ensures
        glyph_of(t, item.spec_bytes()),
{
    let ghost b = item.spec_bytes();
    proof {
        encode_utf8_valid_utf8(item@);
        is_char_boundary_start_end_of_seq(b);
    }
    let bytes: &[u8] = item.as_bytes();
    let (cols, rows, text_end, binary_start) = read_header(item).unwrap();
    let ghost glen = glyph_len(cols as int, rows as int);
    proof {
        assert(sizes_ok(cols as int, rows as int));
        assert(binary_start + glen <= b.len());
        if cols > 0 && rows > 0 {
            assert(glen == cols * rows);
        }
    }
    let size: usize = if cols > 0 && rows > 0 {
        cols as usize * rows as usize
    } else {
        0
    };
    let mut buf: Vec<u8> = vec![0; size];
    proof {
        if cols > 0 && rows == 0 {
            assert(cols * rows == 0) by (nonlinear_arith)
                requires rows == 0;
        }
        assert(bytes@.len() == bytes.len());
        assert forall|w1: int, h1: int| 0 <= w1 < cols && 0 <= h1 < rows implies buf@[#[trigger] lin(
            w1,
            h1,
            cols as int,
        )] == 0u8 by {
            assert(0 <= h1 * cols + w1 < cols * rows) by (nonlinear_arith)
                requires 0 <= w1 < cols, 0 <= h1 < rows;
        }
    }
    let mut idx: usize = 0;
    let mut num_text_length: i32 = 0;
    let mut w: i32 = 0;
    while w < cols
        invariant
            b == bytes@,
            b.len() <= usize::MAX,
            line_ok(b),
            sizes_ok(cols as int, rows as int),
            glen == glyph_len(cols as int, rows as int),
            binary_start + glen <= b.len(),
            buf@.len() == glen,
            0 <= w,
            w <= cols || (cols <= 0 && w == 0),
            cols > 0 ==> rows >= 0 && glen == cols * rows,
            idx == w * rows,
            num_text_length == ones(b, binary_start as int, idx as int),
            forall|w1: int, h1: int|
                0 <= w1 < cols && 0 <= h1 < rows ==> buf@[#[trigger] lin(w1, h1, cols as int)] == (if w1 < w
                    && b[binary_start + w1 * rows + h1] == 49 {
                    255u8
                } else {
                    0u8
                }),
        decreases cols - w,
    {
        let mut h: i32 = 0;
        proof {
            assert((w + 1) * rows <= cols * rows) by (nonlinear_arith)
                requires w < cols, rows >= 0;
        }
        while h < rows
            invariant
                b == bytes@,
                b.len() <= usize::MAX,
                line_ok(b),
                sizes_ok(cols as int, rows as int),
                rows >= 0,
                glen == cols * rows,
                (w + 1) * rows <= glen,
                binary_start + glen <= b.len(),
                buf@.len() == glen,
                0 <= w < cols,
                0 <= h <= rows,
                idx == w * rows + h,
                num_text_length == ones(b, binary_start as int, idx as int),
                forall|w1: int, h1: int|
                    0 <= w1 < cols && 0 <= h1 < rows ==> buf@[#[trigger] lin(w1, h1, cols as int)] == (if (w1 < w
                        || (w1 == w && h1 < h)) && b[binary_start + w1 * rows + h1] == 49 {
                        255u8
                    } else {
                        0u8
                    }),
            decreases rows - h,
        {
            proof {
                assert(idx + 1 <= glen) by (nonlinear_arith)
                    requires idx == w * rows + h, h < rows, (w + 1) * rows <= glen;
                assert(0 <= h * cols + w < glen) by (nonlinear_arith)
                    requires 0 <= w < cols, 0 <= h < rows, glen == cols * rows;
                lemma_ones_bound(b, binary_start as int, idx as int);
            }
            let ghost before = buf@;
            let k: usize = h as usize * cols as usize + w as usize;
            if bytes[binary_start + idx] == 49 {
                buf.set(k, 255);
                num_text_length += 1;
            }
            proof {
                assert(binary_start + idx == binary_start + w * rows + h);
                assert forall|w1: int, h1: int| 0 <= w1 < cols && 0 <= h1 < rows implies buf@[#[trigger] lin(
                    w1,
                    h1,
                    cols as int,
                )] == (if (w1 < w || (w1 == w && h1 < h + 1)) && b[binary_start + w1 * rows + h1] == 49 {
                    255u8
                } else {
                    0u8
                }) by {
                    if lin(w1, h1, cols as int) == k {
                        lemma_lin_inj(w1, h1, w as int, h as int, cols as int);
                    } else {
                        assert(w1 != w || h1 != h);
                        assert(0 <= h1 * cols + w1 < glen) by (nonlinear_arith)
                            requires 0 <= w1 < cols, 0 <= h1 < rows, glen == cols * rows;
                        assert(buf@[lin(w1, h1, cols as int)] == before[lin(w1, h1, cols as int)]);
                    }
                }
            }
            idx += 1;
            h += 1;
        }
        proof {
            assert(idx == (w + 1) * rows) by (nonlinear_arith)
                requires idx == w * rows + h, h == rows;
        }
        w += 1;
    }
    proof {
        if cols > 0 {
            assert(idx == glen) by (nonlinear_arith)
                requires idx == w * rows, w == cols, glen == cols * rows;
        } else {
            assert(glen == 0);
            assert(w == 0);
            assert(idx == 0) by (nonlinear_arith)
                requires idx == w * rows, w == 0;
        }
    }
    proof {
        if text_end > 0 {
            is_char_boundary_iff_not_is_continuation_byte(b, text_end as int);
        }
    }
    let (head, _tail) = item.split_at(text_end);
    let text = head.to_owned();
    assert(head.spec_bytes() == b.subrange(0, text_end as int));
    proof {
        if cols == 0 || rows == 0 {
            assert(cols * rows == 0) by (nonlinear_arith)
                requires cols == 0 || rows == 0;
        }
    }
    TuLibText { text, cols, rows, buffer: buf, num_text_length, num_pixels: cols * rows }
}


/// The index of the first `\r\n` in `b` at or after `k`, or -1.
pub open spec fn first_crlf(b: Seq<u8>, k: int) -> int
    decreases b.len() - k,
{
    if k < 0 || k + 1 >= b.len() {
        -1
    } else if b[k] == 13 && b[k + 1] == 10 {
        k
    } else {
        first_crlf(b, k + 1)
    }
}

pub proof fn lemma_first_crlf(b: Seq<u8>, k: int)
    requires
        k >= 0,
    ensures
        first_crlf(b, k) == -1 || (k <= first_crlf(b, k) && first_crlf(b, k) + 1 < b.len()),
    decreases b.len() - k,
{
    if !(k + 1 >= b.len()) && !(b[k] == 13 && b[k + 1] == 10) {
        lemma_first_crlf(b, k + 1);
    }
}

/// The lines of `b`, as `str::split("\r\n")` yields them: the pieces between the
/// occurrences of `\r\n`, found from left to right.
pub open spec fn crlf_lines(b: Seq<u8>) -> Seq<Seq<u8>>
    decreases b.len(),
{
    let k = first_crlf(b, 0);
    if k < 0 {
        seq![b]
    } else {
        proof {
            lemma_first_crlf(b, 0);
        }
        seq![b.subrange(0, k)] + crlf_lines(b.subrange(k + 2, b.len() as int))
    }
}

/// The part of `s` from byte `a` up to byte `e`.
fn piece<'a>(s: &'a str, a: usize, e: usize) -> (r: &'a str)
    requires
        a <= e <= s.spec_bytes().len(),
        a == 0 || (s.spec_bytes()[a - 1] < 128),
        e == s.spec_bytes().len() || s.spec_bytes()[e as int] < 128,
    ensures
        r.spec_bytes() == s.spec_bytes().subrange(a as int, e as int),
{
    let ghost b = s.spec_bytes();
    proof {
        encode_utf8_valid_utf8(s@);
        is_char_boundary_start_end_of_seq(b);
        if a > 0 {
            lemma_after_ascii(b, a - 1);
        }
    }
    let (_head, rest) = s.split_at(a);
    let ghost rb = rest.spec_bytes();
    proof {
        encode_utf8_valid_utf8(rest@);
        is_char_boundary_start_end_of_seq(rb);
        assert(rb == b.subrange(a as int, b.len() as int));
        if e < b.len() {
            assert(rb[e - a] == b[e as int]);
            is_char_boundary_iff_not_is_continuation_byte(rb, e - a);
        }
    }
    let (line, _rest) = rest.split_at(e - a);
    assert(line.spec_bytes() =~= b.subrange(a as int, e as int));
    line
}

/// Whether every line of `contents` reads as a glyph.
pub open spec fn lib_ok(contents: Seq<u8>) -> bool {
    forall|k: int| 0 <= k < crlf_lines(contents).len() ==> line_ok(#[trigger] crlf_lines(contents)[k])
}

/// `lib` is the library named `name` read from `contents`: one glyph per line, in order.
pub open spec fn lib_of(lib: TuLib, contents: Seq<u8>, name: Seq<char>) -> bool {
    &&& lib.name@ == name
    &&& lib.data@.len() == crlf_lines(contents).len()
    &&& forall|k: int| 0 <= k < lib.data@.len() ==> glyph_of(#[trigger] lib.data@[k], crlf_lines(contents)[k])
}

/// Reads a library: each line of `contents`, separated by `\r\n`, is a glyph
/// `text|cols,rows|bits` whose bits list the glyph column by column, `1` for a set pixel.
pub fn lib_parse(contents: &str, name: &str) -> (lib: TuLib)
    requires
        lib_ok(contents.spec_bytes()),
    ensures
        lib_of(lib, contents.spec_bytes(), name@),
{
    let r = lib_try_parse(contents, name);
    r.unwrap()
}

/// Reads a library as `lib_parse` does where every line reads as a glyph, and gives `None`
/// where one does not.
pub fn lib_try_parse(contents: &str, name: &str) -> (r: Option<TuLib>)
    ensures
        r is Some <==> lib_ok(contents.spec_bytes()),
        r matches Some(lib) ==> lib_of(lib, contents.spec_bytes(), name@),
{
    let ghost b = contents.spec_bytes();
    let ghost all = crlf_lines(b);
    let mut lib = TuLib { name: name.to_owned(), data: Vec::new() };
    let bytes: &[u8] = contents.as_bytes();
    let n = bytes.len();
    let mut start: usize = 0;
    let mut j: usize = 0;
    let ghost mut done: Seq<Seq<u8>> = Seq::empty();
    proof {
        assert(b.subrange(0, b.len() as int) =~= b);
    }
    while j < n && j + 1 < n
        invariant
            b == bytes@,
            b == contents.spec_bytes(),
            n == b.len(),
            all == crlf_lines(b),
            forall|k: int| 0 <= k < done.len() ==> line_ok(#[trigger] all[k]),
            lib.name@ == name@,
            start <= j <= n,
            start == 0 || (start >= 2 && b[start - 1] == 10),
            all == done + crlf_lines(b.subrange(start as int, n as int)),
            first_crlf(b.subrange(start as int, n as int), 0) == first_crlf(
                b.subrange(start as int, n as int),
                j - start,
            ),
            lib.data@.len() == done.len(),
            forall|k: int| 0 <= k < done.len() ==> glyph_of(#[trigger] lib.data@[k], done[k]),
        decreases n - j,
    {
        let ghost sub = b.subrange(start as int, n as int);
        if bytes[j] == 13 && bytes[j + 1] == 10 {
            proof {
                assert(sub[j - start] == 13 && sub[j - start + 1] == 10);
                assert(first_crlf(sub, j - start) == j - start);
                assert(sub.subrange(0, j - start) =~= b.subrange(start as int, j as int));
                assert(sub.subrange(j - start + 2, sub.len() as int) =~= b.subrange(j + 2, n as int));
                assert(crlf_lines(sub) == seq![b.subrange(start as int, j as int)] + crlf_lines(
                    b.subrange(j + 2, n as int),
                ));
                assert(all[done.len() as int] == b.subrange(start as int, j as int));
            }
            let item = piece(contents, start, j);
            if !line_reads(item) {
                assert(!line_ok(all[done.len() as int]));
                return None;
            }
            let t = parse_line(item);
            lib.data.push(t);
            proof {
                assert(all =~= done.push(b.subrange(start as int, j as int)) + crlf_lines(b.subrange(j + 2, n as int)));
                done = done.push(b.subrange(start as int, j as int));
            }
            start = j + 2;
            j = j + 2;
        } else {
            proof {
                assert(sub[j - start] == b[j as int]);
                assert(sub[j - start + 1] == b[j + 1]);
            }
            j = j + 1;
        }
    }
    proof {
        let sub = b.subrange(start as int, n as int);
        assert(first_crlf(sub, j - start) == -1);
        assert(crlf_lines(sub) == seq![sub]);
        assert(all[done.len() as int] == sub);
    }
    let item = piece(contents, start, n);
    if !line_reads(item) {
        assert(!line_ok(all[done.len() as int]));
        return None;
    }
    let t = parse_line(item);
    lib.data.push(t);
    proof {
        assert(all =~= done.push(b.subrange(start as int, n as int)));
    }
    Some(lib)
}

/// Reading the header over bytes that are neither `,` nor `|` changes nothing.
proof fn lemma_header_plain(b: Seq<u8>, i: int, j: int, cols: i32, rows: i32, rs: int, te: int)
    requires
        0 <= i <= j <= b.len(),
        forall|m: int| i <= m < j ==> #[trigger] b[m] != 44 && b[m] != 124,
    ensures
        header(b, i, cols, rows, rs, te) == header(b, j, cols, rows, rs, te),
    decreases j - i,
{
    if i < j {
        assert(b[i] != 44 && b[i] != 124);
        lemma_header_plain(b, i + 1, j, cols, rows, rs, te);
    }
}

/// A string of decimal digits reads as its value.
proof fn lemma_i32_value_digits(d: Seq<u8>)
    requires
        all_digits(d),
        digits_value(d) <= i32::MAX,
    ensures
        i32_value(d) == Some(digits_value(d) as i32),
{
    lemma_digits_value_nonneg(d);
    assert(is_digit(d[0]));
}

/// The line `text|cols,rows|bits`.
pub open spec fn glyph_line(text: Seq<u8>, cols: Seq<u8>, rows: Seq<u8>, bits: Seq<u8>) -> Seq<u8> {
    text + seq![124u8] + cols + seq![44u8] + rows + seq![124u8] + bits
}

/// A glyph line `text|cols,rows|bits`, whose text holds neither `,` nor `|` and whose sizes are
/// decimal numerals that fit an `i32`, reads with the value of all the digits between the first
/// `|` and the `,` as its column count and the value of all the digits between the `,` and the
/// second `|` as its row count; its text ends at the first `|` and its bits start after the
/// second. A glyph that `lib_parse` reads from such a line has these sizes and this text, and
/// its pixel at column `w` and row `h` is set exactly where the bit at `w * rows + h` is `1`:
/// the bits list the glyph column by column.
pub proof fn law_glyph_line_sizes(text: Seq<u8>, cols: Seq<u8>, rows: Seq<u8>, bits: Seq<u8>)
    requires
        text.len() > 0,
        forall|m: int| 0 <= m < text.len() ==> #[trigger] text[m] != 44 && text[m] != 124,
        all_digits(cols),
        all_digits(rows),
        digits_value(cols) <= i32::MAX,
        digits_value(rows) <= i32::MAX,
    ensures
        line_header(glyph_line(text, cols, rows, bits)) == Some(
            (
                digits_value(cols) as i32,
                digits_value(rows) as i32,
                text.len() as int,
                (text.len() + cols.len() + rows.len() + 3) as int,
            ),
        ),
        forall|t: TuLibText|
            #[trigger] glyph_of(t, glyph_line(text, cols, rows, bits)) ==> t.cols == digits_value(cols) && t.rows
                == digits_value(rows) && t.num_pixels == digits_value(cols) * digits_value(rows) && encode_utf8(
                t.text@,
            ) == text,
        forall|t: TuLibText, w: int, h: int|
            #![trigger glyph_of(t, glyph_line(text, cols, rows, bits)), t.buffer@[h * digits_value(cols) + w]]
            glyph_of(t, glyph_line(text, cols, rows, bits)) && 0 <= w < digits_value(cols) && 0 <= h < digits_value(
                rows,
            ) && w * digits_value(rows) + h < bits.len() ==> t.buffer@[h * digits_value(cols) + w] == (if bits[w * digits_value(rows) + h] == 49 {
                255u8
            } else {
                0u8
            }),
{
    let b = glyph_line(text, cols, rows, bits);
    let p1 = text.len() as int;
    let p2 = p1 + 1 + cols.len();
    let p3 = p2 + 1 + rows.len();
    assert(b.len() == p3 + 1 + bits.len());
    assert forall|m: int| 0 <= m < p1 implies #[trigger] b[m] != 44 && b[m] != 124 by {
        assert(b[m] == text[m]);
    }
    assert(b[p1] == 124);
    assert forall|m: int| p1 + 1 <= m < p2 implies #[trigger] b[m] != 44 && b[m] != 124 by {
        assert(b[m] == cols[m - p1 - 1]);
        assert(is_digit(cols[m - p1 - 1]));
    }
    assert(b[p2] == 44);
    assert forall|m: int| p2 + 1 <= m < p3 implies #[trigger] b[m] != 44 && b[m] != 124 by {
        assert(b[m] == rows[m - p2 - 1]);
        assert(is_digit(rows[m - p2 - 1]));
    }
    assert(b[p3] == 124);
    assert(b.subrange(p1 + 1, p2) =~= cols);
    assert(b.subrange(p2 + 1, p3) =~= rows);
    assert(b.subrange(0, p1) =~= text);
    lemma_i32_value_digits(cols);
    lemma_i32_value_digits(rows);
    let cv = digits_value(cols) as i32;
    let rv = digits_value(rows) as i32;
    lemma_header_plain(b, 0, p1, 0, 0, 0, 0);
    assert(header(b, p1, 0, 0, 0, 0) == header(b, p1 + 1, 0, 0, 0, p1));
    lemma_header_plain(b, p1 + 1, p2, 0, 0, 0, p1);
    assert(header(b, p2, 0, 0, 0, p1) == header(b, p2 + 1, cv, 0, p2, p1));
    lemma_header_plain(b, p2 + 1, p3, cv, 0, p2, p1);
    assert(header(b, p3, cv, 0, p2, p1) == Some((cv, rv, p1, p3 + 1)));
    assert forall|t: TuLibText, w: int, h: int|
        #![trigger glyph_of(t, b), t.buffer@[h * digits_value(cols) + w]]
        glyph_of(t, b) && 0 <= w < digits_value(cols) && 0 <= h < digits_value(rows) && w * digits_value(rows) + h
            < bits.len() implies t.buffer@[h
            * digits_value(cols) + w] == (if bits[w * digits_value(rows) + h] == 49 { 255u8 } else { 0u8 }) by {
        assert(lin(w, h, cv as int) == h * digits_value(cols) + w);
        assert(0 <= w * digits_value(rows) + h) by (nonlinear_arith)
            requires 0 <= w, 0 <= h, 0 <= digits_value(rows);
        assert(b[p3 + 1 + w * rv + h] == bits[w * digits_value(rows) + h]);
    }
}

} // verus!
