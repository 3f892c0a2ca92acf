use vstd::prelude::*;
use vstd::string::StringSliceAdditionalSpecFns;

verus! {

/// A colour given by its red, green and blue components.
#[derive(Debug, Clone, Copy)]
pub struct RGB {
    pub r: u8,
    pub g: u8,
    pub b: u8,
}

/// A single-channel 8-bit image stored row by row.
#[derive(Debug)]
pub struct Tu8uc1 {
    pub buffer: Vec<u8>,
    pub rows: i32,
    pub cols: i32,
    pub fill_value: u8,
}

/// Linear index of the pixel at column `col` and row `row` in an image with `cols` columns.
pub open spec fn lin(col: int, row: int, cols: int) -> int {
    row * cols + col
}

/// Whether a buffer of `rows * cols` pixels can be allocated: one dimension is zero, or both
/// are positive and their product fits in a `usize`.
pub open spec fn sizes_allocate(rows: int, cols: int) -> bool {
    rows * cols == 0 || (rows > 0 && cols > 0 && rows * cols <= usize::MAX)
}

impl Tu8uc1 {
    /// The image holds exactly `rows * cols` pixels.
    pub open spec fn wf(&self) -> bool {
        &&& self.rows >= 0
        &&& self.cols >= 0
        &&& self.buffer@.len() == self.rows * self.cols
    }

    /// Whether the pixel at (`col`, `row`) can be addressed by `at` and `set`.
    pub open spec fn addressable(&self, col: int, row: int) -> bool {
        &&& i32::MIN <= row * self.cols <= i32::MAX
        &&& 0 <= lin(col, row, self.cols as int) < self.buffer@.len()
        &&& lin(col, row, self.cols as int) <= i32::MAX
    }

    /// The pixel value at (`col`, `row`).
    pub open spec fn pixel(&self, col: int, row: int) -> u8 {
        self.buffer@[lin(col, row, self.cols as int)]
    }

    pub fn new(rows: i32, cols: i32, buffer: Vec<u8>, fill_value: u8) -> (r: Tu8uc1)
        ensures
            r.rows == rows,
            r.cols == cols,
            r.buffer@ == buffer@,
            r.fill_value == fill_value,
    {
        Tu8uc1 { buffer, rows, cols, fill_value }
    }

    /// An image of the same size whose every pixel is `fill_value`.
    pub fn empty(&mut self) -> (r: Tu8uc1)
        requires
            sizes_allocate(old(self).rows as int, old(self).cols as int),
        ensures
            *final(self) == *old(self),
            r.rows == old(self).rows,
            r.cols == old(self).cols,
            r.fill_value == old(self).fill_value,
            r.buffer@ == Seq::new((old(self).rows * old(self).cols) as nat, |i: int| old(self).fill_value),
    {
        let n: usize = if self.rows <= 0 || self.cols <= 0 {
            0
        } else {
            self.rows as usize * self.cols as usize
        };
        proof {
            if self.rows <= 0 || self.cols <= 0 {
                assert(self.rows * self.cols == 0) by (nonlinear_arith)
                    requires
                        sizes_allocate(self.rows as int, self.cols as int),
                        self.rows <= 0 || self.cols <= 0;
            }
        }
        let buffer = vec![self.fill_value; n];
        assert(buffer@ =~= Seq::new((self.rows * self.cols) as nat, |i: int| self.fill_value));
        Tu8uc1 { buffer, rows: self.rows, cols: self.cols, fill_value: self.fill_value }
    }

    /// The pixel at column `col` of row `row`.
    pub fn at(&mut self, col: i32, row: i32) -> (r: u8)
        requires
            old(self).addressable(col as int, row as int),
        ensures
            *final(self) == *old(self),
            r == old(self).pixel(col as int, row as int),
    {
        self.buffer[(row * self.cols + col) as usize]
    }

    /// Writes `value` at column `col` of row `row`.
    pub fn set(&mut self, col: i32, row: i32, value: u8)
        requires
            old(self).addressable(col as int, row as int),
        ensures
            final(self).rows == old(self).rows,
            final(self).cols == old(self).cols,
            final(self).fill_value == old(self).fill_value,
            final(self).buffer@ == old(self).buffer@.update(lin(col as int, row as int, old(self).cols as int), value),
    {
        let idx: usize = (row * self.cols + col) as usize;
        self.buffer.set(idx, value);
    }
}

/// What `set` writes, `at` reads back: after writing `value` at (`col`, `row`) the pixel
/// there is `value`, every other addressable pixel keeps its value, and the size stays.
pub proof fn law_at_reads_what_set_wrote(
    before: Tu8uc1,
    after: Tu8uc1,
    col: int,
    row: int,
    value: u8,
    c2: int,
    r2: int,
)
    requires
        before.addressable(col, row),
        after.rows == before.rows,
        after.cols == before.cols,
        after.fill_value == before.fill_value,
        after.buffer@ == before.buffer@.update(lin(col, row, before.cols as int), value),
    ensures
        after.addressable(col, row),
        after.pixel(col, row) == value,
        before.addressable(c2, r2) && lin(c2, r2, before.cols as int) != lin(col, row, before.cols as int)
            ==> after.addressable(c2, r2) && after.pixel(c2, r2) == before.pixel(c2, r2),
{
}

/// Whether `c` is an ASCII decimal digit.
pub open spec fn is_digit(c: u8) -> bool {
    48 <= c <= 57
}

/// The value of a string of decimal digits.
pub open spec fn digits_value(s: Seq<u8>) -> int
    decreases s.len(),
{
    if s.len() == 0 {
        0
    } else {
        digits_value(s.drop_last()) * 10 + (s.last() - 48)
    }
}

/// Whether `s` is a non-empty string of decimal digits.
pub open spec fn all_digits(s: Seq<u8>) -> bool {
    s.len() > 0 && forall|i: int| 0 <= i < s.len() ==> is_digit(#[trigger] s[i])
}

/// The digits of an unsigned decimal numeral: what follows an optional leading `+`.
pub open spec fn unsigned_digits(s: Seq<u8>) -> Seq<u8> {
    if s.len() > 0 && s[0] == 43 {
        s.drop_first()
    } else {
        s
    }
}

/// The value of `s` read as a `u8` in decimal, as `str::parse::<u8>` reads it: an optional
/// `+` followed by at least one digit, with a value of at most 255.
pub open spec fn u8_value(s: Seq<u8>) -> Option<u8> {
    let d = unsigned_digits(s);
    if all_digits(d) && digits_value(d) <= 255 {
        Some(digits_value(d) as u8)
    } else {
        None
    }
}

/// The pieces of `s` between the occurrences of the byte `sep`, as `str::split` yields them.
pub open spec fn split_at_byte(s: Seq<u8>, sep: u8) -> Seq<Seq<u8>>
    decreases s.len(),
{
    if s.len() == 0 {
        seq![Seq::empty()]
    } else {
        let rest = split_at_byte(s.drop_last(), sep);
        if s.last() == sep {
            rest.push(Seq::empty())
        } else {
            rest.update(rest.len() - 1, rest.last().push(s.last()))
        }
    }
}

/// Each piece of the grey-level band `low-high`, the pieces separated by `-`, reads as a `u8`.
pub open spec fn threshold_reads(t: Seq<u8>) -> bool {
    forall|i: int|
        0 <= i < split_at_byte(t, 45).len() ==> (#[trigger] u8_value(split_at_byte(t, 45)[i])) is Some
}

/// The band reads as at least two `u8` values.
pub open spec fn threshold_band(t: Seq<u8>) -> bool {
    &&& split_at_byte(t, 45).len() >= 2
    &&& threshold_reads(t)
}

/// The values of the band's pieces.
pub open spec fn threshold_values(t: Seq<u8>) -> Seq<u8> {
    split_at_byte(t, 45).map_values(|p: Seq<u8>| u8_value(p)->0)
}

proof fn lemma_split_nonempty(s: Seq<u8>, sep: u8)
    ensures
        split_at_byte(s, sep).len() >= 1,
    decreases s.len(),
{
    if s.len() > 0 {
        lemma_split_nonempty(s.drop_last(), sep);
    }
}

/// Reads the bytes `t[start..end]` as a `u8` the way `str::parse::<u8>` does.
fn parse_u8(t: &[u8], start: usize, end: usize) -> (r: Option<u8>)
    requires
        start <= end <= t@.len(),
    ensures
        r == u8_value(t@.subrange(start as int, end as int)),
{
    let ghost s = t@.subrange(start as int, end as int);
    let mut i = start;
    if start < end && t[start] == 43 {
        i = start + 1;
    }
    let ghost d = t@.subrange(i as int, end as int);
    assert(d =~= unsigned_digits(s));
    if i == end {
        return None;
    }
    let mut value: u32 = 0;
    let mut j = i;
    while j < end
        invariant
            i <= j <= end <= t@.len(),
            d == t@.subrange(i as int, end as int),
            s == t@.subrange(start as int, end as int),
            d == unsigned_digits(s),
            forall|k: int| i <= k < j ==> is_digit(#[trigger] t@[k]),
            value == digits_value(t@.subrange(i as int, j as int)),
            value <= 255,
        decreases end - j,
    {
        let c = t[j];
        if !(48 <= c && c <= 57) {
            assert(!is_digit(d[j - i]));
            return None;
        }
        assert(t@.subrange(i as int, j + 1).drop_last() =~= t@.subrange(i as int, j as int));
        let next: u32 = value * 10 + (c - 48) as u32;
        if next > 255 {
            proof {
                if all_digits(d) {
                    lemma_digits_value_grows(d, (j + 1 - i) as int);
                    assert(t@.subrange(i as int, j + 1) =~= d.subrange(0, j + 1 - i));
                }
            }
            return None;
        }
        value = next;
        j = j + 1;
    }
    assert(t@.subrange(i as int, j as int) =~= d);
    Some(value as u8)
}

/// The value of a digit string is at least the value of any of its prefixes.
pub proof fn lemma_digits_value_grows(d: Seq<u8>, k: int)
    requires
        0 <= k <= d.len(),
        forall|i: int| 0 <= i < d.len() ==> is_digit(#[trigger] d[i]),
    ensures
        digits_value(d) >= digits_value(d.subrange(0, k)),
        digits_value(d.subrange(0, k)) >= 0,
    decreases d.len(),
{
    if k == d.len() {
        assert(d.subrange(0, k) =~= d);
        lemma_digits_value_nonneg(d);
    } else {
        lemma_digits_value_grows(d.drop_last(), k);
        assert(d.drop_last().subrange(0, k) =~= d.subrange(0, k));
        lemma_digits_value_nonneg(d.drop_last());
    }
}

pub proof fn lemma_digits_value_nonneg(d: Seq<u8>)
    requires
        forall|i: int| 0 <= i < d.len() ==> is_digit(#[trigger] d[i]),
    ensures
        digits_value(d) >= 0,
    decreases d.len(),
{
    if d.len() > 0 {
        lemma_digits_value_nonneg(d.drop_last());
    }
}


/// The pieces of a prefix of `s`, all but the last one, are pieces of `s` as well.
proof fn lemma_split_stable(s: Seq<u8>, sep: u8, j: int)
    requires
        0 <= j <= s.len(),
    ensures
        split_at_byte(s.subrange(0, j), sep).len() <= split_at_byte(s, sep).len(),
        forall|i: int|
            0 <= i < split_at_byte(s.subrange(0, j), sep).len() - 1 ==> split_at_byte(s, sep)[i]
                == #[trigger] split_at_byte(s.subrange(0, j), sep)[i],
    decreases s.len(),
{
    if j == s.len() {
        assert(s.subrange(0, j) =~= s);
    } else {
        let dl = s.drop_last();
        lemma_split_stable(dl, sep, j);
        assert(dl.subrange(0, j) =~= s.subrange(0, j));
        lemma_split_nonempty(dl, sep);
    }
}

/// Reads the grey-level band `low-high` into the values of its pieces.
fn parse_threshold(threshold: &str) -> (r: Vec<u8>)
    requires
        threshold_reads(threshold.spec_bytes()),
    ensures
        r@ == threshold_values(threshold.spec_bytes()),
{
    let t: &[u8] = threshold.as_bytes();
    let ghost b = t@;
    let n = t.len();
    let mut values: Vec<u8> = Vec::new();
    let mut start: usize = 0;
    let mut j: usize = 0;
    proof {
        assert(b.subrange(0, 0) =~= Seq::<u8>::empty());
        assert(split_at_byte(b.subrange(0, 0), 45) =~= seq![Seq::<u8>::empty()]);
    }
    while j < n
        invariant
            n == b.len(),
            b == t@,
            threshold_reads(b),
            start <= j <= n,
            split_at_byte(b.subrange(0, j as int), 45).len() == values@.len() + 1,
            split_at_byte(b.subrange(0, j as int), 45).last() == b.subrange(start as int, j as int),
            forall|i: int|
                0 <= i < values@.len() ==> #[trigger] values@[i] == u8_value(
                    split_at_byte(b.subrange(0, j as int), 45)[i],
                )->0,
        decreases n - j,
    {
        let ghost before = split_at_byte(b.subrange(0, j as int), 45);
        assert(b.subrange(0, j + 1).drop_last() =~= b.subrange(0, j as int));
        if t[j] == 45 {
            proof {
                lemma_split_stable(b, 45, j + 1);
            }
            let ghost after = split_at_byte(b.subrange(0, j + 1), 45);
            assert(after == before.push(Seq::empty()));
            assert(after[values@.len() as int] == b.subrange(start as int, j as int));
            assert(u8_value(split_at_byte(b, 45)[values@.len() as int]) is Some);
            let v = parse_u8(t, start, j);
            values.push(v.unwrap());
            start = j + 1;
            assert(b.subrange(start as int, j + 1) =~= Seq::<u8>::empty());
        } else {
            assert(b.subrange(start as int, j + 1) =~= b.subrange(start as int, j as int).push(b[j as int]));
        }
        j = j + 1;
    }
    assert(b.subrange(0, n as int) =~= b);
    let v = parse_u8(t, start, n);
    assert(u8_value(split_at_byte(b, 45)[values@.len() as int]) is Some);
    values.push(v.unwrap());
    assert(values@ =~= threshold_values(b));
    values
}

/// Marks every pixel of a packed 3-byte image white. Each piece of the band `low-high` must
/// read as a `u8`, and where there are pixels there must be at least two pieces; pixels whose mean grey level lies strictly inside it are set to 255,
/// and the image starts out all 255, so every pixel of the result is 255.
pub fn filter_binaryzation(data: &Vec<u8>, rows: i32, cols: i32, threshold: &str) -> (r: Tu8uc1)
    requires
        data@.len() % 3 == 0,
        threshold_reads(threshold.spec_bytes()),
        data@.len() > 0 ==> threshold_band(threshold.spec_bytes()),
    ensures
        r.rows == rows,
        r.cols == cols,
        r.fill_value == 0,
        r.buffer@ == Seq::new(data@.len() / 3, |k: int| 255u8),
{
    let data_len = data.len();
    let mut src_data: Vec<u8> = vec![255; data_len / 3];
    let colors = parse_threshold(threshold);
    let mut idx: usize = 0;
    let mut i: usize = 0;
    while i < data_len
        invariant
            data_len == data@.len(),
            data_len % 3 == 0,
            i == 3 * idx,
            i <= data_len,
            data_len > 0 ==> colors@.len() >= 2,
            src_data@.len() == data_len / 3,
            forall|k: int| 0 <= k < src_data@.len() ==> #[trigger] src_data@[k] == 255,
        decreases data_len - i,
    {
        assert(idx < data_len / 3 && i + 2 < data_len) by (nonlinear_arith)
            requires i == 3 * idx, i < data_len, data_len % 3 == 0;
        let pixel_color: u8 = data[i] / 3 + data[i + 1] / 3 + data[i + 2] / 3;
        if pixel_color > colors[0] && pixel_color < colors[1] {
            src_data.set(idx, 255);
        }
        idx = idx + 1;
        i = i + 3;
    }
    assert(src_data@ =~= Seq::new(data@.len() / 3, |k: int| 255u8));
    Tu8uc1::new(rows, cols, src_data, 0)
}

/// Whether the pixel starting at byte `i` of a blue-green-red image has the colour `c`.
pub open spec fn pixel_is(data: Seq<u8>, i: int, c: RGB) -> bool {
    c.b == data[i] && c.g == data[i + 1] && c.r == data[i + 2]
}

/// 255 where the `k`-th pixel of `data` has one of the colours of `threshold`, 0 elsewhere.
pub open spec fn colour_mask(data: Seq<u8>, threshold: Seq<RGB>, k: int) -> u8 {
    if exists|t: int| 0 <= t < threshold.len() && pixel_is(data, 3 * k, #[trigger] threshold[t]) {
        255
    } else {
        0
    }
}

/// Binarises a packed blue-green-red image: a pixel becomes 255 when its colour is one of
/// `threshold`, and 0 otherwise.
pub fn filter_binaryzation_rgb(data: &Vec<u8>, rows: i32, cols: i32, threshold: Vec<RGB>) -> (r:
    Tu8uc1)
    requires
        data@.len() % 3 == 0,
    ensures
        r.rows == rows,
        r.cols == cols,
        r.fill_value == 0,
        r.buffer@ == Seq::new(data@.len() / 3, |k: int| colour_mask(data@, threshold@, k)),
{
    let data_len = data.len();
    let mut src_data: Vec<u8> = vec![0; data_len / 3];
    let mut idx: usize = 0;
    let mut i: usize = 0;
    while i < data_len
        invariant
            data_len == data@.len(),
            data_len % 3 == 0,
            i == 3 * idx,
            i <= data_len,
            src_data@.len() == data_len / 3,
            forall|k: int| 0 <= k < idx ==> #[trigger] src_data@[k] == colour_mask(data@, threshold@, k),
            forall|k: int| idx <= k < src_data@.len() ==> #[trigger] src_data@[k] == 0,
        decreases data_len - i,
    {
        assert(idx < data_len / 3 && i + 2 < data_len) by (nonlinear_arith)
            requires i == 3 * idx, i < data_len, data_len % 3 == 0;
        let mut t: usize = 0;
        while t < threshold.len()
            invariant
                data_len == data@.len(),
                i == 3 * idx,
                i + 2 < data_len,
                idx < src_data@.len(),
                src_data@.len() == data_len / 3,
                t <= threshold@.len(),
                forall|k: int| 0 <= k < idx ==> #[trigger] src_data@[k] == colour_mask(data@, threshold@, k),
                forall|k: int| idx < k < src_data@.len() ==> #[trigger] src_data@[k] == 0,
                src_data@[idx as int] == (if exists|u: int| 0 <= u < t && pixel_is(data@, 3 * idx, #[trigger] threshold@[u]) { 255u8 } else { 0u8 }),
            decreases threshold@.len() - t,
        {
            let rgb = &threshold[t];
            if rgb.b == data[i] && rgb.g == data[i + 1] && rgb.r == data[i + 2] {
                src_data.set(idx, 255);
                assert(pixel_is(data@, 3 * idx, threshold@[t as int]));
            }
            t = t + 1;
        }
        assert(src_data@[idx as int] == colour_mask(data@, threshold@, idx as int));
        idx = idx + 1;
        i = i + 3;
    }
    assert(idx == data_len / 3) by (nonlinear_arith)
        requires i == 3 * idx, i == data_len;
    assert(src_data@ =~= Seq::new(data@.len() / 3, |k: int| colour_mask(data@, threshold@, k)));
    Tu8uc1::new(rows, cols, src_data, 0)
}

} // verus!
