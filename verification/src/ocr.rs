use vstd::prelude::*;
use crate::incise::InciseRange;
use crate::libs::{TuLib, TuLibText};

verus! {

/// A recognised piece of text and where it stands.
#[derive(Debug)]
pub struct OCRText {
    pub x: i32,
    pub y: i32,
    pub width: i32,
    pub height: i32,
    pub text: String,
}

/// `q / 100` rounded toward zero, as `i32` division rounds.
pub open spec fn div100(q: int) -> int {
    if q >= 0 {
        q / 100
    } else {
        -((-q) / 100)
    }
}

/// How many pixels a glyph may differ by: its pixel count times `(100 - similar) / 100`.
pub open spec fn allowed_mismatches(item: TuLibText, similar: int) -> int {
    item.num_pixels * div100(100 - similar)
}

/// The number of indices below `n` at which `a` and `b` differ.
pub open spec fn mismatches(a: Seq<u8>, b: Seq<u8>, n: int) -> int
    decreases n,
{
    if n <= 0 {
        0
    } else {
        mismatches(a, b, n - 1) + if a[n - 1] != b[n - 1] { 1int } else { 0int }
    }
}

pub proof fn lemma_mismatches_bound(a: Seq<u8>, b: Seq<u8>, n: int)
    requires
        n >= 0,
    ensures
        0 <= mismatches(a, b, n) <= n,
    decreases n,
{
    if n > 0 {
        lemma_mismatches_bound(a, b, n - 1);
    }
}

/// The glyph `item` recognises `range`: same size, and the range's bitmap differs from the
/// glyph's in no pixel or in at most `allowed_mismatches` pixels.
pub open spec fn recognises(item: TuLibText, range: InciseRange, similar: int) -> bool {
    let m = mismatches(range.source.buffer@, item.buffer@, range.source.buffer@.len() as int);
    &&& item.cols == range.cols
    &&& item.rows == range.rows
    &&& (m == 0 || m <= allowed_mismatches(item, similar))
}

/// The first glyph from the `k`-th on that recognises `range`.
pub open spec fn first_glyph(items: Seq<TuLibText>, range: InciseRange, similar: int, k: int) -> Option<int>
    decreases items.len() - k,
{
    if k < 0 || k >= items.len() {
        None
    } else if recognises(items[k], range, similar) {
        Some(k)
    } else {
        first_glyph(items, range, similar, k + 1)
    }
}

/// What `ocr_base` reads from `ranges`: for each range that some glyph recognises, in order,
/// the range's seed and size and the text of the first such glyph.
pub open spec fn recognised(items: Seq<TuLibText>, ranges: Seq<InciseRange>, similar: int) -> Seq<
    (int, int, int, int, Seq<char>),
>
    decreases ranges.len(),
{
    if ranges.len() == 0 {
        Seq::empty()
    } else {
        let rest = recognised(items, ranges.drop_last(), similar);
        let r = ranges.last();
        match first_glyph(items, r, similar, 0) {
            Some(k) => rest.push((r.x as int, r.y as int, r.cols as int, r.rows as int, items[k].text@)),
            None => rest,
        }
    }
}

/// The fields of a result.
pub open spec fn text_view(t: OCRText) -> (int, int, int, int, Seq<char>) {
    (t.x as int, t.y as int, t.width as int, t.height as int, t.text@)
}

/// What `ocr_base` needs of each glyph that has the size of a range: the allowed mismatches
/// can be computed, the range's bitmap has at most `i32::MAX` pixels, and the glyph holds at
/// least as many pixels as the range's bitmap.
pub open spec fn ocr_fits(items: Seq<TuLibText>, ranges: Seq<InciseRange>, similar: int) -> bool {
    forall|j: int, k: int|
        0 <= j < ranges.len() && 0 <= k < items.len() && items[k].cols == ranges[j].cols && items[k].rows
            == ranges[j].rows ==> {
            &&& i32::MIN <= 100 - similar <= i32::MAX
            &&& i32::MIN <= allowed_mismatches(items[k], similar) <= i32::MAX
            &&& ranges[j].source.buffer@.len() <= i32::MAX
            &&& (#[trigger] items[k]).buffer@.len() >= (#[trigger] ranges[j]).source.buffer@.len()
        }
}

/// Whether `item` recognises `range`.
fn glyph_recognises(item: &TuLibText, range: &InciseRange, similar: i32) -> (r: bool)
    requires
        i32::MIN <= 100 - similar <= i32::MAX,
        i32::MIN <= allowed_mismatches(*item, similar as int) <= i32::MAX,
        range.source.buffer@.len() <= i32::MAX,
        item.buffer@.len() >= range.source.buffer@.len(),
    ensures
        r == (mismatches(range.source.buffer@, item.buffer@, range.source.buffer@.len() as int) == 0
            || mismatches(range.source.buffer@, item.buffer@, range.source.buffer@.len() as int)
            <= allowed_mismatches(*item, similar as int)),
{
    let ghost a = range.source.buffer@;
    let ghost b = item.buffer@;
    let ghost n = a.len() as int;
    let mut num_mismatches: i32 = 0;
    let maximum_mismatches = item.num_pixels * ((100 - similar) / 100);
    assert(maximum_mismatches == allowed_mismatches(*item, similar as int));
    let mut i: usize = 0;
    while i < range.source.buffer.len()
        invariant
            a == range.source.buffer@,
            b == item.buffer@,
            n == a.len(),
            n <= i32::MAX,
            b.len() >= n,
            0 <= i <= n,
            num_mismatches == mismatches(a, b, i as int),
            num_mismatches <= maximum_mismatches || num_mismatches == 0,
            maximum_mismatches == allowed_mismatches(*item, similar as int),
        decreases n - i,
    {
        proof {
            lemma_mismatches_bound(a, b, i as int);
        }
        if range.source.buffer[i] != item.buffer[i] {
            num_mismatches += 1;
            if num_mismatches > maximum_mismatches {
                proof {
                    lemma_mismatches_grow(a, b, i + 1, n);
                }
                return false;
            }
        }
        i += 1;
    }
    true
}

/// More indices never mean fewer mismatches.
proof fn lemma_mismatches_grow(a: Seq<u8>, b: Seq<u8>, k: int, n: int)
    requires
        0 <= k <= n,
    ensures
        mismatches(a, b, k) <= mismatches(a, b, n),
    decreases n - k,
{
    if k < n {
        lemma_mismatches_grow(a, b, k, n - 1);
    }
}

/// Recognises the text of each range: the first glyph of `lib` with the range's size whose
/// bitmap differs from the range's in no pixel or in at most `num_pixels * ((100 - similar)
/// / 100)` pixels gives its text; ranges that no glyph recognises are left out.
pub fn ocr_base(lib: &TuLib, ranges: &Vec<InciseRange>, similar: i32) -> (ret: Vec<OCRText>)
    requires
        ocr_fits(lib.data@, ranges@, similar as int),
    ensures
        ret@.len() == recognised(lib.data@, ranges@, similar as int).len(),
        forall|k: int|
            0 <= k < ret@.len() ==> text_view(#[trigger] ret@[k]) == recognised(lib.data@, ranges@, similar as int)[k],
{
    let ghost items = lib.data@;
    let mut ret: Vec<OCRText> = Vec::new();
    let mut j: usize = 0;
    while j < ranges.len()
        invariant
            items == lib.data@,
            ocr_fits(items, ranges@, similar as int),
            0 <= j <= ranges@.len(),
            ret@.len() == recognised(items, ranges@.take(j as int), similar as int).len(),
            forall|k: int|
                0 <= k < ret@.len() ==> text_view(#[trigger] ret@[k]) == recognised(
                    items,
                    ranges@.take(j as int),
                    similar as int,
                )[k],
        decreases ranges@.len() - j,
    {
        let range = &ranges[j];
        let mut k: usize = 0;
        let mut found: Option<usize> = None;
        while k < lib.data.len()
            invariant_except_break
                found.is_none(),
                first_glyph(items, *range, similar as int, k as int) == first_glyph(
                    items,
                    *range,
                    similar as int,
                    0,
                ),
            invariant
                items == lib.data@,
                ocr_fits(items, ranges@, similar as int),
                0 <= j < ranges@.len(),
                *range == ranges@[j as int],
                0 <= k <= items.len(),
            ensures
                found matches Some(f) ==> f < items.len() && first_glyph(items, *range, similar as int, 0) == Some(
                    f as int,
                ),
                found.is_none() ==> first_glyph(items, *range, similar as int, 0).is_none(),
            decreases items.len() - k,
        {
            let item = &lib.data[k];
            if item.cols == range.cols && item.rows == range.rows {
                proof {
                    assert(items[k as int].buffer@.len() >= ranges@[j as int].source.buffer@.len());
                }
                if glyph_recognises(item, range, similar) {
                    found = Some(k);
                    break;
                }
            }
            k += 1;
        }
        proof {
            assert(ranges@.take(j + 1).drop_last() =~= ranges@.take(j as int));
            assert(ranges@.take(j + 1).last() == ranges@[j as int]);
        }
        match found {
            Some(f) => {
                let lib_text = &lib.data[f];
                ret.push(
                    OCRText {
                        x: range.x,
                        y: range.y,
                        width: range.cols,
                        height: range.rows,
                        text: lib_text.text.clone(),
                    },
                );
            },
            None => {},
        }
        j += 1;
    }
    proof {
        assert(ranges@.take(ranges@.len() as int) =~= ranges@);
    }
    ret
}

/// Each range gives at most one result: `ocr_base` never returns more texts than it was
/// given ranges.
pub proof fn law_at_most_one_text_per_range(items: Seq<TuLibText>, ranges: Seq<InciseRange>, similar: int)
    ensures
        recognised(items, ranges, similar).len() <= ranges.len(),
    decreases ranges.len(),
{
    if ranges.len() > 0 {
        law_at_most_one_text_per_range(items, ranges.drop_last(), similar);
    }
}

/// At a similarity of 100 a glyph recognises a range only where it has the range's size and
/// its bitmap agrees with the range's in every pixel.
pub proof fn law_full_similarity_is_exact(item: TuLibText, range: InciseRange)
    ensures
        recognises(item, range, 100) <==> {
            &&& item.cols == range.cols
            &&& item.rows == range.rows
            &&& mismatches(range.source.buffer@, item.buffer@, range.source.buffer@.len() as int) == 0
        },
{
    assert(div100(0) == 0);
    assert(allowed_mismatches(item, 100) == 0) by (nonlinear_arith)
        requires allowed_mismatches(item, 100) == item.num_pixels * div100(0), div100(0) == 0;
    lemma_mismatches_bound(range.source.buffer@, item.buffer@, range.source.buffer@.len() as int);
}

/// Truncating division by 100 keeps order.
proof fn lemma_div100_mono(a: int, b: int)
    requires
        a <= b,
    ensures
        div100(a) <= div100(b),
{
    if a >= 0 {
        assert(a / 100 <= b / 100) by (nonlinear_arith)
            requires 0 <= a <= b;
    } else if b >= 0 {
        assert(-((-a) / 100) <= 0) by (nonlinear_arith)
            requires -a > 0;
        assert(b / 100 >= 0) by (nonlinear_arith)
            requires b >= 0;
    } else {
        assert((-b) / 100 <= (-a) / 100) by (nonlinear_arith)
            requires 0 < -b <= -a;
    }
}

/// A lower similarity never recognises less: a glyph with a non-negative pixel count that
/// recognises a range at similarity `high` recognises it at every `low <= high` too.
pub proof fn law_lower_similarity_accepts_more(item: TuLibText, range: InciseRange, low: int, high: int)
    requires
        low <= high,
        item.num_pixels >= 0,
        recognises(item, range, high),
    ensures
        recognises(item, range, low),
{
    lemma_div100_mono(100 - high, 100 - low);
    let dh = div100(100 - high);
    let dl = div100(100 - low);
    let n = item.num_pixels as int;
    assert(n * dh <= n * dl) by (nonlinear_arith)
        requires n >= 0, dh <= dl;
}

/// The search from the `k`-th glyph finds one exactly when some glyph from the `k`-th on
/// recognises the range.
proof fn lemma_first_glyph_found(items: Seq<TuLibText>, range: InciseRange, similar: int, k: int, t: int)
    requires
        0 <= k <= t < items.len(),
        recognises(items[t], range, similar),
    ensures
        first_glyph(items, range, similar, k) is Some,
    decreases t - k,
{
    if !recognises(items[k], range, similar) {
        lemma_first_glyph_found(items, range, similar, k + 1, t);
    }
}

/// A glyph that the search finds recognises the range.
proof fn lemma_first_glyph_recognises(items: Seq<TuLibText>, range: InciseRange, similar: int, k: int)
    requires
        0 <= k,
        first_glyph(items, range, similar, k) is Some,
    ensures
        0 <= first_glyph(items, range, similar, k)->0 < items.len(),
        recognises(items[first_glyph(items, range, similar, k)->0], range, similar),
    decreases items.len() - k,
{
    if k < items.len() && !recognises(items[k], range, similar) {
        lemma_first_glyph_recognises(items, range, similar, k + 1);
    }
}

/// A lower similarity never reads fewer texts: where every glyph's pixel count is
/// non-negative, `ocr_base` at similarity `low <= high` returns at least as many texts as at
/// `high`.
pub proof fn law_lower_similarity_reads_no_fewer(
    items: Seq<TuLibText>,
    ranges: Seq<InciseRange>,
    low: int,
    high: int,
)
    requires
        low <= high,
        forall|k: int| 0 <= k < items.len() ==> (#[trigger] items[k]).num_pixels >= 0,
    ensures
        recognised(items, ranges, low).len() >= recognised(items, ranges, high).len(),
    decreases ranges.len(),
{
    if ranges.len() > 0 {
        law_lower_similarity_reads_no_fewer(items, ranges.drop_last(), low, high);
        let r = ranges.last();
        if first_glyph(items, r, high, 0) is Some {
            lemma_first_glyph_recognises(items, r, high, 0);
            let t = first_glyph(items, r, high, 0)->0;
            law_lower_similarity_accepts_more(items[t], r, low, high);
            lemma_first_glyph_found(items, r, low, 0, t);
        }
    }
}

/// Reading two runs of ranges one after the other gives the texts of the first run followed
/// by those of the second: each range contributes its own text or nothing, whatever comes
/// before or after it.
pub proof fn law_texts_of_concatenation(
    items: Seq<TuLibText>,
    a: Seq<InciseRange>,
    b: Seq<InciseRange>,
    similar: int,
)
    ensures
        recognised(items, a + b, similar) == recognised(items, a, similar) + recognised(items, b, similar),
    decreases b.len(),
{
    if b.len() == 0 {
        assert(a + b =~= a);
        assert(recognised(items, a, similar) + Seq::empty() =~= recognised(items, a, similar));
    } else {
        law_texts_of_concatenation(items, a, b.drop_last(), similar);
        assert((a + b).drop_last() =~= a + b.drop_last());
        assert((a + b).last() == b.last());
        let ra = recognised(items, a, similar);
        let rb = recognised(items, b.drop_last(), similar);
        match first_glyph(items, b.last(), similar, 0) {
            Some(k) => {
                let t = (b.last().x as int, b.last().y as int, b.last().cols as int, b.last().rows as int, items[k].text@);
                assert((ra + rb).push(t) =~= ra + rb.push(t));
            },
            None => {},
        }
    }
}

/// A range that no glyph recognises gives no text: appending it to the ranges leaves the texts
/// as they were.
pub proof fn law_unrecognised_range_adds_nothing(
    items: Seq<TuLibText>,
    ranges: Seq<InciseRange>,
    r: InciseRange,
    similar: int,
)
    requires
        forall|k: int| 0 <= k < items.len() ==> !recognises(#[trigger] items[k], r, similar),
    ensures
        recognised(items, ranges.push(r), similar) == recognised(items, ranges, similar),
{
    lemma_no_glyph(items, r, similar, 0);
    assert(ranges.push(r).drop_last() =~= ranges);
}

/// A range that some glyph recognises gives exactly one text: its seed and size and the text
/// of the first glyph that recognises it.
pub proof fn law_recognised_range_adds_its_text(
    items: Seq<TuLibText>,
    ranges: Seq<InciseRange>,
    r: InciseRange,
    similar: int,
    k: int,
)
    requires
        0 <= k < items.len(),
        recognises(items[k], r, similar),
        forall|j: int| 0 <= j < k ==> !recognises(#[trigger] items[j], r, similar),
    ensures
        recognised(items, ranges.push(r), similar) == recognised(items, ranges, similar).push(
            (r.x as int, r.y as int, r.cols as int, r.rows as int, items[k].text@),
        ),
{
    lemma_first_is(items, r, similar, 0, k);
    assert(ranges.push(r).drop_last() =~= ranges);
}

proof fn lemma_no_glyph(items: Seq<TuLibText>, r: InciseRange, similar: int, k: int)
    requires
        k >= 0,
        forall|j: int| 0 <= j < items.len() ==> !recognises(#[trigger] items[j], r, similar),
    ensures
        first_glyph(items, r, similar, k) is None,
    decreases items.len() - k,
{
    if k < items.len() {
        assert(!recognises(items[k], r, similar));
        lemma_no_glyph(items, r, similar, k + 1);
    }
}

proof fn lemma_first_is(items: Seq<TuLibText>, r: InciseRange, similar: int, j: int, k: int)
    requires
        0 <= j <= k < items.len(),
        recognises(items[k], r, similar),
        forall|i: int| 0 <= i < k ==> !recognises(#[trigger] items[i], r, similar),
    ensures
        first_glyph(items, r, similar, j) == Some(k),
    decreases k - j,
{
    if j < k {
        assert(!recognises(items[j], r, similar));
        lemma_first_is(items, r, similar, j + 1, k);
    }
}

/// The mismatch count is zero exactly when the first `n` pixels agree, and it grows by one
/// with each further pixel that differs.
pub proof fn law_mismatches_count_differences(a: Seq<u8>, b: Seq<u8>, n: int)
    requires
        n >= 0,
    ensures
        mismatches(a, b, n) == 0 <==> forall|i: int| 0 <= i < n ==> #[trigger] a[i] == b[i],
        mismatches(a, b, n + 1) == mismatches(a, b, n) + (if a[n] != b[n] { 1int } else { 0int }),
    decreases n,
{
    lemma_mismatches_bound(a, b, n);
    if n > 0 {
        law_mismatches_count_differences(a, b, n - 1);
        lemma_mismatches_bound(a, b, n - 1);
        if a[n - 1] != b[n - 1] {
            assert(!(forall|i: int| 0 <= i < n ==> #[trigger] a[i] == b[i]));
        }
    }
}

} // verus!
