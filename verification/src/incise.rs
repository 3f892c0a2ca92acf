use vstd::prelude::*;
use crate::filter::{Tu8uc1, lin, sizes_allocate};
use crate::flood::{
    Point, closed_at, count_zero, grew, idx, lemma_closed_mono, lemma_count_zero, lemma_grew_trans,
    lemma_marks_compose, lemma_reaches_prepend, lemma_walk_here, lemma_walk_one, lemma_walks_safe_step,
    marks_match, open_px, reachable_point, reaches, safe, shift, walks_safe, is_walk, spans_fit,
    lemma_walk_unmarked, zeros, component_fits, lemma_walks_safe_marked, link, offsets_fit, near_seed,
    lemma_offsets_here, lemma_offsets_step, lemma_offsets_from_seed, dfs, lemma_dfs_step_open,
    lemma_dfs_step_closed, lemma_dfs_done,
};
use crate::aisle::{
    white, aisle_bounds, aisle_regions, col_marks, col_regions, crop_exec, grow_exec, is_aisle_range, lemma_grow,
    scan, scan_col,
};

verus! {

/// A pixel of a range, relative to the range's seed (`x`, `y`).
#[derive(Debug, Copy, Clone)]
pub struct InciseRangePosition {
    x: i32,
    y: i32,
}

impl View for InciseRangePosition {
    type V = (int, int);

    closed spec fn view(&self) -> (int, int) {
        (self.x as int, self.y as int)
    }
}

impl InciseRangePosition {
    /// Horizontal offset from the seed.
    pub fn x(&self) -> (r: i32)
        ensures
            r as int == self@.0,
    {
        self.x
    }

    /// Vertical offset from the seed.
    pub fn y(&self) -> (r: i32)
        ensures
            r as int == self@.1,
    {
        self.y
    }
}

/// A step from a pixel to one of its neighbours.
#[derive(Debug)]
pub struct Direction {
    x: i32,
    y: i32,
}

impl View for Direction {
    type V = (int, int);

    closed spec fn view(&self) -> (int, int) {
        (self.x as int, self.y as int)
    }
}

/// A cut-out part of an image: where it lies, which pixels it holds and, where it has one,
/// the bitmap of those pixels.
#[derive(Debug)]
pub struct InciseRange {
    pub x: i32,
    pub y: i32,
    pub cols: i32,
    pub rows: i32,
    pub positions: Vec<InciseRangePosition>,
    pub min_x: i32,
    pub min_y: i32,
    pub max_x: i32,
    pub max_y: i32,
    pub source: Tu8uc1,
    pub is_empty_source: bool,
}

/// Two ranges are equal when they start at the same seed.
impl PartialEq for InciseRange {
    fn eq(&self, other: &Self) -> (r: bool) {
        self.x == other.x && self.y == other.y
    }
}

impl vstd::std_specs::cmp::PartialEqSpecImpl for InciseRange {
    open spec fn obeys_eq_spec() -> bool {
        true
    }

    open spec fn eq_spec(&self, other: &Self) -> bool {
        self.x == other.x && self.y == other.y
    }
}


/// Cuts `source` into rectangular regions. Column after column, top to bottom, each white
/// pixel that no earlier region holds seeds a region, which grows until the `row` rows above
/// and below it and the `column` columns beside it hold no more white pixels (the rule is
/// `grow`). Each region comes with the bitmap of its white pixels. Where the fill value is not
/// 0 or no pixel is white, nothing is cut and `row` and `column` play no part.
pub fn incise_scope_aisle(source: &mut Tu8uc1, row: i32, column: i32) -> (r: Vec<InciseRange>)
    requires
        sizes_allocate(old(source).rows as int, old(source).cols as int),
        old(source).rows * old(source).cols <= i32::MAX,
        old(source).fill_value == 0 ==> old(source).rows * old(source).cols <= old(source).buffer@.len(),
        aisle_seeded(*old(source)) ==> aisle_bounds(*old(source), row as int, column as int),
        aisle_seeded(*old(source)) ==> aisle_regions(*old(source), row as int, column as int) is Some,
    ensures
        *final(source) == *old(source),
        !aisle_seeded(*old(source)) ==> r@.len() == 0,
        aisle_seeded(*old(source)) ==> r@.len() == aisle_regions(*old(source), row as int, column as int)->0.len(),
        aisle_seeded(*old(source)) ==> forall|k: int|
            0 <= k < r@.len() ==> {
                let b = #[trigger] aisle_regions(*old(source), row as int, column as int)->0[k];
                is_aisle_range(r@[k], *old(source), b.0, b.1, b.2, b.3)
            },
{
    let ghost src = *source;
    let ghost total = aisle_regions(src, row as int, column as int)->0;
    let mut empty = source.empty();
    let sign = &mut empty;
    let mut ranges: Vec<InciseRange> = Vec::new();
    if source.fill_value != 0 || source.rows <= 0 || source.cols <= 0 || !has_white(source) {
        return ranges;
    }
    proof {
        assert(aisle_seeded(src));
        assert(0 <= src.rows * src.cols) by (nonlinear_arith)
            requires src.rows >= 0, src.cols >= 0;
    }
    let ghost mut done: Seq<(int, int, int, int)> = Seq::empty();
    proof {
        assert(sign.buffer@ =~= Seq::new(src.buffer@.len(), |i: int| src.fill_value));
        assert(done + scan(src, sign.buffer@, 0, row as int, column as int)->0 =~= total);
    }
    let mut w: i32 = 0;
    while w < source.cols
        invariant
            *source == src,
            src == *old(source),
            aisle_bounds(src, row as int, column as int),
            sign.buffer@.len() == src.buffer@.len(),
            sign.cols == src.cols,
            0 <= w <= src.cols,
            scan(src, sign.buffer@, w as int, row as int, column as int) is Some,
            done + scan(src, sign.buffer@, w as int, row as int, column as int)->0 == total,
            ranges@.len() == done.len(),
            forall|k: int|
                0 <= k < ranges@.len() ==> {
                    let b = #[trigger] done[k];
                    is_aisle_range(ranges@[k], src, b.0, b.1, b.2, b.3)
                },
        decreases src.cols - w,
    {
        let ghost sign_w = sign.buffer@;
        let ghost done_w = done;
        let ghost mut col_done: Seq<(int, int, int, int)> = Seq::empty();
        let mut h: i32 = 0;
        while h < source.rows
            invariant
                *source == src,
                src == *old(source),
                aisle_bounds(src, row as int, column as int),
                sign.buffer@.len() == src.buffer@.len(),
                sign.cols == src.cols,
                0 <= w < src.cols,
                0 <= h <= src.rows,
                scan(src, sign_w, w as int, row as int, column as int) is Some,
                done_w + scan(src, sign_w, w as int, row as int, column as int)->0 == total,
                scan_col(src, sign_w, w as int, 0, row as int, column as int) is Some,
                scan_col(src, sign.buffer@, w as int, h as int, row as int, column as int) is Some,
                col_marks(src, sign_w, w as int, 0, row as int, column as int) == col_marks(
                    src,
                    sign.buffer@,
                    w as int,
                    h as int,
                    row as int,
                    column as int,
                ),
                col_regions(src, sign_w, w as int, 0, row as int, column as int) == col_done + col_regions(
                    src,
                    sign.buffer@,
                    w as int,
                    h as int,
                    row as int,
                    column as int,
                ),
                done == done_w + col_done,
                ranges@.len() == done.len(),
                forall|k: int|
                    0 <= k < ranges@.len() ==> {
                        let b = #[trigger] done[k];
                        is_aisle_range(ranges@[k], src, b.0, b.1, b.2, b.3)
                    },
            decreases src.rows - h,
        {
            proof {
                assert(0 <= h * src.cols <= lin(w as int, h as int, src.cols as int)) by (nonlinear_arith)
                    requires 0 <= w, 0 <= h, 0 <= src.cols;
                assert(lin(w as int, h as int, src.cols as int) < src.rows * src.cols) by (nonlinear_arith)
                    requires 0 <= w < src.cols, 0 <= h < src.rows;
            }
            let ghost sign_h = sign.buffer@;
            if sign.at(w, h) == 0 && source.at(w, h) == 255 {
                let (sy, ex, ey) = grow_exec(source, w, h, w + 1, h + 1, row, column);
                proof {
                    lemma_grow(src, w as int, h as int, w + 1, h + 1, row as int, column as int);
                }
                let range = crop_exec(source, sign, w, sy, ex, ey);
                ranges.push(range);
                proof {
                    let b = (w as int, sy as int, ex as int, ey as int);
                    let rest = col_regions(src, sign.buffer@, w as int, h + 1, row as int, column as int);
                    assert(col_done + seq![b] + rest =~= col_done + (seq![b] + rest));
                    col_done = col_done.push(b);
                    done = done.push(b);
                    assert(done =~= done_w + col_done);
                }
            } else {
                proof {
                    assert(sign.buffer@ == sign_h);
                }
            }
            h += 1;
        }
        proof {
            assert(col_done + Seq::<(int, int, int, int)>::empty() =~= col_done);
            assert(done_w + col_done + scan(src, sign.buffer@, w + 1, row as int, column as int)->0 =~= done_w + (col_done + scan(src, sign.buffer@, w + 1, row as int, column as int)->0));
        }
        w += 1;
    }
    proof {
        assert(done + Seq::<(int, int, int, int)>::empty() =~= done);
    }
    ranges
}


/// Whether the cut of `src` grows any region: its marks start at 0 and some pixel is white.
pub open spec fn aisle_seeded(src: Tu8uc1) -> bool {
    &&& src.fill_value == 0
    &&& exists|x: int, y: int| 0 <= x < src.cols && 0 <= y < src.rows && #[trigger] white(src, x, y)
}

/// Whether some pixel of `source` is white.
fn has_white(source: &Tu8uc1) -> (r: bool)
    requires
        source.rows > 0,
        source.cols > 0,
        source.rows * source.cols <= source.buffer@.len(),
        source.rows * source.cols <= i32::MAX,
    ensures
        r == exists|x: int, y: int| 0 <= x < source.cols && 0 <= y < source.rows && #[trigger] white(*source, x, y),
{
    let mut y: i32 = 0;
    while y < source.rows
        invariant
            source.rows > 0,
            source.cols > 0,
            source.rows * source.cols <= source.buffer@.len(),
            source.rows * source.cols <= i32::MAX,
            0 <= y <= source.rows,
            forall|x1: int, y1: int| 0 <= x1 < source.cols && 0 <= y1 < y ==> !#[trigger] white(*source, x1, y1),
        decreases source.rows - y,
    {
        let mut x: i32 = 0;
        while x < source.cols
            invariant
                source.rows > 0,
                source.cols > 0,
                source.rows * source.cols <= source.buffer@.len(),
                source.rows * source.cols <= i32::MAX,
                0 <= y < source.rows,
                0 <= x <= source.cols,
                forall|x1: int, y1: int|
                    0 <= x1 < source.cols && 0 <= y1 < y ==> !#[trigger] white(*source, x1, y1),
                forall|x1: int| 0 <= x1 < x ==> !#[trigger] white(*source, x1, y as int),
            decreases source.cols - x,
        {
            proof {
                assert(0 <= y * source.cols + x < source.rows * source.cols) by (nonlinear_arith)
                    requires 0 <= x < source.cols, 0 <= y < source.rows;
            }
            let i: usize = (y * source.cols + x) as usize;
            if source.buffer[i] == 255 {
                assert(white(*source, x as int, y as int));
                return true;
            }
            x += 1;
        }
        y += 1;
    }
    false
}

/// The points of `ps`, made absolute by adding the seed (`x`, `y`).
pub open spec fn absolute(ps: Seq<InciseRangePosition>, x: int, y: int) -> Seq<Point> {
    Seq::new(ps.len(), |k: int| (ps[k]@.0 + x, ps[k]@.1 + y))
}

/// The steps of `ds`.
pub open spec fn steps(ds: Seq<Direction>) -> Seq<Point> {
    Seq::new(ds.len(), |k: int| ds[k]@)
}

/// Every step moves at most one pixel in each direction.
pub open spec fn unit_steps(ds: Seq<Direction>) -> bool {
    forall|k: int| 0 <= k < ds.len() ==> -1 <= (#[trigger] ds[k])@.0 <= 1 && -1 <= ds[k]@.1 <= 1
}

/// The bounding box of `r1` is that of `r0` widened to hold the points `added`.
pub open spec fn box_widened(r0: InciseRange, r1: InciseRange, added: Seq<Point>) -> bool {
    &&& r1.min_x <= r0.min_x
    &&& r1.min_y <= r0.min_y
    &&& r1.max_x >= r0.max_x
    &&& r1.max_y >= r0.max_y
    &&& forall|k: int|
        0 <= k < added.len() ==> r1.min_x <= (#[trigger] added[k]).0 <= r1.max_x && r1.min_y <= added[k].1
            <= r1.max_y
    &&& (r1.min_x == r0.min_x || exists|k: int| 0 <= k < added.len() && r1.min_x == (#[trigger] added[k]).0)
    &&& (r1.min_y == r0.min_y || exists|k: int| 0 <= k < added.len() && r1.min_y == (#[trigger] added[k]).1)
    &&& (r1.max_x == r0.max_x || exists|k: int| 0 <= k < added.len() && r1.max_x == (#[trigger] added[k]).0)
    &&& (r1.max_y == r0.max_y || exists|k: int| 0 <= k < added.len() && r1.max_y == (#[trigger] added[k]).1)
}

/// `r1` is `r0` with positions appended and its bounding box widened; nothing else changed.
pub open spec fn range_extended(r0: InciseRange, r1: InciseRange) -> bool {
    &&& r1.x == r0.x
    &&& r1.y == r0.y
    &&& r1.cols == r0.cols
    &&& r1.rows == r0.rows
    &&& r1.source == r0.source
    &&& r1.is_empty_source == r0.is_empty_source
    &&& r1.positions@.len() >= r0.positions@.len()
    &&& r1.positions@.subrange(0, r0.positions@.len() as int) == r0.positions@
}

/// The absolute points appended to `r0`'s positions to make `r1`'s.
pub open spec fn appended(r0: InciseRange, r1: InciseRange, x: int, y: int) -> Seq<Point> {
    absolute(r1.positions@, x, y).skip(r0.positions@.len() as int)
}

proof fn lemma_box_compose(r0: InciseRange, r1: InciseRange, r2: InciseRange, a1: Seq<Point>, a2: Seq<Point>)
    requires
        box_widened(r0, r1, a1),
        box_widened(r1, r2, a2),
    ensures
        box_widened(r0, r2, a1 + a2),
{
    let a = a1 + a2;
    assert forall|k: int| 0 <= k < a.len() implies r2.min_x <= (#[trigger] a[k]).0 <= r2.max_x && r2.min_y
        <= a[k].1 <= r2.max_y by {
        if k < a1.len() {
            assert(a[k] == a1[k]);
        } else {
            assert(a[k] == a2[k - a1.len()]);
        }
    }
    if r2.min_x != r0.min_x {
        if r2.min_x == r1.min_x {
            let k = choose|k: int| 0 <= k < a1.len() && r1.min_x == (#[trigger] a1[k]).0;
            assert(a[k] == a1[k]);
        } else {
            let k = choose|k: int| 0 <= k < a2.len() && r2.min_x == (#[trigger] a2[k]).0;
            assert(a[k + a1.len()] == a2[k]);
        }
    }
    if r2.min_y != r0.min_y {
        if r2.min_y == r1.min_y {
            let k = choose|k: int| 0 <= k < a1.len() && r1.min_y == (#[trigger] a1[k]).1;
            assert(a[k] == a1[k]);
        } else {
            let k = choose|k: int| 0 <= k < a2.len() && r2.min_y == (#[trigger] a2[k]).1;
            assert(a[k + a1.len()] == a2[k]);
        }
    }
    if r2.max_x != r0.max_x {
        if r2.max_x == r1.max_x {
            let k = choose|k: int| 0 <= k < a1.len() && r1.max_x == (#[trigger] a1[k]).0;
            assert(a[k] == a1[k]);
        } else {
            let k = choose|k: int| 0 <= k < a2.len() && r2.max_x == (#[trigger] a2[k]).0;
            assert(a[k + a1.len()] == a2[k]);
        }
    }
    if r2.max_y != r0.max_y {
        if r2.max_y == r1.max_y {
            let k = choose|k: int| 0 <= k < a1.len() && r1.max_y == (#[trigger] a1[k]).1;
            assert(a[k] == a1[k]);
        } else {
            let k = choose|k: int| 0 <= k < a2.len() && r2.max_y == (#[trigger] a2[k]).1;
            assert(a[k + a1.len()] == a2[k]);
        }
    }
}

proof fn lemma_appended_compose(r0: InciseRange, r1: InciseRange, r2: InciseRange, x: int, y: int)
    requires
        range_extended(r0, r1),
        range_extended(r1, r2),
    ensures
        range_extended(r0, r2),
        appended(r0, r2, x, y) =~= appended(r0, r1, x, y) + appended(r1, r2, x, y),
{
    assert(r2.positions@.subrange(0, r0.positions@.len() as int) =~= r1.positions@.subrange(
        0,
        r0.positions@.len() as int,
    )) by {
        assert forall|i: int| 0 <= i < r0.positions@.len() implies r2.positions@[i] == r1.positions@[i] by {
            assert(r2.positions@.subrange(0, r1.positions@.len() as int)[i] == r1.positions@[i]);
        }
    }
    let a = appended(r0, r2, x, y);
    let b = appended(r0, r1, x, y) + appended(r1, r2, x, y);
    assert forall|i: int| 0 <= i < a.len() implies a[i] == b[i] by {
        let j = i + r0.positions@.len();
        if j < r1.positions@.len() {
            assert(r2.positions@.subrange(0, r1.positions@.len() as int)[j] == r1.positions@[j]);
        }
    }
}

/// Follows the white, unmarked pixels around (`x + ox`, `y + oy`): each neighbour that a step
/// of `directions` reaches and that is white (255 in `source`) and unmarked (0 in `sign`) is
/// marked with 1, recorded in `range` relative to the seed (`x`, `y`), widens the range's
/// bounding box, and is followed in turn, depth first (`dfs` gives the order in which the
/// pixels are recorded and the marks afterwards). `threshold_color_val` plays no part.
#[verifier::spinoff_prover]
#[verifier::rlimit(40)]
pub fn find_connected_range(
    source: &Tu8uc1,
    sign: &mut Tu8uc1,
    range: &mut InciseRange,
    directions: &Vec<Direction>,
    x: i32,
    y: i32,
    threshold_color_val: u8,
    ox: i32,
    oy: i32,
)
    requires
        source.cols >= 0,
        old(sign).buffer@.len() <= source.buffer@.len(),
        offsets_fit(
            source.buffer@,
            old(sign).buffer@,
            source.cols as int,
            steps(directions@),
            (x + ox, y + oy),
            x as int,
            y as int,
        ),
        walks_safe(
            source.buffer@,
            old(sign).buffer@,
            source.cols as int,
            steps(directions@),
            (x + ox, y + oy),
        ),
    ensures
        final(sign).rows == old(sign).rows,
        final(sign).cols == old(sign).cols,
        final(sign).fill_value == old(sign).fill_value,
        grew(source.buffer@, old(sign).buffer@, final(sign).buffer@),
        range_extended(*old(range), *final(range)),
        marks_match(
            old(sign).buffer@,
            final(sign).buffer@,
            source.cols as int,
            appended(*old(range), *final(range), x as int, y as int),
        ),
        forall|k: int|
            0 <= k < appended(*old(range), *final(range), x as int, y as int).len() ==> reaches(
                source.buffer@,
                old(sign).buffer@,
                source.cols as int,
                steps(directions@),
                (x + ox, y + oy),
                #[trigger] appended(*old(range), *final(range), x as int, y as int)[k],
            ),
        closed_at(source.buffer@, final(sign).buffer@, source.cols as int, steps(directions@), (x + ox, y + oy)),
        forall|k: int|
            0 <= k < appended(*old(range), *final(range), x as int, y as int).len() ==> closed_at(
                source.buffer@,
                final(sign).buffer@,
                source.cols as int,
                steps(directions@),
                #[trigger] appended(*old(range), *final(range), x as int, y as int)[k],
            ),
        box_widened(*old(range), *final(range), appended(*old(range), *final(range), x as int, y as int)),
        (appended(*old(range), *final(range), x as int, y as int), final(sign).buffer@) == dfs(
            source.buffer@,
            source.cols as int,
            steps(directions@),
            count_zero(old(sign).buffer@),
            old(sign).buffer@,
            (x + ox, y + oy),
            0,
        ),
    decreases count_zero(old(sign).buffer@),
{
    let ghost src = source.buffer@;
    let ghost s0 = sign.buffer@;
    let ghost cc = source.cols as int;
    let ghost dirs = steps(directions@);
    let ghost c0: Point = (x + ox, y + oy);
    let ghost r0 = *range;
    let ghost fuel = count_zero(s0);
    let ghost whole = dfs(src, cc, dirs, fuel, s0, c0, 0);
    proof {
        lemma_walk_here(src, s0, cc, dirs, c0);
        assert(safe(c0, dirs, cc, s0.len() as int));
        lemma_offsets_here(src, s0, cc, dirs, c0, x as int, y as int);
        assert(Seq::<Point>::empty() + whole.0 =~= whole.0);
        assert(appended(r0, *range, x as int, y as int) =~= Seq::<Point>::empty());
        assert(range.positions@.subrange(0, r0.positions@.len() as int) =~= r0.positions@);
    }
    let mut k: usize = 0;
    while k < directions.len()
        invariant
            src == source.buffer@,
            s0 == old(sign).buffer@,
            cc == source.cols,
            cc >= 0,
            dirs == steps(directions@),
            c0 == (x + ox, y + oy),
            r0 == *old(range),
            s0.len() <= src.len(),
            offsets_fit(src, s0, cc, dirs, c0, x as int, y as int),
            near_seed(c0, dirs, x as int, y as int),
            walks_safe(src, s0, cc, dirs, c0),
            safe(c0, dirs, cc, s0.len() as int),
            0 <= k <= directions@.len(),
            sign.rows == old(sign).rows,
            sign.cols == old(sign).cols,
            sign.fill_value == old(sign).fill_value,
            grew(src, s0, sign.buffer@),
            range_extended(r0, *range),
            marks_match(s0, sign.buffer@, cc, appended(r0, *range, x as int, y as int)),
            forall|j: int|
                0 <= j < appended(r0, *range, x as int, y as int).len() ==> reaches(
                    src,
                    s0,
                    cc,
                    dirs,
                    c0,
                    #[trigger] appended(r0, *range, x as int, y as int)[j],
                ),
            forall|j: int|
                0 <= j < appended(r0, *range, x as int, y as int).len() ==> closed_at(
                    src,
                    sign.buffer@,
                    cc,
                    dirs,
                    #[trigger] appended(r0, *range, x as int, y as int)[j],
                ),
            forall|j: int|
                0 <= j < k ==> {
                    let q = #[trigger] shift(c0, dirs[j]);
                    sign.buffer@[idx(q, cc)] != 0 || src[idx(q, cc)] != 255
                },
            box_widened(r0, *range, appended(r0, *range, x as int, y as int)),
            fuel == count_zero(s0),
            whole == dfs(src, cc, dirs, fuel, s0, c0, 0),
            count_zero(sign.buffer@) <= fuel,
            appended(r0, *range, x as int, y as int) + dfs(src, cc, dirs, fuel, sign.buffer@, c0, k as int).0
                == whole.0,
            dfs(src, cc, dirs, fuel, sign.buffer@, c0, k as int).1 == whole.1,
        decreases directions@.len() - k,
    {
        let direct = &directions[k];
        proof {
            assert(dirs[k as int] == direct@);
            assert(reachable_point(shift(c0, dirs[k as int]), cc, s0.len() as int));
            assert(i32::MIN <= dirs[k as int].0 + x <= i32::MAX && i32::MIN <= dirs[k as int].1 + y <= i32::MAX);
            assert(i32::MIN <= shift(c0, dirs[k as int]).0 - x <= i32::MAX && i32::MIN <= shift(c0, dirs[k as int]).1
                - y <= i32::MAX);
        }
        let cur_x = direct.x + x + ox;
        let cur_y = direct.y + y + oy;
        let ghost q: Point = shift(c0, dirs[k as int]);
        proof {
            assert(q == (cur_x as int, cur_y as int));
            assert(cur_y * cc <= idx(q, cc)) by (nonlinear_arith)
                requires cur_x >= 0, idx(q, cc) == cur_y * cc + cur_x;
            assert(0 <= cur_y * cc) by (nonlinear_arith)
                requires cur_y >= 0, cc >= 0;
        }
        let sign_len = sign.buffer.len();
        assert(sign_len == s0.len());
        let cur_idx: usize = cur_x as usize + cur_y as usize * source.cols as usize;
        let ghost s_before = sign.buffer@;
        let ghost r_before = *range;
        if sign.buffer[cur_idx] == 0 && source.buffer[cur_idx] == 255 {
            sign.buffer.set(cur_idx, 1);
            range.positions.push(InciseRangePosition { x: cur_x - x, y: cur_y - y });
            if cur_x < range.min_x {
                range.min_x = cur_x;
            };
            if cur_y < range.min_y {
                range.min_y = cur_y;
            }
            if cur_x > range.max_x {
                range.max_x = cur_x;
            }
            if cur_y > range.max_y {
                range.max_y = cur_y;
            }
            let ghost s_mid = sign.buffer@;
            let ghost r_mid = *range;
            proof {
                assert(grew(src, s_before, s_mid));
                lemma_grew_trans(src, s0, s_before, s_mid);
                assert(s0[cur_idx as int] == 0);
                assert(open_px(src, s0, cc, q));
                // The new point is appended to the positions.
                assert(range_extended(r_before, r_mid)) by {
                    assert(r_mid.positions@.subrange(0, r_before.positions@.len() as int) =~= r_before.positions@);
                }
                assert(appended(r_before, r_mid, x as int, y as int) =~= seq![q]);
                lemma_appended_compose(r0, r_before, r_mid, x as int, y as int);
                assert(idx(q, cc) == cur_idx);
                assert(seq![q][0] == q);
                assert(s_mid == s_before.update(cur_idx as int, 1));
                assert forall|i: int| 0 <= i < s_before.len() && #[trigger] s_mid[i] != s_before[i] implies exists|j: int|
                    0 <= j < seq![q].len() && idx(#[trigger] seq![q][j], cc) == i by {
                    assert(i == cur_idx);
                    assert(idx(seq![q][0], cc) == i);
                }
                assert(marks_match(s_before, s_mid, cc, seq![q]));
                lemma_marks_compose(src, s0, s_before, s_mid, cc, appended(r0, r_before, x as int, y as int), seq![q]);
                assert(box_widened(r_before, r_mid, seq![q]));
                lemma_box_compose(r0, r_before, r_mid, appended(r0, r_before, x as int, y as int), seq![q]);
                lemma_walks_safe_step(src, s0, s_mid, cc, dirs, c0, k as int);
                lemma_offsets_step(src, s0, s_mid, cc, dirs, c0, k as int, x as int, y as int);
                lemma_count_zero(src, s0, s_mid, cur_idx as int);
                assert((x + (direct.x + ox), y + (direct.y + oy)) == q);
            }
            find_connected_range(
                source,
                sign,
                range,
                directions,
                x,
                y,
                threshold_color_val,
                direct.x + ox,
                direct.y + oy,
            );
            proof {
                let s_after = sign.buffer@;
                let r_after = *range;
                let a_prev = appended(r0, r_before, x as int, y as int);
                let a_mid = appended(r0, r_mid, x as int, y as int);
                let a_child = appended(r_mid, r_after, x as int, y as int);
                lemma_grew_trans(src, s0, s_mid, s_after);
                lemma_appended_compose(r0, r_mid, r_after, x as int, y as int);
                lemma_marks_compose(src, s0, s_mid, s_after, cc, a_mid, a_child);
                lemma_box_compose(r0, r_mid, r_after, a_mid, a_child);
                let a_all = appended(r0, r_after, x as int, y as int);
                assert(a_mid =~= a_prev + seq![q]);
                assert forall|j: int| 0 <= j < a_all.len() implies reaches(src, s0, cc, dirs, c0, #[trigger] a_all[j]) by {
                    if j < a_prev.len() {
                        assert(a_all[j] == a_prev[j]);
                    } else if j == a_prev.len() {
                        assert(a_all[j] == q);
                        lemma_walk_one(src, s0, cc, dirs, c0, k as int);
                    } else {
                        assert(a_all[j] == a_child[j - a_mid.len()]);
                        lemma_reaches_prepend(src, s0, s_mid, cc, dirs, c0, k as int, a_child[j - a_mid.len()]);
                    }
                }
                assert forall|j: int| 0 <= j < a_all.len() implies closed_at(src, s_after, cc, dirs, #[trigger] a_all[j]) by {
                    if j < a_prev.len() {
                        assert(a_all[j] == a_prev[j]);
                        assert(reaches(src, s0, cc, dirs, c0, a_prev[j]));
                        let p = choose|p: Seq<Point>| #[trigger] crate::flood::is_walk(src, s0, cc, dirs, c0, p) && p.last() == a_prev[j];
                        assert(safe(a_prev[j], dirs, cc, s0.len() as int));
                        lemma_grew_trans(src, s_before, s_mid, s_after);
                        lemma_closed_mono(src, s_before, s_after, cc, dirs, a_prev[j]);
                    } else if j == a_prev.len() {
                        assert(a_all[j] == q);
                    } else {
                        assert(a_all[j] == a_child[j - a_mid.len()]);
                    }
                }
                lemma_dfs_step_open(src, cc, dirs, fuel, s_before, c0, k as int, a_child, s_after);
                let d2 = dfs(src, cc, dirs, fuel, s_after, c0, k + 1);
                assert(a_all + d2.0 =~= a_prev + (seq![q] + a_child + d2.0));
                assert forall|j: int| 0 <= j < k + 1 implies {
                    let qq = #[trigger] shift(c0, dirs[j]);
                    s_after[idx(qq, cc)] != 0 || src[idx(qq, cc)] != 255
                } by {
                    let qq = shift(c0, dirs[j]);
                    assert(reachable_point(qq, cc, s0.len() as int));
                    lemma_grew_trans(src, s_before, s_mid, s_after);
                    assert(s_after[idx(qq, cc)] == s_before[idx(qq, cc)] || s_before[idx(qq, cc)] == 0);
                    assert(s_after[idx(q, cc)] == s_mid[idx(q, cc)] || s_mid[idx(q, cc)] == 0);
                }
            }
        } else {
            proof {
                assert(!open_px(src, s_before, cc, q));
                lemma_dfs_step_closed(src, cc, dirs, fuel, s_before, c0, k as int);
            }
        }
        k += 1;
    }
    proof {
        lemma_dfs_done(src, cc, dirs, fuel, sign.buffer@, c0);
        assert(appended(r0, *range, x as int, y as int) + Seq::<Point>::empty() =~= appended(
            r0,
            *range,
            x as int,
            y as int,
        ));
    }
}


/// The absolute point of the `m`-th position of `r`.
pub open spec fn point_of(r: InciseRange, m: int) -> Point {
    (r.positions@[m]@.0 + r.x, r.positions@[m]@.1 + r.y)
}

/// Where the `m`-th position of `r` falls in the range's bitmap.
pub open spec fn bitmap_offset(r: InciseRange, m: int) -> int {
    (point_of(r, m).0 - r.min_x) + (point_of(r, m).1 - r.min_y) * (r.max_x - r.min_x + 1)
}

/// The bitmap of `r`'s positions over its bounding box: 255 where a position falls, 0
/// elsewhere.
pub open spec fn bitmap(r: InciseRange) -> Seq<u8> {
    Seq::new(
        ((r.max_x - r.min_x + 1) * (r.max_y - r.min_y + 1)) as nat,
        |j: int|
            if exists|m: int| 0 <= m < r.positions@.len() && #[trigger] bitmap_offset(r, m) == j {
                255u8
            } else {
                0u8
            },
    )
}

/// Every position of `r` lies in its bounding box, which holds its seed.
pub open spec fn positions_in_box(r: InciseRange) -> bool {
    &&& r.min_x <= r.x <= r.max_x
    &&& r.min_y <= r.y <= r.max_y
    &&& forall|m: int|
        0 <= m < r.positions@.len() ==> r.min_x <= (#[trigger] point_of(r, m)).0 <= r.max_x && r.min_y
            <= point_of(r, m).1 <= r.max_y
}

/// The size and bitmap that `incise_connected_area` gives a range once its positions are
/// known.
pub open spec fn finished(r0: InciseRange, r1: InciseRange, need_source: bool) -> bool {
    &&& r1.x == r0.x
    &&& r1.y == r0.y
    &&& r1.positions == r0.positions
    &&& r1.min_x == r0.min_x
    &&& r1.min_y == r0.min_y
    &&& r1.max_x == r0.max_x
    &&& r1.max_y == r0.max_y
    &&& r1.cols == r0.max_x - r0.min_x + 1
    &&& r1.rows == r0.max_y - r0.min_y + 1
    &&& if need_source {
        &&& r1.source.buffer@ == bitmap(r0)
        &&& r1.source.cols == r1.cols
        &&& r1.source.rows == r1.rows
        &&& r1.source.fill_value == 0
        &&& !r1.is_empty_source
    } else {
        &&& r1.source == r0.source
        &&& r1.is_empty_source == r0.is_empty_source
    }
}

/// Sets the size of `r` from its bounding box and, if `need_source`, draws its bitmap.
fn finish_range(r: &mut InciseRange, need_source: bool)
    requires
        positions_in_box(*old(r)),
        old(r).max_x - old(r).min_x + 1 <= i32::MAX,
        old(r).max_y - old(r).min_y + 1 <= i32::MAX,
        need_source ==> (old(r).max_x - old(r).min_x + 1) * (old(r).max_y - old(r).min_y + 1) <= i32::MAX,
    ensures
        finished(*old(r), *final(r), need_source),
{
    let ghost r0 = *r;
    r.cols = r.max_x - r.min_x + 1;
    r.rows = r.max_y - r.min_y + 1;
    let ox = r.x - r.min_x;
    let oy = r.y - r.min_y;
    if need_source {
        let w = r.cols;
        let h = r.rows;
        proof {
            assert(0 <= w * h) by (nonlinear_arith)
                requires w >= 1, h >= 1;
        }
        let mut buffer: Vec<u8> = vec![0; w as usize * h as usize];
        let mut ip: usize = 0;
        proof {
            assert(buffer@ =~= Seq::new(
                (w * h) as nat,
                |j: int| if exists|m: int| 0 <= m < 0 && #[trigger] bitmap_offset(r0, m) == j { 255u8 } else { 0u8 },
            ));
        }
        while ip < r.positions.len()
            invariant
                r.positions == r0.positions,
                r.x == r0.x,
                r.y == r0.y,
                r.min_x == r0.min_x,
                r.min_y == r0.min_y,
                r.max_x == r0.max_x,
                r.max_y == r0.max_y,
                w == r0.max_x - r0.min_x + 1,
                h == r0.max_y - r0.min_y + 1,
                r.cols == w,
                r.rows == h,
                w * h <= i32::MAX,
                ox == r0.x - r0.min_x,
                oy == r0.y - r0.min_y,
                positions_in_box(r0),
                0 <= ip <= r0.positions@.len(),
                buffer@ == Seq::new(
                    (w * h) as nat,
                    |j: int|
                        if exists|m: int| 0 <= m < ip && #[trigger] bitmap_offset(r0, m) == j {
                            255u8
                        } else {
                            0u8
                        },
                ),
            decreases r0.positions@.len() - ip,
        {
            let p = r.positions[ip];
            let ghost pt = point_of(r0, ip as int);
            proof {
                assert(pt == point_of(r0, ip as int));
                assert(pt.0 == p@.0 + r0.x && pt.1 == p@.1 + r0.y);
                let a = pt.0 - r0.min_x;
                let b = pt.1 - r0.min_y;
                assert(0 <= a < w && 0 <= b < h);
                assert(0 <= b * w <= (h - 1) * w) by (nonlinear_arith)
                    requires 0 <= b < h, w >= 1;
                assert((h - 1) * w + w == w * h) by (nonlinear_arith);
            }
            let at = (p.x + ox + (p.y + oy) * w) as usize;
            let ghost before = buffer@;
            buffer.set(at, 255);
            proof {
                assert(at as int == bitmap_offset(r0, ip as int));
                assert forall|j: int| 0 <= j < w * h implies buffer@[j] == (if exists|m: int| 0 <= m < ip + 1 && #[trigger] bitmap_offset(r0, m) == j { 255u8 } else { 0u8 }) by {
                    if j == at {
                        assert(bitmap_offset(r0, ip as int) == j);
                    } else if exists|m: int| 0 <= m < ip + 1 && #[trigger] bitmap_offset(r0, m) == j {
                        let m = choose|m: int| 0 <= m < ip + 1 && #[trigger] bitmap_offset(r0, m) == j;
                        assert(m < ip);
                    }
                }
                assert(buffer@ =~= Seq::new(
                    (w * h) as nat,
                    |j: int| if exists|m: int| 0 <= m < ip + 1 && #[trigger] bitmap_offset(r0, m) == j { 255u8 } else { 0u8 },
                ));
            }
            ip += 1;
        }
        proof {
            assert(buffer@ =~= bitmap(r0));
        }
        r.source = Tu8uc1 { cols: w, rows: h, buffer, fill_value: 0 };
        r.is_empty_source = false;
    }
}


/// The absolute points that the fill recorded after the seed.
pub open spec fn new_points(r: InciseRange) -> Seq<Point> {
    absolute(r.positions@, r.x as int, r.y as int).skip(1)
}

/// The bounding box of `r` is exactly that of its points.
pub open spec fn box_exact(r: InciseRange) -> bool {
    &&& r.positions@.len() >= 1
    &&& forall|m: int|
        0 <= m < r.positions@.len() ==> r.min_x <= (#[trigger] point_of(r, m)).0 <= r.max_x && r.min_y
            <= point_of(r, m).1 <= r.max_y
    &&& exists|m: int| 0 <= m < r.positions@.len() && (#[trigger] point_of(r, m)).0 == r.min_x
    &&& exists|m: int| 0 <= m < r.positions@.len() && (#[trigger] point_of(r, m)).0 == r.max_x
    &&& exists|m: int| 0 <= m < r.positions@.len() && (#[trigger] point_of(r, m)).1 == r.min_y
    &&& exists|m: int| 0 <= m < r.positions@.len() && (#[trigger] point_of(r, m)).1 == r.max_y
}

/// The size and source that `incise_connected_area` gives a range: the size of its bounding
/// box and, where `need_source`, the bitmap of its points; otherwise an empty source.
pub open spec fn shaped(r: InciseRange, need_source: bool) -> bool {
    &&& r.cols == r.max_x - r.min_x + 1
    &&& r.rows == r.max_y - r.min_y + 1
    &&& if need_source {
        &&& r.source.buffer@ == bitmap(r)
        &&& r.source.cols == r.cols
        &&& r.source.rows == r.rows
        &&& r.source.fill_value == 0
        &&& !r.is_empty_source
    } else {
        &&& r.source.buffer@.len() == 0
        &&& r.source.cols == 0
        &&& r.source.rows == 0
        &&& r.source.fill_value == 255
        &&& r.is_empty_source
    }
}

/// Every point of `r` is the end of a walk from the seed over no marks.
proof fn lemma_points_walk(src: Seq<u8>, s0: Seq<u8>, cols: int, dirs: Seq<Point>, r: InciseRange, m: int)
    requires
        r.positions@.len() >= 1,
        r.positions@[0]@ == (0int, 0int),
        0 <= m < r.positions@.len(),
        forall|k: int|
            0 <= k < new_points(r).len() ==> reaches(src, s0, cols, dirs, (r.x as int, r.y as int), #[trigger] new_points(r)[k]),
    ensures
        exists|p: Seq<Point>|
            #[trigger] is_walk(src, zeros(s0.len() as int), cols, dirs, (r.x as int, r.y as int), p) && p.last()
                == point_of(r, m),
{
    let seed = (r.x as int, r.y as int);
    if m == 0 {
        lemma_walk_here(src, zeros(s0.len() as int), cols, dirs, seed);
        assert(is_walk(src, zeros(s0.len() as int), cols, dirs, seed, seq![seed]));
        assert(seq![seed].last() == point_of(r, m));
    } else {
        assert(new_points(r)[m - 1] == point_of(r, m));
        assert(reaches(src, s0, cols, dirs, seed, new_points(r)[m - 1]));
        let p = choose|p: Seq<Point>| #[trigger] is_walk(src, s0, cols, dirs, seed, p) && p.last() == new_points(r)[m - 1];
        lemma_walk_unmarked(src, s0, cols, dirs, seed, p);
        assert(is_walk(src, zeros(s0.len() as int), cols, dirs, seed, p));
    }
}

/// What the fill leaves of the range it started from the seed alone: the seed stays first,
/// and the box is exactly that of the points.
proof fn lemma_flood_box(r0: InciseRange, r1: InciseRange, x: int, y: int)
    requires
        r0.x == x,
        r0.y == y,
        r0.min_x == x,
        r0.max_x == x,
        r0.min_y == y,
        r0.max_y == y,
        r0.positions@.len() == 1,
        r0.positions@[0]@ == (0int, 0int),
        range_extended(r0, r1),
        box_widened(r0, r1, appended(r0, r1, x, y)),
    ensures
        r1.positions@[0]@ == (0int, 0int),
        new_points(r1) == appended(r0, r1, x, y),
        box_exact(r1),
        positions_in_box(r1),
{
    assert(r1.positions@[0] == r0.positions@[0]) by {
        assert(r1.positions@.subrange(0, 1)[0] == r0.positions@[0]);
    }
    assert(new_points(r1) =~= appended(r0, r1, x, y));
    let np = new_points(r1);
    assert(point_of(r1, 0) == (x, y));
    assert forall|m: int| 0 <= m < r1.positions@.len() implies r1.min_x <= (#[trigger] point_of(r1, m)).0
        <= r1.max_x && r1.min_y <= point_of(r1, m).1 <= r1.max_y by {
        if m > 0 {
            assert(np[m - 1] == point_of(r1, m));
        }
    }
    if r1.min_x != x {
        let k = choose|k: int| 0 <= k < np.len() && r1.min_x == (#[trigger] np[k]).0;
        assert(point_of(r1, k + 1) == np[k]);
    }
    if r1.max_x != x {
        let k = choose|k: int| 0 <= k < np.len() && r1.max_x == (#[trigger] np[k]).0;
        assert(point_of(r1, k + 1) == np[k]);
    }
    if r1.min_y != y {
        let k = choose|k: int| 0 <= k < np.len() && r1.min_y == (#[trigger] np[k]).1;
        assert(point_of(r1, k + 1) == np[k]);
    }
    if r1.max_y != y {
        let k = choose|k: int| 0 <= k < np.len() && r1.max_y == (#[trigger] np[k]).1;
        assert(point_of(r1, k + 1) == np[k]);
    }
}

/// The box of a filled range fits the bounds that `spans_fit` puts on what the fill can reach.
proof fn lemma_box_fits(src: Seq<u8>, s0: Seq<u8>, cc: int, dirs: Seq<Point>, r1: InciseRange, need_source: bool)
    requires
        r1.positions@[0]@ == (0int, 0int),
        box_exact(r1),
        forall|k: int|
            0 <= k < new_points(r1).len() ==> reaches(src, s0, cc, dirs, (r1.x as int, r1.y as int), #[trigger] new_points(r1)[k]),
        spans_fit(src, s0.len() as int, cc, dirs, (r1.x as int, r1.y as int), need_source),
    ensures
        r1.max_x - r1.min_x + 1 <= i32::MAX,
        r1.max_y - r1.min_y + 1 <= i32::MAX,
        need_source ==> (r1.max_x - r1.min_x + 1) * (r1.max_y - r1.min_y + 1) <= i32::MAX,
{
    let seed = (r1.x as int, r1.y as int);
    let len = r1.positions@.len() as int;
    let m1 = choose|m: int| 0 <= m < len && (#[trigger] point_of(r1, m)).0 == r1.min_x;
    let m2 = choose|m: int| 0 <= m < len && (#[trigger] point_of(r1, m)).0 == r1.max_x;
    let m3 = choose|m: int| 0 <= m < len && (#[trigger] point_of(r1, m)).1 == r1.min_y;
    let m4 = choose|m: int| 0 <= m < len && (#[trigger] point_of(r1, m)).1 == r1.max_y;
    lemma_points_walk(src, s0, cc, dirs, r1, m1);
    lemma_points_walk(src, s0, cc, dirs, r1, m2);
    lemma_points_walk(src, s0, cc, dirs, r1, m3);
    lemma_points_walk(src, s0, cc, dirs, r1, m4);
    let z = zeros(s0.len() as int);
    let p1 = choose|p: Seq<Point>| #[trigger] is_walk(src, z, cc, dirs, seed, p) && p.last() == point_of(r1, m1);
    let p2 = choose|p: Seq<Point>| #[trigger] is_walk(src, z, cc, dirs, seed, p) && p.last() == point_of(r1, m2);
    let p3 = choose|p: Seq<Point>| #[trigger] is_walk(src, z, cc, dirs, seed, p) && p.last() == point_of(r1, m3);
    let p4 = choose|p: Seq<Point>| #[trigger] is_walk(src, z, cc, dirs, seed, p) && p.last() == point_of(r1, m4);
    assert(is_walk(src, z, cc, dirs, seed, p1) && is_walk(src, z, cc, dirs, seed, p2) && is_walk(src, z, cc, dirs, seed, p3) && is_walk(src, z, cc, dirs, seed, p4));
}

/// Fills the component of the seed (`x`, `y`) and gives it its size and source.
fn flood_seed(
    source: &Tu8uc1,
    sign: &mut Tu8uc1,
    directions: &Vec<Direction>,
    x: i32,
    y: i32,
    threshold_color_val: u8,
    need_source: bool,
) -> (r: InciseRange)
    requires
        source.cols >= 0,
        old(sign).buffer@.len() <= source.buffer@.len(),
        0 <= x < i32::MAX,
        0 <= y < i32::MAX,
        unit_steps(directions@),
        walks_safe(source.buffer@, old(sign).buffer@, source.cols as int, steps(directions@), (x as int, y as int)),
        spans_fit(
            source.buffer@,
            old(sign).buffer@.len() as int,
            source.cols as int,
            steps(directions@),
            (x as int, y as int),
            need_source,
        ),
    ensures
        final(sign).rows == old(sign).rows,
        final(sign).cols == old(sign).cols,
        final(sign).fill_value == old(sign).fill_value,
        grew(source.buffer@, old(sign).buffer@, final(sign).buffer@),
        r.x == x,
        r.y == y,
        r.positions@[0]@ == (0int, 0int),
        box_exact(r),
        marks_match(old(sign).buffer@, final(sign).buffer@, source.cols as int, new_points(r)),
        forall|k: int|
            0 <= k < new_points(r).len() ==> reaches(
                source.buffer@,
                old(sign).buffer@,
                source.cols as int,
                steps(directions@),
                (x as int, y as int),
                #[trigger] new_points(r)[k],
            ),
        closed_at(source.buffer@, final(sign).buffer@, source.cols as int, steps(directions@), (x as int, y as int)),
        forall|k: int|
            0 <= k < new_points(r).len() ==> closed_at(
                source.buffer@,
                final(sign).buffer@,
                source.cols as int,
                steps(directions@),
                #[trigger] new_points(r)[k],
            ),
        shaped(r, need_source),
        new_points(r) == dfs(
            source.buffer@,
            source.cols as int,
            steps(directions@),
            count_zero(old(sign).buffer@),
            old(sign).buffer@,
            (x as int, y as int),
            0,
        ).0,
{
    let ghost src = source.buffer@;
    let ghost s0 = sign.buffer@;
    let ghost cc = source.cols as int;
    let ghost dirs = steps(directions@);
    let mut range = InciseRange {
        x,
        y,
        cols: 1,
        rows: 1,
        min_x: x,
        min_y: y,
        max_x: x,
        max_y: y,
        positions: vec![InciseRangePosition { x: 0, y: 0 }],
        source: Tu8uc1 { buffer: Vec::new(), cols: 0, rows: 0, fill_value: 255 },
        is_empty_source: true,
    };
    let ghost r0 = range;
    assert((x + 0, y + 0) == (x as int, y as int));
    proof {
        assert forall|k: int| 0 <= k < steps(directions@).len() implies -1 <= (#[trigger] steps(directions@)[k]).0
            <= 1 && -1 <= steps(directions@)[k].1 <= 1 by {
            assert(steps(directions@)[k] == directions@[k]@);
        }
        lemma_offsets_from_seed(
            source.buffer@,
            sign.buffer@,
            source.cols as int,
            steps(directions@),
            (x as int, y as int),
            x as int,
            y as int,
        );
    }
    find_connected_range(source, sign, &mut range, directions, x, y, threshold_color_val, 0, 0);
    let ghost r1 = range;
    proof {
        assert(new_points(r1) =~= appended(r0, r1, x as int, y as int));
        lemma_flood_box(r0, r1, x as int, y as int);
        lemma_box_fits(src, s0, cc, dirs, r1, need_source);
    }
    finish_range(&mut range, need_source);
    proof {
        assert(forall|m: int| 0 <= m < range.positions@.len() ==> bitmap_offset(range, m) == bitmap_offset(r1, m));
        assert(bitmap(range) =~= bitmap(r1));
        assert(forall|k: int| 0 <= k < new_points(range).len() ==> new_points(range)[k] == new_points(r1)[k]);
        assert(new_points(range) =~= new_points(r1));
        assert(forall|m: int| 0 <= m < range.positions@.len() ==> point_of(range, m) == point_of(r1, m));
    }
    range
}


/// The steps to the four neighbours, or with `through` to all eight.
pub open spec fn neighbourhood(through: bool) -> Seq<Point> {
    if !through {
        seq![(0int, -1int), (-1int, 0int), (1int, 0int), (0int, 1int)]
    } else {
        seq![
            (-1int, -1int),
            (0int, -1int),
            (1int, -1int),
            (-1int, 0int),
            (1int, 0int),
            (-1int, 1int),
            (0int, 1int),
            (1int, 1int),
        ]
    }
}

/// No white pixel lies on the border of the `rows` x `cols` image `src`.
pub open spec fn border_free(src: Seq<u8>, rows: int, cols: int) -> bool {
    forall|x: int, y: int|
        0 <= x < cols && 0 <= y < rows && src[#[trigger] lin(x, y, cols)] == 255 ==> 1 <= x < cols - 1 && 1 <= y
            < rows - 1
}

/// Each step of the neighbourhood moves at most one pixel each way.
proof fn lemma_neighbourhood_unit(through: bool)
    ensures
        forall|k: int|
            0 <= k < neighbourhood(through).len() ==> -1 <= (#[trigger] neighbourhood(through)[k]).0 <= 1 && -1
                <= neighbourhood(through)[k].1 <= 1,
{
}

/// On an image with no white pixel on its border, every walk from a white pixel stays on white
/// pixels of the image.
proof fn lemma_border_walk(src: Seq<u8>, rows: int, cols: int, through: bool, seed: Point, p: Seq<Point>)
    requires
        rows >= 0,
        cols >= 0,
        rows * cols <= src.len(),
        border_free(src, rows, cols),
        0 <= seed.0 < cols,
        0 <= seed.1 < rows,
        src[idx(seed, cols)] == 255,
        is_walk(src, zeros(rows * cols), cols, neighbourhood(through), seed, p),
    ensures
        0 <= p.last().0 < cols,
        0 <= p.last().1 < rows,
        src[idx(p.last(), cols)] == 255,
    decreases p.len(),
{
    if p.len() > 1 {
        let q = p.drop_last();
        assert forall|i: int| 1 <= i < q.len() implies #[trigger] link(
            src,
            zeros(rows * cols),
            cols,
            neighbourhood(through),
            q,
            i,
        ) by {
            assert(link(src, zeros(rows * cols), cols, neighbourhood(through), p, i));
        }
        lemma_border_walk(src, rows, cols, through, seed, q);
        let a = q.last();
        let i = p.len() - 1;
        assert(link(src, zeros(rows * cols), cols, neighbourhood(through), p, i));
        assert(p[i - 1] == a);
        let k = choose|k: int| 0 <= k < neighbourhood(through).len() && p[i] == #[trigger] shift(
            a,
            neighbourhood(through)[k],
        );
        lemma_neighbourhood_unit(through);
        assert(src[lin(a.0, a.1, cols)] == 255);
        assert(1 <= a.0 < cols - 1 && 1 <= a.1 < rows - 1);
    }
}

/// On an image with no white pixel on its border, and where a bitmap is wanted an image of at
/// most `i32::MAX` pixels, every white pixel's component fits: the flood from it reads only
/// inside the image and its box and bitmap sizes fit an `i32`.
pub proof fn law_border_free_components_fit(
    src: Seq<u8>,
    rows: int,
    cols: int,
    through: bool,
    need_source: bool,
    seed: Point,
)
    requires
        0 <= rows <= i32::MAX,
        0 <= cols <= i32::MAX,
        rows * cols <= src.len(),
        need_source ==> rows * cols <= i32::MAX,
        border_free(src, rows, cols),
        0 <= seed.0 < cols,
        0 <= seed.1 < rows,
        src[idx(seed, cols)] == 255,
    ensures
        component_fits(src, rows * cols, cols, neighbourhood(through), seed, need_source),
{
    let n = rows * cols;
    let dirs = neighbourhood(through);
    lemma_neighbourhood_unit(through);
    assert forall|p: Seq<Point>| #[trigger] is_walk(src, zeros(n), cols, dirs, seed, p) implies safe(
        p.last(),
        dirs,
        cols,
        zeros(n).len() as int,
    ) by {
        lemma_border_walk(src, rows, cols, through, seed, p);
        let c = p.last();
        assert(1 <= c.0 < cols - 1 && 1 <= c.1 < rows - 1);
        assert forall|k: int| 0 <= k < dirs.len() implies reachable_point(#[trigger] shift(c, dirs[k]), cols, n) by {
            let d = shift(c, dirs[k]);
            assert(0 <= d.0 < cols && 0 <= d.1 < rows);
            assert(0 <= d.1 * cols + d.0 < rows * cols) by (nonlinear_arith)
                requires 0 <= d.0 < cols, 0 <= d.1 < rows;
        }
    }
    assert forall|p1: Seq<Point>, p2: Seq<Point>, p3: Seq<Point>, p4: Seq<Point>|
        is_walk(src, zeros(n), cols, dirs, seed, p1) && is_walk(src, zeros(n), cols, dirs, seed, p2) && is_walk(
            src,
            zeros(n),
            cols,
            dirs,
            seed,
            p3,
        ) && is_walk(src, zeros(n), cols, dirs, seed, p4) implies {
            let w = p2.last().0 - p1.last().0 + 1;
            let h = p4.last().1 - p3.last().1 + 1;
            &&& w <= i32::MAX
            &&& h <= i32::MAX
            &&& (need_source ==> w * h <= i32::MAX)
        } by {
        lemma_border_walk(src, rows, cols, through, seed, p1);
        lemma_border_walk(src, rows, cols, through, seed, p2);
        lemma_border_walk(src, rows, cols, through, seed, p3);
        lemma_border_walk(src, rows, cols, through, seed, p4);
        let w = p2.last().0 - p1.last().0 + 1;
        let h = p4.last().1 - p3.last().1 + 1;
        if need_source {
            assert(w * h <= rows * cols) by (nonlinear_arith)
                requires -cols <= w <= cols, -rows <= h <= rows;
        }
    }
}

/// The linear index of the seed of `r`.
pub open spec fn seed_idx(r: InciseRange, cols: int) -> int {
    lin(r.x as int, r.y as int, cols)
}

/// Whether one of the first `k` ranges recorded the pixel `i` after its seed.
pub open spec fn marked_by(rs: Seq<InciseRange>, k: int, i: int, cols: int) -> bool {
    exists|j: int, m: int|
        0 <= j < k && 1 <= m < rs[j].positions@.len() && #[trigger] idx(point_of(rs[j], m), cols) == i
}

/// The marks of the scan: 1 on every pixel before `upto` and on every pixel that one of the
/// first `k` ranges recorded after its seed, 0 elsewhere.
pub open spec fn scan_marks(rs: Seq<InciseRange>, k: int, upto: int, n: int, cols: int) -> Seq<u8> {
    Seq::new(n as nat, |i: int| if i < upto || marked_by(rs, k, i, cols) { 1u8 } else { 0u8 })
}

/// The `k`-th range is the component of its seed: the seed is a white pixel that was unmarked
/// when the scan reached it; the range records the seed and then, once each, exactly the
/// pixels that the fill marked, each reached from the seed by a walk through white pixels
/// unmarked at that time; the fill cannot go on from any of them; its bounding box is that of
/// its points; it has the size and source that `shaped` gives it; and the recorded pixels come
/// in the depth-first order of `dfs`.
pub open spec fn component_ok(
    src: Seq<u8>,
    rows: int,
    cols: int,
    dirs: Seq<Point>,
    rs: Seq<InciseRange>,
    k: int,
    need_source: bool,
) -> bool {
    let r = rs[k];
    let n = rows * cols;
    let s = seed_idx(r, cols);
    let before = scan_marks(rs, k, s, n, cols);
    let after = scan_marks(rs, k + 1, s, n, cols);
    &&& 0 <= r.x < cols
    &&& 0 <= r.y < rows
    &&& src[s] == 255
    &&& before[s] == 0
    &&& r.positions@[0]@ == (0int, 0int)
    &&& box_exact(r)
    &&& shaped(r, need_source)
    &&& marks_match(before, after, cols, new_points(r))
    &&& forall|m: int|
        0 <= m < new_points(r).len() ==> reaches(src, before, cols, dirs, (r.x as int, r.y as int), #[trigger] new_points(r)[m])
    &&& closed_at(src, after, cols, dirs, (r.x as int, r.y as int))
    &&& forall|m: int| 0 <= m < new_points(r).len() ==> closed_at(src, after, cols, dirs, #[trigger] new_points(r)[m])
    &&& new_points(r) == dfs(src, cols, dirs, count_zero(before), before, (r.x as int, r.y as int), 0).0
}

/// Every white pixel before `upto` seeds a range or was recorded by a range with an earlier
/// seed.
pub open spec fn covered_upto(src: Seq<u8>, cols: int, rs: Seq<InciseRange>, upto: int) -> bool {
    forall|i: int|
        0 <= i < upto && #[trigger] src[i] == 255 ==> (exists|k: int| 0 <= k < rs.len() && seed_idx(#[trigger] rs[k], cols) == i)
            || (exists|j: int, m: int|
            0 <= j < rs.len() && seed_idx(rs[j], cols) < i && 1 <= m < rs[j].positions@.len() && #[trigger] idx(
                point_of(rs[j], m),
                cols,
            ) == i)
}

/// The ranges of `incise_connected_area`: the components of the image's white pixels, in the
/// order in which the scan reaches their seeds.
pub open spec fn connected_areas(
    src: Seq<u8>,
    rows: int,
    cols: int,
    dirs: Seq<Point>,
    rs: Seq<InciseRange>,
    need_source: bool,
) -> bool {
    &&& forall|k: int| 0 <= k < rs.len() ==> #[trigger] component_ok(src, rows, cols, dirs, rs, k, need_source)
    &&& forall|j: int, k: int|
        0 <= j < k < rs.len() ==> seed_idx(#[trigger] rs[j], cols) < seed_idx(#[trigger] rs[k], cols)
    &&& covered_upto(src, cols, rs, rows * cols)
}

proof fn lemma_scan_marks_push(rs: Seq<InciseRange>, r: InciseRange, j: int, u: int, n: int, cols: int)
    requires
        0 <= j <= rs.len(),
    ensures
        scan_marks(rs.push(r), j, u, n, cols) == scan_marks(rs, j, u, n, cols),
{
    assert forall|i: int| marked_by(rs.push(r), j, i, cols) == marked_by(rs, j, i, cols) by {
        if marked_by(rs.push(r), j, i, cols) {
            let (a, m) = choose|a: int, m: int|
                0 <= a < j && 1 <= m < rs.push(r)[a].positions@.len() && #[trigger] idx(point_of(rs.push(r)[a], m), cols) == i;
            assert(rs.push(r)[a] == rs[a]);
        }
        if marked_by(rs, j, i, cols) {
            let (a, m) = choose|a: int, m: int|
                0 <= a < j && 1 <= m < rs[a].positions@.len() && #[trigger] idx(point_of(rs[a], m), cols) == i;
            assert(rs.push(r)[a] == rs[a]);
        }
    }
    assert(scan_marks(rs.push(r), j, u, n, cols) =~= scan_marks(rs, j, u, n, cols));
}

proof fn lemma_scan_marks_flood(
    src: Seq<u8>,
    rs: Seq<InciseRange>,
    r: InciseRange,
    s: Seq<u8>,
    s2: Seq<u8>,
    p: int,
    n: int,
    cols: int,
)
    requires
        n >= 0,
        s == scan_marks(rs, rs.len() as int, p, n, cols),
        grew(src, s, s2),
        marks_match(s, s2, cols, new_points(r)),
        r.positions@.len() >= 1,
    ensures
        s2 == scan_marks(rs.push(r), rs.len() as int + 1, p, n, cols),
{
    let rs2 = rs.push(r);
    let k = rs.len() as int;
    let np = new_points(r);
    assert forall|i: int| 0 <= i < n implies s2[i] == (if i < p || marked_by(rs2, k + 1, i, cols) { 1u8 } else { 0u8 }) by {
        assert(s2[i] == s[i] || (s[i] == 0 && s2[i] == 1));
        if s2[i] != s[i] {
            let m = choose|m: int| 0 <= m < np.len() && idx(#[trigger] np[m], cols) == i;
            assert(np[m] == point_of(rs2[k], m + 1));
            assert(idx(point_of(rs2[k], m + 1), cols) == i);
        } else if marked_by(rs2, k + 1, i, cols) && !(i < p) {
            let (a, m) = choose|a: int, m: int|
                0 <= a < k + 1 && 1 <= m < rs2[a].positions@.len() && #[trigger] idx(point_of(rs2[a], m), cols) == i;
            if a < k {
                assert(rs2[a] == rs[a]);
                assert(marked_by(rs, k, i, cols));
            } else {
                assert(np[m - 1] == point_of(r, m));
                assert(s2[idx(np[m - 1], cols)] == 1);
            }
        }
        if s[i] == 1 && !(i < p) {
            let (a, m) = choose|a: int, m: int|
                0 <= a < k && 1 <= m < rs[a].positions@.len() && #[trigger] idx(point_of(rs[a], m), cols) == i;
            assert(rs2[a] == rs[a]);
            assert(idx(point_of(rs2[a], m), cols) == i);
        }
    }
    assert(s2 =~= scan_marks(rs2, k + 1, p, n, cols));
}


/// What the scan knows before the pixel `p`: the marks, the components found so far, their
/// seeds in scan order and before `p`, and the white pixels before `p` covered.
pub open spec fn scan_state(
    src: Seq<u8>,
    rows: int,
    cols: int,
    dirs: Seq<Point>,
    rs: Seq<InciseRange>,
    sign: Seq<u8>,
    p: int,
    need_source: bool,
) -> bool {
    &&& sign == scan_marks(rs, rs.len() as int, p, rows * cols, cols)
    &&& forall|k: int| 0 <= k < rs.len() ==> #[trigger] component_ok(src, rows, cols, dirs, rs, k, need_source)
    &&& forall|k: int| 0 <= k < rs.len() ==> seed_idx(#[trigger] rs[k], cols) < p
    &&& forall|j: int, k: int|
        0 <= j < k < rs.len() ==> seed_idx(#[trigger] rs[j], cols) < seed_idx(#[trigger] rs[k], cols)
    &&& covered_upto(src, cols, rs, p)
}

/// A seed at `(x, y)` and its component extend the scan's knowledge.
proof fn lemma_seed_step(
    src: Seq<u8>,
    rows: int,
    cols: int,
    dirs: Seq<Point>,
    rs: Seq<InciseRange>,
    r: InciseRange,
    s: Seq<u8>,
    s2: Seq<u8>,
    x: int,
    y: int,
    need_source: bool,
)
    requires
        0 <= x < cols,
        0 <= y < rows,
        scan_state(src, rows, cols, dirs, rs, s, lin(x, y, cols), need_source),
        s[lin(x, y, cols)] == 0,
        src[lin(x, y, cols)] == 255,
        grew(src, s, s2),
        r.x == x,
        r.y == y,
        r.positions@[0]@ == (0int, 0int),
        box_exact(r),
        shaped(r, need_source),
        marks_match(s, s2, cols, new_points(r)),
        forall|k: int|
            0 <= k < new_points(r).len() ==> reaches(src, s, cols, dirs, (x, y), #[trigger] new_points(r)[k]),
        closed_at(src, s2, cols, dirs, (x, y)),
        forall|k: int| 0 <= k < new_points(r).len() ==> closed_at(src, s2, cols, dirs, #[trigger] new_points(r)[k]),
        new_points(r) == dfs(src, cols, dirs, count_zero(s), s, (x, y), 0).0,
    ensures
        scan_state(src, rows, cols, dirs, rs.push(r), s2.update(lin(x, y, cols), 1), lin(x, y, cols) + 1, need_source),
{
    let p = lin(x, y, cols);
    let n = rows * cols;
    let k = rs.len() as int;
    let rs2 = rs.push(r);
    assert(0 <= n) by (nonlinear_arith)
        requires rows >= 0, cols >= 0, n == rows * cols;
    assert(0 <= p < n) by (nonlinear_arith)
        requires 0 <= x < cols, 0 <= y < rows, n == rows * cols, p == y * cols + x;
    lemma_scan_marks_push(rs, r, k, p, n, cols);
    lemma_scan_marks_flood(src, rs, r, s, s2, p, n, cols);
    assert(seed_idx(r, cols) == p);
    assert(rs2[k] == r);
    assert(component_ok(src, rows, cols, dirs, rs2, k, need_source));
    assert forall|j: int| 0 <= j < rs2.len() implies #[trigger] component_ok(src, rows, cols, dirs, rs2, j, need_source) by {
        if j < k {
            assert(rs2[j] == rs[j]);
            assert(component_ok(src, rows, cols, dirs, rs, j, need_source));
            lemma_scan_marks_push(rs, r, j, seed_idx(rs[j], cols), n, cols);
            lemma_scan_marks_push(rs, r, j + 1, seed_idx(rs[j], cols), n, cols);
        }
    }
    assert forall|j: int| 0 <= j < rs2.len() implies seed_idx(#[trigger] rs2[j], cols) < p + 1 by {
        if j < k {
            assert(rs2[j] == rs[j]);
        }
    }
    assert forall|j: int, i: int| 0 <= j < i < rs2.len() implies seed_idx(#[trigger] rs2[j], cols) < seed_idx(
        #[trigger] rs2[i],
        cols,
    ) by {
        assert(rs2[j] == rs[j]);
        if i < k {
            assert(rs2[i] == rs[i]);
        }
    }
    let s3 = s2.update(p, 1);
    assert(s3 =~= scan_marks(rs2, k + 1, p + 1, n, cols)) by {
        assert forall|i: int| 0 <= i < n implies s3[i] == (if i < p + 1 || marked_by(rs2, k + 1, i, cols) { 1u8 } else { 0u8 }) by {
            if i != p {
                assert(s2[i] == scan_marks(rs2, k + 1, p, n, cols)[i]);
            }
        }
    }
    assert forall|i: int| 0 <= i < p + 1 && #[trigger] src[i] == 255 implies (exists|kk: int|
        0 <= kk < rs2.len() && seed_idx(#[trigger] rs2[kk], cols) == i) || (exists|j: int, m: int|
        0 <= j < rs2.len() && seed_idx(rs2[j], cols) < i && 1 <= m < rs2[j].positions@.len() && #[trigger] idx(
            point_of(rs2[j], m),
            cols,
        ) == i) by {
        if i == p {
            assert(seed_idx(rs2[k], cols) == i);
        } else if exists|kk: int| 0 <= kk < rs.len() && seed_idx(#[trigger] rs[kk], cols) == i {
            let kk = choose|kk: int| 0 <= kk < rs.len() && seed_idx(#[trigger] rs[kk], cols) == i;
            assert(rs2[kk] == rs[kk]);
        } else {
            let (j, m) = choose|j: int, m: int|
                0 <= j < rs.len() && seed_idx(rs[j], cols) < i && 1 <= m < rs[j].positions@.len() && #[trigger] idx(
                    point_of(rs[j], m),
                    cols,
                ) == i;
            assert(rs2[j] == rs[j]);
            assert(idx(point_of(rs2[j], m), cols) == i);
        }
    }
}

/// The scan's knowledge after the pixel `p`, which seeds nothing.
proof fn lemma_plain_step(
    src: Seq<u8>,
    rows: int,
    cols: int,
    dirs: Seq<Point>,
    rs: Seq<InciseRange>,
    s: Seq<u8>,
    p: int,
    need_source: bool,
)
    requires
        0 <= p < rows * cols,
        scan_state(src, rows, cols, dirs, rs, s, p, need_source),
        !(s[p] == 0 && src[p] == 255),
    ensures
        scan_state(src, rows, cols, dirs, rs, s.update(p, 1), p + 1, need_source),
{
    let n = rows * cols;
    let k = rs.len() as int;
    let s3 = s.update(p, 1);
    assert(s3 =~= scan_marks(rs, k, p + 1, n, cols));
    assert forall|i: int| 0 <= i < p + 1 && #[trigger] src[i] == 255 implies (exists|kk: int|
        0 <= kk < rs.len() && seed_idx(#[trigger] rs[kk], cols) == i) || (exists|j: int, m: int|
        0 <= j < rs.len() && seed_idx(rs[j], cols) < i && 1 <= m < rs[j].positions@.len() && #[trigger] idx(
            point_of(rs[j], m),
            cols,
        ) == i) by {
        if i == p {
            assert(s[p] == 1);
            assert(marked_by(rs, k, p, cols));
            let (j, m) = choose|j: int, m: int|
                0 <= j < k && 1 <= m < rs[j].positions@.len() && #[trigger] idx(point_of(rs[j], m), cols) == p;
            assert(seed_idx(rs[j], cols) < p);
        }
    }
}

/// Cuts `source` into its connected components of white pixels. The pixels are scanned row
/// by row; each white pixel that no earlier component holds seeds a new one, which gathers
/// every white pixel that four-way steps (or, with `through`, eight-way steps) reach through
/// unmarked white pixels. Each component gets the size of its bounding box and, with
/// `need_source`, the bitmap of its pixels.
pub fn incise_connected_area(source: &mut Tu8uc1, need_source: bool, through: bool) -> (r: Vec<InciseRange>)
    requires
        sizes_allocate(old(source).rows as int, old(source).cols as int),
        old(source).fill_value == 0 ==> old(source).rows * old(source).cols <= old(source).buffer@.len(),
        old(source).fill_value == 0 ==> forall|x: int, y: int|
            0 <= x < old(source).cols && 0 <= y < old(source).rows && old(source).buffer@[#[trigger] lin(
                x,
                y,
                old(source).cols as int,
            )] == 255 ==> component_fits(
                old(source).buffer@,
                old(source).rows * old(source).cols,
                old(source).cols as int,
                neighbourhood(through),
                (x, y),
                need_source,
            ),
    ensures
        *final(source) == *old(source),
        old(source).fill_value != 0 ==> r@.len() == 0,
        old(source).fill_value == 0 ==> connected_areas(
            old(source).buffer@,
            old(source).rows as int,
            old(source).cols as int,
            neighbourhood(through),
            r@,
            need_source,
        ),
{
    let ghost src0 = *source;
    let ghost src = source.buffer@;
    let ghost rows = source.rows as int;
    let ghost cols = source.cols as int;
    let ghost n = rows * cols;
    let ghost dirs = neighbourhood(through);
    let mut empty = source.empty();
    let sign = &mut empty;
    let mut ranges: Vec<InciseRange> = Vec::new();
    if source.rows <= 0 || source.cols <= 0 {
        proof {
            assert(n == 0) by (nonlinear_arith)
                requires sizes_allocate(rows, cols), rows <= 0 || cols <= 0, n == rows * cols;
            assert(ranges@ =~= Seq::<InciseRange>::empty());
        }
        return ranges;
    }
    let mut pixel_idx: usize = 0;
    let directions = if through == false {
        vec![
            Direction { x: 0, y: -1 },
            Direction { x: -1, y: 0 },
            Direction { x: 1, y: 0 },
            Direction { x: 0, y: 1 },
        ]
    } else {
        vec![
            Direction { x: -1, y: -1 },
            Direction { x: 0, y: -1 },
            Direction { x: 1, y: -1 },
            Direction { x: -1, y: 0 },
            Direction { x: 1, y: 0 },
            Direction { x: -1, y: 1 },
            Direction { x: 0, y: 1 },
            Direction { x: 1, y: 1 },
        ]
    };
    proof {
        assert(steps(directions@) =~= dirs);
        assert(0 <= n) by (nonlinear_arith)
            requires rows >= 0, cols >= 0, n == rows * cols;
        if src0.fill_value == 0 {
            assert(sign.buffer@ =~= scan_marks(ranges@, 0, 0, n, cols));
        }
    }
    let threshold_color_val: u8 = if source.fill_value == 255 { 0 } else { 255 };
    let mut y: i32 = 0;
    while y < source.rows
        invariant
            *source == src0,
            src == src0.buffer@,
            rows == src0.rows,
            cols == src0.cols,
            n == rows * cols,
            0 <= n,
            src0.fill_value == 0 ==> n <= src.len(),
            n <= usize::MAX,
            0 <= cols,
            dirs == neighbourhood(through),
            steps(directions@) == dirs,
            unit_steps(directions@),
            threshold_color_val == (if src0.fill_value == 255 { 0u8 } else { 255u8 }),
            0 <= y <= rows,
            pixel_idx == y * cols,
            sign.buffer@.len() == n,
            src0.fill_value != 0 ==> ranges@.len() == 0 && forall|i: int| 0 <= i < n ==> #[trigger] sign.buffer@[i] != 0,
            src0.fill_value == 0 ==> scan_state(src, rows, cols, dirs, ranges@, sign.buffer@, pixel_idx as int, need_source),
            src0.fill_value == 0 ==> forall|x: int, y: int|
                0 <= x < cols && 0 <= y < rows && src[#[trigger] lin(x, y, cols)] == 255 ==> component_fits(
                    src,
                    n,
                    cols,
                    dirs,
                    (x, y),
                    need_source,
                ),
        decreases rows - y,
    {
        let mut x: i32 = 0;
        while x < source.cols
            invariant
                *source == src0,
                src == src0.buffer@,
                rows == src0.rows,
                cols == src0.cols,
                n == rows * cols,
                0 <= n,
                src0.fill_value == 0 ==> n <= src.len(),
                n <= usize::MAX,
                dirs == neighbourhood(through),
                steps(directions@) == dirs,
                unit_steps(directions@),
                threshold_color_val == (if src0.fill_value == 255 { 0u8 } else { 255u8 }),
                0 <= y < rows,
                0 <= x <= cols,
                pixel_idx == y * cols + x,
                sign.buffer@.len() == n,
                src0.fill_value != 0 ==> ranges@.len() == 0 && forall|i: int| 0 <= i < n ==> #[trigger] sign.buffer@[i] != 0,
                src0.fill_value == 0 ==> scan_state(src, rows, cols, dirs, ranges@, sign.buffer@, pixel_idx as int, need_source),
                src0.fill_value == 0 ==> forall|x: int, y: int|
                    0 <= x < cols && 0 <= y < rows && src[#[trigger] lin(x, y, cols)] == 255 ==> component_fits(
                        src,
                        n,
                        cols,
                        dirs,
                        (x, y),
                        need_source,
                    ),
            decreases cols - x,
        {
            proof {
                assert(pixel_idx < n) by (nonlinear_arith)
                    requires pixel_idx == y * cols + x, 0 <= x < cols, 0 <= y < rows, n == rows * cols;
            }
            let ghost s = sign.buffer@;
            let ghost rs = ranges@;
            if sign.buffer[pixel_idx] == 0 && source.buffer[pixel_idx] == threshold_color_val {
                proof {
                    assert(src0.fill_value == 0);
                    assert(lin(x as int, y as int, cols) == pixel_idx);
                    assert(component_fits(src, n, cols, dirs, (x as int, y as int), need_source));
                    lemma_walks_safe_marked(src, s, cols, dirs, (x as int, y as int));
                }
                let range = flood_seed(source, sign, &directions, x, y, threshold_color_val, need_source);
                proof {
                    lemma_seed_step(src, rows, cols, dirs, rs, range, s, sign.buffer@, x as int, y as int, need_source);
                }
                ranges.push(range);
            } else {
                proof {
                    if src0.fill_value == 0 {
                        lemma_plain_step(src, rows, cols, dirs, rs, s, pixel_idx as int, need_source);
                    }
                }
            }
            sign.buffer.set(pixel_idx, 1);
            pixel_idx += 1;
            x += 1;
        }
        proof {
            assert(pixel_idx == (y + 1) * cols) by (nonlinear_arith)
                requires pixel_idx == y * cols + x, x == cols;
        }
        y += 1;
    }
    proof {
        if src0.fill_value == 0 {
            assert(scan_state(src, rows, cols, dirs, ranges@, sign.buffer@, n, need_source));
        }
    }
    ranges
}


// ---------------------------------------------------------------------------------------
// Merging ranges that lie close together.
// ---------------------------------------------------------------------------------------

/// Two ranges start at the same seed, which is what `==` on ranges compares.
pub open spec fn same_seed(a: InciseRange, b: InciseRange) -> bool {
    a.x == b.x && a.y == b.y
}

/// An earlier range has the same seed as the `i`-th.
pub open spec fn seen_before(rs: Seq<InciseRange>, i: int) -> bool {
    exists|j: int| 0 <= j < i && same_seed(#[trigger] rs[j], rs[i])
}

/// The boxes of `a` and `b`, each widened by `cols` columns and `rows` rows on every side,
/// overlap or touch.
pub open spec fn touches(a: InciseRange, b: InciseRange, cols: int, rows: int) -> bool {
    !(a.max_x + cols < b.min_x - cols || a.min_x - cols > b.max_x + cols || a.max_y + rows < b.min_y - rows
        || a.min_y - rows > b.max_y + rows)
}

/// Some member of the group `grp` touches the `i`-th range.
pub open spec fn group_touches(rs: Seq<InciseRange>, grp: Seq<usize>, i: int, cols: int, rows: int) -> bool {
    exists|t: int| 0 <= t < grp.len() && touches(rs[i], rs[#[trigger] grp[t] as int], cols, rows)
}

/// The first group from `g` on that touches the `i`-th range.
pub open spec fn first_touching(
    rs: Seq<InciseRange>,
    groups: Seq<Seq<usize>>,
    i: int,
    g: int,
    cols: int,
    rows: int,
) -> Option<int>
    decreases groups.len() - g,
{
    if g >= groups.len() {
        None
    } else if group_touches(rs, groups[g], i, cols, rows) {
        Some(g)
    } else {
        first_touching(rs, groups, i, g + 1, cols, rows)
    }
}

/// The groups after the first `k` ranges: a range whose seed an earlier range already had is
/// skipped; any other joins the first group that it touches, or starts a new one.
pub open spec fn grouping(rs: Seq<InciseRange>, k: int, cols: int, rows: int) -> Seq<Seq<usize>>
    decreases k,
{
    if k <= 0 {
        Seq::empty()
    } else {
        let groups = grouping(rs, k - 1, cols, rows);
        let i = k - 1;
        if seen_before(rs, i) {
            groups
        } else {
            match first_touching(rs, groups, i, 0, cols, rows) {
                Some(g) => groups.update(g, groups[g].push(i as usize)),
                None => groups.push(seq![i as usize]),
            }
        }
    }
}

/// The positions of `r`, moved by (`dx`, `dy`).
pub open spec fn moved(r: InciseRange, dx: int, dy: int) -> Seq<(int, int)> {
    Seq::new(r.positions@.len(), |m: int| (r.positions@[m]@.0 + dx, r.positions@[m]@.1 + dy))
}

/// The positions of the merged range: those of the group's first range twice, then those of
/// each further member, relative to the first range's seed.
pub open spec fn group_points(rs: Seq<InciseRange>, g: Seq<usize>) -> Seq<(int, int)>
    decreases g.len(),
{
    if g.len() <= 1 {
        if g.len() == 0 {
            Seq::empty()
        } else {
            moved(rs[g[0] as int], 0, 0) + moved(rs[g[0] as int], 0, 0)
        }
    } else {
        let f = rs[g[0] as int];
        let r = rs[g.last() as int];
        group_points(rs, g.drop_last()) + moved(r, r.x - f.x, r.y - f.y)
    }
}

/// The smaller of two integers.
pub open spec fn min_int(a: int, b: int) -> int {
    if a <= b { a } else { b }
}

/// The larger of two integers.
pub open spec fn max_int(a: int, b: int) -> int {
    if a >= b { a } else { b }
}

/// The bounding box of the group: the smallest `min_x` and `min_y`, the largest `max_x` and
/// `max_y` of its members.
pub open spec fn group_box(rs: Seq<InciseRange>, g: Seq<usize>) -> (int, int, int, int)
    decreases g.len(),
{
    if g.len() <= 1 {
        let f = rs[g[0] as int];
        (f.min_x as int, f.min_y as int, f.max_x as int, f.max_y as int)
    } else {
        let b = group_box(rs, g.drop_last());
        let r = rs[g.last() as int];
        (min_int(b.0, r.min_x as int), min_int(b.1, r.min_y as int), max_int(b.2, r.max_x as int), max_int(b.3, r.max_y as int))
    }
}

/// `r` is the merge of the group `g`: the first member's seed, the group's bounding box and
/// positions, the size of that box, and the bitmap of the positions with fill value 255.
pub open spec fn merged(r: InciseRange, rs: Seq<InciseRange>, g: Seq<usize>) -> bool {
    let f = rs[g[0] as int];
    let b = group_box(rs, g);
    &&& r.x == f.x
    &&& r.y == f.y
    &&& r.min_x == b.0
    &&& r.min_y == b.1
    &&& r.max_x == b.2
    &&& r.max_y == b.3
    &&& r.positions@.len() == group_points(rs, g).len()
    &&& forall|m: int| 0 <= m < r.positions@.len() ==> (#[trigger] r.positions@[m])@ == group_points(rs, g)[m]
    &&& r.cols == r.max_x - r.min_x + 1
    &&& r.rows == r.max_y - r.min_y + 1
    &&& r.source.buffer@ == bitmap(r)
    &&& r.source.cols == r.cols
    &&& r.source.rows == r.rows
    &&& r.source.fill_value == 255
    &&& r.is_empty_source
}

/// The box from the left edge of the `a`-th range to the right edge of the `b`-th is at most
/// `i32::MAX` wide, and likewise high.
pub open spec fn pair_span_ok(rs: Seq<InciseRange>, a: int, b: int) -> bool {
    0 <= a < rs.len() && 0 <= b < rs.len() ==> rs[b].max_x - rs[a].min_x + 1 <= i32::MAX && rs[b].max_y
        - rs[a].min_y + 1 <= i32::MAX
}

/// The box from the left edge of the `a`-th range to the right edge of the `b`-th, and from
/// the top edge of the `c`-th to the bottom edge of the `d`-th, holds at most `i32::MAX`
/// pixels.
pub open spec fn box_span_ok(rs: Seq<InciseRange>, a: int, b: int, c: int, d: int) -> bool {
    0 <= a < rs.len() && 0 <= b < rs.len() && 0 <= c < rs.len() && 0 <= d < rs.len() && rs[b].max_x
        - rs[a].min_x + 1 >= 1 && rs[d].max_y - rs[c].min_y + 1 >= 1 ==> (rs[b].max_x - rs[a].min_x + 1) * (
    rs[d].max_y - rs[c].min_y + 1) <= i32::MAX
}

/// `pair_span_ok` of the `t1`-th and `t2`-th members of the group `g`.
pub open spec fn group_pair_ok(rs: Seq<InciseRange>, g: Seq<usize>, t1: int, t2: int) -> bool {
    pair_span_ok(rs, g[t1] as int, g[t2] as int)
}

/// `box_span_ok` of four members of the group `g`.
pub open spec fn group_box_ok(rs: Seq<InciseRange>, g: Seq<usize>, t1: int, t2: int, t3: int, t4: int) -> bool {
    box_span_ok(rs, g[t1] as int, g[t2] as int, g[t3] as int, g[t4] as int)
}

/// Every member of the group `g` holds its positions in its box, and any box spanned by the
/// members fits in `i32` arithmetic: its width, its height and its area.
pub open spec fn group_spans(rs: Seq<InciseRange>, g: Seq<usize>) -> bool {
    &&& forall|t: int| 0 <= t < g.len() ==> positions_in_box(rs[#[trigger] g[t] as int])
    &&& forall|t1: int, t2: int|
        0 <= t1 < g.len() && 0 <= t2 < g.len() ==> #[trigger] group_pair_ok(rs, g, t1, t2)
    &&& forall|t1: int, t2: int, t3: int, t4: int|
        0 <= t1 < g.len() && 0 <= t2 < g.len() && 0 <= t3 < g.len() && 0 <= t4 < g.len()
            ==> #[trigger] group_box_ok(rs, g, t1, t2, t3, t4)
}

/// What `merge_incise_ranges` needs of its input: the boxes widened by `cols` and `rows` can
/// be computed, and each group that the ranges fall into satisfies `group_spans`.
pub open spec fn merge_fits(rs: Seq<InciseRange>, cols: int, rows: int) -> bool {
    &&& forall|k: int|
        0 <= k < grouping(rs, rs.len() as int, cols, rows).len() ==> group_spans(
            rs,
            #[trigger] grouping(rs, rs.len() as int, cols, rows)[k],
        )
    &&& forall|a: int|
        0 <= a < rs.len() ==> {
            let r = #[trigger] rs[a];
            &&& i32::MIN <= r.max_x + cols <= i32::MAX
            &&& i32::MIN <= r.min_x - cols <= i32::MAX
            &&& i32::MIN <= r.max_y + rows <= i32::MAX
            &&& i32::MIN <= r.min_y - rows <= i32::MAX
        }
}


/// The views of positions.
pub open spec fn views(ps: Seq<InciseRangePosition>) -> Seq<(int, int)> {
    Seq::new(ps.len(), |m: int| ps[m]@)
}

proof fn lemma_views_push(ps: Seq<InciseRangePosition>, e: InciseRangePosition)
    ensures
        views(ps.push(e)) == views(ps).push(e@),
{
    assert(views(ps.push(e)) =~= views(ps).push(e@));
}

proof fn lemma_take_push<A>(s: Seq<A>, i: int)
    requires
        0 <= i < s.len(),
    ensures
        s.take(i + 1) == s.take(i).push(s[i]),
{
    assert(s.take(i + 1) =~= s.take(i).push(s[i]));
}

/// The box of a merged group fits an `i32` and holds the first member's seed.
proof fn lemma_merge_box(rs: Seq<InciseRange>, g: Seq<usize>)
    requires
        g.len() >= 1,
        forall|t: int| 0 <= t < g.len() ==> (#[trigger] g[t]) < rs.len(),
        group_spans(rs, g),
    ensures
        ({
            let b = group_box(rs, g);
            let f = rs[g[0] as int];
            &&& b.0 <= f.x <= b.2
            &&& b.1 <= f.y <= b.3
            &&& b.2 - b.0 + 1 <= i32::MAX
            &&& b.3 - b.1 + 1 <= i32::MAX
            &&& (b.2 - b.0 + 1) * (b.3 - b.1 + 1) <= i32::MAX
        }),
{
    lemma_group_box(rs, g);
    let b = group_box(rs, g);
    let f = rs[g[0] as int];
    assert(g[0] < rs.len());
    assert(positions_in_box(f));
    assert(b.0 <= f.min_x && f.max_x <= b.2 && b.1 <= f.min_y && f.max_y <= b.3);
    let ta = choose|t: int| 0 <= t < g.len() && b.0 == rs[#[trigger] g[t] as int].min_x;
    let tb = choose|t: int| 0 <= t < g.len() && b.2 == rs[#[trigger] g[t] as int].max_x;
    let tc = choose|t: int| 0 <= t < g.len() && b.1 == rs[#[trigger] g[t] as int].min_y;
    let td = choose|t: int| 0 <= t < g.len() && b.3 == rs[#[trigger] g[t] as int].max_y;
    let (a, bb, c, d) = (g[ta] as int, g[tb] as int, g[tc] as int, g[td] as int);
    assert(group_pair_ok(rs, g, ta, tb));
    assert(group_pair_ok(rs, g, tc, td));
    assert(group_box_ok(rs, g, ta, tb, tc, td));
}

/// The box of a group holds each member's box, and each of its sides is one member's.
#[verifier::spinoff_prover]
proof fn lemma_group_box(rs: Seq<InciseRange>, g: Seq<usize>)
    requires
        g.len() >= 1,
        forall|t: int| 0 <= t < g.len() ==> (#[trigger] g[t]) < rs.len(),
    ensures
        forall|t: int|
            0 <= t < g.len() ==> {
                let r = rs[#[trigger] g[t] as int];
                let b = group_box(rs, g);
                b.0 <= r.min_x && b.1 <= r.min_y && b.2 >= r.max_x && b.3 >= r.max_y
            },
        exists|t: int| 0 <= t < g.len() && group_box(rs, g).0 == rs[#[trigger] g[t] as int].min_x,
        exists|t: int| 0 <= t < g.len() && group_box(rs, g).1 == rs[#[trigger] g[t] as int].min_y,
        exists|t: int| 0 <= t < g.len() && group_box(rs, g).2 == rs[#[trigger] g[t] as int].max_x,
        exists|t: int| 0 <= t < g.len() && group_box(rs, g).3 == rs[#[trigger] g[t] as int].max_y,
    decreases g.len(),
{
    if g.len() == 1 {
        assert(g[0] == g[0]);
    } else {
        let d = g.drop_last();
        lemma_group_box(rs, d);
        assert forall|t: int| 0 <= t < d.len() implies d[t] == g[t] by {}
        let last = g.len() - 1;
        assert(g[last] == g.last());
        let b = group_box(rs, d);
        let lr = rs[g[last] as int];
        let gb = group_box(rs, g);
        assert(gb == (min_int(b.0, lr.min_x as int), min_int(b.1, lr.min_y as int), max_int(b.2, lr.max_x as int),
            max_int(b.3, lr.max_y as int)));
        if gb.0 == lr.min_x {
            assert(0 <= last < g.len() && gb.0 == rs[g[last] as int].min_x);
        } else {
            let t = choose|t: int| 0 <= t < d.len() && b.0 == rs[#[trigger] d[t] as int].min_x;
            assert(g[t] == d[t]);
            assert(0 <= t < g.len() && gb.0 == rs[g[t] as int].min_x);
        }
        if gb.1 == lr.min_y {
            assert(0 <= last < g.len() && gb.1 == rs[g[last] as int].min_y);
        } else {
            let t = choose|t: int| 0 <= t < d.len() && b.1 == rs[#[trigger] d[t] as int].min_y;
            assert(g[t] == d[t]);
            assert(0 <= t < g.len() && gb.1 == rs[g[t] as int].min_y);
        }
        if gb.2 == lr.max_x {
            assert(0 <= last < g.len() && gb.2 == rs[g[last] as int].max_x);
        } else {
            let t = choose|t: int| 0 <= t < d.len() && b.2 == rs[#[trigger] d[t] as int].max_x;
            assert(g[t] == d[t]);
            assert(0 <= t < g.len() && gb.2 == rs[g[t] as int].max_x);
        }
        if gb.3 == lr.max_y {
            assert(0 <= last < g.len() && gb.3 == rs[g[last] as int].max_y);
        } else {
            let t = choose|t: int| 0 <= t < d.len() && b.3 == rs[#[trigger] d[t] as int].max_y;
            assert(g[t] == d[t]);
            assert(0 <= t < g.len() && gb.3 == rs[g[t] as int].max_y);
        }
        assert forall|t: int| 0 <= t < g.len() implies {
            let r = rs[#[trigger] g[t] as int];
            let bb = group_box(rs, g);
            bb.0 <= r.min_x && bb.1 <= r.min_y && bb.2 >= r.max_x && bb.3 >= r.max_y
        } by {
            if t < last {
                assert(g[t] == d[t]);
            }
        }
    }
}

/// Every position of the merged range lies in the group's box.
proof fn lemma_group_points(rs: Seq<InciseRange>, g: Seq<usize>)
    requires
        g.len() >= 1,
        forall|t: int| 0 <= t < g.len() ==> (#[trigger] g[t]) < rs.len(),
        forall|t: int| 0 <= t < g.len() ==> positions_in_box(rs[#[trigger] g[t] as int]),
    ensures
        forall|m: int|
            0 <= m < group_points(rs, g).len() ==> {
                let p = #[trigger] group_points(rs, g)[m];
                let f = rs[g[0] as int];
                let b = group_box(rs, g);
                b.0 <= p.0 + f.x <= b.2 && b.1 <= p.1 + f.y <= b.3
            },
    decreases g.len(),
{
    lemma_group_box(rs, g);
    let f = rs[g[0] as int];
    assert(positions_in_box(f));
    if g.len() == 1 {
        assert forall|m: int| 0 <= m < group_points(rs, g).len() implies {
            let p = #[trigger] group_points(rs, g)[m];
            let b = group_box(rs, g);
            b.0 <= p.0 + f.x <= b.2 && b.1 <= p.1 + f.y <= b.3
        } by {
            let k = if m < f.positions@.len() { m } else { m - f.positions@.len() };
            assert(group_points(rs, g)[m] == moved(f, 0, 0)[k]);
            assert(point_of(f, k) == (f.positions@[k]@.0 + f.x, f.positions@[k]@.1 + f.y));
        }
    } else {
        let d = g.drop_last();
        assert forall|t: int| 0 <= t < d.len() implies d[t] == g[t] by {}
        lemma_group_points(rs, d);
        lemma_group_box(rs, d);
        let r = rs[g.last() as int];
        assert(g.last() == g[g.len() - 1]);
        assert(positions_in_box(r));
        let head = group_points(rs, d);
        let tail = moved(r, r.x - f.x, r.y - f.y);
        assert forall|m: int| 0 <= m < group_points(rs, g).len() implies {
            let p = #[trigger] group_points(rs, g)[m];
            let b = group_box(rs, g);
            b.0 <= p.0 + f.x <= b.2 && b.1 <= p.1 + f.y <= b.3
        } by {
            if m < head.len() {
                assert(group_points(rs, g)[m] == head[m]);
            } else {
                let k = m - head.len();
                assert(group_points(rs, g)[m] == tail[k]);
                assert(point_of(r, k) == (r.positions@[k]@.0 + r.x, r.positions@[k]@.1 + r.y));
            }
        }
    }
}

/// Merges the ranges of `group` into one.
fn merge_group(ranges: &Vec<InciseRange>, group: &Vec<usize>) -> (r: InciseRange)
    requires
        group@.len() >= 1,
        forall|t: int| 0 <= t < group@.len() ==> (#[trigger] group@[t]) < ranges@.len(),
        group_spans(ranges@, group@),
    ensures
        merged(r, ranges@, group@),
{
    let ghost rs = ranges@;
    let ghost g = group@;
    let first = &ranges[group[0]];
    let ghost f = *first;
    proof {
        assert(positions_in_box(f));
    }
    let mut positions: Vec<InciseRangePosition> = Vec::new();
    let mut pi: usize = 0;
    while pi < first.positions.len()
        invariant
            f == *first,
            0 <= pi <= f.positions@.len(),
            views(positions@) == moved(f, 0, 0).take(pi as int),
        decreases f.positions@.len() - pi,
    {
        let ghost before = positions@;
        positions.push(first.positions[pi]);
        proof {
            lemma_views_push(before, f.positions@[pi as int]);
            lemma_take_push(moved(f, 0, 0), pi as int);
        }
        pi += 1;
    }
    let mut pi: usize = 0;
    while pi < first.positions.len()
        invariant
            f == *first,
            0 <= pi <= f.positions@.len(),
            views(positions@) == moved(f, 0, 0) + moved(f, 0, 0).take(pi as int),
        decreases f.positions@.len() - pi,
    {
        let ghost before = positions@;
        let e = InciseRangePosition { x: first.positions[pi].x, y: first.positions[pi].y };
        positions.push(e);
        proof {
            lemma_views_push(before, e);
            lemma_take_push(moved(f, 0, 0), pi as int);
            assert(moved(f, 0, 0) + moved(f, 0, 0).take(pi + 1) =~= (moved(f, 0, 0) + moved(f, 0, 0).take(pi as int)).push(e@));
        }
        pi += 1;
    }
    proof {
        assert(moved(f, 0, 0).take(f.positions@.len() as int) =~= moved(f, 0, 0));
        assert(group_points(rs, g.take(1)) == moved(f, 0, 0) + moved(f, 0, 0)) by {
            assert(g.take(1)[0] == g[0]);
        }
        assert(g.take(1)[0] == g[0]);
    }
    let mut min_x = first.min_x;
    let mut max_x = first.max_x;
    let mut min_y = first.min_y;
    let mut max_y = first.max_y;
    let mut i: usize = 1;
    while i < group.len()
        invariant
            rs == ranges@,
            g == group@,
            f == *first,
            f == rs[g[0] as int],
            g.len() >= 1,
            forall|t: int| 0 <= t < g.len() ==> (#[trigger] g[t]) < rs.len(),
            group_spans(rs, g),
            1 <= i <= g.len(),
            views(positions@) == group_points(rs, g.take(i as int)),
            (min_x as int, min_y as int, max_x as int, max_y as int) == group_box(rs, g.take(i as int)),
        decreases g.len() - i,
    {
        let gr = &ranges[group[i]];
        let ghost r = *gr;
        let ghost gi = g.take(i + 1);
        proof {
            assert(g[i as int] < rs.len());
            assert(gi.drop_last() =~= g.take(i as int));
            assert(gi.last() == g[i as int]);
            assert(gi[0] == g[0]);
            assert(positions_in_box(rs[g[i as int] as int]));
            assert(positions_in_box(rs[g[0] as int]));
        }
        if gr.min_x < min_x {
            min_x = gr.min_x;
        }
        if gr.max_x > max_x {
            max_x = gr.max_x;
        }
        if gr.min_y < min_y {
            min_y = gr.min_y;
        }
        if gr.max_y > max_y {
            max_y = gr.max_y;
        }
        proof {
            assert(group_pair_ok(rs, g, 0, i as int));
            assert(group_pair_ok(rs, g, i as int, 0));
        }
        let ox = gr.x - first.x;
        let oy = gr.y - first.y;
        let ghost before = views(positions@);
        let mut pi: usize = 0;
        while pi < gr.positions.len()
            invariant
                r == *gr,
                f == *first,
                positions_in_box(r),
                positions_in_box(f),
                r.max_x - f.min_x + 1 <= i32::MAX,
                f.max_x - r.min_x + 1 <= i32::MAX,
                r.max_y - f.min_y + 1 <= i32::MAX,
                f.max_y - r.min_y + 1 <= i32::MAX,
                ox == r.x - f.x,
                oy == r.y - f.y,
                0 <= pi <= r.positions@.len(),
                views(positions@) == before + moved(r, ox as int, oy as int).take(pi as int),
            decreases r.positions@.len() - pi,
        {
            let p = gr.positions[pi];
            proof {
                assert(point_of(r, pi as int) == (r.positions@[pi as int]@.0 + r.x, r.positions@[pi as int]@.1 + r.y));
                assert(p@ == r.positions@[pi as int]@);
            }
            let ghost ps0 = positions@;
            let e = InciseRangePosition { x: p.x + ox, y: p.y + oy };
            positions.push(e);
            proof {
                lemma_views_push(ps0, e);
                lemma_take_push(moved(r, ox as int, oy as int), pi as int);
                assert(before + moved(r, ox as int, oy as int).take(pi + 1) =~= (before + moved(r, ox as int, oy as int).take(pi as int)).push(e@));
            }
            pi += 1;
        }
        proof {
            assert(moved(r, ox as int, oy as int).take(r.positions@.len() as int) =~= moved(r, ox as int, oy as int));
        }
        i += 1;
    }
    proof {
        assert(g.take(g.len() as int) =~= g);
        lemma_group_box(rs, g);
        lemma_group_points(rs, g);
    }
    let mut r = InciseRange {
        x: first.x,
        y: first.y,
        cols: 0,
        rows: 0,
        min_x,
        min_y,
        max_x,
        max_y,
        positions,
        source: Tu8uc1 { buffer: Vec::new(), cols: 0, rows: 0, fill_value: 255 },
        is_empty_source: true,
    };
    proof {
        lemma_merge_box(rs, g);
        assert forall|m: int| 0 <= m < r.positions@.len() implies r.min_x <= (#[trigger] point_of(r, m)).0 <= r.max_x
            && r.min_y <= point_of(r, m).1 <= r.max_y by {
            assert(r.positions@[m]@ == views(r.positions@)[m]);
        }
    }
    let ghost r_pre = r;
    finish_range(&mut r, true);
    let ghost r_fin = r;
    r.source.fill_value = 255;
    r.is_empty_source = true;
    proof {
        assert forall|m: int| 0 <= m < r.positions@.len() implies bitmap_offset(r, m) == bitmap_offset(r_pre, m) by {}
        assert(bitmap(r) =~= bitmap(r_pre));
        assert(r.source.buffer@ == r_fin.source.buffer@);
        assert forall|m: int| 0 <= m < r.positions@.len() implies (#[trigger] r.positions@[m])@ == group_points(rs, g)[m] by {
            assert(r.positions@[m]@ == views(r.positions@)[m]);
        }
    }
    r
}


/// The views of the groups.
pub open spec fn group_views(gs: Seq<Vec<usize>>) -> Seq<Seq<usize>> {
    Seq::new(gs.len(), |k: int| gs[k]@)
}

/// Some listed range has the same seed as the `j`-th.
pub open spec fn seed_listed(rs: Seq<InciseRange>, listed: Seq<usize>, j: int) -> bool {
    exists|t: int| 0 <= t < listed.len() && same_seed(rs[#[trigger] listed[t] as int], rs[j])
}

/// A copy of `v` with `i` appended.
fn pushed(v: &Vec<usize>, i: usize) -> (r: Vec<usize>)
    ensures
        r@ == v@.push(i),
{
    let mut r: Vec<usize> = Vec::new();
    let mut t: usize = 0;
    while t < v.len()
        invariant
            0 <= t <= v@.len(),
            r@ == v@.take(t as int),
        decreases v@.len() - t,
    {
        r.push(v[t]);
        proof {
            lemma_take_push(v@, t as int);
        }
        t += 1;
    }
    assert(v@.take(v@.len() as int) =~= v@);
    r.push(i);
    r
}

/// Whether `a`'s box, widened by `cols` and `rows`, meets `b`'s.
fn touches_exec(a: &InciseRange, b: &InciseRange, cols: i32, rows: i32) -> (r: bool)
    requires
        i32::MIN <= a.max_x + cols <= i32::MAX,
        i32::MIN <= a.min_x - cols <= i32::MAX,
        i32::MIN <= a.max_y + rows <= i32::MAX,
        i32::MIN <= a.min_y - rows <= i32::MAX,
        i32::MIN <= b.max_x + cols <= i32::MAX,
        i32::MIN <= b.min_x - cols <= i32::MAX,
        i32::MIN <= b.max_y + rows <= i32::MAX,
        i32::MIN <= b.min_y - rows <= i32::MAX,
    ensures
        r == touches(*a, *b, cols as int, rows as int),
{
    let non_intersect = a.max_x + cols < b.min_x - cols || a.min_x - cols > b.max_x + cols || a.max_y + rows
        < b.min_y - rows || a.min_y - rows > b.max_y + rows;
    !non_intersect
}

/// Whether some member of `grp` touches the `i`-th range.
fn group_touches_exec(ranges: &Vec<InciseRange>, grp: &Vec<usize>, i: usize, cols: i32, rows: i32) -> (r: bool)
    requires
        i < ranges@.len(),
        forall|t: int| 0 <= t < grp@.len() ==> (#[trigger] grp@[t]) < ranges@.len(),
        merge_fits(ranges@, cols as int, rows as int),
    ensures
        r == group_touches(ranges@, grp@, i as int, cols as int, rows as int),
{
    let mut t: usize = 0;
    while t < grp.len()
        invariant
            i < ranges@.len(),
            forall|u: int| 0 <= u < grp@.len() ==> (#[trigger] grp@[u]) < ranges@.len(),
            merge_fits(ranges@, cols as int, rows as int),
            0 <= t <= grp@.len(),
            forall|u: int| 0 <= u < t ==> !touches(ranges@[i as int], ranges@[#[trigger] grp@[u] as int], cols as int, rows as int),
        decreases grp@.len() - t,
    {
        let other = &ranges[grp[t]];
        proof {
            assert(grp@[t as int] < ranges@.len());
        }
        if touches_exec(&ranges[i], other, cols, rows) {
            return true;
        }
        t += 1;
    }
    false
}

/// Merges the ranges that lie within `cols` columns and `rows` rows of each other. A range
/// whose seed an earlier range already had is left out; each other range joins the first
/// group with a member whose box, widened by `cols` and `rows` on every side, meets its own
/// widened box, or starts a new group. Each group becomes one range: the seed of its first
/// member, the bounding box of all members, their positions relative to that seed (those of
/// the first member twice), and the bitmap of those positions.
pub fn merge_incise_ranges(ranges: &Vec<InciseRange>, cols: i32, rows: i32) -> (r: Vec<InciseRange>)
    requires
        merge_fits(ranges@, cols as int, rows as int),
    ensures
        r@.len() == grouping(ranges@, ranges@.len() as int, cols as int, rows as int).len(),
        forall|k: int|
            0 <= k < r@.len() ==> merged(
                #[trigger] r@[k],
                ranges@,
                grouping(ranges@, ranges@.len() as int, cols as int, rows as int)[k],
            ),
{
    let ghost rs = ranges@;
    if ranges.len() == 0 {
        return Vec::new();
    }
    let mut range_groups: Vec<Vec<usize>> = Vec::new();
    let mut grouped: Vec<usize> = Vec::new();
    let mut i: usize = 0;
    proof {
        assert(group_views(range_groups@) =~= grouping(rs, 0, cols as int, rows as int));
    }
    while i < ranges.len()
        invariant
            rs == ranges@,
            merge_fits(rs, cols as int, rows as int),
            0 <= i <= rs.len(),
            group_views(range_groups@) == grouping(rs, i as int, cols as int, rows as int),
            forall|g: int|
                0 <= g < range_groups@.len() ==> (#[trigger] range_groups@[g])@.len() >= 1 && forall|t: int|
                    0 <= t < range_groups@[g]@.len() ==> (#[trigger] range_groups@[g]@[t]) < i,
            forall|t: int| 0 <= t < grouped@.len() ==> (#[trigger] grouped@[t]) < i,
            forall|j: int| 0 <= j < i ==> #[trigger] seed_listed(rs, grouped@, j),
        decreases rs.len() - i,
    {
        let ghost groups = grouping(rs, i as int, cols as int, rows as int);
        let ghost old_grouped = grouped@;
        let mut found = false;
        let mut j: usize = 0;
        while j < grouped.len()
            invariant
                rs == ranges@,
                0 <= i < rs.len(),
                forall|t: int| 0 <= t < grouped@.len() ==> (#[trigger] grouped@[t]) < i,
                0 <= j <= grouped@.len(),
                found == exists|t: int| 0 <= t < j && same_seed(rs[#[trigger] grouped@[t] as int], rs[i as int]),
            decreases grouped@.len() - j,
        {
            proof {
                assert(grouped@[j as int] < i);
            }
            if ranges[grouped[j]] == ranges[i] {
                found = true;
            }
            j += 1;
        }
        proof {
            if seen_before(rs, i as int) {
                let jj = choose|jj: int| 0 <= jj < i && same_seed(#[trigger] rs[jj], rs[i as int]);
                assert(seed_listed(rs, grouped@, jj));
                let t = choose|t: int| 0 <= t < grouped@.len() && same_seed(rs[#[trigger] grouped@[t] as int], rs[jj]);
                assert(same_seed(rs[grouped@[t] as int], rs[i as int]));
            }
            if found {
                let t = choose|t: int| 0 <= t < j && same_seed(rs[#[trigger] grouped@[t] as int], rs[i as int]);
                assert(grouped@[t] < i);
                assert(same_seed(rs[grouped@[t] as int], rs[i as int]));
            }
            assert(found == seen_before(rs, i as int));
        }
        if !found {
            grouped.push(i);
            let mut pass_idx: Option<usize> = None;
            let mut g: usize = 0;
            while g < range_groups.len()
                invariant_except_break
                    pass_idx.is_none(),
                    first_touching(rs, groups, i as int, g as int, cols as int, rows as int) == first_touching(
                        rs,
                        groups,
                        i as int,
                        0,
                        cols as int,
                        rows as int,
                    ),
                invariant
                    rs == ranges@,
                    merge_fits(rs, cols as int, rows as int),
                    0 <= i < rs.len(),
                    groups == group_views(range_groups@),
                    forall|gg: int|
                        0 <= gg < range_groups@.len() ==> (#[trigger] range_groups@[gg])@.len() >= 1 && forall|t: int|
                            0 <= t < range_groups@[gg]@.len() ==> (#[trigger] range_groups@[gg]@[t]) < i,
                    0 <= g <= range_groups@.len(),
                ensures
                    pass_idx matches Some(idx) ==> idx < range_groups@.len() && Some(idx as int) == first_touching(
                        rs,
                        groups,
                        i as int,
                        0,
                        cols as int,
                        rows as int,
                    ),
                    pass_idx.is_none() ==> first_touching(rs, groups, i as int, 0, cols as int, rows as int).is_none(),
                decreases range_groups@.len() - g,
            {
                proof {
                    assert(groups[g as int] == range_groups@[g as int]@);
                    assert forall|t: int| 0 <= t < range_groups@[g as int]@.len() implies (#[trigger] range_groups@[g as int]@[t]) < rs.len() by {
                        assert(range_groups@[g as int]@[t] < i);
                    }
                }
                if group_touches_exec(ranges, &range_groups[g], i, cols, rows) {
                    pass_idx = Some(g);
                    break;
                }
                g += 1;
            }
            match pass_idx {
                Some(idx) => {
                    let grp = pushed(&range_groups[idx], i);
                    range_groups.set(idx, grp);
                    proof {
                        assert(group_views(range_groups@) =~= groups.update(idx as int, groups[idx as int].push(i)));
                    }
                },
                None => {
                    let ghost before = range_groups@;
                    let single = vec![i];
                    assert(single@ == seq![i]);
                    range_groups.push(single);
                    proof {
                        assert(range_groups@ == before.push(single));
                        assert(group_views(range_groups@) =~= groups.push(seq![i]));
                    }
                },
            }
        }
        proof {
            assert forall|jj: int| 0 <= jj < i + 1 implies #[trigger] seed_listed(rs, grouped@, jj) by {
                if jj < i {
                    assert(seed_listed(rs, old_grouped, jj));
                    let t = choose|t: int| 0 <= t < old_grouped.len() && same_seed(rs[#[trigger] old_grouped[t] as int], rs[jj]);
                    assert(grouped@[t] == old_grouped[t]);
                } else {
                    if found {
                        let t = choose|t: int| 0 <= t < j && same_seed(rs[#[trigger] grouped@[t] as int], rs[i as int]);
                        assert(same_seed(rs[grouped@[t] as int], rs[jj]));
                    } else {
                        assert(grouped@[grouped@.len() - 1] == i);
                        assert(same_seed(rs[grouped@[grouped@.len() - 1] as int], rs[jj]));
                    }
                }
            }
        }
        i += 1;
    }
    let ghost groups = grouping(rs, rs.len() as int, cols as int, rows as int);
    let mut list: Vec<InciseRange> = Vec::new();
    let mut g: usize = 0;
    while g < range_groups.len()
        invariant
            rs == ranges@,
            merge_fits(rs, cols as int, rows as int),
            groups == grouping(rs, rs.len() as int, cols as int, rows as int),
            groups == group_views(range_groups@),
            forall|gg: int|
                0 <= gg < range_groups@.len() ==> (#[trigger] range_groups@[gg])@.len() >= 1 && forall|t: int|
                    0 <= t < range_groups@[gg]@.len() ==> (#[trigger] range_groups@[gg]@[t]) < rs.len(),
            0 <= g <= range_groups@.len(),
            list@.len() == g,
            forall|k: int| 0 <= k < g ==> merged(#[trigger] list@[k], rs, groups[k]),
        decreases range_groups@.len() - g,
    {
        proof {
            assert(groups[g as int] == range_groups@[g as int]@);
            assert(groups.len() == range_groups@.len());
            assert(group_spans(rs, groups[g as int]));
        }
        let m = merge_group(ranges, &range_groups[g]);
        list.push(m);
        g += 1;
    }
    list
}


/// The range `r` holds the pixel `i`: it is the range's seed or one of its recorded pixels.
pub open spec fn holds_pixel(r: InciseRange, i: int, cols: int) -> bool {
    seed_idx(r, cols) == i || exists|m: int| 1 <= m < r.positions@.len() && #[trigger] idx(point_of(r, m), cols) == i
}

/// A pixel that an earlier component holds is marked when the scan reaches a later seed.
proof fn lemma_held_is_marked(
    src: Seq<u8>,
    rows: int,
    cols: int,
    dirs: Seq<Point>,
    rs: Seq<InciseRange>,
    need_source: bool,
    j: int,
    k: int,
    i: int,
)
    requires
        connected_areas(src, rows, cols, dirs, rs, need_source),
        0 <= j < k < rs.len(),
        0 <= i < rows * cols,
        holds_pixel(rs[j], i, cols),
    ensures
        scan_marks(rs, k, seed_idx(rs[k], cols), rows * cols, cols)[i] == 1,
{
    assert(seed_idx(rs[j], cols) < seed_idx(rs[k], cols));
    if seed_idx(rs[j], cols) != i {
        let m = choose|m: int| 1 <= m < rs[j].positions@.len() && #[trigger] idx(point_of(rs[j], m), cols) == i;
        assert(marked_by(rs, k, i, cols));
    }
}

/// A component holds only pixels that were unmarked when the scan reached its seed.
proof fn lemma_held_was_unmarked(
    src: Seq<u8>,
    rows: int,
    cols: int,
    dirs: Seq<Point>,
    rs: Seq<InciseRange>,
    need_source: bool,
    k: int,
    i: int,
)
    requires
        connected_areas(src, rows, cols, dirs, rs, need_source),
        0 <= k < rs.len(),
        holds_pixel(rs[k], i, cols),
    ensures
        0 <= i < rows * cols,
        scan_marks(rs, k, seed_idx(rs[k], cols), rows * cols, cols)[i] == 0,
{
    assert(component_ok(src, rows, cols, dirs, rs, k, need_source));
    let r = rs[k];
    if seed_idx(r, cols) == i {
        assert(0 <= r.y * cols <= (rows - 1) * cols) by (nonlinear_arith)
            requires 0 <= r.y < rows, cols >= 0;
        assert((rows - 1) * cols + cols == rows * cols) by (nonlinear_arith);
    } else {
        let m = choose|m: int| 1 <= m < r.positions@.len() && #[trigger] idx(point_of(r, m), cols) == i;
        let np = new_points(r);
        assert(np[m - 1] == point_of(r, m));
        let before = scan_marks(rs, k, seed_idx(r, cols), rows * cols, cols);
        let after = scan_marks(rs, k + 1, seed_idx(r, cols), rows * cols, cols);
        assert(marks_match(before, after, cols, np));
        assert(0 <= idx(np[m - 1], cols) < before.len());
    }
}

/// The components partition the white pixels: each white pixel of the image is held by
/// exactly one of the ranges of `incise_connected_area`.
pub proof fn law_components_partition(
    src: Seq<u8>,
    rows: int,
    cols: int,
    dirs: Seq<Point>,
    rs: Seq<InciseRange>,
    need_source: bool,
    i: int,
)
    requires
        connected_areas(src, rows, cols, dirs, rs, need_source),
        0 <= i < rows * cols,
        src[i] == 255,
    ensures
        exists|k: int| 0 <= k < rs.len() && holds_pixel(#[trigger] rs[k], i, cols),
        forall|j: int, k: int|
            0 <= j < rs.len() && 0 <= k < rs.len() && holds_pixel(#[trigger] rs[j], i, cols) && holds_pixel(
                #[trigger] rs[k],
                i,
                cols,
            ) ==> j == k,
{
    assert(covered_upto(src, cols, rs, rows * cols));
    if exists|k: int| 0 <= k < rs.len() && seed_idx(#[trigger] rs[k], cols) == i {
        let k = choose|k: int| 0 <= k < rs.len() && seed_idx(#[trigger] rs[k], cols) == i;
        assert(holds_pixel(rs[k], i, cols));
    } else {
        let (j, m) = choose|j: int, m: int|
            0 <= j < rs.len() && seed_idx(rs[j], cols) < i && 1 <= m < rs[j].positions@.len() && #[trigger] idx(
                point_of(rs[j], m),
                cols,
            ) == i;
        assert(holds_pixel(rs[j], i, cols));
    }
    assert forall|j: int, k: int|
        0 <= j < rs.len() && 0 <= k < rs.len() && holds_pixel(#[trigger] rs[j], i, cols) && holds_pixel(
            #[trigger] rs[k],
            i,
            cols,
        ) implies j == k by {
        if j < k {
            lemma_held_is_marked(src, rows, cols, dirs, rs, need_source, j, k, i);
            lemma_held_was_unmarked(src, rows, cols, dirs, rs, need_source, k, i);
        } else if k < j {
            lemma_held_is_marked(src, rows, cols, dirs, rs, need_source, k, j, i);
            lemma_held_was_unmarked(src, rows, cols, dirs, rs, need_source, j, i);
        }
    }
}


/// The facts that hold of the groups after the first `k` ranges.
pub open spec fn grouping_facts(rs: Seq<InciseRange>, groups: Seq<Seq<usize>>, k: int) -> bool {
    &&& forall|g: int| 0 <= g < groups.len() ==> (#[trigger] groups[g]).len() >= 1
    &&& forall|g: int, t: int|
        0 <= g < groups.len() && 0 <= t < groups[g].len() ==> (#[trigger] groups[g][t]) < k && !seen_before(
            rs,
            groups[g][t] as int,
        )
    &&& forall|g1: int, t1: int, g2: int, t2: int|
        0 <= g1 < groups.len() && 0 <= t1 < groups[g1].len() && 0 <= g2 < groups.len() && 0 <= t2
            < groups[g2].len() && #[trigger] groups[g1][t1] == #[trigger] groups[g2][t2] ==> g1 == g2 && t1 == t2
    &&& forall|i: int|
        0 <= i < k && !#[trigger] seen_before(rs, i) ==> exists|g: int, t: int|
            0 <= g < groups.len() && 0 <= t < groups[g].len() && #[trigger] groups[g][t] == i
}

proof fn lemma_grouping_facts(rs: Seq<InciseRange>, k: int, cols: int, rows: int)
    requires
        0 <= k <= rs.len(),
        rs.len() <= usize::MAX,
    ensures
        grouping_facts(rs, grouping(rs, k, cols, rows), k),
    decreases k,
{
    if k > 0 {
        lemma_grouping_facts(rs, k - 1, cols, rows);
        let groups = grouping(rs, k - 1, cols, rows);
        let i = k - 1;
        let ng = grouping(rs, k, cols, rows);
        if !seen_before(rs, i) {
            match first_touching(rs, groups, i, 0, cols, rows) {
                Some(g0) => {
                    lemma_first_touching_range(rs, groups, i, 0, cols, rows);
                    assert(ng == groups.update(g0, groups[g0].push(i as usize)));
                    assert forall|g: int, t: int| 0 <= g < ng.len() && 0 <= t < ng[g].len() implies (#[trigger] ng[g][t]) < k
                        && !seen_before(rs, ng[g][t] as int) by {
                        if g == g0 && t == groups[g0].len() {
                        } else {
                            assert(ng[g][t] == groups[g][t]);
                        }
                    }
                    assert forall|g1: int, t1: int, g2: int, t2: int|
                        0 <= g1 < ng.len() && 0 <= t1 < ng[g1].len() && 0 <= g2 < ng.len() && 0 <= t2 < ng[g2].len()
                            && #[trigger] ng[g1][t1] == #[trigger] ng[g2][t2] implies g1 == g2 && t1 == t2 by {
                        let new1 = g1 == g0 && t1 == groups[g0].len();
                        let new2 = g2 == g0 && t2 == groups[g0].len();
                        if !new1 {
                            assert(ng[g1][t1] == groups[g1][t1]);
                        }
                        if !new2 {
                            assert(ng[g2][t2] == groups[g2][t2]);
                        }
                    }
                    assert forall|j: int| 0 <= j < k && !#[trigger] seen_before(rs, j) implies exists|g: int, t: int|
                        0 <= g < ng.len() && 0 <= t < ng[g].len() && #[trigger] ng[g][t] == j by {
                        if j == i {
                            assert(ng[g0][groups[g0].len() as int] == j);
                        } else {
                            let (g, t) = choose|g: int, t: int|
                                0 <= g < groups.len() && 0 <= t < groups[g].len() && #[trigger] groups[g][t] == j;
                            assert(ng[g][t] == groups[g][t]);
                        }
                    }
                },
                None => {
                    assert(ng == groups.push(seq![i as usize]));
                    assert forall|g: int, t: int| 0 <= g < ng.len() && 0 <= t < ng[g].len() implies (#[trigger] ng[g][t]) < k
                        && !seen_before(rs, ng[g][t] as int) by {
                        if g < groups.len() {
                            assert(ng[g] == groups[g]);
                        }
                    }
                    assert forall|g1: int, t1: int, g2: int, t2: int|
                        0 <= g1 < ng.len() && 0 <= t1 < ng[g1].len() && 0 <= g2 < ng.len() && 0 <= t2 < ng[g2].len()
                            && #[trigger] ng[g1][t1] == #[trigger] ng[g2][t2] implies g1 == g2 && t1 == t2 by {
                        if g1 < groups.len() {
                            assert(ng[g1] == groups[g1]);
                        }
                        if g2 < groups.len() {
                            assert(ng[g2] == groups[g2]);
                        }
                    }
                    assert forall|j: int| 0 <= j < k && !#[trigger] seen_before(rs, j) implies exists|g: int, t: int|
                        0 <= g < ng.len() && 0 <= t < ng[g].len() && #[trigger] ng[g][t] == j by {
                        if j == i {
                            assert(ng[groups.len() as int][0] == j);
                        } else {
                            let (g, t) = choose|g: int, t: int|
                                0 <= g < groups.len() && 0 <= t < groups[g].len() && #[trigger] groups[g][t] == j;
                            assert(ng[g] == groups[g]);
                        }
                    }
                    assert forall|g: int| 0 <= g < ng.len() implies (#[trigger] ng[g]).len() >= 1 by {
                        if g < groups.len() {
                            assert(ng[g] == groups[g]);
                        }
                    }
                },
            }
        }
    }
}

proof fn lemma_first_touching_range(
    rs: Seq<InciseRange>,
    groups: Seq<Seq<usize>>,
    i: int,
    g: int,
    cols: int,
    rows: int,
)
    requires
        0 <= g,
    ensures
        first_touching(rs, groups, i, g, cols, rows) matches Some(h) ==> g <= h < groups.len(),
    decreases groups.len() - g,
{
    if g < groups.len() && !group_touches(rs, groups[g], i, cols, rows) {
        lemma_first_touching_range(rs, groups, i, g + 1, cols, rows);
    }
}

/// Merging partitions the ranges that no earlier range duplicates: each of them lies in
/// exactly one group, exactly once, and no duplicate lies in any group.
pub proof fn law_grouping_partition(rs: Seq<InciseRange>, cols: int, rows: int, i: int)
    requires
        0 <= i < rs.len(),
        rs.len() <= usize::MAX,
    ensures
        ({
            let groups = grouping(rs, rs.len() as int, cols, rows);
            &&& !seen_before(rs, i) ==> exists|g: int, t: int|
                0 <= g < groups.len() && 0 <= t < groups[g].len() && #[trigger] groups[g][t] == i
            &&& seen_before(rs, i) ==> forall|g: int, t: int|
                0 <= g < groups.len() && 0 <= t < groups[g].len() ==> #[trigger] groups[g][t] != i
            &&& forall|g1: int, t1: int, g2: int, t2: int|
                0 <= g1 < groups.len() && 0 <= t1 < groups[g1].len() && 0 <= g2 < groups.len() && 0 <= t2
                    < groups[g2].len() && #[trigger] groups[g1][t1] == i && #[trigger] groups[g2][t2] == i ==> g1 == g2
                    && t1 == t2
        }),
{
    lemma_grouping_facts(rs, rs.len() as int, cols, rows);
    assert(!seen_before(rs, i) ==> #[trigger] seen_before(rs, i) == false);
}

proof fn lemma_first_touching_touches(
    rs: Seq<InciseRange>,
    groups: Seq<Seq<usize>>,
    i: int,
    g: int,
    cols: int,
    rows: int,
)
    requires
        0 <= g,
    ensures
        first_touching(rs, groups, i, g, cols, rows) matches Some(h) ==> 0 <= h < groups.len()
            && group_touches(rs, groups[h], i, cols, rows),
    decreases groups.len() - g,
{
    if g < groups.len() && !group_touches(rs, groups[g], i, cols, rows) {
        lemma_first_touching_touches(rs, groups, i, g + 1, cols, rows);
    }
}

/// Whether the boxes of `a` and `b`, each widened by `cols` columns and `rows` rows on every
/// side, meet: they overlap both across and down.
pub open spec fn widened_boxes_meet(a: InciseRange, b: InciseRange, cols: int, rows: int) -> bool {
    &&& a.min_x - cols <= b.max_x + cols
    &&& b.min_x - cols <= a.max_x + cols
    &&& a.min_y - rows <= b.max_y + rows
    &&& b.min_y - rows <= a.max_y + rows
}

/// The `t`-th member of the group `grp` meets an earlier member of it.
pub open spec fn meets_earlier(rs: Seq<InciseRange>, grp: Seq<usize>, t: int, cols: int, rows: int) -> bool {
    exists|u: int| 0 <= u < t && #[trigger] widened_boxes_meet(rs[grp[u] as int], rs[grp[t] as int], cols, rows)
}

/// Every member of a group but the first meets an earlier member of it.
pub open spec fn members_meet(rs: Seq<InciseRange>, groups: Seq<Seq<usize>>, cols: int, rows: int) -> bool {
    forall|g: int, t: int|
        0 <= g < groups.len() && 1 <= t < groups[g].len() ==> #[trigger] meets_earlier(rs, groups[g], t, cols, rows)
}

proof fn lemma_grouping_members_meet(rs: Seq<InciseRange>, k: int, cols: int, rows: int)
    requires
        0 <= k <= rs.len(),
        rs.len() <= usize::MAX,
    ensures
        members_meet(rs, grouping(rs, k, cols, rows), cols, rows),
    decreases k,
{
    if k > 0 {
        lemma_grouping_members_meet(rs, k - 1, cols, rows);
        let groups = grouping(rs, k - 1, cols, rows);
        let i = k - 1;
        let now = grouping(rs, k, cols, rows);
        if !seen_before(rs, i) {
            lemma_first_touching_touches(rs, groups, i, 0, cols, rows);
            match first_touching(rs, groups, i, 0, cols, rows) {
                Some(h) => {
                    assert(now == groups.update(h, groups[h].push(i as usize)));
                    let tt = choose|tt: int|
                        0 <= tt < groups[h].len() && touches(rs[i], rs[#[trigger] groups[h][tt] as int], cols, rows);
                    assert forall|g: int, t: int| 0 <= g < now.len() && 1 <= t < now[g].len() implies #[trigger] meets_earlier(
                        rs,
                        now[g],
                        t,
                        cols,
                        rows,
                    ) by {
                        if g == h && t == groups[h].len() {
                            assert(now[g] == groups[h].push(i as usize));
                            assert(now[g][tt] == groups[h][tt]);
                            assert(now[g][t] == i as usize);
                            assert(widened_boxes_meet(rs[now[g][tt] as int], rs[now[g][t] as int], cols, rows));
                        } else if g == h {
                            assert(now[g] == groups[h].push(i as usize));
                            assert(meets_earlier(rs, groups[g], t, cols, rows));
                            let u = choose|u: int|
                                0 <= u < t && #[trigger] widened_boxes_meet(
                                    rs[groups[g][u] as int],
                                    rs[groups[g][t] as int],
                                    cols,
                                    rows,
                                );
                            assert(now[g][u] == groups[g][u]);
                            assert(now[g][t] == groups[g][t]);
                        } else {
                            assert(now[g] == groups[g]);
                            assert(meets_earlier(rs, groups[g], t, cols, rows));
                        }
                    }
                },
                None => {
                    assert(now == groups.push(seq![i as usize]));
                    assert forall|g: int, t: int| 0 <= g < now.len() && 1 <= t < now[g].len() implies #[trigger] meets_earlier(
                        rs,
                        now[g],
                        t,
                        cols,
                        rows,
                    ) by {
                        assert(g < groups.len());
                        assert(now[g] == groups[g]);
                        assert(meets_earlier(rs, groups[g], t, cols, rows));
                    }
                },
            }
        } else {
            assert(now == groups);
        }
    }
}

/// Merging joins a range to a group only through its box: every member of a group but the
/// first has a box that, widened by `cols` and `rows`, meets the widened box of an earlier
/// member. Ranges whose widened boxes are apart across or down are never joined directly.
pub proof fn law_group_members_meet(rs: Seq<InciseRange>, cols: int, rows: int, g: int, t: int)
    requires
        rs.len() <= usize::MAX,
        0 <= g < grouping(rs, rs.len() as int, cols, rows).len(),
        1 <= t < grouping(rs, rs.len() as int, cols, rows)[g].len(),
    ensures
        exists|u: int|
            0 <= u < t && #[trigger] widened_boxes_meet(
                rs[grouping(rs, rs.len() as int, cols, rows)[g][u] as int],
                rs[grouping(rs, rs.len() as int, cols, rows)[g][t] as int],
                cols,
                rows,
            ),
{
    lemma_grouping_members_meet(rs, rs.len() as int, cols, rows);
    let groups = grouping(rs, rs.len() as int, cols, rows);
    assert(meets_earlier(rs, groups[g], t, cols, rows));
    assert(grouping(rs, rs.len() as int, cols, rows)[g][t] == grouping(rs, rs.len() as int, cols, rows)[g][t]);
}

/// The step from `p` to `q` is one of the neighbourhood's steps: with `through`, any of the
/// eight around a pixel, otherwise one of the four beside it.
proof fn lemma_step_in_neighbourhood(through: bool, dx: int, dy: int) -> (t: int)
    requires
        -1 <= dx <= 1,
        -1 <= dy <= 1,
        dx != 0 || dy != 0,
        !through ==> dx == 0 || dy == 0,
    ensures
        0 <= t < neighbourhood(through).len(),
        neighbourhood(through)[t] == (dx, dy),
{
    let n = neighbourhood(through);
    if !through {
        if dx == 0 && dy == -1 { 0 } else if dx == -1 { 1 } else if dx == 1 { 2 } else { 3 }
    } else {
        if dy == -1 {
            dx + 1
        } else if dy == 0 {
            if dx == -1 { 3 } else { 4 }
        } else {
            dx + 6
        }
    }
}

/// A range holds the pixel `i` at a point after whose fill no white neighbour of that point is
/// left unmarked.
proof fn lemma_held_closed(
    src: Seq<u8>,
    rows: int,
    cols: int,
    dirs: Seq<Point>,
    rs: Seq<InciseRange>,
    need_source: bool,
    k: int,
    i: int,
    t: int,
)
    requires
        connected_areas(src, rows, cols, dirs, rs, need_source),
        0 <= k < rs.len(),
        holds_pixel(rs[k], i, cols),
        0 <= t < dirs.len(),
        0 <= i + dirs[t].1 * cols + dirs[t].0 < rows * cols,
    ensures
        scan_marks(rs, k + 1, seed_idx(rs[k], cols), rows * cols, cols)[i + dirs[t].1 * cols + dirs[t].0] != 0
            || src[i + dirs[t].1 * cols + dirs[t].0] != 255,
{
    assert(component_ok(src, rows, cols, dirs, rs, k, need_source));
    let r = rs[k];
    let after = scan_marks(rs, k + 1, seed_idx(r, cols), rows * cols, cols);
    let c: Point = if seed_idx(r, cols) == i {
        (r.x as int, r.y as int)
    } else {
        let m = choose|m: int| 1 <= m < r.positions@.len() && #[trigger] idx(point_of(r, m), cols) == i;
        assert(new_points(r)[m - 1] == point_of(r, m));
        point_of(r, m)
    };
    assert(closed_at(src, after, cols, dirs, c));
    assert(idx(c, cols) == i);
    let q = shift(c, dirs[t]);
    assert(idx(q, cols) == i + dirs[t].1 * cols + dirs[t].0) by (nonlinear_arith)
        requires
            q == (c.0 + dirs[t].0, c.1 + dirs[t].1),
            idx(q, cols) == q.1 * cols + q.0,
            idx(c, cols) == c.1 * cols + c.0,
            idx(c, cols) == i;
}

/// The range that holds the pixel at `j`, a white neighbour of a pixel `i` that the `kp`-th
/// range holds, comes no later than the `kp`-th.
proof fn lemma_neighbour_holder_not_later(
    src: Seq<u8>,
    rows: int,
    cols: int,
    dirs: Seq<Point>,
    rs: Seq<InciseRange>,
    need_source: bool,
    kp: int,
    kq: int,
    i: int,
    j: int,
    t: int,
)
    requires
        connected_areas(src, rows, cols, dirs, rs, need_source),
        0 <= kp < rs.len(),
        0 <= kq < rs.len(),
        holds_pixel(rs[kp], i, cols),
        holds_pixel(rs[kq], j, cols),
        0 <= j < rows * cols,
        src[j] == 255,
        0 <= t < dirs.len(),
        j == i + dirs[t].1 * cols + dirs[t].0,
    ensures
        kq <= kp,
{
    lemma_held_closed(src, rows, cols, dirs, rs, need_source, kp, i, t);
    let sp = seed_idx(rs[kp], cols);
    let after = scan_marks(rs, kp + 1, sp, rows * cols, cols);
    assert(after[j] != 0);
    lemma_held_was_unmarked(src, rows, cols, dirs, rs, need_source, kq, j);
    law_components_partition(src, rows, cols, dirs, rs, need_source, j);
    if j < sp {
        if kq > kp {
            assert(seed_idx(rs[kp], cols) < seed_idx(rs[kq], cols));
            assert(scan_marks(rs, kq, seed_idx(rs[kq], cols), rows * cols, cols)[j] == 1);
        }
    } else {
        assert(marked_by(rs, kp + 1, j, cols));
        let (jj, m) = choose|jj: int, m: int|
            0 <= jj < kp + 1 && 1 <= m < rs[jj].positions@.len() && #[trigger] idx(point_of(rs[jj], m), cols) == j;
        assert(holds_pixel(rs[jj], j, cols));
    }
}

/// Neighbouring white pixels lie in the same component: two white pixels of the image that
/// touch along a side, or with `through` also at a corner, are held by one and the same range
/// of `incise_connected_area`.
pub proof fn law_neighbours_share_a_component(
    src: Seq<u8>,
    rows: int,
    cols: int,
    through: bool,
    rs: Seq<InciseRange>,
    need_source: bool,
    p: Point,
    q: Point,
)
    requires
        connected_areas(src, rows, cols, neighbourhood(through), rs, need_source),
        0 <= p.0 < cols && 0 <= p.1 < rows,
        0 <= q.0 < cols && 0 <= q.1 < rows,
        src[idx(p, cols)] == 255,
        src[idx(q, cols)] == 255,
        -1 <= q.0 - p.0 <= 1,
        -1 <= q.1 - p.1 <= 1,
        !through ==> p.0 == q.0 || p.1 == q.1,
    ensures
        exists|k: int|
            0 <= k < rs.len() && #[trigger] holds_pixel(rs[k], idx(p, cols), cols) && holds_pixel(
                rs[k],
                idx(q, cols),
                cols,
            ),
{
    let dirs = neighbourhood(through);
    let i = idx(p, cols);
    let j = idx(q, cols);
    assert(0 <= i < rows * cols && 0 <= j < rows * cols) by (nonlinear_arith)
        requires
            0 <= p.0 < cols,
            0 <= p.1 < rows,
            0 <= q.0 < cols,
            0 <= q.1 < rows,
            i == p.1 * cols + p.0,
            j == q.1 * cols + q.0;
    law_components_partition(src, rows, cols, dirs, rs, need_source, i);
    law_components_partition(src, rows, cols, dirs, rs, need_source, j);
    let kp = choose|k: int| 0 <= k < rs.len() && holds_pixel(#[trigger] rs[k], i, cols);
    let kq = choose|k: int| 0 <= k < rs.len() && holds_pixel(#[trigger] rs[k], j, cols);
    if p != q {
        let dx = q.0 - p.0;
        let dy = q.1 - p.1;
        let t1 = lemma_step_in_neighbourhood(through, dx, dy);
        let t2 = lemma_step_in_neighbourhood(through, -dx, -dy);
        assert(j == i + dy * cols + dx) by (nonlinear_arith)
            requires i == p.1 * cols + p.0, j == q.1 * cols + q.0, dx == q.0 - p.0, dy == q.1 - p.1;
        assert(i == j + (-dy) * cols + (-dx)) by (nonlinear_arith)
            requires j == i + dy * cols + dx;
        lemma_neighbour_holder_not_later(src, rows, cols, dirs, rs, need_source, kp, kq, i, j, t1);
        lemma_neighbour_holder_not_later(src, rows, cols, dirs, rs, need_source, kq, kp, j, i, t2);
    }
    assert(holds_pixel(rs[kp], i, cols) && holds_pixel(rs[kp], j, cols));
}

proof fn lemma_first_touching_skips(
    rs: Seq<InciseRange>,
    groups: Seq<Seq<usize>>,
    i: int,
    g: int,
    cols: int,
    rows: int,
)
    requires
        0 <= g,
    ensures
        forall|h: int|
            g <= h < groups.len() && (first_touching(rs, groups, i, g, cols, rows) matches Some(f) ==> h < f)
                ==> !#[trigger] group_touches(rs, groups[h], i, cols, rows),
    decreases groups.len() - g,
{
    if g < groups.len() && !group_touches(rs, groups[g], i, cols, rows) {
        lemma_first_touching_skips(rs, groups, i, g + 1, cols, rows);
    }
}

/// A later member of a later group meets no earlier member of an earlier group.
pub open spec fn earlier_groups_apart(rs: Seq<InciseRange>, groups: Seq<Seq<usize>>, cols: int, rows: int) -> bool {
    forall|g1: int, u: int, g2: int, t: int|
        0 <= g1 < g2 < groups.len() && 0 <= u < groups[g1].len() && 0 <= t < groups[g2].len() && groups[g1][u]
            < groups[g2][t] ==> !#[trigger] widened_boxes_meet(rs[groups[g1][u] as int], rs[groups[g2][t] as int], cols, rows)
}

proof fn lemma_grouping_apart(rs: Seq<InciseRange>, k: int, cols: int, rows: int)
    requires
        0 <= k <= rs.len(),
        rs.len() <= usize::MAX,
    ensures
        earlier_groups_apart(rs, grouping(rs, k, cols, rows), cols, rows),
    decreases k,
{
    if k > 0 {
        lemma_grouping_apart(rs, k - 1, cols, rows);
        lemma_grouping_facts(rs, k - 1, cols, rows);
        let groups = grouping(rs, k - 1, cols, rows);
        let i = k - 1;
        let now = grouping(rs, k, cols, rows);
        if !seen_before(rs, i) {
            lemma_first_touching_skips(rs, groups, i, 0, cols, rows);
            lemma_first_touching_range(rs, groups, i, 0, cols, rows);
            let f = first_touching(rs, groups, i, 0, cols, rows);
            let nh: int = match f {
                Some(h) => h,
                None => groups.len() as int,
            };
            match f {
                Some(h) => {
                    assert(now == groups.update(h, groups[h].push(i as usize)));
                },
                None => {
                    assert(now == groups.push(seq![i as usize]));
                },
            }
            assert forall|g1: int, u: int, g2: int, t: int|
                0 <= g1 < g2 < now.len() && 0 <= u < now[g1].len() && 0 <= t < now[g2].len() && now[g1][u]
                    < now[g2][t] implies !#[trigger] widened_boxes_meet(
                rs[now[g1][u] as int],
                rs[now[g2][t] as int],
                cols,
                rows,
            ) by {
                let is_new = g2 == nh && t == (if g2 < groups.len() { groups[g2].len() as int } else { 0 });
                if is_new {
                    assert(now[g2][t] == i as usize);
                    assert(now[g1] == groups[g1]);
                    assert(groups[g1][u] < k - 1);
                    assert(!group_touches(rs, groups[g1], i, cols, rows));
                    assert(!touches(rs[i], rs[groups[g1][u] as int], cols, rows));
                } else {
                    assert(g2 < groups.len());
                    assert(t < groups[g2].len());
                    assert(now[g2][t] == groups[g2][t]);
                    assert(groups[g2][t] < k - 1);
                    if g1 == nh && u == groups[g1].len() {
                        assert(now[g1][u] == i as usize);
                    } else {
                        assert(u < groups[g1].len());
                        assert(now[g1][u] == groups[g1][u]);
                    }
                }
            }
        } else {
            assert(now == groups);
        }
    }
}

/// Merging puts each range into the first group it meets: no range's box, widened by `cols`
/// and `rows`, meets the widened box of an earlier range of an earlier group.
pub proof fn law_first_meeting_group(rs: Seq<InciseRange>, cols: int, rows: int, g1: int, u: int, g2: int, t: int)
    requires
        rs.len() <= usize::MAX,
        0 <= g1 < g2 < grouping(rs, rs.len() as int, cols, rows).len(),
        0 <= u < grouping(rs, rs.len() as int, cols, rows)[g1].len(),
        0 <= t < grouping(rs, rs.len() as int, cols, rows)[g2].len(),
        grouping(rs, rs.len() as int, cols, rows)[g1][u] < grouping(rs, rs.len() as int, cols, rows)[g2][t],
    ensures
        !widened_boxes_meet(
            rs[grouping(rs, rs.len() as int, cols, rows)[g1][u] as int],
            rs[grouping(rs, rs.len() as int, cols, rows)[g2][t] as int],
            cols,
            rows,
        ),
{
    lemma_grouping_apart(rs, rs.len() as int, cols, rows);
}

} // verus!
