//! What the flood fill of `find_connected_range` marks and records: walks through white,
//! unmarked pixels, the marks they leave, and the closure that the fill reaches.
use vstd::prelude::*;
use crate::filter::lin;

verus! {

/// A point in image coordinates.
pub type Point = (int, int);

/// The point one step `d` away from `c`.
pub open spec fn shift(c: Point, d: Point) -> Point {
    (c.0 + d.0, c.1 + d.1)
}

/// The linear index of a point.
pub open spec fn idx(c: Point, cols: int) -> int {
    lin(c.0, c.1, cols)
}

/// Whether the fill may compute the point `c` without leaving the image or an `i32`.
pub open spec fn reachable_point(c: Point, cols: int, n: int) -> bool {
    &&& 0 <= c.0 <= i32::MAX
    &&& 0 <= c.1 <= i32::MAX
    &&& 0 <= idx(c, cols) < n
}

/// Whether every neighbour of `c` can be computed.
pub open spec fn safe(c: Point, dirs: Seq<Point>, cols: int, n: int) -> bool {
    forall|k: int| 0 <= k < dirs.len() ==> reachable_point(#[trigger] shift(c, dirs[k]), cols, n)
}

/// Whether the fill may enter the point `c`: it lies in the image, is white and unmarked.
pub open spec fn open_px(src: Seq<u8>, sign: Seq<u8>, cols: int, c: Point) -> bool {
    &&& 0 <= c.0
    &&& 0 <= c.1
    &&& 0 <= idx(c, cols) < sign.len()
    &&& src[idx(c, cols)] == 255
    &&& sign[idx(c, cols)] == 0
}

/// Whether `b` is one step away from `a`.
pub open spec fn is_step(dirs: Seq<Point>, a: Point, b: Point) -> bool {
    exists|k: int| 0 <= k < dirs.len() && b == #[trigger] shift(a, dirs[k])
}

/// The `i`-th link of the walk `p`: a step onto an open point.
pub open spec fn link(src: Seq<u8>, sign: Seq<u8>, cols: int, dirs: Seq<Point>, p: Seq<Point>, i: int) -> bool {
    open_px(src, sign, cols, p[i]) && is_step(dirs, p[i - 1], p[i])
}

/// A walk from `c0` through open points.
pub open spec fn is_walk(src: Seq<u8>, sign: Seq<u8>, cols: int, dirs: Seq<Point>, c0: Point, p: Seq<Point>) -> bool {
    &&& p.len() >= 1
    &&& p[0] == c0
    &&& forall|i: int| 1 <= i < p.len() ==> #[trigger] link(src, sign, cols, dirs, p, i)
}

/// Every point that a walk from `c0` reaches has computable neighbours.
pub open spec fn walks_safe(src: Seq<u8>, sign: Seq<u8>, cols: int, dirs: Seq<Point>, c0: Point) -> bool {
    forall|p: Seq<Point>| #[trigger] is_walk(src, sign, cols, dirs, c0, p) ==> safe(p.last(), dirs, cols, sign.len() as int)
}

/// Some walk from `c0` ends at `c`.
pub open spec fn reaches(src: Seq<u8>, sign: Seq<u8>, cols: int, dirs: Seq<Point>, c0: Point, c: Point) -> bool {
    exists|p: Seq<Point>| #[trigger] is_walk(src, sign, cols, dirs, c0, p) && p.last() == c
}

/// The marks `s1` arise from `s0` by marking white, unmarked pixels with 1.
pub open spec fn grew(src: Seq<u8>, s0: Seq<u8>, s1: Seq<u8>) -> bool {
    &&& s1.len() == s0.len()
    &&& forall|i: int|
        0 <= i < s0.len() ==> (#[trigger] s1[i] == s0[i] || (s0[i] == 0 && s1[i] == 1 && src[i] == 255))
}

/// The points `added` are exactly the pixels newly marked between `s0` and `s1`, one point
/// for each.
pub open spec fn marks_match(s0: Seq<u8>, s1: Seq<u8>, cols: int, added: Seq<Point>) -> bool {
    &&& forall|k: int|
        0 <= k < added.len() ==> {
            let c = #[trigger] added[k];
            &&& 0 <= c.0
            &&& 0 <= c.1
            &&& 0 <= idx(c, cols) < s0.len()
            &&& s0[idx(c, cols)] == 0
            &&& s1[idx(c, cols)] == 1
        }
    &&& forall|k1: int, k2: int|
        0 <= k1 < added.len() && 0 <= k2 < added.len() && k1 != k2 ==> idx(#[trigger] added[k1], cols)
            != idx(#[trigger] added[k2], cols)
    &&& forall|i: int|
        0 <= i < s0.len() && #[trigger] s1[i] != s0[i] ==> exists|k: int|
            0 <= k < added.len() && idx(#[trigger] added[k], cols) == i
}

/// The fill cannot go on from `c`: each neighbour is marked or not white.
pub open spec fn closed_at(src: Seq<u8>, sign: Seq<u8>, cols: int, dirs: Seq<Point>, c: Point) -> bool {
    forall|k: int|
        0 <= k < dirs.len() ==> {
            let q = #[trigger] shift(c, dirs[k]);
            sign[idx(q, cols)] != 0 || src[idx(q, cols)] != 255
        }
}

pub proof fn lemma_grew_trans(src: Seq<u8>, s0: Seq<u8>, s1: Seq<u8>, s2: Seq<u8>)
    requires
        grew(src, s0, s1),
        grew(src, s1, s2),
    ensures
        grew(src, s0, s2),
{
    assert forall|i: int| 0 <= i < s0.len() implies (#[trigger] s2[i] == s0[i] || (s0[i] == 0 && s2[i] == 1
        && src[i] == 255)) by {
        assert(s1[i] == s0[i] || (s0[i] == 0 && s1[i] == 1 && src[i] == 255));
        assert(s2[i] == s1[i] || (s1[i] == 0 && s2[i] == 1 && src[i] == 255));
    }
}

/// A point that the fill cannot leave stays so as more pixels get marked.
pub proof fn lemma_closed_mono(src: Seq<u8>, s1: Seq<u8>, s2: Seq<u8>, cols: int, dirs: Seq<Point>, c: Point)
    requires
        grew(src, s1, s2),
        closed_at(src, s1, cols, dirs, c),
        safe(c, dirs, cols, s1.len() as int),
    ensures
        closed_at(src, s2, cols, dirs, c),
{
    assert forall|k: int| 0 <= k < dirs.len() implies {
        let q = #[trigger] shift(c, dirs[k]);
        s2[idx(q, cols)] != 0 || src[idx(q, cols)] != 255
    } by {
        let q = shift(c, dirs[k]);
        assert(reachable_point(q, cols, s1.len() as int));
        assert(s2[idx(q, cols)] == s1[idx(q, cols)] || s1[idx(q, cols)] == 0);
    }
}

/// A walk over fewer marks stays a walk when the marks shrink back.
pub proof fn lemma_walk_back(
    src: Seq<u8>,
    s0: Seq<u8>,
    s1: Seq<u8>,
    cols: int,
    dirs: Seq<Point>,
    c: Point,
    p: Seq<Point>,
)
    requires
        grew(src, s0, s1),
        is_walk(src, s1, cols, dirs, c, p),
    ensures
        is_walk(src, s0, cols, dirs, c, p),
{
    assert forall|i: int| 1 <= i < p.len() implies #[trigger] link(src, s0, cols, dirs, p, i) by {
        assert(link(src, s1, cols, dirs, p, i));
        let j = idx(p[i], cols);
        assert(s1[j] == s0[j] || s0[j] == 0);
    }
}

/// A walk from `c` over marks `s1`, behind a step from `c0` onto `c`, is a walk from `c0`
/// over the earlier marks `s0`.
pub proof fn lemma_walk_prepend(
    src: Seq<u8>,
    s0: Seq<u8>,
    s1: Seq<u8>,
    cols: int,
    dirs: Seq<Point>,
    c0: Point,
    k: int,
    p: Seq<Point>,
)
    requires
        grew(src, s0, s1),
        0 <= k < dirs.len(),
        open_px(src, s0, cols, shift(c0, dirs[k])),
        is_walk(src, s1, cols, dirs, shift(c0, dirs[k]), p),
    ensures
        is_walk(src, s0, cols, dirs, c0, seq![c0] + p),
        (seq![c0] + p).last() == p.last(),
{
    lemma_walk_back(src, s0, s1, cols, dirs, shift(c0, dirs[k]), p);
    let q = seq![c0] + p;
    assert forall|i: int| 1 <= i < q.len() implies #[trigger] link(src, s0, cols, dirs, q, i) by {
        if i == 1 {
            assert(q[1] == shift(c0, dirs[k]));
            assert(is_step(dirs, q[0], q[1]));
        } else {
            assert(link(src, s0, cols, dirs, p, i - 1));
            assert(q[i] == p[i - 1] && q[i - 1] == p[i - 2]);
        }
    }
}

/// The number of unmarked pixels.
pub open spec fn count_zero(s: Seq<u8>) -> nat
    decreases s.len(),
{
    if s.len() == 0 {
        0
    } else {
        count_zero(s.drop_last()) + if s.last() == 0 { 1nat } else { 0nat }
    }
}

/// Marking never adds unmarked pixels, and marking one more removes one.
pub proof fn lemma_count_zero(src: Seq<u8>, s0: Seq<u8>, s1: Seq<u8>, j: int)
    requires
        grew(src, s0, s1),
    ensures
        count_zero(s1) <= count_zero(s0),
        0 <= j < s0.len() && s0[j] == 0 && s1[j] != 0 ==> count_zero(s1) < count_zero(s0),
    decreases s0.len(),
{
    if s0.len() > 0 {
        let a = s0.drop_last();
        let b = s1.drop_last();
        assert(grew(src, a, b)) by {
            assert forall|i: int| 0 <= i < a.len() implies (#[trigger] b[i] == a[i] || (a[i] == 0 && b[i] == 1
                && src[i] == 255)) by {
                assert(s1[i] == s0[i] || (s0[i] == 0 && s1[i] == 1 && src[i] == 255));
            }
        }
        lemma_count_zero(src, a, b, j);
        assert(s1[s0.len() - 1] == s0[s0.len() - 1] || s0[s0.len() - 1] == 0);
    }
}


/// Newly marked pixels compose: those of two successive fills together are those of both.
pub proof fn lemma_marks_compose(
    src: Seq<u8>,
    s0: Seq<u8>,
    s1: Seq<u8>,
    s2: Seq<u8>,
    cols: int,
    a1: Seq<Point>,
    a2: Seq<Point>,
)
    requires
        grew(src, s0, s1),
        grew(src, s1, s2),
        marks_match(s0, s1, cols, a1),
        marks_match(s1, s2, cols, a2),
    ensures
        marks_match(s0, s2, cols, a1 + a2),
{
    let a = a1 + a2;
    assert forall|k: int| 0 <= k < a.len() implies {
        let c = #[trigger] a[k];
        &&& 0 <= c.0
        &&& 0 <= c.1
        &&& 0 <= idx(c, cols) < s0.len()
        &&& s0[idx(c, cols)] == 0
        &&& s2[idx(c, cols)] == 1
    } by {
        if k < a1.len() {
            assert(a[k] == a1[k]);
            let j = idx(a1[k], cols);
            assert(s2[j] == s1[j] || s1[j] == 0);
        } else {
            assert(a[k] == a2[k - a1.len()]);
            let j = idx(a2[k - a1.len()], cols);
            assert(s1[j] == s0[j] || s0[j] == 0);
        }
    }
    assert forall|k1: int, k2: int|
        0 <= k1 < a.len() && 0 <= k2 < a.len() && k1 != k2 implies idx(#[trigger] a[k1], cols) != idx(
        #[trigger] a[k2],
        cols,
    ) by {
        if k1 < a1.len() && k2 < a1.len() {
            assert(a[k1] == a1[k1] && a[k2] == a1[k2]);
        } else if k1 >= a1.len() && k2 >= a1.len() {
            assert(a[k1] == a2[k1 - a1.len()] && a[k2] == a2[k2 - a1.len()]);
        } else if k1 < a1.len() {
            assert(a[k1] == a1[k1] && a[k2] == a2[k2 - a1.len()]);
            assert(s1[idx(a1[k1], cols)] == 1);
            assert(s1[idx(a2[k2 - a1.len()], cols)] == 0);
        } else {
            assert(a[k2] == a1[k2] && a[k1] == a2[k1 - a1.len()]);
            assert(s1[idx(a1[k2], cols)] == 1);
            assert(s1[idx(a2[k1 - a1.len()], cols)] == 0);
        }
    }
    assert forall|i: int| 0 <= i < s0.len() && #[trigger] s2[i] != s0[i] implies exists|k: int|
        0 <= k < a.len() && idx(#[trigger] a[k], cols) == i by {
        if s1[i] != s0[i] {
            let k = choose|k: int| 0 <= k < a1.len() && idx(#[trigger] a1[k], cols) == i;
            assert(a[k] == a1[k]);
        } else {
            assert(s2[i] != s1[i]);
            let k = choose|k: int| 0 <= k < a2.len() && idx(#[trigger] a2[k], cols) == i;
            assert(a[k + a1.len()] == a2[k]);
        }
    }
}

/// A point reached from the neighbour `c0 + dirs[k]` over later marks is reached from `c0`.
pub proof fn lemma_reaches_prepend(
    src: Seq<u8>,
    s0: Seq<u8>,
    s1: Seq<u8>,
    cols: int,
    dirs: Seq<Point>,
    c0: Point,
    k: int,
    c: Point,
)
    requires
        grew(src, s0, s1),
        0 <= k < dirs.len(),
        open_px(src, s0, cols, shift(c0, dirs[k])),
        reaches(src, s1, cols, dirs, shift(c0, dirs[k]), c),
    ensures
        reaches(src, s0, cols, dirs, c0, c),
{
    let p = choose|p: Seq<Point>| #[trigger] is_walk(src, s1, cols, dirs, shift(c0, dirs[k]), p) && p.last() == c;
    lemma_walk_prepend(src, s0, s1, cols, dirs, c0, k, p);
    assert(is_walk(src, s0, cols, dirs, c0, seq![c0] + p));
}

/// Every point reached from `c0 + dirs[k]` over later marks has computable neighbours.
pub proof fn lemma_walks_safe_step(
    src: Seq<u8>,
    s0: Seq<u8>,
    s1: Seq<u8>,
    cols: int,
    dirs: Seq<Point>,
    c0: Point,
    k: int,
)
    requires
        grew(src, s0, s1),
        0 <= k < dirs.len(),
        open_px(src, s0, cols, shift(c0, dirs[k])),
        walks_safe(src, s0, cols, dirs, c0),
    ensures
        walks_safe(src, s1, cols, dirs, shift(c0, dirs[k])),
{
    assert forall|p: Seq<Point>| #[trigger] is_walk(src, s1, cols, dirs, shift(c0, dirs[k]), p) implies safe(
        p.last(),
        dirs,
        cols,
        s1.len() as int,
    ) by {
        lemma_walk_prepend(src, s0, s1, cols, dirs, c0, k, p);
        assert(is_walk(src, s0, cols, dirs, c0, seq![c0] + p));
    }
}

/// The one-point walk.
pub proof fn lemma_walk_here(src: Seq<u8>, sign: Seq<u8>, cols: int, dirs: Seq<Point>, c0: Point)
    ensures
        is_walk(src, sign, cols, dirs, c0, seq![c0]),
        reaches(src, sign, cols, dirs, c0, c0),
{
    assert(is_walk(src, sign, cols, dirs, c0, seq![c0]));
}

/// The two-point walk onto an open neighbour.
pub proof fn lemma_walk_one(src: Seq<u8>, sign: Seq<u8>, cols: int, dirs: Seq<Point>, c0: Point, k: int)
    requires
        0 <= k < dirs.len(),
        open_px(src, sign, cols, shift(c0, dirs[k])),
    ensures
        reaches(src, sign, cols, dirs, c0, shift(c0, dirs[k])),
{
    let p = seq![c0, shift(c0, dirs[k])];
    assert(is_step(dirs, p[0], p[1]));
    assert(link(src, sign, cols, dirs, p, 1));
    assert(is_walk(src, sign, cols, dirs, c0, p));
}


/// No pixel marked.
pub open spec fn zeros(n: int) -> Seq<u8> {
    Seq::new(n as nat, |i: int| 0u8)
}

/// A walk over some marks is a walk over no marks.
pub proof fn lemma_walk_unmarked(src: Seq<u8>, s: Seq<u8>, cols: int, dirs: Seq<Point>, c: Point, p: Seq<Point>)
    requires
        is_walk(src, s, cols, dirs, c, p),
    ensures
        is_walk(src, zeros(s.len() as int), cols, dirs, c, p),
{
    assert forall|i: int| 1 <= i < p.len() implies #[trigger] link(src, zeros(s.len() as int), cols, dirs, p, i) by {
        assert(link(src, s, cols, dirs, p, i));
    }
}

/// What holds of every walk over no marks holds of every walk over some marks.
pub proof fn lemma_walks_safe_marked(src: Seq<u8>, s: Seq<u8>, cols: int, dirs: Seq<Point>, c: Point)
    requires
        walks_safe(src, zeros(s.len() as int), cols, dirs, c),
    ensures
        walks_safe(src, s, cols, dirs, c),
{
    assert forall|p: Seq<Point>| #[trigger] is_walk(src, s, cols, dirs, c, p) implies safe(
        p.last(),
        dirs,
        cols,
        s.len() as int,
    ) by {
        lemma_walk_unmarked(src, s, cols, dirs, c, p);
    }
}

/// The bounding box of the points that walks from `seed` reach fits in `i32` arithmetic:
/// its width and height, and, where a bitmap is drawn over it, its area.
pub open spec fn spans_fit(src: Seq<u8>, n: int, cols: int, dirs: Seq<Point>, seed: Point, need_area: bool) -> bool {
    forall|p1: Seq<Point>, p2: Seq<Point>, p3: Seq<Point>, p4: Seq<Point>|
        #![trigger is_walk(src, zeros(n), cols, dirs, seed, p1), is_walk(src, zeros(n), cols, dirs, seed, p2), is_walk(src, zeros(n), cols, dirs, seed, p3), is_walk(src, zeros(n), cols, dirs, seed, p4)]
        is_walk(src, zeros(n), cols, dirs, seed, p1) && is_walk(src, zeros(n), cols, dirs, seed, p2) && is_walk(
            src,
            zeros(n),
            cols,
            dirs,
            seed,
            p3,
        ) && is_walk(src, zeros(n), cols, dirs, seed, p4) ==> {
            let w = p2.last().0 - p1.last().0 + 1;
            let h = p4.last().1 - p3.last().1 + 1;
            &&& w <= i32::MAX
            &&& h <= i32::MAX
            &&& (need_area ==> w * h <= i32::MAX)
        }
}

/// What the fill from `seed` needs: every point that it can reach has computable neighbours,
/// and the bounding box of those points fits `spans_fit`.
pub open spec fn component_fits(src: Seq<u8>, n: int, cols: int, dirs: Seq<Point>, seed: Point, need_area: bool) -> bool {
    &&& walks_safe(src, zeros(n), cols, dirs, seed)
    &&& spans_fit(src, n, cols, dirs, seed, need_area)
}

/// Each neighbour of `c` lies within `i32` reach of the seed (`x`, `y`).
pub open spec fn near_seed(c: Point, dirs: Seq<Point>, x: int, y: int) -> bool {
    forall|k: int|
        0 <= k < dirs.len() ==> i32::MIN <= #[trigger] shift(c, dirs[k]).0 - x <= i32::MAX && i32::MIN <= shift(
            c,
            dirs[k],
        ).1 - y <= i32::MAX
}

/// The fill from `c0` can write each step relative to the seed (`x`, `y`) in `i32`: every
/// step added to the seed fits, and so does every neighbour that a walk reaches, taken
/// relative to the seed.
pub open spec fn offsets_fit(
    src: Seq<u8>,
    sign: Seq<u8>,
    cols: int,
    dirs: Seq<Point>,
    c0: Point,
    x: int,
    y: int,
) -> bool {
    &&& forall|k: int|
        0 <= k < dirs.len() ==> i32::MIN <= (#[trigger] dirs[k]).0 + x <= i32::MAX && i32::MIN <= dirs[k].1 + y
            <= i32::MAX
    &&& forall|p: Seq<Point>| #[trigger] is_walk(src, sign, cols, dirs, c0, p) ==> near_seed(p.last(), dirs, x, y)
}

/// The neighbours of the start of the fill lie within reach of the seed.
pub proof fn lemma_offsets_here(src: Seq<u8>, sign: Seq<u8>, cols: int, dirs: Seq<Point>, c0: Point, x: int, y: int)
    requires
        offsets_fit(src, sign, cols, dirs, c0, x, y),
    ensures
        near_seed(c0, dirs, x, y),
{
    lemma_walk_here(src, sign, cols, dirs, c0);
    assert(seq![c0].last() == c0);
}

/// The fill from the neighbour `c0 + dirs[k]` over later marks keeps its offsets in reach.
pub proof fn lemma_offsets_step(
    src: Seq<u8>,
    s0: Seq<u8>,
    s1: Seq<u8>,
    cols: int,
    dirs: Seq<Point>,
    c0: Point,
    k: int,
    x: int,
    y: int,
)
    requires
        grew(src, s0, s1),
        0 <= k < dirs.len(),
        open_px(src, s0, cols, shift(c0, dirs[k])),
        offsets_fit(src, s0, cols, dirs, c0, x, y),
    ensures
        offsets_fit(src, s1, cols, dirs, shift(c0, dirs[k]), x, y),
{
    assert forall|p: Seq<Point>| #[trigger] is_walk(src, s1, cols, dirs, shift(c0, dirs[k]), p) implies near_seed(
        p.last(),
        dirs,
        x,
        y,
    ) by {
        lemma_walk_prepend(src, s0, s1, cols, dirs, c0, k, p);
        assert(is_walk(src, s0, cols, dirs, c0, seq![c0] + p));
    }
}

/// With a seed at non-negative coordinates below `i32::MAX`, steps of at most one pixel and
/// computable neighbours everywhere, every offset fits.
pub proof fn lemma_offsets_from_seed(
    src: Seq<u8>,
    sign: Seq<u8>,
    cols: int,
    dirs: Seq<Point>,
    c0: Point,
    x: int,
    y: int,
)
    requires
        0 <= x < i32::MAX,
        0 <= y < i32::MAX,
        forall|k: int| 0 <= k < dirs.len() ==> -1 <= (#[trigger] dirs[k]).0 <= 1 && -1 <= dirs[k].1 <= 1,
        walks_safe(src, sign, cols, dirs, c0),
    ensures
        offsets_fit(src, sign, cols, dirs, c0, x, y),
{
    assert forall|p: Seq<Point>| #[trigger] is_walk(src, sign, cols, dirs, c0, p) implies near_seed(
        p.last(),
        dirs,
        x,
        y,
    ) by {
        assert(safe(p.last(), dirs, cols, sign.len() as int));
        assert forall|k: int| 0 <= k < dirs.len() implies i32::MIN <= #[trigger] shift(p.last(), dirs[k]).0 - x
            <= i32::MAX && i32::MIN <= shift(p.last(), dirs[k]).1 - y <= i32::MAX by {
            assert(reachable_point(shift(p.last(), dirs[k]), cols, sign.len() as int));
        }
    }
}

/// The depth-first fill from `c`, trying the steps `dirs[k..]` in order: the points it
/// enters, in the order it enters them, and the marks afterwards. Each open neighbour is
/// marked and filled from before the next step is tried; `fuel` bounds the depth and is
/// enough when it is at least the number of unmarked pixels.
pub open spec fn dfs(src: Seq<u8>, cols: int, dirs: Seq<Point>, fuel: nat, sign: Seq<u8>, c: Point, k: int) -> (
    Seq<Point>,
    Seq<u8>,
)
    decreases fuel, dirs.len() - k,
{
    if k < 0 || k >= dirs.len() || fuel == 0 {
        (Seq::empty(), sign)
    } else {
        let q = shift(c, dirs[k]);
        if open_px(src, sign, cols, q) {
            let d1 = dfs(src, cols, dirs, (fuel - 1) as nat, sign.update(idx(q, cols), 1), q, 0);
            let d2 = dfs(src, cols, dirs, fuel, d1.1, c, k + 1);
            (seq![q] + d1.0 + d2.0, d2.1)
        } else {
            dfs(src, cols, dirs, fuel, sign, c, k + 1)
        }
    }
}

/// Marking an open point leaves one unmarked pixel fewer.
pub proof fn lemma_mark_open(src: Seq<u8>, sign: Seq<u8>, cols: int, q: Point)
    requires
        open_px(src, sign, cols, q),
    ensures
        grew(src, sign, sign.update(idx(q, cols), 1)),
        count_zero(sign.update(idx(q, cols), 1)) < count_zero(sign),
{
    let s1 = sign.update(idx(q, cols), 1);
    assert(grew(src, sign, s1));
    lemma_count_zero(src, sign, s1, idx(q, cols));
}

/// The fill only marks white, unmarked pixels.
pub proof fn lemma_dfs_grows(src: Seq<u8>, cols: int, dirs: Seq<Point>, fuel: nat, sign: Seq<u8>, c: Point, k: int)
    ensures
        grew(src, sign, dfs(src, cols, dirs, fuel, sign, c, k).1),
    decreases fuel, dirs.len() - k,
{
    if k < 0 || k >= dirs.len() || fuel == 0 {
        assert(grew(src, sign, sign));
    } else {
        let q = shift(c, dirs[k]);
        if open_px(src, sign, cols, q) {
            let s0 = sign.update(idx(q, cols), 1);
            lemma_mark_open(src, sign, cols, q);
            lemma_dfs_grows(src, cols, dirs, (fuel - 1) as nat, s0, q, 0);
            let d1 = dfs(src, cols, dirs, (fuel - 1) as nat, s0, q, 0);
            lemma_dfs_grows(src, cols, dirs, fuel, d1.1, c, k + 1);
            lemma_grew_trans(src, sign, s0, d1.1);
            lemma_grew_trans(src, sign, d1.1, dfs(src, cols, dirs, fuel, d1.1, c, k + 1).1);
        } else {
            lemma_dfs_grows(src, cols, dirs, fuel, sign, c, k + 1);
        }
    }
}

/// With no unmarked pixel the fill enters nothing.
proof fn lemma_dfs_none_open(src: Seq<u8>, cols: int, dirs: Seq<Point>, fuel: nat, sign: Seq<u8>, c: Point, k: int)
    requires
        count_zero(sign) == 0,
    ensures
        dfs(src, cols, dirs, fuel, sign, c, k) == (Seq::<Point>::empty(), sign),
    decreases dirs.len() - k,
{
    if !(k < 0 || k >= dirs.len() || fuel == 0) {
        let q = shift(c, dirs[k]);
        if open_px(src, sign, cols, q) {
            lemma_mark_open(src, sign, cols, q);
        }
        lemma_dfs_none_open(src, cols, dirs, fuel, sign, c, k + 1);
    }
}

/// Any fuel of at least the number of unmarked pixels gives the same fill.
pub proof fn lemma_dfs_fuel(
    src: Seq<u8>,
    cols: int,
    dirs: Seq<Point>,
    f1: nat,
    f2: nat,
    sign: Seq<u8>,
    c: Point,
    k: int,
)
    requires
        f1 >= count_zero(sign),
        f2 >= count_zero(sign),
    ensures
        dfs(src, cols, dirs, f1, sign, c, k) == dfs(src, cols, dirs, f2, sign, c, k),
    decreases f1 + f2, dirs.len() - k,
{
    if count_zero(sign) == 0 {
        lemma_dfs_none_open(src, cols, dirs, f1, sign, c, k);
        lemma_dfs_none_open(src, cols, dirs, f2, sign, c, k);
    } else if !(k < 0 || k >= dirs.len()) {
        let q = shift(c, dirs[k]);
        if open_px(src, sign, cols, q) {
            let s0 = sign.update(idx(q, cols), 1);
            lemma_mark_open(src, sign, cols, q);
            lemma_dfs_fuel(src, cols, dirs, (f1 - 1) as nat, (f2 - 1) as nat, s0, q, 0);
            let d1 = dfs(src, cols, dirs, (f1 - 1) as nat, s0, q, 0);
            lemma_dfs_grows(src, cols, dirs, (f1 - 1) as nat, s0, q, 0);
            lemma_count_zero(src, s0, d1.1, 0);
            lemma_dfs_fuel(src, cols, dirs, f1, f2, d1.1, c, k + 1);
        } else {
            lemma_dfs_fuel(src, cols, dirs, f1, f2, sign, c, k + 1);
        }
    }
}

/// One step of the fill onto an open neighbour: the neighbour, then its own fill, then the
/// fill from the next step.
pub proof fn lemma_dfs_step_open(
    src: Seq<u8>,
    cols: int,
    dirs: Seq<Point>,
    fuel: nat,
    sign: Seq<u8>,
    c: Point,
    k: int,
    child: Seq<Point>,
    after: Seq<u8>,
)
    requires
        0 <= k < dirs.len(),
        count_zero(sign) <= fuel,
        open_px(src, sign, cols, shift(c, dirs[k])),
        (child, after) == dfs(
            src,
            cols,
            dirs,
            count_zero(sign.update(idx(shift(c, dirs[k]), cols), 1)),
            sign.update(idx(shift(c, dirs[k]), cols), 1),
            shift(c, dirs[k]),
            0,
        ),
    ensures
        count_zero(after) <= fuel,
        dfs(src, cols, dirs, fuel, sign, c, k) == (
            seq![shift(c, dirs[k])] + child + dfs(src, cols, dirs, fuel, after, c, k + 1).0,
            dfs(src, cols, dirs, fuel, after, c, k + 1).1,
        ),
{
    let q = shift(c, dirs[k]);
    let s0 = sign.update(idx(q, cols), 1);
    lemma_mark_open(src, sign, cols, q);
    lemma_dfs_fuel(src, cols, dirs, (fuel - 1) as nat, count_zero(s0), s0, q, 0);
    lemma_dfs_grows(src, cols, dirs, count_zero(s0), s0, q, 0);
    lemma_count_zero(src, s0, after, 0);
}

/// One step of the fill onto a point that is not open moves on to the next step.
pub proof fn lemma_dfs_step_closed(src: Seq<u8>, cols: int, dirs: Seq<Point>, fuel: nat, sign: Seq<u8>, c: Point, k: int)
    requires
        0 <= k < dirs.len(),
        !open_px(src, sign, cols, shift(c, dirs[k])),
    ensures
        dfs(src, cols, dirs, fuel, sign, c, k) == dfs(src, cols, dirs, fuel, sign, c, k + 1),
{
    if fuel == 0 {
        assert(dfs(src, cols, dirs, fuel, sign, c, k + 1) == (Seq::<Point>::empty(), sign));
    }
}

/// Past the last step the fill enters nothing.
pub proof fn lemma_dfs_done(src: Seq<u8>, cols: int, dirs: Seq<Point>, fuel: nat, sign: Seq<u8>, c: Point)
    ensures
        dfs(src, cols, dirs, fuel, sign, c, dirs.len() as int) == (Seq::<Point>::empty(), sign),
{
}

} // verus!
