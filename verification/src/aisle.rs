//! The growth rule of `incise_scope_aisle`: how a region that starts at one white pixel
//! widens until the `row` rows and `column` columns around it are free of white pixels.
use vstd::prelude::*;
use crate::filter::{Tu8uc1, lin};
use crate::incise::InciseRange;

verus! {

/// Whether reading the pixel at (`c`, `r`) by its linear index stays inside the buffer.
pub open spec fn inside(src: Tu8uc1, c: int, r: int) -> bool {
    0 <= lin(c, r, src.cols as int) < src.buffer@.len()
}

/// Whether the pixel at (`c`, `r`) is white.
pub open spec fn white(src: Tu8uc1, c: int, r: int) -> bool {
    src.pixel(c, r) == 255
}

/// A well-formed image whose linear indices fit in an `i32`.
pub open spec fn image_bounds(src: Tu8uc1) -> bool {
    &&& src.wf()
    &&& src.rows * src.cols <= i32::MAX
}

/// The bounds under which every coordinate that the growth computes fits in an `i32`.
pub open spec fn aisle_bounds(src: Tu8uc1, row: int, column: int) -> bool {
    &&& image_bounds(src)
    &&& src.cols + column + 1 <= i32::MAX
    &&& src.rows + row + 1 <= i32::MAX
}

// ---------------------------------------------------------------------------------------
// The diagonal sweep: while the corner (`ex`, `ey`) is white, the corner moves one step
// down and to the right.
// ---------------------------------------------------------------------------------------

/// One pass of the sweep for a fixed `x`, over `y` in `y..row`.
pub open spec fn sweep_y(src: Tu8uc1, ex: int, ey: int, unob: bool, x: int, y: int, row: int) -> (
    int,
    int,
    bool,
)
    decreases row - y,
{
    if y >= row || ex + x >= src.cols || ey + y >= src.rows {
        (ex, ey, unob)
    } else if white(src, ex, ey) {
        sweep_y(src, ex + 1, ey + 1, false, x, y + 1, row)
    } else {
        sweep_y(src, ex, ey, unob, x, y + 1, row)
    }
}

/// One pass of the sweep over `x` in `x..column`.
pub open spec fn sweep_x(src: Tu8uc1, ex: int, ey: int, unob: bool, x: int, row: int, column: int) -> (
    int,
    int,
    bool,
)
    decreases column - x,
{
    if x >= column {
        (ex, ey, unob)
    } else {
        let (a, b, u) = sweep_y(src, ex, ey, unob, x, 0, row);
        sweep_x(src, a, b, u, x + 1, row, column)
    }
}

pub proof fn lemma_sweep_y(src: Tu8uc1, ex: int, ey: int, unob: bool, x: int, y: int, row: int)
    requires
        x >= 0,
        y >= 0,
    ensures
        ({
            let (a, b, u) = sweep_y(src, ex, ey, unob, x, y, row);
            &&& a >= ex
            &&& a - ex == b - ey
            &&& (a > ex ==> a <= src.cols && b <= src.rows)
            &&& (a == ex ==> u == unob)
            &&& (a > ex ==> !u)
        }),
    decreases row - y,
{
    if y >= row || ex + x >= src.cols || ey + y >= src.rows {
    } else if white(src, ex, ey) {
        lemma_sweep_y(src, ex + 1, ey + 1, false, x, y + 1, row);
    } else {
        lemma_sweep_y(src, ex, ey, unob, x, y + 1, row);
    }
}

pub proof fn lemma_sweep_x(src: Tu8uc1, ex: int, ey: int, unob: bool, x: int, row: int, column: int)
    requires
        x >= 0,
    ensures
        ({
            let (a, b, u) = sweep_x(src, ex, ey, unob, x, row, column);
            &&& a >= ex
            &&& a - ex == b - ey
            &&& (a > ex ==> a <= src.cols && b <= src.rows)
            &&& (a == ex ==> u == unob)
            &&& (a > ex ==> !u)
        }),
    decreases column - x,
{
    if x < column {
        lemma_sweep_y(src, ex, ey, unob, x, 0, row);
        let (a, b, u) = sweep_y(src, ex, ey, unob, x, 0, row);
        lemma_sweep_x(src, a, b, u, x + 1, row, column);
    }
}

/// The sweep repeated until a pass finds nothing white.
pub open spec fn sweep(src: Tu8uc1, ex: int, ey: int, row: int, column: int) -> (int, int)
    decreases src.cols + 2 - ex,
    when ex <= src.cols + 1
{
    let (a, b, u) = sweep_x(src, ex, ey, true, 0, row, column);
    if u {
        (a, b)
    } else {
        proof {
            lemma_sweep_x(src, ex, ey, true, 0, row, column);
        }
        sweep(src, a, b, row, column)
    }
}

pub proof fn lemma_sweep(src: Tu8uc1, ex: int, ey: int, row: int, column: int)
    requires
        ex <= src.cols + 1,
        ey <= src.rows + 1,
    ensures
        ({
            let (a, b) = sweep(src, ex, ey, row, column);
            &&& a >= ex
            &&& b >= ey
            &&& a <= src.cols + 1
            &&& b <= src.rows + 1
        }),
    decreases src.cols + 2 - ex,
{
    lemma_sweep_x(src, ex, ey, true, 0, row, column);
    let (a, b, u) = sweep_x(src, ex, ey, true, 0, row, column);
    if !u {
        lemma_sweep(src, a, b, row, column);
    }
}

/// Runs the sweep from the corner (`ex`, `ey`).
pub(crate) fn sweep_exec(source: &mut Tu8uc1, ex: i32, ey: i32, row: i32, column: i32) -> (r: (
    i32,
    i32,
))
    requires
        aisle_bounds(*old(source), row as int, column as int),
        1 <= ex <= old(source).cols + 1,
        1 <= ey <= old(source).rows + 1,
    ensures
        *final(source) == *old(source),
        (r.0 as int, r.1 as int) == sweep(*old(source), ex as int, ey as int, row as int, column as int),
{
    let ghost src = *source;
    let mut end_x = ex;
    let mut end_y = ey;
    proof {
        lemma_sweep(src, ex as int, ey as int, row as int, column as int);
    }
    loop
        invariant
            *source == src,
            src == *old(source),
            aisle_bounds(src, row as int, column as int),
            1 <= end_x <= src.cols + 1,
            1 <= end_y <= src.rows + 1,
            sweep(src, end_x as int, end_y as int, row as int, column as int) == sweep(
                src,
                ex as int,
                ey as int,
                row as int,
                column as int,
            ),
        ensures
            *source == src,
            (end_x as int, end_y as int) == sweep(src, ex as int, ey as int, row as int, column as int),
        decreases src.cols + 2 - end_x,
    {
        let ghost ex0 = end_x as int;
        let ghost ey0 = end_y as int;
        let mut unobstructed = true;
        let mut x: i32 = 0;
        while x < column
            invariant
                *source == src,
                src == *old(source),
                aisle_bounds(src, row as int, column as int),
                0 <= x,
                x <= column || column < 0,
                1 <= end_x <= src.cols + 1,
                1 <= end_y <= src.rows + 1,
                sweep_x(src, end_x as int, end_y as int, unobstructed, x as int, row as int, column as int)
                    == sweep_x(src, ex0, ey0, true, 0, row as int, column as int),
            decreases column - x,
        {
            let mut y: i32 = 0;
            while y < row
                invariant
                    *source == src,
                    aisle_bounds(src, row as int, column as int),
                    0 <= x < column,
                    0 <= y,
                    y <= row || row < 0,
                    1 <= end_x <= src.cols + 1,
                    1 <= end_y <= src.rows + 1,
                    sweep_x(
                        src,
                        sweep_y(src, end_x as int, end_y as int, unobstructed, x as int, y as int, row as int).0,
                        sweep_y(src, end_x as int, end_y as int, unobstructed, x as int, y as int, row as int).1,
                        sweep_y(src, end_x as int, end_y as int, unobstructed, x as int, y as int, row as int).2,
                        x + 1,
                        row as int,
                        column as int,
                    ) == sweep_x(src, ex0, ey0, true, 0, row as int, column as int),
                ensures
                    *source == src,
                    1 <= end_x <= src.cols + 1,
                    1 <= end_y <= src.rows + 1,
                    sweep_x(src, end_x as int, end_y as int, unobstructed, x + 1, row as int, column as int)
                        == sweep_x(src, ex0, ey0, true, 0, row as int, column as int),
                decreases row - y,
            {
                if end_x + x >= source.cols || end_y + y >= source.rows {
                    break;
                }
                if end_x >= source.cols - x - 1 {
                    end_x = source.cols - x - 1;
                }
                if end_y >= source.rows - y - 1 {
                    end_y = source.rows - y - 1;
                }
                proof {
                    assert(0 <= end_y * src.cols <= lin(end_x as int, end_y as int, src.cols as int)) by (nonlinear_arith)
                        requires 0 <= end_x, 0 <= end_y, 0 <= src.cols;
                    assert(lin(end_x as int, end_y as int, src.cols as int) < src.rows * src.cols) by (nonlinear_arith)
                        requires 0 <= end_x < src.cols, 0 <= end_y < src.rows;
                }
                if source.at(end_x, end_y) == 255 {
                    end_x += 1;
                    end_y += 1;
                    unobstructed = false;
                }
                y += 1;
            }
            x += 1;
        }
        proof {
            lemma_sweep_x(src, ex0, ey0, true, 0, row as int, column as int);
        }
        if unobstructed {
            assert(end_x == ex0 && end_y == ey0);
            break;
        }
    }
    (end_x, end_y)
}


// ---------------------------------------------------------------------------------------
// Above: a white pixel in the `row` rows above the region, from column `sx + 1` to
// `ex + column - 1`, moves the top edge up by one.
// ---------------------------------------------------------------------------------------

/// Whether row `sy - y - 1` holds a white pixel in columns `ix..hi` (stopping at the
/// image's right edge or above its top).
pub open spec fn above_row_hit(src: Tu8uc1, sy: int, y: int, ix: int, hi: int) -> bool
    decreases hi - ix,
{
    if ix >= hi || ix >= src.cols || sy - y - 1 < 0 {
        false
    } else if white(src, ix, sy - y - 1) {
        true
    } else {
        above_row_hit(src, sy, y, ix + 1, hi)
    }
}

/// Whether any of the rows `y..row` above the region holds a white pixel.
pub open spec fn above_hit(src: Tu8uc1, sx: int, sy: int, ex: int, y: int, row: int, column: int) -> bool
    decreases row - y,
{
    if y >= row {
        false
    } else {
        above_row_hit(src, sy, y, sx + 1, ex + column) || above_hit(src, sx, sy, ex, y + 1, row, column)
    }
}

pub proof fn lemma_above_row_hit(src: Tu8uc1, sy: int, y: int, ix: int, hi: int)
    ensures
        above_row_hit(src, sy, y, ix, hi) ==> sy - y - 1 >= 0,
    decreases hi - ix,
{
    if !(ix >= hi || ix >= src.cols || sy - y - 1 < 0) && !white(src, ix, sy - y - 1) {
        lemma_above_row_hit(src, sy, y, ix + 1, hi);
    }
}

pub proof fn lemma_above_hit(src: Tu8uc1, sx: int, sy: int, ex: int, y: int, row: int, column: int)
    requires
        y >= 0,
    ensures
        above_hit(src, sx, sy, ex, y, row, column) ==> sy >= 1,
    decreases row - y,
{
    if y < row {
        lemma_above_row_hit(src, sy, y, sx + 1, ex + column);
        lemma_above_hit(src, sx, sy, ex, y + 1, row, column);
    }
}

/// Looks for a white pixel in the `row` rows above the region.
pub(crate) fn above_exec(source: &mut Tu8uc1, sx: i32, sy: i32, ex: i32, row: i32, column: i32) -> (r:
    bool)
    requires
        aisle_bounds(*old(source), row as int, column as int),
        0 <= sx < ex <= old(source).cols + 1,
        0 <= sy < old(source).rows,
    ensures
        *final(source) == *old(source),
        r == above_hit(*old(source), sx as int, sy as int, ex as int, 0, row as int, column as int),
{
    let ghost src = *source;
    let mut y: i32 = 0;
    while y < row
        invariant
            *source == src,
            src == *old(source),
            aisle_bounds(src, row as int, column as int),
            0 <= sx < ex <= src.cols + 1,
            0 <= sy < src.rows,
            0 <= y,
            y <= row || row < 0,
            above_hit(src, sx as int, sy as int, ex as int, y as int, row as int, column as int)
                == above_hit(src, sx as int, sy as int, ex as int, 0, row as int, column as int),
        decreases row - y,
    {
        let hi = ex + column;
        let mut ix = sx + 1;
        while ix < hi
            invariant
                *source == src,
                src == *old(source),
                aisle_bounds(src, row as int, column as int),
                0 <= sx < ix,
                0 <= sy < src.rows,
                0 <= y < row,
                hi == ex + column,
                above_hit(src, sx as int, sy as int, ex as int, y as int, row as int, column as int)
                    == above_hit(src, sx as int, sy as int, ex as int, 0, row as int, column as int),
                above_row_hit(src, sy as int, y as int, ix as int, hi as int) == above_row_hit(
                    src,
                    sy as int,
                    y as int,
                    sx + 1,
                    hi as int,
                ),
            ensures
                *source == src,
                !above_row_hit(src, sy as int, y as int, sx + 1, hi as int),
            decreases hi - ix,
        {
            if ix >= source.cols || sy - y - 1 < 0 {
                break;
            }
            proof {
                let r = sy - y - 1;
                assert(0 <= r * src.cols <= lin(ix as int, r, src.cols as int)) by (nonlinear_arith)
                    requires 0 <= ix, 0 <= r, 0 <= src.cols;
                assert(lin(ix as int, r, src.cols as int) < src.rows * src.cols) by (nonlinear_arith)
                    requires 0 <= ix < src.cols, 0 <= r < src.rows;
            }
            if source.at(ix, sy - y - 1) == 255 {
                return true;
            }
            ix += 1;
        }
        y += 1;
    }
    false
}

// ---------------------------------------------------------------------------------------
// Right: a white pixel in the `column` columns right of the region, from row `ey - 1` up
// to row `sy - 1`, moves the right edge one column further.
// ---------------------------------------------------------------------------------------

/// Looks up column `ex + x` from row `iy` to row `lo`; `None` where the cut reads past
/// the end of the image.
pub open spec fn right_col(src: Tu8uc1, ex: int, x: int, iy: int, lo: int) -> Option<bool>
    decreases iy - lo + 1,
{
    if iy < lo || iy < 0 || iy > src.rows || ex + x > src.cols {
        Some(false)
    } else if !inside(src, ex + x, iy) {
        None
    } else if white(src, ex + x, iy) {
        Some(true)
    } else {
        right_col(src, ex, x, iy - 1, lo)
    }
}

/// Looks through the columns `x..column` right of the region.
pub open spec fn right_hit(src: Tu8uc1, sy: int, ex: int, ey: int, x: int, column: int) -> Option<
    bool,
>
    decreases column - x,
{
    if x >= column {
        Some(false)
    } else {
        match right_col(src, ex, x, ey - 1, sy - 1) {
            Some(false) => right_hit(src, sy, ex, ey, x + 1, column),
            other => other,
        }
    }
}

pub proof fn lemma_right_col(src: Tu8uc1, ex: int, x: int, iy: int, lo: int)
    ensures
        right_col(src, ex, x, iy, lo) == Some(true) ==> ex + x <= src.cols,
    decreases iy - lo + 1,
{
    if !(iy < lo || iy < 0 || iy > src.rows || ex + x > src.cols) && inside(src, ex + x, iy) && !white(
        src,
        ex + x,
        iy,
    ) {
        lemma_right_col(src, ex, x, iy - 1, lo);
    }
}

pub proof fn lemma_right_hit(src: Tu8uc1, sy: int, ex: int, ey: int, x: int, column: int)
    requires
        x >= 0,
    ensures
        right_hit(src, sy, ex, ey, x, column) == Some(true) ==> ex <= src.cols,
    decreases column - x,
{
    if x < column {
        lemma_right_col(src, ex, x, ey - 1, sy - 1);
        lemma_right_hit(src, sy, ex, ey, x + 1, column);
    }
}

/// Looks for a white pixel in the `column` columns right of the region.
pub(crate) fn right_exec(source: &mut Tu8uc1, sy: i32, ex: i32, ey: i32, column: i32) -> (r: bool)
    requires
        image_bounds(*old(source)),
        old(source).cols + column + 1 <= i32::MAX,
        0 <= sy < ey <= old(source).rows + 1,
        1 <= ex <= old(source).cols + 1,
        right_hit(*old(source), sy as int, ex as int, ey as int, 0, column as int) is Some,
    ensures
        *final(source) == *old(source),
        Some(r) == right_hit(*old(source), sy as int, ex as int, ey as int, 0, column as int),
{
    let ghost src = *source;
    let mut x: i32 = 0;
    while x < column
        invariant
            *source == src,
            src == *old(source),
            image_bounds(src),
            src.cols + column + 1 <= i32::MAX,
            0 <= sy < ey <= src.rows + 1,
            1 <= ex <= src.cols + 1,
            0 <= x,
            x <= column || column < 0,
            right_hit(src, sy as int, ex as int, ey as int, x as int, column as int) == right_hit(
                src,
                sy as int,
                ex as int,
                ey as int,
                0,
                column as int,
            ),
            right_hit(src, sy as int, ex as int, ey as int, 0, column as int) is Some,
        decreases column - x,
    {
        let mut iy = ey - 1;
        while iy >= sy - 1
            invariant
                *source == src,
                src == *old(source),
                image_bounds(src),
            src.cols + column + 1 <= i32::MAX,
                0 <= sy < ey <= src.rows + 1,
                1 <= ex <= src.cols + 1,
                0 <= x < column,
                sy - 2 <= iy < ey,
                right_col(src, ex as int, x as int, iy as int, sy - 1) == right_col(
                    src,
                    ex as int,
                    x as int,
                    ey - 1,
                    sy - 1,
                ),
                right_hit(src, sy as int, ex as int, ey as int, x as int, column as int) == right_hit(
                    src,
                    sy as int,
                    ex as int,
                    ey as int,
                    0,
                    column as int,
                ),
                right_col(src, ex as int, x as int, ey - 1, sy - 1) is Some,
            ensures
                *source == src,
                right_col(src, ex as int, x as int, ey - 1, sy - 1) == Some(false),
            decreases iy - sy + 2,
        {
            if iy < 0 || iy > source.rows || ex + x > source.cols {
                break;
            }
            proof {
                assert(0 <= iy * src.cols <= lin(ex + x, iy as int, src.cols as int)) by (nonlinear_arith)
                    requires 0 <= ex + x, 0 <= iy, 0 <= src.cols;
            }
            if source.at(ex + x, iy) == 255 {
                return true;
            }
            iy -= 1;
        }
        x += 1;
    }
    false
}

// ---------------------------------------------------------------------------------------
// Below: a white pixel in the `row` rows below the region, from column `ex - 1` back to
// column `sx`, moves the bottom edge one row further.
// ---------------------------------------------------------------------------------------

/// Looks along row `ey + y` from column `ix` back to column `lo`; `None` where the cut
/// reads past the end of the image.
pub open spec fn below_row(src: Tu8uc1, ey: int, y: int, ix: int, lo: int) -> Option<bool>
    decreases ix - lo + 1,
{
    if ix < lo || ix < 0 || ix > src.cols || ey + y > src.rows {
        Some(false)
    } else if !inside(src, ix, ey + y) {
        None
    } else if white(src, ix, ey + y) {
        Some(true)
    } else {
        below_row(src, ey, y, ix - 1, lo)
    }
}

/// Looks through the rows `y..row` below the region.
pub open spec fn below_hit(src: Tu8uc1, sx: int, ex: int, ey: int, y: int, row: int) -> Option<bool>
    decreases row - y,
{
    if y >= row {
        Some(false)
    } else {
        match below_row(src, ey, y, ex - 1, sx) {
            Some(false) => below_hit(src, sx, ex, ey, y + 1, row),
            other => other,
        }
    }
}

pub proof fn lemma_below_row(src: Tu8uc1, ey: int, y: int, ix: int, lo: int)
    ensures
        below_row(src, ey, y, ix, lo) == Some(true) ==> ey + y <= src.rows,
    decreases ix - lo + 1,
{
    if !(ix < lo || ix < 0 || ix > src.cols || ey + y > src.rows) && inside(src, ix, ey + y) && !white(
        src,
        ix,
        ey + y,
    ) {
        lemma_below_row(src, ey, y, ix - 1, lo);
    }
}

pub proof fn lemma_below_hit(src: Tu8uc1, sx: int, ex: int, ey: int, y: int, row: int)
    requires
        y >= 0,
    ensures
        below_hit(src, sx, ex, ey, y, row) == Some(true) ==> ey <= src.rows,
    decreases row - y,
{
    if y < row {
        lemma_below_row(src, ey, y, ex - 1, sx);
        lemma_below_hit(src, sx, ex, ey, y + 1, row);
    }
}

/// Looks for a white pixel in the `row` rows below the region.
pub(crate) fn below_exec(source: &mut Tu8uc1, sx: i32, ex: i32, ey: i32, row: i32) -> (r: bool)
    requires
        image_bounds(*old(source)),
        old(source).rows + row + 1 <= i32::MAX,
        0 <= sx < ex <= old(source).cols + 1,
        1 <= ey <= old(source).rows + 1,
        below_hit(*old(source), sx as int, ex as int, ey as int, 0, row as int) is Some,
    ensures
        *final(source) == *old(source),
        Some(r) == below_hit(*old(source), sx as int, ex as int, ey as int, 0, row as int),
{
    let ghost src = *source;
    let mut y: i32 = 0;
    while y < row
        invariant
            *source == src,
            src == *old(source),
            image_bounds(src),
            src.rows + row + 1 <= i32::MAX,
            0 <= sx < ex <= src.cols + 1,
            1 <= ey <= src.rows + 1,
            0 <= y,
            y <= row || row < 0,
            below_hit(src, sx as int, ex as int, ey as int, y as int, row as int) == below_hit(
                src,
                sx as int,
                ex as int,
                ey as int,
                0,
                row as int,
            ),
            below_hit(src, sx as int, ex as int, ey as int, 0, row as int) is Some,
        decreases row - y,
    {
        let mut ix = ex - 1;
        while ix >= sx
            invariant
                *source == src,
                src == *old(source),
                image_bounds(src),
            src.rows + row + 1 <= i32::MAX,
                0 <= sx < ex <= src.cols + 1,
                1 <= ey <= src.rows + 1,
                0 <= y < row,
                sx - 1 <= ix < ex,
                below_row(src, ey as int, y as int, ix as int, sx as int) == below_row(
                    src,
                    ey as int,
                    y as int,
                    ex - 1,
                    sx as int,
                ),
                below_hit(src, sx as int, ex as int, ey as int, y as int, row as int) == below_hit(
                    src,
                    sx as int,
                    ex as int,
                    ey as int,
                    0,
                    row as int,
                ),
                below_row(src, ey as int, y as int, ex - 1, sx as int) is Some,
            ensures
                *source == src,
                below_row(src, ey as int, y as int, ex - 1, sx as int) == Some(false),
            decreases ix - sx + 1,
        {
            if ix < 0 || ix > source.cols || ey + y > source.rows {
                break;
            }
            proof {
                let r = ey + y;
                assert(0 <= r * src.cols <= lin(ix as int, r, src.cols as int)) by (nonlinear_arith)
                    requires 0 <= ix, 0 <= r, 0 <= src.cols;
            }
            if source.at(ix, ey + y) == 255 {
                return true;
            }
            ix -= 1;
        }
        y += 1;
    }
    false
}


// ---------------------------------------------------------------------------------------
// The whole growth: sweep, then look above, right and below, and start over as long as one
// of them moved an edge.
// ---------------------------------------------------------------------------------------

/// The final top edge, right edge and bottom edge of the region that grows from the box
/// `[sx, ex) x [sy, ey)`; `None` where the cut reads past the end of the image.
pub open spec fn grow(src: Tu8uc1, sx: int, sy: int, ex: int, ey: int, row: int, column: int) -> Option<
    (int, int, int),
>
    decreases sy + (src.cols + 1 - ex) + (src.rows + 1 - ey),
    when sy >= 0 && ex <= src.cols + 1 && ey <= src.rows + 1
{
    let (ex2, ey2) = sweep(src, ex, ey, row, column);
    proof {
        lemma_sweep(src, ex, ey, row, column);
        lemma_above_hit(src, sx, sy, ex2, 0, row, column);
        lemma_right_hit(src, sy, ex2, ey2, 0, column);
        lemma_below_hit(src, sx, ex2, ey2, 0, row);
    }
    if above_hit(src, sx, sy, ex2, 0, row, column) {
        grow(src, sx, sy - 1, ex2, ey2, row, column)
    } else {
        match right_hit(src, sy, ex2, ey2, 0, column) {
            None => None,
            Some(true) => grow(src, sx, sy, ex2 + 1, ey2, row, column),
            Some(false) => match below_hit(src, sx, ex2, ey2, 0, row) {
                None => None,
                Some(true) => grow(src, sx, sy, ex2, ey2 + 1, row, column),
                Some(false) => Some((sy, ex2, ey2)),
            },
        }
    }
}

pub proof fn lemma_grow(src: Tu8uc1, sx: int, sy: int, ex: int, ey: int, row: int, column: int)
    requires
        0 <= sy < ey <= src.rows + 1,
        sx < ex <= src.cols + 1,
        grow(src, sx, sy, ex, ey, row, column) is Some,
    ensures
        ({
            let (sy2, ex2, ey2) = grow(src, sx, sy, ex, ey, row, column)->0;
            &&& 0 <= sy2 <= sy
            &&& ex <= ex2 <= src.cols + 1
            &&& ey <= ey2 <= src.rows + 1
        }),
    decreases sy + (src.cols + 1 - ex) + (src.rows + 1 - ey),
{
    let (ex2, ey2) = sweep(src, ex, ey, row, column);
    lemma_sweep(src, ex, ey, row, column);
    lemma_above_hit(src, sx, sy, ex2, 0, row, column);
    lemma_right_hit(src, sy, ex2, ey2, 0, column);
    lemma_below_hit(src, sx, ex2, ey2, 0, row);
    if above_hit(src, sx, sy, ex2, 0, row, column) {
        lemma_grow(src, sx, sy - 1, ex2, ey2, row, column);
    } else if right_hit(src, sy, ex2, ey2, 0, column) == Some(true) {
        lemma_grow(src, sx, sy, ex2 + 1, ey2, row, column);
    } else if below_hit(src, sx, ex2, ey2, 0, row) == Some(true) {
        lemma_grow(src, sx, sy, ex2, ey2 + 1, row, column);
    }
}

/// Grows the region from the box `[sx, ex) x [sy, ey)`.
pub(crate) fn grow_exec(source: &mut Tu8uc1, sx: i32, sy: i32, ex: i32, ey: i32, row: i32, column: i32) -> (r: (
    i32,
    i32,
    i32,
))
    requires
        aisle_bounds(*old(source), row as int, column as int),
        0 <= sx < ex <= old(source).cols + 1,
        0 <= sy < old(source).rows,
        sy < ey <= old(source).rows + 1,
        grow(*old(source), sx as int, sy as int, ex as int, ey as int, row as int, column as int) is Some,
    ensures
        *final(source) == *old(source),
        Some((r.0 as int, r.1 as int, r.2 as int)) == grow(
            *old(source),
            sx as int,
            sy as int,
            ex as int,
            ey as int,
            row as int,
            column as int,
        ),
{
    let ghost src = *source;
    let ghost goal = grow(src, sx as int, sy as int, ex as int, ey as int, row as int, column as int);
    let mut start_y = sy;
    let mut end_x = ex;
    let mut end_y = ey;
    loop
        invariant_except_break
            grow(src, sx as int, start_y as int, end_x as int, end_y as int, row as int, column as int)
                == goal,
        invariant
            *source == src,
            src == *old(source),
            aisle_bounds(src, row as int, column as int),
            0 <= sx < end_x <= src.cols + 1,
            0 <= start_y < src.rows,
            start_y < end_y <= src.rows + 1,
            goal is Some,
        ensures
            *source == src,
            Some((start_y as int, end_x as int, end_y as int)) == goal,
        decreases start_y + (src.cols + 1 - end_x) + (src.rows + 1 - end_y),
    {
        proof {
            lemma_sweep(src, end_x as int, end_y as int, row as int, column as int);
        }
        let (ex2, ey2) = sweep_exec(source, end_x, end_y, row, column);
        proof {
            lemma_above_hit(src, sx as int, start_y as int, ex2 as int, 0, row as int, column as int);
            lemma_right_hit(src, start_y as int, ex2 as int, ey2 as int, 0, column as int);
            lemma_below_hit(src, sx as int, ex2 as int, ey2 as int, 0, row as int);
        }
        end_x = ex2;
        end_y = ey2;
        if above_exec(source, sx, start_y, end_x, row, column) {
            start_y = start_y - 1;
        } else if right_exec(source, start_y, end_x, end_y, column) {
            end_x = end_x + 1;
        } else if below_exec(source, sx, end_x, end_y, row) {
            end_y = end_y + 1;
        } else {
            break;
        }
    }
    (start_y, end_x, end_y)
}


// ---------------------------------------------------------------------------------------
// Cutting the region out: its bitmap, and the marks that keep its white pixels from
// seeding another region.
// ---------------------------------------------------------------------------------------

/// Row `y` of the region's bitmap: 255 where the image is white, 0 elsewhere.
pub open spec fn crop_row(src: Tu8uc1, sx: int, ex: int, y: int) -> Seq<u8> {
    Seq::new((ex - sx) as nat, |j: int| if white(src, sx + j, y) { 255u8 } else { 0u8 })
}

/// The bitmap of rows `sy..ey` of the region, row after row.
pub open spec fn crop(src: Tu8uc1, sx: int, ex: int, sy: int, ey: int) -> Seq<u8>
    decreases ey - sy,
{
    if ey <= sy {
        Seq::empty()
    } else {
        crop(src, sx, ex, sy, ey - 1) + crop_row(src, sx, ex, ey - 1)
    }
}

pub proof fn lemma_crop_len(src: Tu8uc1, sx: int, ex: int, sy: int, ey: int)
    requires
        sx <= ex,
        sy <= ey,
    ensures
        crop(src, sx, ex, sy, ey).len() == (ey - sy) * (ex - sx),
    decreases ey - sy,
{
    if ey > sy {
        lemma_crop_len(src, sx, ex, sy, ey - 1);
        assert(crop(src, sx, ex, sy, ey) == crop(src, sx, ex, sy, ey - 1) + crop_row(src, sx, ex, ey - 1));
        assert(crop_row(src, sx, ex, ey - 1).len() == ex - sx);
        assert((ey - 1 - sy) * (ex - sx) + (ex - sx) == (ey - sy) * (ex - sx)) by (nonlinear_arith);
    } else {
        assert((ey - sy) * (ex - sx) == 0) by (nonlinear_arith)
            requires ey == sy;
    }
}

/// Whether the linear index `i` lies in one of the rows `sy..ey` of the region, reading each
/// row from column `sx` up to column `ex` by linear index.
pub open spec fn in_rows(i: int, sx: int, ex: int, sy: int, ey: int, cols: int) -> bool {
    exists|b: int| sy <= b < ey && #[trigger] lin(sx, b, cols) <= i < lin(ex, b, cols)
}

/// The marks after cutting out the region `[sx, ex) x [sy, ey)`: its white pixels become 1.
pub open spec fn mark(sign: Seq<u8>, src: Tu8uc1, sx: int, sy: int, ex: int, ey: int) -> Seq<u8> {
    Seq::new(
        sign.len(),
        |i: int|
            if src.buffer@[i] == 255 && in_rows(i, sx, ex, sy, ey, src.cols as int) {
                1u8
            } else {
                sign[i]
            },
    )
}

/// The marks part way through the cut: rows `sy..y` done, and row `y` up to column `x`.
pub open spec fn mark_upto(sign: Seq<u8>, src: Tu8uc1, sx: int, sy: int, ex: int, y: int, x: int) -> Seq<
    u8,
> {
    Seq::new(
        sign.len(),
        |i: int|
            if src.buffer@[i] == 255 && (in_rows(i, sx, ex, sy, y, src.cols as int) || (lin(
                sx,
                y,
                src.cols as int,
            ) <= i < lin(x, y, src.cols as int))) {
                1u8
            } else {
                sign[i]
            },
    )
}

/// The range that the cut produces.
pub open spec fn is_aisle_range(r: InciseRange, src: Tu8uc1, sx: int, sy: int, ex: int, ey: int) -> bool {
    &&& r.x == sx
    &&& r.y == sy
    &&& r.cols == ex - sx
    &&& r.rows == ey - sy
    &&& r.min_x == sx
    &&& r.min_y == sy
    &&& r.max_x == ex - 1
    &&& r.max_y == ey - 1
    &&& r.positions@.len() == 0
    &&& r.source.buffer@ == crop(src, sx, ex, sy, ey)
    &&& r.source.cols == ex - sx
    &&& r.source.rows == ey - sy
    &&& r.source.fill_value == 0
    &&& r.is_empty_source
}

/// Cuts the region `[sx, ex) x [sy, ey)` out of `source` and marks its white pixels.
pub(crate) fn crop_exec(source: &mut Tu8uc1, sign: &mut Tu8uc1, sx: i32, sy: i32, ex: i32, ey: i32) -> (r:
    InciseRange)
    requires
        image_bounds(*old(source)),
        old(sign).buffer@.len() == old(source).buffer@.len(),
        old(sign).cols == old(source).cols,
        0 <= sx < ex <= old(source).cols + 1,
        0 <= sy < ey,
        inside(*old(source), ex - 1, ey - 1),
    ensures
        *final(source) == *old(source),
        final(sign).buffer@ == mark(old(sign).buffer@, *old(source), sx as int, sy as int, ex as int, ey as int),
        final(sign).cols == old(sign).cols,
        final(sign).rows == old(sign).rows,
        final(sign).fill_value == old(sign).fill_value,
        is_aisle_range(r, *old(source), sx as int, sy as int, ex as int, ey as int),
{
    let ghost src = *source;
    let ghost sign0 = sign.buffer@;
    let ghost cc = src.cols as int;
    let cols = ex - sx;
    let rows = ey - sy;
    proof {
        assert(src.cols >= 1) by (nonlinear_arith)
            requires 0 <= (ey - 1) * src.cols + ex - 1 < src.rows * src.cols, ex >= 1, ey >= 1, src.rows >= 0, src.cols >= 0;
        assert(ey <= src.rows) by (nonlinear_arith)
            requires 0 <= (ey - 1) * src.cols + ex - 1 < src.rows * src.cols, ex >= 1, src.cols >= 1;
        assert(cols * rows <= (src.cols + 1) * src.rows) by (nonlinear_arith)
            requires 0 <= cols <= src.cols + 1, 0 <= rows <= src.rows;
        assert((src.cols + 1) * src.rows == src.rows * src.cols + src.rows) by (nonlinear_arith);
        assert(src.rows <= src.rows * src.cols) by (nonlinear_arith)
            requires src.cols >= 1, src.rows >= 0;
    }
    let mut buffer: Vec<u8> = vec![0; cols as usize * rows as usize];
    let mut buffer_idx: usize = 0;
    let mut y = sy;
    proof {
        assert(sign.buffer@ =~= mark_upto(sign0, src, sx as int, sy as int, ex as int, sy as int, sx as int));
        assert(buffer@.subrange(0, 0) =~= crop(src, sx as int, ex as int, sy as int, sy as int));
    }
    while y < ey
        invariant
            *source == src,
            src == *old(source),
            sign0 == old(sign).buffer@,
            image_bounds(src),
            cc == src.cols,
            src.cols >= 1,
            sign.buffer@.len() == src.buffer@.len(),
            sign.cols == src.cols,
            sign.rows == old(sign).rows,
            sign.fill_value == old(sign).fill_value,
            0 <= sx < ex <= src.cols + 1,
            cols == ex - sx,
            rows == ey - sy,
            0 <= sy <= y <= ey,
            inside(src, ex - 1, ey - 1),
            buffer@.len() == cols * rows,
            cols * rows <= usize::MAX,
            buffer_idx == (y - sy) * cols,
            buffer@.subrange(0, buffer_idx as int) == crop(src, sx as int, ex as int, sy as int, y as int),
            forall|k: int| buffer_idx <= k < buffer@.len() ==> #[trigger] buffer@[k] == 0,
            sign.buffer@ == mark_upto(sign0, src, sx as int, sy as int, ex as int, y as int, sx as int),
        decreases ey - y,
    {
        let mut x = sx;
        let ghost idx0 = buffer_idx as int;
        proof {
            assert(buffer_idx + cols <= cols * rows) by (nonlinear_arith)
                requires buffer_idx == (y - sy) * cols, y < ey, rows == ey - sy, cols >= 0;
        }
        while x < ex
            invariant
                *source == src,
                src == *old(source),
                sign0 == old(sign).buffer@,
                image_bounds(src),
                cc == src.cols,
                src.cols >= 1,
                sign.buffer@.len() == src.buffer@.len(),
                sign.cols == src.cols,
                sign.rows == old(sign).rows,
                sign.fill_value == old(sign).fill_value,
                0 <= sx <= x <= ex <= src.cols + 1,
                cols == ex - sx,
                rows == ey - sy,
                0 <= sy <= y < ey,
                inside(src, ex - 1, ey - 1),
                buffer@.len() == cols * rows,
                cols * rows <= usize::MAX,
                idx0 == (y - sy) * cols,
                idx0 + cols <= cols * rows,
                buffer_idx == idx0 + (x - sx),
                buffer@.subrange(0, buffer_idx as int) == crop(src, sx as int, ex as int, sy as int, y as int)
                    + crop_row(src, sx as int, ex as int, y as int).take(x - sx),
                forall|k: int| buffer_idx <= k < buffer@.len() ==> #[trigger] buffer@[k] == 0,
                sign.buffer@ == mark_upto(sign0, src, sx as int, sy as int, ex as int, y as int, x as int),
            decreases ex - x,
        {
            proof {
                assert(y * cc <= (ey - 1) * cc) by (nonlinear_arith)
                    requires y <= ey - 1, cc >= 0;
                assert(0 <= y * cc) by (nonlinear_arith)
                    requires y >= 0, cc >= 0;
            }
            let ghost before = buffer@;
            let ghost sign_before = sign.buffer@;
            let v = source.at(x, y);
            if v == 255 {
                sign.set(x, y, 1);
                buffer.set(buffer_idx, 255);
            }
            proof {
                let row_seq = crop_row(src, sx as int, ex as int, y as int);
                assert(row_seq.take(x + 1 - sx) =~= row_seq.take(x - sx).push(row_seq[x - sx]));
                assert(buffer@.subrange(0, buffer_idx + 1) =~= before.subrange(0, buffer_idx as int).push(
                    if v == 255 { 255u8 } else { 0u8 },
                ));
                assert(sign.buffer@ =~= mark_upto(sign0, src, sx as int, sy as int, ex as int, y as int, x + 1));
            }
            buffer_idx += 1;
            x += 1;
        }
        proof {
            let row_seq = crop_row(src, sx as int, ex as int, y as int);
            assert(row_seq.take(ex - sx) =~= row_seq);
            assert(buffer_idx == (y + 1 - sy) * cols) by (nonlinear_arith)
                requires buffer_idx == idx0 + cols, idx0 == (y - sy) * cols;
            assert forall|i: int| (in_rows(i, sx as int, ex as int, sy as int, y as int, cc) || (lin(
                sx as int,
                y as int,
                cc,
            ) <= i < lin(ex as int, y as int, cc))) == in_rows(i, sx as int, ex as int, sy as int, y + 1, cc) by {
                if lin(sx as int, y as int, cc) <= i < lin(ex as int, y as int, cc) {
                    assert(sy <= y < y + 1);
                }
                if in_rows(i, sx as int, ex as int, sy as int, y + 1, cc) {
                    let b = choose|b: int| sy <= b < y + 1 && #[trigger] lin(sx as int, b, cc) <= i < lin(ex as int, b, cc);
                    if b < y {
                        assert(in_rows(i, sx as int, ex as int, sy as int, y as int, cc));
                    }
                }
            }
            assert(sign.buffer@ =~= mark_upto(sign0, src, sx as int, sy as int, ex as int, y + 1, sx as int));
        }
        y += 1;
    }
    proof {
        lemma_crop_len(src, sx as int, ex as int, sy as int, ey as int);
        assert(buffer_idx == cols * rows) by (nonlinear_arith)
            requires buffer_idx == (y - sy) * cols, y == ey, rows == ey - sy;
        assert(buffer@ =~= buffer@.subrange(0, buffer_idx as int));
        assert forall|i: int| (in_rows(i, sx as int, ex as int, sy as int, ey as int, cc) || (lin(
            sx as int,
            ey as int,
            cc,
        ) <= i < lin(sx as int, ey as int, cc))) == in_rows(i, sx as int, ex as int, sy as int, ey as int, cc) by {}
        assert(sign.buffer@ =~= mark(sign0, src, sx as int, sy as int, ex as int, ey as int));
    }
    InciseRange {
        x: sx,
        y: sy,
        cols,
        rows,
        min_x: sx,
        min_y: sy,
        max_x: ex - 1,
        max_y: ey - 1,
        positions: Vec::new(),
        source: Tu8uc1 { buffer, cols, rows, fill_value: 0 },
        is_empty_source: true,
    }
}


// ---------------------------------------------------------------------------------------
// The scan: column after column, top to bottom, every white pixel that no earlier region
// marked seeds a region.
// ---------------------------------------------------------------------------------------

/// The scan of column `w` from row `h` on: the marks afterwards and the regions found, each
/// as (left column, top row, end column, end row) with both ends exclusive; `None` where the
/// cut reads past the end of the image.
pub open spec fn scan_col(src: Tu8uc1, sign: Seq<u8>, w: int, h: int, row: int, column: int) -> Option<
    (Seq<u8>, Seq<(int, int, int, int)>),
>
    decreases src.rows - h,
{
    if h >= src.rows {
        Some((sign, Seq::empty()))
    } else if sign[lin(w, h, src.cols as int)] == 0 && white(src, w, h) {
        match grow(src, w, h, w + 1, h + 1, row, column) {
            None => None,
            Some((sy, ex, ey)) => if !inside(src, ex - 1, ey - 1) {
                None
            } else {
                match scan_col(src, mark(sign, src, w, sy, ex, ey), w, h + 1, row, column) {
                    None => None,
                    Some((s2, bs)) => Some((s2, seq![(w, sy, ex, ey)] + bs)),
                }
            },
        }
    } else {
        scan_col(src, sign, w, h + 1, row, column)
    }
}

/// The marks after the scan of column `w` from row `h` on.
pub open spec fn col_marks(src: Tu8uc1, sign: Seq<u8>, w: int, h: int, row: int, column: int) -> Seq<u8> {
    match scan_col(src, sign, w, h, row, column) {
        Some((m, _)) => m,
        None => sign,
    }
}

/// The regions found by the scan of column `w` from row `h` on.
pub open spec fn col_regions(src: Tu8uc1, sign: Seq<u8>, w: int, h: int, row: int, column: int) -> Seq<
    (int, int, int, int),
> {
    match scan_col(src, sign, w, h, row, column) {
        Some((_, bs)) => bs,
        None => Seq::empty(),
    }
}

/// The scan of the columns `w..` of the image.
pub open spec fn scan(src: Tu8uc1, sign: Seq<u8>, w: int, row: int, column: int) -> Option<
    Seq<(int, int, int, int)>,
>
    decreases src.cols - w,
{
    if w >= src.cols {
        Some(Seq::empty())
    } else {
        match scan_col(src, sign, w, 0, row, column) {
            None => None,
            Some((s2, bs)) => match scan(src, s2, w + 1, row, column) {
                None => None,
                Some(rest) => Some(bs + rest),
            },
        }
    }
}

/// The regions that `incise_scope_aisle` cuts out of `src`, starting from marks that all
/// hold the image's fill value; `None` where the cut reads past the end of the image.
pub open spec fn aisle_regions(src: Tu8uc1, row: int, column: int) -> Option<Seq<(int, int, int, int)>> {
    scan(src, Seq::new(src.buffer@.len(), |i: int| src.fill_value), 0, row, column)
}

/// Whether the box `[sx, ex) x [sy, ey)` is non-empty, starts inside the image, ends at most
/// one column past its right edge and no lower than its last row, and has its last pixel
/// inside the buffer.
pub open spec fn box_in_image(src: Tu8uc1, b: (int, int, int, int)) -> bool {
    &&& 0 <= b.0 < b.2 <= src.cols + 1
    &&& 0 <= b.1 < b.3 <= src.rows
    &&& inside(src, b.2 - 1, b.3 - 1)
}

/// The left column of the box holds a white pixel.
pub open spec fn seeded_box(src: Tu8uc1, b: (int, int, int, int)) -> bool {
    exists|h: int| b.1 <= h < b.3 && #[trigger] white(src, b.0, h)
}

/// Every region that the scan of column `w` finds from row `h` on lies in the image and
/// starts in column `w`.
proof fn lemma_scan_col_inside(src: Tu8uc1, sign: Seq<u8>, w: int, h: int, row: int, column: int)
    requires
        src.wf(),
        0 <= w < src.cols,
        h >= 0,
        scan_col(src, sign, w, h, row, column) is Some,
    ensures
        forall|k: int|
            0 <= k < col_regions(src, sign, w, h, row, column).len() ==> {
                let b = #[trigger] col_regions(src, sign, w, h, row, column)[k];
                box_in_image(src, b) && b.0 == w && seeded_box(src, b) && aisles_free(src, b, row, column)
            },
    decreases src.rows - h,
{
    if h >= src.rows {
        assert(col_regions(src, sign, w, h, row, column).len() == 0);
    } else if sign[lin(w, h, src.cols as int)] == 0 && white(src, w, h) {
        lemma_grow(src, w, h, w + 1, h + 1, row, column);
        let (sy, ex, ey) = grow(src, w, h, w + 1, h + 1, row, column)->0;
        let s2 = mark(sign, src, w, sy, ex, ey);
        lemma_scan_col_inside(src, s2, w, h + 1, row, column);
        let bs = col_regions(src, s2, w, h + 1, row, column);
        assert(col_regions(src, sign, w, h, row, column) == seq![(w, sy, ex, ey)] + bs);
        assert(inside(src, ex - 1, ey - 1));
        assert(ey <= src.rows) by (nonlinear_arith)
            requires
                (ey - 1) * src.cols + (ex - 1) < src.rows * src.cols,
                1 <= ex,
                1 <= ey,
                src.cols > 0,
        {
            if ey > src.rows {
                assert((ey - 1) * src.cols >= src.rows * src.cols);
            }
        }
        assert(box_in_image(src, (w, sy, ex, ey)));
        assert(white(src, w, h));
        assert(seeded_box(src, (w, sy, ex, ey)));
        lemma_grow_free(src, w, h, w + 1, h + 1, row, column);
        assert forall|k: int| 0 <= k < col_regions(src, sign, w, h, row, column).len() implies {
            let b = #[trigger] col_regions(src, sign, w, h, row, column)[k];
            box_in_image(src, b) && b.0 == w && seeded_box(src, b) && aisles_free(src, b, row, column)
        } by {
            if k > 0 {
                assert(col_regions(src, sign, w, h, row, column)[k] == bs[k - 1]);
            }
        }
    } else {
        lemma_scan_col_inside(src, sign, w, h + 1, row, column);
        assert(scan_col(src, sign, w, h, row, column) == scan_col(src, sign, w, h + 1, row, column));
        assert(col_regions(src, sign, w, h, row, column) == col_regions(src, sign, w, h + 1, row, column));
    }
}

/// Every region that the scan of the columns `w..` finds lies in the image.
proof fn lemma_scan_inside(src: Tu8uc1, sign: Seq<u8>, w: int, row: int, column: int)
    requires
        src.wf(),
        w >= 0,
        scan(src, sign, w, row, column) is Some,
    ensures
        forall|k: int|
            0 <= k < scan(src, sign, w, row, column)->0.len() ==> {
                let b = #[trigger] scan(src, sign, w, row, column)->0[k];
                box_in_image(src, b) && b.0 >= w && seeded_box(src, b) && aisles_free(src, b, row, column)
            },
        forall|i: int, j: int|
            0 <= i < j < scan(src, sign, w, row, column)->0.len() ==> (#[trigger] scan(src, sign, w, row, column)->0[i]).0
                <= (#[trigger] scan(src, sign, w, row, column)->0[j]).0,
    decreases src.cols - w,
{
    if w < src.cols {
        let (s2, bs) = scan_col(src, sign, w, 0, row, column)->0;
        lemma_scan_col_inside(src, sign, w, 0, row, column);
        lemma_scan_inside(src, s2, w + 1, row, column);
        let rest = scan(src, s2, w + 1, row, column)->0;
        assert forall|k: int| 0 <= k < (bs + rest).len() implies {
            let b = #[trigger] (bs + rest)[k];
            box_in_image(src, b) && b.0 >= w && seeded_box(src, b) && aisles_free(src, b, row, column) && (k < bs.len() ==> b.0 == w) && (k >= bs.len()
                ==> b.0 >= w + 1)
        } by {
            if k < bs.len() {
                assert(bs[k] == col_regions(src, sign, w, 0, row, column)[k]);
            } else {
                assert((bs + rest)[k] == rest[k - bs.len()]);
            }
        }
        assert forall|i: int, j: int| 0 <= i < j < (bs + rest).len() implies (#[trigger] (bs + rest)[i]).0 <= (#[trigger] (
        bs + rest)[j]).0 by {
            if j >= bs.len() && i >= bs.len() {
                assert((bs + rest)[i] == rest[i - bs.len()]);
                assert((bs + rest)[j] == rest[j - bs.len()]);
            }
        }
    }
}

/// Every region that `incise_scope_aisle` cuts out is a non-empty box that starts inside the
/// image, whose last pixel lies inside the buffer and whose left column holds a white pixel,
/// with no white pixel in the aisles of `row` rows above and below it and `column` columns right
/// of it (`aisles_free`); the regions come column by column, left to right.
pub proof fn law_aisle_regions_inside(src: Tu8uc1, row: int, column: int, k: int)
    requires
        aisle_bounds(src, row, column),
        aisle_regions(src, row, column) is Some,
        0 <= k < aisle_regions(src, row, column)->0.len(),
    ensures
        box_in_image(src, aisle_regions(src, row, column)->0[k]),
        seeded_box(src, aisle_regions(src, row, column)->0[k]),
        aisles_free(src, aisle_regions(src, row, column)->0[k], row, column),
        forall|j: int|
            k < j < aisle_regions(src, row, column)->0.len() ==> aisle_regions(src, row, column)->0[k].0
                <= (#[trigger] aisle_regions(src, row, column)->0[j]).0,
{
    lemma_scan_inside(src, Seq::new(src.buffer@.len(), |i: int| src.fill_value), 0, row, column);
}

/// Every white pixel lies at least `column` columns left of the right edge and `row` rows
/// above the bottom edge.
pub open spec fn aisle_margin(src: Tu8uc1, row: int, column: int) -> bool {
    forall|x: int, y: int|
        0 <= x < src.cols && 0 <= y < src.rows && #[trigger] white(src, x, y) ==> x + column < src.cols && y
            + row < src.rows
}

/// The box `b` lies in columns `wb.0..=wb.2` and rows `wb.1..=wb.3`.
pub open spec fn box_within(b: (int, int, int, int), wb: (int, int, int, int)) -> bool {
    wb.0 <= b.0 && wb.1 <= b.1 && b.2 <= wb.2 + 1 && b.3 <= wb.3 + 1
}

/// Every white pixel lies in columns `lx..=hx` and rows `ly..=hy`.
pub open spec fn white_within(src: Tu8uc1, lx: int, ly: int, hx: int, hy: int) -> bool {
    forall|x: int, y: int|
        0 <= x < src.cols && 0 <= y < src.rows && #[trigger] white(src, x, y) ==> lx <= x <= hx && ly <= y <= hy
}

/// The corner (`ex`, `ey`) keeps the margin: `column` columns and `row` rows of the image
/// lie beyond it.
pub open spec fn corner_kept(src: Tu8uc1, ex: int, ey: int, row: int, column: int) -> bool {
    &&& 1 <= ex
    &&& ex + column <= src.cols
    &&& 1 <= ey
    &&& ey + row <= src.rows
}

proof fn lemma_sweep_y_margin(
    src: Tu8uc1,
    ex: int,
    ey: int,
    unob: bool,
    x: int,
    y: int,
    row: int,
    column: int,
    w: (int, int, int, int),
)
    requires
        aisle_margin(src, row, column),
        corner_kept(src, ex, ey, row, column),
        white_within(src, w.0, w.1, w.2, w.3),
        ex <= w.2 + 1 && ey <= w.3 + 1,
        x >= 0,
        y >= 0,
    ensures
        ({
            let (a, b, u) = sweep_y(src, ex, ey, unob, x, y, row);
            corner_kept(src, a, b, row, column) && a <= w.2 + 1 && b <= w.3 + 1
        }),
    decreases row - y,
{
    if y >= row || ex + x >= src.cols || ey + y >= src.rows {
    } else if white(src, ex, ey) {
        lemma_sweep_y_margin(src, ex + 1, ey + 1, false, x, y + 1, row, column, w);
    } else {
        lemma_sweep_y_margin(src, ex, ey, unob, x, y + 1, row, column, w);
    }
}

proof fn lemma_sweep_x_margin(
    src: Tu8uc1,
    ex: int,
    ey: int,
    unob: bool,
    x: int,
    row: int,
    column: int,
    w: (int, int, int, int),
)
    requires
        aisle_margin(src, row, column),
        corner_kept(src, ex, ey, row, column),
        white_within(src, w.0, w.1, w.2, w.3),
        ex <= w.2 + 1 && ey <= w.3 + 1,
        x >= 0,
    ensures
        ({
            let (a, b, u) = sweep_x(src, ex, ey, unob, x, row, column);
            corner_kept(src, a, b, row, column) && a <= w.2 + 1 && b <= w.3 + 1
        }),
    decreases column - x,
{
    if x < column {
        lemma_sweep_y_margin(src, ex, ey, unob, x, 0, row, column, w);
        let (a, b, u) = sweep_y(src, ex, ey, unob, x, 0, row);
        lemma_sweep_x_margin(src, a, b, u, x + 1, row, column, w);
    }
}

proof fn lemma_sweep_margin(src: Tu8uc1, ex: int, ey: int, row: int, column: int, w: (int, int, int, int))
    requires
        aisle_margin(src, row, column),
        corner_kept(src, ex, ey, row, column),
        white_within(src, w.0, w.1, w.2, w.3),
        ex <= w.2 + 1 && ey <= w.3 + 1,
        row >= 0,
        column >= 0,
    ensures
        ({
            let (a, b) = sweep(src, ex, ey, row, column);
            corner_kept(src, a, b, row, column) && a <= w.2 + 1 && b <= w.3 + 1
        }),
    decreases src.cols + 2 - ex,
{
    lemma_sweep_x(src, ex, ey, true, 0, row, column);
    lemma_sweep_x_margin(src, ex, ey, true, 0, row, column, w);
    let (a, b, u) = sweep_x(src, ex, ey, true, 0, row, column);
    if !u {
        lemma_sweep_margin(src, a, b, row, column, w);
    }
}

/// Under the margin a pixel of the image lies inside the buffer.
proof fn lemma_pixel_inside(src: Tu8uc1, c: int, r: int)
    requires
        src.wf(),
        0 <= c < src.cols,
        0 <= r < src.rows,
    ensures
        inside(src, c, r),
{
    assert(0 <= r * src.cols + c < src.rows * src.cols) by (nonlinear_arith)
        requires 0 <= c < src.cols, 0 <= r < src.rows;
}

proof fn lemma_right_col_margin(
    src: Tu8uc1,
    ex: int,
    ey: int,
    x: int,
    iy: int,
    lo: int,
    row: int,
    column: int,
    w: (int, int, int, int),
)
    requires
        white_within(src, w.0, w.1, w.2, w.3),
        src.wf(),
        aisle_margin(src, row, column),
        corner_kept(src, ex, ey, row, column),
        row >= 0,
        0 <= x < column,
        iy <= ey - 1,
    ensures
        right_col(src, ex, x, iy, lo) is Some,
        right_col(src, ex, x, iy, lo) == Some(true) ==> ex + 1 + column <= src.cols && ex + 1 <= w.2 + 1,
    decreases iy - lo + 1,
{
    if !(iy < lo || iy < 0 || iy > src.rows || ex + x > src.cols) {
        lemma_pixel_inside(src, ex + x, iy);
        if !white(src, ex + x, iy) {
            lemma_right_col_margin(src, ex, ey, x, iy - 1, lo, row, column, w);
        }
    }
}

proof fn lemma_right_hit_margin(
    src: Tu8uc1,
    sy: int,
    ex: int,
    ey: int,
    x: int,
    row: int,
    column: int,
    w: (int, int, int, int),
)
    requires
        white_within(src, w.0, w.1, w.2, w.3),
        src.wf(),
        aisle_margin(src, row, column),
        corner_kept(src, ex, ey, row, column),
        row >= 0,
        x >= 0,
    ensures
        right_hit(src, sy, ex, ey, x, column) is Some,
        right_hit(src, sy, ex, ey, x, column) == Some(true) ==> ex + 1 + column <= src.cols && ex + 1 <= w.2 + 1,
    decreases column - x,
{
    if x < column {
        lemma_right_col_margin(src, ex, ey, x, ey - 1, sy - 1, row, column, w);
        lemma_right_hit_margin(src, sy, ex, ey, x + 1, row, column, w);
    }
}

proof fn lemma_below_row_margin(
    src: Tu8uc1,
    ex: int,
    ey: int,
    y: int,
    ix: int,
    lo: int,
    row: int,
    column: int,
    w: (int, int, int, int),
)
    requires
        white_within(src, w.0, w.1, w.2, w.3),
        src.wf(),
        aisle_margin(src, row, column),
        corner_kept(src, ex, ey, row, column),
        column >= 0,
        0 <= y < row,
        ix <= ex - 1,
    ensures
        below_row(src, ey, y, ix, lo) is Some,
        below_row(src, ey, y, ix, lo) == Some(true) ==> ey + 1 + row <= src.rows && ey + 1 <= w.3 + 1,
    decreases ix - lo + 1,
{
    if !(ix < lo || ix < 0 || ix > src.cols || ey + y > src.rows) {
        lemma_pixel_inside(src, ix, ey + y);
        if !white(src, ix, ey + y) {
            lemma_below_row_margin(src, ex, ey, y, ix - 1, lo, row, column, w);
        }
    }
}

proof fn lemma_below_hit_margin(
    src: Tu8uc1,
    sx: int,
    ex: int,
    ey: int,
    y: int,
    row: int,
    column: int,
    w: (int, int, int, int),
)
    requires
        white_within(src, w.0, w.1, w.2, w.3),
        src.wf(),
        aisle_margin(src, row, column),
        corner_kept(src, ex, ey, row, column),
        column >= 0,
        y >= 0,
    ensures
        below_hit(src, sx, ex, ey, y, row) is Some,
        below_hit(src, sx, ex, ey, y, row) == Some(true) ==> ey + 1 + row <= src.rows && ey + 1 <= w.3 + 1,
    decreases row - y,
{
    if y < row {
        lemma_below_row_margin(src, ex, ey, y, ex - 1, sx, row, column, w);
        lemma_below_hit_margin(src, sx, ex, ey, y + 1, row, column, w);
    }
}

/// A white pixel above the region lies no higher than the top of the white pixels.
proof fn lemma_above_row_within(src: Tu8uc1, sy: int, y: int, ix: int, hi: int, wb: (int, int, int, int))
    requires
        white_within(src, wb.0, wb.1, wb.2, wb.3),
        ix >= 0,
        y >= 0,
        sy <= src.rows,
    ensures
        above_row_hit(src, sy, y, ix, hi) ==> sy - y - 1 >= wb.1,
    decreases hi - ix,
{
    if !(ix >= hi || ix >= src.cols || sy - y - 1 < 0) && !white(src, ix, sy - y - 1) {
        lemma_above_row_within(src, sy, y, ix + 1, hi, wb);
    }
}

proof fn lemma_above_hit_within(
    src: Tu8uc1,
    sx: int,
    sy: int,
    ex: int,
    y: int,
    row: int,
    column: int,
    wb: (int, int, int, int),
)
    requires
        white_within(src, wb.0, wb.1, wb.2, wb.3),
        sx >= 0,
        y >= 0,
        sy <= src.rows,
    ensures
        above_hit(src, sx, sy, ex, y, row, column) ==> sy - 1 >= wb.1,
    decreases row - y,
{
    if y < row {
        lemma_above_row_within(src, sy, y, sx + 1, ex + column, wb);
        lemma_above_hit_within(src, sx, sy, ex, y + 1, row, column, wb);
    }
}

proof fn lemma_grow_margin(
    src: Tu8uc1,
    sx: int,
    sy: int,
    ex: int,
    ey: int,
    row: int,
    column: int,
    wb: (int, int, int, int),
)
    requires
        src.wf(),
        aisle_margin(src, row, column),
        corner_kept(src, ex, ey, row, column),
        white_within(src, wb.0, wb.1, wb.2, wb.3),
        ex <= wb.2 + 1 && ey <= wb.3 + 1 && wb.1 <= sy,
        row >= 0,
        column >= 0,
        0 <= sy < ey,
        0 <= sx < ex,
    ensures
        grow(src, sx, sy, ex, ey, row, column) is Some,
        ({
            let (sy2, ex2, ey2) = grow(src, sx, sy, ex, ey, row, column)->0;
            corner_kept(src, ex2, ey2, row, column) && ex2 <= wb.2 + 1 && ey2 <= wb.3 + 1 && wb.1 <= sy2
        }),
    decreases sy + (src.cols + 1 - ex) + (src.rows + 1 - ey),
{
    let (ex2, ey2) = sweep(src, ex, ey, row, column);
    lemma_sweep(src, ex, ey, row, column);
    lemma_sweep_margin(src, ex, ey, row, column, wb);
    lemma_above_hit(src, sx, sy, ex2, 0, row, column);
    lemma_right_hit(src, sy, ex2, ey2, 0, column);
    lemma_below_hit(src, sx, ex2, ey2, 0, row);
    lemma_right_hit_margin(src, sy, ex2, ey2, 0, row, column, wb);
    lemma_below_hit_margin(src, sx, ex2, ey2, 0, row, column, wb);
    if above_hit(src, sx, sy, ex2, 0, row, column) {
        lemma_above_hit_within(src, sx, sy, ex2, 0, row, column, wb);
        lemma_grow_margin(src, sx, sy - 1, ex2, ey2, row, column, wb);
    } else if right_hit(src, sy, ex2, ey2, 0, column) == Some(true) {
        lemma_grow_margin(src, sx, sy, ex2 + 1, ey2, row, column, wb);
    } else if below_hit(src, sx, ex2, ey2, 0, row) == Some(true) {
        lemma_grow_margin(src, sx, sy, ex2, ey2 + 1, row, column, wb);
    }
}

proof fn lemma_scan_col_margin(
    src: Tu8uc1,
    sign: Seq<u8>,
    w: int,
    h: int,
    row: int,
    column: int,
    wb: (int, int, int, int),
)
    requires
        src.wf(),
        white_within(src, wb.0, wb.1, wb.2, wb.3),
        aisle_margin(src, row, column),
        row >= 0,
        column >= 0,
        0 <= w < src.cols,
        h >= 0,
    ensures
        scan_col(src, sign, w, h, row, column) is Some,
        forall|k: int|
            0 <= k < col_regions(src, sign, w, h, row, column).len() ==> {
                let b = #[trigger] col_regions(src, sign, w, h, row, column)[k];
                b.2 + column <= src.cols && b.3 + row <= src.rows && box_within(b, wb)
            },
    decreases src.rows - h,
{
    if h >= src.rows {
        assert(col_regions(src, sign, w, h, row, column).len() == 0);
    } else if sign[lin(w, h, src.cols as int)] == 0 && white(src, w, h) {
        assert(white(src, w, h));
        lemma_grow_margin(src, w, h, w + 1, h + 1, row, column, wb);
        let (sy, ex, ey) = grow(src, w, h, w + 1, h + 1, row, column)->0;
        lemma_pixel_inside(src, ex - 1, ey - 1);
        let s2 = mark(sign, src, w, sy, ex, ey);
        lemma_scan_col_margin(src, s2, w, h + 1, row, column, wb);
        let bs = col_regions(src, s2, w, h + 1, row, column);
        assert(col_regions(src, sign, w, h, row, column) == seq![(w, sy, ex, ey)] + bs);
        assert forall|k: int| 0 <= k < col_regions(src, sign, w, h, row, column).len() implies {
            let b = #[trigger] col_regions(src, sign, w, h, row, column)[k];
            b.2 + column <= src.cols && b.3 + row <= src.rows && box_within(b, wb)
        } by {
            if k > 0 {
                assert(col_regions(src, sign, w, h, row, column)[k] == bs[k - 1]);
            }
        }
    } else {
        lemma_scan_col_margin(src, sign, w, h + 1, row, column, wb);
        assert(scan_col(src, sign, w, h, row, column) == scan_col(src, sign, w, h + 1, row, column));
        assert(col_regions(src, sign, w, h, row, column) == col_regions(src, sign, w, h + 1, row, column));
    }
}

proof fn lemma_scan_margin(src: Tu8uc1, sign: Seq<u8>, w: int, row: int, column: int, wb: (int, int, int, int))
    requires
        src.wf(),
        white_within(src, wb.0, wb.1, wb.2, wb.3),
        aisle_margin(src, row, column),
        row >= 0,
        column >= 0,
        w >= 0,
    ensures
        scan(src, sign, w, row, column) is Some,
        forall|k: int|
            0 <= k < scan(src, sign, w, row, column)->0.len() ==> {
                let b = #[trigger] scan(src, sign, w, row, column)->0[k];
                b.2 + column <= src.cols && b.3 + row <= src.rows && box_within(b, wb)
            },
    decreases src.cols - w,
{
    if w < src.cols {
        lemma_scan_col_margin(src, sign, w, 0, row, column, wb);
        let (s2, bs) = scan_col(src, sign, w, 0, row, column)->0;
        lemma_scan_margin(src, s2, w + 1, row, column, wb);
        let rest = scan(src, s2, w + 1, row, column)->0;
        assert forall|k: int| 0 <= k < (bs + rest).len() implies {
            let b = #[trigger] (bs + rest)[k];
            b.2 + column <= src.cols && b.3 + row <= src.rows && box_within(b, wb)
        } by {
            if k < bs.len() {
                assert(bs[k] == col_regions(src, sign, w, 0, row, column)[k]);
            } else {
                assert((bs + rest)[k] == rest[k - bs.len()]);
            }
        }
    }
}

/// Where every white pixel keeps `column` columns to the right edge and `row` rows to the
/// bottom edge, the cut reads nothing past the image, and every region it cuts out ends at
/// least `column` columns before the right edge and `row` rows before the bottom edge, inside
/// the columns `lx..=hx` and rows `ly..=hy` that hold the white pixels. On an
/// image of at least two rows and two columns whose pixel count fits an `i32` and that holds
/// a white pixel, the margin also keeps every coordinate of the cut within `aisle_bounds`.
pub proof fn law_margin_keeps_cut_inside(src: Tu8uc1, row: int, column: int, lx: int, ly: int, hx: int, hy: int)
    requires
        src.wf(),
        row >= 0,
        column >= 0,
        aisle_margin(src, row, column),
        white_within(src, lx, ly, hx, hy),
    ensures
        aisle_regions(src, row, column) is Some,
        forall|k: int|
            0 <= k < aisle_regions(src, row, column)->0.len() ==> {
                let b = #[trigger] aisle_regions(src, row, column)->0[k];
                b.2 + column <= src.cols && b.3 + row <= src.rows && box_within(b, (lx, ly, hx, hy))
            },
        (exists|x: int, y: int| 0 <= x < src.cols && 0 <= y < src.rows && #[trigger] white(src, x, y))
            && src.rows >= 2 && src.cols >= 2 && src.rows * src.cols <= i32::MAX ==> aisle_bounds(
            src,
            row,
            column,
        ),
{
    lemma_scan_margin(src, Seq::new(src.buffer@.len(), |i: int| src.fill_value), 0, row, column, (lx, ly, hx, hy));
    if (exists|x: int, y: int| 0 <= x < src.cols && 0 <= y < src.rows && #[trigger] white(src, x, y))
        && src.rows >= 2 && src.cols >= 2 && src.rows * src.cols <= i32::MAX {
        let (x, y) = choose|x: int, y: int| 0 <= x < src.cols && 0 <= y < src.rows && #[trigger] white(src, x, y);
        let (r, c) = (src.rows as int, src.cols as int);
        assert(2 * c <= r * c && 2 * r <= r * c) by (nonlinear_arith)
            requires r >= 2, c >= 2;
    }
}

/// The box `b` holds the pixel with linear index `i`, counting its rows by linear index.
pub open spec fn box_holds(src: Tu8uc1, b: (int, int, int, int), i: int) -> bool {
    in_rows(i, b.0, b.2, b.1, b.3, src.cols as int)
}

/// Some box of `bs` holds the pixel with linear index `i`.
pub open spec fn held_by_some(src: Tu8uc1, bs: Seq<(int, int, int, int)>, i: int) -> bool {
    exists|k: int| 0 <= k < bs.len() && #[trigger] box_holds(src, bs[k], i)
}

proof fn lemma_held_by_some_grows(src: Tu8uc1, a: Seq<(int, int, int, int)>, b: Seq<(int, int, int, int)>, i: int)
    ensures
        held_by_some(src, a, i) ==> held_by_some(src, a + b, i),
        held_by_some(src, b, i) ==> held_by_some(src, a + b, i),
{
    if held_by_some(src, a, i) {
        let k = choose|k: int| 0 <= k < a.len() && #[trigger] box_holds(src, a[k], i);
        assert((a + b)[k] == a[k]);
    }
    if held_by_some(src, b, i) {
        let k = choose|k: int| 0 <= k < b.len() && #[trigger] box_holds(src, b[k], i);
        assert((a + b)[k + a.len()] == b[k]);
    }
}

/// In the scan of column `w` from row `h` on, a pixel marked afterwards was marked before or
/// lies in a region found, and so does every white pixel of the column from row `h` on.
proof fn lemma_scan_col_covers(src: Tu8uc1, sign: Seq<u8>, w: int, h: int, row: int, column: int)
    requires
        src.wf(),
        sign.len() == src.buffer@.len(),
        0 <= w < src.cols,
        h >= 0,
        scan_col(src, sign, w, h, row, column) is Some,
    ensures
        col_marks(src, sign, w, h, row, column).len() == sign.len(),
        forall|i: int|
            0 <= i < sign.len() && #[trigger] col_marks(src, sign, w, h, row, column)[i] != 0 ==> sign[i] != 0
                || held_by_some(src, col_regions(src, sign, w, h, row, column), i),
        forall|y: int|
            h <= y < src.rows && #[trigger] white(src, w, y) ==> sign[lin(w, y, src.cols as int)] != 0
                || held_by_some(src, col_regions(src, sign, w, h, row, column), lin(w, y, src.cols as int)),
    decreases src.rows - h,
{
    let cc = src.cols as int;
    if h >= src.rows {
    } else if sign[lin(w, h, cc)] == 0 && white(src, w, h) {
        lemma_grow(src, w, h, w + 1, h + 1, row, column);
        let (sy, ex, ey) = grow(src, w, h, w + 1, h + 1, row, column)->0;
        let b = (w, sy, ex, ey);
        let s2 = mark(sign, src, w, sy, ex, ey);
        lemma_scan_col_covers(src, s2, w, h + 1, row, column);
        let rest = col_regions(src, s2, w, h + 1, row, column);
        let all = col_regions(src, sign, w, h, row, column);
        assert(all == seq![b] + rest);
        assert(col_marks(src, sign, w, h, row, column) == col_marks(src, s2, w, h + 1, row, column));
        assert(box_holds(src, b, lin(w, h, cc))) by {
            assert(lin(w, h, cc) == h * cc + w);
        }
        assert forall|i: int|
            0 <= i < sign.len() && #[trigger] col_marks(src, sign, w, h, row, column)[i] != 0 implies sign[i] != 0
                || held_by_some(src, all, i) by {
            lemma_held_by_some_grows(src, seq![b], rest, i);
            if s2[i] != 0 && sign[i] == 0 {
                assert(box_holds(src, b, i));
                assert(seq![b][0] == b);
                assert(held_by_some(src, seq![b], i));
            }
        }
        assert forall|y: int|
            h <= y < src.rows && #[trigger] white(src, w, y) implies sign[lin(w, y, cc)] != 0 || held_by_some(
                src,
                all,
                lin(w, y, cc),
            ) by {
            let i = lin(w, y, cc);
            lemma_pixel_inside(src, w, y);
            lemma_held_by_some_grows(src, seq![b], rest, i);
            assert(seq![b][0] == b);
            if y == h {
                assert(held_by_some(src, seq![b], i));
            } else if s2[i] != 0 && sign[i] == 0 {
                assert(box_holds(src, b, i));
                assert(held_by_some(src, seq![b], i));
            }
        }
    } else {
        lemma_scan_col_covers(src, sign, w, h + 1, row, column);
        assert(scan_col(src, sign, w, h, row, column) == scan_col(src, sign, w, h + 1, row, column));
        assert(col_regions(src, sign, w, h, row, column) == col_regions(src, sign, w, h + 1, row, column));
        assert(col_marks(src, sign, w, h, row, column) == col_marks(src, sign, w, h + 1, row, column));
    }
}

/// In the scan of the columns `w..`, every white pixel of those columns was marked before or
/// lies in a region found.
proof fn lemma_scan_covers(src: Tu8uc1, sign: Seq<u8>, w: int, row: int, column: int)
    requires
        src.wf(),
        sign.len() == src.buffer@.len(),
        w >= 0,
        scan(src, sign, w, row, column) is Some,
    ensures
        forall|x: int, y: int|
            w <= x < src.cols && 0 <= y < src.rows && #[trigger] white(src, x, y) ==> sign[lin(x, y, src.cols as int)]
                != 0 || held_by_some(src, scan(src, sign, w, row, column)->0, lin(x, y, src.cols as int)),
    decreases src.cols - w,
{
    if w < src.cols {
        let cc = src.cols as int;
        lemma_scan_col_covers(src, sign, w, 0, row, column);
        let (s2, bs) = scan_col(src, sign, w, 0, row, column)->0;
        lemma_scan_covers(src, s2, w + 1, row, column);
        let rest = scan(src, s2, w + 1, row, column)->0;
        assert(scan(src, sign, w, row, column)->0 == bs + rest);
        assert forall|x: int, y: int|
            w <= x < src.cols && 0 <= y < src.rows && #[trigger] white(src, x, y) implies sign[lin(x, y, cc)] != 0
                || held_by_some(src, bs + rest, lin(x, y, cc)) by {
            let i = lin(x, y, cc);
            lemma_held_by_some_grows(src, bs, rest, i);
            assert(0 <= i < sign.len()) by {
                lemma_pixel_inside(src, x, y);
            }
            if x > w {
                if s2[i] != 0 {
                    assert(col_marks(src, sign, w, 0, row, column)[i] != 0);
                }
            }
        }
    }
}

/// Every white pixel lies in a region that `incise_scope_aisle` cuts out, counting the rows of
/// a region by linear index.
pub proof fn law_aisle_regions_cover_white(src: Tu8uc1, row: int, column: int, x: int, y: int)
    requires
        src.wf(),
        src.fill_value == 0,
        aisle_regions(src, row, column) is Some,
        0 <= x < src.cols,
        0 <= y < src.rows,
        white(src, x, y),
    ensures
        held_by_some(src, aisle_regions(src, row, column)->0, lin(x, y, src.cols as int)),
{
    let sign = Seq::new(src.buffer@.len(), |i: int| src.fill_value);
    lemma_scan_covers(src, sign, 0, row, column);
    lemma_pixel_inside(src, x, y);
}

/// No white pixel of the image lies in the aisles around the box `b`: the `row` rows above it
/// (from one column right of its left edge to `column` columns past its right edge), the
/// `column` columns right of it (from one row above its top to its bottom), and the `row`
/// rows below it (under its columns); nor, where there are aisles at all, at the pixel
/// diagonally past its bottom-right corner.
pub open spec fn aisles_free(src: Tu8uc1, b: (int, int, int, int), row: int, column: int) -> bool {
    forall|px: int, py: int|
        0 <= px < src.cols && 0 <= py < src.rows && #[trigger] white(src, px, py) ==> {
            &&& !(b.0 + 1 <= px < b.2 + column && b.1 - row <= py < b.1)
            &&& !(b.2 <= px < b.2 + column && b.1 - 1 <= py < b.3)
            &&& !(b.0 <= px < b.2 && b.3 <= py < b.3 + row)
            &&& !(row >= 1 && column >= 1 && px == b.2 && py == b.3)
        }
}

proof fn lemma_above_row_clear(src: Tu8uc1, sy: int, y: int, ix: int, hi: int)
    requires
        !above_row_hit(src, sy, y, ix, hi),
    ensures
        forall|px: int|
            ix <= px < hi && 0 <= px < src.cols && sy - y - 1 >= 0 ==> !#[trigger] white(src, px, sy - y - 1),
    decreases hi - ix,
{
    if !(ix >= hi || ix >= src.cols || sy - y - 1 < 0) {
        lemma_above_row_clear(src, sy, y, ix + 1, hi);
    }
}

proof fn lemma_above_clear(src: Tu8uc1, sx: int, sy: int, ex: int, y: int, row: int, column: int)
    requires
        !above_hit(src, sx, sy, ex, y, row, column),
    ensures
        forall|px: int, py: int|
            sx + 1 <= px < ex + column && 0 <= px < src.cols && sy - row <= py < sy - y && 0 <= py
                ==> !#[trigger] white(src, px, py),
    decreases row - y,
{
    if y < row {
        lemma_above_row_clear(src, sy, y, sx + 1, ex + column);
        lemma_above_clear(src, sx, sy, ex, y + 1, row, column);
        assert forall|px: int, py: int|
            sx + 1 <= px < ex + column && 0 <= px < src.cols && sy - row <= py < sy - y && 0 <= py
                implies !#[trigger] white(src, px, py) by {
            if py == sy - y - 1 {
            }
        }
    }
}

proof fn lemma_right_col_clear(src: Tu8uc1, ex: int, x: int, iy: int, lo: int)
    requires
        right_col(src, ex, x, iy, lo) == Some(false),
        iy <= src.rows,
    ensures
        forall|py: int|
            lo <= py <= iy && 0 <= py < src.rows && 0 <= ex + x < src.cols ==> !#[trigger] white(src, ex + x, py),
    decreases iy - lo + 1,
{
    if !(iy < lo || iy < 0 || iy > src.rows || ex + x > src.cols) && inside(src, ex + x, iy) && !white(
        src,
        ex + x,
        iy,
    ) {
        lemma_right_col_clear(src, ex, x, iy - 1, lo);
    }
}

proof fn lemma_right_clear(src: Tu8uc1, sy: int, ex: int, ey: int, x: int, column: int)
    requires
        right_hit(src, sy, ex, ey, x, column) == Some(false),
        ey <= src.rows + 1,
    ensures
        forall|px: int, py: int|
            ex + x <= px < ex + column && 0 <= px < src.cols && sy - 1 <= py < ey && 0 <= py < src.rows
                ==> !#[trigger] white(src, px, py),
    decreases column - x,
{
    if x < column {
        lemma_right_col_clear(src, ex, x, ey - 1, sy - 1);
        lemma_right_clear(src, sy, ex, ey, x + 1, column);
        assert forall|px: int, py: int|
            ex + x <= px < ex + column && 0 <= px < src.cols && sy - 1 <= py < ey && 0 <= py < src.rows
                implies !#[trigger] white(src, px, py) by {
            if px == ex + x {
                assert(!white(src, ex + x, py));
            }
        }
    }
}

proof fn lemma_below_row_clear(src: Tu8uc1, ey: int, y: int, ix: int, lo: int)
    requires
        below_row(src, ey, y, ix, lo) == Some(false),
        ix <= src.cols,
    ensures
        forall|px: int|
            lo <= px <= ix && 0 <= px < src.cols && 0 <= ey + y < src.rows ==> !#[trigger] white(src, px, ey + y),
    decreases ix - lo + 1,
{
    if !(ix < lo || ix < 0 || ix > src.cols || ey + y > src.rows) && inside(src, ix, ey + y) && !white(
        src,
        ix,
        ey + y,
    ) {
        lemma_below_row_clear(src, ey, y, ix - 1, lo);
    }
}

proof fn lemma_below_clear(src: Tu8uc1, sx: int, ex: int, ey: int, y: int, row: int)
    requires
        below_hit(src, sx, ex, ey, y, row) == Some(false),
        ex <= src.cols + 1,
    ensures
        forall|px: int, py: int|
            sx <= px < ex && 0 <= px < src.cols && ey + y <= py < ey + row && 0 <= py < src.rows
                ==> !#[trigger] white(src, px, py),
    decreases row - y,
{
    if y < row {
        lemma_below_row_clear(src, ey, y, ex - 1, sx);
        lemma_below_clear(src, sx, ex, ey, y + 1, row);
        assert forall|px: int, py: int|
            sx <= px < ex && 0 <= px < src.cols && ey + y <= py < ey + row && 0 <= py < src.rows
                implies !#[trigger] white(src, px, py) by {
            if py == ey + y {
                assert(!white(src, px, ey + y));
            }
        }
    }
}

/// The region that the growth settles on has free aisles around it.
proof fn lemma_grow_free(src: Tu8uc1, sx: int, sy: int, ex: int, ey: int, row: int, column: int)
    requires
        0 <= sy < ey <= src.rows + 1,
        sx < ex <= src.cols + 1,
        grow(src, sx, sy, ex, ey, row, column) is Some,
    ensures
        ({
            let (sy2, ex2, ey2) = grow(src, sx, sy, ex, ey, row, column)->0;
            aisles_free(src, (sx, sy2, ex2, ey2), row, column)
        }),
    decreases sy + (src.cols + 1 - ex) + (src.rows + 1 - ey),
{
    let (ex2, ey2) = sweep(src, ex, ey, row, column);
    lemma_sweep(src, ex, ey, row, column);
    lemma_above_hit(src, sx, sy, ex2, 0, row, column);
    lemma_right_hit(src, sy, ex2, ey2, 0, column);
    lemma_below_hit(src, sx, ex2, ey2, 0, row);
    if above_hit(src, sx, sy, ex2, 0, row, column) {
        lemma_grow_free(src, sx, sy - 1, ex2, ey2, row, column);
    } else if right_hit(src, sy, ex2, ey2, 0, column) == Some(true) {
        lemma_grow_free(src, sx, sy, ex2 + 1, ey2, row, column);
    } else if below_hit(src, sx, ex2, ey2, 0, row) == Some(true) {
        lemma_grow_free(src, sx, sy, ex2, ey2 + 1, row, column);
    } else {
        lemma_sweep_corner(src, ex, ey, row, column);
        lemma_above_clear(src, sx, sy, ex2, 0, row, column);
        lemma_right_clear(src, sy, ex2, ey2, 0, column);
        lemma_below_clear(src, sx, ex2, ey2, 0, row);
        assert(grow(src, sx, sy, ex, ey, row, column) == Some((sy, ex2, ey2)));
    }
}

/// A pass of the sweep that moves nothing found its corner dark.
proof fn lemma_sweep_y_still(src: Tu8uc1, ex: int, ey: int, x: int, y: int, row: int)
    requires
        x >= 0,
        y >= 0,
        sweep_y(src, ex, ey, true, x, y, row).2,
    ensures
        sweep_y(src, ex, ey, true, x, y, row).0 == ex,
        y < row && ex + x < src.cols && ey + y < src.rows ==> !white(src, ex, ey),
    decreases row - y,
{
    if !(y >= row || ex + x >= src.cols || ey + y >= src.rows) {
        if white(src, ex, ey) {
            lemma_sweep_y(src, ex + 1, ey + 1, false, x, y + 1, row);
        } else {
            lemma_sweep_y_still(src, ex, ey, x, y + 1, row);
        }
    }
}

/// The sweep stops at a corner whose diagonal pixel is dark, where there are aisles.
proof fn lemma_sweep_corner(src: Tu8uc1, ex: int, ey: int, row: int, column: int)
    requires
        ex <= src.cols + 1,
        ey <= src.rows + 1,
    ensures
        ({
            let (a, b) = sweep(src, ex, ey, row, column);
            row >= 1 && column >= 1 && 0 <= a < src.cols && 0 <= b < src.rows ==> !white(src, a, b)
        }),
    decreases src.cols + 2 - ex,
{
    lemma_sweep_x(src, ex, ey, true, 0, row, column);
    let (a, b, u) = sweep_x(src, ex, ey, true, 0, row, column);
    if !u {
        lemma_sweep(src, ex, ey, row, column);
        lemma_sweep_corner(src, a, b, row, column);
    } else if row >= 1 && column >= 1 {
        let (a0, b0, u0) = sweep_y(src, ex, ey, true, 0, 0, row);
        lemma_sweep_y(src, ex, ey, true, 0, 0, row);
        lemma_sweep_x(src, a0, b0, u0, 1, row, column);
        assert(u0);
        lemma_sweep_y_still(src, ex, ey, 0, 0, row);
    }
}

} // verus!
