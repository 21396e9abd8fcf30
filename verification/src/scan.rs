use vstd::prelude::*;

verus! {

/// Rows are dithered alternately left to right and right to left, starting
/// left to right on row 0.
pub open spec fn row_reversed(y: int) -> bool {
    y % 2 == 1
}

/// Column of the `xx`-th pixel that row `y` visits.
pub open spec fn scan_column(width: int, y: int, xx: int) -> int {
    if row_reversed(y) {
        width - 1 - xx
    } else {
        xx
    }
}

/// Index, in row-major order, of the `xx`-th pixel that row `y` visits.
pub open spec fn scan_point(width: int, y: int, xx: int) -> int {
    width * y + scan_column(width, y, xx)
}

/// Where one pixel of the serpentine scan lies, and the slots of the error
/// rows (one slot of padding on either side, so slot `x + 1` belongs to
/// column `x`) that its quantization error is spread to.
pub struct ScanStep {
    /// Column of the pixel.
    pub x: usize,
    /// Index of the pixel in row-major order.
    pub point: usize,
    /// Slot of the pixel's column.
    pub here: usize,
    /// Slot of the column behind the pixel in the direction of the row.
    pub behind: usize,
    /// Slot of the column ahead of the pixel in the direction of the row.
    pub ahead: usize,
}

/// The `xx`-th step of row `y` in the serpentine scan of an image `width`
/// pixels wide.
pub fn scan_step(width: usize, y: usize, xx: usize) -> (step: ScanStep)
    requires
        xx < width,
        width + 2 <= usize::MAX,
        width * y + width <= usize::MAX,
    ensures
        step.x as int == scan_column(width as int, y as int, xx as int),
        step.point as int == scan_point(width as int, y as int, xx as int),
        step.here == step.x + 1,
        step.behind == (if row_reversed(y as int) { step.x + 2 } else { step.x as int }),
        step.ahead == (if row_reversed(y as int) { step.x as int } else { step.x + 2 }),
        step.point < width * y + width,
{
    let x_reverse = y % 2 == 1;
    let x = if x_reverse {
        width - 1 - xx
    } else {
        xx
    };
    assert(width * y + x < width * y + width);
    let point = width * y + x;
    let err_ind = x + 1;
    let (behind, ahead) = if x_reverse {
        (err_ind + 1, err_ind - 1)
    } else {
        (err_ind - 1, err_ind + 1)
    };
    ScanStep { x, point, here: err_ind, behind, ahead }
}

/// Within a row the scan visits every column once: two steps of a row land on
/// the same column only if they are the same step, and every column has a step.
pub proof fn lemma_row_scan_is_permutation(width: int, y: int, xx1: int, xx2: int, x: int)
    requires
        0 <= xx1 < width,
        0 <= xx2 < width,
        0 <= x < width,
    ensures
        scan_column(width, y, xx1) == scan_column(width, y, xx2) ==> xx1 == xx2,
        0 <= scan_column(width, y, xx1) < width,
        scan_column(width, y, if row_reversed(y) { width - 1 - x } else { x }) == x,
{
}

/// The error a step pushes ahead lands on the slot of the next pixel that its
/// row visits; the slots behind, here and ahead are those of the columns left
/// of, at and right of the pixel (slot `x + 1` for column `x`), behind and
/// ahead swapping on rows scanned right to left, and all three lie within the
/// error row of `width + 2` slots.
pub proof fn lemma_error_slots(width: int, y: int, xx: int)
    requires
        0 <= xx < width,
    ensures
        0 <= scan_column(width, y, xx) < width,
        ({
            let x = scan_column(width, y, xx);
            let behind = if row_reversed(y) { x + 2 } else { x };
            let here = x + 1;
            let ahead = if row_reversed(y) { x } else { x + 2 };
            &&& 0 <= behind < width + 2
            &&& 0 <= here < width + 2
            &&& 0 <= ahead < width + 2
            &&& behind != here && here != ahead && behind != ahead
            &&& (if row_reversed(y) { ahead } else { behind }) == x
            &&& (if row_reversed(y) { behind } else { ahead }) == x + 2
        }),
        xx + 1 < width ==> (if row_reversed(y) { scan_column(width, y, xx) } else {
            scan_column(width, y, xx) + 2
        }) == scan_column(width, y, xx + 1) + 1,
{
}

/// Over all rows the scan visits every pixel of a `width` by `height` image
/// exactly once: each index below `width * height` is the point of exactly one
/// step, and every step's point is such an index.
pub proof fn lemma_scan_covers_image(width: int, height: int, p: int)
    requires
        width > 0,
        height >= 0,
        0 <= p < width * height,
    ensures
        ({
            let y = p / width;
            let x = p % width;
            let xx = if row_reversed(y) { width - 1 - x } else { x };
            &&& 0 <= y < height
            &&& 0 <= xx < width
            &&& scan_point(width, y, xx) == p
        }),
        forall|y: int, xx: int|
            0 <= y < height && 0 <= xx < width && #[trigger] scan_point(width, y, xx) == p ==> y == p / width
                && xx == (if row_reversed(y) { width - 1 - p % width } else { p % width }),
{
    let y = p / width;
    let x = p % width;
    vstd::arithmetic::div_mod::lemma_fundamental_div_mod(p, width);
    vstd::arithmetic::div_mod::lemma_mod_bound(p, width);
    assert(0 <= y) by {
        vstd::arithmetic::div_mod::lemma_div_pos_is_pos(p, width);
    }
    assert(y < height) by (nonlinear_arith)
        requires
            width > 0,
            p == width * y + x,
            0 <= x,
            p < width * height,
    ;
    assert forall|y2: int, xx2: int|
        0 <= y2 < height && 0 <= xx2 < width && #[trigger] scan_point(width, y2, xx2) == p implies y2 == p / width
            && xx2 == (if row_reversed(y2) { width - 1 - p % width } else { p % width }) by {
        let c = scan_column(width, y2, xx2);
        assert(0 <= c < width);
        assert(width * y2 + c == p);
        vstd::arithmetic::div_mod::lemma_fundamental_div_mod_converse(p, width, y2, c);
    }
}

/// The first row is scanned left to right, and each row runs the other way
/// from the row before it.
pub proof fn lemma_rows_alternate(y: int)
    requires
        y >= 0,
    ensures
        row_reversed(y + 1) == !row_reversed(y),
        !row_reversed(0),
{
}

} // verus!
