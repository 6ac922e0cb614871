//! Points, slopes and the orientation test that the fitter is built on.
use vstd::prelude::*;

verus! {

/// A point of the plane of keys (`x`) and ranks (`y`).
pub struct Point {
    pub x: int,
    pub y: int,
}

/// How a second vector lies relative to a first one.
#[derive(Clone, Copy, Debug, PartialEq, Eq, Structural)]
pub enum Orientation {
    /// Both vectors have the same slope.
    Linear,
    /// The second vector has the smaller slope.
    Clockwise,
    /// The second vector has the greater slope.
    Counterclockwise,
}

/// Largest horizontal extent of a vector handed to [`orient`].
pub const SPAN_X: i128 = 0x100_0000_0000;

/// Largest vertical extent of a vector handed to [`orient`].
pub const SPAN_Y: i128 = 0x1_0000_0000_0000_0000_0000;

/// The signed area `dy1 * dx2 - dy2 * dx1` spanned by two vectors.
pub open spec fn turn(dx1: int, dy1: int, dx2: int, dy2: int) -> int {
    dy1 * dx2 - dy2 * dx1
}

/// The signed area spanned by the vectors from `o` to `a` and from `o` to `b`.
pub open spec fn turn_at(o: Point, a: Point, b: Point) -> int {
    turn(a.x - o.x, a.y - o.y, b.x - o.x, b.y - o.y)
}

/// The orientation that belongs to a signed area.
pub open spec fn orientation_of(area: int) -> Orientation {
    if area > 0 {
        Orientation::Clockwise
    } else if area < 0 {
        Orientation::Counterclockwise
    } else {
        Orientation::Linear
    }
}

/// The product of a vertical and a horizontal extent stays far inside `i128`.
pub proof fn lemma_area_bounded(dy: int, dx: int)
    requires
        -SPAN_X <= dx <= SPAN_X,
        -SPAN_Y <= dy <= SPAN_Y,
    ensures
        -SPAN_X * SPAN_Y <= dy * dx <= SPAN_X * SPAN_Y,
        SPAN_X * SPAN_Y == 0x100_0000_0000_0000_0000_0000_0000_0000,
{
    assert(-SPAN_X * SPAN_Y <= dy * dx <= SPAN_X * SPAN_Y) by (nonlinear_arith)
        requires
            -SPAN_X <= dx <= SPAN_X,
            -SPAN_Y <= dy <= SPAN_Y,
            SPAN_X >= 0,
            SPAN_Y >= 0,
    ;
    assert(SPAN_X * SPAN_Y == 0x100_0000_0000_0000_0000_0000_0000_0000) by (nonlinear_arith)
        requires
            SPAN_X == 0x100_0000_0000,
            SPAN_Y == 0x1_0000_0000_0000_0000_0000,
    ;
}

/// Tells whether the vector `(dx2, dy2)` lies clockwise of `(dx1, dy1)`,
/// counterclockwise of it, or on the same line, by the sign of
/// `dy1 * dx2 - dy2 * dx1`.
pub fn orient(dx1: i128, dy1: i128, dx2: i128, dy2: i128) -> (o: Orientation)
    requires
        -SPAN_X <= dx1 <= SPAN_X,
        -SPAN_X <= dx2 <= SPAN_X,
        -SPAN_Y <= dy1 <= SPAN_Y,
        -SPAN_Y <= dy2 <= SPAN_Y,
    ensures
        o == orientation_of(turn(dx1 as int, dy1 as int, dx2 as int, dy2 as int)),
{
    proof {
        lemma_area_bounded(dy1 as int, dx2 as int);
        lemma_area_bounded(dy2 as int, dx1 as int);
    }
    let e: i128 = dy1 * dx2 - dy2 * dx1;
    if e > 0 {
        Orientation::Clockwise
    } else if e < 0 {
        Orientation::Counterclockwise
    } else {
        Orientation::Linear
    }
}

/// Slopes compare transitively: with positive widths `w1`, `w2`, `w3`, if
/// `h1/w1 <= h2/w2` and `h2/w2 <= h3/w3` then `h1/w1 <= h3/w3`.
pub proof fn lemma_slope_chain(h1: int, w1: int, h2: int, w2: int, h3: int, w3: int)
    requires
        w1 > 0,
        w2 > 0,
        w3 > 0,
        h1 * w2 <= h2 * w1,
        h2 * w3 <= h3 * w2,
    ensures
        h1 * w3 <= h3 * w1,
        (h1 * w2 < h2 * w1 || h2 * w3 < h3 * w2) ==> h1 * w3 < h3 * w1,
{
    assert((h1 * w2) * w3 <= (h2 * w1) * w3) by (nonlinear_arith)
        requires h1 * w2 <= h2 * w1, w3 > 0;
    assert((h2 * w3) * w1 <= (h3 * w2) * w1) by (nonlinear_arith)
        requires h2 * w3 <= h3 * w2, w1 > 0;
    assert((h2 * w1) * w3 == (h2 * w3) * w1) by (nonlinear_arith);
    assert((h1 * w2) * w3 == (h1 * w3) * w2) by (nonlinear_arith);
    assert((h3 * w2) * w1 == (h3 * w1) * w2) by (nonlinear_arith);
    assert((h1 * w3) * w2 <= (h3 * w1) * w2);
    assert(h1 * w3 <= h3 * w1) by (nonlinear_arith)
        requires (h1 * w3) * w2 <= (h3 * w1) * w2, w2 > 0;
    if h1 * w2 < h2 * w1 {
        assert((h1 * w2) * w3 < (h2 * w1) * w3) by (nonlinear_arith)
            requires h1 * w2 < h2 * w1, w3 > 0;
        assert(h1 * w3 < h3 * w1) by (nonlinear_arith)
            requires (h1 * w3) * w2 < (h3 * w1) * w2, w2 > 0;
    }
    if h2 * w3 < h3 * w2 {
        assert((h2 * w3) * w1 < (h3 * w2) * w1) by (nonlinear_arith)
            requires h2 * w3 < h3 * w2, w1 > 0;
        assert(h1 * w3 < h3 * w1) by (nonlinear_arith)
            requires (h1 * w3) * w2 < (h3 * w1) * w2, w2 > 0;
    }
}

} // verus!
