//! The greedy spline fitter as mathematics: its state, one step of it, and
//! the state that a whole sequence of keys leads to.
use vstd::prelude::*;
use crate::geometry::{Point, turn_at};

verus! {

/// The state of the fitter between two keys.
pub struct Fit {
    /// The knots laid down so far.
    pub knots: Seq<Point>,
    /// How many keys were taken in, repeated ones included.
    pub count: int,
    /// How many different keys were taken in.
    pub distinct: int,
    /// The last key taken in, with its rank.
    pub last: Point,
    /// The last different key, with the rank of its first occurrence.
    pub prev_point: Point,
    /// The point that bounds the slope of the open segment from above.
    pub upper: Point,
    /// The point that bounds the slope of the open segment from below.
    pub lower: Point,
}

/// The fitter before any key, for keys that start at `min`.
pub open spec fn fit_start(min: int) -> Fit {
    Fit {
        knots: Seq::empty(),
        count: 0,
        distinct: 0,
        last: Point { x: min, y: 0 },
        prev_point: Point { x: 0, y: 0 },
        upper: Point { x: 0, y: 0 },
        lower: Point { x: 0, y: 0 },
    }
}

/// The highest point that a segment may pass at the key of `p`.
pub open spec fn upper_witness(p: Point, err: int) -> Point {
    Point { x: p.x, y: p.y + err }
}

/// The lowest point that a segment may pass at the key of `p`; no rank is
/// negative, so it never lies below zero.
pub open spec fn lower_witness(p: Point, err: int) -> Point {
    Point { x: p.x, y: if p.y - err < 0 { 0 } else { p.y - err } }
}

/// `p` lies strictly inside the cone that opens at `origin` between the rays
/// through `lower` and `upper`.
pub open spec fn inside_cone(origin: Point, upper: Point, lower: Point, p: Point) -> bool {
    turn_at(origin, upper, p) > 0 && turn_at(origin, lower, p) < 0
}

/// The fitter after the point `p`, whose key differs from the last one taken.
///
/// What happens depends on how many different keys came before. The first
/// point becomes a knot. The second opens the cone. Every later one either
/// lies inside the cone, which it may narrow, or makes the point before it a
/// knot and opens a new cone there.
pub open spec fn fit_point(s: Fit, err: int, p: Point) -> Fit {
    if s.distinct == 0 {
        Fit { knots: s.knots.push(p), distinct: 1, prev_point: p, ..s }
    } else if s.distinct == 1 {
        Fit {
            distinct: 2,
            upper: upper_witness(p, err),
            lower: lower_witness(p, err),
            prev_point: p,
            ..s
        }
    } else {
        let origin = s.knots.last();
        if !inside_cone(origin, s.upper, s.lower, p) {
            Fit {
                knots: s.knots.push(s.prev_point),
                distinct: s.distinct + 1,
                upper: upper_witness(p, err),
                lower: lower_witness(p, err),
                prev_point: p,
                ..s
            }
        } else {
            Fit {
                distinct: s.distinct + 1,
                upper: if turn_at(origin, s.upper, upper_witness(p, err)) > 0 {
                    upper_witness(p, err)
                } else {
                    s.upper
                },
                lower: if turn_at(origin, s.lower, lower_witness(p, err)) < 0 {
                    lower_witness(p, err)
                } else {
                    s.lower
                },
                prev_point: p,
                ..s
            }
        }
    }
}

/// The fitter after the key `x`. The key gets the next rank; a key equal to
/// the one before it changes nothing else.
pub open spec fn fit_push(s: Fit, err: int, x: int) -> Fit {
    let p = Point { x, y: s.count };
    let t = if s.distinct > 0 && x == s.last.x { s } else { fit_point(s, err, p) };
    Fit { count: s.count + 1, last: p, ..t }
}

/// The fitter after all of `keys`, taken in order.
pub open spec fn fit_all(min: int, err: int, keys: Seq<u32>) -> Fit
    decreases keys.len(),
{
    if keys.len() == 0 {
        fit_start(min)
    } else {
        fit_push(fit_all(min, err, keys.drop_last()), err, keys.last() as int)
    }
}

/// The knots of the finished spline: those laid down, and the last key with
/// its rank unless the last knot already stands at that key.
pub open spec fn closed_knots(s: Fit) -> Seq<Point> {
    if s.knots.len() > 0 && s.knots.last().x != s.last.x {
        s.knots.push(s.last)
    } else {
        s.knots
    }
}

/// The keys never decrease.
pub open spec fn sorted(keys: Seq<u32>) -> bool {
    forall|i: int, j: int| 0 <= i <= j < keys.len() ==> keys[i] <= keys[j]
}

/// Every key lies between `min` and `max`.
pub open spec fn within(keys: Seq<u32>, min: int, max: int) -> bool {
    forall|i: int| 0 <= i < keys.len() ==> min <= #[trigger] keys[i] <= max
}

/// Position `i` holds the first occurrence of its key.
pub open spec fn first_at(keys: Seq<u32>, i: int) -> bool {
    0 <= i < keys.len() && (i == 0 || keys[i - 1] < keys[i])
}

/// `p` is a key of `keys` with the rank of its first occurrence.
pub open spec fn is_data_point(keys: Seq<u32>, p: Point) -> bool {
    first_at(keys, p.y) && keys[p.y] == p.x
}

/// Later knots have greater keys and greater ranks.
pub open spec fn increasing(knots: Seq<Point>) -> bool {
    forall|i: int, j: int|
        0 <= i < j < knots.len() ==> (#[trigger] knots[i]).x < (#[trigger] knots[j]).x
            && knots[i].y < knots[j].y
}

/// What holds of the fitter's state after the keys `keys`, whatever they are:
/// the knots are data points in increasing order and start with the first
/// key, the open segment starts at the last knot and ends at the last
/// different key, and the cone's bounds lie over keys of the open segment.
pub open spec fn fit_shape(s: Fit, err: int, keys: Seq<u32>) -> bool {
    &&& s.count == keys.len()
    &&& s.count == 0 ==> s.knots.len() == 0 && s.distinct == 0
    &&& s.count > 0 ==> {
        &&& s.last == Point { x: keys.last() as int, y: s.count - 1 }
        &&& s.knots.len() >= 1
        &&& s.knots[0] == Point { x: keys[0] as int, y: 0 }
        &&& increasing(s.knots)
        &&& forall|t: int| 0 <= t < s.knots.len() ==> is_data_point(keys, #[trigger] s.knots[t])
        &&& 1 <= s.distinct <= s.count
        &&& is_data_point(keys, s.prev_point)
        &&& s.prev_point.x == keys.last()
        &&& s.distinct == 1 ==> s.knots.len() == 1 && s.prev_point == s.knots[0]
        &&& s.distinct >= 2 ==> {
            &&& s.knots.last().x < s.prev_point.x
            &&& s.knots.last().y < s.prev_point.y
            &&& s.knots.last().x < s.upper.x <= s.prev_point.x
            &&& s.knots.last().x < s.lower.x <= s.prev_point.x
            &&& 0 <= s.upper.y <= s.count + err
            &&& 0 <= s.lower.y <= s.count
        }
    }
}

/// One more key keeps the shape of the fitter's state.
pub proof fn lemma_push_keeps_shape(s: Fit, err: int, keys: Seq<u32>, x: u32)
    requires
        fit_shape(s, err, keys),
        sorted(keys),
        0 <= err,
        keys.len() > 0 ==> keys.last() <= x,
    ensures
        fit_shape(fit_push(s, err, x as int), err, keys.push(x)),
        sorted(keys.push(x)),
{
    let after = fit_push(s, err, x as int);
    let more = keys.push(x);
    assert forall|i: int| 0 <= i < keys.len() implies more[i] == keys[i] by {}
    assert forall|i: int| first_at(keys, i) implies first_at(more, i) by {
        assert(more[i] == keys[i]);
        if i > 0 {
            assert(more[i - 1] == keys[i - 1]);
        }
    }
    assert(sorted(more)) by {
        assert forall|i: int, j: int| 0 <= i <= j < more.len() implies more[i] <= more[j] by {
            if j < keys.len() {
                assert(keys[i] <= keys[j]);
            } else if i < keys.len() {
                assert(keys[i] <= keys.last());
            }
        }
    }
    assert(more.last() == x);
    if s.count > 0 {
        assert(more[0] == keys[0]);
        assert forall|t: int| 0 <= t < s.knots.len() implies is_data_point(more, #[trigger] s.knots[t]) by {
            assert(is_data_point(keys, s.knots[t]));
        }
        if x == s.last.x {
            assert(is_data_point(more, s.prev_point));
        } else {
            let p = Point { x: x as int, y: s.count };
            assert(is_data_point(more, p)) by {
                assert(more[s.count - 1] == keys.last());
            }
            assert(is_data_point(more, s.prev_point));
            if s.distinct + 1 >= 3 && !inside_cone(s.knots.last(), s.upper, s.lower, p) {
                let grown = s.knots.push(s.prev_point);
                assert(increasing(grown)) by {
                    assert forall|i: int, j: int| 0 <= i < j < grown.len() implies (#[trigger] grown[i]).x < (#[trigger] grown[j]).x
                        && grown[i].y < grown[j].y by {
                        if j < s.knots.len() {
                            assert(s.knots[i].x < s.knots[j].x);
                        } else if i < s.knots.len() - 1 {
                            assert(s.knots[i].x < s.knots[s.knots.len() - 1].x);
                        }
                    }
                }
                assert forall|t: int| 0 <= t < grown.len() implies is_data_point(more, #[trigger] grown[t]) by {
                    if t < s.knots.len() {
                        assert(grown[t] == s.knots[t]);
                    }
                }
                assert(grown[0] == s.knots[0]);
            }
        }
    } else {
        let p = Point { x: x as int, y: 0 };
        assert(after.knots == s.knots.push(p));
        assert(after.knots[0] == p);
        assert(is_data_point(more, p));
    }
}

} // verus!
