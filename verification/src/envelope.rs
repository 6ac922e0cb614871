//! Why the fitted spline keeps its error: every segment passes each key that
//! it covers no further than the error from the rank of that key's first
//! occurrence.
use vstd::prelude::*;
use crate::geometry::{lemma_slope_chain, turn_at, Point};
use crate::fit::{
    first_at, fit_all, fit_push, fit_shape, inside_cone, is_data_point, lemma_push_keeps_shape,
    lower_witness, sorted, upper_witness, Fit,
};

verus! {

/// At the key `x` the line from `a` to `b` passes no further than `err` from
/// the rank `y`. Both sides are multiplied by the width of the line, which is
/// positive.
pub open spec fn near(a: Point, b: Point, x: int, y: int, err: int) -> bool {
    let run = b.x - a.x;
    let off = (x - a.x) * (b.y - a.y) - (y - a.y) * run;
    -err * run <= off <= err * run
}

/// Every line from `origin` with a slope between those of the rays through
/// `lower` and `upper` passes the key `x` no further than `err` from the rank
/// `y`: the upper ray does not pass above `y + err` there, nor the lower ray
/// below `y - err`.
pub open spec fn cone_admits(origin: Point, upper: Point, lower: Point, x: int, y: int, err: int) -> bool {
    &&& turn_at(origin, upper, Point { x, y: y + err }) <= 0
    &&& turn_at(origin, lower, Point { x, y: y - err }) >= 0
}

/// What the fitter has achieved after the keys `keys`.
///
/// Every segment between two knots is near every key that it covers. The
/// open segment, from the last knot to the last different key, is near every
/// key from that knot on. And the cone admits every key after the last knot.
/// A key counts with the rank of its first occurrence.
pub open spec fn fit_tight(s: Fit, err: int, keys: Seq<u32>) -> bool {
    &&& forall|t: int, i: int|
        #![trigger s.knots[t], first_at(keys, i)]
        0 <= t < s.knots.len() - 1 && first_at(keys, i) && s.knots[t].x <= keys[i] <= s.knots[t
            + 1].x ==> near(s.knots[t], s.knots[t + 1], keys[i] as int, i, err)
    &&& s.distinct >= 2 ==> forall|i: int|
        #[trigger] first_at(keys, i) && s.knots.last().x <= keys[i] ==> near(
            s.knots.last(),
            s.prev_point,
            keys[i] as int,
            i,
            err,
        )
    &&& s.distinct >= 2 ==> forall|i: int|
        #[trigger] first_at(keys, i) && s.knots.last().x < keys[i] ==> cone_admits(
            s.knots.last(),
            s.upper,
            s.lower,
            keys[i] as int,
            i,
            err,
        )
}

/// A line passes through both of its ends.
pub proof fn lemma_near_at_ends(a: Point, b: Point, err: int)
    requires
        a.x < b.x,
        0 <= err,
    ensures
        near(a, b, a.x, a.y, err),
        near(a, b, b.x, b.y, err),
{
    let run = b.x - a.x;
    assert(-err * run <= 0 <= err * run) by (nonlinear_arith)
        requires
            0 <= err,
            0 < run,
    ;
    assert((a.x - a.x) * (b.y - a.y) - (a.y - a.y) * run == 0) by (nonlinear_arith);
    assert((b.x - a.x) * (b.y - a.y) - (b.y - a.y) * run == 0) by (nonlinear_arith)
        requires
            run == b.x - a.x,
    ;
}

/// A cone that opens with the witnesses of `p` admits `p`.
pub proof fn lemma_fresh_cone_admits(origin: Point, p: Point, err: int)
    requires
        origin.x < p.x,
        0 <= err,
    ensures
        cone_admits(origin, upper_witness(p, err), lower_witness(p, err), p.x, p.y, err),
{
    let run = p.x - origin.x;
    let up = p.y + err - origin.y;
    let low = lower_witness(p, err).y - origin.y;
    let bare = p.y - err - origin.y;
    assert(up * run - up * run <= 0);
    assert(low * run - bare * run >= 0) by (nonlinear_arith)
        requires
            low >= bare,
            run > 0,
    ;
}

/// A point strictly inside a cone that admits the key `x` at rank `y` is the
/// end of a line that is near that key.
pub proof fn lemma_inside_is_near(
    origin: Point,
    upper: Point,
    lower: Point,
    p: Point,
    x: int,
    y: int,
    err: int,
)
    requires
        origin.x < upper.x,
        origin.x < lower.x,
        origin.x < p.x,
        origin.x < x,
        cone_admits(origin, upper, lower, x, y, err),
        inside_cone(origin, upper, lower, p),
    ensures
        near(origin, p, x, y, err),
{
    let wp = p.x - origin.x;
    let hp = p.y - origin.y;
    let wi = x - origin.x;
    let wu = upper.x - origin.x;
    let hu = upper.y - origin.y;
    let wl = lower.x - origin.x;
    let hl = lower.y - origin.y;
    let top = y + err - origin.y;
    let bottom = y - err - origin.y;
    // slope to p < slope of the upper ray <= slope to the top of the key
    lemma_slope_chain(hp, wp, hu, wu, top, wi);
    // slope to the bottom of the key <= slope of the lower ray < slope to p
    lemma_slope_chain(bottom, wi, hl, wl, hp, wp);
    assert(top * wp == (y - origin.y) * wp + err * wp) by (nonlinear_arith)
        requires
            top == (y - origin.y) + err,
    ;
    assert(bottom * wp == (y - origin.y) * wp - err * wp) by (nonlinear_arith)
        requires
            bottom == (y - origin.y) - err,
    ;
    assert(wi * hp == hp * wi) by (nonlinear_arith);
    assert(-err * wp == -(err * wp)) by (nonlinear_arith);
}

/// Where the upper witness of a new point lies clockwise of the upper ray, a
/// cone bounded by that witness still admits what the old cone admitted; the
/// same holds of a lower witness that lies counterclockwise of the lower ray.
pub proof fn lemma_narrowed_cone_admits(
    origin: Point,
    upper: Point,
    lower: Point,
    above: Point,
    below: Point,
    x: int,
    y: int,
    err: int,
)
    requires
        origin.x < upper.x,
        origin.x < lower.x,
        origin.x < above.x,
        origin.x < below.x,
        origin.x < x,
        cone_admits(origin, upper, lower, x, y, err),
    ensures
        turn_at(origin, upper, above) > 0 ==> cone_admits(origin, above, lower, x, y, err),
        turn_at(origin, lower, below) < 0 ==> cone_admits(origin, upper, below, x, y, err),
        turn_at(origin, upper, above) > 0 && turn_at(origin, lower, below) < 0 ==> cone_admits(
            origin,
            above,
            below,
            x,
            y,
            err,
        ),
{
    let wi = x - origin.x;
    let top = y + err - origin.y;
    let bottom = y - err - origin.y;
    if turn_at(origin, upper, above) > 0 {
        lemma_slope_chain(
            above.y - origin.y,
            above.x - origin.x,
            upper.y - origin.y,
            upper.x - origin.x,
            top,
            wi,
        );
    }
    if turn_at(origin, lower, below) < 0 {
        lemma_slope_chain(
            bottom,
            wi,
            lower.y - origin.y,
            lower.x - origin.x,
            below.y - origin.y,
            below.x - origin.x,
        );
    }
}

/// A cone whose rays the witnesses of `p` do not narrow admits `p`.
pub proof fn lemma_kept_cone_admits(origin: Point, upper: Point, lower: Point, p: Point, err: int)
    requires
        origin.x < upper.x,
        origin.x < lower.x,
        origin.x < p.x,
        0 <= err,
    ensures
        turn_at(origin, upper, upper_witness(p, err)) <= 0 ==> turn_at(
            origin,
            upper,
            Point { x: p.x, y: p.y + err },
        ) <= 0,
        turn_at(origin, lower, lower_witness(p, err)) >= 0 ==> turn_at(
            origin,
            lower,
            Point { x: p.x, y: p.y - err },
        ) >= 0,
{
    let wl = lower.x - origin.x;
    let clamped = lower_witness(p, err).y - origin.y;
    let bare = p.y - err - origin.y;
    assert(bare * wl <= clamped * wl) by (nonlinear_arith)
        requires
            bare <= clamped,
            wl > 0,
    ;
}

/// In sorted keys no key has two first occurrences.
pub proof fn lemma_first_is_unique(keys: Seq<u32>, i: int, j: int)
    requires
        sorted(keys),
        first_at(keys, i),
        first_at(keys, j),
        keys[i] == keys[j],
    ensures
        i == j,
{
    if i < j {
        assert(keys[i] <= keys[j - 1]);
    } else if j < i {
        assert(keys[j] <= keys[i - 1]);
    }
}

/// One more key keeps what the fitter has achieved.
pub proof fn lemma_push_keeps_tight(s: Fit, err: int, keys: Seq<u32>, x: u32)
    requires
        fit_shape(s, err, keys),
        fit_tight(s, err, keys),
        sorted(keys),
        0 <= err,
        keys.len() > 0 ==> keys.last() <= x,
    ensures
        fit_tight(fit_push(s, err, x as int), err, keys.push(x)),
{
    let after = fit_push(s, err, x as int);
    let more = keys.push(x);
    let n = keys.len() as int;
    let p = Point { x: x as int, y: n };
    lemma_push_keeps_shape(s, err, keys, x);
    assert forall|i: int| 0 <= i < n implies more[i] == keys[i] by {}
    assert forall|i: int| first_at(more, i) && i < n implies first_at(keys, i) by {
        assert(more[i] == keys[i]);
        if i > 0 {
            assert(more[i - 1] == keys[i - 1]);
        }
    }
    if n == 0 {
        assert(after.knots.len() == 1);
    } else if x == s.last.x {
        // a repeated key: nothing changes, and the key is no first occurrence
        assert(more[n - 1] == keys.last());
        assert(!first_at(more, n));
        assert(after.knots == s.knots);
    } else {
        assert(more[n - 1] == keys.last());
        lemma_new_key_keeps_tight(s, err, keys, x);
    }
}

/// A key greater than all before it keeps what the fitter has achieved.
proof fn lemma_new_key_keeps_tight(s: Fit, err: int, keys: Seq<u32>, x: u32)
    requires
        fit_shape(s, err, keys),
        fit_tight(s, err, keys),
        sorted(keys),
        0 <= err,
        keys.len() > 0,
        keys.last() < x,
    ensures
        fit_tight(fit_push(s, err, x as int), err, keys.push(x)),
{
    let after = fit_push(s, err, x as int);
    let more = keys.push(x);
    let n = keys.len() as int;
    let p = Point { x: x as int, y: n };
    lemma_push_keeps_shape(s, err, keys, x);
    assert forall|i: int| 0 <= i < n implies more[i] == keys[i] by {}
    assert forall|i: int| first_at(more, i) && i < n implies first_at(keys, i) by {
        assert(more[i] == keys[i]);
        if i > 0 {
            assert(more[i - 1] == keys[i - 1]);
        }
    }
    assert(more[n - 1] == keys.last());
    assert(first_at(more, n));
    assert(more[n] == x);
    // no key before the new one is greater than the last different key
    assert forall|i: int| 0 <= i < n implies keys[i] <= s.prev_point.x by {
        assert(keys[i] <= keys[n - 1]);
    }
    if s.distinct == 1 || !inside_cone(s.knots.last(), s.upper, s.lower, p) {
        // the new key opens a cone at the point before it
        let origin = s.prev_point;
        assert(after.knots.last() == origin);
        assert(after.upper == upper_witness(p, err));
        assert(after.lower == lower_witness(p, err));
        lemma_near_at_ends(origin, p, err);
        lemma_fresh_cone_admits(origin, p, err);
        assert forall|i: int| #[trigger]
            first_at(more, i) && after.knots.last().x <= more[i] implies near(
            after.knots.last(),
            after.prev_point,
            more[i] as int,
            i,
            err,
        ) by {
            if i < n {
                assert(keys[i] == origin.x);
                lemma_first_is_unique(keys, i, origin.y);
            }
        }
        assert forall|i: int| #[trigger]
            first_at(more, i) && after.knots.last().x < more[i] implies cone_admits(
            after.knots.last(),
            after.upper,
            after.lower,
            more[i] as int,
            i,
            err,
        ) by {
            if i < n {
                assert(keys[i] <= origin.x);
            }
        }
        if s.distinct == 1 {
            assert(after.knots == s.knots);
        } else {
            let grown = s.knots.push(origin);
            let m = s.knots.len() as int;
            assert(after.knots == grown);
            assert forall|t: int, i: int|
                #![trigger grown[t], first_at(more, i)]
                0 <= t < grown.len() - 1 && first_at(more, i) && grown[t].x <= more[i] <= grown[t
                    + 1].x implies near(grown[t], grown[t + 1], more[i] as int, i, err) by {
                assert(grown[t] == s.knots[t]);
                assert(i < n) by {
                    if i == n {
                        if t + 1 < m {
                            assert(is_data_point(keys, s.knots[t + 1]));
                            assert(keys[s.knots[t + 1].y] <= s.prev_point.x);
                        }
                    }
                }
                assert(first_at(keys, i));
                if t + 1 < m {
                    assert(grown[t + 1] == s.knots[t + 1]);
                } else {
                    assert(grown[t + 1] == origin);
                    assert(s.knots[t] == s.knots.last());
                }
            }
        }
    } else {
        // the new key lies inside the cone and may narrow it
        let origin = s.knots.last();
        assert(after.knots == s.knots);
        lemma_near_at_ends(origin, p, err);
        lemma_kept_cone_admits(origin, s.upper, s.lower, p, err);
        lemma_fresh_cone_admits(origin, p, err);
        assert forall|t: int, i: int|
            #![trigger s.knots[t], first_at(more, i)]
            0 <= t < s.knots.len() - 1 && first_at(more, i) && s.knots[t].x <= more[i]
                <= s.knots[t + 1].x implies near(s.knots[t], s.knots[t + 1], more[i] as int, i, err) by {
            assert(i < n) by {
                if i == n {
                    assert(is_data_point(keys, s.knots[t + 1]));
                    assert(keys[s.knots[t + 1].y] <= s.prev_point.x);
                }
            }
            assert(first_at(keys, i));
        }
        assert forall|i: int| #[trigger]
            first_at(more, i) && origin.x <= more[i] implies near(
            origin,
            after.prev_point,
            more[i] as int,
            i,
            err,
        ) by {
            if i < n {
                assert(first_at(keys, i));
                if keys[i] == origin.x {
                    assert(is_data_point(keys, origin));
                    lemma_first_is_unique(keys, i, origin.y);
                } else {
                    lemma_inside_is_near(origin, s.upper, s.lower, p, keys[i] as int, i, err);
                }
            }
        }
        assert forall|i: int| #[trigger]
            first_at(more, i) && origin.x < more[i] implies cone_admits(
            origin,
            after.upper,
            after.lower,
            more[i] as int,
            i,
            err,
        ) by {
            if i < n {
                assert(first_at(keys, i));
                lemma_narrowed_cone_admits(
                    origin,
                    s.upper,
                    s.lower,
                    upper_witness(p, err),
                    lower_witness(p, err),
                    keys[i] as int,
                    i,
                    err,
                );
            } else {
                lemma_narrowed_cone_admits(
                    origin,
                    upper_witness(p, err),
                    lower_witness(p, err),
                    upper_witness(p, err),
                    lower_witness(p, err),
                    x as int,
                    n,
                    err,
                );
            }
        }
    }
}

/// After sorted keys the fitter's state has its shape and has kept the error.
pub proof fn lemma_fit_all_holds(min: int, err: int, keys: Seq<u32>)
    requires
        sorted(keys),
        0 <= err,
    ensures
        fit_shape(fit_all(min, err, keys), err, keys),
        fit_tight(fit_all(min, err, keys), err, keys),
    decreases keys.len(),
{
    if keys.len() > 0 {
        let front = keys.drop_last();
        assert forall|i: int, j: int| 0 <= i <= j < front.len() implies front[i] <= front[j] by {
            assert(front[i] == keys[i] && front[j] == keys[j]);
        }
        lemma_fit_all_holds(min, err, front);
        if front.len() > 0 {
            assert(front.last() == keys[keys.len() - 2]);
        }
        assert(front.push(keys.last()) =~= keys);
        lemma_push_keeps_shape(fit_all(min, err, front), err, front, keys.last());
        lemma_push_keeps_tight(fit_all(min, err, front), err, front, keys.last());
    }
}

} // verus!
