//! What holds of every index that a builder makes from sorted keys.
use vstd::prelude::*;
use crate::envelope::{lemma_first_is_unique, lemma_fit_all_holds, near};
use crate::fit::{closed_knots, first_at, fit_all, increasing, is_data_point, sorted, within};
use crate::geometry::Point;
use crate::radix::{entry_splits, lemma_prefix_monotone, prefix_of, table_splits};
use crate::spline::{
    index_of, knots_before, lemma_count_at_most_len, lemma_counted_below, lemma_counted_beyond,
    Index,
};

verus! {

/// The position of the first occurrence of the key at position `i`.
pub open spec fn first_of(keys: Seq<u32>, i: int) -> int
    decreases i,
{
    if i <= 0 || keys[i - 1] < keys[i] {
        i
    } else {
        first_of(keys, i - 1)
    }
}

/// `first_of` finds a first occurrence of the same key, at or before `i`.
pub proof fn lemma_first_of(keys: Seq<u32>, i: int)
    requires
        sorted(keys),
        0 <= i < keys.len(),
    ensures
        first_at(keys, first_of(keys, i)),
        keys[first_of(keys, i)] == keys[i],
        first_of(keys, i) <= i,
    decreases i,
{
    if i > 0 && keys[i - 1] >= keys[i] {
        assert(keys[i - 1] <= keys[i]);
        lemma_first_of(keys, i - 1);
    }
}

/// The last key occurs once.
pub open spec fn last_key_once(keys: Seq<u32>) -> bool {
    keys.len() == 1 || (keys.len() >= 2 && keys[keys.len() - 2] < keys[keys.len() - 1])
}

/// How many times the last key occurs again after its first occurrence.
pub open spec fn closing_drift(keys: Seq<u32>) -> int {
    if keys.len() == 0 {
        0
    } else {
        keys.len() - 1 - first_of(keys, keys.len() - 1)
    }
}

/// The spline was fitted to the key `k`: `k` is the last key, or it lies at
/// or before the knot before the last, or the last key occurs once.
///
/// The last knot carries the rank of the last occurrence of the last key.
/// Where that key is repeated, the segment that ends there is steeper than
/// the one that was fitted, and a key inside it may lie further from the
/// spline than the error.
pub open spec fn fitted_at(min: u32, max: u32, err: usize, keys: Seq<u32>, k: int) -> bool {
    let knots = index_of(min as int, max as int, err as int, keys).knots;
    ||| last_key_once(keys)
    ||| keys.len() > 0 && k == keys.last()
    ||| knots.len() >= 2 && k <= knots[knots.len() - 2].x
}

/// By how much the estimate for the key `k` may exceed the error: by nothing
/// where the spline was fitted to `k`, and else by less than the number of
/// times that the last key is repeated.
pub open spec fn slack_at(min: u32, max: u32, err: usize, keys: Seq<u32>, k: int) -> int {
    if fitted_at(min, max, err, keys, k) {
        0
    } else {
        closing_drift(keys)
    }
}

/// The index over sorted keys of the range is valid, its first knot is the
/// first key with rank 0, and its last knot is the last key.
pub proof fn lemma_index_valid(min: u32, max: u32, err: usize, keys: Seq<u32>)
    requires
        min <= max,
        sorted(keys),
        within(keys, min as int, max as int),
    ensures
        index_of(min as int, max as int, err as int, keys).valid(),
        keys.len() > 0 ==> {
            let knots = index_of(min as int, max as int, err as int, keys).knots;
            &&& knots[0] == Point { x: keys[0] as int, y: 0 }
            &&& knots.last().x == keys.last()
        },
{
    let s = fit_all(min as int, err as int, keys);
    let knots = closed_knots(s);
    let n = keys.len() as int;
    lemma_fit_all_holds(min as int, err as int, keys);
    if n > 0 {
        assert(knots[0] == s.knots[0]);
        assert forall|t: int| 0 <= t < knots.len() implies {
            &&& min <= (#[trigger] knots[t]).x <= max
            &&& 0 <= knots[t].y < n
        } by {
            if t < s.knots.len() {
                assert(knots[t] == s.knots[t]);
                assert(is_data_point(keys, s.knots[t]));
                assert(min <= keys[s.knots[t].y] <= max);
            } else {
                assert(min <= keys[n - 1] <= max);
            }
        }
        assert(increasing(knots)) by {
            assert forall|a: int, b: int| 0 <= a < b < knots.len() implies (#[trigger] knots[a]).x
                < (#[trigger] knots[b]).x && knots[a].y < knots[b].y by {
                assert(knots[a] == s.knots[a]);
                if b < s.knots.len() {
                    assert(knots[b] == s.knots[b]);
                } else if a < s.knots.len() - 1 {
                    assert(s.knots[a].x < s.knots[s.knots.len() - 1].x);
                }
            }
        }
    }
}

/// A whole position lies no further than any error from itself.
proof fn lemma_whole_position_exact(num: int, den: int, j: int, err: int, slack: int)
    requires
        den == 1,
        num == j,
        0 <= err,
    ensures
        den > 0,
        -err * den <= num - j * den <= err * den + slack * (den - 1),
{
    assert(j * den == j) by (nonlinear_arith)
        requires
            den == 1,
    ;
    assert(err * den == err) by (nonlinear_arith)
        requires
            den == 1,
    ;
    assert(-err * den == -err) by (nonlinear_arith)
        requires
            den == 1,
    ;
    assert(slack * (den - 1) == 0) by (nonlinear_arith)
        requires
            den == 1,
    ;
}

/// The error envelope. For every key of the data, the estimated position
/// lies no further below a position at which that key stands than the error,
/// and no further above it than the error and the slack: with `est` for the
/// estimate, `j - err <= est <= j + err + slack * (1 - 1/den)`. The position
/// `j` is that of the last occurrence for the last key, that of the first
/// occurrence for every other.
///
/// Where the spline was fitted to the key there is no slack. So where the
/// last key occurs once, every estimate keeps the error; where it occurs
/// twice, every estimate stays within the error and one.
pub proof fn lemma_estimate_within_error(
    min: u32,
    max: u32,
    err: usize,
    keys: Seq<u32>,
    i: int,
) -> (j: int)
    requires
        min <= max,
        sorted(keys),
        within(keys, min as int, max as int),
        0 <= i < keys.len(),
    ensures
        0 <= j < keys.len(),
        keys[j] == keys[i],
        ({
            let est = index_of(min as int, max as int, err as int, keys).estimate(keys[i] as int);
            let slack = slack_at(min, max, err, keys, keys[i] as int);
            &&& est.den > 0
            &&& slack >= 0
            &&& -err * est.den <= est.num - j * est.den <= err * est.den + slack * (est.den - 1)
        }),
{
    let s = fit_all(min as int, err as int, keys);
    let index = index_of(min as int, max as int, err as int, keys);
    let knots = index.knots;
    let n = keys.len() as int;
    let k = keys[i] as int;
    let e = err as int;
    let slack = slack_at(min, max, err, keys, k);
    lemma_fit_all_holds(min as int, e, keys);
    lemma_index_valid(min, max, err, keys);
    lemma_first_of(keys, i);
    lemma_first_of(keys, n - 1);
    lemma_count_at_most_len(knots, k);
    assert(min <= keys[0] && keys[0] <= keys[i] && keys[i] <= keys[n - 1] && keys[n - 1] <= max);
    let seg = knots_before(knots, k);
    let est = index.estimate(k);
    if k <= min {
        assert(keys[0] == k);
        lemma_whole_position_exact(est.num, est.den, 0, e, slack);
        0
    } else if k >= max {
        assert(keys[n - 1] == k);
        lemma_whole_position_exact(est.num, est.den, n - 1, e, slack);
        n - 1
    } else if seg == 0 {
        lemma_counted_beyond(knots, k, 0);
        assert(keys[0] == k);
        lemma_whole_position_exact(est.num, est.den, 0, e, slack);
        0
    } else if seg == knots.len() {
        // no key of the data lies after the last knot
        lemma_counted_below(knots, k, knots.len() - 1);
        assert(knots[knots.len() - 1].x == keys[n - 1]);
        0
    } else {
        let l = knots[seg - 1];
        let r = knots[seg];
        lemma_counted_below(knots, k, seg - 1);
        lemma_counted_beyond(knots, k, seg);
        assert(l.x < r.x);
        let den = r.x - l.x;
        assert(est.den == den);
        assert(est.num == l.y * den + (k - l.x) * (r.y - l.y));
        assert(0 <= slack * (den - 1)) by (nonlinear_arith)
            requires
                0 <= slack,
                0 < den,
        ;
        if k == keys[n - 1] {
            // the key stands at the last knot, which carries the last rank
            if seg < knots.len() - 1 {
                assert(knots[seg].x < knots[knots.len() - 1].x);
            }
            assert(r == s.last);
            assert(est.num - (n - 1) * den == 0) by (nonlinear_arith)
                requires
                    est.num == l.y * den + (k - l.x) * (r.y - l.y),
                    den == k - l.x,
                    r.y == n - 1,
            ;
            assert(-e * den <= 0 <= e * den) by (nonlinear_arith)
                requires
                    0 <= e,
                    0 < den,
            ;
            n - 1
        } else {
            let j = first_of(keys, i);
            if seg < s.knots.len() {
                // a segment between two knots that the fitter laid down
                assert(knots[seg - 1] == s.knots[seg - 1] && knots[seg] == s.knots[seg]);
                assert(near(s.knots[seg - 1], s.knots[seg - 1 + 1], keys[j] as int, j, e));
                assert(est.num - j * den == (k - l.x) * (r.y - l.y) - (j - l.y) * den)
                    by (nonlinear_arith)
                    requires
                        est.num == l.y * den + (k - l.x) * (r.y - l.y),
                ;
            } else {
                // the closing segment: it starts at the last knot that the
                // fitter laid down and ends at the last key with the rank of
                // its last occurrence, `drift` above the end of the segment
                // that was fitted
                let drift = closing_drift(keys);
                lemma_first_is_unique(keys, first_of(keys, n - 1), s.prev_point.y);
                assert(l == s.knots.last());
                assert(r.x == s.prev_point.x && r.y == s.prev_point.y + drift);
                assert(near(l, s.prev_point, keys[j] as int, j, e));
                assert(!fitted_at(min, max, err, keys, k) || drift == 0) by {
                    if knots.len() >= 2 && k <= knots[knots.len() - 2].x {
                        if seg - 1 < knots.len() - 2 {
                            assert(knots[seg - 1].x < knots[knots.len() - 2].x);
                        }
                    }
                }
                assert(slack == drift);
                let run = k - l.x;
                assert(est.num - j * den == (run * (s.prev_point.y - l.y) - (j - l.y) * den) + run
                    * drift) by (nonlinear_arith)
                    requires
                        est.num == l.y * den + run * (r.y - l.y),
                        r.y == s.prev_point.y + drift,
                ;
                assert(0 <= run * drift <= drift * (den - 1)) by (nonlinear_arith)
                    requires
                        0 < run <= den - 1,
                        0 <= drift,
                ;
            }
            j
        }
    }
}

/// A fraction that lies no further than `err` below the whole number `j`
/// and less than `err` and one above it rounds down to a whole number that
/// lies no further than `err` from `j`.
pub proof fn lemma_floor_within_error(num: int, den: int, j: int, err: int)
    requires
        den > 0,
        -err * den <= num - j * den <= err * den + (den - 1),
    ensures
        j - err <= num / den <= j + err,
{
    let q = num / den;
    let r = num % den;
    vstd::arithmetic::div_mod::lemma_fundamental_div_mod(num, den);
    assert(0 <= r < den);
    assert(j - err <= q) by (nonlinear_arith)
        requires
            num == den * q + r,
            r < den,
            den > 0,
            -err * den <= num - j * den,
    ;
    assert(q <= j + err) by (nonlinear_arith)
        requires
            num == den * q + r,
            0 <= r,
            den > 0,
            num - j * den <= err * den + (den - 1),
    ;
}

/// Containment. For every key of the data whose slack is at most one, the
/// range that the index gives for it holds a position at which that key
/// stands. That is every key where the last key occurs no more than twice,
/// and in any data every key to which the spline was fitted.
pub proof fn lemma_bound_contains_key(
    min: u32,
    max: u32,
    err: usize,
    keys: Seq<u32>,
    i: int,
) -> (j: int)
    requires
        min <= max,
        sorted(keys),
        within(keys, min as int, max as int),
        0 <= i < keys.len(),
        slack_at(min, max, err, keys, keys[i] as int) <= 1,
    ensures
        ({
            let range = index_of(min as int, max as int, err as int, keys).bound(keys[i] as int);
            0 <= range.0 <= j < range.1 <= keys.len()
        }),
        keys[j] == keys[i],
{
    let j = lemma_estimate_within_error(min, max, err, keys, i);
    let est = index_of(min as int, max as int, err as int, keys).estimate(keys[i] as int);
    let slack = slack_at(min, max, err, keys, keys[i] as int);
    assert(slack * (est.den - 1) <= est.den - 1) by (nonlinear_arith)
        requires
            0 <= slack <= 1,
            0 < est.den,
    ;
    lemma_floor_within_error(est.num, est.den, j, err as int);
    j
}

/// The range that the index gives for a key holds the key exactly if the
/// data holds it. This is so for every key that the data does not hold, and
/// for every key of the data whose slack is at most one.
pub proof fn lemma_bound_tells_presence(min: u32, max: u32, err: usize, keys: Seq<u32>, k: u32)
    requires
        min <= max,
        sorted(keys),
        within(keys, min as int, max as int),
        keys.len() > 0,
        keys.contains(k) ==> slack_at(min, max, err, keys, k as int) <= 1,
    ensures
        ({
            let range = index_of(min as int, max as int, err as int, keys).bound(k as int);
            &&& 0 <= range.0 <= range.1 <= keys.len()
            &&& keys.subrange(range.0, range.1).contains(k) <==> keys.contains(k)
        }),
{
    let index = index_of(min as int, max as int, err as int, keys);
    let range = index.bound(k as int);
    lemma_index_valid(min, max, err, keys);
    lemma_bound_width(index, k as int);
    let part = keys.subrange(range.0, range.1);
    if keys.contains(k) {
        let i = choose|i: int| 0 <= i < keys.len() && keys[i] == k;
        let j = lemma_bound_contains_key(min, max, err, keys, i);
        assert(part[j - range.0] == k);
    }
    if part.contains(k) {
        let a = choose|a: int| 0 <= a < part.len() && part[a] == k;
        assert(keys[range.0 + a] == k);
    }
}

/// The estimate of a valid index is a fraction with a positive denominator
/// that lies between 0 and the last position.
pub proof fn lemma_estimate_in_range(index: Index, key: int)
    requires
        index.valid(),
    ensures
        index.estimate(key).den > 0,
        0 <= index.estimate(key).num,
        index.num_points > 0 ==> index.estimate(key).num <= (index.num_points - 1)
            * index.estimate(key).den,
        index.num_points == 0 ==> index.estimate(key).num == 0,
{
    let est = index.estimate(key);
    let seg = index.segment(key);
    lemma_count_at_most_len(index.knots, key);
    if index.num_points > 0 && index.min < key < index.max && 0 < seg < index.knots.len() {
        let l = index.knots[seg - 1];
        let r = index.knots[seg];
        lemma_counted_below(index.knots, key, seg - 1);
        lemma_counted_beyond(index.knots, key, seg);
        let den = r.x - l.x;
        assert(0 <= l.y * den + (key - l.x) * (r.y - l.y)) by (nonlinear_arith)
            requires
                0 <= l.y,
                0 < den,
                0 < key - l.x,
                0 < r.y - l.y,
        ;
        assert(l.y * den + (key - l.x) * (r.y - l.y) <= r.y * den) by (nonlinear_arith)
            requires
                key - l.x <= den,
                den == r.x - l.x,
                0 < r.y - l.y,
        ;
        assert(r.y * den <= (index.num_points - 1) * den) by (nonlinear_arith)
            requires
                r.y <= index.num_points - 1,
                0 < den,
        ;
    } else {
        // a whole position: 0, or the last one
        assert(est.den == 1);
        assert(est.num == 0 || (index.num_points > 0 && est.num == index.num_points - 1));
        assert((index.num_points - 1) * est.den == index.num_points - 1) by (nonlinear_arith)
            requires
                est.den == 1,
        ;
    }
}

/// Bound width. The range that a valid index gives lies within the
/// positions of the data and is no wider than twice the error and two.
pub proof fn lemma_bound_width(index: Index, key: int)
    requires
        index.valid(),
    ensures
        0 <= index.bound(key).0 <= index.bound(key).1 <= index.num_points,
        index.bound(key).1 - index.bound(key).0 <= 2 * index.max_error + 2,
{
    let est = index.estimate(key);
    lemma_estimate_in_range(index, key);
    vstd::arithmetic::div_mod::lemma_fundamental_div_mod(est.num, est.den);
    let q = est.num / est.den;
    let r = est.num % est.den;
    assert(0 <= q) by (nonlinear_arith)
        requires
            est.num == est.den * q + r,
            r < est.den,
            0 <= est.num,
            est.den > 0,
    ;
    if index.num_points > 0 {
        assert(q <= index.num_points - 1) by (nonlinear_arith)
            requires
                est.num == est.den * q + r,
                0 <= r,
                est.num <= (index.num_points - 1) * est.den,
                est.den > 0,
        ;
    } else {
        assert(q == 0) by (nonlinear_arith)
            requires
                0 == est.den * q + r,
                0 <= r < est.den,
        ;
    }
}

/// Between two knots the line through them rises: at the left knot it gives
/// no less than that knot's rank, and at a greater key no less than at a
/// smaller one.
proof fn lemma_line_rises(l: Point, r: Point, a: int, b: int)
    requires
        l.x < r.x,
        l.y < r.y,
        l.x <= a <= b <= r.x,
    ensures
        l.y * (r.x - l.x) <= l.y * (r.x - l.x) + (a - l.x) * (r.y - l.y),
        l.y * (r.x - l.x) + (a - l.x) * (r.y - l.y) <= l.y * (r.x - l.x) + (b - l.x) * (r.y - l.y),
        l.y * (r.x - l.x) + (b - l.x) * (r.y - l.y) <= r.y * (r.x - l.x),
{
    let rise = r.y - l.y;
    let den = r.x - l.x;
    assert(0 <= (a - l.x) * rise) by (nonlinear_arith)
        requires
            0 <= a - l.x,
            0 < rise,
    ;
    assert((a - l.x) * rise <= (b - l.x) * rise) by (nonlinear_arith)
        requires
            a - l.x <= b - l.x,
            0 < rise,
    ;
    assert((b - l.x) * rise <= den * rise) by (nonlinear_arith)
        requires
            b - l.x <= den,
            0 < rise,
    ;
    assert(l.y * den + den * rise == r.y * den) by (nonlinear_arith)
        requires
            rise == r.y - l.y,
    ;
}

/// Monotone estimates. In a valid index a greater key has no smaller
/// estimate than a smaller key. The two fractions are compared by cross
/// multiplication.
pub proof fn lemma_estimate_monotone(index: Index, a: int, b: int)
    requires
        index.valid(),
        a <= b,
    ensures
        index.estimate(a).den > 0,
        index.estimate(b).den > 0,
        index.estimate(a).num * index.estimate(b).den <= index.estimate(b).num * index.estimate(
            a,
        ).den,
{
    let ea = index.estimate(a);
    let eb = index.estimate(b);
    let knots = index.knots;
    let last = index.num_points - 1;
    lemma_estimate_in_range(index, a);
    lemma_estimate_in_range(index, b);
    lemma_count_at_most_len(knots, a);
    lemma_count_at_most_len(knots, b);
    let sa = knots_before(knots, a);
    let sb = knots_before(knots, b);
    if index.num_points == 0 || a <= index.min {
        // the smaller key has the estimate 0
        assert(ea.num * eb.den == 0) by (nonlinear_arith)
            requires
                ea.num == 0,
        ;
        assert(0 <= eb.num * ea.den) by (nonlinear_arith)
            requires
                0 <= eb.num,
                0 < ea.den,
        ;
    } else if b >= index.max || sb == knots.len() {
        // the greater key has the last position as its estimate
        assert(eb.num == last && eb.den == 1);
        assert(ea.num * 1 <= last * ea.den);
    } else if sa == 0 {
        assert(ea.num * eb.den == 0) by (nonlinear_arith)
            requires
                ea.num == 0,
        ;
        assert(0 <= eb.num * ea.den) by (nonlinear_arith)
            requires
                0 <= eb.num,
                0 < ea.den,
        ;
    } else {
        // both keys lie between knots
        assert(sa <= sb) by {
            if sb < sa {
                lemma_counted_below(knots, a, sb);
                lemma_counted_beyond(knots, b, sb);
            }
        }
        assert(sa < knots.len());
        let la = knots[sa - 1];
        let ra = knots[sa];
        let lb = knots[sb - 1];
        let rb = knots[sb];
        lemma_counted_below(knots, a, sa - 1);
        lemma_counted_beyond(knots, a, sa);
        lemma_counted_below(knots, b, sb - 1);
        lemma_counted_beyond(knots, b, sb);
        if sa == sb {
            lemma_line_rises(la, ra, a, b);
            assert(ea.num * ea.den <= eb.num * ea.den) by (nonlinear_arith)
                requires
                    ea.num <= eb.num,
                    0 < ea.den,
            ;
        } else {
            // the estimate of `a` is at most the rank of its right knot, that
            // of `b` at least the rank of its left knot, which is no smaller
            lemma_line_rises(la, ra, a, a);
            lemma_line_rises(lb, rb, b, b);
            if sa < sb - 1 {
                assert(knots[sa].y < knots[sb - 1].y);
            }
            assert(ra.y <= lb.y);
            assert(ea.num * eb.den <= eb.num * ea.den) by (nonlinear_arith)
                requires
                    ea.num <= ra.y * ea.den,
                    lb.y * eb.den <= eb.num,
                    ra.y <= lb.y,
                    0 < ea.den,
                    0 < eb.den,
                    0 <= ra.y,
            ;
        }
    }
}

/// A radix table that leads to the knots starts at 0, never decreases, and
/// ends at the number of knots.
pub proof fn lemma_table_shape(
    table: Seq<usize>,
    knots: Seq<Point>,
    min: u32,
    max: u32,
    shift: u32,
)
    requires
        min <= max,
        shift < 32,
        table.len() == 2 + prefix_of(max as int, min as int, shift),
        table_splits(table, knots, min as int, shift),
        forall|t: int| 0 <= t < knots.len() ==> min <= (#[trigger] knots[t]).x <= max,
    ensures
        table[0] == 0,
        table.last() == knots.len(),
        forall|p: int, q: int| 0 <= p <= q < table.len() ==> table[p] <= table[q],
{
    let m = knots.len() as int;
    let top = table.len() - 1;
    lemma_prefix_monotone(max as int, max as int, min as int, shift);
    assert(entry_splits(knots, min as int, shift, 0, table[0] as int));
    assert(entry_splits(knots, min as int, shift, top, table[top] as int));
    if m > 0 {
        lemma_prefix_monotone(knots[0].x, max as int, min as int, shift);
        lemma_prefix_monotone(knots[m - 1].x, max as int, min as int, shift);
    }
    assert forall|p: int, q: int| 0 <= p <= q < table.len() implies table[p] <= table[q] by {
        assert(entry_splits(knots, min as int, shift, p, table[p] as int));
        assert(entry_splits(knots, min as int, shift, q, table[q] as int));
        if table[q] < table[p] {
            let i = table[q] as int;
            assert(prefix_of(knots[i].x, min as int, shift) < p);
        }
    }
}

/// Building twice from the same keys gives the same index: an index is
/// determined by the range, the error and the keys, taken one by one.
pub proof fn lemma_same_keys_same_index(min: u32, max: u32, err: usize, a: Seq<u32>, b: Seq<u32>)
    requires
        a.len() == b.len(),
        forall|i: int| 0 <= i < a.len() ==> a[i] == b[i],
    ensures
        index_of(min as int, max as int, err as int, a) == index_of(
            min as int,
            max as int,
            err as int,
            b,
        ),
{
    assert(a =~= b);
}

} // verus!
