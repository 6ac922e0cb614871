//! The builder: it takes the keys in order, fits the spline and fills the
//! radix table as knots are laid down.
use vstd::prelude::*;
use crate::geometry::{orient, Orientation, Point};
use crate::radix::{
    entry_splits, lemma_prefix_monotone, lemma_shift_leaves_radix_bits, prefix_of, shift_bits,
    shift_bits_spec, RADIX_BITS,
};
use crate::fit::{
    closed_knots, fit_all, fit_point, fit_push, fit_shape, fit_start, inside_cone, is_data_point,
    lemma_push_keeps_shape, lower_witness, sorted, upper_witness, within, Fit,
};
use crate::spline::{index_of, RadixSpline};

verus! {

/// The error that a builder allows unless it is told otherwise.
pub const DEFAULT_MAX_ERROR: usize = 32;

/// A key with a rank: a knot of the spline, or a point of the data.
#[derive(Clone, Copy, Debug)]
pub struct Coordinate {
    pub x: u32,
    pub y: usize,
}

impl View for Coordinate {
    type V = Point;

    open spec fn view(&self) -> Point {
        Point { x: self.x as int, y: self.y as int }
    }
}

/// A point on the boundary of the cone. It may lie above every rank that
/// fits a `usize`.
#[derive(Clone, Copy)]
struct Limit {
    x: u32,
    y: i128,
}

impl View for Limit {
    type V = Point;

    closed spec fn view(&self) -> Point {
        Point { x: self.x as int, y: self.y as int }
    }
}

/// The points that a vector of coordinates stands for.
pub open spec fn points_of(v: Seq<Coordinate>) -> Seq<Point> {
    Seq::new(v.len(), |i: int| v[i]@)
}

/// Takes sorted keys one by one and builds a radix spline over them.
pub struct Builder {
    min: u32,
    max: u32,
    shift_bits: u32,
    max_error: usize,
    prev_prefix: usize,
    radix_table: Vec<usize>,
    spline_points: Vec<Coordinate>,
    // not every key becomes a knot, so the keys are counted
    num_points: usize,
    // rank of the last key
    prev_y: usize,
    // the last key
    prev_x: u32,
    // number of different keys
    distinct: usize,
    lower_limit: Limit,
    upper_limit: Limit,
    prev_point: Coordinate,
    keys: Ghost<Seq<u32>>,
}

impl Builder {
    /// The smallest key that the builder accepts.
    pub closed spec fn min(&self) -> u32 {
        self.min
    }

    /// The greatest key that the builder accepts.
    pub closed spec fn max(&self) -> u32 {
        self.max
    }

    /// How far the spline may pass from the rank of a key.
    pub closed spec fn max_error(&self) -> usize {
        self.max_error
    }

    /// The keys taken in so far, in the order in which they came.
    pub closed spec fn keys(&self) -> Seq<u32> {
        self.keys@
    }

    /// The smallest key that may come next.
    pub open spec fn floor(&self) -> u32 {
        if self.keys().len() == 0 {
            self.min()
        } else {
            self.keys().last()
        }
    }

    /// The fitter's state as the fields hold it.
    spec fn state(&self) -> Fit {
        Fit {
            knots: points_of(self.spline_points@),
            count: self.num_points as int,
            distinct: self.distinct as int,
            last: Point { x: self.prev_x as int, y: self.prev_y as int },
            prev_point: self.prev_point@,
            upper: self.upper_limit@,
            lower: self.lower_limit@,
        }
    }

    /// The radix table agrees with the knots: up to the prefix of the last
    /// knot every entry leads to the first knot at or beyond its prefix, and
    /// the entries after it are still zero.
    spec fn table_wf(&self) -> bool {
        let knots = points_of(self.spline_points@);
        &&& self.min <= self.max
        &&& self.shift_bits as int == shift_bits_spec((self.max - self.min) as u32, RADIX_BITS)
        &&& self.radix_table@.len() == 2 + prefix_of(
            self.max as int,
            self.min as int,
            self.shift_bits,
        )
        &&& forall|t: int|
            0 <= t < knots.len() ==> self.min <= (#[trigger] knots[t]).x <= self.max
        &&& forall|i: int, j: int|
            0 <= i <= j < knots.len() ==> (#[trigger] knots[i]).x <= (#[trigger] knots[j]).x
        &&& self.prev_prefix as int == if knots.len() == 0 {
            0
        } else {
            prefix_of(knots.last().x, self.min as int, self.shift_bits)
        }
        &&& forall|p: int|
            0 <= p <= self.prev_prefix ==> entry_splits(
                knots,
                self.min as int,
                self.shift_bits,
                p,
                #[trigger] self.radix_table@[p] as int,
            )
        &&& forall|p: int|
            self.prev_prefix < p < self.radix_table@.len() ==> #[trigger] self.radix_table@[p] == 0
    }

    /// The builder is in order: its keys are sorted and lie in its range, the
    /// fitter's state is the one that these keys lead to, and the radix table
    /// agrees with the knots.
    pub closed spec fn wf(&self) -> bool {
        &&& self.table_wf()
        &&& sorted(self.keys@)
        &&& within(self.keys@, self.min as int, self.max as int)
        &&& self.state() == fit_all(self.min as int, self.max_error as int, self.keys@)
        &&& fit_shape(self.state(), self.max_error as int, self.keys@)
        &&& self.keys@.len() == 0 ==> self.prev_x == self.min
    }

    /// The keys of a builder that is in order never decrease and lie in its
    /// range.
    pub proof fn lemma_keys_in_order(&self)
        requires
            self.wf(),
        ensures
            sorted(self.keys()),
            within(self.keys(), self.min() as int, self.max() as int),
            self.min() <= self.max(),
    {
    }

    /// A builder for keys from `min` to `max`, both included, with the
    /// default error. Where `min` is the greater of the two, they change
    /// places.
    pub fn new(min: u32, max: u32) -> (b: Self)
        ensures
            b.wf(),
            b.min() == if min <= max { min } else { max },
            b.max() == if min <= max { max } else { min },
            b.max_error() == DEFAULT_MAX_ERROR,
            b.keys() == Seq::<u32>::empty(),
    {
        let (min, max) = if min > max { (max, min) } else { (min, max) };
        let shift_bits: u32 = shift_bits(max - min, RADIX_BITS);
        proof {
            lemma_shift_leaves_radix_bits((max - min) as u32, RADIX_BITS);
        }
        let max_prefix: u32 = (max - min) >> shift_bits;
        let b = Builder {
            min,
            max,
            shift_bits,
            max_error: DEFAULT_MAX_ERROR,
            prev_prefix: 0,
            radix_table: vec![0; 2 + (max_prefix as usize)],
            spline_points: Vec::new(),
            num_points: 0,
            prev_y: 0,
            prev_x: min,
            distinct: 0,
            lower_limit: Limit { x: 0, y: 0 },
            upper_limit: Limit { x: 0, y: 0 },
            prev_point: Coordinate { x: 0, y: 0 },
            keys: Ghost(Seq::empty()),
        };
        proof {
            assert(points_of(b.spline_points@) =~= Seq::<Point>::empty());
            assert(b.state() == fit_start(min as int));
        }
        b
    }

    /// Sets the error that the spline may make. It has to be set before the
    /// first key.
    pub fn with_error(&mut self, err: usize) -> (r: &mut Self)
        requires
            old(self).wf(),
            old(self).keys().len() == 0,
        ensures
            r.wf(),
            r.min() == old(self).min(),
            r.max() == old(self).max(),
            r.max_error() == err,
            r.keys() == old(self).keys(),
            *final(self) == *final(r),
    {
        self.max_error = err;
        self
    }

    fn set_prev_cdf(&mut self, x: u32, y: usize)
        ensures
            *final(self) == (Builder { prev_point: Coordinate { x, y }, ..*old(self) }),
    {
        self.prev_point = Coordinate { x, y };
    }

    fn set_upper_limit(&mut self, x: u32, y: i128)
        ensures
            *final(self) == (Builder { upper_limit: Limit { x, y }, ..*old(self) }),
    {
        self.upper_limit = Limit { x, y };
    }

    fn set_lower_limit(&mut self, x: u32, y: i128)
        ensures
            *final(self) == (Builder { lower_limit: Limit { x, y }, ..*old(self) }),
    {
        self.lower_limit = Limit { x, y };
    }

    /// Lays down `coord` as the next knot and enters it in the radix table:
    /// where its prefix is a new one, the entries from the one after the last
    /// knot's prefix to its own lead to it.
    fn add_key_to_spline(&mut self, coord: Coordinate)
        requires
            old(self).table_wf(),
            old(self).min <= coord.x <= old(self).max,
            old(self).spline_points@.len() > 0 ==> old(self).spline_points@.last().x <= coord.x,
        ensures
            final(self).table_wf(),
            final(self).spline_points@ == old(self).spline_points@.push(coord),
            *final(self) == (Builder {
                spline_points: final(self).spline_points,
                radix_table: final(self).radix_table,
                prev_prefix: final(self).prev_prefix,
                ..*old(self)
            }),
    {
        let ghost old_knots = points_of(self.spline_points@);
        let ghost old_table = self.radix_table@;
        let ghost min = self.min as int;
        let shift = self.shift_bits;
        proof {
            lemma_shift_leaves_radix_bits((self.max - self.min) as u32, RADIX_BITS);
            lemma_prefix_monotone(coord.x as int, self.max as int, min, shift);
            if old_knots.len() > 0 {
                assert(old_knots.last() == self.spline_points@.last()@);
                lemma_prefix_monotone(old_knots.last().x, coord.x as int, min, shift);
            } else {
                lemma_prefix_monotone(min, coord.x as int, min, shift);
            }
        }
        self.spline_points.push(coord);
        let ghost knots = points_of(self.spline_points@);
        let index: usize = self.spline_points.len() - 1;
        let curr_prefix: usize = ((coord.x - self.min) >> self.shift_bits) as usize;
        proof {
            assert(knots =~= old_knots.push(coord@));
            assert(curr_prefix == prefix_of(coord.x as int, min, shift));
            // the knots before the new one have no greater prefix than it
            assert forall|i: int| 0 <= i < old_knots.len() implies prefix_of(
                (#[trigger] old_knots[i]).x,
                min,
                shift,
            ) <= self.prev_prefix by {
                assert(old_knots[i] == old(self).spline_points@[i]@);
                assert(entry_splits(old_knots, min, shift, self.prev_prefix as int, old_table[self.prev_prefix as int] as int));
                assert(old_knots[i].x <= old_knots[old_knots.len() - 1].x);
                lemma_prefix_monotone(old_knots[i].x, old_knots.last().x, min, shift);
            }
        }
        if curr_prefix != self.prev_prefix {
            let mut p: usize = self.prev_prefix + 1;
            while p <= curr_prefix
                invariant
                    self.prev_prefix < p <= curr_prefix + 1,
                    curr_prefix < 1024,
                    curr_prefix + 1 < self.radix_table@.len(),
                    self.radix_table@.len() == old_table.len(),
                    index == old_knots.len(),
                    knots == old_knots.push(coord@),
                    self.spline_points@ == old(self).spline_points@.push(coord),
                    curr_prefix == prefix_of(coord.x as int, min, shift),
                    forall|i: int|
                        0 <= i < old_knots.len() ==> prefix_of(
                            (#[trigger] old_knots[i]).x,
                            min,
                            shift,
                        ) <= self.prev_prefix,
                    forall|q: int|
                        0 <= q <= self.prev_prefix ==> #[trigger] self.radix_table@[q]
                            == old_table[q],
                    forall|q: int|
                        self.prev_prefix < q < p ==> entry_splits(
                            knots,
                            min,
                            shift,
                            q,
                            #[trigger] self.radix_table@[q] as int,
                        ),
                    forall|q: int|
                        p <= q < self.radix_table@.len() ==> #[trigger] self.radix_table@[q] == 0,
                    *self == (Builder {
                        radix_table: self.radix_table,
                        spline_points: self.spline_points,
                        ..*old(self)
                    }),
                decreases curr_prefix + 1 - p,
            {
                self.radix_table[p] = index;
                proof {
                    assert(entry_splits(knots, min, shift, p as int, index as int)) by {
                        assert forall|i: int| 0 <= i < knots.len() implies ((i < index) <==> prefix_of(
                            (#[trigger] knots[i]).x,
                            min,
                            shift,
                        ) < p) by {
                            if i < index {
                                assert(knots[i] == old_knots[i]);
                            }
                        }
                    }
                }
                p += 1;
            }
            self.prev_prefix = curr_prefix;
        }
        proof {
            assert forall|q: int| 0 <= q <= old(self).prev_prefix implies entry_splits(
                knots,
                min,
                shift,
                q,
                #[trigger] self.radix_table@[q] as int,
            ) by {
                assert(self.radix_table@[q] == old_table[q]);
                assert(entry_splits(old_knots, min, shift, q, old_table[q] as int));
                assert forall|i: int| 0 <= i < knots.len() implies ((i < old_table[q]) <==> prefix_of(
                    (#[trigger] knots[i]).x,
                    min,
                    shift,
                ) < q) by {
                    if i < old_knots.len() {
                        assert(knots[i] == old_knots[i]);
                    }
                }
            }
            assert forall|t: int| 0 <= t < knots.len() implies self.min <= (#[trigger] knots[t]).x
                <= self.max by {
                if t < old_knots.len() {
                    assert(knots[t] == old_knots[t]);
                }
            }
            assert forall|i: int, j: int| 0 <= i <= j < knots.len() implies (#[trigger] knots[i]).x
                <= (#[trigger] knots[j]).x by {
                if j < old_knots.len() {
                    assert(knots[i] == old_knots[i] && knots[j] == old_knots[j]);
                } else if i < old_knots.len() {
                    assert(knots[i] == old_knots[i]);
                    assert(old_knots[i].x <= old_knots[old_knots.len() - 1].x);
                }
            }
        }
    }

    /// What `insert` leaves of the fitter's state: the state after the point
    /// `(x, y)`, or the old one where `x` repeats the last key.
    spec fn inserted(&self, x: u32, y: usize) -> Fit {
        if self.distinct > 0 && x == self.prev_x {
            self.state()
        } else {
            fit_point(self.state(), self.max_error as int, Point { x: x as int, y: y as int })
        }
    }

    /// Hands the key `x` with its rank `y` to the fitter. A key that repeats
    /// the last one is passed over. The first key becomes a knot, the second
    /// opens the cone of slopes that keep the error. A later key inside the
    /// cone narrows it; one outside makes the key before it a knot and opens
    /// a new cone there.
    fn insert(&mut self, x: u32, y: usize)
        requires
            old(self).wf(),
            y == old(self).num_points,
            y < usize::MAX,
            old(self).floor() <= x <= old(self).max(),
        ensures
            final(self).table_wf(),
            final(self).state() == old(self).inserted(x, y),
            *final(self) == (Builder {
                spline_points: final(self).spline_points,
                radix_table: final(self).radix_table,
                prev_prefix: final(self).prev_prefix,
                distinct: final(self).distinct,
                upper_limit: final(self).upper_limit,
                lower_limit: final(self).lower_limit,
                prev_point: final(self).prev_point,
                ..*old(self)
            }),
    {
        let ghost before = self.state();
        let ghost p = Point { x: x as int, y: y as int };
        let ghost err = self.max_error as int;
        proof {
            if self.keys@.len() > 0 {
                assert(self.min <= self.keys@[self.keys@.len() - 1] <= self.max);
            }
        }
        if self.distinct == 0 {
            self.distinct = 1;
            self.add_key_to_spline(Coordinate { x, y });
            self.set_prev_cdf(x, y);
            proof {
                assert(self.state().knots =~= before.knots.push(p));
            }
            return ;
        }
        if x == self.prev_x {
            return ;
        }
        self.distinct += 1;
        let max_err: i128 = self.max_error as i128;
        let upper_y: i128 = y as i128 + max_err;
        let lower_y: i128 = if y as i128 - max_err < 0 {
            0
        } else {
            y as i128 - max_err
        };
        assert(Limit { x, y: upper_y }@ == upper_witness(p, err));
        assert(Limit { x, y: lower_y }@ == lower_witness(p, err));

        if self.distinct == 2 {
            self.set_upper_limit(x, upper_y);
            self.set_lower_limit(x, lower_y);
            self.set_prev_cdf(x, y);
            proof {
                assert(self.state().knots =~= before.knots);
            }
            return ;
        }
        let last = self.spline_points[self.spline_points.len() - 1];
        assert(last@ == before.knots.last());

        let upper_limit_x_diff: i128 = self.upper_limit.x as i128 - last.x as i128;
        let lower_limit_x_diff: i128 = self.lower_limit.x as i128 - last.x as i128;
        let x_diff: i128 = (x - last.x) as i128;

        let upper_limit_y_diff: i128 = self.upper_limit.y - last.y as i128;
        let lower_limit_y_diff: i128 = self.lower_limit.y - last.y as i128;
        let y_diff: i128 = y as i128 - last.y as i128;

        if orient(upper_limit_x_diff, upper_limit_y_diff, x_diff, y_diff) != Orientation::Clockwise
            || orient(lower_limit_x_diff, lower_limit_y_diff, x_diff, y_diff)
            != Orientation::Counterclockwise {
            assert(!inside_cone(before.knots.last(), before.upper, before.lower, p));
            self.add_key_to_spline(self.prev_point);
            self.set_upper_limit(x, upper_y);
            self.set_lower_limit(x, lower_y);
            proof {
                assert(points_of(self.spline_points@) =~= before.knots.push(before.prev_point));
            }
        } else {
            assert(inside_cone(before.knots.last(), before.upper, before.lower, p));
            // lower the upper bound where the new key asks for it
            let upper_y_diff: i128 = upper_y - last.y as i128;
            if orient(upper_limit_x_diff, upper_limit_y_diff, x_diff, upper_y_diff)
                == Orientation::Clockwise {
                self.set_upper_limit(x, upper_y);
            }
            // raise the lower bound where the new key asks for it

            let lower_y_diff: i128 = lower_y - last.y as i128;
            if orient(lower_limit_x_diff, lower_limit_y_diff, x_diff, lower_y_diff)
                == Orientation::Counterclockwise {
                self.set_lower_limit(x, lower_y);
            }
            proof {
                assert(points_of(self.spline_points@) =~= before.knots);
            }
        }
        self.set_prev_cdf(x, y);
    }

    /// Takes the next key. It gets the next rank: the number of keys taken
    /// before it. The key may not be smaller than the one before it, nor lie
    /// outside the builder's range.
    pub fn push(&mut self, x: u32) -> (r: &mut Self)
        requires
            old(self).wf(),
            old(self).floor() <= x <= old(self).max(),
            old(self).keys().len() < usize::MAX,
        ensures
            r.wf(),
            r.min() == old(self).min(),
            r.max() == old(self).max(),
            r.max_error() == old(self).max_error(),
            r.keys() == old(self).keys().push(x),
            *final(self) == *final(r),
    {
        let y: usize = self.num_points;
        let ghost before = self.state();
        let ghost err = self.max_error as int;
        proof {
            lemma_push_keeps_shape(before, err, self.keys@, x);
        }
        self.insert(x, y);

        self.num_points += 1;
        self.prev_x = x;
        self.prev_y = y;
        self.keys = Ghost(self.keys@.push(x));
        proof {
            let keys = old(self).keys@;
            assert(self.keys@.drop_last() =~= keys);
            assert(self.state() == fit_push(before, err, x as int));
            assert forall|i: int| 0 <= i < self.keys@.len() implies self.min
                <= #[trigger] self.keys@[i] <= self.max by {
                if i < keys.len() {
                    assert(self.keys@[i] == keys[i]);
                }
            }
        }
        self
    }

    /// Finishes the spline and hands out the index. The last key becomes the
    /// last knot, with its rank, unless the last knot already stands at that
    /// key; the entries of the radix table after the prefix of the last knot
    /// lead past the end of the knots. Without keys the index is the empty
    /// one.
    pub fn build(self) -> (rs: RadixSpline)
        requires
            self.wf(),
        ensures
            rs@ == index_of(
                self.min() as int,
                self.max() as int,
                self.max_error() as int,
                self.keys(),
            ),
            rs@.valid(),
    {
        let mut b = self;
        if b.num_points == 0 {
            return RadixSpline::default();
        }
        let ghost fitted = b.state();
        let ghost min = b.min as int;
        let shift = b.shift_bits;
        proof {
            assert(b.min <= b.keys@[b.keys@.len() - 1] <= b.max);
            assert(fitted.knots.last() == b.spline_points@.last()@);
        }
        if b.spline_points[b.spline_points.len() - 1].x != b.prev_x {
            b.add_key_to_spline(Coordinate { x: b.prev_x, y: b.prev_y });
        }
        let ghost knots = points_of(b.spline_points@);
        proof {
            assert(knots =~= closed_knots(fitted));
            lemma_shift_leaves_radix_bits((b.max - b.min) as u32, RADIX_BITS);
            lemma_prefix_monotone(knots.last().x, b.max as int, min, shift);
            assert forall|i: int, j: int| 0 <= i < j < knots.len() implies (#[trigger] knots[i]).x
                < (#[trigger] knots[j]).x && knots[i].y < knots[j].y by {
                if j < fitted.knots.len() {
                    assert(knots[i] == fitted.knots[i] && knots[j] == fitted.knots[j]);
                } else {
                    assert(knots[i] == fitted.knots[i]);
                    if i < fitted.knots.len() - 1 {
                        assert(fitted.knots[i].x < fitted.knots[fitted.knots.len() - 1].x);
                    }
                }
            }
            assert forall|t: int| 0 <= t < knots.len() implies 0 <= (#[trigger] knots[t]).y
                < b.num_points by {
                if t < fitted.knots.len() {
                    assert(knots[t] == fitted.knots[t]);
                    assert(is_data_point(b.keys@, fitted.knots[t]));
                }
            }
            assert forall|t: int| 0 <= t < knots.len() implies prefix_of(
                (#[trigger] knots[t]).x,
                min,
                shift,
            ) <= b.prev_prefix by {
                assert(knots[t].x <= knots[knots.len() - 1].x);
                lemma_prefix_monotone(knots[t].x, knots.last().x, min, shift);
            }
        }
        let ghost filled = b;
        let l: usize = b.radix_table.len();
        let past: usize = b.spline_points.len();
        let mut p: usize = if b.prev_prefix + 1 < l - 1 {
            b.prev_prefix + 1
        } else {
            l - 1
        };
        while p < l
            invariant
                b.prev_prefix < p <= l,
                l == b.radix_table@.len(),
                b == (Builder { radix_table: b.radix_table, ..filled }),
                past == knots.len(),
                forall|t: int|
                    0 <= t < knots.len() ==> prefix_of((#[trigger] knots[t]).x, min, shift)
                        <= b.prev_prefix,
                forall|q: int|
                    0 <= q <= b.prev_prefix ==> entry_splits(
                        knots,
                        min,
                        shift,
                        q,
                        #[trigger] b.radix_table@[q] as int,
                    ),
                forall|q: int|
                    b.prev_prefix < q < p ==> #[trigger] b.radix_table@[q] == past,
            decreases l - p,
        {
            b.radix_table[p] = past;
            p += 1;
        }
        proof {
            assert forall|q: int| 0 <= q < b.radix_table@.len() implies entry_splits(
                knots,
                min,
                shift,
                q,
                #[trigger] b.radix_table@[q] as int,
            ) by {
                if q > b.prev_prefix {
                    assert(b.radix_table@[q] == past);
                }
            }
        }
        RadixSpline::from_parts(
            b.min,
            b.max,
            b.shift_bits,
            b.max_error,
            b.num_points,
            b.radix_table,
            b.spline_points,
        )
    }
}

} // verus!
