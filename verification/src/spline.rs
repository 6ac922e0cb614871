//! The finished index and its lookups: from a key to the spline segment that
//! covers it, to the estimated position, to the range to search.
use vstd::prelude::*;
use crate::builder::{points_of, Coordinate};
use crate::fit::{closed_knots, fit_all, increasing};
use crate::geometry::Point;
use crate::radix::{
    entry_splits, lemma_prefix_monotone, lemma_shift_leaves_radix_bits, prefix_of, shift_bits_spec,
    table_splits, RADIX_BITS,
};

verus! {

/// A bucket of the radix table with fewer knots than this is searched one by
/// one, a larger one by bisection.
pub const LINEAR_THRESH: usize = 32;

/// A non-negative fraction.
pub struct Ratio {
    pub num: int,
    pub den: int,
}

/// What an index is made of: the range of its keys, the error it keeps, the
/// number of keys it was built from, and the knots of its spline.
pub struct Index {
    pub min: int,
    pub max: int,
    pub max_error: int,
    pub num_points: int,
    pub knots: Seq<Point>,
}

/// How many of `knots` have a key below `key`. With knots in increasing order
/// it is the index of the first knot at or beyond `key`.
pub open spec fn knots_before(knots: Seq<Point>, key: int) -> int
    decreases knots.len(),
{
    if knots.len() == 0 {
        0
    } else {
        knots_before(knots.drop_last(), key) + if knots.last().x < key {
            1int
        } else {
            0int
        }
    }
}

/// `value`, or the nearer end of `lo..=hi` where it lies outside.
pub open spec fn clamp(value: int, lo: int, hi: int) -> int {
    if value < lo {
        lo
    } else if value > hi {
        hi
    } else {
        value
    }
}

impl Index {
    /// The index is one that a builder can have made: it is empty, or its
    /// knots come in increasing order, with keys in its range and ranks below
    /// the number of its keys.
    pub open spec fn valid(self) -> bool {
        &&& 0 <= self.max_error
        &&& 0 <= self.num_points
        &&& self.num_points == 0 ==> self.knots.len() == 0
        &&& self.num_points > 0 ==> {
            &&& self.min <= self.max
            &&& self.knots.len() >= 1
            &&& increasing(self.knots)
            &&& forall|t: int|
                0 <= t < self.knots.len() ==> {
                    &&& self.min <= (#[trigger] self.knots[t]).x <= self.max
                    &&& 0 <= self.knots[t].y < self.num_points
                }
        }
    }

    /// The index of the first knot at or beyond `key`; the number of knots
    /// where there is none.
    pub open spec fn segment(self, key: int) -> int {
        knots_before(self.knots, key)
    }

    /// The estimated position of `key`, as an exact fraction.
    ///
    /// It is 0 up to the smallest key and before the first knot, the last
    /// position from the greatest key on and after the last knot, and between
    /// two knots the rank that the line through them gives.
    pub open spec fn estimate(self, key: int) -> Ratio {
        if self.num_points == 0 || key <= self.min {
            Ratio { num: 0, den: 1 }
        } else if key >= self.max {
            Ratio { num: self.num_points - 1, den: 1 }
        } else {
            let idx = self.segment(key);
            if idx == 0 {
                Ratio { num: 0, den: 1 }
            } else if idx == self.knots.len() {
                Ratio { num: self.num_points - 1, den: 1 }
            } else {
                let l = self.knots[idx - 1];
                let r = self.knots[idx];
                Ratio { num: l.y * (r.x - l.x) + (key - l.x) * (r.y - l.y), den: r.x - l.x }
            }
        }
    }

    /// The range of positions in which `key` is to be searched: from the
    /// estimate less the error to the estimate plus the error and two, both
    /// rounded down and kept between 0 and the number of keys.
    pub open spec fn bound(self, key: int) -> (int, int) {
        let est = self.estimate(key);
        let floor = est.num / est.den;
        (
            clamp(floor - self.max_error, 0, self.num_points),
            clamp(floor + self.max_error + 2, 0, self.num_points),
        )
    }
}

/// The index over `keys`, built for keys from `min` to `max` with the error
/// `err`. Without keys it is the empty index, which forgets the range and the
/// error.
pub open spec fn index_of(min: int, max: int, err: int, keys: Seq<u32>) -> Index {
    if keys.len() == 0 {
        Index { min: 0, max: 0, max_error: 0, num_points: 0, knots: Seq::empty() }
    } else {
        Index {
            min,
            max,
            max_error: err,
            num_points: keys.len() as int,
            knots: closed_knots(fit_all(min, err, keys)),
        }
    }
}

/// An estimated position: `whole + rem / den`, with `rem < den`.
#[derive(Clone, Copy, Debug)]
pub struct Estimate {
    pub whole: usize,
    pub rem: u32,
    pub den: u32,
}

impl View for Estimate {
    type V = Ratio;

    open spec fn view(&self) -> Ratio {
        Ratio { num: self.whole * self.den + self.rem, den: self.den as int }
    }
}

/// A radix spline: a spline over the ranks of the keys it was built from,
/// with a radix table that leads from the prefix of a key to the knots near
/// it.
#[derive(Debug)]
pub struct RadixSpline {
    min: u32,
    max: u32,
    shift_bits: u32,
    max_error: usize,
    num_points: usize,
    radix_table: Vec<usize>,
    spline_points: Vec<Coordinate>,
}

impl View for RadixSpline {
    type V = Index;

    closed spec fn view(&self) -> Index {
        Index {
            min: self.min as int,
            max: self.max as int,
            max_error: self.max_error as int,
            num_points: self.num_points as int,
            knots: points_of(self.spline_points@),
        }
    }
}

/// In increasing knots the index that parts the keys below `key` from the
/// others is the number of knots below `key`.
pub proof fn lemma_knots_before(knots: Seq<Point>, key: int, idx: int)
    requires
        0 <= idx <= knots.len(),
        forall|i: int| 0 <= i < idx ==> (#[trigger] knots[i]).x < key,
        forall|i: int| idx <= i < knots.len() ==> (#[trigger] knots[i]).x >= key,
    ensures
        knots_before(knots, key) == idx,
    decreases knots.len(),
{
    if knots.len() > 0 {
        let front = knots.drop_last();
        assert forall|i: int| 0 <= i < front.len() implies front[i] == knots[i] by {}
        if idx == knots.len() {
            assert(knots[idx - 1].x < key);
            lemma_knots_before(front, key, idx - 1);
        } else {
            assert(knots[knots.len() - 1].x >= key);
            lemma_knots_before(front, key, idx);
        }
    }
}

impl RadixSpline {
    /// Every index is in order: it is empty, or its knots increase and its
    /// radix table leads, for every prefix, to the first knot at or beyond it.
    #[verifier::type_invariant]
    spec fn wf(&self) -> bool {
        &&& self@.valid()
        &&& self.num_points == 0 ==> self.radix_table@.len() == 0
        &&& self.num_points > 0 ==> {
            &&& self.shift_bits as int == shift_bits_spec((self.max - self.min) as u32, RADIX_BITS)
            &&& self.radix_table@.len() == 2 + prefix_of(
                self.max as int,
                self.min as int,
                self.shift_bits,
            )
            &&& table_splits(
                self.radix_table@,
                points_of(self.spline_points@),
                self.min as int,
                self.shift_bits,
            )
        }
    }

    /// Puts an index together from its parts.
    pub(crate) fn from_parts(
        min: u32,
        max: u32,
        shift_bits: u32,
        max_error: usize,
        num_points: usize,
        radix_table: Vec<usize>,
        spline_points: Vec<Coordinate>,
    ) -> (rs: Self)
        requires
            num_points > 0,
            min <= max,
            shift_bits as int == shift_bits_spec((max - min) as u32, RADIX_BITS),
            radix_table@.len() == 2 + prefix_of(max as int, min as int, shift_bits),
            table_splits(radix_table@, points_of(spline_points@), min as int, shift_bits),
            (Index {
                min: min as int,
                max: max as int,
                max_error: max_error as int,
                num_points: num_points as int,
                knots: points_of(spline_points@),
            }).valid(),
        ensures
            rs@ == (Index {
                min: min as int,
                max: max as int,
                max_error: max_error as int,
                num_points: num_points as int,
                knots: points_of(spline_points@),
            }),
            rs@.valid(),
    {
        RadixSpline { min, max, shift_bits, max_error, num_points, radix_table, spline_points }
    }

    /// The number of keys that the index was built from; 0 for the empty
    /// index.
    pub fn num_points(&self) -> (n: usize)
        ensures
            n == self@.num_points,
    {
        self.num_points
    }

    /// The error that the index keeps.
    pub fn max_error(&self) -> (err: usize)
        ensures
            err == self@.max_error,
    {
        self.max_error
    }

    /// The knots of the spline, in increasing order.
    pub fn spline_points(&self) -> (knots: &Vec<Coordinate>)
        ensures
            points_of(knots@) == self@.knots,
    {
        &self.spline_points
    }

    /// The radix table. It has an entry for every prefix up to that of the
    /// greatest key of the range and one more, and each leads to the first
    /// knot at or beyond its prefix.
    pub fn radix_table(&self) -> (table: &Vec<usize>)
        ensures
            self@.num_points == 0 ==> table@.len() == 0,
            self@.num_points > 0 ==> {
                let shift = shift_bits_spec((self@.max - self@.min) as u32, RADIX_BITS) as u32;
                &&& table@.len() == 2 + prefix_of(self@.max, self@.min, shift)
                &&& table_splits(table@, self@.knots, self@.min, shift)
            },
    {
        proof {
            use_type_invariant(self);
        }
        &self.radix_table
    }

    /// Finds the spline segment that covers `key`: the index of the first
    /// knot at or beyond it. Only the knots that share the prefix of `key`
    /// are looked at.
    fn spline_segment(&self, key: &u32) -> (idx: usize)
        requires
            self.num_points > 0,
            self.min < *key < self.max,
        ensures
            idx == self@.segment(*key as int),
            idx <= self.spline_points@.len(),
    {
        let ghost knots = points_of(self.spline_points@);
        let ghost min = self.min as int;
        let shift = self.shift_bits;
        proof {
            use_type_invariant(self);
            lemma_shift_leaves_radix_bits((self.max - self.min) as u32, RADIX_BITS);
            lemma_prefix_monotone(*key as int, self.max as int, min, shift);
        }
        let prefix: usize = ((*key - self.min) >> self.shift_bits) as usize;
        let begin: usize = self.radix_table[prefix];
        let end: usize = self.radix_table[prefix + 1];
        proof {
            assert(entry_splits(knots, min, shift, prefix as int, begin as int));
            assert(entry_splits(knots, min, shift, prefix + 1, end as int));
            assert forall|i: int| 0 <= i < begin implies (#[trigger] knots[i]).x < *key by {
                if knots[i].x >= *key {
                    lemma_prefix_monotone(*key as int, knots[i].x, min, shift);
                }
            }
            assert forall|i: int| end <= i < knots.len() implies (#[trigger] knots[i]).x > *key by {
                if knots[i].x <= *key {
                    lemma_prefix_monotone(knots[i].x, *key as int, min, shift);
                }
            }
            if end < begin {
                assert(knots[end as int].x > *key);
            }
        }
        if end == begin {
            proof {
                lemma_knots_before(knots, *key as int, begin as int);
            }
            return begin;
        } else if end - begin < LINEAR_THRESH {
            let mut i: usize = begin;
            while i < end
                invariant
                    begin <= i <= end <= self.spline_points@.len(),
                    knots == points_of(self.spline_points@),
                    increasing(knots),
                    forall|j: int| 0 <= j < i ==> (#[trigger] knots[j]).x < *key,
                    forall|j: int| end <= j < knots.len() ==> (#[trigger] knots[j]).x > *key,
                decreases end - i,
            {
                if self.spline_points[i].x >= *key {
                    proof {
                        assert(knots[i as int].x >= *key);
                        assert forall|j: int| i <= j < knots.len() implies (#[trigger] knots[j]).x
                            >= *key by {
                            if j > i {
                                assert(knots[i as int].x < knots[j].x);
                            }
                        }
                        lemma_knots_before(knots, *key as int, i as int);
                    }
                    return i;
                }
                assert(knots[i as int].x < *key);
                i += 1;
            }
            proof {
                lemma_knots_before(knots, *key as int, end as int);
            }
            return end;
        }
        let mut lo: usize = begin;
        let mut hi: usize = end;
        while lo < hi
            invariant
                begin <= lo <= hi <= end <= self.spline_points@.len(),
                knots == points_of(self.spline_points@),
                increasing(knots),
                forall|j: int| 0 <= j < lo ==> (#[trigger] knots[j]).x < *key,
                forall|j: int| hi <= j < knots.len() ==> (#[trigger] knots[j]).x >= *key,
            decreases hi - lo,
        {
            let mid: usize = lo + (hi - lo) / 2;
            let x: u32 = self.spline_points[mid].x;
            assert(knots[mid as int].x == x);
            if x == *key {
                proof {
                    assert forall|j: int| 0 <= j < mid implies (#[trigger] knots[j]).x < *key by {
                        assert(knots[j].x < knots[mid as int].x);
                    }
                    assert forall|j: int| mid <= j < knots.len() implies (#[trigger] knots[j]).x
                        >= *key by {
                        if j > mid {
                            assert(knots[mid as int].x < knots[j].x);
                        }
                    }
                    lemma_knots_before(knots, *key as int, mid as int);
                }
                return mid;
            } else if x < *key {
                proof {
                    assert forall|j: int| 0 <= j < mid + 1 implies (#[trigger] knots[j]).x
                        < *key by {
                        if j < mid {
                            assert(knots[j].x < knots[mid as int].x);
                        }
                    }
                }
                lo = mid + 1;
            } else {
                proof {
                    assert forall|j: int| mid <= j < knots.len() implies (#[trigger] knots[j]).x
                        >= *key by {
                        if j > mid {
                            assert(knots[mid as int].x < knots[j].x);
                        }
                    }
                }
                hi = mid;
            }
        }
        proof {
            lemma_knots_before(knots, *key as int, lo as int);
        }
        lo
    }

    /// The position `whole`, without a fraction.
    fn whole_position(whole: usize) -> (est: Estimate)
        ensures
            est@ == (Ratio { num: whole as int, den: 1 }),
            est.whole == whole,
            est.rem == 0,
            est.den == 1,
    {
        let est = Estimate { whole, rem: 0, den: 1 };
        assert(est.whole * est.den == whole) by (nonlinear_arith)
            requires
                est.whole == whole,
                est.den == 1,
        ;
        est
    }

    /// The estimated position of `key` in the data: 0 up to the smallest key
    /// of the range, the last position from the greatest on, and between two
    /// knots what the line through them gives at `key`, as an exact fraction.
    /// On an empty index it is 0.
    pub fn get_estimated_position(&self, key: &u32) -> (est: Estimate)
        ensures
            est@ == self@.estimate(*key as int),
            est.rem < est.den,
            *key <= self@.min ==> est.whole == 0 && est.rem == 0,
            self@.num_points > 0 && self@.min < *key && self@.max <= *key ==> est.whole
                == self@.num_points - 1 && est.rem == 0,
            est.whole < self@.num_points || self@.num_points == 0,
    {
        proof {
            use_type_invariant(self);
        }
        if self.num_points == 0 || *key <= self.min {
            return Self::whole_position(0);
        } else if *key >= self.max {
            return Self::whole_position(self.num_points - 1);
        }
        let idx: usize = self.spline_segment(key);
        if idx == 0 {
            return Self::whole_position(0);
        } else if idx == self.spline_points.len() {
            return Self::whole_position(self.num_points - 1);
        }
        let l = self.spline_points[idx - 1];
        let r = self.spline_points[idx];
        proof {
            let knots = points_of(self.spline_points@);
            assert(knots[idx - 1] == l@ && knots[idx as int] == r@);
            assert(knots[idx - 1].x < knots[idx as int].x);
            // the key lies after the left knot and not after the right one
            if l.x >= *key {
                assert forall|i: int| idx - 1 <= i < knots.len() implies (#[trigger] knots[i]).x
                    >= *key by {
                    if i > idx - 1 {
                        assert(knots[idx - 1].x < knots[i].x);
                    }
                }
                assert forall|i: int| 0 <= i < idx - 1 implies (#[trigger] knots[i]).x < *key by {
                    lemma_counted_below(knots, *key as int, i);
                }
                lemma_knots_before(knots, *key as int, idx - 1);
            }
            if r.x < *key {
                lemma_counted_beyond(knots, *key as int, idx as int);
            }
        }
        let den: u32 = r.x - l.x;
        let run: u128 = (*key - l.x) as u128;
        let rise: u128 = (r.y - l.y) as u128;
        assert(run * rise <= den * rise) by (nonlinear_arith)
            requires
                run <= den,
                0 <= rise,
        ;
        assert(den * rise <= 0xffff_ffff * 0xffff_ffff_ffff_ffff) by (nonlinear_arith)
            requires
                0 <= den <= 0xffff_ffff,
                0 <= rise <= 0xffff_ffff_ffff_ffff,
        ;
        let gain: u128 = run * rise;
        let steps: u128 = gain / (den as u128);
        let rem: u128 = gain % (den as u128);
        proof {
            vstd::arithmetic::div_mod::lemma_fundamental_div_mod(gain as int, den as int);
            assert(steps <= rise) by (nonlinear_arith)
                requires
                    gain == den * steps + rem,
                    0 <= rem,
                    gain <= den * rise,
                    den > 0,
            ;
            assert((l.y + steps) * den + rem == l.y * den + gain) by (nonlinear_arith)
                requires
                    gain == den * steps + rem,
            ;
        }
        Estimate { whole: l.y + steps as usize, rem: rem as u32, den }
    }

    /// The range `start..end` of positions of the data in which `key` lies if
    /// it is there at all: the estimated position, rounded down, less the
    /// error, and the same plus the error and two, both kept between 0 and
    /// the number of keys.
    pub fn search_bound(&self, key: &u32) -> (range: (usize, usize))
        ensures
            (range.0 as int, range.1 as int) == self@.bound(*key as int),
            range.0 <= range.1 <= self@.num_points,
            range.1 - range.0 <= 2 * self@.max_error + 2,
    {
        let est = self.get_estimated_position(key);
        proof {
            use_type_invariant(self);
            let exact = self@.estimate(*key as int);
            assert(exact.num == est.whole * est.den + est.rem);
            vstd::arithmetic::div_mod::lemma_fundamental_div_mod_converse(
                exact.num,
                est.den as int,
                est.whole as int,
                est.rem as int,
            );
        }
        let start: usize = if est.whole > self.max_error {
            est.whole - self.max_error
        } else {
            0
        };
        let reach: u128 = est.whole as u128 + self.max_error as u128 + 2;
        let end: usize = if reach > self.num_points as u128 {
            self.num_points
        } else {
            reach as usize
        };
        (start, end)
    }
}

/// Of increasing knots, those before the number of knots below `key` lie
/// below `key`.
pub proof fn lemma_counted_below(knots: Seq<Point>, key: int, i: int)
    requires
        increasing(knots),
        0 <= i < knots_before(knots, key),
    ensures
        i < knots.len(),
        knots[i].x < key,
    decreases knots.len(),
{
    if knots.len() > 0 {
        let front = knots.drop_last();
        assert forall|a: int, b: int| 0 <= a < b < front.len() implies (#[trigger] front[a]).x
            < (#[trigger] front[b]).x && front[a].y < front[b].y by {
            assert(front[a] == knots[a] && front[b] == knots[b]);
        }
        if i < knots_before(front, key) {
            lemma_counted_below(front, key, i);
            assert(front[i] == knots[i]);
        } else {
            // the last knot is counted, and the count of the others is `i`
            lemma_count_at_most_len(front, key);
            if i < front.len() {
                assert(knots[i].x < knots[knots.len() - 1].x);
            }
        }
    }
}

/// No more knots lie below a key than there are knots.
pub proof fn lemma_count_at_most_len(knots: Seq<Point>, key: int)
    ensures
        0 <= knots_before(knots, key) <= knots.len(),
    decreases knots.len(),
{
    if knots.len() > 0 {
        lemma_count_at_most_len(knots.drop_last(), key);
    }
}

/// Of increasing knots, those from the number of knots below `key` on do not
/// lie below `key`.
pub proof fn lemma_counted_beyond(knots: Seq<Point>, key: int, i: int)
    requires
        increasing(knots),
        knots_before(knots, key) <= i < knots.len(),
    ensures
        knots[i].x >= key,
    decreases knots.len(),
{
    if knots.len() > 0 {
        let front = knots.drop_last();
        assert forall|a: int, b: int| 0 <= a < b < front.len() implies (#[trigger] front[a]).x
            < (#[trigger] front[b]).x && front[a].y < front[b].y by {
            assert(front[a] == knots[a] && front[b] == knots[b]);
        }
        lemma_count_at_most_len(front, key);
        if i < front.len() {
            lemma_counted_beyond(front, key, i);
            assert(front[i] == knots[i]);
        } else if knots.last().x < key {
            // every knot is counted, so none is left at `i`
            assert forall|j: int| 0 <= j < knots.len() implies (#[trigger] knots[j]).x < key by {
                if j < knots.len() - 1 {
                    assert(knots[j].x < knots[knots.len() - 1].x);
                }
            }
            lemma_knots_before(knots, key, knots.len() as int);
        }
    }
}

impl Default for RadixSpline {
    /// The empty index.
    fn default() -> (rs: Self)
        ensures
            rs@ == (Index { min: 0, max: 0, max_error: 0, num_points: 0, knots: Seq::empty() }),
            rs@.valid(),
    {
        let rs = RadixSpline {
            min: 0,
            max: 0,
            shift_bits: 0,
            max_error: 0,
            num_points: 0,
            radix_table: Vec::new(),
            spline_points: Vec::new(),
        };
        proof {
            assert(points_of(rs.spline_points@) =~= Seq::<Point>::empty());
        }
        rs
    }
}

} // verus!
