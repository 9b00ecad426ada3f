//! The QDH gradient-stress accumulator.
//!
//! Distance and elevation gain arrive as increments. They are collected into
//! buckets of a fixed distance; an increment that crosses a bucket boundary is
//! split there by linear interpolation, and every closed bucket adds
//! `gain² × 10 / distance` to the score.
//!
//! Units: distances and elevations are in micrometres, and the score is in
//! millionths, so that a bucket of `d` µm with `e` µm of gain scores
//! `e² × 10 / d` (the metric formula `(e/1 m)² / (d/1 m) × 10`, times 10⁶).
use vstd::arithmetic::div_mod::lemma_fundamental_div_mod;
use vstd::arithmetic::div_mod::lemma_fundamental_div_mod_converse_div;
use vstd::prelude::*;

verus! {

/// Mathematical state of a QDH accumulator: the score so far, and the
/// distance and elevation gain of the bucket that is still open.
pub struct QdhState {
    pub score: int,
    pub distance: int,
    pub elevation: int,
}

pub open spec fn qdh_zero() -> QdhState {
    QdhState { score: 0, distance: 0, elevation: 0 }
}

/// Score of one closed bucket: `elevation² × 10 / distance`, rounded down.
/// An empty bucket scores zero; a numerator beyond the `u128` range saturates.
pub open spec fn bucket_score(distance: int, elevation: int) -> int {
    if distance <= 0 {
        0
    } else if elevation * elevation * 10 > u128::MAX {
        u128::MAX as int
    } else {
        elevation * elevation * 10 / distance
    }
}

/// `a + b`, saturating at `u128::MAX`.
pub open spec fn add_capped(a: int, b: int) -> int {
    if a + b > u128::MAX {
        u128::MAX as int
    } else {
        a + b
    }
}

/// Closes the open bucket: its score is added and the bucket is emptied.
pub open spec fn flushed(s: QdhState) -> QdhState {
    QdhState {
        score: add_capped(s.score, bucket_score(s.distance, s.elevation)),
        distance: 0,
        elevation: 0,
    }
}

/// Gain over the first `x` of an increment of distance `d` and gain `e`,
/// interpolated linearly and rounded down.
pub open spec fn interp(d: int, e: int, x: int) -> int {
    if d == 0 {
        0
    } else {
        e * x / d
    }
}

/// Feeds the part of the increment `(d, e)` that lies after offset `x` into
/// buckets of length `len`.
pub open spec fn feed_from(s: QdhState, d: int, e: int, len: int, x: int) -> QdhState
    decreases d - x,
{
    if 0 <= s.distance < len && x <= d && s.distance + (d - x) >= len {
        let x2 = x + (len - s.distance);
        let full = QdhState {
            score: s.score,
            distance: len,
            elevation: s.elevation + (interp(d, e, x2) - interp(d, e, x)),
        };
        feed_from(flushed(full), d, e, len, x2)
    } else {
        QdhState {
            score: s.score,
            distance: s.distance + (d - x),
            elevation: s.elevation + (e - interp(d, e, x)),
        }
    }
}

/// Applies one increment. With a bucket length of zero every increment is a
/// bucket of its own.
pub open spec fn qdh_apply(s: QdhState, d: int, e: int, len: int) -> QdhState {
    if len == 0 {
        flushed(feed_from(s, d, e, len, 0))
    } else {
        feed_from(s, d, e, len, 0)
    }
}

/// A state that an accumulator with bucket length `len` can be in between
/// increments.
pub open spec fn qdh_valid(s: QdhState, len: int) -> bool {
    &&& 0 <= s.score <= u128::MAX
    &&& 0 <= s.elevation
    &&& 0 <= s.distance
    &&& len > 0 ==> s.distance < len
    &&& len == 0 ==> s.distance == 0 && s.elevation == 0
}

pub(crate) proof fn lemma_interp_bounds(d: int, e: int, x: int, y: int)
    requires
        0 <= d,
        0 <= e,
        0 <= x <= y <= d,
    ensures
        0 <= interp(d, e, x) <= interp(d, e, y) <= e,
{
    if d > 0 {
        assert(0 <= e * x) by (nonlinear_arith)
            requires
                0 <= e,
                0 <= x,
        ;
        assert(e * x <= e * y) by (nonlinear_arith)
            requires
                0 <= e,
                x <= y,
        ;
        assert(e * y <= e * d) by (nonlinear_arith)
            requires
                0 <= e,
                y <= d,
        ;
        vstd::arithmetic::div_mod::lemma_div_is_ordered(e * x, e * y, d);
        vstd::arithmetic::div_mod::lemma_div_is_ordered(e * y, e * d, d);
        vstd::arithmetic::div_mod::lemma_div_pos_is_pos(e * x, d);
        assert(e * d / d == e) by {
            vstd::arithmetic::div_mod::lemma_div_by_multiple(e, d);
        }
    }
}

pub(crate) proof fn lemma_score_bounds(distance: int, elevation: int)
    ensures
        0 <= bucket_score(distance, elevation) <= u128::MAX,
{
    if distance > 0 && elevation * elevation * 10 <= u128::MAX {
        assert(0 <= elevation * elevation * 10) by (nonlinear_arith);
        vstd::arithmetic::div_mod::lemma_div_pos_is_pos(elevation * elevation * 10, distance);
        vstd::arithmetic::div_mod::lemma_div_nonincreasing(elevation * elevation * 10, distance);
    }
}

/// `(a·y)/d == (b·y)/d1` when `a/d` and `b/d1` are the same ratio.
proof fn lemma_same_ratio(a: int, d: int, b: int, d1: int, y: int)
    requires
        d > 0,
        d1 > 0,
        a * d1 == b * d,
        y >= 0,
    ensures
        (a * y) / d == (b * y) / d1,
{
    let q = (a * y) / d;
    let r = (a * y) % d;
    lemma_fundamental_div_mod(a * y, d);
    assert(0 <= r < d);
    assert(b * y * d == q * d1 * d + r * d1) by (nonlinear_arith)
        requires
            a * y == d * q + r,
            a * d1 == b * d,
    ;
    assert(0 <= r * d1 < d * d1) by (nonlinear_arith)
        requires
            0 <= r < d,
            d1 > 0,
    ;
    assert(q * d1 <= b * y) by (nonlinear_arith)
        requires
            b * y * d == q * d1 * d + r * d1,
            0 <= r * d1,
            d > 0,
    ;
    assert(b * y < (q + 1) * d1) by (nonlinear_arith)
        requires
            b * y * d == q * d1 * d + r * d1,
            r * d1 < d * d1,
            d > 0,
    ;
    assert(b * y - q * d1 < d1) by (nonlinear_arith)
        requires
            b * y < (q + 1) * d1,
    ;
    lemma_fundamental_div_mod_converse_div(b * y, d1, q, b * y - q * d1);
}

pub(crate) proof fn lemma_interp_zero(d: int, e: int)
    ensures
        interp(d, e, 0) == 0,
{
    if d != 0 {
        assert(e * 0 == 0);
        vstd::arithmetic::div_mod::lemma_div_basics(d);
    }
}

/// Interpolating over a whole increment equals interpolating over its first
/// part, up to the split point, when both parts have the same gradient.
proof fn lemma_interp_prefix(d1: int, e1: int, d2: int, e2: int, y: int)
    requires
        0 <= d1,
        0 <= d2,
        e1 * d2 == e2 * d1,
        0 <= y <= d1,
    ensures
        interp(d1 + d2, e1 + e2, y) == interp(d1, e1, y) || d1 == 0,
{
    if d1 > 0 {
        assert(e1 * (d1 + d2) == (e1 + e2) * d1) by (nonlinear_arith)
            requires
                e1 * d2 == e2 * d1,
        ;
        lemma_same_ratio(e1 + e2, d1 + d2, e1, d1, y);
    }
}

/// Past the split point, interpolating over the whole increment equals the
/// first part's gain plus interpolating over the second part.
proof fn lemma_interp_suffix(d1: int, e1: int, d2: int, e2: int, y: int)
    requires
        0 <= d1,
        0 <= d2,
        0 <= e1,
        0 <= e2,
        e1 * d2 == e2 * d1,
        0 <= y <= d2,
        d1 + d2 > 0,
        d2 == 0 ==> y == 0,
    ensures
        interp(d1 + d2, e1 + e2, d1 + y) == e1 + interp(d2, e2, y),
{
    let d = d1 + d2;
    let e = e1 + e2;
    assert(e * d1 == e1 * d) by (nonlinear_arith)
        requires
            e1 * d2 == e2 * d1,
            d == d1 + d2,
            e == e1 + e2,
    ;
    assert(e * (d1 + y) == e1 * d + e * y) by (nonlinear_arith)
        requires
            e * d1 == e1 * d,
    ;
    assert((e1 * d + e * y) / d == e1 + (e * y) / d) by {
        lemma_fundamental_div_mod(e * y, d);
        assert(e1 * d + e * y == (e1 + (e * y) / d) * d + (e * y) % d) by (nonlinear_arith)
            requires
                e * y == d * ((e * y) / d) + (e * y) % d,
        ;
        lemma_fundamental_div_mod_converse_div(e1 * d + e * y, d, e1 + (e * y) / d, (e * y) % d);
    }
    if d2 > 0 {
        assert(e * d2 == e2 * d) by (nonlinear_arith)
            requires
                e1 * d2 == e2 * d1,
                d == d1 + d2,
                e == e1 + e2,
        ;
        lemma_same_ratio(e, d, e2, d2, y);
    } else {
        assert(e * y == 0) by (nonlinear_arith)
            requires
                y == 0,
        ;
        assert(0int / d == 0);
    }
}

/// Continuing the whole increment from `d1 + y` is continuing its second part
/// from `y`.
proof fn lemma_feed_suffix(s: QdhState, d1: int, e1: int, d2: int, e2: int, len: int, y: int)
    requires
        0 <= d1,
        0 <= d2,
        0 <= e1,
        0 <= e2,
        e1 * d2 == e2 * d1,
        0 <= y <= d2,
        d1 + d2 > 0,
        d2 == 0 ==> y == 0,
        len > 0,
    ensures
        feed_from(s, d1 + d2, e1 + e2, len, d1 + y) == feed_from(s, d2, e2, len, y),
    decreases d2 - y,
{
    let d = d1 + d2;
    let e = e1 + e2;
    lemma_interp_suffix(d1, e1, d2, e2, y);
    if 0 <= s.distance < len && s.distance + (d2 - y) >= len {
        let y2 = y + (len - s.distance);
        lemma_interp_suffix(d1, e1, d2, e2, y2);
        let full = QdhState {
            score: s.score,
            distance: len,
            elevation: s.elevation + (interp(d2, e2, y2) - interp(d2, e2, y)),
        };
        lemma_feed_suffix(flushed(full), d1, e1, d2, e2, len, y2);
    }
}

/// Feeding the whole increment from `x` equals feeding its first part from
/// `x` and then its second part.
proof fn lemma_feed_split(s: QdhState, d1: int, e1: int, d2: int, e2: int, len: int, x: int)
    requires
        0 <= d1,
        0 <= d2,
        0 <= e1,
        0 <= e2,
        e1 * d2 == e2 * d1,
        0 <= x <= d1,
        len > 0,
        0 <= s.distance < len,
    ensures
        feed_from(s, d1 + d2, e1 + e2, len, x) == feed_from(
            feed_from(s, d1, e1, len, x),
            d2,
            e2,
            len,
            0,
        ),
    decreases d1 - x,
{
    let d = d1 + d2;
    let e = e1 + e2;
    if s.distance + (d1 - x) >= len {
        let x2 = x + (len - s.distance);
        lemma_interp_prefix(d1, e1, d2, e2, x);
        lemma_interp_prefix(d1, e1, d2, e2, x2);
        let full = QdhState {
            score: s.score,
            distance: len,
            elevation: s.elevation + (interp(d1, e1, x2) - interp(d1, e1, x)),
        };
        lemma_feed_split(flushed(full), d1, e1, d2, e2, len, x2);
    } else if d1 + d2 == 0 {
    } else {
        lemma_interp_prefix(d1, e1, d2, e2, x);
        let s1 = QdhState {
            score: s.score,
            distance: s.distance + (d1 - x),
            elevation: s.elevation + (e1 - interp(d1, e1, x)),
        };
        assert(feed_from(s, d1, e1, len, x) == s1);
        lemma_interp_suffix(d1, e1, d2, e2, 0);
        if s.distance + (d - x) >= len {
            let x2 = x + (len - s.distance);
            let y2 = x2 - d1;
            lemma_interp_suffix(d1, e1, d2, e2, y2);
            let full = QdhState {
                score: s.score,
                distance: len,
                elevation: s.elevation + (interp(d, e, x2) - interp(d, e, x)),
            };
            lemma_interp_zero(d2, e2);
            lemma_interp_zero(d, e);
            lemma_interp_zero(d1, e1);
            assert(feed_from(s1, d2, e2, len, 0) == feed_from(flushed(full), d2, e2, len, y2));
            lemma_feed_suffix(flushed(full), d1, e1, d2, e2, len, y2);
        } else {
            assert(d2 == 0 ==> e2 == 0 || d1 == 0) by (nonlinear_arith)
                requires
                    e1 * d2 == e2 * d1,
                    0 <= d1,
            ;
            if d1 > 0 && d2 == 0 {
                assert(interp(d1, e1, d1) == e1) by {
                    vstd::arithmetic::div_mod::lemma_div_by_multiple(e1, d1);
                }
            }
        }
    }
}

/// Splitting an increment into two consecutive increments along the same
/// gradient leaves the accumulator exactly where the single increment does:
/// the bucketed sum does not depend on how the climb was sampled.
pub proof fn lemma_qdh_additive(s: QdhState, d1: int, e1: int, d2: int, e2: int, len: int)
    requires
        qdh_valid(s, len),
        len > 0,
        0 <= d1,
        0 <= d2,
        0 <= e1,
        0 <= e2,
        e1 * d2 == e2 * d1,
    ensures
        qdh_apply(qdh_apply(s, d1, e1, len), d2, e2, len) == qdh_apply(s, d1 + d2, e1 + e2, len),
{
    lemma_feed_split(s, d1, e1, d2, e2, len, 0);
}

/// A QDH accumulator: the score so far and the open bucket.
#[derive(Clone, Copy, Debug, PartialEq, Eq)]
pub struct Qdh {
    /// Score so far, in millionths.
    pub qdh: u128,
    /// Distance of the open bucket, in micrometres.
    pub distance: u64,
    /// Elevation gain of the open bucket, in micrometres.
    pub elevation: u128,
}

impl View for Qdh {
    type V = QdhState;

    open spec fn view(&self) -> QdhState {
        QdhState {
            score: self.qdh as int,
            distance: self.distance as int,
            elevation: self.elevation as int,
        }
    }
}

/// Gain over the first `x` of the increment `(d, e)`.
fn interp_exec(d: u64, e: u64, x: u64) -> (r: u128)
    requires
        x <= d,
    ensures
        r == interp(d as int, e as int, x as int),
        r <= e,
{
    proof {
        lemma_interp_bounds(d as int, e as int, x as int, d as int);
    }
    if d == 0 {
        0
    } else {
        assert((e as u128) * (x as u128) <= u128::MAX) by (nonlinear_arith)
            requires
                e <= u64::MAX,
                x <= u64::MAX,
        ;
        (e as u128) * (x as u128) / (d as u128)
    }
}

fn bucket_score_exec(distance: u64, elevation: u128) -> (r: u128)
    ensures
        r == bucket_score(distance as int, elevation as int),
{
    if distance == 0 {
        0
    } else {
        match elevation.checked_mul(elevation) {
            Some(sq) => match sq.checked_mul(10) {
                Some(n) => n / (distance as u128),
                None => u128::MAX,
            },
            None => {
                assert(elevation * elevation * 10 > u128::MAX) by (nonlinear_arith)
                    requires
                        elevation * elevation > u128::MAX,
                ;
                u128::MAX
            },
        }
    }
}

impl Qdh {
    /// An accumulator with no score and an empty bucket.
    pub fn zero() -> (r: Self)
        ensures
            r@ == qdh_zero(),
    {
        Qdh { qdh: 0, distance: 0, elevation: 0 }
    }

    /// Adds distance and gain to the open bucket.
    pub fn increment(&mut self, inc_distance: u64, inc_elevation: u128)
        requires
            old(self).distance + inc_distance <= u64::MAX,
            old(self).elevation + inc_elevation <= u128::MAX,
        ensures
            final(self)@ == (QdhState {
                score: old(self)@.score,
                distance: old(self)@.distance + inc_distance,
                elevation: old(self)@.elevation + inc_elevation,
            }),
    {
        self.distance = self.distance + inc_distance;
        self.elevation = self.elevation + inc_elevation;
    }

    /// Closes the open bucket, adding its score.
    pub fn flush(&mut self)
        ensures
            final(self)@ == flushed(old(self)@),
    {
        let c = bucket_score_exec(self.distance, self.elevation);
        if self.qdh > u128::MAX - c {
            self.qdh = u128::MAX;
        } else {
            self.qdh = self.qdh + c;
        }
        self.distance = 0;
        self.elevation = 0;
    }

    /// Applies the increment `(inc_distance, inc_elevation)` with buckets of
    /// `group_length`, and closes the open bucket afterwards when `flush` is set.
    pub fn update(&mut self, inc_distance: u64, inc_elevation: u64, group_length: u64, flush: bool)
        requires
            qdh_valid(old(self)@, group_length as int),
            old(self).elevation + inc_elevation <= u128::MAX,
        ensures
            final(self)@ == (if flush {
                flushed(qdh_apply(old(self)@, inc_distance as int, inc_elevation as int, group_length as int))
            } else {
                qdh_apply(old(self)@, inc_distance as int, inc_elevation as int, group_length as int)
            }),
            qdh_valid(final(self)@, group_length as int),
            final(self).elevation <= old(self).elevation + inc_elevation,
    {
        let ghost s0 = self@;
        let ghost d = inc_distance as int;
        let ghost e = inc_elevation as int;
        let ghost len = group_length as int;
        proof {
            lemma_interp_zero(d, e);
        }
        if group_length == 0 {
            self.increment(inc_distance, inc_elevation as u128);
            self.flush();
            proof {
                lemma_score_bounds(d, e);
            }
            return;
        }
        let mut x: u64 = 0;
        while (self.distance as u128) + ((inc_distance - x) as u128) >= group_length as u128
            invariant
                x <= inc_distance,
                d == inc_distance,
                e == inc_elevation,
                len == group_length,
                len > 0,
                self.distance < group_length,
                0 <= self@.score <= u128::MAX,
                feed_from(self@, d, e, len, x as int) == feed_from(s0, d, e, len, 0),
                self.elevation + (e - interp(d, e, x as int)) <= s0.elevation + e,
                s0.elevation + e <= u128::MAX,
            decreases inc_distance - x,
        {
            let x2 = x + (group_length - self.distance);
            proof {
                lemma_interp_bounds(d, e, x as int, x2 as int);
                lemma_interp_bounds(d, e, x2 as int, d);
            }
            let piece = interp_exec(inc_distance, inc_elevation, x2) - interp_exec(
                inc_distance,
                inc_elevation,
                x,
            );
            self.elevation = self.elevation + piece;
            self.distance = group_length;
            self.flush();
            proof {
                lemma_score_bounds(len, self@.elevation);
            }
            x = x2;
        }
        proof {
            lemma_interp_bounds(d, e, x as int, d);
        }
        let rest = inc_elevation as u128 - interp_exec(inc_distance, inc_elevation, x);
        self.increment(inc_distance - x, rest);
        if flush {
            let ghost before = self@;
            self.flush();
            proof {
                lemma_score_bounds(before.distance, before.elevation);
            }
        }
    }
}

} // verus!
