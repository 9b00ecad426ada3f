//! The windowed aggregation engine.
//!
//! Consecutive samples give increments of group metric, duration, distance,
//! elevation gain, power and heart rate. The increments are summed into
//! windows of a fixed size in the group metric; an increment that crosses a
//! window boundary is split there by linear interpolation, so that nothing is
//! counted twice or lost. Each window also carries the QDH score of its
//! distance and climbing.
//!
//! Units: durations are in microseconds, distances and elevations in
//! micrometres. Power and heart rate are summed over time: an increment is the
//! mean of the two samples' values (in millionths) times the duration.
use crate::qdh::{
    flushed, interp, lemma_interp_bounds, qdh_apply, qdh_valid, qdh_zero, Qdh, QdhState,
};
use crate::trackpoint::{TcxError, Trackpoint};
use crate::tags::Tag;
use vstd::arithmetic::div_mod::lemma_fundamental_div_mod;
use vstd::arithmetic::div_mod::lemma_fundamental_div_mod_converse_div;
use vstd::prelude::*;

verus! {

/// Largest distance a sample may hold: 2⁵⁰ µm, about 1.1 million km.
pub const MAX_DISTANCE: i64 = 1125899906842624;

/// Largest magnitude of an altitude: 2⁴⁴ µm, about 17 600 km.
pub const MAX_ALTITUDE: i64 = 17592186044416;

/// Largest power or heart rate: 2⁴⁰ millionths, about 1.1 million.
pub const MAX_RATE: i64 = 1099511627776;

/// Longest time from the first to the last sample: 2⁵⁰ µs, about 35 years.
pub const MAX_SPAN: i64 = 1125899906842624;

/// Most samples that one aggregation takes: 2³².
pub const MAX_SAMPLES: u64 = 4294967296;

/// The open window at the end is emitted only where it holds more than
/// `1 / TRAILING_DIVISOR` of a window.
pub const TRAILING_DIVISOR: u128 = 1000000;

/// Bound on every field of one increment: 2⁹⁰.
pub const STEP_MAX: u128 = 1237940039285380274899124224;

/// The metric whose running total decides where a window closes.
#[derive(Clone, Copy, PartialEq, Eq, Debug, Structural)]
pub enum GroupBy {
    Distance,
    Duration,
}

/// How the window size is chosen: a fixed length in the group metric
/// (micrometres or microseconds), or a count of equal windows over the
/// whole activity.
#[derive(Clone, Copy, PartialEq, Eq, Debug, Structural)]
pub enum Grouping {
    Length(GroupBy, u64),
    Count(GroupBy, u64),
}

/// Mathematical value of a [`Values`].
pub struct Totals {
    pub group: int,
    pub duration: int,
    pub distance: int,
    pub elevation: int,
    pub power: int,
    pub heartrate: int,
}

/// Sums over a window, or the increments between two samples.
#[derive(Clone, Copy, PartialEq, Eq, Debug)]
pub struct Values {
    /// Group metric.
    pub group_len: u128,
    /// Elapsed time, µs.
    pub duration: u128,
    /// Distance, µm.
    pub distance: u128,
    /// Elevation gain, µm.
    pub elevation: u128,
    /// Power integrated over time, millionths of a watt times µs.
    pub power: u128,
    /// Heart rate integrated over time, millionths of a beat per minute times µs.
    pub heartrate: u128,
}

impl View for Values {
    type V = Totals;

    open spec fn view(&self) -> Totals {
        Totals {
            group: self.group_len as int,
            duration: self.duration as int,
            distance: self.distance as int,
            elevation: self.elevation as int,
            power: self.power as int,
            heartrate: self.heartrate as int,
        }
    }
}

/// Mathematical value of a [`Window`].
pub struct WindowModel {
    pub values: Totals,
    pub qdh: int,
}

/// The summary of one closed window: its sums and its QDH score.
#[derive(Clone, Copy, PartialEq, Eq, Debug)]
pub struct Window {
    pub values: Values,
    /// QDH score, in millionths.
    pub qdh: u128,
}

impl View for Window {
    type V = WindowModel;

    open spec fn view(&self) -> WindowModel {
        WindowModel { values: self.values@, qdh: self.qdh as int }
    }
}

pub open spec fn windows_view(ws: Seq<Window>) -> Seq<WindowModel> {
    ws.map_values(|w: Window| w@)
}

pub open spec fn totals_zero() -> Totals {
    Totals { group: 0, duration: 0, distance: 0, elevation: 0, power: 0, heartrate: 0 }
}

pub open spec fn totals_add(a: Totals, b: Totals) -> Totals {
    Totals {
        group: a.group + b.group,
        duration: a.duration + b.duration,
        distance: a.distance + b.distance,
        elevation: a.elevation + b.elevation,
        power: a.power + b.power,
        heartrate: a.heartrate + b.heartrate,
    }
}

/// The share of an increment between offsets `t` and `t2` of its group
/// metric, interpolated linearly and rounded down field by field.
pub open spec fn piece(inc: Totals, t: int, t2: int) -> Totals {
    Totals {
        group: interp(inc.group, inc.group, t2) - interp(inc.group, inc.group, t),
        duration: interp(inc.group, inc.duration, t2) - interp(inc.group, inc.duration, t),
        distance: interp(inc.group, inc.distance, t2) - interp(inc.group, inc.distance, t),
        elevation: interp(inc.group, inc.elevation, t2) - interp(inc.group, inc.elevation, t),
        power: interp(inc.group, inc.power, t2) - interp(inc.group, inc.power, t),
        heartrate: interp(inc.group, inc.heartrate, t2) - interp(inc.group, inc.heartrate, t),
    }
}

/// The share of an increment after `t`.
pub open spec fn rest(inc: Totals, t: int) -> Totals {
    Totals {
        group: inc.group - interp(inc.group, inc.group, t),
        duration: inc.duration - interp(inc.group, inc.duration, t),
        distance: inc.distance - interp(inc.group, inc.distance, t),
        elevation: inc.elevation - interp(inc.group, inc.elevation, t),
        power: inc.power - interp(inc.group, inc.power, t),
        heartrate: inc.heartrate - interp(inc.group, inc.heartrate, t),
    }
}

pub open spec fn opt_or_zero(v: Option<i64>) -> int {
    match v {
        Some(x) => x as int,
        None => 0,
    }
}

/// The change of the group metric from `m` to `n`, as the aggregation
/// counts it: it only reads samples that carry a distance.
pub open spec fn metric_delta(by: GroupBy, m: Trackpoint, n: Trackpoint) -> int {
    match by {
        GroupBy::Distance => opt_or_zero(n.distance) - opt_or_zero(m.distance),
        GroupBy::Duration => n.time - m.time,
    }
}

/// The change of the group metric from `m` to `n`; a change of distance
/// needs both distances, and is `None` where one is missing.
pub open spec fn group_delta(by: GroupBy, m: Trackpoint, n: Trackpoint) -> Option<int> {
    match by {
        GroupBy::Distance => match (m.distance, n.distance) {
            (Some(a), Some(b)) => Some(b - a),
            _ => None,
        },
        GroupBy::Duration => Some(n.time - m.time),
    }
}

/// The increments from sample `m` to sample `n`: elevation counts climbs
/// only, power and heart rate are integrated by the trapezoid rule with an
/// absent value taken as zero.
pub open spec fn delta(m: Trackpoint, n: Trackpoint, by: GroupBy) -> Totals {
    let dur = n.time - m.time;
    let climb = opt_or_zero(n.altitude) - opt_or_zero(m.altitude);
    Totals {
        group: metric_delta(by, m, n),
        duration: dur,
        distance: metric_delta(GroupBy::Distance, m, n),
        elevation: if climb > 0 {
            climb
        } else {
            0
        },
        power: (opt_or_zero(n.power) + opt_or_zero(m.power)) * dur / 2,
        heartrate: (opt_or_zero(n.heartrate) + opt_or_zero(m.heartrate)) * dur / 2,
    }
}

/// State of the fold: the windows closed so far, the open window and the
/// QDH accumulator of the open window.
pub struct Engine {
    pub windows: Seq<WindowModel>,
    pub acc: Totals,
    pub qdh: QdhState,
}

pub open spec fn engine_start() -> Engine {
    Engine { windows: Seq::empty(), acc: totals_zero(), qdh: qdh_zero() }
}

/// Feeds the part of `inc` after offset `t` of its group metric into windows
/// of `size`, with QDH buckets of `qdh_len`.
pub open spec fn feed_window(st: Engine, inc: Totals, size: int, qdh_len: int, t: int) -> Engine
    decreases inc.group - t,
{
    if 0 <= st.acc.group < size && t <= inc.group && st.acc.group + (inc.group - t) >= size {
        let t2 = t + (size - st.acc.group);
        let p = piece(inc, t, t2);
        let q = flushed(qdh_apply(st.qdh, p.distance, p.elevation, qdh_len));
        let w = WindowModel { values: totals_add(st.acc, p), qdh: q.score };
        feed_window(
            Engine { windows: st.windows.push(w), acc: totals_zero(), qdh: qdh_zero() },
            inc,
            size,
            qdh_len,
            t2,
        )
    } else {
        let p = rest(inc, t);
        Engine {
            windows: st.windows,
            acc: totals_add(st.acc, p),
            qdh: qdh_apply(st.qdh, p.distance, p.elevation, qdh_len),
        }
    }
}

/// The fold after the first `k` pairs of consecutive samples.
pub open spec fn run(points: Seq<Trackpoint>, by: GroupBy, size: int, qdh_len: int, k: nat) -> Engine
    decreases k,
{
    if k == 0 {
        engine_start()
    } else {
        feed_window(
            run(points, by, size, qdh_len, (k - 1) as nat),
            delta(points[k - 1], points[k as int], by),
            size,
            qdh_len,
            0,
        )
    }
}

/// Number of pairs of consecutive samples.
pub open spec fn steps(points: Seq<Trackpoint>) -> nat {
    if points.len() == 0 {
        0
    } else {
        (points.len() - 1) as nat
    }
}

/// Whether the open window holds more than `1 / TRAILING_DIVISOR` of a window.
pub open spec fn worth_emitting(st: Engine, size: int) -> bool {
    st.acc.group * TRAILING_DIVISOR > size
}

/// The windows of a whole sequence: every window that closed, then the open
/// one if it holds more than a millionth of a window.
pub open spec fn windows_of(points: Seq<Trackpoint>, by: GroupBy, size: int, qdh_len: int) -> Seq<
    WindowModel,
> {
    let st = run(points, by, size, qdh_len, steps(points));
    if worth_emitting(st, size) {
        st.windows.push(WindowModel { values: st.acc, qdh: flushed(st.qdh).score })
    } else {
        st.windows
    }
}

/// What is left in the open window when it is too small to be emitted.
pub open spec fn discarded(points: Seq<Trackpoint>, by: GroupBy, size: int, qdh_len: int) -> Totals {
    let st = run(points, by, size, qdh_len, steps(points));
    if worth_emitting(st, size) {
        totals_zero()
    } else {
        st.acc
    }
}

pub open spec fn group_by_of(g: Grouping) -> GroupBy {
    match g {
        Grouping::Length(by, _) => by,
        Grouping::Count(by, _) => by,
    }
}

/// The window size: the fixed length, or the group metric from the first
/// to the last sample divided by the count, rounded down.
pub open spec fn window_size(points: Seq<Trackpoint>, g: Grouping) -> int {
    match g {
        Grouping::Length(_, l) => l as int,
        Grouping::Count(by, c) => if c == 0 {
            0
        } else {
            metric_delta(by, points[0], points.last()) / (c as int)
        },
    }
}

/// Whether a sample holds the values that aggregation needs.
pub open spec fn has_required(p: Trackpoint) -> bool {
    p.distance is Some && p.altitude is Some
}

/// The first sample, from `i` on, that lacks a value aggregation needs.
pub open spec fn first_missing_from(points: Seq<Trackpoint>, i: int) -> Option<int>
    decreases points.len() - i,
{
    if i >= points.len() || i < 0 {
        None
    } else if !has_required(points[i]) {
        Some(i)
    } else {
        first_missing_from(points, i + 1)
    }
}

/// The tag of the value that a sample lacks.
pub open spec fn missing_tag(p: Trackpoint) -> Tag {
    if p.distance is None {
        Tag::DistanceMeters
    } else {
        Tag::AltitudeMeters
    }
}

/// Whether a sample's values lie in the range that aggregation represents.
pub open spec fn sample_in_range(p: Trackpoint) -> bool {
    &&& 0 <= opt_or_zero(p.distance) <= MAX_DISTANCE
    &&& -MAX_ALTITUDE <= opt_or_zero(p.altitude) <= MAX_ALTITUDE
    &&& 0 <= opt_or_zero(p.power) <= MAX_RATE
    &&& 0 <= opt_or_zero(p.heartrate) <= MAX_RATE
}

/// Whether a sequence of samples can be aggregated: not too many samples,
/// each in range, never going backwards in time or distance, and spanning
/// at most [`MAX_SPAN`].
pub open spec fn in_range(points: Seq<Trackpoint>) -> bool {
    &&& points.len() <= MAX_SAMPLES
    &&& forall|i: int| 0 <= i < points.len() ==> #[trigger] sample_in_range(points[i])
    &&& forall|i: int|
        0 <= i < points.len() - 1 ==> (#[trigger] points[i]).time <= points[i + 1].time
            && opt_or_zero(points[i].distance) <= opt_or_zero(points[i + 1].distance)
    &&& points.len() > 0 ==> points.last().time - points[0].time <= MAX_SPAN
}

/// What aggregating `points` with `grouping` and QDH buckets of `qdh_len`
/// gives.
pub open spec fn aggregate_spec(points: Seq<Trackpoint>, grouping: Grouping, qdh_len: u64) -> Result<
    Seq<WindowModel>,
    TcxError,
> {
    if (match grouping {
        Grouping::Length(_, l) => l == 0,
        Grouping::Count(_, c) => c == 0,
    }) {
        Err(TcxError::InvalidConfiguration)
    } else if points.len() == 0 {
        Err(TcxError::EmptyInput)
    } else if first_missing_from(points, 0) is Some {
        let i = first_missing_from(points, 0)->0;
        Err(TcxError::MissingRequiredField { sample: i as usize, tag: missing_tag(points[i]) })
    } else if !in_range(points) {
        Err(TcxError::OutOfRange)
    } else if window_size(points, grouping) <= 0 {
        Err(TcxError::InvalidConfiguration)
    } else {
        Ok(
            windows_of(
                points,
                group_by_of(grouping),
                window_size(points, grouping),
                qdh_len as int,
            ),
        )
    }
}

/// Field `k` of a [`Totals`], in declaration order.
pub open spec fn fld(v: Totals, k: int) -> int {
    if k == 0 {
        v.group
    } else if k == 1 {
        v.duration
    } else if k == 2 {
        v.distance
    } else if k == 3 {
        v.elevation
    } else if k == 4 {
        v.power
    } else {
        v.heartrate
    }
}

/// Sum of field `k` over windows.
pub open spec fn sum_fld(ws: Seq<WindowModel>, k: int) -> int
    decreases ws.len(),
{
    if ws.len() == 0 {
        0
    } else {
        sum_fld(ws.drop_last(), k) + fld(ws.last().values, k)
    }
}

/// Total distance of windows.
pub open spec fn total_distance(ws: Seq<WindowModel>) -> int {
    sum_fld(ws, 2)
}

/// Total duration of windows.
pub open spec fn total_duration(ws: Seq<WindowModel>) -> int {
    sum_fld(ws, 1)
}

/// Sum of field `k` over the increments of the first `j` pairs of samples.
pub open spec fn sum_steps(points: Seq<Trackpoint>, by: GroupBy, j: nat, k: int) -> int
    decreases j,
{
    if j == 0 {
        0
    } else {
        sum_steps(points, by, (j - 1) as nat, k) + fld(delta(points[j - 1], points[j as int], by), k)
    }
}

proof fn lemma_sum_push(ws: Seq<WindowModel>, w: WindowModel, k: int)
    ensures
        sum_fld(ws.push(w), k) == sum_fld(ws, k) + fld(w.values, k),
{
    assert(ws.push(w).drop_last() =~= ws);
}

proof fn lemma_feed_conserves(st: Engine, inc: Totals, size: int, qdh_len: int, t: int, k: int)
    requires
        0 <= t <= inc.group,
    ensures
        sum_fld(feed_window(st, inc, size, qdh_len, t).windows, k) + fld(
            feed_window(st, inc, size, qdh_len, t).acc,
            k,
        ) == sum_fld(st.windows, k) + fld(st.acc, k) + fld(inc, k) - interp(
            inc.group,
            fld(inc, k),
            t,
        ),
    decreases inc.group - t,
{
    if 0 <= st.acc.group < size && t <= inc.group && st.acc.group + (inc.group - t) >= size {
        let t2 = t + (size - st.acc.group);
        let p = piece(inc, t, t2);
        let q = flushed(qdh_apply(st.qdh, p.distance, p.elevation, qdh_len));
        let w = WindowModel { values: totals_add(st.acc, p), qdh: q.score };
        let next = Engine { windows: st.windows.push(w), acc: totals_zero(), qdh: qdh_zero() };
        lemma_sum_push(st.windows, w, k);
        lemma_feed_conserves(next, inc, size, qdh_len, t2, k);
    }
}

proof fn lemma_run_conserves(points: Seq<Trackpoint>, by: GroupBy, size: int, qdh_len: int, j: nat, k: int)
    ensures
        sum_fld(run(points, by, size, qdh_len, j).windows, k) + fld(
            run(points, by, size, qdh_len, j).acc,
            k,
        ) == sum_steps(points, by, j, k),
    decreases j,
{
    if j > 0 {
        lemma_run_conserves(points, by, size, qdh_len, (j - 1) as nat, k);
        let inc = delta(points[j - 1], points[j as int], by);
        crate::qdh::lemma_interp_zero(inc.group, fld(inc, k));
        if inc.group >= 0 {
            lemma_feed_conserves(run(points, by, size, qdh_len, (j - 1) as nat), inc, size, qdh_len, 0, k);
        } else {
            assert(!(0 <= inc.group));
        }
    }
}

proof fn lemma_steps_telescope(points: Seq<Trackpoint>, by: GroupBy, j: nat)
    requires
        j < points.len(),
        forall|i: int| 0 <= i <= j ==> #[trigger] has_required(points[i]),
    ensures
        sum_steps(points, by, j, 1) == points[j as int].time - points[0].time,
        sum_steps(points, by, j, 2) == opt_or_zero(points[j as int].distance) - opt_or_zero(
            points[0].distance,
        ),
        sum_steps(points, by, j, 0) == metric_delta(by, points[0], points[j as int]),
    decreases j,
{
    if j > 0 {
        assert(has_required(points[j - 1]));
        assert(has_required(points[j as int]));
        lemma_steps_telescope(points, by, (j - 1) as nat);
    }
}

/// Every distance is accounted for exactly once: the distances of the
/// windows, together with the remainder too small to be emitted, add up to
/// the distance from the first to the last sample.
pub proof fn lemma_distance_conserved(points: Seq<Trackpoint>, grouping: Grouping, qdh_len: u64)
    requires
        aggregate_spec(points, grouping, qdh_len) is Ok,
    ensures
        total_distance(aggregate_spec(points, grouping, qdh_len)->Ok_0) + discarded(
            points,
            group_by_of(grouping),
            window_size(points, grouping),
            qdh_len as int,
        ).distance == opt_or_zero(points.last().distance) - opt_or_zero(points[0].distance),
{
    lemma_windows_conserve(points, grouping, qdh_len, 2);
}

/// Time is partitioned without gap or overlap: the durations of the windows,
/// together with the remainder too small to be emitted, add up to the time
/// from the first to the last sample.
pub proof fn lemma_duration_conserved(points: Seq<Trackpoint>, grouping: Grouping, qdh_len: u64)
    requires
        aggregate_spec(points, grouping, qdh_len) is Ok,
    ensures
        total_duration(aggregate_spec(points, grouping, qdh_len)->Ok_0) + discarded(
            points,
            group_by_of(grouping),
            window_size(points, grouping),
            qdh_len as int,
        ).duration == points.last().time - points[0].time,
{
    lemma_windows_conserve(points, grouping, qdh_len, 1);
}

proof fn lemma_windows_conserve(points: Seq<Trackpoint>, grouping: Grouping, qdh_len: u64, k: int)
    requires
        aggregate_spec(points, grouping, qdh_len) is Ok,
        k == 1 || k == 2,
    ensures
        sum_fld(aggregate_spec(points, grouping, qdh_len)->Ok_0, k) + fld(
            discarded(points, group_by_of(grouping), window_size(points, grouping), qdh_len as int),
            k,
        ) == sum_steps(points, group_by_of(grouping), steps(points), k),
        sum_steps(points, group_by_of(grouping), steps(points), 1) == points.last().time
            - points[0].time,
        sum_steps(points, group_by_of(grouping), steps(points), 2) == opt_or_zero(
            points.last().distance,
        ) - opt_or_zero(points[0].distance),
{
    let by = group_by_of(grouping);
    let size = window_size(points, grouping);
    let q = qdh_len as int;
    let st = run(points, by, size, q, steps(points));
    lemma_run_conserves(points, by, size, q, steps(points), k);
    if worth_emitting(st, size) {
        lemma_sum_push(st.windows, WindowModel { values: st.acc, qdh: flushed(st.qdh).score }, k);
    }
    assert forall|i: int| 0 <= i <= steps(points) implies #[trigger] has_required(points[i]) by {
        lemma_first_missing_none(points, 0, i);
    }
    lemma_steps_telescope(points, by, steps(points));
}

proof fn lemma_first_missing_none(points: Seq<Trackpoint>, from: int, i: int)
    requires
        first_missing_from(points, from) is None,
        0 <= from <= i < points.len(),
    ensures
        has_required(points[i]),
    decreases i - from,
{
    if from < i {
        lemma_first_missing_none(points, from + 1, i);
    }
}

/// Every field of `a` lies between zero and the same field of `b`.
pub open spec fn within(a: Totals, b: Totals) -> bool {
    &&& 0 <= a.group <= b.group
    &&& 0 <= a.duration <= b.duration
    &&& 0 <= a.distance <= b.distance
    &&& 0 <= a.elevation <= b.elevation
    &&& 0 <= a.power <= b.power
    &&& 0 <= a.heartrate <= b.heartrate
}

pub open spec fn uniform(x: int) -> Totals {
    Totals { group: x, duration: x, distance: x, elevation: x, power: x, heartrate: x }
}

/// The bounds that every increment between two samples in range meets.
pub open spec fn step_ok(v: Values) -> bool {
    &&& within(v@, uniform(STEP_MAX as int))
    &&& v.group_len <= u64::MAX
    &&& v.distance <= u64::MAX
    &&& v.elevation <= u64::MAX
}

pub open spec fn engine_of(ws: Seq<Window>, v: Values, q: Qdh) -> Engine {
    Engine { windows: windows_view(ws), acc: v@, qdh: q@ }
}

proof fn lemma_split_div(f: int, t: int, b: int)
    requires
        f >= 0,
        t >= 0,
        b > 0,
    ensures
        f * t / b == (f / b) * t + ((f % b) * t) / b,
{
    let q = f / b;
    let r = f % b;
    lemma_fundamental_div_mod(f, b);
    lemma_fundamental_div_mod(r * t, b);
    assert(0 <= (r * t) % b < b);
    assert(f * t == (q * t + (r * t) / b) * b + (r * t) % b) by (nonlinear_arith)
        requires
            f == b * q + r,
            r * t == b * ((r * t) / b) + (r * t) % b,
    ;
    lemma_fundamental_div_mod_converse_div(f * t, b, q * t + (r * t) / b, (r * t) % b);
}

proof fn lemma_interp_self(b: int, t: int)
    requires
        0 <= t <= b,
    ensures
        interp(b, b, t) == t,
{
    if b != 0 {
        vstd::arithmetic::div_mod::lemma_div_by_multiple(t, b);
        assert(b * t == t * b) by (nonlinear_arith);
    }
}

/// `f × t / b`, rounded down, without overflow.
fn portion_exec(f: u128, t: u64, b: u64) -> (r: u128)
    requires
        t <= b,
    ensures
        r == interp(b as int, f as int, t as int),
{
    proof {
        lemma_interp_bounds(b as int, f as int, t as int, b as int);
    }
    if b == 0 {
        0
    } else {
        let bb = b as u128;
        let q = f / bb;
        let r = f % bb;
        proof {
            lemma_split_div(f as int, t as int, b as int);
            lemma_fundamental_div_mod(f as int, b as int);
            assert(q * t <= f) by (nonlinear_arith)
                requires
                    f == b * q + r,
                    0 <= r,
                    t <= b,
                    q >= 0,
            ;
            assert(r * t < 0x1_0000_0000_0000_0000_0000_0000_0000_0000) by (nonlinear_arith)
                requires
                    r < b,
                    b <= u64::MAX,
                    t <= u64::MAX,
                    0 <= r,
            ;
        }
        q * (t as u128) + (r * (t as u128)) / bb
    }
}

fn opt_value(v: Option<i64>) -> (r: i64)
    ensures
        r == opt_or_zero(v),
{
    match v {
        Some(x) => x,
        None => 0,
    }
}

impl GroupBy {
    /// The change of this metric from sample `m` to sample `n`: microseconds
    /// of time, or micrometres of distance; `None` for distance where either
    /// sample has none.
    pub fn get(&self, m: &Trackpoint, n: &Trackpoint) -> (r: Option<i128>)
        ensures
            match r {
                Some(v) => group_delta(*self, *m, *n) == Some(v as int),
                None => group_delta(*self, *m, *n) is None,
            },
    {
        match self {
            GroupBy::Distance => match (m.distance, n.distance) {
                (Some(a), Some(b)) => Some(b as i128 - a as i128),
                _ => None,
            },
            GroupBy::Duration => Some(n.time as i128 - m.time as i128),
        }
    }
}

impl Values {
    /// All sums zero.
    pub fn zero() -> (r: Self)
        ensures
            r@ == totals_zero(),
    {
        Values { group_len: 0, duration: 0, distance: 0, elevation: 0, power: 0, heartrate: 0 }
    }

    /// Field-wise sum.
    pub(crate) fn add(&self, other: &Self) -> (r: Self)
        requires
            within(totals_add(self@, other@), uniform(u128::MAX as int)),
        ensures
            r@ == totals_add(self@, other@),
    {
        Values {
            group_len: self.group_len + other.group_len,
            duration: self.duration + other.duration,
            distance: self.distance + other.distance,
            elevation: self.elevation + other.elevation,
            power: self.power + other.power,
            heartrate: self.heartrate + other.heartrate,
        }
    }

    /// The share of this increment between offsets `t` and `t2` of its group
    /// metric.
    pub(crate) fn piece(&self, t: u64, t2: u64) -> (r: Self)
        requires
            self.group_len <= u64::MAX,
            t <= t2 <= self.group_len,
        ensures
            r@ == piece(self@, t as int, t2 as int),
            within(r@, rest(self@, t as int)),
    {
        let b = self.group_len as u64;
        let ghost v = self@;
        proof {
            lemma_interp_bounds(v.group, v.group, t as int, t2 as int);
            lemma_interp_bounds(v.group, v.duration, t as int, t2 as int);
            lemma_interp_bounds(v.group, v.distance, t as int, t2 as int);
            lemma_interp_bounds(v.group, v.elevation, t as int, t2 as int);
            lemma_interp_bounds(v.group, v.power, t as int, t2 as int);
            lemma_interp_bounds(v.group, v.heartrate, t as int, t2 as int);
            lemma_interp_bounds(v.group, v.group, t2 as int, v.group);
            lemma_interp_bounds(v.group, v.duration, t2 as int, v.group);
            lemma_interp_bounds(v.group, v.distance, t2 as int, v.group);
            lemma_interp_bounds(v.group, v.elevation, t2 as int, v.group);
            lemma_interp_bounds(v.group, v.power, t2 as int, v.group);
            lemma_interp_bounds(v.group, v.heartrate, t2 as int, v.group);
        }
        Values {
            group_len: portion_exec(self.group_len, t2, b) - portion_exec(self.group_len, t, b),
            duration: portion_exec(self.duration, t2, b) - portion_exec(self.duration, t, b),
            distance: portion_exec(self.distance, t2, b) - portion_exec(self.distance, t, b),
            elevation: portion_exec(self.elevation, t2, b) - portion_exec(self.elevation, t, b),
            power: portion_exec(self.power, t2, b) - portion_exec(self.power, t, b),
            heartrate: portion_exec(self.heartrate, t2, b) - portion_exec(self.heartrate, t, b),
        }
    }

    /// The share of this increment after offset `t` of its group metric.
    pub(crate) fn rest(&self, t: u64) -> (r: Self)
        requires
            self.group_len <= u64::MAX,
            t <= self.group_len,
        ensures
            r@ == rest(self@, t as int),
            within(r@, self@),
    {
        let b = self.group_len as u64;
        let ghost v = self@;
        proof {
            lemma_interp_bounds(v.group, v.group, t as int, v.group);
            lemma_interp_bounds(v.group, v.duration, t as int, v.group);
            lemma_interp_bounds(v.group, v.distance, t as int, v.group);
            lemma_interp_bounds(v.group, v.elevation, t as int, v.group);
            lemma_interp_bounds(v.group, v.power, t as int, v.group);
            lemma_interp_bounds(v.group, v.heartrate, t as int, v.group);
        }
        Values {
            group_len: self.group_len - portion_exec(self.group_len, t, b),
            duration: self.duration - portion_exec(self.duration, t, b),
            distance: self.distance - portion_exec(self.distance, t, b),
            elevation: self.elevation - portion_exec(self.elevation, t, b),
            power: self.power - portion_exec(self.power, t, b),
            heartrate: self.heartrate - portion_exec(self.heartrate, t, b),
        }
    }

    /// The increments from sample `m` to sample `n`.
    pub(crate) fn delta(m: &Trackpoint, n: &Trackpoint, group_by: GroupBy) -> (r: Self)
        requires
            has_required(*m),
            has_required(*n),
            sample_in_range(*m),
            sample_in_range(*n),
            m.time <= n.time,
            n.time - m.time <= MAX_SPAN,
            opt_or_zero(m.distance) <= opt_or_zero(n.distance),
        ensures
            r@ == delta(*m, *n, group_by),
            step_ok(r),
    {
        let duration = (n.time as i128 - m.time as i128) as u128;
        let distance = (opt_value(n.distance) as i128 - opt_value(m.distance) as i128) as u128;
        let climb = opt_value(n.altitude) - opt_value(m.altitude);
        let elevation: u128 = if climb > 0 {
            climb as u128
        } else {
            0
        };
        let power_sum = (opt_value(n.power) + opt_value(m.power)) as u128;
        let heartrate_sum = (opt_value(n.heartrate) + opt_value(m.heartrate)) as u128;
        proof {
            assert(power_sum * duration <= 2 * STEP_MAX) by (nonlinear_arith)
                requires
                    power_sum <= 2 * MAX_RATE,
                    duration <= MAX_SPAN,
            ;
            assert(heartrate_sum * duration <= 2 * STEP_MAX) by (nonlinear_arith)
                requires
                    heartrate_sum <= 2 * MAX_RATE,
                    duration <= MAX_SPAN,
            ;
        }
        let group_len = match group_by {
            GroupBy::Distance => distance,
            GroupBy::Duration => duration,
        };
        Values {
            group_len,
            duration,
            distance,
            elevation,
            power: power_sum * duration / 2,
            heartrate: heartrate_sum * duration / 2,
        }
    }
}

/// Feeds one increment into the open window, closing and pushing every
/// window that fills up.
fn feed(
    values: &mut Values,
    qdh: &mut Qdh,
    windows: &mut Vec<Window>,
    inc: &Values,
    size: u64,
    qdh_len: u64,
)
    requires
        size > 0,
        old(values).group_len < size,
        step_ok(*inc),
        within(old(values)@, uniform(u128::MAX - STEP_MAX)),
        qdh_valid(old(qdh)@, qdh_len as int),
        old(qdh).elevation <= old(values).elevation,
    ensures
        engine_of(final(windows)@, *final(values), *final(qdh)) == feed_window(
            engine_of(old(windows)@, *old(values), *old(qdh)),
            inc@,
            size as int,
            qdh_len as int,
            0,
        ),
        final(values).group_len < size,
        within(final(values)@, totals_add(old(values)@, inc@)),
        qdh_valid(final(qdh)@, qdh_len as int),
        final(qdh).elevation <= final(values).elevation,
{
    let ghost start = engine_of(windows@, *values, *qdh);
    let ghost bound = totals_add(values@, inc@);
    let b = inc.group_len as u64;
    let mut t: u64 = 0;
    proof {
        crate::qdh::lemma_interp_zero(inc@.group, inc@.group);
        crate::qdh::lemma_interp_zero(inc@.group, inc@.duration);
        crate::qdh::lemma_interp_zero(inc@.group, inc@.distance);
        crate::qdh::lemma_interp_zero(inc@.group, inc@.elevation);
        crate::qdh::lemma_interp_zero(inc@.group, inc@.power);
        crate::qdh::lemma_interp_zero(inc@.group, inc@.heartrate);
    }
    while values.group_len + ((b - t) as u128) >= size as u128
        invariant
            t <= b,
            b == inc.group_len,
            size > 0,
            step_ok(*inc),
            values.group_len < size,
            feed_window(engine_of(windows@, *values, *qdh), inc@, size as int, qdh_len as int, t as int)
                == feed_window(start, inc@, size as int, qdh_len as int, 0),
            within(totals_add(values@, rest(inc@, t as int)), bound),
            within(values@, bound),
            bound == totals_add(start.acc, inc@),
            within(start.acc, uniform(u128::MAX - STEP_MAX)),
            qdh_valid(qdh@, qdh_len as int),
            qdh.elevation <= values.elevation,
        decreases b - t,
    {
        let t2 = t + (size - values.group_len as u64);
        proof {
            lemma_interp_self(b as int, t as int);
            lemma_interp_self(b as int, t2 as int);
        }
        let p = inc.piece(t, t2);
        let closed = values.add(&p);
        qdh.update(p.distance as u64, p.elevation as u64, qdh_len, true);
        let w = Window { values: closed, qdh: qdh.qdh };
        let ghost before = windows@;
        windows.push(w);
        proof {
            assert(windows_view(windows@) =~= windows_view(before).push(w@));
            crate::qdh::lemma_interp_zero(inc@.group, inc@.group);
        }
        *values = Values::zero();
        *qdh = Qdh::zero();
        t = t2;
    }
    proof {
        lemma_interp_self(b as int, t as int);
    }
    let p = inc.rest(t);
    *values = values.add(&p);
    qdh.update(p.distance as u64, p.elevation as u64, qdh_len, false);
}

proof fn lemma_chain(points: Seq<Trackpoint>, i: int, j: int)
    requires
        in_range(points),
        0 <= i <= j < points.len(),
    ensures
        points[i].time <= points[j].time,
        opt_or_zero(points[i].distance) <= opt_or_zero(points[j].distance),
    decreases j - i,
{
    if i < j {
        lemma_chain(points, i, j - 1);
        assert(points[j - 1].time <= points[j].time);
    }
}

/// Position of the first sample that lacks a distance or an altitude.
fn first_missing(points: &Vec<Trackpoint>) -> (r: Option<usize>)
    ensures
        match r {
            Some(i) => i < points@.len() && first_missing_from(points@, 0) == Some(i as int),
            None => first_missing_from(points@, 0) is None,
        },
{
    let mut i: usize = 0;
    while i < points.len()
        invariant
            i <= points@.len(),
            first_missing_from(points@, 0) == first_missing_from(points@, i as int),
        decreases points@.len() - i,
    {
        if points[i].distance.is_none() || points[i].altitude.is_none() {
            return Some(i);
        }
        i = i + 1;
    }
    None
}

fn sample_in_range_exec(p: &Trackpoint) -> (r: bool)
    ensures
        r == sample_in_range(*p),
{
    let d = opt_value(p.distance);
    let a = opt_value(p.altitude);
    let w = opt_value(p.power);
    let h = opt_value(p.heartrate);
    0 <= d && d <= MAX_DISTANCE && -MAX_ALTITUDE <= a && a <= MAX_ALTITUDE && 0 <= w && w
        <= MAX_RATE && 0 <= h && h <= MAX_RATE
}

/// Whether `points` can be aggregated (see [`in_range`]).
pub fn check_range(points: &Vec<Trackpoint>) -> (r: bool)
    ensures
        r == in_range(points@),
{
    if points.len() as u64 > MAX_SAMPLES {
        return false;
    }
    let mut i: usize = 0;
    while i < points.len()
        invariant
            i <= points@.len(),
            points@.len() <= MAX_SAMPLES,
            forall|j: int| 0 <= j < i ==> #[trigger] sample_in_range(points@[j]),
            forall|j: int|
                0 <= j < i && j < points@.len() - 1 ==> (#[trigger] points@[j]).time <= points@[j
                    + 1].time && opt_or_zero(points@[j].distance) <= opt_or_zero(
                    points@[j + 1].distance,
                ),
        decreases points@.len() - i,
    {
        if !sample_in_range_exec(&points[i]) {
            return false;
        }
        if i + 1 < points.len() {
            if points[i].time > points[i + 1].time || opt_value(points[i].distance) > opt_value(
                points[i + 1].distance,
            ) {
                assert(!((points@[i as int]).time <= points@[i + 1].time && opt_or_zero(
                    points@[i as int].distance,
                ) <= opt_or_zero(points@[i + 1].distance)));
                return false;
            }
        }
        i = i + 1;
    }
    if points.len() > 0 {
        let first = points[0].time as i128;
        let last = points[points.len() - 1].time as i128;
        if last - first > MAX_SPAN as i128 {
            return false;
        }
    }
    true
}

/// The window size for `grouping` over `points` (see [`window_size`]).
fn window_size_exec(points: &Vec<Trackpoint>, grouping: Grouping) -> (r: u64)
    requires
        points@.len() > 0,
        in_range(points@),
        first_missing_from(points@, 0) is None,
    ensures
        r == window_size(points@, grouping),
{
    match grouping {
        Grouping::Length(_, l) => l,
        Grouping::Count(by, c) => {
            if c == 0 {
                0
            } else {
                let last = points.len() - 1;
                proof {
                    lemma_chain(points@, 0, last as int);
                    lemma_first_missing_none(points@, 0, 0);
                    lemma_first_missing_none(points@, 0, last as int);
                    assert(sample_in_range(points@[last as int]));
                }
                match by.get(&points[0], &points[last]) {
                    Some(span) => (span as u64) / c,
                    None => 0,
                }
            }
        },
    }
}

proof fn lemma_step_facts(points: Seq<Trackpoint>, i: int)
    requires
        in_range(points),
        first_missing_from(points, 0) is None,
        1 <= i < points.len(),
    ensures
        has_required(points[i - 1]),
        has_required(points[i]),
        sample_in_range(points[i - 1]),
        sample_in_range(points[i]),
        points[i - 1].time <= points[i].time,
        points[i].time - points[i - 1].time <= MAX_SPAN,
        opt_or_zero(points[i - 1].distance) <= opt_or_zero(points[i].distance),
{
    lemma_first_missing_none(points, 0, i - 1);
    lemma_first_missing_none(points, 0, i);
    lemma_chain(points, 0, i - 1);
    lemma_chain(points, i, points.len() - 1);
    assert(points[i - 1].time <= points[(i - 1) + 1].time);
}

proof fn lemma_step_bound(i: int)
    requires
        1 <= i <= MAX_SAMPLES,
    ensures
        (i - 1) * STEP_MAX <= u128::MAX - STEP_MAX,
        (i - 1) * STEP_MAX + STEP_MAX == i * STEP_MAX,
{
    assert((i - 1) * STEP_MAX <= u128::MAX - STEP_MAX) by (nonlinear_arith)
        requires
            i - 1 < MAX_SAMPLES,
    ;
    assert((i - 1) * STEP_MAX + STEP_MAX == i * STEP_MAX) by (nonlinear_arith);
}

/// Reduces `points` to windows, sized by `grouping`, with QDH buckets of
/// `qdh_len` micrometres.
///
/// Fails with `InvalidConfiguration` on a zero length or count, with
/// `EmptyInput` on no samples, with `MissingRequiredField` at the first
/// sample without distance or altitude, with `OutOfRange` where
/// [`in_range`] does not hold, and with `InvalidConfiguration` where a
/// count leaves windows of size zero.
pub fn aggregate(points: &Vec<Trackpoint>, grouping: Grouping, qdh_len: u64) -> (r: Result<
    Vec<Window>,
    TcxError,
>)
    ensures
        match r {
            Ok(ws) => aggregate_spec(points@, grouping, qdh_len) == Ok::<
                Seq<WindowModel>,
                TcxError,
            >(windows_view(ws@)),
            Err(e) => aggregate_spec(points@, grouping, qdh_len) == Err::<
                Seq<WindowModel>,
                TcxError,
            >(e),
        },
{
    let zero_config = match grouping {
        Grouping::Length(_, l) => l == 0,
        Grouping::Count(_, c) => c == 0,
    };
    if zero_config {
        return Err(TcxError::InvalidConfiguration);
    }
    if points.len() == 0 {
        return Err(TcxError::EmptyInput);
    }
    match first_missing(points) {
        Some(i) => {
            let tag = if points[i].distance.is_none() {
                Tag::DistanceMeters
            } else {
                Tag::AltitudeMeters
            };
            return Err(TcxError::MissingRequiredField { sample: i, tag });
        },
        None => {},
    }
    if !check_range(points) {
        return Err(TcxError::OutOfRange);
    }
    let by = match grouping {
        Grouping::Length(by, _) => by,
        Grouping::Count(by, _) => by,
    };
    let size = window_size_exec(points, grouping);
    if size == 0 {
        return Err(TcxError::InvalidConfiguration);
    }
    let mut values = Values::zero();
    let mut qdh = Qdh::zero();
    let mut windows: Vec<Window> = Vec::new();
    proof {
        assert(windows_view(windows@) =~= Seq::<WindowModel>::empty());
    }
    let mut i: usize = 1;
    while i < points.len()
        invariant
            1 <= i <= points@.len(),
            points@.len() <= MAX_SAMPLES,
            in_range(points@),
            first_missing_from(points@, 0) is None,
            size > 0,
            by == group_by_of(grouping),
            size == window_size(points@, grouping),
            engine_of(windows@, values, qdh) == run(
                points@,
                by,
                size as int,
                qdh_len as int,
                (i - 1) as nat,
            ),
            values.group_len < size,
            within(values@, uniform((i - 1) * STEP_MAX)),
            qdh_valid(qdh@, qdh_len as int),
            qdh.elevation <= values.elevation,
        decreases points@.len() - i,
    {
        proof {
            lemma_step_facts(points@, i as int);
            lemma_step_bound(i as int);
        }
        let inc = Values::delta(&points[i - 1], &points[i], by);
        feed(&mut values, &mut qdh, &mut windows, &inc, size, qdh_len);
        i = i + 1;
    }
    if values.group_len * TRAILING_DIVISOR > size as u128 {
        qdh.flush();
        let w = Window { values, qdh: qdh.qdh };
        let ghost before = windows@;
        windows.push(w);
        proof {
            assert(windows_view(windows@) =~= windows_view(before).push(w@));
        }
    }
    Ok(windows)
}

/// `num × scale / den`, rounded down; `None` where `den` is zero or the
/// product does not fit a `u128`.
pub open spec fn scaled_ratio(num: u128, den: u128, scale: u128) -> Option<u128> {
    if den == 0 || num * scale > u128::MAX {
        None
    } else {
        Some(((num * scale) / (den as int)) as u128)
    }
}

fn scaled_ratio_exec(num: u128, den: u128, scale: u128) -> (r: Option<u128>)
    ensures
        r == scaled_ratio(num, den, scale),
{
    if den == 0 {
        return None;
    }
    match num.checked_mul(scale) {
        Some(p) => Some(p / den),
        None => None,
    }
}

impl Window {
    /// Mean power, in millionths of a watt.
    pub fn average_power(&self) -> (r: Option<u128>)
        ensures
            r == scaled_ratio(self.values.power, self.values.duration, 1),
    {
        scaled_ratio_exec(self.values.power, self.values.duration, 1)
    }

    /// Mean heart rate, in millionths of a beat per minute.
    pub fn average_heartrate(&self) -> (r: Option<u128>)
        ensures
            r == scaled_ratio(self.values.heartrate, self.values.duration, 1),
    {
        scaled_ratio_exec(self.values.heartrate, self.values.duration, 1)
    }

    /// Mean speed, in millionths of a metre per second.
    pub fn average_speed(&self) -> (r: Option<u128>)
        ensures
            r == scaled_ratio(self.values.distance, self.values.duration, 1000000),
    {
        scaled_ratio_exec(self.values.distance, self.values.duration, 1000000)
    }

    /// Elevation gain per kilometre, in millionths of a metre.
    pub fn gain_per_km(&self) -> (r: Option<u128>)
        ensures
            r == scaled_ratio(self.values.elevation, self.values.distance, 1000000000),
    {
        scaled_ratio_exec(self.values.elevation, self.values.distance, 1000000000)
    }
}

/// Whether every window of `ws` has group metric `size`.
pub open spec fn all_full(ws: Seq<WindowModel>, size: int) -> bool {
    forall|i: int| 0 <= i < ws.len() ==> (#[trigger] ws[i]).values.group == size
}

proof fn lemma_feed_sizes(st: Engine, inc: Totals, size: int, qdh_len: int, t: int)
    requires
        all_full(st.windows, size),
        0 <= st.acc.group < size,
        0 <= t <= inc.group,
    ensures
        all_full(feed_window(st, inc, size, qdh_len, t).windows, size),
        0 <= feed_window(st, inc, size, qdh_len, t).acc.group < size,
    decreases inc.group - t,
{
    lemma_interp_self(inc.group, t);
    if st.acc.group + (inc.group - t) >= size {
        let t2 = t + (size - st.acc.group);
        lemma_interp_self(inc.group, t2);
        let p = piece(inc, t, t2);
        let q = flushed(qdh_apply(st.qdh, p.distance, p.elevation, qdh_len));
        let w = WindowModel { values: totals_add(st.acc, p), qdh: q.score };
        let ws = st.windows.push(w);
        assert(all_full(ws, size)) by {
            assert forall|i: int| 0 <= i < ws.len() implies (#[trigger] ws[i]).values.group == size by {
                if i < st.windows.len() {
                    assert(ws[i] == st.windows[i]);
                }
            }
        }
        let next = Engine { windows: ws, acc: totals_zero(), qdh: qdh_zero() };
        lemma_feed_sizes(next, inc, size, qdh_len, t2);
    }
}

proof fn lemma_run_sizes(points: Seq<Trackpoint>, by: GroupBy, size: int, qdh_len: int, j: nat)
    requires
        size > 0,
        in_range(points),
        first_missing_from(points, 0) is None,
        j < points.len(),
    ensures
        all_full(run(points, by, size, qdh_len, j).windows, size),
        0 <= run(points, by, size, qdh_len, j).acc.group < size,
    decreases j,
{
    if j > 0 {
        lemma_run_sizes(points, by, size, qdh_len, (j - 1) as nat);
        lemma_step_facts(points, j as int);
        let inc = delta(points[j - 1], points[j as int], by);
        assert(inc.group >= 0);
        lemma_feed_sizes(run(points, by, size, qdh_len, (j - 1) as nat), inc, size, qdh_len, 0);
    }
}

/// Every window but the last holds exactly one window size of the group
/// metric; the last holds at most that, and more than a millionth of it.
pub proof fn lemma_window_sizes(points: Seq<Trackpoint>, grouping: Grouping, qdh_len: u64)
    requires
        aggregate_spec(points, grouping, qdh_len) is Ok,
    ensures
        ({
            let ws = aggregate_spec(points, grouping, qdh_len)->Ok_0;
            let size = window_size(points, grouping);
            &&& forall|i: int| 0 <= i < ws.len() - 1 ==> (#[trigger] ws[i]).values.group == size
            &&& ws.len() > 0 ==> ws.last().values.group <= size && ws.last().values.group
                * TRAILING_DIVISOR > size
        }),
{
    let by = group_by_of(grouping);
    let size = window_size(points, grouping);
    let q = qdh_len as int;
    lemma_run_sizes(points, by, size, q, steps(points));
    let st = run(points, by, size, q, steps(points));
    if worth_emitting(st, size) {
        let ws = st.windows.push(WindowModel { values: st.acc, qdh: flushed(st.qdh).score });
        assert forall|i: int| 0 <= i < ws.len() - 1 implies (#[trigger] ws[i]).values.group == size by {
            assert(ws[i] == st.windows[i]);
        }
    }
}

/// Whether every window of `ws` lasts as long as its group metric.
pub open spec fn all_synced(ws: Seq<WindowModel>) -> bool {
    forall|i: int| 0 <= i < ws.len() ==> (#[trigger] ws[i]).values.duration == ws[i].values.group
}

proof fn lemma_feed_synced(st: Engine, inc: Totals, size: int, qdh_len: int, t: int)
    requires
        all_synced(st.windows),
        st.acc.duration == st.acc.group,
        inc.duration == inc.group,
        0 <= t <= inc.group,
    ensures
        all_synced(feed_window(st, inc, size, qdh_len, t).windows),
        feed_window(st, inc, size, qdh_len, t).acc.duration == feed_window(
            st,
            inc,
            size,
            qdh_len,
            t,
        ).acc.group,
    decreases inc.group - t,
{
    if 0 <= st.acc.group < size && st.acc.group + (inc.group - t) >= size {
        let t2 = t + (size - st.acc.group);
        let p = piece(inc, t, t2);
        let q = flushed(qdh_apply(st.qdh, p.distance, p.elevation, qdh_len));
        let w = WindowModel { values: totals_add(st.acc, p), qdh: q.score };
        let ws = st.windows.push(w);
        assert(all_synced(ws)) by {
            assert forall|i: int| 0 <= i < ws.len() implies (#[trigger] ws[i]).values.duration
                == ws[i].values.group by {
                if i < st.windows.len() {
                    assert(ws[i] == st.windows[i]);
                }
            }
        }
        let next = Engine { windows: ws, acc: totals_zero(), qdh: qdh_zero() };
        lemma_feed_synced(next, inc, size, qdh_len, t2);
    }
}

proof fn lemma_run_synced(points: Seq<Trackpoint>, size: int, qdh_len: int, j: nat)
    requires
        size > 0,
        in_range(points),
        first_missing_from(points, 0) is None,
        j < points.len(),
    ensures
        all_synced(run(points, GroupBy::Duration, size, qdh_len, j).windows),
        run(points, GroupBy::Duration, size, qdh_len, j).acc.duration == run(
            points,
            GroupBy::Duration,
            size,
            qdh_len,
            j,
        ).acc.group,
    decreases j,
{
    if j > 0 {
        lemma_run_synced(points, size, qdh_len, (j - 1) as nat);
        lemma_step_facts(points, j as int);
        let inc = delta(points[j - 1], points[j as int], GroupBy::Duration);
        lemma_feed_synced(run(points, GroupBy::Duration, size, qdh_len, (j - 1) as nat), inc, size, qdh_len, 0);
    }
}

proof fn lemma_sum_full(ws: Seq<WindowModel>, size: int)
    requires
        all_full(ws, size),
    ensures
        sum_fld(ws, 0) == ws.len() * size,
    decreases ws.len(),
{
    if ws.len() > 0 {
        let t = ws.drop_last();
        assert(all_full(t, size)) by {
            assert forall|i: int| 0 <= i < t.len() implies (#[trigger] t[i]).values.group == size by {
                assert(t[i] == ws[i]);
            }
        }
        lemma_sum_full(t, size);
        assert(ws.last() == ws[ws.len() - 1]);
        assert(t.len() * size + size == ws.len() * size) by (nonlinear_arith)
            requires
                t.len() + 1 == ws.len(),
        ;
    }
}

/// Under duration grouping every window lasts exactly as long as its group
/// metric says.
pub proof fn lemma_duration_windows(points: Seq<Trackpoint>, grouping: Grouping, qdh_len: u64)
    requires
        aggregate_spec(points, grouping, qdh_len) is Ok,
        group_by_of(grouping) == GroupBy::Duration,
    ensures
        all_synced(aggregate_spec(points, grouping, qdh_len)->Ok_0),
{
    let size = window_size(points, grouping);
    let q = qdh_len as int;
    lemma_run_synced(points, size, q, steps(points));
    let st = run(points, GroupBy::Duration, size, q, steps(points));
    if worth_emitting(st, size) {
        let ws = st.windows.push(WindowModel { values: st.acc, qdh: flushed(st.qdh).score });
        assert forall|i: int| 0 <= i < ws.len() implies (#[trigger] ws[i]).values.duration
            == ws[i].values.group by {
            if i < st.windows.len() {
                assert(ws[i] == st.windows[i]);
            }
        }
    }
}

/// Count sizing gives exactly `c` windows of one window size each, when the
/// group metric spans at least `c² × TRAILING_DIVISOR` (so that what the
/// division by `c` leaves over is too small to be emitted).
pub proof fn lemma_count_windows(points: Seq<Trackpoint>, by: GroupBy, c: u64, qdh_len: u64)
    requires
        aggregate_spec(points, Grouping::Count(by, c), qdh_len) is Ok,
        metric_delta(by, points[0], points.last()) >= c * c * TRAILING_DIVISOR,
    ensures
        ({
            let ws = aggregate_spec(points, Grouping::Count(by, c), qdh_len)->Ok_0;
            &&& ws.len() == c
            &&& all_full(ws, window_size(points, Grouping::Count(by, c)))
        }),
{
    let g = Grouping::Count(by, c);
    let size = window_size(points, g);
    let span = metric_delta(by, points[0], points.last());
    let qi = qdh_len as int;
    let st = run(points, by, size, qi, steps(points));
    let ci = c as int;
    lemma_run_sizes(points, by, size, qi, steps(points));
    lemma_run_conserves(points, by, size, qi, steps(points), 0);
    assert forall|i: int| 0 <= i <= steps(points) implies #[trigger] has_required(points[i]) by {
        lemma_first_missing_none(points, 0, i);
    }
    lemma_steps_telescope(points, by, steps(points));
    lemma_sum_full(st.windows, size);
    let nw = st.windows.len() as int;
    let a = st.acc.group;
    assert(nw * size + a == span);
    lemma_fundamental_div_mod(span, ci);
    let r = span % ci;
    assert(span == ci * size + r);
    assert(size >= ci * (TRAILING_DIVISOR as int)) by {
        vstd::arithmetic::div_mod::lemma_div_is_ordered(ci * ci * TRAILING_DIVISOR, span, ci);
        assert(ci * ci * TRAILING_DIVISOR == (ci * TRAILING_DIVISOR) * ci) by (nonlinear_arith);
        vstd::arithmetic::div_mod::lemma_div_by_multiple(ci * TRAILING_DIVISOR, ci);
    }
    assert(r * TRAILING_DIVISOR < size) by (nonlinear_arith)
        requires
            0 <= r < ci,
            size >= ci * (TRAILING_DIVISOR as int),
    ;
    assert(nw == ci && a == r) by (nonlinear_arith)
        requires
            nw * size + a == ci * size + r,
            0 <= a < size,
            0 <= r < size,
            nw >= 0,
            ci >= 0,
    ;
    assert(!worth_emitting(st, size));
}

/// A boundary split neither drops nor double-counts: the share of an
/// increment before offset `t` and the share after it add up to the whole.
pub proof fn lemma_split_whole(inc: Totals, t: int)
    ensures
        totals_add(piece(inc, 0, t), rest(inc, t)) == inc,
{
    crate::qdh::lemma_interp_zero(inc.group, inc.group);
    crate::qdh::lemma_interp_zero(inc.group, inc.duration);
    crate::qdh::lemma_interp_zero(inc.group, inc.distance);
    crate::qdh::lemma_interp_zero(inc.group, inc.elevation);
    crate::qdh::lemma_interp_zero(inc.group, inc.power);
    crate::qdh::lemma_interp_zero(inc.group, inc.heartrate);
}

} // verus!
