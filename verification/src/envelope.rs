//! Envelope builder and sampler.
//!
//! An envelope is an ordered list of curves for one parameter, covering a
//! contiguous stretch of time: each curve's end time equals the next
//! curve's start time.  The builder turns an ordered keyframe list into
//! such a list, one curve per adjacent keyframe pair; the sampler locates
//! the curve covering a time and evaluates it.

use vstd::prelude::*;

use crate::curve::{Curve, Point};
use crate::fixed::{
    div_fixed, div_trunc, lemma_div_trunc_bound, lemma_mul_bound, COORD_LIMIT, DEFAULT_CONTROL_1,
    DEFAULT_CONTROL_2, FRAC_LIMIT, KEY_LIMIT, SCALE, SOURCE_LIMIT,
};

verus! {

/// One raw automation keyframe as exported from the authoring project:
/// a time, a value, and either all four or none of the explicit
/// control-point fractions.
#[derive(Clone, Copy, Debug)]
pub struct AutomationPoint {
    pub time: i64,
    pub value: i64,
    pub curve_control_1x: Option<i64>,
    pub curve_control_1y: Option<i64>,
    pub curve_control_2x: Option<i64>,
    pub curve_control_2y: Option<i64>,
}

/// A structural fault in a keyframe list, found while building curves.
#[derive(Clone, Copy, Debug, PartialEq, Eq, Structural)]
pub enum KeyframeError {
    /// The keyframe at `index` carries some but not all of the four
    /// explicit control-point fractions.
    InvalidKeyframe { index: usize },
    /// The keyframes at `index` and `index + 1` share a timestamp, so the
    /// segment between them has zero length.
    ZeroLengthSegment { index: usize },
}

/// The sampled time lies outside the envelope's covered range.
#[derive(Clone, Copy, Debug, PartialEq, Eq, Structural)]
pub enum SampleError {
    OutOfRangeSample,
}

/// The keyframe's coordinates and fractions lie within the builder's
/// limits.
pub open spec fn key_in_range(p: AutomationPoint) -> bool {
    &&& -KEY_LIMIT <= p.time <= KEY_LIMIT
    &&& -KEY_LIMIT <= p.value <= KEY_LIMIT
    &&& (p.curve_control_1x matches Some(f) ==> -FRAC_LIMIT <= f <= FRAC_LIMIT)
    &&& (p.curve_control_1y matches Some(f) ==> -FRAC_LIMIT <= f <= FRAC_LIMIT)
    &&& (p.curve_control_2x matches Some(f) ==> -FRAC_LIMIT <= f <= FRAC_LIMIT)
    &&& (p.curve_control_2y matches Some(f) ==> -FRAC_LIMIT <= f <= FRAC_LIMIT)
}

/// No explicit handle fraction is present.
pub open spec fn has_no_controls(p: AutomationPoint) -> bool {
    &&& p.curve_control_1x is None
    &&& p.curve_control_1y is None
    &&& p.curve_control_2x is None
    &&& p.curve_control_2y is None
}

/// All four explicit handle fractions are present.
pub open spec fn has_all_controls(p: AutomationPoint) -> bool {
    &&& p.curve_control_1x is Some
    &&& p.curve_control_1y is Some
    &&& p.curve_control_2x is Some
    &&& p.curve_control_2y is Some
}

/// Either all or none of the handle fractions are present.
pub open spec fn controls_ok(p: AutomationPoint) -> bool {
    has_no_controls(p) || has_all_controls(p)
}

/// Fraction governing the first handle's time offset.
pub open spec fn frac_1x(p: AutomationPoint) -> int {
    if has_all_controls(p) {
        p.curve_control_1x.unwrap() as int
    } else {
        DEFAULT_CONTROL_1 as int
    }
}

/// Fraction governing the first handle's value offset.
pub open spec fn frac_1y(p: AutomationPoint) -> int {
    if has_all_controls(p) {
        p.curve_control_1y.unwrap() as int
    } else {
        DEFAULT_CONTROL_1 as int
    }
}

/// Fraction governing the second handle's time offset.
pub open spec fn frac_2x(p: AutomationPoint) -> int {
    if has_all_controls(p) {
        p.curve_control_2x.unwrap() as int
    } else {
        DEFAULT_CONTROL_2 as int
    }
}

/// Fraction governing the second handle's value offset.
pub open spec fn frac_2y(p: AutomationPoint) -> int {
    if has_all_controls(p) {
        p.curve_control_2y.unwrap() as int
    } else {
        DEFAULT_CONTROL_2 as int
    }
}

/// Handle coordinate: `base` plus the fraction `fr` of the delta towards
/// `other`, rounded toward zero.
pub open spec fn ctrl_delta(fr: int, base: int, other: int) -> int {
    div_trunc(fr * (other - base), SCALE as int)
}

/// The curve `c` is exactly the one the construction rule yields for the
/// adjacent keyframe pair `(a, b)`.
pub open spec fn curve_matches_pair(c: Curve, a: AutomationPoint, b: AutomationPoint) -> bool {
    &&& c.start.time == a.time
    &&& c.start.value == a.value
    &&& c.end.time == b.time
    &&& c.end.value == b.value
    &&& c.control1.time == a.time + ctrl_delta(frac_1x(a), a.time as int, b.time as int)
    &&& c.control1.value == a.value + ctrl_delta(frac_1y(a), a.value as int, b.value as int)
    &&& c.control2.time == a.time + ctrl_delta(frac_2x(a), a.time as int, b.time as int)
    &&& c.control2.value == a.value + ctrl_delta(frac_2y(a), a.value as int, b.value as int)
}

/// The curve the construction rule yields for the adjacent keyframe
/// pair `(a, b)`.
pub open spec fn spec_curve_of_pair(a: AutomationPoint, b: AutomationPoint) -> Curve {
    Curve {
        start: Point { time: a.time, value: a.value },
        control1: Point {
            time: (a.time + ctrl_delta(frac_1x(a), a.time as int, b.time as int)) as i64,
            value: (a.value + ctrl_delta(frac_1y(a), a.value as int, b.value as int)) as i64,
        },
        control2: Point {
            time: (a.time + ctrl_delta(frac_2x(a), a.time as int, b.time as int)) as i64,
            value: (a.value + ctrl_delta(frac_2y(a), a.value as int, b.value as int)) as i64,
        },
        end: Point { time: b.time, value: b.value },
    }
}

/// The whole envelope the construction rule yields for a keyframe list:
/// one curve per adjacent pair.
pub open spec fn spec_env_of(points: Seq<AutomationPoint>) -> Seq<Curve> {
    if points.len() == 0 {
        Seq::empty()
    } else {
        Seq::new((points.len() - 1) as nat, |i: int| spec_curve_of_pair(points[i], points[i + 1]))
    }
}

/// A curve matching a pair field-wise is the pair's constructed curve.
pub proof fn lemma_matches_is_spec_curve(c: Curve, a: AutomationPoint, b: AutomationPoint)
    requires
        curve_matches_pair(c, a, b),
    ensures
        c == spec_curve_of_pair(a, b),
{
}

/// The fault, if any, that the adjacent pair starting at index `i`
/// exhibits: mixed handles first, then a zero-length segment.
pub open spec fn pair_error(a: AutomationPoint, b: AutomationPoint, i: int) -> Option<
    KeyframeError,
> {
    if !controls_ok(a) {
        Some(KeyframeError::InvalidKeyframe { index: i as usize })
    } else if a.time == b.time {
        Some(KeyframeError::ZeroLengthSegment { index: i as usize })
    } else {
        None
    }
}

/// The first fault among the adjacent pairs of `s` from index `i` on.
pub open spec fn spec_first_error(s: Seq<AutomationPoint>, i: int) -> Option<KeyframeError>
    decreases s.len() - i,
{
    if i + 1 >= s.len() || i < 0 {
        None
    } else if pair_error(s[i], s[i + 1], i) is Some {
        pair_error(s[i], s[i + 1], i)
    } else {
        spec_first_error(s, i + 1)
    }
}

/// Envelope well-formedness: every curve is well formed and each curve's
/// end time is exactly the next curve's start time.
pub open spec fn env_wf(s: Seq<Curve>) -> bool {
    &&& forall|i: int| 0 <= i < s.len() ==> (#[trigger] s[i]).wf()
    &&& forall|i: int| 0 <= i && i + 1 < s.len() ==> (#[trigger] s[i]).end.time == s[i + 1].start.time
}

/// Every curve of the envelope keeps its coordinates within `limit`.
pub open spec fn env_in_range(s: Seq<Curve>, limit: int) -> bool {
    forall|i: int| 0 <= i < s.len() ==> (#[trigger] s[i]).in_range(limit)
}

/// In a well-formed envelope, every curve ends no later than any later
/// curve starts.
pub proof fn lemma_env_monotone(s: Seq<Curve>, i: int, j: int)
    requires
        env_wf(s),
        0 <= i < j < s.len(),
    ensures
        s[i].end.time <= s[j].start.time,
    decreases j - i,
{
    if j == i + 1 {
    } else {
        lemma_env_monotone(s, i, j - 1);
    }
}

/// Index of the last curve whose start time is at or before `t`, or `-1`
/// when no curve starts that early.
pub open spec fn spec_find_index(s: Seq<Curve>, t: int) -> int
    decreases s.len(),
{
    if s.len() == 0 {
        -1
    } else if s[s.len() - 1].start.time <= t {
        s.len() - 1
    } else {
        spec_find_index(s.drop_last(), t)
    }
}

/// Basic facts about `spec_find_index`: the result is a valid index or
/// `-1`, it starts at or before `t`, and every later curve starts after
/// `t`.
pub proof fn lemma_find_index_props(s: Seq<Curve>, t: int)
    ensures
        -1 <= spec_find_index(s, t) < s.len(),
        spec_find_index(s, t) >= 0 ==> s[spec_find_index(s, t)].start.time <= t,
        forall|j: int| spec_find_index(s, t) < j < s.len() ==> (#[trigger] s[j]).start.time > t,
    decreases s.len(),
{
    if s.len() == 0 {
    } else if s[s.len() - 1].start.time <= t {
    } else {
        lemma_find_index_props(s.drop_last(), t);
        assert forall|j: int| spec_find_index(s, t) < j < s.len() implies (
        #[trigger] s[j]).start.time > t by {
            if j < s.len() - 1 {
                assert(s.drop_last()[j] == s[j]);
            }
        }
    }
}

/// Converse identification: an index that starts at or before `t` and is
/// followed only by curves starting after `t` is the found index.
pub proof fn lemma_find_index_unique(s: Seq<Curve>, t: int, k: int)
    requires
        0 <= k < s.len(),
        s[k].start.time <= t,
        forall|j: int| k < j < s.len() ==> (#[trigger] s[j]).start.time > t,
    ensures
        spec_find_index(s, t) == k,
    decreases s.len(),
{
    if k == s.len() - 1 {
    } else {
        assert(s[s.len() - 1].start.time > t);
        assert(s.drop_last()[k] == s[k]);
        assert forall|j: int| k < j < s.drop_last().len() implies (
        #[trigger] s.drop_last()[j]).start.time > t by {
            assert(s.drop_last()[j] == s[j]);
        }
        lemma_find_index_unique(s.drop_last(), t, k);
    }
}

/// The envelope covers time `t`: it is non-empty, starts at or before `t`
/// and ends at or after `t`.
pub open spec fn env_covers(s: Seq<Curve>, t: int) -> bool {
    &&& s.len() > 0
    &&& s[0].start.time <= t
    &&& t <= s[s.len() - 1].end.time
}

/// Curve-local parameter for global time `t`: the elapsed fraction of the
/// segment's time span, in `SCALE` steps.
pub open spec fn spec_local_t(c: Curve, t: int) -> int {
    ((t - c.start.time) * (SCALE as int)) / (c.end.time - c.start.time)
}

/// The value the envelope yields at a covered time `t`.
pub open spec fn spec_sample(s: Seq<Curve>, t: int) -> int {
    let c = s[spec_find_index(s, t)];
    c.value_at(spec_local_t(c, t))
}

/// Handle coordinate, executable: `base` plus the fraction `fr` of the
/// delta towards `other`.
fn interp_coord(base: i64, other: i64, fr: i64) -> (r: i64)
    requires
        -KEY_LIMIT <= base <= KEY_LIMIT,
        -KEY_LIMIT <= other <= KEY_LIMIT,
        -FRAC_LIMIT <= fr <= FRAC_LIMIT,
    ensures
        r == base + ctrl_delta(fr as int, base as int, other as int),
        -SOURCE_LIMIT <= r <= SOURCE_LIMIT,
{
    let delta: i64 = other - base;
    proof {
        lemma_mul_bound(fr as int, delta as int, FRAC_LIMIT as int, 2 * (KEY_LIMIT as int));
    }
    let num: i64 = fr * delta;
    proof {
        lemma_div_trunc_bound(num as int, SCALE as int, 400_000_000_000);
    }
    let off: i64 = div_fixed(num, SCALE);
    base + off
}

/// Builds one curve per adjacent keyframe pair.
///
/// A keyframe with no handle fractions gets the implicit near-linear
/// handles at roughly one and two thirds of the delta; one with all four
/// fractions gets explicit handles; any other combination is rejected, as
/// is a pair sharing a timestamp.  Fewer than two keyframes yield an
/// empty envelope, which is not a fault.
#[verifier::rlimit(50)]
pub fn construct_segments(points: &Vec<AutomationPoint>) -> (r: Result<Vec<Curve>, KeyframeError>)
    requires
        forall|i: int| 0 <= i < points@.len() ==> key_in_range(#[trigger] points@[i]),
        forall|i: int|
            0 <= i && i + 1 < points@.len() ==> (#[trigger] points@[i]).time <= points@[i
                + 1].time,
    ensures
        match r {
            Ok(curves) => {
                &&& spec_first_error(points@, 0) is None
                &&& curves@.len() == if points@.len() >= 1 {
                    points@.len() - 1
                } else {
                    0int
                }
                &&& forall|i: int|
                    0 <= i < curves@.len() ==> curve_matches_pair(
                        #[trigger] curves@[i],
                        points@[i],
                        points@[i + 1],
                    )
                &&& env_wf(curves@)
                &&& env_in_range(curves@, SOURCE_LIMIT as int)
                &&& curves@ == spec_env_of(points@)
            },
            Err(e) => spec_first_error(points@, 0) == Some(e),
        },
{
    let mut segments: Vec<Curve> = Vec::new();
    let n: usize = points.len();
    if n == 0 {
        return Ok(segments);
    }
    let mut i: usize = 0;
    while i + 1 < n
        invariant
            n == points@.len(),
            forall|k: int| 0 <= k < points@.len() ==> key_in_range(#[trigger] points@[k]),
            forall|k: int|
                0 <= k && k + 1 < points@.len() ==> (#[trigger] points@[k]).time <= points@[k + 1].time,
            points@.len() >= 1,
            0 <= i <= points@.len() - 1,
            segments@.len() == i,
            forall|k: int|
                0 <= k < i ==> curve_matches_pair(
                    #[trigger] segments@[k],
                    points@[k],
                    points@[k + 1],
                ),
            forall|k: int| 0 <= k < i ==> (#[trigger] segments@[k]).in_range(SOURCE_LIMIT as int),
            forall|k: int|
                0 <= k < i ==> #[trigger] pair_error(points@[k], points@[k + 1], k) is None,
            spec_first_error(points@, 0) == spec_first_error(points@, i as int),
        decreases points@.len() - i,
    {
        let a = points[i];
        let b = points[i + 1];
        let fracs: (i64, i64, i64, i64) = match (
            a.curve_control_1x,
            a.curve_control_1y,
            a.curve_control_2x,
            a.curve_control_2y,
        ) {
            (None, None, None, None) => (
                DEFAULT_CONTROL_1,
                DEFAULT_CONTROL_1,
                DEFAULT_CONTROL_2,
                DEFAULT_CONTROL_2,
            ),
            (Some(x1), Some(y1), Some(x2), Some(y2)) => (x1, y1, x2, y2),
            _ => {
                proof {
                    assert(!controls_ok(points@[i as int]));
                    assert(spec_first_error(points@, i as int) == pair_error(
                        points@[i as int],
                        points@[i as int + 1],
                        i as int,
                    ));
                }
                return Err(KeyframeError::InvalidKeyframe { index: i });
            },
        };
        if a.time == b.time {
            proof {
                assert(controls_ok(points@[i as int]));
                assert(spec_first_error(points@, i as int) == pair_error(
                    points@[i as int],
                    points@[i as int + 1],
                    i as int,
                ));
            }
            return Err(KeyframeError::ZeroLengthSegment { index: i });
        }
        let curve = Curve {
            start: Point { time: a.time, value: a.value },
            control1: Point {
                time: interp_coord(a.time, b.time, fracs.0),
                value: interp_coord(a.value, b.value, fracs.1),
            },
            control2: Point {
                time: interp_coord(a.time, b.time, fracs.2),
                value: interp_coord(a.value, b.value, fracs.3),
            },
            end: Point { time: b.time, value: b.value },
        };
        segments.push(curve);
        proof {
            assert(pair_error(points@[i as int], points@[i as int + 1], i as int) is None);
            assert(spec_first_error(points@, i as int) == spec_first_error(points@, i as int + 1));
        }
        i += 1;
    }
    proof {
        assert(spec_first_error(points@, i as int) is None);
        assert forall|k: int| 0 <= k && k + 1 < segments@.len() implies (
        #[trigger] segments@[k]).end.time == segments@[k + 1].start.time by {
            assert(curve_matches_pair(segments@[k], points@[k], points@[k + 1]));
            assert(curve_matches_pair(segments@[k + 1], points@[k + 1], points@[k + 2]));
        }
        assert forall|k: int| 0 <= k < segments@.len() implies (#[trigger] segments@[k]).wf() by {
            assert(curve_matches_pair(segments@[k], points@[k], points@[k + 1]));
            assert(pair_error(points@[k], points@[k + 1], k) is None);
        }
        assert forall|k: int|
            0 <= k < segments@.len() implies #[trigger] segments@[k] == spec_env_of(points@)[k] by {
            assert(curve_matches_pair(segments@[k], points@[k], points@[k + 1]));
            lemma_matches_is_spec_curve(segments@[k], points@[k], points@[k + 1]);
        }
        assert(segments@ =~= spec_env_of(points@));
    }
    Ok(segments)
}

/// Returns the last curve that starts at or before `time`, or nothing
/// when every curve starts after `time`.
pub fn find_segment(time: i64, segments: &Vec<Curve>) -> (r: Option<Curve>)
    requires
        env_wf(segments@),
    ensures
        match r {
            Some(c) => {
                &&& spec_find_index(segments@, time as int) >= 0
                &&& c == segments@[spec_find_index(segments@, time as int)]
                &&& c.start.time <= time
                &&& forall|j: int|
                    0 <= j < segments@.len() && (#[trigger] segments@[j]).start.time <= time
                        ==> segments@[j].start.time <= c.start.time
            },
            None => {
                &&& spec_find_index(segments@, time as int) == -1
                &&& forall|j: int|
                    0 <= j < segments@.len() ==> (#[trigger] segments@[j]).start.time > time
            },
        },
{
    let ghost t = time as int;
    let mut latest_curve: Option<Curve> = None;
    let mut i: usize = 0;
    while i < segments.len()
        invariant
            env_wf(segments@),
            0 <= i <= segments@.len(),
            ({
                let k = spec_find_index(segments@.take(i as int), t);
                &&& (k == -1 ==> latest_curve is None)
                &&& (k >= 0 ==> latest_curve == Some(segments@[k]))
            }),
            t == time as int,
        decreases segments@.len() - i,
    {
        proof {
            assert(segments@.take(i as int + 1).drop_last() =~= segments@.take(i as int));
            assert(segments@.take(i as int + 1)[i as int] == segments@[i as int]);
        }
        let c = segments[i];
        if c.start.time <= time {
            latest_curve = Some(c);
        }
        i += 1;
    }
    proof {
        assert(segments@.take(segments@.len() as int) =~= segments@);
        lemma_find_index_props(segments@, t);
        let k = spec_find_index(segments@, t);
        if k >= 0 {
            assert forall|j: int|
                0 <= j < segments@.len() && (#[trigger] segments@[j]).start.time
                    <= time implies segments@[j].start.time <= segments@[k].start.time by {
                if j > k {
                } else if j < k {
                    lemma_env_monotone(segments@, j, k);
                    assert(segments@[j].wf());
                }
            }
        }
    }
    latest_curve
}

/// Samples the envelope at `time`: locates the covering curve, maps the
/// time to the curve-local parameter and evaluates the blend.  Times
/// outside the covered range are reported, not evaluated.
pub fn sample_segments(time: i64, segments: &Vec<Curve>) -> (r: Result<i64, SampleError>)
    requires
        env_wf(segments@),
    ensures
        r is Ok <==> env_covers(segments@, time as int),
        r is Ok ==> r.unwrap() == spec_sample(segments@, time as int),
        r is Err ==> r == Err::<i64, SampleError>(SampleError::OutOfRangeSample),
{
    let ghost t = time as int;
    if segments.len() == 0 {
        return Err(SampleError::OutOfRangeSample);
    }
    let last = segments[segments.len() - 1];
    if time > last.end.time {
        return Err(SampleError::OutOfRangeSample);
    }
    match find_segment(time, segments) {
        None => {
            proof {
                assert(segments@[0].start.time > t);
            }
            Err(SampleError::OutOfRangeSample)
        },
        Some(c) => {
            let ghost k = spec_find_index(segments@, t);
            proof {
                lemma_find_index_props(segments@, t);
                if k < segments@.len() - 1 {
                    assert(segments@[k + 1].start.time > t);
                    assert(segments@[k].end.time == segments@[k + 1].start.time);
                } else {
                    assert(segments@[k] == last);
                }
                assert(c.end.time >= time);
                if k > 0 {
                    lemma_env_monotone(segments@, 0, k);
                    assert(segments@[0].wf());
                }
                assert(segments@[0].start.time <= t);
            }
            let dur: i64 = c.end.time - c.start.time;
            let num: i64 = (time - c.start.time) * SCALE;
            proof {
                lemma_mul_bound(
                    (time - c.start.time) as int,
                    SCALE as int,
                    2 * (COORD_LIMIT as int),
                    SCALE as int,
                );
                vstd::arithmetic::div_mod::lemma_div_pos_is_pos(num as int, dur as int);
                vstd::arithmetic::div_mod::lemma_div_is_ordered(
                    num as int,
                    (dur as int) * (SCALE as int),
                    dur as int,
                );
                vstd::arithmetic::div_mod::lemma_div_multiples_vanish(SCALE as int, dur as int);
                assert((dur as int) * (SCALE as int) == (dur as int) * (SCALE as int));
                lemma_mul_bound(dur as int, SCALE as int, 2 * (COORD_LIMIT as int), SCALE as int);
            }
            let local_t: i64 = div_fixed(num, dur);
            proof {
                assert(num as int >= 0);
                assert(local_t == (num as int) / (dur as int));
                assert(local_t == spec_local_t(c, t));
            }
            Ok(c.evaluate(local_t))
        },
    }
}

/// Samples the envelope at each of the given times independently,
/// returning time and value pairs; fails on the first uncovered time.
pub fn multisample_segments(times: &Vec<i64>, segments: &Vec<Curve>) -> (r: Result<
    Vec<Point>,
    SampleError,
>)
    requires
        env_wf(segments@),
    ensures
        r is Ok <==> (forall|i: int|
            0 <= i < times@.len() ==> env_covers(segments@, #[trigger] times@[i] as int)),
        r is Ok ==> {
            &&& r.unwrap()@.len() == times@.len()
            &&& forall|i: int|
                0 <= i < times@.len() ==> {
                    &&& (#[trigger] r.unwrap()@[i]).time == times@[i]
                    &&& r.unwrap()@[i].value == spec_sample(segments@, times@[i] as int)
                }
        },
        r is Err ==> r == Err::<Vec<Point>, SampleError>(SampleError::OutOfRangeSample),
{
    let mut out: Vec<Point> = Vec::new();
    let mut i: usize = 0;
    while i < times.len()
        invariant
            env_wf(segments@),
            0 <= i <= times@.len(),
            out@.len() == i,
            forall|k: int| 0 <= k < i ==> env_covers(segments@, #[trigger] times@[k] as int),
            forall|k: int|
                0 <= k < i ==> {
                    &&& (#[trigger] out@[k]).time == times@[k]
                    &&& out@[k].value == spec_sample(segments@, times@[k] as int)
                },
        decreases times@.len() - i,
    {
        let time = times[i];
        match sample_segments(time, segments) {
            Ok(value) => {
                out.push(Point { time, value });
            },
            Err(e) => {
                return Err(e);
            },
        }
        i += 1;
    }
    Ok(out)
}

/// Straight-line law at the keyframe level: a pair whose explicit handle
/// fractions are `(0, 0)` and `(1, 1)` — one whole unit — yields a curve
/// through the midpoint of its endpoint values at the middle of its
/// parameter range.
pub proof fn lemma_unit_control_pair(c: Curve, a: AutomationPoint, b: AutomationPoint)
    requires
        curve_matches_pair(c, a, b),
        a.curve_control_1x == Some(0i64),
        a.curve_control_1y == Some(0i64),
        a.curve_control_2x == Some(SCALE),
        a.curve_control_2y == Some(SCALE),
    ensures
        c.value_at((SCALE as int) / 2) == div_trunc(a.value + b.value, 2),
{
    assert(has_all_controls(a));
    assert(frac_1y(a) == 0);
    assert(frac_2y(a) == SCALE as int);
    assert(ctrl_delta(0, a.value as int, b.value as int) == 0) by {
        assert(0 * ((b.value as int) - (a.value as int)) == 0);
        assert(div_trunc(0, SCALE as int) == 0);
    }
    assert(c.control1.value == a.value);
    crate::fixed::lemma_div_trunc_exact((b.value as int) - (a.value as int), SCALE as int);
    assert(ctrl_delta(SCALE as int, a.value as int, b.value as int) == b.value - a.value);
    assert(c.control2.value == b.value);
    crate::curve::lemma_unit_controls_midpoint(c);
}

} // verus!
