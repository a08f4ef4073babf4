//! Clip splitter and named patterns.
//!
//! A sorted marker list cuts each parameter's envelope into clips: a curve
//! is retained for a marker window when its start or its end time falls
//! within the window, and every retained curve is shifted so the window
//! begins at time zero.  The curves retained from a well-formed envelope
//! form a contiguous block, so the clip is again a well-formed envelope,
//! and sampling the clip at a local time agrees with sampling the source
//! envelope at the corresponding global time.

use vstd::prelude::*;

use crate::assoc::{contains_key, keys_unique};
use crate::curve::{Curve, Point};
use crate::envelope::{
    construct_segments, env_covers, env_in_range, env_wf, key_in_range, lemma_env_monotone,
    lemma_find_index_props, lemma_find_index_unique, sample_segments, spec_env_of,
    spec_find_index, spec_first_error, spec_local_t, spec_sample, AutomationPoint, KeyframeError,
};
use crate::fixed::{COORD_LIMIT, SOURCE_LIMIT};

verus! {

/// A named timestamp delimiting clips on a timeline.
#[derive(Clone, Debug)]
pub struct Marker {
    pub time: i64,
    pub name: String,
}

/// The curve is retained for the window `[m0, m1]`: its start or its end
/// time falls within the window.
pub open spec fn curve_overlaps(c: Curve, m0: int, m1: int) -> bool {
    (m0 <= c.start.time <= m1) || (m0 <= c.end.time <= m1)
}

/// The point shifted `off` ticks earlier in time; the value is unchanged.
pub open spec fn shift_point(p: Point, off: int) -> Point {
    Point { time: (p.time - off) as i64, value: p.value }
}

/// The curve shifted `off` ticks earlier in time.
pub open spec fn shift_curve(c: Curve, off: int) -> Curve {
    Curve {
        start: shift_point(c.start, off),
        control1: shift_point(c.control1, off),
        control2: shift_point(c.control2, off),
        end: shift_point(c.end, off),
    }
}

/// The curves of `s` retained for the window `[m0, m1]`, in order, each
/// shifted so the window starts at time zero.
pub open spec fn spec_cut(s: Seq<Curve>, m0: int, m1: int) -> Seq<Curve>
    decreases s.len(),
{
    if s.len() == 0 {
        Seq::empty()
    } else {
        let rest = spec_cut(s.drop_last(), m0, m1);
        if curve_overlaps(s.last(), m0, m1) {
            rest.push(shift_curve(s.last(), m0))
        } else {
            rest
        }
    }
}

/// Dropping the last curve keeps an envelope well formed.
pub proof fn lemma_env_wf_drop_last(s: Seq<Curve>)
    requires
        env_wf(s),
        s.len() > 0,
    ensures
        env_wf(s.drop_last()),
{
    assert forall|i: int| 0 <= i < s.drop_last().len() implies (#[trigger] s.drop_last()[i]).wf() by {
        assert(s.drop_last()[i] == s[i]);
    }
    assert forall|i: int| 0 <= i && i + 1 < s.drop_last().len() implies (
    #[trigger] s.drop_last()[i]).end.time == s.drop_last()[i + 1].start.time by {
        assert(s.drop_last()[i] == s[i]);
        assert(s.drop_last()[i + 1] == s[i + 1]);
    }
}

/// In a well-formed envelope, a curve between two retained curves is
/// itself retained: a gap in the middle of the retained block is
/// impossible.
pub proof fn lemma_overlap_middle(s: Seq<Curve>, m0: int, m1: int, k1: int, k: int, k2: int)
    requires
        env_wf(s),
        0 <= k1 < k < k2 < s.len(),
        curve_overlaps(s[k1], m0, m1),
        curve_overlaps(s[k2], m0, m1),
    ensures
        curve_overlaps(s[k], m0, m1),
{
    lemma_env_monotone(s, k1, k);
    lemma_env_monotone(s, k, k2);
    assert(s[k1].wf());
    assert(s[k].wf());
    assert(s[k2].wf());
    if !curve_overlaps(s[k], m0, m1) {
        if s[k].end.time < m0 {
            assert(s[k1].end.time < m0);
            assert(false);
        } else if s[k].start.time > m1 {
            assert(s[k].end.time <= s[k2].start.time);
            assert(false);
        } else {
            assert(s[k].start.time < m0 && s[k].end.time > m1);
            assert(s[k1].end.time <= s[k].start.time);
            assert(false);
        }
    }
}

/// The curves retained for a window form one contiguous block of the
/// source envelope: the cut is exactly the block's curves, shifted.
/// Returns the block's first and last source index (meaningful only when
/// the cut is non-empty).
#[verifier::rlimit(100)]
pub proof fn lemma_cut_block(s: Seq<Curve>, m0: int, m1: int) -> (r: (int, int))
    requires
        env_wf(s),
    ensures
        spec_cut(s, m0, m1).len() == 0 ==> (forall|k: int|
            0 <= k < s.len() ==> !curve_overlaps(#[trigger] s[k], m0, m1)),
        spec_cut(s, m0, m1).len() > 0 ==> {
            &&& 0 <= r.0 <= r.1 < s.len()
            &&& spec_cut(s, m0, m1).len() == r.1 - r.0 + 1
            &&& (forall|k: int| r.0 <= k <= r.1 ==> curve_overlaps(#[trigger] s[k], m0, m1))
            &&& (forall|k: int| 0 <= k < r.0 ==> !curve_overlaps(#[trigger] s[k], m0, m1))
            &&& (forall|k: int| r.1 < k < s.len() ==> !curve_overlaps(#[trigger] s[k], m0, m1))
            &&& (forall|j: int|
                0 <= j < spec_cut(s, m0, m1).len() ==> #[trigger] spec_cut(s, m0, m1)[j]
                    == shift_curve(s[r.0 + j], m0))
        },
    decreases s.len(),
{
    if s.len() == 0 {
        (0, 0)
    } else {
        let sd = s.drop_last();
        lemma_env_wf_drop_last(s);
        let rprev = lemma_cut_block(sd, m0, m1);
        let cut = spec_cut(s, m0, m1);
        let cutd = spec_cut(sd, m0, m1);
        assert(forall|k: int| 0 <= k < sd.len() ==> #[trigger] sd[k] == s[k]);
        if curve_overlaps(s.last(), m0, m1) {
            assert(s.last() == s[s.len() - 1]);
            assert(cut == cutd.push(shift_curve(s.last(), m0)));
            if cutd.len() == 0 {
                let r = (s.len() - 1, s.len() - 1);
                assert forall|k: int| 0 <= k < r.0 implies !curve_overlaps(
                    #[trigger] s[k],
                    m0,
                    m1,
                ) by {
                    assert(sd[k] == s[k]);
                }
                r
            } else {
                let (lo, hi) = rprev;
                if hi < sd.len() - 1 {
                    assert(sd[hi] == s[hi]);
                    assert(curve_overlaps(sd[hi], m0, m1));
                    lemma_overlap_middle(s, m0, m1, hi, hi + 1, s.len() - 1);
                    assert(sd[hi + 1] == s[hi + 1]);
                    assert(!curve_overlaps(sd[hi + 1], m0, m1));
                    assert(false);
                }
                assert(hi == s.len() - 2);
                let r = (lo, s.len() - 1);
                assert forall|j: int| 0 <= j < cut.len() implies #[trigger] cut[j] == shift_curve(
                    s[r.0 + j],
                    m0,
                ) by {
                    if j < cutd.len() {
                        assert(cut[j] == cutd[j]);
                        assert(cutd[j] == shift_curve(sd[lo + j], m0));
                        assert(sd[lo + j] == s[lo + j]);
                    } else {
                        assert(j == cutd.len());
                        assert(lo + j == s.len() - 1);
                    }
                }
                assert forall|k: int| r.0 <= k <= r.1 implies curve_overlaps(
                    #[trigger] s[k],
                    m0,
                    m1,
                ) by {
                    if k < s.len() - 1 {
                        assert(sd[k] == s[k]);
                        assert(curve_overlaps(sd[k], m0, m1));
                    }
                }
                assert forall|k: int| 0 <= k < r.0 implies !curve_overlaps(
                    #[trigger] s[k],
                    m0,
                    m1,
                ) by {
                    assert(sd[k] == s[k]);
                    assert(!curve_overlaps(sd[k], m0, m1));
                }
                r
            }
        } else {
            assert(cut == cutd);
            if cut.len() == 0 {
                assert forall|k: int| 0 <= k < s.len() implies !curve_overlaps(
                    #[trigger] s[k],
                    m0,
                    m1,
                ) by {
                    if k < s.len() - 1 {
                        assert(sd[k] == s[k]);
                    }
                }
                rprev
            } else {
                let (lo, hi) = rprev;
                assert forall|j: int| 0 <= j < cut.len() implies #[trigger] cut[j] == shift_curve(
                    s[lo + j],
                    m0,
                ) by {
                    assert(cutd[j] == shift_curve(sd[lo + j], m0));
                    assert(sd[lo + j] == s[lo + j]);
                }
                assert forall|k: int| lo <= k <= hi implies curve_overlaps(
                    #[trigger] s[k],
                    m0,
                    m1,
                ) by {
                    assert(sd[k] == s[k]);
                    assert(curve_overlaps(sd[k], m0, m1));
                }
                assert forall|k: int| 0 <= k < lo implies !curve_overlaps(
                    #[trigger] s[k],
                    m0,
                    m1,
                ) by {
                    assert(sd[k] == s[k]);
                    assert(!curve_overlaps(sd[k], m0, m1));
                }
                assert forall|k: int| hi < k < s.len() implies !curve_overlaps(
                    #[trigger] s[k],
                    m0,
                    m1,
                ) by {
                    if k < s.len() - 1 {
                        assert(sd[k] == s[k]);
                        assert(!curve_overlaps(sd[k], m0, m1));
                    } else {
                        assert(s.last() == s[s.len() - 1]);
                    }
                }
                rprev
            }
        }
    }
}

/// Cutting a well-formed envelope within the coordinate budget yields a
/// well-formed envelope again.
pub proof fn lemma_cut_wf(s: Seq<Curve>, m0: int, m1: int)
    requires
        env_wf(s),
        env_in_range(s, SOURCE_LIMIT as int),
        -SOURCE_LIMIT <= m0 <= SOURCE_LIMIT,
    ensures
        env_wf(spec_cut(s, m0, m1)),
        env_in_range(spec_cut(s, m0, m1), COORD_LIMIT as int),
{
    let cut = spec_cut(s, m0, m1);
    let r = lemma_cut_block(s, m0, m1);
    if cut.len() > 0 {
        let (lo, hi) = r;
        assert forall|j: int| 0 <= j < cut.len() implies (#[trigger] cut[j]).wf() && cut[j].in_range(
            COORD_LIMIT as int,
        ) by {
            assert(cut[j] == shift_curve(s[lo + j], m0));
            assert(s[lo + j].wf());
            assert(s[lo + j].in_range(SOURCE_LIMIT as int));
        }
        assert forall|j: int| 0 <= j && j + 1 < cut.len() implies (#[trigger] cut[j]).end.time
            == cut[j + 1].start.time by {
            assert(cut[j] == shift_curve(s[lo + j], m0));
            assert(cut[j + 1] == shift_curve(s[lo + j + 1], m0));
            assert(s[lo + j].end.time == s[lo + j + 1].start.time);
            assert(s[lo + j].in_range(SOURCE_LIMIT as int));
            assert(s[lo + j + 1].in_range(SOURCE_LIMIT as int));
        }
    }
}

/// Clip-sampling law: when the curve covering global time `u + m0` is
/// retained by the cut for the window `[m0, m1]` — that is, it does not
/// strictly span the whole window — the cut covers local time `u` and
/// sampling it there yields exactly the sample of the source envelope at
/// the global time.
#[verifier::rlimit(100)]
pub proof fn lemma_cut_preserves_sample(s: Seq<Curve>, m0: int, m1: int, u: int)
    requires
        env_wf(s),
        env_in_range(s, SOURCE_LIMIT as int),
        -SOURCE_LIMIT <= m0 <= SOURCE_LIMIT,
        env_covers(s, u + m0),
        curve_overlaps(s[spec_find_index(s, u + m0)], m0, m1),
    ensures
        env_covers(spec_cut(s, m0, m1), u),
        spec_sample(spec_cut(s, m0, m1), u) == spec_sample(s, u + m0),
{
    let t = u + m0;
    let i = spec_find_index(s, t);
    let cut = spec_cut(s, m0, m1);
    let j = lemma_cut_locates(s, m0, m1, u);
    let c = s[i];
    let cs = cut[j];
    lemma_shift_fields(c, m0);
    assert(spec_local_t(cs, u) == spec_local_t(c, t));
    lemma_same_values_same_blend(cs, c, spec_local_t(c, t));
    assert(spec_sample(cut, u) == spec_sample(s, t));
}

/// Shifting a bounded curve moves every time coordinate by the offset and
/// keeps every value coordinate.
pub proof fn lemma_shift_fields(c: Curve, off: int)
    requires
        c.in_range(SOURCE_LIMIT as int),
        -SOURCE_LIMIT <= off <= SOURCE_LIMIT,
    ensures
        shift_curve(c, off).start.time == c.start.time - off,
        shift_curve(c, off).start.value == c.start.value,
        shift_curve(c, off).control1.time == c.control1.time - off,
        shift_curve(c, off).control1.value == c.control1.value,
        shift_curve(c, off).control2.time == c.control2.time - off,
        shift_curve(c, off).control2.value == c.control2.value,
        shift_curve(c, off).end.time == c.end.time - off,
        shift_curve(c, off).end.value == c.end.value,
{
}

/// Locates, within the cut for `[m0, m1]`, the shifted copy of the curve
/// that covers global time `u + m0` in the source envelope, and shows the
/// cut covers the local time `u`.
#[verifier::rlimit(100)]
proof fn lemma_cut_locates(s: Seq<Curve>, m0: int, m1: int, u: int) -> (j: int)
    requires
        env_wf(s),
        env_in_range(s, SOURCE_LIMIT as int),
        -SOURCE_LIMIT <= m0 <= SOURCE_LIMIT,
        env_covers(s, u + m0),
        curve_overlaps(s[spec_find_index(s, u + m0)], m0, m1),
    ensures
        env_covers(spec_cut(s, m0, m1), u),
        0 <= spec_find_index(s, u + m0) < s.len(),
        u + m0 <= s[spec_find_index(s, u + m0)].end.time,
        0 <= j < spec_cut(s, m0, m1).len(),
        spec_find_index(spec_cut(s, m0, m1), u) == j,
        spec_cut(s, m0, m1)[j] == shift_curve(s[spec_find_index(s, u + m0)], m0),
{
    let t = u + m0;
    let i = spec_find_index(s, t);
    lemma_find_index_props(s, t);
    assert(i >= 0);
    if i < s.len() - 1 {
        assert(s[i + 1].start.time > t);
        assert(s[i].end.time == s[i + 1].start.time);
    }
    assert(t <= s[i].end.time);
    let cut = spec_cut(s, m0, m1);
    let r = lemma_cut_block(s, m0, m1);
    assert(cut.len() > 0) by {
        if cut.len() == 0 {
            assert(!curve_overlaps(s[i], m0, m1));
        }
    }
    let (lo, hi) = r;
    assert(lo <= i <= hi) by {
        if i < lo {
            assert(!curve_overlaps(s[i], m0, m1));
        }
        if i > hi {
            assert(!curve_overlaps(s[i], m0, m1));
        }
    }
    let j = i - lo;
    assert(cut[j] == shift_curve(s[i], m0));
    assert(s[i].in_range(SOURCE_LIMIT as int));
    lemma_shift_fields(s[i], m0);
    assert forall|jj: int| j < jj < cut.len() implies (#[trigger] cut[jj]).start.time > u by {
        assert(cut[jj] == shift_curve(s[lo + jj], m0));
        assert(s[lo + jj].start.time > t);
        assert(s[lo + jj].in_range(SOURCE_LIMIT as int));
        lemma_shift_fields(s[lo + jj], m0);
    }
    assert(cut[j].start.time <= u);
    lemma_find_index_unique(cut, u, j);
    assert(cut[0] == shift_curve(s[lo], m0));
    if lo < i {
        lemma_env_monotone(s, lo, i);
        assert(s[lo].wf());
    }
    assert(s[lo].start.time <= t);
    assert(s[lo].in_range(SOURCE_LIMIT as int));
    lemma_shift_fields(s[lo], m0);
    assert(cut[0].start.time <= u);
    assert(cut[cut.len() - 1] == shift_curve(s[hi], m0));
    if i < hi {
        lemma_env_monotone(s, i, hi);
        assert(s[hi].wf());
    }
    assert(s[hi].end.time >= t);
    assert(s[hi].in_range(SOURCE_LIMIT as int));
    lemma_shift_fields(s[hi], m0);
    assert(cut[cut.len() - 1].end.time >= u);
    assert(env_covers(cut, u));
    j
}

/// Two curves with the same value coordinates blend to the same value at
/// every parameter.
pub proof fn lemma_same_values_same_blend(c1: Curve, c2: Curve, t: int)
    requires
        c1.start.value == c2.start.value,
        c1.control1.value == c2.control1.value,
        c1.control2.value == c2.control2.value,
        c1.end.value == c2.end.value,
    ensures
        c1.value_at(t) == c2.value_at(t),
{
    assert(c1.blend_numerator(t) == c2.blend_numerator(t));
}

/// Retains the curves whose start or end time falls within `[start, end]`
/// and shifts them so the window begins at time zero.
pub fn envelope_between_times(start: i64, end: i64, envelope: &Vec<Curve>) -> (r: Vec<Curve>)
    requires
        env_in_range(envelope@, SOURCE_LIMIT as int),
        -SOURCE_LIMIT <= start <= SOURCE_LIMIT,
    ensures
        r@ == spec_cut(envelope@, start as int, end as int),
{
    let mut curves: Vec<Curve> = Vec::new();
    let n: usize = envelope.len();
    let mut i: usize = 0;
    while i < n
        invariant
            n == envelope@.len(),
            0 <= i <= n,
            env_in_range(envelope@, SOURCE_LIMIT as int),
            -SOURCE_LIMIT <= start <= SOURCE_LIMIT,
            curves@ == spec_cut(envelope@.take(i as int), start as int, end as int),
        decreases n - i,
    {
        proof {
            assert(envelope@.take(i as int + 1).drop_last() =~= envelope@.take(i as int));
            assert(envelope@.take(i as int + 1).last() == envelope@[i as int]);
        }
        let c = envelope[i];
        if (start <= c.start.time && c.start.time <= end) || (start <= c.end.time && c.end.time
            <= end) {
            let shifted = Curve {
                start: Point { time: c.start.time - start, value: c.start.value },
                control1: Point { time: c.control1.time - start, value: c.control1.value },
                control2: Point { time: c.control2.time - start, value: c.control2.value },
                end: Point { time: c.end.time - start, value: c.end.value },
            };
            proof {
                assert(shifted == shift_curve(envelope@[i as int], start as int));
            }
            curves.push(shifted);
        }
        i += 1;
    }
    proof {
        assert(envelope@.take(n as int) =~= envelope@);
    }
    curves
}

/// A named clip: a fixed duration plus, per parameter, the curves of the
/// clip's window, shifted to start at time zero.
#[derive(Debug)]
pub struct LightingPattern {
    pub length: i64,
    pub envelopes: Vec<(String, Vec<Curve>)>,
}

/// View of a parameter-value list as name and value pairs.
pub open spec fn pairs_view(s: Seq<(String, i64)>) -> Seq<(Seq<char>, int)> {
    s.map(|i: int, p: (String, i64)| (p.0@, p.1 as int))
}

/// The values of every envelope that covers time `t`, in envelope order;
/// envelopes not covering `t` are left out.
pub open spec fn spec_at_time(envs: Seq<(String, Vec<Curve>)>, t: int) -> Seq<(Seq<char>, int)>
    decreases envs.len(),
{
    if envs.len() == 0 {
        Seq::empty()
    } else {
        let rest = spec_at_time(envs.drop_last(), t);
        if env_covers(envs.last().1@, t) {
            rest.push((envs.last().0@, spec_sample(envs.last().1@, t)))
        } else {
            rest
        }
    }
}

impl LightingPattern {
    /// Every envelope is well formed and within the coordinate budget,
    /// and the parameter names are unique.
    pub open spec fn wf(self) -> bool {
        &&& forall|i: int|
            0 <= i < self.envelopes@.len() ==> env_wf((#[trigger] self.envelopes@[i]).1@)
        &&& forall|i: int|
            0 <= i < self.envelopes@.len() ==> env_in_range(
                (#[trigger] self.envelopes@[i]).1@,
                COORD_LIMIT as int,
            )
        &&& keys_unique(self.envelopes@)
    }

    /// All parameter values of this clip at time `time`.  A parameter
    /// whose envelope does not cover `time` is omitted from the result
    /// rather than failing the whole frame.
    pub fn at_time(&self, time: i64) -> (r: Vec<(String, i64)>)
        requires
            self.wf(),
        ensures
            pairs_view(r@) == spec_at_time(self.envelopes@, time as int),
            keys_unique(r@),
    {
        let mut values: Vec<(String, i64)> = Vec::new();
        let n: usize = self.envelopes.len();
        let mut i: usize = 0;
        while i < n
            invariant
                self.wf(),
                n == self.envelopes@.len(),
                0 <= i <= n,
                pairs_view(values@) == spec_at_time(
                    self.envelopes@.take(i as int),
                    time as int,
                ),
                forall|k: int|
                    0 <= k < values@.len() ==> exists|j: int|
                        0 <= j < i && (#[trigger] values@[k]).0@ == self.envelopes@[j].0@,
                keys_unique(values@),
            decreases n - i,
        {
            proof {
                assert(self.envelopes@.take(i as int + 1).drop_last() =~= self.envelopes@.take(
                    i as int,
                ));
                assert(self.envelopes@.take(i as int + 1).last() == self.envelopes@[i as int]);
            }
            let entry = &self.envelopes[i];
            let ghost old_values = values@;
            match sample_segments(time, &entry.1) {
                Ok(v) => {
                    values.push((entry.0.clone(), v));
                    proof {
                        assert(pairs_view(values@) =~= pairs_view(old_values).push(
                            (self.envelopes@[i as int].0@, v as int),
                        ));
                        assert forall|k: int| 0 <= k < values@.len() implies exists|j: int|
                            0 <= j < i + 1 && (#[trigger] values@[k]).0@
                                == self.envelopes@[j].0@ by {
                            if k < old_values.len() {
                                assert(values@[k] == old_values[k]);
                            } else {
                                assert(values@[k].0@ == self.envelopes@[i as int].0@);
                            }
                        }
                        assert forall|k1: int, k2: int|
                            0 <= k1 < k2 < values@.len() implies (#[trigger] values@[k1]).0@ != (
                        #[trigger] values@[k2]).0@ by {
                            if k2 == values@.len() - 1 {
                                let j1 = choose|j: int|
                                    0 <= j < i && values@[k1].0@ == self.envelopes@[j].0@;
                                assert(self.envelopes@[j1].0@ != self.envelopes@[i as int].0@);
                            }
                        }
                    }
                },
                Err(_) => {
                },
            }
            i += 1;
        }
        proof {
            assert(self.envelopes@.take(n as int) =~= self.envelopes@);
        }
        values
    }
}

/// View of a named envelope list as name and curve sequences.
pub open spec fn envs_view(s: Seq<(String, Vec<Curve>)>) -> Seq<(Seq<char>, Seq<Curve>)> {
    s.map(|i: int, e: (String, Vec<Curve>)| (e.0@, e.1@))
}

/// The pattern holds, for every parameter of `envs` in order, the curves
/// of the window between the two markers, shifted to local time, and the
/// window's span as its duration.
pub open spec fn pattern_matches_pair(
    pat: LightingPattern,
    envs: Seq<(Seq<char>, Seq<Curve>)>,
    m0: Marker,
    m1: Marker,
) -> bool {
    &&& pat.length == m1.time - m0.time
    &&& pat.envelopes@.len() == envs.len()
    &&& forall|e: int|
        0 <= e < envs.len() ==> {
            &&& (#[trigger] pat.envelopes@[e]).0@ == envs[e].0
            &&& pat.envelopes@[e].1@ == spec_cut(envs[e].1, m0.time as int, m1.time as int)
        }
}

/// The entry holds a clip cut at some adjacent marker pair at or after
/// `pbound`, named after the pair's first marker, and no later pair bears
/// that name.
pub open spec fn clip_entry_ok(
    entry: (String, LightingPattern),
    envs: Seq<(Seq<char>, Seq<Curve>)>,
    locators: Seq<Marker>,
    pbound: int,
) -> bool {
    exists|p: int|
        {
            &&& pbound <= p && p + 1 < locators.len()
            &&& entry.0@ == (#[trigger] locators[p]).name@
            &&& (forall|q: int|
                p < q && q + 1 < locators.len() ==> (#[trigger] locators[q]).name@ != entry.0@)
            &&& pattern_matches_pair(entry.1, envs, locators[p], locators[p + 1])
        }
}

/// Lowering the bound keeps a clip entry valid.
proof fn lemma_clip_entry_widen(
    entry: (String, LightingPattern),
    envs: Seq<(Seq<char>, Seq<Curve>)>,
    locators: Seq<Marker>,
    p1: int,
    p2: int,
)
    requires
        clip_entry_ok(entry, envs, locators, p1),
        p2 <= p1,
    ensures
        clip_entry_ok(entry, envs, locators, p2),
{
    let p = choose|p: int|
        {
            &&& p1 <= p && p + 1 < locators.len()
            &&& entry.0@ == (#[trigger] locators[p]).name@
            &&& (forall|q: int|
                p < q && q + 1 < locators.len() ==> (#[trigger] locators[q]).name@ != entry.0@)
            &&& pattern_matches_pair(entry.1, envs, locators[p], locators[p + 1])
        };
    assert(p2 <= p && p + 1 < locators.len() && entry.0@ == locators[p].name@);
}

/// Cuts every envelope at each adjacent marker pair, bundling the cuts
/// into one pattern per pair, named after the pair's first marker.  When
/// several pairs share a name, the last pair's pattern is kept.  Fewer
/// than two markers yield no patterns.
#[verifier::rlimit(100)]
pub fn split_envelopes_by_locators(
    envelopes: &Vec<(String, Vec<Curve>)>,
    locators: &Vec<Marker>,
) -> (r: Vec<(String, LightingPattern)>)
    requires
        forall|e: int|
            0 <= e < envelopes@.len() ==> env_wf((#[trigger] envelopes@[e]).1@) && env_in_range(
                envelopes@[e].1@,
                SOURCE_LIMIT as int,
            ),
        keys_unique(envelopes@),
        forall|p: int|
            0 <= p < locators@.len() ==> -SOURCE_LIMIT <= (#[trigger] locators@[p]).time
                <= SOURCE_LIMIT,
        forall|p: int|
            0 <= p && p + 1 < locators@.len() ==> (#[trigger] locators@[p]).time < locators@[p
                + 1].time,
    ensures
        keys_unique(r@),
        forall|k: int|
            0 <= k < r@.len() ==> clip_entry_ok(#[trigger] r@[k], envs_view(envelopes@), locators@, 0),
        forall|p: int|
            0 <= p && p + 1 < locators@.len() ==> contains_key(
                r@,
                (#[trigger] locators@[p]).name@,
            ),
        forall|k: int| 0 <= k < r@.len() ==> (#[trigger] r@[k]).1.wf(),
{
    let mut patterns: Vec<(String, LightingPattern)> = Vec::new();
    let n: usize = locators.len();
    if n < 2 {
        return patterns;
    }
    let mut p: usize = n - 1;
    while p > 0
        invariant
            forall|e: int|
                0 <= e < envelopes@.len() ==> env_wf((#[trigger] envelopes@[e]).1@)
                    && env_in_range(envelopes@[e].1@, SOURCE_LIMIT as int),
            keys_unique(envelopes@),
            forall|q: int|
                0 <= q < locators@.len() ==> -SOURCE_LIMIT <= (#[trigger] locators@[q]).time
                    <= SOURCE_LIMIT,
            forall|q: int|
                0 <= q && q + 1 < locators@.len() ==> (#[trigger] locators@[q]).time < locators@[q
                    + 1].time,
            n == locators@.len(),
            n >= 2,
            0 <= p <= n - 1,
            keys_unique(patterns@),
            forall|k: int|
                0 <= k < patterns@.len() ==> clip_entry_ok(
                    #[trigger] patterns@[k],
                    envs_view(envelopes@),
                    locators@,
                    p as int,
                ),
            forall|pp: int|
                p <= pp && pp + 1 < n ==> contains_key(patterns@, (#[trigger] locators@[pp]).name@),
            forall|k: int| 0 <= k < patterns@.len() ==> (#[trigger] patterns@[k]).1.wf(),
        decreases p,
    {
        let idx: usize = p - 1;
        let m0_time: i64 = locators[idx].time;
        let m1_time: i64 = locators[idx + 1].time;
        match crate::assoc::find_key(&patterns, &locators[idx].name) {
            Some(found) => {
                proof {
                    assert(patterns@[found as int].0@ == locators@[idx as int].name@);
                    assert(contains_key(patterns@, locators@[idx as int].name@));
                    assert forall|k: int| 0 <= k < patterns@.len() implies clip_entry_ok(
                        #[trigger] patterns@[k],
                        envs_view(envelopes@),
                        locators@,
                        idx as int,
                    ) by {
                        lemma_clip_entry_widen(
                            patterns@[k],
                            envs_view(envelopes@),
                            locators@,
                            p as int,
                            idx as int,
                        );
                    }
                }
            },
            None => {
                let mut envs: Vec<(String, Vec<Curve>)> = Vec::new();
                let en: usize = envelopes.len();
                let mut e: usize = 0;
                while e < en
                    invariant
                        forall|ee: int|
                            0 <= ee < envelopes@.len() ==> env_wf((#[trigger] envelopes@[ee]).1@)
                                && env_in_range(envelopes@[ee].1@, SOURCE_LIMIT as int),
                        en == envelopes@.len(),
                        0 <= e <= en,
                        envs@.len() == e,
                        -SOURCE_LIMIT <= m0_time <= SOURCE_LIMIT,
                        forall|ee: int|
                            0 <= ee < e ==> {
                                &&& (#[trigger] envs@[ee]).0@ == envelopes@[ee].0@
                                &&& envs@[ee].1@ == spec_cut(
                                    envelopes@[ee].1@,
                                    m0_time as int,
                                    m1_time as int,
                                )
                            },
                    decreases en - e,
                {
                    let source = &envelopes[e];
                    let cut_curves = envelope_between_times(m0_time, m1_time, &source.1);
                    envs.push((source.0.clone(), cut_curves));
                    e += 1;
                }
                let pattern = LightingPattern { length: m1_time - m0_time, envelopes: envs };
                proof {
                    assert forall|ee: int|
                        0 <= ee < pattern.envelopes@.len() implies env_wf(
                        (#[trigger] pattern.envelopes@[ee]).1@,
                    ) && env_in_range(pattern.envelopes@[ee].1@, COORD_LIMIT as int) by {
                        lemma_cut_wf(envelopes@[ee].1@, m0_time as int, m1_time as int);
                    }
                    assert forall|k1: int, k2: int|
                        0 <= k1 < k2 < pattern.envelopes@.len() implies (
                    #[trigger] pattern.envelopes@[k1]).0@ != (
                    #[trigger] pattern.envelopes@[k2]).0@ by {
                        assert(envelopes@[k1].0@ != envelopes@[k2].0@);
                    }
                    assert(pattern.wf());
                }
                let ghost old_patterns = patterns@;
                patterns.push((locators[idx].name.clone(), pattern));
                proof {
                    let li = idx as int;
                    let newk = patterns@.len() - 1;
                    assert(patterns@[newk].0@ == locators@[li].name@);
                    assert(contains_key(patterns@, locators@[li].name@));
                    assert forall|pp: int|
                        idx <= pp && pp + 1 < n implies contains_key(
                        patterns@,
                        (#[trigger] locators@[pp]).name@,
                    ) by {
                        if pp > li {
                            assert(contains_key(old_patterns, locators@[pp].name@));
                            let w = choose|w: int|
                                0 <= w < old_patterns.len() && (#[trigger] old_patterns[w]).0@
                                    == locators@[pp].name@;
                            assert(patterns@[w] == old_patterns[w]);
                            assert(patterns@[w].0@ == locators@[pp].name@);
                        }
                    }
                    assert forall|q: int|
                        li < q && q + 1 < n implies (#[trigger] locators@[q]).name@
                            != locators@[li].name@ by {
                        if locators@[q].name@ == locators@[li].name@ {
                            assert(contains_key(old_patterns, locators@[q].name@));
                            let w = choose|w: int|
                                0 <= w < old_patterns.len() && (#[trigger] old_patterns[w]).0@
                                    == locators@[q].name@;
                            assert(false);
                        }
                    }
                    assert forall|k: int| 0 <= k < patterns@.len() implies clip_entry_ok(
                        #[trigger] patterns@[k],
                        envs_view(envelopes@),
                        locators@,
                        li,
                    ) by {
                        if k < old_patterns.len() {
                            assert(patterns@[k] == old_patterns[k]);
                            lemma_clip_entry_widen(
                                patterns@[k],
                                envs_view(envelopes@),
                                locators@,
                                p as int,
                                li,
                            );
                        } else {
                            assert(patterns@[k].0@ == locators@[li].name@);
                            assert forall|ee: int|
                                0 <= ee < envs_view(envelopes@).len() implies {
                                &&& (#[trigger] patterns@[k].1.envelopes@[ee]).0@ == envs_view(
                                    envelopes@,
                                )[ee].0
                                &&& patterns@[k].1.envelopes@[ee].1@ == spec_cut(
                                    envs_view(envelopes@)[ee].1,
                                    locators@[li].time as int,
                                    locators@[li + 1].time as int,
                                )
                            } by {
                                assert(envs_view(envelopes@)[ee].0 == envelopes@[ee].0@);
                                assert(envs_view(envelopes@)[ee].1 == envelopes@[ee].1@);
                            }
                            assert(pattern_matches_pair(
                                patterns@[k].1,
                                envs_view(envelopes@),
                                locators@[li],
                                locators@[li + 1],
                            ));
                            assert(li <= li && li + 1 < locators@.len() && patterns@[k].0@
                                == locators@[li].name@);
                        }
                    }
                    assert forall|k1: int, k2: int|
                        0 <= k1 < k2 < patterns@.len() implies (#[trigger] patterns@[k1]).0@ != (
                    #[trigger] patterns@[k2]).0@ by {
                        if k2 == newk && 0 <= k1 < old_patterns.len() {
                            assert(patterns@[k1] == old_patterns[k1]);
                            if old_patterns[k1].0@ == locators@[li].name@ {
                                assert(contains_key(old_patterns, locators@[li].name@));
                                assert(false);
                            }
                        }
                    }
                }
            },
        }
        p = idx;
    }
    patterns
}

/// The envelopes the construction rule yields for a set of named
/// keyframe lists.
pub open spec fn spec_built_envs(params: Seq<(String, Vec<AutomationPoint>)>) -> Seq<
    (Seq<char>, Seq<Curve>),
> {
    params.map(|i: int, p: (String, Vec<AutomationPoint>)| (p.0@, spec_env_of(p.1@)))
}

/// Load-time entry: builds every parameter's envelope from its keyframes
/// and cuts the result into named patterns at the marker pairs.
///
/// Fails on the first structurally faulty keyframe list, naming the
/// offending parameter; succeeds exactly when every list is clean.
pub fn build_patterns(
    parameters: &Vec<(String, Vec<AutomationPoint>)>,
    locators: &Vec<Marker>,
) -> (r: Result<Vec<(String, LightingPattern)>, (String, KeyframeError)>)
    requires
        keys_unique(parameters@),
        forall|p: int, i: int|
            0 <= p < parameters@.len() && 0 <= i < parameters@[p].1@.len() ==> key_in_range(
                #[trigger] parameters@[p].1@[i],
            ),
        forall|p: int, i: int|
            0 <= p < parameters@.len() && 0 <= i && i + 1 < parameters@[p].1@.len() ==> (
            #[trigger] parameters@[p].1@[i]).time <= parameters@[p].1@[i + 1].time,
        forall|p: int|
            0 <= p < locators@.len() ==> -SOURCE_LIMIT <= (#[trigger] locators@[p]).time
                <= SOURCE_LIMIT,
        forall|p: int|
            0 <= p && p + 1 < locators@.len() ==> (#[trigger] locators@[p]).time < locators@[p
                + 1].time,
    ensures
        r is Ok <==> (forall|p: int|
            0 <= p < parameters@.len() ==> spec_first_error((#[trigger] parameters@[p]).1@, 0)
                is None),
        r matches Ok(pats) ==> {
            &&& keys_unique(pats@)
            &&& forall|k: int|
                0 <= k < pats@.len() ==> clip_entry_ok(
                    #[trigger] pats@[k],
                    spec_built_envs(parameters@),
                    locators@,
                    0,
                )
            &&& forall|p: int|
                0 <= p && p + 1 < locators@.len() ==> contains_key(
                    pats@,
                    (#[trigger] locators@[p]).name@,
                )
            &&& forall|k: int| 0 <= k < pats@.len() ==> (#[trigger] pats@[k]).1.wf()
        },
        r matches Err(e) ==> exists|p: int|
            0 <= p < parameters@.len() && (#[trigger] parameters@[p]).0@ == e.0@
                && spec_first_error(parameters@[p].1@, 0) == Some(e.1) && (forall|q: int|
                0 <= q < p ==> spec_first_error((#[trigger] parameters@[q]).1@, 0) is None),
{
    let mut envelopes: Vec<(String, Vec<Curve>)> = Vec::new();
    let pn: usize = parameters.len();
    let mut p: usize = 0;
    while p < pn
        invariant
            keys_unique(parameters@),
            forall|pp: int, i: int|
                0 <= pp < parameters@.len() && 0 <= i < parameters@[pp].1@.len() ==> key_in_range(
                    #[trigger] parameters@[pp].1@[i],
                ),
            forall|pp: int, i: int|
                0 <= pp < parameters@.len() && 0 <= i && i + 1 < parameters@[pp].1@.len() ==> (
                #[trigger] parameters@[pp].1@[i]).time <= parameters@[pp].1@[i + 1].time,
            pn == parameters@.len(),
            0 <= p <= pn,
            envelopes@.len() == p,
            forall|k: int|
                0 <= k < p ==> spec_first_error((#[trigger] parameters@[k]).1@, 0) is None,
            forall|k: int|
                0 <= k < p ==> {
                    &&& (#[trigger] envelopes@[k]).0@ == parameters@[k].0@
                    &&& envelopes@[k].1@ == spec_env_of(parameters@[k].1@)
                },
            forall|k: int|
                0 <= k < p ==> env_wf((#[trigger] envelopes@[k]).1@) && env_in_range(
                    envelopes@[k].1@,
                    SOURCE_LIMIT as int,
                ),
        decreases pn - p,
    {
        let param = &parameters[p];
        match construct_segments(&param.1) {
            Ok(curves) => {
                envelopes.push((param.0.clone(), curves));
            },
            Err(e) => {
                return Err((param.0.clone(), e));
            },
        }
        p += 1;
    }
    proof {
        assert forall|k1: int, k2: int|
            0 <= k1 < k2 < envelopes@.len() implies (#[trigger] envelopes@[k1]).0@ != (
        #[trigger] envelopes@[k2]).0@ by {
            assert(parameters@[k1].0@ != parameters@[k2].0@);
        }
    }
    let pats = split_envelopes_by_locators(&envelopes, locators);
    proof {
        assert(envs_view(envelopes@) =~= spec_built_envs(parameters@));
    }
    Ok(pats)
}

/// Clip-sampling law at the pattern level: for any parameter of a
/// pattern cut at a marker pair, when the curve covering the global time
/// is retained by the cut — it does not strictly span the whole window —
/// the clip's envelope covers the local time and samples there exactly as
/// the source envelope does at the global time.
pub proof fn lemma_pattern_sampling_agrees(
    pat: LightingPattern,
    envs: Seq<(Seq<char>, Seq<Curve>)>,
    m0: Marker,
    m1: Marker,
    e: int,
    u: int,
)
    requires
        pattern_matches_pair(pat, envs, m0, m1),
        0 <= e < envs.len(),
        env_wf(envs[e].1),
        env_in_range(envs[e].1, SOURCE_LIMIT as int),
        -SOURCE_LIMIT <= m0.time <= SOURCE_LIMIT,
        env_covers(envs[e].1, u + m0.time),
        curve_overlaps(
            envs[e].1[spec_find_index(envs[e].1, u + m0.time)],
            m0.time as int,
            m1.time as int,
        ),
    ensures
        env_covers(pat.envelopes@[e].1@, u),
        spec_sample(pat.envelopes@[e].1@, u) == spec_sample(envs[e].1, u + m0.time),
{
    assert(pat.envelopes@[e].1@ == spec_cut(envs[e].1, m0.time as int, m1.time as int));
    lemma_cut_preserves_sample(envs[e].1, m0.time as int, m1.time as int, u);
}

} // verus!
