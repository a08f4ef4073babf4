//! Frame blender.
//!
//! A frame is one instant's set of channel intensities, keyed by channel
//! name, in eight-bit channel space.  Two frames — one per playing track —
//! are combined with fader-weighted, saturating composition: the
//! crossfader keeps both tracks at full individual fader weight at its
//! centre and fades the far track out toward either end.

use vstd::prelude::*;

use crate::assoc::{contains_key, find_key, keys_unique};
use crate::fixed::{div_fixed, div_trunc, lemma_div_trunc_bound, lemma_mul_bound, SCALE};

verus! {

/// One instant's complete set of channel intensities.
#[derive(Debug)]
pub struct Frame {
    pub channels: Vec<(String, u8)>,
}

impl Frame {
    /// Channel names are unique.
    pub open spec fn wf(self) -> bool {
        keys_unique(self.channels@)
    }
}

/// View of a channel list as name and intensity pairs.
pub open spec fn chan_view(s: Seq<(String, u8)>) -> Seq<(Seq<char>, int)> {
    s.map(|i: int, p: (String, u8)| (p.0@, p.1 as int))
}

/// The intensity stored under key `k` (meaningful when some entry has
/// that key and keys are unique).
pub open spec fn chan_value(s: Seq<(String, u8)>, k: Seq<char>) -> u8 {
    s[choose|i: int| 0 <= i < s.len() && (#[trigger] s[i]).0@ == k].1
}

/// Some view-level entry carries the key `k`.
pub open spec fn vcontains(s: Seq<(Seq<char>, int)>, k: Seq<char>) -> bool {
    exists|i: int| 0 <= i < s.len() && (#[trigger] s[i]).0 == k
}

/// The view-level value stored under key `k` (meaningful when some entry
/// has that key and keys are unique).
pub open spec fn vvalue(s: Seq<(Seq<char>, int)>, k: Seq<char>) -> int {
    s[choose|i: int| 0 <= i < s.len() && (#[trigger] s[i]).0 == k].1
}

/// No two view-level entries share a key.
pub open spec fn vkeys_unique(s: Seq<(Seq<char>, int)>) -> bool {
    forall|i: int, j: int| 0 <= i < j < s.len() ==> (#[trigger] s[i]).0 != (#[trigger] s[j]).0
}

/// With unique keys, the view-level value found under an entry's key is
/// that entry's value.
pub proof fn lemma_vvalue(s: Seq<(Seq<char>, int)>, i: int)
    requires
        vkeys_unique(s),
        0 <= i < s.len(),
    ensures
        vvalue(s, s[i].0) == s[i].1,
{
    let w = choose|w: int| 0 <= w < s.len() && (#[trigger] s[w]).0 == s[i].0;
    if w != i {
        assert(s[w].0 != s[i].0);
    }
}

/// With unique keys, the value found under an entry's key is that
/// entry's value.
pub proof fn lemma_chan_value(s: Seq<(String, u8)>, i: int)
    requires
        keys_unique(s),
        0 <= i < s.len(),
    ensures
        chan_value(s, s[i].0@) == s[i].1,
{
    let w = choose|w: int| 0 <= w < s.len() && (#[trigger] s[w]).0@ == s[i].0@;
    if w != i {
        assert(s[w].0@ != s[i].0@);
    }
}

/// Unique string keys give unique view-level keys.
pub proof fn lemma_chan_view_unique(s: Seq<(String, u8)>)
    requires
        keys_unique(s),
    ensures
        vkeys_unique(chan_view(s)),
{
    assert forall|i: int, j: int|
        0 <= i < j < chan_view(s).len() implies (#[trigger] chan_view(s)[i]).0 != (
    #[trigger] chan_view(s)[j]).0 by {
        assert(s[i].0@ != s[j].0@);
    }
}

/// A key is present in the view exactly when it is present in the
/// channel list.
pub proof fn lemma_chan_view_contains(s: Seq<(String, u8)>, k: Seq<char>)
    ensures
        vcontains(chan_view(s), k) <==> contains_key(s, k),
{
    if vcontains(chan_view(s), k) {
        let w = choose|w: int| 0 <= w < chan_view(s).len() && (#[trigger] chan_view(s)[w]).0 == k;
        assert(s[w].0@ == k);
        assert(contains_key(s, k));
    }
    if contains_key(s, k) {
        let w = choose|w: int| 0 <= w < s.len() && (#[trigger] s[w]).0@ == k;
        assert(chan_view(s)[w].0 == k);
        assert(vcontains(chan_view(s), k));
    }
}

/// Effective weight of one track: the crossfader lever, capped at one
/// unit, scaled by the track's own fader.
pub open spec fn spec_weight(fader: int, lever: int) -> int {
    div_trunc(
        (if lever < SCALE {
            lever
        } else {
            SCALE as int
        }) * fader,
        SCALE as int,
    )
}

/// Effective weight of the first track for a crossfader position.
pub open spec fn spec_weight_a(fader: int, cross: int) -> int {
    spec_weight(fader, 2 * ((SCALE as int) - cross))
}

/// Effective weight of the second track for a crossfader position.
pub open spec fn spec_weight_b(fader: int, cross: int) -> int {
    spec_weight(fader, 2 * cross)
}

/// An intensity scaled by a weight in `[0, SCALE]`.
pub open spec fn spec_scaled(v: int, w: int) -> int {
    div_trunc(v * w, SCALE as int)
}

/// Saturating eight-bit addition.
pub open spec fn spec_sat_add(a: int, b: int) -> int {
    if a + b > 255 {
        255
    } else {
        a + b
    }
}

/// Every channel of `s` scaled by `w`.
pub open spec fn spec_scale_channels(s: Seq<(Seq<char>, int)>, w: int) -> Seq<(Seq<char>, int)> {
    s.map(|i: int, p: (Seq<char>, int)| (p.0, spec_scaled(p.1, w)))
}

/// The first part of a two-frame blend: every channel of `a`, combined by
/// saturating addition with its weighted counterpart in `b` when one
/// exists, else passed through at `a`'s weight alone.
pub open spec fn spec_blend_first(
    a: Seq<(Seq<char>, int)>,
    b: Seq<(Seq<char>, int)>,
    wa: int,
    wb: int,
) -> Seq<(Seq<char>, int)> {
    a.map(
        |i: int, p: (Seq<char>, int)|
            (
                p.0,
                if vcontains(b, p.0) {
                    spec_sat_add(spec_scaled(p.1, wa), spec_scaled(vvalue(b, p.0), wb))
                } else {
                    spec_scaled(p.1, wa)
                },
            ),
    )
}

/// The second part of a two-frame blend: the channels of `b` that `a`
/// does not carry, at `b`'s weight, in `b`'s order.
pub open spec fn spec_blend_rest(
    a: Seq<(Seq<char>, int)>,
    b: Seq<(Seq<char>, int)>,
    wb: int,
) -> Seq<(Seq<char>, int)>
    decreases b.len(),
{
    if b.len() == 0 {
        Seq::empty()
    } else {
        let rest = spec_blend_rest(a, b.drop_last(), wb);
        if vcontains(a, b.last().0) {
            rest
        } else {
            rest.push((b.last().0, spec_scaled(b.last().1, wb)))
        }
    }
}

/// Computes the capped-lever weight.
fn effective_weight(fader: i64, lever: i64) -> (w: i64)
    requires
        0 <= fader <= SCALE,
        0 <= lever <= 2 * SCALE,
    ensures
        w == spec_weight(fader as int, lever as int),
        0 <= w <= SCALE,
{
    let m: i64 = if lever < SCALE {
        lever
    } else {
        SCALE
    };
    proof {
        lemma_mul_bound(m as int, fader as int, 1000, 1000);
        lemma_div_trunc_bound((m as int) * (fader as int), SCALE as int, 1_000_000);
        vstd::arithmetic::div_mod::lemma_div_pos_is_pos((m as int) * (fader as int), SCALE as int);
        vstd::arithmetic::mul::lemma_mul_nonnegative(m as int, fader as int);
    }
    div_fixed(m * fader, SCALE)
}

/// Scales one intensity by a weight in `[0, SCALE]`.
fn scale_channel(v: u8, w: i64) -> (r: u8)
    requires
        0 <= w <= SCALE,
    ensures
        r == spec_scaled(v as int, w as int),
{
    proof {
        lemma_mul_bound(v as int, w as int, 255, 1000);
        lemma_div_trunc_bound((v as int) * (w as int), SCALE as int, 255_000);
        vstd::arithmetic::div_mod::lemma_div_pos_is_pos((v as int) * (w as int), SCALE as int);
        vstd::arithmetic::mul::lemma_mul_nonnegative(v as int, w as int);
    }
    let x: i64 = (v as i64) * w;
    let q: i64 = div_fixed(x, SCALE);
    q as u8
}

/// Saturating eight-bit addition.
fn sat_add_u8(a: u8, b: u8) -> (r: u8)
    ensures
        r == spec_sat_add(a as int, b as int),
{
    let s: u16 = a as u16 + b as u16;
    if s > 255 {
        255
    } else {
        s as u8
    }
}

/// Scales every channel of a frame by one weight.
fn scale_frame(f: &Frame, w: i64) -> (r: Frame)
    requires
        f.wf(),
        0 <= w <= SCALE,
    ensures
        r.wf(),
        chan_view(r.channels@) == spec_scale_channels(chan_view(f.channels@), w as int),
        r.channels@.len() == f.channels@.len(),
        forall|i: int|
            0 <= i < r.channels@.len() ==> (#[trigger] r.channels@[i]).0@ == f.channels@[i].0@,
{
    let mut channels: Vec<(String, u8)> = Vec::new();
    let n: usize = f.channels.len();
    let mut i: usize = 0;
    while i < n
        invariant
            f.wf(),
            0 <= w <= SCALE,
            n == f.channels@.len(),
            0 <= i <= n,
            channels@.len() == i,
            forall|k: int|
                0 <= k < i ==> {
                    &&& (#[trigger] channels@[k]).0@ == f.channels@[k].0@
                    &&& channels@[k].1 == spec_scaled(f.channels@[k].1 as int, w as int)
                },
        decreases n - i,
    {
        let entry = &f.channels[i];
        channels.push((entry.0.clone(), scale_channel(entry.1, w)));
        i += 1;
    }
    let r = Frame { channels };
    proof {
        assert(chan_view(r.channels@) =~= spec_scale_channels(chan_view(f.channels@), w as int));
        assert forall|k1: int, k2: int|
            0 <= k1 < k2 < r.channels@.len() implies (#[trigger] r.channels@[k1]).0@ != (
        #[trigger] r.channels@[k2]).0@ by {
            assert(f.channels@[k1].0@ != f.channels@[k2].0@);
        }
    }
    r
}

/// Combines the frames of the two tracks into one output frame.
///
/// The effective weight of each side is its own fader scaled by the
/// crossfader lever, capped at one unit; channels present on both sides
/// are added with saturation at full intensity, channels present on one
/// side pass through at that side's weight, a missing frame contributes
/// nothing, and two missing frames yield the empty frame.
#[verifier::rlimit(50)]
pub fn combine(
    frame_a: Option<&Frame>,
    frame_b: Option<&Frame>,
    fader_a: i64,
    fader_b: i64,
    crossfader: i64,
) -> (r: Frame)
    requires
        0 <= fader_a <= SCALE,
        0 <= fader_b <= SCALE,
        0 <= crossfader <= SCALE,
        frame_a matches Some(f) ==> f.wf(),
        frame_b matches Some(f) ==> f.wf(),
    ensures
        r.wf(),
        ({
            let wa = spec_weight_a(fader_a as int, crossfader as int);
            let wb = spec_weight_b(fader_b as int, crossfader as int);
            match (frame_a, frame_b) {
                (Option::None, Option::None) => r.channels@.len() == 0,
                (Option::Some(a), Option::None) => chan_view(r.channels@) == spec_scale_channels(
                    chan_view(a.channels@),
                    wa,
                ),
                (Option::None, Option::Some(b)) => chan_view(r.channels@) == spec_scale_channels(
                    chan_view(b.channels@),
                    wb,
                ),
                (Option::Some(a), Option::Some(b)) => chan_view(r.channels@) == spec_blend_first(
                    chan_view(a.channels@),
                    chan_view(b.channels@),
                    wa,
                    wb,
                ) + spec_blend_rest(chan_view(a.channels@), chan_view(b.channels@), wb),
            }
        }),
{
    let lever_a: i64 = 2 * (SCALE - crossfader);
    let lever_b: i64 = 2 * crossfader;
    let wa: i64 = effective_weight(fader_a, lever_a);
    let wb: i64 = effective_weight(fader_b, lever_b);
    match (frame_a, frame_b) {
        (Option::None, Option::None) => Frame { channels: Vec::new() },
        (Option::Some(a), Option::None) => scale_frame(a, wa),
        (Option::None, Option::Some(b)) => scale_frame(b, wb),
        (Option::Some(a), Option::Some(b)) => {
            let mut channels: Vec<(String, u8)> = Vec::new();
            let an: usize = a.channels.len();
            proof {
                assert(chan_view(channels@) =~= spec_blend_first(
                    chan_view(a.channels@),
                    chan_view(b.channels@),
                    spec_weight_a(fader_a as int, crossfader as int),
                    spec_weight_b(fader_b as int, crossfader as int),
                ).take(0));
            }
            let mut i: usize = 0;
            while i < an
                invariant
                    a.wf(),
                    b.wf(),
                    0 <= wa <= SCALE,
                    0 <= wb <= SCALE,
                    an == a.channels@.len(),
                    0 <= i <= an,
                    channels@.len() == i,
                    chan_view(channels@) == spec_blend_first(
                        chan_view(a.channels@),
                        chan_view(b.channels@),
                        wa as int,
                        wb as int,
                    ).take(i as int),
                    forall|k: int|
                        0 <= k < i ==> (#[trigger] channels@[k]).0@ == a.channels@[k].0@,
                decreases an - i,
            {
                let entry = &a.channels[i];
                let value: u8 = match find_key(&b.channels, &entry.0) {
                    Some(bi) => {
                        proof {
                            lemma_chan_view_unique(b.channels@);
                            assert(chan_view(b.channels@)[bi as int].0 == b.channels@[bi as int].0@);
                            lemma_vvalue(chan_view(b.channels@), bi as int);
                            assert(vcontains(chan_view(b.channels@), a.channels@[i as int].0@));
                        }
                        sat_add_u8(scale_channel(entry.1, wa), scale_channel(b.channels[bi].1, wb))
                    },
                    None => {
                        proof {
                            lemma_chan_view_contains(b.channels@, a.channels@[i as int].0@);
                        }
                        scale_channel(entry.1, wa)
                    },
                };
                channels.push((entry.0.clone(), value));
                proof {
                    assert(chan_view(channels@) =~= spec_blend_first(
                        chan_view(a.channels@),
                        chan_view(b.channels@),
                        wa as int,
                        wb as int,
                    ).take(i as int + 1));
                }
                i += 1;
            }
            let ghost first = spec_blend_first(
                chan_view(a.channels@),
                chan_view(b.channels@),
                wa as int,
                wb as int,
            );
            proof {
                assert(first.take(an as int) =~= first);
                assert(chan_view(channels@) == first);
                assert(first + spec_blend_rest(
                    chan_view(a.channels@),
                    chan_view(b.channels@).take(0),
                    wb as int,
                ) =~= first);
                assert forall|k1: int, k2: int|
                    0 <= k1 < k2 < channels@.len() implies (#[trigger] channels@[k1]).0@ != (
                #[trigger] channels@[k2]).0@ by {
                    assert(a.channels@[k1].0@ != a.channels@[k2].0@);
                }
            }
            let bn: usize = b.channels.len();
            let mut j: usize = 0;
            while j < bn
                invariant
                    a.wf(),
                    b.wf(),
                    0 <= wa <= SCALE,
                    0 <= wb <= SCALE,
                    an == a.channels@.len(),
                    bn == b.channels@.len(),
                    0 <= j <= bn,
                    first == spec_blend_first(
                        chan_view(a.channels@),
                        chan_view(b.channels@),
                        wa as int,
                        wb as int,
                    ),
                    channels@.len() >= an,
                    chan_view(channels@) == first + spec_blend_rest(
                        chan_view(a.channels@),
                        chan_view(b.channels@).take(j as int),
                        wb as int,
                    ),
                    forall|k: int|
                        0 <= k < an ==> (#[trigger] channels@[k]).0@ == a.channels@[k].0@,
                    forall|k: int|
                        an <= k < channels@.len() ==> exists|jj: int|
                            0 <= jj < j && (#[trigger] channels@[k]).0@ == b.channels@[jj].0@
                                && !contains_key(a.channels@, b.channels@[jj].0@),
                    keys_unique(channels@),
                decreases bn - j,
            {
                proof {
                    assert(chan_view(b.channels@).take(j as int + 1).drop_last()
                        =~= chan_view(b.channels@).take(j as int));
                    assert(chan_view(b.channels@).take(j as int + 1).last() == chan_view(
                        b.channels@,
                    )[j as int]);
                    assert(chan_view(b.channels@)[j as int].0 == b.channels@[j as int].0@);
                }
                let entry = &b.channels[j];
                let ghost old_channels = channels@;
                match find_key(&a.channels, &entry.0) {
                    Some(found) => {
                        proof {
                            assert(a.channels@[found as int].0@ == b.channels@[j as int].0@);
                            assert(contains_key(a.channels@, b.channels@[j as int].0@));
                            assert(chan_view(a.channels@)[found as int].0 == a.channels@[found as int].0@);
                            assert(vcontains(chan_view(a.channels@), b.channels@[j as int].0@));
                        }
                    },
                    None => {
                        let scaled: u8 = scale_channel(entry.1, wb);
                        channels.push((entry.0.clone(), scaled));
                        proof {
                            let bj = b.channels@[j as int];
                            assert(!contains_key(a.channels@, bj.0@));
                            lemma_chan_view_contains(a.channels@, bj.0@);
                            assert(!vcontains(chan_view(a.channels@), bj.0@));
                            assert(spec_blend_rest(
                                chan_view(a.channels@),
                                chan_view(b.channels@).take(j as int + 1),
                                wb as int,
                            ) =~= spec_blend_rest(
                                chan_view(a.channels@),
                                chan_view(b.channels@).take(j as int),
                                wb as int,
                            ).push((bj.0@, spec_scaled(bj.1 as int, wb as int))));
                            assert(chan_view(channels@) =~= chan_view(old_channels).push(
                                (bj.0@, scaled as int),
                            ));
                            assert(chan_view(channels@) =~= first + spec_blend_rest(
                                chan_view(a.channels@),
                                chan_view(b.channels@).take(j as int + 1),
                                wb as int,
                            ));
                            assert forall|k: int|
                                an <= k < channels@.len() implies exists|jj: int|
                                    0 <= jj < j + 1 && (#[trigger] channels@[k]).0@
                                        == b.channels@[jj].0@ && !contains_key(
                                        a.channels@,
                                        b.channels@[jj].0@,
                                    ) by {
                                if k < old_channels.len() {
                                    assert(channels@[k] == old_channels[k]);
                                } else {
                                    assert(channels@[k].0@ == b.channels@[j as int].0@);
                                }
                            }
                            assert forall|k1: int, k2: int|
                                0 <= k1 < k2 < channels@.len() implies (
                            #[trigger] channels@[k1]).0@ != (#[trigger] channels@[k2]).0@ by {
                                if k2 == channels@.len() - 1 {
                                    assert(channels@[k2].0@ == b.channels@[j as int].0@);
                                    if k1 < an {
                                        if channels@[k1].0@ == b.channels@[j as int].0@ {
                                            assert(a.channels@[k1].0@ == b.channels@[j as int].0@);
                                            assert(contains_key(
                                                a.channels@,
                                                b.channels@[j as int].0@,
                                            ));
                                            assert(false);
                                        }
                                    } else {
                                        let jj = choose|jj: int|
                                            0 <= jj < j && (#[trigger] channels@[k1]).0@
                                                == b.channels@[jj].0@ && !contains_key(
                                                a.channels@,
                                                b.channels@[jj].0@,
                                            );
                                        assert(b.channels@[jj].0@ != b.channels@[j as int].0@);
                                    }
                                }
                            }
                        }
                    },
                }
                j += 1;
            }
            proof {
                assert(chan_view(b.channels@).take(bn as int) =~= chan_view(b.channels@));
            }
            Frame { channels }
        },
    }
}

/// An engine value clamped to `[0, SCALE]` and mapped to eight-bit
/// channel space.
pub open spec fn spec_level(v: int) -> int {
    let c = if v < 0 {
        0
    } else if v > SCALE {
        SCALE as int
    } else {
        v
    };
    div_trunc(c * 255, SCALE as int)
}

/// Turns sampled parameter values into a frame: each value is clamped to
/// `[0, SCALE]` and projected onto eight-bit channel space, keeping names
/// and order.
pub fn frame_from_values(values: &Vec<(String, i64)>) -> (r: Frame)
    ensures
        r.channels@.len() == values@.len(),
        forall|i: int|
            0 <= i < values@.len() ==> {
                &&& (#[trigger] r.channels@[i]).0@ == values@[i].0@
                &&& r.channels@[i].1 == spec_level(values@[i].1 as int)
            },
        keys_unique(values@) ==> r.wf(),
{
    let mut channels: Vec<(String, u8)> = Vec::new();
    let n: usize = values.len();
    let mut i: usize = 0;
    while i < n
        invariant
            n == values@.len(),
            0 <= i <= n,
            channels@.len() == i,
            forall|k: int|
                0 <= k < i ==> {
                    &&& (#[trigger] channels@[k]).0@ == values@[k].0@
                    &&& channels@[k].1 == spec_level(values@[k].1 as int)
                },
        decreases n - i,
    {
        let entry = &values[i];
        let c: i64 = if entry.1 < 0 {
            0
        } else if entry.1 > SCALE {
            SCALE
        } else {
            entry.1
        };
        proof {
            lemma_mul_bound(c as int, 255, 1000, 255);
            lemma_div_trunc_bound((c as int) * 255, SCALE as int, 255_000);
            vstd::arithmetic::div_mod::lemma_div_pos_is_pos((c as int) * 255, SCALE as int);
            vstd::arithmetic::mul::lemma_mul_nonnegative(c as int, 255);
        }
        let q: i64 = div_fixed(c * 255, SCALE);
        channels.push((entry.0.clone(), q as u8));
        i += 1;
    }
    let r = Frame { channels };
    proof {
        if keys_unique(values@) {
            assert forall|k1: int, k2: int|
                0 <= k1 < k2 < r.channels@.len() implies (#[trigger] r.channels@[k1]).0@ != (
            #[trigger] r.channels@[k2]).0@ by {
                assert(values@[k1].0@ != values@[k2].0@);
            }
        }
    }
    r
}

/// Position `k` of the output vector receives some frame channel through
/// the output map.
pub open spec fn position_mapped(
    f: Seq<(String, u8)>,
    m: Seq<(String, u32)>,
    k: int,
) -> bool {
    exists|jj: int| 0 <= jj < m.len() && (#[trigger] m[jj]).1 == k && contains_key(f, m[jj].0@)
}

/// Greatest output index that receives a frame channel, or `-1` when no
/// frame channel is mapped.
pub open spec fn spec_max_mapped(f: Seq<(String, u8)>, m: Seq<(String, u32)>) -> int
    decreases m.len(),
{
    if m.len() == 0 {
        -1
    } else {
        let rest = spec_max_mapped(f, m.drop_last());
        if contains_key(f, m.last().0@) && m.last().1 > rest {
            m.last().1 as int
        } else {
            rest
        }
    }
}

/// Every mapped frame channel's index is at most the maximum.
proof fn lemma_max_mapped_covers(f: Seq<(String, u8)>, m: Seq<(String, u32)>, jj: int)
    requires
        0 <= jj < m.len(),
        contains_key(f, m[jj].0@),
    ensures
        m[jj].1 <= spec_max_mapped(f, m),
    decreases m.len(),
{
    if jj == m.len() - 1 {
        assert(m.last() == m[jj]);
    } else {
        assert(m.drop_last()[jj] == m[jj]);
        lemma_max_mapped_covers(f, m.drop_last(), jj);
    }
}

/// Projects a frame onto integer output channels through a name-to-index
/// map: unmapped names are dropped, the vector is as long as the greatest
/// mapped index plus one, and unmapped positions are zero.
#[verifier::rlimit(100)]
pub fn project_frame(frame: &Frame, output_map: &Vec<(String, u32)>) -> (r: Vec<u8>)
    requires
        frame.wf(),
        keys_unique(output_map@),
        forall|i: int, j: int|
            0 <= i < j < output_map@.len() ==> (#[trigger] output_map@[i]).1 != (
            #[trigger] output_map@[j]).1,
        forall|j: int| 0 <= j < output_map@.len() ==> (#[trigger] output_map@[j]).1 < 65536,
    ensures
        r@.len() == spec_max_mapped(frame.channels@, output_map@) + 1,
        forall|i: int, j: int|
            0 <= i < frame.channels@.len() && 0 <= j < output_map@.len() && (
            #[trigger] frame.channels@[i]).0@ == (#[trigger] output_map@[j]).0@ ==> {
                &&& output_map@[j].1 < r@.len()
                &&& r@[output_map@[j].1 as int] == frame.channels@[i].1
            },
        forall|k: int|
            0 <= k < r@.len() && !position_mapped(frame.channels@, output_map@, k) ==> r@[k] == 0,
{
    let ghost fseq = frame.channels@;
    let ghost mseq = output_map@;
    let mn: usize = output_map.len();
    let mut max_index: i64 = -1;
    let mut j: usize = 0;
    while j < mn
        invariant
            frame.wf(),
            fseq == frame.channels@,
            mseq == output_map@,
            mn == mseq.len(),
            0 <= j <= mn,
            forall|q: int| 0 <= q < mseq.len() ==> (#[trigger] mseq[q]).1 < 65536,
            max_index == spec_max_mapped(fseq, mseq.take(j as int)),
            -1 <= max_index < 65536,
        decreases mn - j,
    {
        proof {
            assert(mseq.take(j as int + 1).drop_last() =~= mseq.take(j as int));
            assert(mseq.take(j as int + 1).last() == mseq[j as int]);
        }
        let entry = &output_map[j];
        match find_key(&frame.channels, &entry.0) {
            Some(fi) => {
                proof {
                    assert(fseq[fi as int].0@ == mseq[j as int].0@);
                    assert(contains_key(fseq, mseq[j as int].0@));
                }
                if (entry.1 as i64) > max_index {
                    max_index = entry.1 as i64;
                }
            },
            None => {
            },
        }
        j += 1;
    }
    proof {
        assert(mseq.take(mn as int) =~= mseq);
    }
    let out_len: usize = (max_index + 1) as usize;
    let mut out: Vec<u8> = Vec::new();
    let mut k: usize = 0;
    while k < out_len
        invariant
            frame.wf(),
            keys_unique(mseq),
            forall|i1: int, j1: int|
                0 <= i1 < j1 < mseq.len() ==> (#[trigger] mseq[i1]).1 != (#[trigger] mseq[j1]).1,
            fseq == frame.channels@,
            mseq == output_map@,
            mn == mseq.len(),
            0 <= k <= out_len,
            out_len <= 65536,
            out@.len() == k,
            out_len == spec_max_mapped(fseq, mseq) + 1,
            forall|kk: int|
                0 <= kk < k ==> {
                    &&& (position_mapped(fseq, mseq, kk) ==> exists|jj: int|
                        0 <= jj < mseq.len() && (#[trigger] mseq[jj]).1 == kk && contains_key(
                            fseq,
                            mseq[jj].0@,
                        ) && out@[kk] == chan_value(fseq, mseq[jj].0@))
                    &&& (!position_mapped(fseq, mseq, kk) ==> out@[kk] == 0)
                },
        decreases out_len - k,
    {
        let mut val: u8 = 0;
        let mut j2: usize = 0;
        while j2 < mn
            invariant
                frame.wf(),
                fseq == frame.channels@,
                mseq == output_map@,
                mn == mseq.len(),
                0 <= j2 <= mn,
                k < 65536,
                ({
                    if position_mapped(fseq, mseq.take(j2 as int), k as int) {
                        exists|jj: int|
                            0 <= jj < j2 && (#[trigger] mseq[jj]).1 == k && contains_key(
                                fseq,
                                mseq[jj].0@,
                            ) && val == chan_value(fseq, mseq[jj].0@)
                    } else {
                        val == 0
                    }
                }),
            decreases mn - j2,
        {
            proof {
                assert(mseq.take(j2 as int + 1).drop_last() =~= mseq.take(j2 as int));
                assert(mseq.take(j2 as int + 1).last() == mseq[j2 as int]);
            }
            let entry = &output_map[j2];
            if entry.1 == k as u32 {
                match find_key(&frame.channels, &entry.0) {
                    Some(fi) => {
                        val = frame.channels[fi].1;
                        proof {
                            lemma_chan_value(fseq, fi as int);
                            assert(fseq[fi as int].0@ == mseq[j2 as int].0@);
                            assert(mseq[j2 as int].1 == k);
                            assert(contains_key(fseq, mseq[j2 as int].0@));
                            assert(position_mapped(fseq, mseq.take(j2 as int + 1), k as int));
                        }
                    },
                    None => {
                        proof {
                            assert(!contains_key(fseq, mseq[j2 as int].0@));
                            if position_mapped(fseq, mseq.take(j2 as int + 1), k as int) {
                                let jj = choose|jj: int|
                                    0 <= jj < mseq.take(j2 as int + 1).len() && (
                                    #[trigger] mseq.take(j2 as int + 1)[jj]).1 == k
                                        && contains_key(fseq, mseq.take(j2 as int + 1)[jj].0@);
                                assert(mseq.take(j2 as int + 1)[jj] == mseq[jj]);
                                assert(jj < j2);
                                assert(position_mapped(fseq, mseq.take(j2 as int), k as int));
                            }
                        }
                    },
                }
            } else {
                proof {
                    if position_mapped(fseq, mseq.take(j2 as int + 1), k as int) {
                        let jj = choose|jj: int|
                            0 <= jj < mseq.take(j2 as int + 1).len() && (
                            #[trigger] mseq.take(j2 as int + 1)[jj]).1 == k && contains_key(
                                fseq,
                                mseq.take(j2 as int + 1)[jj].0@,
                            );
                        assert(mseq.take(j2 as int + 1)[jj] == mseq[jj]);
                        assert(jj < j2);
                        assert(position_mapped(fseq, mseq.take(j2 as int), k as int));
                    }
                }
            }
            j2 += 1;
        }
        proof {
            assert(mseq.take(mn as int) =~= mseq);
        }
        out.push(val);
        k += 1;
    }
    proof {
        assert forall|i: int, j1: int|
            0 <= i < fseq.len() && 0 <= j1 < mseq.len() && (#[trigger] fseq[i]).0@ == (
        #[trigger] mseq[j1]).0@ implies {
            &&& mseq[j1].1 < out@.len()
            &&& out@[mseq[j1].1 as int] == fseq[i].1
        } by {
            assert(contains_key(fseq, mseq[j1].0@));
            lemma_max_mapped_covers(fseq, mseq, j1);
            let kk = mseq[j1].1 as int;
            assert(position_mapped(fseq, mseq, kk));
            let jj = choose|jj: int|
                0 <= jj < mseq.len() && (#[trigger] mseq[jj]).1 == kk && contains_key(
                    fseq,
                    mseq[jj].0@,
                ) && out@[kk] == chan_value(fseq, mseq[jj].0@);
            if jj != j1 {
                assert(mseq[jj].1 != mseq[j1].1);
            }
            lemma_chan_value(fseq, i);
        }
    }
    out
}

/// Crossfade law: at zero crossfader travel the first track keeps its own
/// fader weight and the second track is silent; at full travel the
/// reverse; at centre travel both tracks keep their full fader weight.
pub proof fn lemma_crossfade_weights(fader: int)
    requires
        0 <= fader <= SCALE,
    ensures
        spec_weight_a(fader, 0) == fader,
        spec_weight_b(fader, 0) == 0,
        spec_weight_a(fader, SCALE as int) == 0,
        spec_weight_b(fader, SCALE as int) == fader,
        spec_weight_a(fader, (SCALE as int) / 2) == fader,
        spec_weight_b(fader, (SCALE as int) / 2) == fader,
{
    crate::fixed::lemma_div_trunc_exact(fader, SCALE as int);
    assert(0 * fader == 0);
    assert(div_trunc(0, SCALE as int) == 0);
}

} // verus!
