//! The show collection.
//!
//! Shows loaded from several source files are merged into one named
//! pattern collection; a clip name defined by two different sources is a
//! fatal load error that names every source defining it.  At run time
//! the collection answers per-tick queries: the frame of one show at a
//! time, and the blended frame of the two playing tracks.

use vstd::prelude::*;

use crate::assoc::{contains_key, find_key, keys_unique};
use crate::fixed::SCALE;
use crate::frame::{
    chan_view, frame_from_values, spec_blend_first, spec_blend_rest, spec_level,
    spec_scale_channels, spec_weight_a, spec_weight_b, Frame,
};
use crate::pattern::{pairs_view, spec_at_time, LightingPattern};

verus! {

/// A clip name defined by more than one source file: the name and every
/// source that defines it, in source order.
#[derive(Debug)]
pub struct DuplicateClipName {
    pub name: String,
    pub sources: Vec<String>,
}

/// View of a source-name list.
pub open spec fn names_view(s: Seq<String>) -> Seq<Seq<char>> {
    s.map(|i: int, n: String| n@)
}

/// No clip name of `b` occurs in `a`.
pub open spec fn shows_disjoint(
    a: Seq<(String, LightingPattern)>,
    b: Seq<(String, LightingPattern)>,
) -> bool {
    forall|j: int| 0 <= j < b.len() ==> !contains_key(a, (#[trigger] b[j]).0@)
}

/// No clip name occurs in two different sources.
pub open spec fn sources_disjoint(srcs: Seq<(String, Vec<(String, LightingPattern)>)>) -> bool {
    forall|s1: int, s2: int|
        0 <= s1 < s2 < srcs.len() ==> shows_disjoint(
            (#[trigger] srcs[s1]).1@,
            (#[trigger] srcs[s2]).1@,
        )
}

/// All patterns of all sources, in order.
pub open spec fn spec_concat(srcs: Seq<(String, Vec<(String, LightingPattern)>)>) -> Seq<
    (String, LightingPattern),
>
    decreases srcs.len(),
{
    if srcs.len() == 0 {
        Seq::empty()
    } else {
        spec_concat(srcs.drop_last()) + srcs.last().1@
    }
}

/// The names of the sources that define clip `name`, in source order.
pub open spec fn spec_sources_with(
    srcs: Seq<(String, Vec<(String, LightingPattern)>)>,
    name: Seq<char>,
) -> Seq<Seq<char>>
    decreases srcs.len(),
{
    if srcs.len() == 0 {
        Seq::empty()
    } else {
        let rest = spec_sources_with(srcs.drop_last(), name);
        if contains_key(srcs.last().1@, name) {
            rest.push(srcs.last().0@)
        } else {
            rest
        }
    }
}

/// Every element of the concatenation comes from one source; returns
/// that source and the position within it.
proof fn lemma_concat_elem(srcs: Seq<(String, Vec<(String, LightingPattern)>)>, k: int) -> (r: (
    int,
    int,
))
    requires
        0 <= k < spec_concat(srcs).len(),
    ensures
        0 <= r.0 < srcs.len(),
        0 <= r.1 < srcs[r.0].1@.len(),
        spec_concat(srcs)[k] == srcs[r.0].1@[r.1],
    decreases srcs.len(),
{
    let prefix = spec_concat(srcs.drop_last());
    if k < prefix.len() {
        let r = lemma_concat_elem(srcs.drop_last(), k);
        assert(srcs.drop_last()[r.0] == srcs[r.0]);
        r
    } else {
        (srcs.len() - 1, k - prefix.len())
    }
}

/// Disjoint sources with unique clip names each yield a concatenation
/// with unique clip names, whose patterns are all well formed.
proof fn lemma_concat_wf(srcs: Seq<(String, Vec<(String, LightingPattern)>)>)
    requires
        forall|s: int| 0 <= s < srcs.len() ==> keys_unique((#[trigger] srcs[s]).1@),
        forall|s: int, k: int|
            0 <= s < srcs.len() && 0 <= k < srcs[s].1@.len() ==> (#[trigger] srcs[s].1@[k]).1.wf(),
        sources_disjoint(srcs),
    ensures
        keys_unique(spec_concat(srcs)),
        forall|k: int| 0 <= k < spec_concat(srcs).len() ==> (#[trigger] spec_concat(srcs)[k]).1.wf(),
    decreases srcs.len(),
{
    if srcs.len() == 0 {
    } else {
        let sd = srcs.drop_last();
        let all = spec_concat(srcs);
        let prefix = spec_concat(sd);
        let lastv = srcs.last().1@;
        assert(forall|s: int| 0 <= s < sd.len() ==> #[trigger] sd[s] == srcs[s]);
        assert forall|s1: int, s2: int| 0 <= s1 < s2 < sd.len() implies shows_disjoint(
            (#[trigger] sd[s1]).1@,
            (#[trigger] sd[s2]).1@,
        ) by {
            assert(shows_disjoint(srcs[s1].1@, srcs[s2].1@));
        }
        lemma_concat_wf(sd);
        assert(srcs.last() == srcs[srcs.len() - 1]);
        assert(keys_unique(lastv));
        assert forall|k1: int, k2: int|
            0 <= k1 < k2 < all.len() implies (#[trigger] all[k1]).0@ != (#[trigger] all[k2]).0@ by {
            if k2 < prefix.len() {
                assert(all[k1] == prefix[k1]);
                assert(all[k2] == prefix[k2]);
            } else if k1 >= prefix.len() {
                assert(all[k1] == lastv[k1 - prefix.len()]);
                assert(all[k2] == lastv[k2 - prefix.len()]);
            } else {
                assert(all[k1] == prefix[k1]);
                assert(all[k2] == lastv[k2 - prefix.len()]);
                let (s, i) = lemma_concat_elem(sd, k1);
                assert(shows_disjoint(srcs[s].1@, srcs[srcs.len() - 1].1@));
                if prefix[k1].0@ == lastv[k2 - prefix.len()].0@ {
                    assert(srcs[s].1@[i].0@ == lastv[k2 - prefix.len()].0@);
                    assert(contains_key(srcs[s].1@, lastv[k2 - prefix.len()].0@));
                    assert(false);
                }
            }
        }
        assert forall|k: int| 0 <= k < all.len() implies (#[trigger] all[k]).1.wf() by {
            if k < prefix.len() {
                assert(all[k] == prefix[k]);
            } else {
                assert(all[k] == lastv[k - prefix.len()]);
                assert(srcs[srcs.len() - 1].1@[k - prefix.len()].1.wf());
            }
        }
    }
}

/// The pattern stored under clip name `name` (meaningful when the name
/// is present and names are unique).
pub open spec fn spec_pattern_of(
    shows: Seq<(String, LightingPattern)>,
    name: Seq<char>,
) -> LightingPattern {
    shows[choose|i: int| 0 <= i < shows.len() && (#[trigger] shows[i]).0@ == name].1
}

/// Sampled parameter values projected onto eight-bit channel space.
pub open spec fn spec_levels(vals: Seq<(Seq<char>, int)>) -> Seq<(Seq<char>, int)> {
    vals.map(|i: int, p: (Seq<char>, int)| (p.0, spec_level(p.1)))
}

/// The channel frame a named track state yields: nothing when no show is
/// selected or the selected show is unknown, else the selected show's
/// parameter values at the elapsed time, as channel levels.
pub open spec fn spec_track_channels(
    shows: Seq<(String, LightingPattern)>,
    show: Option<&String>,
    t: int,
) -> Option<Seq<(Seq<char>, int)>> {
    match show {
        Option::Some(name) => if contains_key(shows, name@) {
            Option::Some(spec_levels(spec_at_time(spec_pattern_of(shows, name@).envelopes@, t)))
        } else {
            Option::None
        },
        Option::None => Option::None,
    }
}

/// The merged, immutable show collection.
#[derive(Debug)]
pub struct ShowsManager {
    pub shows: Vec<(String, LightingPattern)>,
}

impl ShowsManager {
    /// Clip names are unique and every pattern is well formed.
    pub open spec fn wf(self) -> bool {
        &&& keys_unique(self.shows@)
        &&& forall|k: int| 0 <= k < self.shows@.len() ==> (#[trigger] self.shows@[k]).1.wf()
    }

    /// Merges the pattern collections of several source files.
    ///
    /// Succeeds exactly when no clip name is defined by two different
    /// sources; otherwise reports one colliding clip name together with
    /// every source that defines it.
    pub fn from_shows(sources: Vec<(String, Vec<(String, LightingPattern)>)>) -> (r: Result<
        ShowsManager,
        DuplicateClipName,
    >)
        requires
            forall|s: int| 0 <= s < sources@.len() ==> keys_unique((#[trigger] sources@[s]).1@),
            forall|s: int, k: int|
                0 <= s < sources@.len() && 0 <= k < sources@[s].1@.len() ==> (
                #[trigger] sources@[s].1@[k]).1.wf(),
        ensures
            r is Ok <==> sources_disjoint(sources@),
            r matches Ok(m) ==> m.shows@ == spec_concat(sources@) && m.wf(),
            r matches Err(e) ==> {
                &&& !sources_disjoint(sources@)
                &&& names_view(e.sources@) == spec_sources_with(sources@, e.name@)
                &&& exists|s1: int, s2: int, j: int|
                    #![trigger sources@[s1], sources@[s2].1@[j]]
                    0 <= s1 < s2 < sources@.len() && 0 <= j < sources@[s2].1@.len()
                        && sources@[s2].1@[j].0@ == e.name@ && contains_key(
                        sources@[s1].1@,
                        e.name@,
                    )
            },
    {
        let n: usize = sources.len();
        let mut s2: usize = 0;
        while s2 < n
            invariant
                n == sources@.len(),
                0 <= s2 <= n,
                forall|x1: int, x2: int|
                    0 <= x1 < x2 < s2 ==> shows_disjoint(
                        (#[trigger] sources@[x1]).1@,
                        (#[trigger] sources@[x2]).1@,
                    ),
            decreases n - s2,
        {
            let len2: usize = sources[s2].1.len();
            let mut i2: usize = 0;
            while i2 < len2
                invariant
                    n == sources@.len(),
                    0 <= s2 < n,
                    len2 == sources@[s2 as int].1@.len(),
                    0 <= i2 <= len2,
                    forall|x1: int, x2: int|
                        0 <= x1 < x2 < s2 ==> shows_disjoint(
                            (#[trigger] sources@[x1]).1@,
                            (#[trigger] sources@[x2]).1@,
                        ),
                    forall|x1: int, k: int|
                        0 <= x1 < s2 && 0 <= k < i2 ==> !contains_key(
                            (#[trigger] sources@[x1]).1@,
                            (#[trigger] sources@[s2 as int].1@[k]).0@,
                        ),
                decreases len2 - i2,
            {
                let mut s1: usize = 0;
                while s1 < s2
                    invariant
                        n == sources@.len(),
                        0 <= s2 < n,
                        len2 == sources@[s2 as int].1@.len(),
                        0 <= i2 < len2,
                        0 <= s1 <= s2,
                        forall|x1: int|
                            0 <= x1 < s1 ==> !contains_key(
                                (#[trigger] sources@[x1]).1@,
                                sources@[s2 as int].1@[i2 as int].0@,
                            ),
                    decreases s2 - s1,
                {
                    if find_key(&sources[s1].1, &sources[s2].1[i2].0).is_some() {
                        // a collision: gather every source that defines the name
                        let name: String = sources[s2].1[i2].0.clone();
                        let mut with_name: Vec<String> = Vec::new();
                        let mut s: usize = 0;
                        while s < n
                            invariant
                                n == sources@.len(),
                                0 <= s <= n,
                                name@ == sources@[s2 as int].1@[i2 as int].0@,
                                s2 < n,
                                i2 < sources@[s2 as int].1@.len(),
                                names_view(with_name@) == spec_sources_with(
                                    sources@.take(s as int),
                                    name@,
                                ),
                            decreases n - s,
                        {
                            proof {
                                assert(sources@.take(s as int + 1).drop_last() =~= sources@.take(
                                    s as int,
                                ));
                                assert(sources@.take(s as int + 1).last() == sources@[s as int]);
                            }
                            let ghost old_with = with_name@;
                            match find_key(&sources[s].1, &name) {
                                Some(w) => {
                                    with_name.push(sources[s].0.clone());
                                    proof {
                                        assert(sources@[s as int].1@[w as int].0@ == name@);
                                        assert(contains_key(sources@[s as int].1@, name@));
                                        assert(names_view(with_name@) =~= names_view(
                                            old_with,
                                        ).push(sources@[s as int].0@));
                                    }
                                },
                                None => {
                                },
                            }
                            s += 1;
                        }
                        proof {
                            assert(sources@.take(n as int) =~= sources@);
                            assert(contains_key(sources@[s1 as int].1@, name@));
                            assert(!shows_disjoint(
                                sources@[s1 as int].1@,
                                sources@[s2 as int].1@,
                            ));
                            assert(!sources_disjoint(sources@));
                        }
                        return Err(DuplicateClipName { name, sources: with_name });
                    }
                    s1 += 1;
                }
                i2 += 1;
            }
            proof {
                assert forall|x1: int, x2: int| 0 <= x1 < x2 < s2 + 1 implies shows_disjoint(
                    (#[trigger] sources@[x1]).1@,
                    (#[trigger] sources@[x2]).1@,
                ) by {
                    if x2 == s2 {
                        assert forall|j: int|
                            0 <= j < sources@[x2].1@.len() implies !contains_key(
                            sources@[x1].1@,
                            (#[trigger] sources@[x2].1@[j]).0@,
                        ) by {
                            assert(!contains_key(sources@[x1].1@, sources@[s2 as int].1@[j].0@));
                        }
                    }
                }
            }
            s2 += 1;
        }
        proof {
            assert(sources_disjoint(sources@));
            lemma_concat_wf(sources@);
        }
        // no duplicates: flatten the sources in order
        let ghost orig = sources@;
        let mut remaining = sources;
        let mut shows: Vec<(String, LightingPattern)> = Vec::new();
        let mut done: usize = 0;
        while remaining.len() > 0
            invariant
                orig.len() == n,
                0 <= done <= n,
                remaining@ =~= orig.subrange(done as int, n as int),
                shows@ == spec_concat(orig.take(done as int)),
            decreases remaining@.len(),
        {
            proof {
                assert(orig.take(done as int + 1).drop_last() =~= orig.take(done as int));
                assert(orig.take(done as int + 1).last() == orig[done as int]);
            }
            let entry = remaining.remove(0);
            let mut pats = entry.1;
            proof {
                assert(pats@ == orig[done as int].1@);
            }
            shows.append(&mut pats);
            done += 1;
            proof {
                assert(remaining@ =~= orig.subrange(done as int, n as int));
            }
        }
        proof {
            assert(orig.take(n as int) =~= orig);
        }
        Ok(ShowsManager { shows })
    }

    /// The frame of one show at one time: the values of every parameter
    /// envelope covering the time, or nothing at all when the show name
    /// is unknown.
    pub fn get_frame(&self, show_name: &String, time: i64) -> (r: Vec<(String, i64)>)
        requires
            self.wf(),
        ensures
            keys_unique(r@),
            contains_key(self.shows@, show_name@) ==> pairs_view(r@) == spec_at_time(
                spec_pattern_of(self.shows@, show_name@).envelopes@,
                time as int,
            ),
            !contains_key(self.shows@, show_name@) ==> r@.len() == 0,
    {
        match find_key(&self.shows, show_name) {
            Some(i) => {
                proof {
                    assert(self.shows@[i as int].0@ == show_name@);
                    assert(contains_key(self.shows@, show_name@));
                    let w = choose|w: int|
                        0 <= w < self.shows@.len() && (#[trigger] self.shows@[w]).0@ == show_name@;
                    if w != i as int {
                        assert(self.shows@[w].0@ != self.shows@[i as int].0@);
                    }
                    assert(spec_pattern_of(self.shows@, show_name@) == self.shows@[i as int].1);
                }
                let pattern = &self.shows[i].1;
                pattern.at_time(time)
            },
            None => Vec::new(),
        }
    }

    /// The blended output frame for the two playing tracks: each track's
    /// show is evaluated at its elapsed time and projected onto channel
    /// levels, and the two frames are combined under the live fader and
    /// crossfader weights.
    pub fn get_combined_frame(
        &self,
        show_a: Option<&String>,
        time_a: i64,
        show_b: Option<&String>,
        time_b: i64,
        fader_a: i64,
        fader_b: i64,
        crossfader: i64,
    ) -> (r: Frame)
        requires
            self.wf(),
            0 <= fader_a <= SCALE,
            0 <= fader_b <= SCALE,
            0 <= crossfader <= SCALE,
        ensures
            r.wf(),
            ({
                let wa = spec_weight_a(fader_a as int, crossfader as int);
                let wb = spec_weight_b(fader_b as int, crossfader as int);
                let fa = spec_track_channels(self.shows@, show_a, time_a as int);
                let fb = spec_track_channels(self.shows@, show_b, time_b as int);
                match (fa, fb) {
                    (Option::None, Option::None) => r.channels@.len() == 0,
                    (Option::Some(av), Option::None) => chan_view(r.channels@)
                        == spec_scale_channels(av, wa),
                    (Option::None, Option::Some(bv)) => chan_view(r.channels@)
                        == spec_scale_channels(bv, wb),
                    (Option::Some(av), Option::Some(bv)) => chan_view(r.channels@)
                        == spec_blend_first(av, bv, wa, wb) + spec_blend_rest(av, bv, wb),
                }
            }),
    {
        let frame_a: Option<Frame> = self.track_frame(show_a, time_a);
        let frame_b: Option<Frame> = self.track_frame(show_b, time_b);
        crate::frame::combine(frame_a.as_ref(), frame_b.as_ref(), fader_a, fader_b, crossfader)
    }

    /// Evaluates one track's show, if any, into a channel frame.
    fn track_frame(&self, show: Option<&String>, time: i64) -> (r: Option<Frame>)
        requires
            self.wf(),
        ensures
            match spec_track_channels(self.shows@, show, time as int) {
                Option::Some(v) => r matches Some(f) && f.wf() && chan_view(f.channels@) == v,
                Option::None => r is None,
            },
    {
        match show {
            Option::Some(name) => {
                if find_key(&self.shows, name).is_some() {
                    let values = self.get_frame(name, time);
                    let f = frame_from_values(&values);
                    proof {
                        assert(chan_view(f.channels@) =~= spec_levels(pairs_view(values@)));
                        assert(spec_levels(pairs_view(values@)) =~= spec_levels(
                            spec_at_time(
                                spec_pattern_of(self.shows@, name@).envelopes@,
                                time as int,
                            ),
                        ));
                    }
                    Some(f)
                } else {
                    proof {
                        if contains_key(self.shows@, name@) {
                            let w = choose|w: int|
                                0 <= w < self.shows@.len() && (#[trigger] self.shows@[w]).0@
                                    == name@;
                            assert(false);
                        }
                    }
                    None
                }
            },
            Option::None => None,
        }
    }
}

} // verus!
