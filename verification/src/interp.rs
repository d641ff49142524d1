//! The client's per-entity interpolation buffer: a bounded ring of the most
//! recent tick-stamped position samples, newest first, and the search for the
//! pair of samples that brackets a lagged target tick.
//!
//! The buffer only selects samples and computes the integer parts of the
//! blend ratio; the caller turns `elapsed`, `span` and its own fractional
//! tick progress into the final blended coordinates.
use vstd::prelude::*;
use crate::Art;
use crate::msg::Pos;

verus! {

/// How many samples each entity keeps.
pub const FRAMES_SAVED: usize = 5;

/// How many ticks rendering lags behind the local clock, so that enough
/// buffered samples exist to interpolate between.
pub const RENDER_LAG_TICKS: u32 = 2;

/// One replicated entity on the client: its sample ring and visual kind.
#[derive(Clone, Debug)]
pub struct Ent {
    /// The most recent samples, newest first, ticks strictly decreasing.
    pub pos_frames: Vec<(u32, Pos)>,
    /// What the entity looks like.
    pub art: Art,
}

/// What the sample search produces for a target tick.
#[derive(Clone, Copy, Debug, PartialEq, Eq)]
pub enum PosLerp {
    /// No bracketing pair exists; render this position verbatim.
    Newest(Pos),
    /// Blend from `older` towards `newer`: the target lies `elapsed` whole
    /// ticks past `older`'s tick, and the two samples are `span` ticks apart.
    Between { newer: (u32, Pos), older: (u32, Pos), elapsed: u32, span: u32 },
}

/// Well-formed sample ring: never empty, never over capacity, and ticks
/// strictly decreasing from newest to oldest.
pub open spec fn frames_wf(fr: Seq<(u32, Pos)>) -> bool {
    &&& 1 <= fr.len() <= FRAMES_SAVED
    &&& forall|i: int, j: int| 0 <= i < j < fr.len() ==> fr[i].0 > fr[j].0
}

/// The simulation tick a render at local tick `tick` aims for: the local
/// clock minus the fixed render lag, floored at zero.
pub open spec fn target_tick(tick: u32) -> u32 {
    if tick >= RENDER_LAG_TICKS {
        (tick - RENDER_LAG_TICKS) as u32
    } else {
        0u32
    }
}

/// Scans the ring from index `i` for the first sample at or below the
/// target, pairing it with its immediately newer neighbour; falls back to
/// the newest sample when none is found.
pub open spec fn spec_scan(fr: Seq<(u32, Pos)>, t: u32, i: int) -> PosLerp
    decreases fr.len() - i,
{
    if i < 1 || i >= fr.len() {
        PosLerp::Newest(fr[0].1)
    } else if fr[i].0 <= t {
        PosLerp::Between {
            newer: fr[i - 1],
            older: fr[i],
            elapsed: (t - fr[i].0) as u32,
            span: (fr[i - 1].0 - fr[i].0) as u32,
        }
    } else {
        spec_scan(fr, t, i + 1)
    }
}

/// The sample selection for target tick `t`: the newest sample verbatim if
/// it is already at or below `t`, otherwise the first bracketing pair, and
/// the newest sample again if the whole ring is newer than `t`.
pub open spec fn spec_pos_lerp(fr: Seq<(u32, Pos)>, t: u32) -> PosLerp {
    if fr[0].0 <= t {
        PosLerp::Newest(fr[0].1)
    } else {
        spec_scan(fr, t, 1)
    }
}

impl Ent {
    /// The ring invariant.
    pub open spec fn wf(self) -> bool {
        frames_wf(self.pos_frames@)
    }

    /// A freshly spawned entity holds exactly one sample: the spawn position
    /// stamped with tick zero, so any later server tick supersedes it.
    pub fn new(pos: Pos, art: Art) -> (r: Ent)
        ensures
            r.wf(),
            r.pos_frames@ == seq![(0u32, pos)],
            r.art == art,
    {
        let mut pos_frames: Vec<(u32, Pos)> = Vec::new();
        pos_frames.push((0, pos));
        assert(pos_frames@ =~= seq![(0u32, pos)]);
        Ent { pos_frames, art }
    }

    /// Applies one position sample. A sample strictly newer than the current
    /// newest is pushed to the front, evicting the oldest sample once the
    /// ring is full; anything else leaves the ring untouched.
    pub fn push_sample(&mut self, tick: u32, pos: Pos)
        requires
            old(self).wf(),
        ensures
            final(self).wf(),
            final(self).art == old(self).art,
            tick <= old(self).pos_frames@[0].0 ==> final(self).pos_frames@ == old(
                self,
            ).pos_frames@,
            tick > old(self).pos_frames@[0].0 ==> final(self).pos_frames@ == seq![(tick, pos)]
                + old(self).pos_frames@.take(
                if old(self).pos_frames@.len() < FRAMES_SAVED {
                    old(self).pos_frames@.len() as int
                } else {
                    FRAMES_SAVED - 1
                },
            ),
    {
        let newest = self.pos_frames[0].0;
        if tick > newest {
            if self.pos_frames.len() == FRAMES_SAVED {
                self.pos_frames.pop();
            }
            self.pos_frames.insert(0, (tick, pos));
            assert(self.pos_frames@ =~= seq![(tick, pos)] + old(self).pos_frames@.take(
                if old(self).pos_frames@.len() < FRAMES_SAVED {
                    old(self).pos_frames@.len() as int
                } else {
                    FRAMES_SAVED - 1
                },
            ));
        }
    }

    /// Finds what to render for local clock tick `tick`: the bracketing
    /// sample pair around the lagged target tick, or the newest sample when
    /// no such pair exists.
    pub fn pos_lerp(&self, tick: u32) -> (r: PosLerp)
        requires
            self.wf(),
        ensures
            r == spec_pos_lerp(self.pos_frames@, target_tick(tick)),
    {
        let t = if tick >= RENDER_LAG_TICKS {
            tick - RENDER_LAG_TICKS
        } else {
            0
        };
        let n = self.pos_frames.len();
        if self.pos_frames[0].0 <= t {
            return PosLerp::Newest(self.pos_frames[0].1);
        }
        let mut i: usize = 1;
        while i < n
            invariant
                self.wf(),
                1 <= i <= n,
                n == self.pos_frames@.len(),
                t == target_tick(tick),
                self.pos_frames@[0].0 > t,
                spec_scan(self.pos_frames@, t, 1) == spec_scan(self.pos_frames@, t, i as int),
            decreases n - i,
        {
            let (ft, _fp) = self.pos_frames[i];
            if ft <= t {
                return PosLerp::Between {
                    newer: self.pos_frames[i - 1],
                    older: self.pos_frames[i],
                    elapsed: t - ft,
                    span: self.pos_frames[i - 1].0 - ft,
                };
            }
            i = i + 1;
        }
        PosLerp::Newest(self.pos_frames[0].1)
    }
}

/// The selected bracket is sound: the target lies within it, so the blend
/// ratio `(elapsed + fraction) / span` stays below one.
pub proof fn lemma_bracket_sound(fr: Seq<(u32, Pos)>, t: u32, i: int)
    requires
        frames_wf(fr),
        1 <= i,
        forall|j: int| 0 <= j < i ==> fr[j].0 > t,
        spec_scan(fr, t, i) is Between,
    ensures
        ({
            let r = spec_scan(fr, t, i);
            match r {
                PosLerp::Between { newer, older, elapsed, span } => {
                    &&& older.0 <= t < newer.0
                    &&& span == newer.0 - older.0
                    &&& elapsed == t - older.0
                    &&& 0 < span
                    &&& elapsed < span
                },
                _ => true,
            }
        }),
    decreases fr.len() - i,
{
    if i < fr.len() && fr[i].0 > t {
        lemma_bracket_sound(fr, t, i + 1);
    }
}

/// A ring holding exactly one sample never yields a bracketing pair: the
/// single sample comes back verbatim, whatever the target tick.
pub proof fn lemma_single_sample_verbatim(fr: Seq<(u32, Pos)>, t: u32)
    requires
        frames_wf(fr),
        fr.len() == 1,
    ensures
        spec_pos_lerp(fr, t) == PosLerp::Newest(fr[0].1),
{
}

} // verus!
