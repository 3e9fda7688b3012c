//! The tempo and velocity track: which tempo markers are in force as playback advances.
use vstd::prelude::*;
use crate::beatmap::TimingPoint;
use crate::number::{pow10, Decimal};

verus! {

/// A fraction `num / den` with a positive denominator.
#[derive(Clone, Copy, Debug, PartialEq, Eq, Structural)]
pub struct Ratio {
    pub num: i128,
    pub den: i128,
}

/// Where the track stands: the next marker to consume, the uninherited marker in force, and
/// the inherited marker in force, if any (indices into the markers).
pub struct Track {
    pub index: nat,
    pub uninherited: nat,
    pub inherited: Option<nat>,
}

/// The marker at `k` comes into force: a positive beat length replaces the tempo and clears
/// the velocity marker; any other becomes the velocity marker.
pub open spec fn step(ps: Seq<TimingPoint>, t: Track, k: int) -> Track {
    if ps[k].ms_per_beat.mantissa > 0 {
        Track { index: (k + 1) as nat, uninherited: k as nat, inherited: None }
    } else {
        Track { index: (k + 1) as nat, uninherited: t.uninherited, inherited: Some(k as nat) }
    }
}

/// The track after the markers `from..to` come into force, in order.
pub open spec fn run(ps: Seq<TimingPoint>, t: Track, from: int, to: int) -> Track
    decreases to - from,
{
    if to <= from {
        t
    } else {
        step(ps, run(ps, t, from, to - 1), to - 1)
    }
}

/// The first marker at or after `i` whose offset is past `pos` (or the number of markers).
pub open spec fn due_end(ps: Seq<TimingPoint>, i: int, pos: i32) -> int
    decreases ps.len() - i,
{
    if i < 0 || i >= ps.len() {
        ps.len() as int
    } else if ps[i].offset > pos {
        i
    } else {
        due_end(ps, i + 1, pos)
    }
}

/// The first marker with a positive beat length at or after `i`, or 0 when there is none.
pub open spec fn first_positive_from(ps: Seq<TimingPoint>, i: int) -> int
    decreases ps.len() - i,
{
    if i < 0 || i >= ps.len() {
        0
    } else if ps[i].ms_per_beat.mantissa > 0 {
        i
    } else {
        first_positive_from(ps, i + 1)
    }
}

/// Follows a sequence of tempo markers as the playback position advances.
pub struct TimingPointManager {
    points: Vec<TimingPoint>,
    index: usize,
    uninherited: usize,
    inherited: Option<usize>,
}

impl TimingPointManager {
    pub closed spec fn markers(&self) -> Seq<TimingPoint> {
        self.points@
    }

    pub closed spec fn track(&self) -> Track {
        Track {
            index: self.index as nat,
            uninherited: self.uninherited as nat,
            inherited: match self.inherited {
                Some(i) => Some(i as nat),
                None => None,
            },
        }
    }

    /// The indices are within the markers, and each beat length is a decoded decimal.
    pub open spec fn wf(&self) -> bool {
        &&& self.track().index <= self.markers().len()
        &&& self.track().uninherited < self.markers().len()
        &&& self.track().inherited matches Some(i) ==> i < self.markers().len()
        &&& forall|i: int| 0 <= i < self.markers().len() ==> (#[trigger] self.markers()[i]).ms_per_beat.wf()
    }

    /// A track at the start of the markers, whose tempo is the first marker with a positive
    /// beat length (or the first marker when none has one).
    pub fn new(points: Vec<TimingPoint>) -> (r: TimingPointManager)
        requires
            points@.len() > 0,
            forall|i: int| 0 <= i < points@.len() ==> (#[trigger] points@[i]).ms_per_beat.wf(),
        ensures
            r.wf(),
            r.markers() == points@,
            r.track() == (Track {
                index: 0,
                uninherited: first_positive_from(points@, 0) as nat,
                inherited: None,
            }),
    {
        let mut k: usize = 0;
        while k < points.len() && !points[k].ms_per_beat.is_positive()
            invariant
                k <= points@.len(),
                first_positive_from(points@, 0) == first_positive_from(points@, k as int),
            decreases points@.len() - k,
        {
            k += 1;
        }
        let u: usize = if k < points.len() {
            k
        } else {
            0
        };
        TimingPointManager { points, index: 0, uninherited: u, inherited: None }
    }

    /// Brings into force every marker whose offset is at or before `position`.
    pub fn update(&mut self, position: i32)
        requires
            old(self).wf(),
        ensures
            final(self).wf(),
            final(self).markers() == old(self).markers(),
            final(self).track() == run(
                old(self).markers(),
                old(self).track(),
                old(self).track().index as int,
                due_end(old(self).markers(), old(self).track().index as int, position),
            ),
    {
        let ghost ps = self.points@;
        let ghost t0 = self.track();
        let ghost i0 = self.index as int;
        while self.index < self.points.len() && self.points[self.index].offset <= position
            invariant
                self.wf(),
                self.points@ == ps,
                i0 <= self.index,
                due_end(ps, i0, position) == due_end(ps, self.index as int, position),
                self.track() == run(ps, t0, i0, self.index as int),
                self.track().index == self.index,
            decreases ps.len() - self.index,
        {
            let k = self.index;
            if self.points[k].ms_per_beat.is_positive() {
                self.uninherited = k;
                self.inherited = None;
            } else {
                self.inherited = Some(k);
            }
            self.index = k + 1;
        }
    }

    /// The uninherited marker in force.
    pub fn current_uninherited(&self) -> (r: &TimingPoint)
        requires
            self.wf(),
        ensures
            *r == self.markers()[self.track().uninherited as int],
    {
        &self.points[self.uninherited]
    }

    /// The inherited marker in force, if any.
    pub fn current_inherited(&self) -> (r: Option<&TimingPoint>)
        requires
            self.wf(),
        ensures
            match self.track().inherited {
                Some(i) => r matches Some(p) && *p == self.markers()[i as int],
                None => r is None,
            },
    {
        match self.inherited {
            Some(i) => Some(&self.points[i]),
            None => None,
        }
    }

    /// Milliseconds per beat of the tempo in force.
    pub fn beat_length(&self) -> (r: Decimal)
        requires
            self.wf(),
        ensures
            r == self.markers()[self.track().uninherited as int].ms_per_beat,
    {
        self.points[self.uninherited].ms_per_beat
    }

    /// The velocity multiplier: 1 without an inherited marker, else `-ms_per_beat / 100`,
    /// exactly.
    pub fn velocity_multiplier(&self) -> (r: Decimal)
        requires
            self.wf(),
        ensures
            match self.track().inherited {
                Some(i) => r == (Decimal {
                    mantissa: (-self.markers()[i as int].ms_per_beat.mantissa) as i64,
                    scale: (self.markers()[i as int].ms_per_beat.scale + 2) as u32,
                }),
                None => r == (Decimal { mantissa: 1, scale: 0 }),
            },
    {
        match self.inherited {
            Some(i) => {
                let b = self.points[i].ms_per_beat;
                assert(b.wf());
                Decimal { mantissa: -b.mantissa, scale: b.scale + 2 }
            },
            None => Decimal::whole(1),
        }
    }

    /// Beats per minute, `60000 / beat_length()`, as a fraction; `None` when the beat length
    /// is zero.
    pub fn bpm(&self) -> (r: Option<Ratio>)
        requires
            self.wf(),
        ensures
            ({
                let b = self.markers()[self.track().uninherited as int].ms_per_beat;
                match r {
                    None => b.mantissa == 0,
                    Some(q) => b.mantissa != 0 && q.den > 0 && q.den == (if b.mantissa > 0 {
                        b.mantissa as int
                    } else {
                        -b.mantissa
                    }) && q.num == (if b.mantissa > 0 {
                        60000 * pow10(b.scale as nat)
                    } else {
                        -60000 * pow10(b.scale as nat)
                    }),
                }
            }),
    {
        let b = self.points[self.uninherited].ms_per_beat;
        assert(b.wf());
        if b.mantissa == 0 {
            return None;
        }
        let mut p: i128 = 60000;
        let mut k: u32 = 0;
        while k < b.scale
            invariant
                k <= b.scale <= 18,
                p == 60000 * pow10(k as nat),
                0 < p <= 60000 * pow10(k as nat),
            decreases b.scale - k,
        {
            proof {
                lemma_pow10_bound(k as nat);
                assert(pow10((k + 1) as nat) == 10 * pow10(k as nat));
            }
            p = p * 10;
            k += 1;
        }
        if b.mantissa > 0 {
            Some(Ratio { num: p, den: b.mantissa as i128 })
        } else {
            Some(Ratio { num: -p, den: -(b.mantissa as i128) })
        }
    }
}

proof fn lemma_pow10_positive(n: nat)
    ensures
        pow10(n) >= 1,
    decreases n,
{
    if n > 0 {
        lemma_pow10_positive((n - 1) as nat);
    }
}

proof fn lemma_pow10_bound(n: nat)
    requires
        n <= 18,
    ensures
        1 <= pow10(n) <= 1_000_000_000_000_000_000,
    decreases 18 - n,
{
    lemma_pow10_positive(n);
    if n < 18 {
        lemma_pow10_bound(n + 1);
        assert(pow10(n + 1) == 10 * pow10(n));
    } else {
        reveal_with_fuel(pow10, 19);
    }
}

} // verus!
