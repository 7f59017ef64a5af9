//! The tempo map: tempo changes keyed by beat, and the conversion between
//! musical time and audio time that they define.
//!
//! Audio time is counted in frames. Within a segment the tempo is constant,
//! and a stretch of `d` ticks lasts `d * TICK_SCALE / bpm` frames, `bpm`
//! taken in thousandths. A beat is mapped to the first frame at which it has
//! been reached, a frame to the last tick that has been reached at it.

use crate::beat::{Beat, MAX_TICKS, TICKS_PER_BEAT};
use crate::rounding::{ceil_div, lemma_ceil, lemma_ceil_is, lemma_floor, lemma_floor_is};
use crate::sorted_keys::{
    increasing, lemma_rank, lemma_rank_is, lemma_segment, lemma_segment_is, rank, segment,
};
use vstd::prelude::*;

verus! {

/// The number of audio frames in one second.
pub const SAMPLE_RATE: i64 = 44100;

/// The frames that one tick lasts, times the tempo in thousandths of a beat
/// per minute: the frames of one minute, times a thousand, over the ticks of
/// one beat.
pub const TICK_SCALE: i64 = 2_756_250;

/// The slowest tempo, in thousandths of a beat per minute.
pub const MIN_BPM_MILLI: u32 = 1000;

/// The fastest tempo, in thousandths of a beat per minute. At this tempo one
/// tick lasts one frame, so no two ticks ever share a frame.
pub const MAX_BPM_MILLI: u32 = 2_756_250;

/// No tick lasts more frames than this.
pub const MAX_FRAMES_PER_TICK: i64 = 2757;

/// The tempo that a map starts with, in thousandths of a beat per minute.
pub const DEFAULT_BPM_MILLI: u32 = 120_000;

/// A tempo in beats per minute, exact to a thousandth.
#[derive(Clone, Copy, Debug, PartialEq, Eq, PartialOrd, Ord, Hash, Structural)]
pub struct Bpm {
    milli: u32,
}

impl View for Bpm {
    type V = int;

    /// The tempo in thousandths of a beat per minute.
    closed spec fn view(&self) -> int {
        self.milli as int
    }
}

impl Bpm {
    /// Every tempo lies between `MIN_BPM_MILLI` and `MAX_BPM_MILLI`.
    #[verifier::type_invariant]
    pub open spec fn in_range(&self) -> bool {
        MIN_BPM_MILLI <= self@ <= MAX_BPM_MILLI
    }

    /// The tempo of `milli` thousandths of a beat per minute, if that lies
    /// between `MIN_BPM_MILLI` and `MAX_BPM_MILLI`.
    pub fn new(milli: u32) -> (r: Option<Bpm>)
        ensures
            r.is_some() <==> MIN_BPM_MILLI <= milli <= MAX_BPM_MILLI,
            r matches Some(b) ==> b@ == milli,
    {
        if MIN_BPM_MILLI <= milli && milli <= MAX_BPM_MILLI {
            Some(Bpm { milli })
        } else {
            None
        }
    }

    /// The tempo in thousandths of a beat per minute.
    pub fn milli(&self) -> (m: u32)
        ensures
            m == self@,
            MIN_BPM_MILLI <= m <= MAX_BPM_MILLI,
    {
        proof {
            use_type_invariant(self);
        }
        self.milli
    }
}

/// A tempo change: from `beat` on, the tempo is `bpm`.
#[derive(Clone, Copy, Debug, PartialEq, Eq, Structural)]
pub struct TempoEvent {
    pub beat: Beat,
    pub bpm: Bpm,
}

/// A tempo change as numbers: the beat in ticks, the tempo in thousandths of
/// a beat per minute.
pub struct TempoPoint {
    pub ticks: int,
    pub milli: int,
}

impl View for TempoEvent {
    type V = TempoPoint;

    open spec fn view(&self) -> TempoPoint {
        TempoPoint { ticks: self.beat@, milli: self.bpm@ }
    }
}

/// The beats of the events of a map, in ticks.
pub open spec fn beats(s: Seq<TempoPoint>) -> Seq<int> {
    Seq::new(s.len(), |i: int| s[i].ticks)
}

/// The events come in strictly increasing order of their beats, so no two
/// share a beat.
pub open spec fn strictly_sorted(s: Seq<TempoPoint>) -> bool {
    increasing(beats(s))
}

/// Every event lies in the range of beats and of tempos.
pub open spec fn in_bounds(s: Seq<TempoPoint>) -> bool {
    forall|i: int|
        0 <= i < s.len() ==> -MAX_TICKS <= (#[trigger] s[i]).ticks <= MAX_TICKS && MIN_BPM_MILLI
            <= s[i].milli <= MAX_BPM_MILLI
}

/// What holds of every tempo map: it has an event, its events are sorted by
/// beat with no beat twice, and each lies in range.
pub open spec fn valid_map(s: Seq<TempoPoint>) -> bool {
    &&& s.len() >= 1
    &&& strictly_sorted(s)
    &&& in_bounds(s)
}

/// The map `s` with the event `p` put in: `p` takes the place of the event
/// at its beat if there is one, and else goes between the events before its
/// beat and those after it.
pub open spec fn inserted(s: Seq<TempoPoint>, p: TempoPoint) -> Seq<TempoPoint> {
    let k = rank(beats(s), p.ticks) as int;
    let rest = if k < s.len() && s[k].ticks == p.ticks {
        k + 1
    } else {
        k
    };
    s.take(k).push(p) + s.skip(rest)
}

/// The frames that `ticks` ticks last at a tempo of `milli`: the frames that
/// have begun when the stretch ends.
pub open spec fn frames_for(ticks: int, milli: int) -> int {
    ceil_div(ticks * TICK_SCALE, milli)
}

/// The ticks that have been completed after `frames` frames at a tempo of
/// `milli`.
pub open spec fn ticks_for(frames: int, milli: int) -> int {
    (frames * milli) / (TICK_SCALE as int)
}

/// The frame at which event `i` of the map takes effect. The first event is
/// where audio time starts; each later one comes after the segment before
/// it has run.
pub open spec fn start_time(s: Seq<TempoPoint>, i: int) -> int
    decreases i,
{
    if i <= 0 {
        0
    } else {
        start_time(s, i - 1) + frames_for(s[i].ticks - s[i - 1].ticks, s[i - 1].milli)
    }
}

/// The frames at which the events of a map take effect.
pub open spec fn starts(s: Seq<TempoPoint>) -> Seq<int> {
    Seq::new(s.len(), |i: int| start_time(s, i))
}

/// The frame of the beat at `ticks`: the start of its segment, then the
/// frames from there to the beat at that segment's tempo. Before the first
/// event and after the last, the tempo of that event holds.
pub open spec fn time_of_beat(s: Seq<TempoPoint>, ticks: int) -> int {
    let i = segment(beats(s), ticks);
    start_time(s, i) + frames_for(ticks - s[i].ticks, s[i].milli)
}

/// The beat, in ticks, that has been reached at frame `time`.
pub open spec fn beat_of_time(s: Seq<TempoPoint>, time: int) -> int {
    let i = segment(starts(s), time);
    s[i].ticks + ticks_for(time - start_time(s, i), s[i].milli)
}

/// `ticks`, or the end of musical time where it lies beyond.
pub open spec fn clamped(ticks: int) -> int {
    if ticks < -MAX_TICKS {
        -MAX_TICKS as int
    } else if ticks > MAX_TICKS {
        MAX_TICKS as int
    } else {
        ticks
    }
}

/// Putting an event into a sorted map leaves it sorted, with no beat twice.
pub proof fn lemma_inserted_sorted(s: Seq<TempoPoint>, p: TempoPoint)
    requires
        strictly_sorted(s),
    ensures
        strictly_sorted(inserted(s, p)),
{
    lemma_rank(beats(s), p.ticks);
    let k = rank(beats(s), p.ticks) as int;
    let rest = if k < s.len() && s[k].ticks == p.ticks {
        k + 1
    } else {
        k
    };
    let r = inserted(s, p);
    assert forall|i: int, j: int| 0 <= i < j < beats(r).len() implies beats(r)[i] < beats(r)[j] by {
        if i < k {
            assert(r[i] == s[i]);
            assert(beats(s)[i] < p.ticks);
        }
        if j < k {
            assert(r[j] == s[j]);
            assert(beats(s)[i] < beats(s)[j]);
        }
        if j > k {
            let jj = j - k - 1 + rest;
            assert(r[j] == s[jj]);
            assert(beats(s)[jj] >= p.ticks);
            if rest == k + 1 {
                assert(beats(s)[k] < beats(s)[jj]);
            }
            if i < k {
                assert(beats(s)[i] < beats(s)[jj]);
            }
        }
        if i > k {
            let ii = i - k - 1 + rest;
            assert(r[i] == s[ii]);
            assert(beats(s)[ii] < beats(s)[j - k - 1 + rest]);
        }
    }
}

/// What a sorted map holds after an event was put in: the event, and of
/// the events that were there those at other beats.
pub proof fn lemma_inserted_holds(s: Seq<TempoPoint>, p: TempoPoint, x: TempoPoint)
    requires
        strictly_sorted(s),
    ensures
        inserted(s, p).contains(x) <==> x == p || (s.contains(x) && x.ticks != p.ticks),
{
    lemma_rank(beats(s), p.ticks);
    let k = rank(beats(s), p.ticks) as int;
    let rest = if k < s.len() && s[k].ticks == p.ticks {
        k + 1
    } else {
        k
    };
    let r = inserted(s, p);
    assert(r[k] == p);
    assert(r.contains(p));
    if r.contains(x) && x != p {
        let i = choose|i: int| 0 <= i < r.len() && r[i] == x;
        if i < k {
            assert(s[i] == x);
            assert(beats(s)[i] < p.ticks);
        } else {
            assert(i > k);
            let ii = i - k - 1 + rest;
            assert(s[ii] == x);
            assert(beats(s)[ii] >= p.ticks);
            assert(beats(s)[k] >= p.ticks);
            if ii > k {
                assert(beats(s)[k] < beats(s)[ii]);
            }
        }
        assert(s.contains(x));
        assert(x.ticks != p.ticks);
    }
    if s.contains(x) && x.ticks != p.ticks {
        let i = choose|i: int| 0 <= i < s.len() && s[i] == x;
        if i < k {
            assert(r[i] == x);
        } else {
            assert(beats(s)[i] >= p.ticks);
            assert(i >= rest);
            assert(r[i - rest + k + 1] == x);
        }
        assert(r.contains(x));
    }
}

/// Two sorted maps that hold the same events are the same map.
pub proof fn lemma_sorted_unique(a: Seq<TempoPoint>, b: Seq<TempoPoint>)
    requires
        strictly_sorted(a),
        strictly_sorted(b),
        forall|x: TempoPoint| a.contains(x) <==> b.contains(x),
    ensures
        a == b,
    decreases a.len(),
{
    if a.len() == 0 {
        if b.len() > 0 {
            assert(b.contains(b[0]));
        }
        assert(a =~= b);
    } else {
        let x = a.last();
        assert(a.contains(x));
        let j = choose|j: int| 0 <= j < b.len() && b[j] == x;
        let y = b.last();
        assert(b.contains(y));
        let i = choose|i: int| 0 <= i < a.len() && a[i] == y;
        assert(beats(a)[i] <= beats(a)[a.len() - 1]) by {
            if i < a.len() - 1 {
                assert(beats(a)[i] < beats(a)[a.len() - 1]);
            }
        }
        assert(beats(b)[j] <= beats(b)[b.len() - 1]) by {
            if j < b.len() - 1 {
                assert(beats(b)[j] < beats(b)[b.len() - 1]);
            }
        }
        assert(j == b.len() - 1) by {
            if j < b.len() - 1 {
                assert(beats(b)[j] < beats(b)[b.len() - 1]);
            }
        }
        let shorter_a = a.drop_last();
        let shorter_b = b.drop_last();
        assert(strictly_sorted(shorter_a)) by {
            assert forall|m: int, n: int| 0 <= m < n < beats(shorter_a).len() implies beats(
                shorter_a,
            )[m] < beats(shorter_a)[n] by {
                assert(beats(a)[m] < beats(a)[n]);
            }
        }
        assert(strictly_sorted(shorter_b)) by {
            assert forall|m: int, n: int| 0 <= m < n < beats(shorter_b).len() implies beats(
                shorter_b,
            )[m] < beats(shorter_b)[n] by {
                assert(beats(b)[m] < beats(b)[n]);
            }
        }
        assert forall|z: TempoPoint| shorter_a.contains(z) <==> shorter_b.contains(z) by {
            if shorter_a.contains(z) {
                let m = choose|m: int| 0 <= m < shorter_a.len() && shorter_a[m] == z;
                assert(a[m] == z);
                assert(a.contains(z));
                let n = choose|n: int| 0 <= n < b.len() && b[n] == z;
                assert(beats(a)[m] < beats(a)[a.len() - 1]);
                assert(n < b.len() - 1);
                assert(shorter_b[n] == z);
            }
            if shorter_b.contains(z) {
                let n = choose|n: int| 0 <= n < shorter_b.len() && shorter_b[n] == z;
                assert(b[n] == z);
                assert(b.contains(z));
                let m = choose|m: int| 0 <= m < a.len() && a[m] == z;
                assert(beats(b)[n] < beats(b)[b.len() - 1]);
                assert(m < a.len() - 1);
                assert(shorter_a[m] == z);
            }
        }
        lemma_sorted_unique(shorter_a, shorter_b);
        assert(a =~= shorter_a.push(x));
        assert(b =~= shorter_b.push(x));
    }
}

/// Two events at different beats can be put into a sorted map in either
/// order: the map is the same.
pub proof fn lemma_inserted_commutes(s: Seq<TempoPoint>, p: TempoPoint, q: TempoPoint)
    requires
        strictly_sorted(s),
        p.ticks != q.ticks,
    ensures
        inserted(inserted(s, p), q) == inserted(inserted(s, q), p),
{
    lemma_inserted_sorted(s, p);
    lemma_inserted_sorted(s, q);
    lemma_inserted_sorted(inserted(s, p), q);
    lemma_inserted_sorted(inserted(s, q), p);
    let a = inserted(inserted(s, p), q);
    let b = inserted(inserted(s, q), p);
    assert forall|x: TempoPoint| a.contains(x) <==> b.contains(x) by {
        lemma_inserted_holds(s, p, x);
        lemma_inserted_holds(s, q, x);
        lemma_inserted_holds(inserted(s, p), q, x);
        lemma_inserted_holds(inserted(s, q), p, x);
    }
    lemma_sorted_unique(a, b);
}

/// How the constants of audio time hang together: one beat of a tempo of
/// `bpm` thousandths lasts the frames of a minute, times a thousand, over
/// `bpm`; the fastest tempo has one tick to the frame; and the slowest has
/// no more than `MAX_FRAMES_PER_TICK` frames to the tick.
pub proof fn lemma_tick_scale()
    ensures
        TICK_SCALE * TICKS_PER_BEAT == 60 * SAMPLE_RATE * 1000,
        MAX_BPM_MILLI == TICK_SCALE,
        (MAX_FRAMES_PER_TICK - 1) * MIN_BPM_MILLI < TICK_SCALE <= MAX_FRAMES_PER_TICK
            * MIN_BPM_MILLI,
{
}

/// A stretch lasts at least one frame for each tick and at most
/// `MAX_FRAMES_PER_TICK`, and a stretch backwards as much in reverse.
pub proof fn lemma_frames_bounds(ticks: int, milli: int)
    requires
        MIN_BPM_MILLI <= milli <= MAX_BPM_MILLI,
    ensures
        ticks >= 0 ==> ticks <= frames_for(ticks, milli) <= ticks * MAX_FRAMES_PER_TICK,
        ticks <= 0 ==> ticks * MAX_FRAMES_PER_TICK <= frames_for(ticks, milli) <= ticks,
{
    let c = frames_for(ticks, milli);
    lemma_ceil(ticks * TICK_SCALE, milli);
    assert(c * milli - milli < ticks * 2_756_250 <= c * milli);
    if ticks >= 0 {
        assert(ticks <= c) by (nonlinear_arith)
            requires
                ticks * 2_756_250 <= c * milli,
                1000 <= milli <= 2_756_250,
                ticks >= 0,
        ;
        assert(c <= ticks * 2757) by (nonlinear_arith)
            requires
                c * milli - milli < ticks * 2_756_250,
                1000 <= milli <= 2_756_250,
                ticks >= 0,
        ;
    }
    if ticks <= 0 {
        assert(c <= ticks) by (nonlinear_arith)
            requires
                c * milli - milli < ticks * 2_756_250,
                1000 <= milli <= 2_756_250,
                ticks <= 0,
        ;
        assert(ticks * 2757 <= c) by (nonlinear_arith)
            requires
                ticks * 2_756_250 <= c * milli,
                1000 <= milli <= 2_756_250,
                ticks <= 0,
        ;
    }
}

/// A longer stretch lasts more frames: no two ticks share a frame.
pub proof fn lemma_frames_increasing(shorter: int, longer: int, milli: int)
    requires
        MIN_BPM_MILLI <= milli <= MAX_BPM_MILLI,
        shorter < longer,
    ensures
        frames_for(shorter, milli) < frames_for(longer, milli),
{
    let a = frames_for(shorter, milli);
    let b = frames_for(longer, milli);
    lemma_ceil(shorter * TICK_SCALE, milli);
    lemma_ceil(longer * TICK_SCALE, milli);
    assert(a < b) by (nonlinear_arith)
        requires
            a * milli - milli < shorter * 2_756_250,
            longer * 2_756_250 <= b * milli,
            shorter < longer,
            1000 <= milli <= 2_756_250,
    ;
}

/// The ticks that have been completed when a stretch ends are the ticks of
/// the stretch.
pub proof fn lemma_ticks_of_frames(ticks: int, milli: int)
    requires
        MIN_BPM_MILLI <= milli <= MAX_BPM_MILLI,
    ensures
        ticks_for(frames_for(ticks, milli), milli) == ticks,
{
    let c = frames_for(ticks, milli);
    lemma_ceil(ticks * TICK_SCALE, milli);
    assert(ticks * 2_756_250 <= c * milli < ticks * 2_756_250 + 2_756_250);
    lemma_floor_is(c * milli, TICK_SCALE as int, ticks);
}

/// Between two events of a map there are at least as many frames as ticks,
/// and at most `MAX_FRAMES_PER_TICK` times as many.
pub proof fn lemma_start_times(s: Seq<TempoPoint>, i: int, j: int)
    requires
        valid_map(s),
        0 <= i <= j < s.len(),
    ensures
        s[j].ticks - s[i].ticks <= start_time(s, j) - start_time(s, i) <= (s[j].ticks
            - s[i].ticks) * MAX_FRAMES_PER_TICK,
        i < j ==> s[i].ticks < s[j].ticks,
    decreases j - i,
{
    if i < j {
        lemma_start_times(s, i, j - 1);
        assert(beats(s)[j - 1] < beats(s)[j]);
        lemma_frames_bounds(s[j].ticks - s[j - 1].ticks, s[j - 1].milli);
    }
}

/// The events of a map take effect in the order of their beats, no two at
/// one frame.
pub proof fn lemma_starts_increasing(s: Seq<TempoPoint>)
    requires
        valid_map(s),
    ensures
        increasing(starts(s)),
{
    assert forall|i: int, j: int| 0 <= i < j < starts(s).len() implies starts(s)[i] < starts(
        s,
    )[j] by {
        lemma_start_times(s, i, j);
    }
}

/// Going from a beat to its frame and back gives the beat.
pub proof fn lemma_round_trip(s: Seq<TempoPoint>, ticks: int)
    requires
        valid_map(s),
    ensures
        beat_of_time(s, time_of_beat(s, ticks)) == ticks,
{
    lemma_segment(beats(s), ticks);
    let i = segment(beats(s), ticks);
    let time = time_of_beat(s, ticks);
    lemma_frames_bounds(ticks - s[i].ticks, s[i].milli);
    lemma_starts_increasing(s);
    if i + 1 < s.len() {
        lemma_frames_increasing(ticks - s[i].ticks, s[i + 1].ticks - s[i].ticks, s[i].milli);
    }
    assert(i == 0 || beats(s)[i] <= ticks);
    lemma_segment_is(starts(s), time, i);
    lemma_ticks_of_frames(ticks - s[i].ticks, s[i].milli);
}

/// Audio time starts at the first event of the map: frame 0 is the frame of
/// its beat, and its beat is the beat that has been reached at frame 0.
pub proof fn lemma_time_zero(s: Seq<TempoPoint>)
    requires
        valid_map(s),
    ensures
        time_of_beat(s, s[0].ticks) == 0,
        beat_of_time(s, 0) == s[0].ticks,
{
    lemma_starts_increasing(s);
    if s.len() > 1 {
        assert(beats(s)[0] < beats(s)[1]);
        assert(starts(s)[0] < starts(s)[1]);
    }
    lemma_segment_is(beats(s), s[0].ticks, 0);
    lemma_segment_is(starts(s), 0, 0);
    lemma_ceil_is(0 * TICK_SCALE, s[0].milli, 0);
    lemma_floor_is(0 * s[0].milli, TICK_SCALE as int, 0);
}

/// A stretch lasts no fewer frames than a shorter one.
pub proof fn lemma_frames_monotone(shorter: int, longer: int, milli: int)
    requires
        MIN_BPM_MILLI <= milli <= MAX_BPM_MILLI,
        shorter <= longer,
    ensures
        frames_for(shorter, milli) <= frames_for(longer, milli),
{
    if shorter < longer {
        lemma_frames_increasing(shorter, longer, milli);
    }
}

/// A later beat has a later frame.
pub proof fn lemma_time_monotone(s: Seq<TempoPoint>, earlier: int, later: int)
    requires
        valid_map(s),
        earlier <= later,
    ensures
        time_of_beat(s, earlier) <= time_of_beat(s, later),
{
    lemma_segment(beats(s), earlier);
    lemma_segment(beats(s), later);
    let i = segment(beats(s), earlier);
    let j = segment(beats(s), later);
    if i == j {
        lemma_frames_monotone(earlier - s[i].ticks, later - s[i].ticks, s[i].milli);
    } else {
        if j < i {
            assert(beats(s)[j + 1] <= beats(s)[i]) by {
                if j + 1 < i {
                    assert(beats(s)[j + 1] < beats(s)[i]);
                }
            }
            assert(false);
        }
        assert(beats(s)[i + 1] > earlier);
        lemma_frames_increasing(earlier - s[i].ticks, s[i + 1].ticks - s[i].ticks, s[i].milli);
        lemma_start_times(s, i + 1, j);
        assert(beats(s)[j] <= later);
        lemma_frames_bounds(later - s[j].ticks, s[j].milli);
    }
}

/// The beat that has been reached at a frame lies in the segment of the
/// frame, and its own frame is at or before that frame.
pub proof fn lemma_beat_reached(s: Seq<TempoPoint>, time: int)
    requires
        valid_map(s),
    ensures
        segment(beats(s), beat_of_time(s, time)) == segment(starts(s), time),
        time_of_beat(s, beat_of_time(s, time)) <= time,
{
    lemma_starts_increasing(s);
    lemma_segment(starts(s), time);
    let j = segment(starts(s), time);
    let elapsed = time - start_time(s, j);
    let milli = s[j].milli;
    let q = ticks_for(elapsed, milli);
    lemma_floor(elapsed * milli, TICK_SCALE as int);
    assert(q * 2_756_250 <= elapsed * milli < q * 2_756_250 + 2_756_250);
    if j >= 1 {
        assert(starts(s)[j] <= time);
        assert(q >= 0) by (nonlinear_arith)
            requires
                elapsed * milli < q * 2_756_250 + 2_756_250,
                elapsed >= 0,
                milli >= 1000,
        ;
    }
    if j + 1 < s.len() {
        let full = s[j + 1].ticks - s[j].ticks;
        assert(time < starts(s)[j + 1]);
        lemma_ceil(full * TICK_SCALE, milli);
        let c = frames_for(full, milli);
        assert(elapsed < c);
        assert(q < full) by (nonlinear_arith)
            requires
                q * 2_756_250 <= elapsed * milli,
                elapsed < c,
                c * milli - milli < full * 2_756_250,
                1000 <= milli <= 2_756_250,
        ;
        assert(beats(s)[j + 1] == s[j + 1].ticks);
    }
    assert(j == 0 || beats(s)[j] <= s[j].ticks + q);
    lemma_segment_is(beats(s), s[j].ticks + q, j);
    lemma_ceil(q * TICK_SCALE, milli);
    let back = frames_for(q, milli);
    assert(back <= elapsed) by (nonlinear_arith)
        requires
            back * milli - milli < q * 2_756_250,
            q * 2_756_250 <= elapsed * milli,
            1000 <= milli <= 2_756_250,
    ;
}

/// A beat has been reached at a frame exactly if the frame of the beat is at
/// or before that frame.
pub proof fn lemma_reached(s: Seq<TempoPoint>, ticks: int, time: int)
    requires
        valid_map(s),
    ensures
        time_of_beat(s, ticks) <= time <==> ticks <= beat_of_time(s, time),
{
    lemma_beat_reached(s, time);
    if ticks <= beat_of_time(s, time) {
        lemma_time_monotone(s, ticks, beat_of_time(s, time));
    } else {
        lemma_round_trip(s, ticks);
        lemma_beat_monotone(s, time_of_beat(s, ticks), time);
    }
}

/// At a later frame, a later beat has been reached, or the same.
pub proof fn lemma_beat_monotone(s: Seq<TempoPoint>, earlier: int, later: int)
    requires
        valid_map(s),
    ensures
        earlier <= later ==> beat_of_time(s, earlier) <= beat_of_time(s, later),
{
    if earlier <= later {
        lemma_starts_increasing(s);
        lemma_segment(starts(s), earlier);
        lemma_segment(starts(s), later);
        lemma_beat_reached(s, earlier);
        lemma_beat_reached(s, later);
        let i = segment(starts(s), earlier);
        let j = segment(starts(s), later);
        lemma_segment(beats(s), beat_of_time(s, earlier));
        lemma_segment(beats(s), beat_of_time(s, later));
        if i == j {
            let milli = s[i].milli;
            let a = earlier - start_time(s, i);
            let b = later - start_time(s, i);
            lemma_floor(a * milli, TICK_SCALE as int);
            lemma_floor(b * milli, TICK_SCALE as int);
            let qa = ticks_for(a, milli);
            let qb = ticks_for(b, milli);
            assert(qa <= qb) by (nonlinear_arith)
                requires
                    qa * 2_756_250 <= a * milli,
                    b * milli < qb * 2_756_250 + 2_756_250,
                    a <= b,
                    milli >= 1000,
            ;
        } else {
            if j < i {
                assert(starts(s)[j + 1] <= starts(s)[i]) by {
                    if j + 1 < i {
                        assert(starts(s)[j + 1] < starts(s)[i]);
                    }
                }
                assert(false);
            }
            assert(beats(s)[i + 1] <= beats(s)[j]) by {
                if i + 1 < j {
                    assert(beats(s)[i + 1] < beats(s)[j]);
                }
            }
        }
    }
}

/// The frames of a stretch of `ticks` ticks at a tempo of `milli`.
fn stretch_frames(ticks: i64, milli: u32) -> (frames: i64)
    requires
        -2 * MAX_TICKS <= ticks <= 2 * MAX_TICKS,
        MIN_BPM_MILLI <= milli <= MAX_BPM_MILLI,
    ensures
        frames == frames_for(ticks as int, milli as int),
{
    proof {
        lemma_frames_bounds(ticks as int, milli as int);
    }
    if ticks >= 0 {
        let n: u128 = (ticks as u128) * (TICK_SCALE as u128);
        let d: u128 = milli as u128;
        let c: u128 = (n + d - 1) / d;
        proof {
            lemma_floor(n + d - 1, d as int);
            lemma_ceil_is(n as int, d as int, c as int);
        }
        c as i64
    } else {
        let n: u128 = ((-ticks) as u128) * (TICK_SCALE as u128);
        let d: u128 = milli as u128;
        let q: u128 = n / d;
        proof {
            assert(-(ticks * TICK_SCALE) == n);
            lemma_floor(n as int, d as int);
        }
        -(q as i64)
    }
}

/// The ticks that have been completed after `frames` frames at a tempo of
/// `milli`.
fn completed_ticks(frames: i128, milli: u32) -> (ticks: i128)
    requires
        -0x1_0000_0000_0000_0000 <= frames <= 0x1_0000_0000_0000_0000,
        MIN_BPM_MILLI <= milli <= MAX_BPM_MILLI,
    ensures
        ticks == ticks_for(frames as int, milli as int),
        -0x1_0000_0000_0000_0000 <= ticks <= 0x1_0000_0000_0000_0000,
{
    assert(-0x1_0000_0000_0000_0000_0000_0000 <= (frames as int) * (milli as int)
        <= 0x1_0000_0000_0000_0000_0000_0000) by (nonlinear_arith)
        requires
            -0x1_0000_0000_0000_0000 <= frames as int <= 0x1_0000_0000_0000_0000,
            1000 <= milli as int <= 2_756_250,
    ;
    if frames >= 0 {
        let n: i128 = frames * (milli as i128);
        let q: i128 = n / (TICK_SCALE as i128);
        proof {
            lemma_floor(n as int, TICK_SCALE as int);
            assert(q <= frames) by (nonlinear_arith)
                requires
                    q * 2_756_250 <= frames * milli,
                    1000 <= milli <= 2_756_250,
                    frames >= 0,
            ;
        }
        q
    } else {
        assert(0 <= (-(frames as int)) * (milli as int) <= 0x1_0000_0000_0000_0000_0000_0000)
            by (nonlinear_arith)
            requires
                -0x1_0000_0000_0000_0000 <= frames as int,
                (frames as int) < 0,
                1000 <= milli as int <= 2_756_250,
        ;
        let n: i128 = (-frames) * (milli as i128);
        let c: i128 = (n + (TICK_SCALE as i128) - 1) / (TICK_SCALE as i128);
        proof {
            lemma_floor(n + TICK_SCALE - 1, TICK_SCALE as int);
            assert((-c) * 2_756_250 == -(c * 2_756_250)) by (nonlinear_arith);
            assert(frames * milli == -n) by (nonlinear_arith)
                requires
                    n == (-frames) * milli,
            ;
            lemma_floor_is(frames * milli, TICK_SCALE as int, -c);
            assert(c <= -frames) by (nonlinear_arith)
                requires
                    c * 2_756_250 - 2_756_250 < (-frames) * milli,
                    1000 <= milli <= 2_756_250,
                    frames < 0,
            ;
        }
        -c
    }
}

/// An ordered set of tempo changes. It always holds an event, and never two
/// at one beat.
pub struct TempoMap {
    events: Vec<TempoEvent>,
}

impl View for TempoMap {
    type V = Seq<TempoPoint>;

    /// The events in the order of their beats.
    closed spec fn view(&self) -> Seq<TempoPoint> {
        Seq::new(self.events@.len(), |i: int| self.events@[i]@)
    }
}

impl TempoMap {
    #[verifier::type_invariant]
    pub open spec fn is_valid(&self) -> bool {
        valid_map(self@)
    }

    /// The map of a single tempo: `DEFAULT_BPM_MILLI` from beat 0 on.
    pub fn new() -> (map: TempoMap)
        ensures
            map@ == seq![TempoPoint { ticks: 0, milli: DEFAULT_BPM_MILLI as int }],
            valid_map(map@),
    {
        let beat = Beat::from_beats(0);
        let bpm = Bpm { milli: DEFAULT_BPM_MILLI };
        let mut events: Vec<TempoEvent> = Vec::new();
        events.push(TempoEvent { beat, bpm });
        let map = TempoMap { events };
        assert(map@ =~= seq![TempoPoint { ticks: 0, milli: DEFAULT_BPM_MILLI as int }]);
        map
    }

    /// The map with the events of `events`, if they are a map: at least one
    /// event, in strictly increasing order of their beats.
    pub fn from_events(events: Vec<TempoEvent>) -> (r: Option<TempoMap>)
        ensures
            r.is_some() <==> events@.len() >= 1 && strictly_sorted(
                Seq::new(events@.len(), |i: int| events@[i]@),
            ),
            r matches Some(map) ==> map@ == Seq::new(events@.len(), |i: int| events@[i]@),
    {
        let ghost points = Seq::new(events@.len(), |i: int| events@[i]@);
        let n = events.len();
        if n == 0 {
            return None;
        }
        let first_ticks = events[0].beat.ticks();
        let first_milli = events[0].bpm.milli();
        for i in 1..n
            invariant
                n == events@.len(),
                n >= 1,
                points == Seq::new(events@.len(), |i: int| events@[i]@),
                forall|a: int, b: int| 0 <= a < b < i ==> points[a].ticks < points[b].ticks,
                forall|a: int|
                    0 <= a < i ==> -MAX_TICKS <= (#[trigger] points[a]).ticks <= MAX_TICKS
                        && MIN_BPM_MILLI <= points[a].milli <= MAX_BPM_MILLI,
        {
            let before = events[i - 1].beat.ticks();
            let here = events[i].beat.ticks();
            let milli = events[i].bpm.milli();
            if before >= here {
                proof {
                    assert(beats(points)[i - 1] == before && beats(points)[i as int] == here);
                }
                return None;
            }
            assert forall|a: int, b: int| 0 <= a < b < i + 1 implies points[a].ticks
                < points[b].ticks by {
                if b == i && a < i - 1 {
                    assert(points[a].ticks < points[i - 1].ticks);
                }
            }
        }
        assert(strictly_sorted(points)) by {
            assert forall|a: int, b: int| 0 <= a < b < beats(points).len() implies beats(
                points,
            )[a] < beats(points)[b] by {
                assert(points[a].ticks < points[b].ticks);
            }
        }
        let map = TempoMap { events };
        assert(map@ =~= points);
        Some(map)
    }

    /// The events of the map in the order of their beats.
    pub fn events(&self) -> (events: Vec<TempoEvent>)
        ensures
            Seq::new(events@.len(), |i: int| events@[i]@) == self@,
            valid_map(self@),
    {
        proof {
            use_type_invariant(self);
        }
        let mut events: Vec<TempoEvent> = Vec::new();
        for i in 0..self.events.len()
            invariant
                events@ == self.events@.take(i as int),
        {
            events.push(self.events[i]);
            assert(events@ =~= self.events@.take(i + 1));
        }
        assert(events@ =~= self.events@);
        assert(Seq::new(events@.len(), |i: int| events@[i]@) =~= self@);
        events
    }

    /// The map with `event` put in. An event that the map holds at that beat
    /// is replaced; the map stays sorted by beat with no beat twice.
    pub fn with_event(&self, event: TempoEvent) -> (map: TempoMap)
        ensures
            map@ == inserted(self@, event@),
            valid_map(map@),
    {
        proof {
            use_type_invariant(self);
        }
        let ticks = event.beat.ticks();
        let milli = event.bpm.milli();
        let n = self.events.len();
        let mut events: Vec<TempoEvent> = Vec::new();
        let mut i: usize = 0;
        while i < n && self.events[i].beat.ticks() < ticks
            invariant
                i <= n,
                n == self.events@.len(),
                events@ == self.events@.take(i as int),
                forall|a: int| 0 <= a < i ==> beats(self@)[a] < ticks,
            decreases n - i,
        {
            events.push(self.events[i]);
            assert(events@ =~= self.events@.take(i + 1));
            i = i + 1;
        }
        proof {
            assert(i < n ==> beats(self@)[i as int] >= ticks);
            assert forall|a: int| i <= a < beats(self@).len() implies beats(self@)[a] >= ticks by {
                if a > i {
                    assert(beats(self@)[i as int] < beats(self@)[a]);
                }
            }
            lemma_rank_is(beats(self@), ticks as int, i as int);
        }
        events.push(event);
        let ghost k = i as int;
        if i < n && self.events[i].beat.ticks() == ticks {
            i = i + 1;
        }
        let rest = i;
        while i < n
            invariant
                rest <= i <= n,
                n == self.events@.len(),
                events@ == self.events@.take(k).push(event) + self.events@.subrange(
                    rest as int,
                    i as int,
                ),
            decreases n - i,
        {
            events.push(self.events[i]);
            assert(events@ =~= self.events@.take(k).push(event) + self.events@.subrange(
                rest as int,
                i + 1,
            ));
            i = i + 1;
        }
        let ghost points = Seq::new(events@.len(), |i: int| events@[i]@);
        proof {
            assert(points =~= inserted(self@, event@));
            lemma_inserted_sorted(self@, event@);
            assert forall|a: int| 0 <= a < points.len() implies -MAX_TICKS <= (
            #[trigger] points[a]).ticks <= MAX_TICKS && MIN_BPM_MILLI <= points[a].milli
                <= MAX_BPM_MILLI by {
                if a < k {
                    assert(points[a] == self@[a]);
                } else if a > k {
                    assert(points[a] == self@[a - k - 1 + rest]);
                }
            }
        }
        let map = TempoMap { events };
        assert(map@ =~= points);
        map
    }

    /// The frame of `beat`: the first frame at which the beat has been
    /// reached. The first event of the map is where audio time starts.
    pub fn beat_to_time(&self, beat: Beat) -> (time: i64)
        ensures
            time == time_of_beat(self@, beat@),
            valid_map(self@),
    {
        proof {
            use_type_invariant(self);
        }
        let ticks = beat.ticks();
        let n = self.events.len();
        let mut i: usize = 0;
        let mut start: i64 = 0;
        while i + 1 < n && self.events[i + 1].beat.ticks() <= ticks
            invariant
                i < n,
                n == self.events@.len(),
                valid_map(self@),
                start == start_time(self@, i as int),
                i == 0 || self@[i as int].ticks <= ticks,
                -MAX_TICKS <= ticks <= MAX_TICKS,
            decreases n - i,
        {
            proof {
                lemma_start_times(self@, 0, i as int);
                lemma_start_times(self@, 0, i + 1);
                lemma_start_times(self@, i as int, i + 1);
            }
            let stretch = self.events[i + 1].beat.ticks() - self.events[i].beat.ticks();
            start = start + stretch_frames(stretch, self.events[i].bpm.milli());
            i = i + 1;
        }
        proof {
            lemma_start_times(self@, 0, i as int);
            assert(i == 0 || beats(self@)[i as int] <= ticks);
            assert(i + 1 < n ==> ticks < beats(self@)[i + 1]);
            lemma_segment_is(beats(self@), ticks as int, i as int);
            lemma_frames_bounds(ticks - self@[i as int].ticks, self@[i as int].milli);
        }
        start + stretch_frames(ticks - self.events[i].beat.ticks(), self.events[i].bpm.milli())
    }

    /// The beat that has been reached at frame `time`: the last tick whose
    /// frame is at or before it. Beyond the end of musical time the result
    /// is the end.
    pub fn time_to_beat(&self, time: i64) -> (beat: Beat)
        ensures
            beat@ == clamped(beat_of_time(self@, time as int)),
            valid_map(self@),
    {
        Beat::saturating(self.reached(time))
    }

    /// The beat that has been reached at frame `time`, if that frame lies
    /// within musical time.
    pub fn beat_at(&self, time: i64) -> (r: Option<Beat>)
        ensures
            r.is_some() <==> -MAX_TICKS <= beat_of_time(self@, time as int) <= MAX_TICKS,
            r matches Some(beat) ==> beat@ == beat_of_time(self@, time as int),
            valid_map(self@),
    {
        let ticks = self.reached(time);
        if -(MAX_TICKS as i128) <= ticks && ticks <= MAX_TICKS as i128 {
            Beat::new(ticks as i64)
        } else {
            None
        }
    }

    /// The ticks that have been reached at frame `time`.
    fn reached(&self, time: i64) -> (ticks: i128)
        ensures
            ticks == beat_of_time(self@, time as int),
            valid_map(self@),
    {
        proof {
            use_type_invariant(self);
        }
        let n = self.events.len();
        let mut i: usize = 0;
        let mut start: i64 = 0;
        while i + 1 < n
            invariant_except_break
                i < n,
                n == self.events@.len(),
                valid_map(self@),
                start == start_time(self@, i as int),
                i == 0 || start <= time,
            ensures
                i < n,
                start == start_time(self@, i as int),
                i == 0 || start <= time,
                i + 1 < n ==> time < start_time(self@, i + 1),
            decreases n - i,
        {
            proof {
                lemma_start_times(self@, 0, i as int);
                lemma_start_times(self@, 0, i + 1);
                lemma_start_times(self@, i as int, i + 1);
            }
            let stretch = self.events[i + 1].beat.ticks() - self.events[i].beat.ticks();
            let next = start + stretch_frames(stretch, self.events[i].bpm.milli());
            if next > time {
                break ;
            }
            start = next;
            i = i + 1;
        }
        proof {
            lemma_start_times(self@, 0, i as int);
            lemma_starts_increasing(self@);
            assert(i == 0 || starts(self@)[i as int] <= time);
            assert(i + 1 < n ==> time < starts(self@)[i + 1]);
            lemma_segment_is(starts(self@), time as int, i as int);
        }
        let elapsed: i128 = (time as i128) - (start as i128);
        (self.events[i].beat.ticks() as i128) + completed_ticks(elapsed, self.events[i].bpm.milli())
    }
}

} // verus!
