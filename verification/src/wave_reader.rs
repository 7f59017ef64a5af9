//! The wave reader: turns a snapshot of the musical state into frames of
//! stereo PCM, one window after the other.
//!
//! What sounds at a frame depends on that frame alone: the beat that has
//! been reached at it picks the section, and of every note of every track
//! of that section the repetition that is under way. So windows neither
//! overlap nor leave a gap, however they are cut.

use crate::beat::{Beat, MAX_TICKS};
use crate::convolution::FRAMES_PER_BUFFER;
use crate::music_state::{MusicState, MusicStateView};
use crate::name_map::{lookup, NameMap};
use crate::note::{Note, NoteView};
use crate::phrase::note_views;
use crate::rounding::{lemma_floor, lemma_floor_is};
use crate::sample::Sample;
use crate::section::{section_of, Track, GAIN_UNIT};
use crate::tempo::{
    beat_of_time, lemma_reached, lemma_time_zero, time_of_beat, valid_map, TempoMap, TempoPoint,
};
use vstd::prelude::*;

verus! {

/// The last frame at which a window can start.
pub const LAST_POSITION: i64 = 0x7fff_ffff_ffff_0000;

/// `x`, or the end of the range of a PCM value where it lies beyond.
pub open spec fn clip(x: int) -> int {
    if x < i16::MIN {
        i16::MIN as int
    } else if x > i16::MAX {
        i16::MAX as int
    } else {
        x
    }
}

/// `pan`, or the end of the range of places where it lies beyond.
pub open spec fn place(pan: int) -> int {
    if pan < -GAIN_UNIT {
        -GAIN_UNIT as int
    } else if pan > GAIN_UNIT {
        GAIN_UNIT as int
    } else {
        pan
    }
}

/// The gain of a track in the left channel: its volume, lowered as the
/// track moves to the right of the middle.
pub open spec fn left_gain(vol: int, pan: int) -> int {
    if place(pan) > 0 {
        vol * (GAIN_UNIT - place(pan)) / (GAIN_UNIT as int)
    } else {
        vol
    }
}

/// The gain of a track in the right channel: its volume, lowered as the
/// track moves to the left of the middle.
pub open spec fn right_gain(vol: int, pan: int) -> int {
    if place(pan) < 0 {
        vol * (GAIN_UNIT + place(pan)) / (GAIN_UNIT as int)
    } else {
        vol
    }
}

/// A PCM value at a gain in thousandths, rounded down.
pub open spec fn scaled(value: int, gain: int) -> int {
    (value * gain) / (GAIN_UNIT as int)
}

/// A channel with a scaled value added, clipped to the range of PCM.
pub open spec fn mixed_in(acc: int, value: int, gain: int) -> int {
    clip(acc + scaled(value, gain))
}

/// What a note is played with at one frame.
pub struct Voice {
    /// The tempo map.
    pub tempo: Seq<TempoPoint>,
    /// The start of the section, in ticks.
    pub section_start: int,
    /// The length of the phrase, in ticks.
    pub length: int,
    /// The waveform.
    pub sample: Sample,
    /// The gain in the left channel.
    pub left: int,
    /// The gain in the right channel.
    pub right: int,
    /// The beat, in ticks, that has been reached at the frame.
    pub reached: int,
    /// The frame.
    pub time: int,
}

/// The frame of the waveform that a note has reached, if the note sounds.
///
/// The phrase repeats from the start of the section on, each time after
/// its length. A note sounds from its start within a repetition for its
/// duration, and no longer than to its start in the next repetition. The
/// waveform runs from the frame of the beat at which the note set in. A
/// note that set in before musical time began does not sound.
pub open spec fn note_offset(v: Voice, note: NoteView) -> Option<int> {
    let since = v.reached - v.section_start - note.start;
    if v.length <= 0 || since < 0 {
        None
    } else if since % v.length >= note.duration || v.reached - since % v.length < -MAX_TICKS {
        None
    } else {
        Some(v.time - time_of_beat(v.tempo, v.reached - since % v.length))
    }
}

/// The value of the waveform that a note has reached, if the note sounds
/// and the waveform reaches that far.
pub open spec fn note_value(v: Voice, note: NoteView) -> Option<int> {
    match note_offset(v, note) {
        Some(offset) => if offset <= usize::MAX {
            match v.sample.value(offset) {
                Some(value) => Some(value as int),
                None => None,
            }
        } else {
            None
        },
        None => None,
    }
}

/// The two channels with a note mixed in.
pub open spec fn mix_note(acc: (int, int), v: Voice, note: NoteView) -> (int, int) {
    match note_value(v, note) {
        Some(value) => (mixed_in(acc.0, value, v.left), mixed_in(acc.1, value, v.right)),
        None => acc,
    }
}

/// The two channels with the first `n` of `notes` mixed in, in their order.
pub open spec fn mix_notes(acc: (int, int), v: Voice, notes: Seq<NoteView>, n: nat) -> (int, int)
    decreases n,
{
    if n == 0 {
        acc
    } else {
        mix_note(mix_notes(acc, v, notes, (n - 1) as nat), v, notes[n - 1])
    }
}

/// The name of the instrument of a track: its own, or else the one in use.
pub open spec fn instrument_of(track: Track, in_use: Option<Seq<char>>) -> Option<Seq<char>> {
    match track.instrument {
        Some(name) => Some(name@),
        None => in_use,
    }
}

/// What is known of a frame when its tracks are mixed.
pub struct Moment {
    /// The musical state.
    pub state: MusicStateView,
    /// The instruments under their names.
    pub registry: Seq<(Seq<char>, Sample)>,
    /// The start of the section, in ticks.
    pub section_start: int,
    /// The beat, in ticks, that has been reached at the frame.
    pub reached: int,
    /// The frame.
    pub time: int,
}

/// What the notes of a track are played with. There is nothing where the
/// state holds no phrase of the track's name, or no instrument is named, or
/// none is registered under the name.
pub open spec fn voice_of(m: Moment, track: Track) -> Option<Voice> {
    match (lookup(m.state.phrases, track.phrase@), instrument_of(track, m.state.sf2)) {
        (Some(phrase), Some(name)) => match lookup(m.registry, name) {
            Some(sample) => Some(
                Voice {
                    tempo: m.state.tempo,
                    section_start: m.section_start,
                    length: phrase@.length,
                    sample,
                    left: left_gain(track.vol as int, track.pan as int),
                    right: right_gain(track.vol as int, track.pan as int),
                    reached: m.reached,
                    time: m.time,
                },
            ),
            None => None,
        },
        _ => None,
    }
}

/// The two channels with a track mixed in: all notes of its phrase, in
/// their order. A track that cannot be played adds nothing.
pub open spec fn mix_track(acc: (int, int), m: Moment, track: Track) -> (int, int) {
    match (voice_of(m, track), lookup(m.state.phrases, track.phrase@)) {
        (Some(v), Some(phrase)) => mix_notes(acc, v, phrase@.notes, phrase@.notes.len()),
        _ => acc,
    }
}

/// The two channels with the first `n` of `tracks` mixed in, in their
/// order.
pub open spec fn mix_tracks(acc: (int, int), m: Moment, tracks: Seq<(Seq<char>, Track)>, n: nat) -> (
    int,
    int,
)
    decreases n,
{
    if n == 0 {
        acc
    } else {
        mix_track(mix_tracks(acc, m, tracks, (n - 1) as nat), m, tracks[n - 1].1)
    }
}

/// The left and the right value of the frame at `time`.
///
/// The beat that has been reached at the frame picks the section: the last
/// one that starts at or before it. The tracks of that section are mixed,
/// each on top of the ones before. A frame beyond musical time, or before
/// the first section, is silent.
pub open spec fn frame_at(state: MusicStateView, registry: Seq<(Seq<char>, Sample)>, time: int) -> (
    int,
    int,
) {
    let reached = beat_of_time(state.tempo, time);
    if reached < -MAX_TICKS || reached > MAX_TICKS {
        (0, 0)
    } else {
        match section_of(state.sections, reached) {
            Some(i) => mix_tracks(
                (0, 0),
                Moment {
                    state,
                    registry,
                    section_start: state.sections[i].start,
                    reached,
                    time,
                },
                state.sections[i].tracks,
                state.sections[i].tracks.len(),
            ),
            None => (0, 0),
        }
    }
}

/// A note that sounds has set in at or before the frame: the place that it
/// has reached in its waveform is never before the start of the waveform.
pub proof fn lemma_offset(v: Voice, note: NoteView)
    requires
        valid_map(v.tempo),
        v.reached == beat_of_time(v.tempo, v.time),
    ensures
        note_offset(v, note) matches Some(offset) ==> offset >= 0,
{
    let since = v.reached - v.section_start - note.start;
    if v.length > 0 && since >= 0 {
        lemma_reached(v.tempo, v.reached - since % v.length, v.time);
    }
}

/// What is known of the frame at `time` when its tracks are mixed, where
/// the frame lies within musical time and in a section.
pub open spec fn moment_at(
    state: MusicStateView,
    registry: Seq<(Seq<char>, Sample)>,
    time: int,
) -> Option<Moment> {
    let reached = beat_of_time(state.tempo, time);
    if reached < -MAX_TICKS || reached > MAX_TICKS {
        None
    } else {
        match section_of(state.sections, reached) {
            Some(i) => Some(
                Moment { state, registry, section_start: state.sections[i].start, reached, time },
            ),
            None => None,
        }
    }
}

/// A frame that lies beyond musical time, or before the first section, is
/// silent.
pub proof fn lemma_silent_outside(
    state: MusicStateView,
    registry: Seq<(Seq<char>, Sample)>,
    time: int,
)
    requires
        moment_at(state, registry, time).is_none(),
    ensures
        frame_at(state, registry, time) == (0int, 0int),
{
}

/// Where one track plays one note, the frame is that note alone: silence
/// while the note does not sound, and its value at the gains of the track
/// while it does.
pub proof fn lemma_one_note(
    state: MusicStateView,
    registry: Seq<(Seq<char>, Sample)>,
    time: int,
    v: Voice,
    note: NoteView,
)
    requires
        moment_at(state, registry, time) matches Some(m) && ({
            let tracks = state.sections[section_of(state.sections, m.reached)->0].tracks;
            &&& tracks.len() == 1
            &&& voice_of(m, tracks[0].1) == Some(v)
            &&& lookup(state.phrases, tracks[0].1.phrase@) matches Some(phrase) && phrase@.notes
                == seq![note]
        }),
    ensures
        frame_at(state, registry, time) == mix_note((0, 0), v, note),
        note_value(v, note).is_none() ==> frame_at(state, registry, time) == (0int, 0int),
        note_value(v, note) matches Some(value) ==> frame_at(state, registry, time) == (
            clip(scaled(value, v.left)),
            clip(scaled(value, v.right)),
        ),
{
    let m = moment_at(state, registry, time)->0;
    let tracks = state.sections[section_of(state.sections, m.reached)->0].tracks;
    let phrase = lookup(state.phrases, tracks[0].1.phrase@)->0;
    reveal_with_fuel(mix_tracks, 2);
    reveal_with_fuel(mix_notes, 2);
    assert(mix_tracks((0, 0), m, tracks, 1) == mix_track((0, 0), m, tracks[0].1));
    assert(mix_notes((0, 0), v, phrase@.notes, 1) == mix_note((0, 0), v, note));
}

/// Once a note has lasted its duration it is silent, until the phrase
/// repeats.
pub proof fn lemma_note_has_ended(v: Voice, note: NoteView)
    requires
        v.length > 0,
        v.reached - v.section_start - note.start >= 0,
        (v.reached - v.section_start - note.start) % v.length >= note.duration,
    ensures
        note_value(v, note).is_none(),
{
}

/// At frame 0 a note that starts with its section, in a section that
/// starts with the tempo map, gives the first value of its waveform.
pub proof fn lemma_note_sets_in(v: Voice, note: NoteView)
    requires
        valid_map(v.tempo),
        v.time == 0,
        v.reached == beat_of_time(v.tempo, 0),
        v.section_start == v.tempo[0].ticks,
        note.start == 0,
        note.duration > 0,
        v.length > 0,
        v.sample.value(0) is Some,
    ensures
        note_value(v, note) == Some(v.sample.value(0)->0 as int),
{
    lemma_time_zero(v.tempo);
    let since = v.reached - v.section_start - note.start;
    assert(since == 0);
    vstd::arithmetic::div_mod::lemma_small_mod(0, v.length as nat);
    assert(since % v.length == 0);
    assert(note_offset(v, note) == Some(0int));
}

/// The frame at which the window after the one at `position` starts.
pub open spec fn advanced(position: int) -> int {
    if position + FRAMES_PER_BUFFER <= LAST_POSITION {
        position + FRAMES_PER_BUFFER
    } else {
        LAST_POSITION as int
    }
}

/// A channel with a scaled value added and clipped.
fn mix_in(acc: i16, value: i16, gain: u16) -> (r: i16)
    ensures
        r == mixed_in(acc as int, value as int, gain as int),
{
    assert(-0x8000 * 0xffff <= (value as int) * (gain as int) <= 0x7fff * 0xffff)
        by (nonlinear_arith)
        requires
            -0x8000 <= value as int <= 0x7fff,
            0 <= gain as int <= 0xffff,
    ;
    let product: i64 = (value as i64) * (gain as i64);
    let quotient: i64 = if product >= 0 {
        product / GAIN_UNIT
    } else {
        let up = (-product + GAIN_UNIT - 1) / GAIN_UNIT;
        proof {
            lemma_floor(-product + GAIN_UNIT - 1, GAIN_UNIT as int);
            lemma_floor_is(product as int, GAIN_UNIT as int, -up);
        }
        -up
    };
    proof {
        lemma_floor(product as int, GAIN_UNIT as int);
    }
    let sum = (acc as i64) + quotient;
    if sum < i16::MIN as i64 {
        i16::MIN
    } else if sum > i16::MAX as i64 {
        i16::MAX
    } else {
        sum as i16
    }
}

/// The gains of a track in the left and in the right channel.
fn gains(vol: u16, pan: i16) -> (r: (u16, u16))
    ensures
        r.0 == left_gain(vol as int, pan as int),
        r.1 == right_gain(vol as int, pan as int),
{
    let p: i64 = if (pan as i64) < -GAIN_UNIT {
        -GAIN_UNIT
    } else if (pan as i64) > GAIN_UNIT {
        GAIN_UNIT
    } else {
        pan as i64
    };
    let v = vol as i64;
    let left = if p > 0 {
        assert(0 <= v * (1000 - p) <= v * 1000) by (nonlinear_arith)
            requires
                0 <= v,
                0 < p <= 1000,
        ;
        proof {
            lemma_floor(v * (1000 - p), 1000);
        }
        v * (GAIN_UNIT - p) / GAIN_UNIT
    } else {
        v
    };
    let right = if p < 0 {
        assert(0 <= v * (1000 + p) <= v * 1000) by (nonlinear_arith)
            requires
                0 <= v,
                -1000 <= p < 0,
        ;
        proof {
            lemma_floor(v * (1000 + p), 1000);
        }
        v * (GAIN_UNIT + p) / GAIN_UNIT
    } else {
        v
    };
    (left as u16, right as u16)
}

/// What a note is played with at one frame, as the reader holds it.
struct Playing<'a> {
    tempo: &'a TempoMap,
    section_start: i64,
    length: i64,
    sample: &'a Sample,
    left: u16,
    right: u16,
    reached: i64,
    time: i64,
}

impl<'a> Playing<'a> {
    /// The beats lie within musical time, and the beat that has been
    /// reached is the one that the tempo map gives for the frame.
    spec fn wf(&self) -> bool {
        &&& -MAX_TICKS <= self.reached <= MAX_TICKS
        &&& -MAX_TICKS <= self.section_start <= MAX_TICKS
        &&& valid_map(self.tempo@)
        &&& self.reached == beat_of_time(self.tempo@, self.time as int)
    }
}

impl<'a> View for Playing<'a> {
    type V = Voice;

    closed spec fn view(&self) -> Voice {
        Voice {
            tempo: self.tempo@,
            section_start: self.section_start as int,
            length: self.length as int,
            sample: *self.sample,
            left: self.left as int,
            right: self.right as int,
            reached: self.reached as int,
            time: self.time as int,
        }
    }
}

/// The value of the waveform that a note has reached.
fn value_of_note(p: &Playing, note: &Note) -> (r: Option<i16>)
    requires
        p.wf(),
    ensures
        match r {
            Some(value) => note_value(p@, note@) == Some(value as int),
            None => note_value(p@, note@).is_none(),
        },
{
    let since = p.reached - p.section_start - note.start.ticks();
    if p.length <= 0 || since < 0 {
        return None;
    }
    let into = since % p.length;
    if into >= note.duration.ticks() {
        return None;
    }
    let onset = match Beat::new(p.reached - into) {
        Some(onset) => onset,
        None => {
            return None;
        },
    };
    let offset: i128 = (p.time as i128) - (p.tempo.beat_to_time(onset) as i128);
    proof {
        lemma_offset(p@, note@);
    }
    if offset > usize::MAX as i128 {
        return None;
    }
    p.sample.value_at(offset as usize)
}

/// The two channels with a note mixed in.
fn mix_note_in(acc: (i16, i16), p: &Playing, note: &Note) -> (r: (i16, i16))
    requires
        p.wf(),
    ensures
        (r.0 as int, r.1 as int) == mix_note((acc.0 as int, acc.1 as int), p@, note@),
{
    match value_of_note(p, note) {
        Some(value) => (mix_in(acc.0, value, p.left), mix_in(acc.1, value, p.right)),
        None => acc,
    }
}

/// The frame that is being rendered, as the reader holds it.
struct Instant<'a> {
    state: &'a MusicState,
    registry: &'a NameMap<Sample>,
    section_start: i64,
    reached: i64,
    time: i64,
}

impl<'a> Instant<'a> {
    /// The beats lie within musical time, and the beat that has been
    /// reached is the one that the tempo map gives for the frame.
    spec fn wf(&self) -> bool {
        &&& -MAX_TICKS <= self.reached <= MAX_TICKS
        &&& -MAX_TICKS <= self.section_start <= MAX_TICKS
        &&& valid_map(self.state@.tempo)
        &&& self.reached == beat_of_time(self.state@.tempo, self.time as int)
    }
}

impl<'a> View for Instant<'a> {
    type V = Moment;

    closed spec fn view(&self) -> Moment {
        Moment {
            state: self.state@,
            registry: self.registry@,
            section_start: self.section_start as int,
            reached: self.reached as int,
            time: self.time as int,
        }
    }
}

/// The two channels with a track mixed in.
fn mix_track_in(acc: (i16, i16), m: &Instant, track: &Track) -> (r: (i16, i16))
    requires
        m.wf(),
    ensures
        (r.0 as int, r.1 as int) == mix_track((acc.0 as int, acc.1 as int), m@, *track),
{
    let phrase = match m.state.phrase_map.get(&track.phrase) {
        Some(phrase) => phrase,
        None => {
            return acc;
        },
    };
    let name = match &track.instrument {
        Some(name) => name,
        None => match &m.state.sf2.sf2_name {
            Some(name) => name,
            None => {
                return acc;
            },
        },
    };
    let sample = match m.registry.get(name) {
        Some(sample) => sample,
        None => {
            return acc;
        },
    };
    let (left, right) = gains(track.vol, track.pan);
    let playing = Playing {
        tempo: &m.state.scheduling.bpm_schedule,
        section_start: m.section_start,
        length: phrase.length().ticks(),
        sample: &**sample,
        left,
        right,
        reached: m.reached,
        time: m.time,
    };
    assert(voice_of(m@, *track) == Some(playing@));
    let notes = phrase.notes();
    let ghost views = phrase@.notes;
    let mut mixed = acc;
    for i in 0..notes.len()
        invariant
            playing.wf(),
            views == note_views(notes@),
            (mixed.0 as int, mixed.1 as int) == mix_notes(
                (acc.0 as int, acc.1 as int),
                playing@,
                views,
                i as nat,
            ),
    {
        mixed = mix_note_in(mixed, &playing, &notes[i]);
    }
    mixed
}

/// The left and the right value of the frame at `time`.
fn render_frame(state: &MusicState, registry: &NameMap<Sample>, time: i64) -> (r: (i16, i16))
    ensures
        (r.0 as int, r.1 as int) == frame_at(state@, registry@, time as int),
{
    let reached = match state.scheduling.bpm_schedule.beat_at(time) {
        Some(reached) => reached,
        None => {
            return (0, 0);
        },
    };
    let place = match state.sections.section_at(reached) {
        Some(place) => place,
        None => {
            return (0, 0);
        },
    };
    let section = state.sections.section(place);
    let instant = Instant {
        state,
        registry,
        section_start: section.start.ticks(),
        reached: reached.ticks(),
        time,
    };
    let tracks = &section.tracks;
    let count = tracks.len();
    let mut mixed: (i16, i16) = (0, 0);
    for k in 0..count
        invariant
            count == tracks@.len(),
            instant.wf(),
            (mixed.0 as int, mixed.1 as int) == mix_tracks((0, 0), instant@, tracks@, k as nat),
    {
        mixed = mix_track_in(mixed, &instant, tracks.value_at(k));
    }
    mixed
}

/// The reader of waves: it holds the frame at which the next window starts.
pub struct WaveReader {
    position: i64,
}

impl WaveReader {
    #[verifier::type_invariant]
    spec fn in_time(&self) -> bool {
        self.position <= LAST_POSITION
    }

    /// The frame at which the next window starts.
    pub closed spec fn position(&self) -> int {
        self.position as int
    }

    /// A reader at frame 0.
    pub fn new() -> (reader: WaveReader)
        ensures
            reader.position() == 0,
    {
        WaveReader { position: 0 }
    }

    /// The frame at which the next window starts.
    pub fn get_position(&self) -> (position: i64)
        ensures
            position == self.position(),
            position <= LAST_POSITION,
    {
        proof {
            use_type_invariant(self);
        }
        self.position
    }

    /// Moves the reader: the next window starts at `frame`, or at the last
    /// position where `frame` lies beyond it.
    pub fn seek(&mut self, frame: i64)
        ensures
            final(self).position() == if frame <= LAST_POSITION {
                frame as int
            } else {
                LAST_POSITION as int
            },
    {
        self.position = if frame <= LAST_POSITION {
            frame
        } else {
            LAST_POSITION
        };
    }

    /// Renders the next window of `state`, with the instruments of
    /// `registry`, and moves on to the window after it.
    ///
    /// Each channel has `FRAMES_PER_BUFFER` frames; frame `f` is the frame
    /// at `f` past the position of the reader.
    pub fn render(&mut self, state: &MusicState, registry: &NameMap<Sample>) -> (out: (
        Vec<i16>,
        Vec<i16>,
    ))
        ensures
            out.0@.len() == FRAMES_PER_BUFFER,
            out.1@.len() == FRAMES_PER_BUFFER,
            forall|f: int|
                0 <= f < FRAMES_PER_BUFFER ==> (#[trigger] out.0@[f] as int, out.1@[f] as int)
                    == frame_at(state@, registry@, old(self).position() + f),
            final(self).position() == advanced(old(self).position()),
    {
        proof {
            use_type_invariant(&*self);
        }
        let start = self.position;
        let mut left: Vec<i16> = Vec::new();
        let mut right: Vec<i16> = Vec::new();
        for f in 0..FRAMES_PER_BUFFER
            invariant
                start <= LAST_POSITION,
                left@.len() == f,
                right@.len() == f,
                forall|g: int|
                    0 <= g < f ==> (#[trigger] left@[g] as int, right@[g] as int) == frame_at(
                        state@,
                        registry@,
                        start + g,
                    ),
        {
            let (l, r) = render_frame(state, registry, start + f as i64);
            left.push(l);
            right.push(r);
        }
        self.position = if start + FRAMES_PER_BUFFER as i64 <= LAST_POSITION {
            start + FRAMES_PER_BUFFER as i64
        } else {
            LAST_POSITION
        };
        (left, right)
    }
}

} // verus!
