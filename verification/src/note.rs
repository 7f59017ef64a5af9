//! Notes: a pitch that sounds from a start beat for a duration.

use crate::beat::Beat;
use vstd::prelude::*;

verus! {

/// The number of cents in one semitone.
pub const CENTS_PER_SEMITONE: i32 = 100;

/// A pitch in cents: hundredths of a semitone, counted as key numbers are.
#[derive(Clone, Copy, Debug, PartialEq, Eq, PartialOrd, Ord, Hash, Structural)]
pub struct Pitch {
    pub cents: i32,
}

impl View for Pitch {
    type V = int;

    open spec fn view(&self) -> int {
        self.cents as int
    }
}

impl Pitch {
    /// The pitch of a key number.
    pub fn from_semitones(key: i16) -> (pitch: Pitch)
        ensures
            pitch@ == key * CENTS_PER_SEMITONE,
    {
        Pitch { cents: (key as i32) * CENTS_PER_SEMITONE }
    }

    /// The pitch moved by `cents`, if that is still a pitch.
    pub fn transposed(self, cents: i32) -> (r: Option<Pitch>)
        ensures
            r.is_some() <==> i32::MIN <= self@ + cents <= i32::MAX,
            r matches Some(pitch) ==> pitch@ == self@ + cents,
    {
        match self.cents.checked_add(cents) {
            Some(moved) => Some(Pitch { cents: moved }),
            None => None,
        }
    }
}

/// A note of a phrase. `start` is counted from the start of the phrase.
#[derive(Clone, Copy, Debug, PartialEq, Eq, Structural)]
pub struct Note {
    pub pitch: Pitch,
    pub duration: Beat,
    pub start: Beat,
}

/// A note as numbers: the pitch in cents, the duration and the start in
/// ticks.
pub struct NoteView {
    pub pitch: int,
    pub duration: int,
    pub start: int,
}

impl View for Note {
    type V = NoteView;

    open spec fn view(&self) -> NoteView {
        NoteView { pitch: self.pitch@, duration: self.duration@, start: self.start@ }
    }
}

/// The order of notes: by start, then by pitch, then by duration.
pub open spec fn comes_before(a: NoteView, b: NoteView) -> bool {
    ||| a.start < b.start
    ||| a.start == b.start && a.pitch < b.pitch
    ||| a.start == b.start && a.pitch == b.pitch && a.duration < b.duration
}

impl Note {
    /// Whether this note comes before `other` in the order of notes.
    pub fn comes_before(&self, other: &Note) -> (r: bool)
        ensures
            r == comes_before(self@, other@),
    {
        let start = self.start.ticks();
        let other_start = other.start.ticks();
        if start != other_start {
            return start < other_start;
        }
        if self.pitch.cents != other.pitch.cents {
            return self.pitch.cents < other.pitch.cents;
        }
        self.duration.ticks() < other.duration.ticks()
    }

    /// The note moved in pitch by `cents`, if that is still a pitch.
    pub fn transposed(&self, cents: i32) -> (r: Option<Note>)
        ensures
            r.is_some() <==> i32::MIN <= self@.pitch + cents <= i32::MAX,
            r matches Some(note) ==> note@ == transposed(self@, cents as int),
    {
        match self.pitch.transposed(cents) {
            Some(pitch) => Some(Note { pitch, duration: self.duration, start: self.start }),
            None => None,
        }
    }
}

/// The note `n` moved in pitch by `cents`.
pub open spec fn transposed(n: NoteView, cents: int) -> NoteView {
    NoteView { pitch: n.pitch + cents, duration: n.duration, start: n.start }
}

} // verus!
