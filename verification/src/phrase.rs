//! Phrases: a set of notes and the length after which the set repeats.

use crate::beat::Beat;
use crate::note::{comes_before, transposed, Note, NoteView};
use vstd::prelude::*;

verus! {

/// A phrase as numbers: its notes in their order, and its length in ticks.
pub struct PhraseView {
    pub notes: Seq<NoteView>,
    pub length: int,
}

/// The notes come in the order of notes, so none occurs twice.
pub open spec fn ordered(notes: Seq<NoteView>) -> bool {
    forall|i: int, j: int| 0 <= i < j < notes.len() ==> comes_before(notes[i], notes[j])
}

/// The notes of `v` as numbers.
pub open spec fn note_views(v: Seq<Note>) -> Seq<NoteView> {
    Seq::new(v.len(), |i: int| v[i]@)
}

/// A set of notes, kept in the order of notes, and a loop length.
pub struct Phrase {
    notes: Vec<Note>,
    length: Beat,
}

impl View for Phrase {
    type V = PhraseView;

    closed spec fn view(&self) -> PhraseView {
        PhraseView { notes: note_views(self.notes@), length: self.length@ }
    }
}

impl Phrase {
    /// The notes of a phrase are in order, none twice.
    #[verifier::type_invariant]
    pub open spec fn is_ordered(&self) -> bool {
        ordered(self@.notes)
    }

    /// The phrase without notes, of length zero.
    pub fn new() -> (phrase: Phrase)
        ensures
            phrase@.notes == Seq::<NoteView>::empty(),
            phrase@.length == 0,
    {
        let phrase = Phrase { notes: Vec::new(), length: Beat::from_beats(0) };
        assert(phrase@.notes =~= Seq::<NoteView>::empty());
        phrase
    }

    /// The phrase with `note` among its notes. A note that the phrase holds
    /// already is not added again.
    pub fn add_note(&self, note: Note) -> (phrase: Phrase)
        ensures
            phrase@.length == self@.length,
            phrase@.notes.to_set() == self@.notes.to_set().insert(note@),
            ordered(phrase@.notes),
    {
        proof {
            use_type_invariant(self);
        }
        let ghost old_notes = self@.notes;
        let n = self.notes.len();
        let mut notes: Vec<Note> = Vec::new();
        let mut i: usize = 0;
        while i < n && self.notes[i].comes_before(&note)
            invariant
                i <= n,
                n == self.notes@.len(),
                notes@ == self.notes@.take(i as int),
                forall|a: int| 0 <= a < i ==> comes_before(old_notes[a], note@),
                old_notes == note_views(self.notes@),
            decreases n - i,
        {
            notes.push(self.notes[i]);
            assert(notes@ =~= self.notes@.take(i + 1));
            i = i + 1;
        }
        let ghost k = i as int;
        let present = i < n && !note.comes_before(&self.notes[i]);
        if !present {
            notes.push(note);
        }
        let ghost head = notes@;
        while i < n
            invariant
                0 <= k <= i <= n,
                n == self.notes@.len(),
                notes@ == head + self.notes@.subrange(k, i as int),
            decreases n - i,
        {
            notes.push(self.notes[i]);
            assert(notes@ =~= head + self.notes@.subrange(k, i + 1));
            i = i + 1;
        }
        let ghost new_notes = note_views(notes@);
        proof {
            assert(self.notes@.subrange(k, n as int) =~= self.notes@.skip(k));
            if present {
                assert(old_notes[k] == note@);
                assert(notes@ =~= self.notes@);
                assert(new_notes =~= old_notes);
                assert(new_notes.to_set() =~= old_notes.to_set().insert(note@)) by {
                    assert(old_notes.contains(note@));
                }
            } else {
                assert forall|a: int, b: int| 0 <= a < b < new_notes.len() implies comes_before(
                    new_notes[a],
                    new_notes[b],
                ) by {
                    let x = if a < k {
                        old_notes[a]
                    } else if a == k {
                        note@
                    } else {
                        old_notes[a - 1]
                    };
                    let y = if b < k {
                        old_notes[b]
                    } else if b == k {
                        note@
                    } else {
                        old_notes[b - 1]
                    };
                    assert(new_notes[a] == x);
                    assert(new_notes[b] == y);
                    if k < n {
                        assert(comes_before(note@, old_notes[k]));
                        if b - 1 > k {
                            assert(comes_before(old_notes[k], old_notes[b - 1]));
                        }
                    }
                }
                assert(new_notes.to_set() =~= old_notes.to_set().insert(note@)) by {
                    assert forall|x: NoteView|
                        new_notes.contains(x) <==> old_notes.contains(x) || x == note@ by {
                        if new_notes.contains(x) {
                            let a = choose|a: int| 0 <= a < new_notes.len() && new_notes[a] == x;
                            if a < k {
                                assert(old_notes[a] == x);
                            } else if a > k {
                                assert(old_notes[a - 1] == x);
                            }
                        }
                        if old_notes.contains(x) {
                            let a = choose|a: int| 0 <= a < old_notes.len() && old_notes[a] == x;
                            if a < k {
                                assert(new_notes[a] == x);
                            } else {
                                assert(new_notes[a + 1] == x);
                            }
                        }
                        if x == note@ {
                            assert(new_notes[k] == x);
                        }
                    }
                }
            }
        }
        let phrase = Phrase { notes, length: self.length };
        assert(phrase@.notes == new_notes);
        phrase
    }

    /// The phrase with the same notes and the length `length`.
    pub fn set_length(&self, length: Beat) -> (phrase: Phrase)
        ensures
            phrase@.notes == self@.notes,
            phrase@.length == length@,
    {
        proof {
            use_type_invariant(self);
        }
        let mut notes: Vec<Note> = Vec::new();
        for i in 0..self.notes.len()
            invariant
                notes@ == self.notes@.take(i as int),
        {
            notes.push(self.notes[i]);
            assert(notes@ =~= self.notes@.take(i + 1));
        }
        assert(notes@ =~= self.notes@);
        Phrase { notes, length }
    }

    /// The notes of the phrase in their order.
    pub fn notes(&self) -> (notes: &Vec<Note>)
        ensures
            note_views(notes@) == self@.notes,
            ordered(self@.notes),
    {
        proof {
            use_type_invariant(self);
        }
        &self.notes
    }

    /// The length after which the phrase repeats.
    pub fn length(&self) -> (length: Beat)
        ensures
            length@ == self@.length,
    {
        self.length
    }
}

/// The notes `notes`, each moved in pitch by `cents`.
pub open spec fn transposed_notes(notes: Seq<NoteView>, cents: int) -> Seq<NoteView> {
    Seq::new(notes.len(), |i: int| transposed(notes[i], cents))
}

/// Every note of `notes` is still a pitch when moved by `cents`.
pub open spec fn can_transpose(notes: Seq<NoteView>, cents: int) -> bool {
    forall|i: int| 0 <= i < notes.len() ==> i32::MIN <= (#[trigger] notes[i]).pitch + cents <= i32::MAX
}

/// The phrase moved to another key: each note is moved in pitch by `key`
/// cents, and keeps its start and its duration; the length stays. There is
/// no such phrase where a note would leave the range of pitches.
pub fn change_key(phrase: Phrase, key: i32) -> (r: Option<Phrase>)
    ensures
        r.is_some() <==> can_transpose(phrase@.notes, key as int),
        r matches Some(moved) ==> moved@.notes == transposed_notes(phrase@.notes, key as int)
            && moved@.length == phrase@.length,
{
    proof {
        use_type_invariant(&phrase);
    }
    let ghost old_notes = phrase@.notes;
    let mut new_notes: Vec<Note> = Vec::new();
    for i in 0..phrase.notes.len()
        invariant
            old_notes == note_views(phrase.notes@),
            ordered(old_notes),
            new_notes@.len() == i,
            forall|a: int| 0 <= a < i ==> (#[trigger] new_notes@[a])@ == transposed(old_notes[a], key as int),
            forall|a: int| 0 <= a < i ==> i32::MIN <= (#[trigger] old_notes[a]).pitch + key <= i32::MAX,
    {
        match phrase.notes[i].transposed(key) {
            Some(note) => {
                new_notes.push(note);
            },
            None => {
                assert(!(i32::MIN <= old_notes[i as int].pitch + key <= i32::MAX));
                return None;
            },
        }
    }
    let new_length = phrase.length;
    proof {
        assert(note_views(new_notes@) =~= transposed_notes(old_notes, key as int));
        assert forall|a: int, b: int| 0 <= a < b < new_notes@.len() implies comes_before(
            note_views(new_notes@)[a],
            note_views(new_notes@)[b],
        ) by {
            assert(comes_before(old_notes[a], old_notes[b]));
        }
    }
    Some(Phrase { notes: new_notes, length: new_length })
}

} // verus!
