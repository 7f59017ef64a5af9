use toid::beat::Beat;
use toid::note::{Note, Pitch};
use toid::phrase::{change_key, Phrase};

fn note(key: i16, start_ticks: i64, duration_ticks: i64) -> Note {
    Note {
        pitch: Pitch::from_semitones(key),
        duration: Beat::new(duration_ticks).unwrap(),
        start: Beat::new(start_ticks).unwrap(),
    }
}

#[test]
fn pitch_is_counted_in_cents() {
    assert_eq!(Pitch::from_semitones(60).cents, 6000);
    assert_eq!(Pitch::from_semitones(-1).cents, -100);
    assert_eq!(Pitch::from_semitones(60).transposed(-250).unwrap().cents, 5750);
    assert!(Pitch { cents: i32::MAX }.transposed(1).is_none());
    assert!(Pitch { cents: i32::MIN }.transposed(-1).is_none());
    assert_eq!(Pitch { cents: i32::MAX }.transposed(-1).unwrap().cents, i32::MAX - 1);
}

#[test]
fn notes_are_ordered_by_start_then_pitch_then_duration() {
    assert!(note(72, 0, 10).comes_before(&note(60, 1, 10)));
    assert!(!note(60, 1, 10).comes_before(&note(72, 0, 10)));
    assert!(note(60, 5, 99).comes_before(&note(61, 5, 1)));
    assert!(note(60, 5, 1).comes_before(&note(60, 5, 2)));
    assert!(!note(60, 5, 2).comes_before(&note(60, 5, 2)));
}

#[test]
fn new_phrase_is_empty() {
    let phrase = Phrase::new();
    assert!(phrase.notes().is_empty());
    assert_eq!(phrase.length().ticks(), 0);
}

#[test]
fn add_note_keeps_order_and_holds_no_note_twice() {
    let phrase = Phrase::new()
        .add_note(note(64, 960, 480))
        .add_note(note(60, 0, 480))
        .add_note(note(67, 960, 480))
        .add_note(note(60, 960, 480))
        .add_note(note(64, 960, 480))
        .add_note(note(64, 960, 240));
    let got: Vec<Note> = phrase.notes().clone();
    assert_eq!(
        got,
        vec![
            note(60, 0, 480),
            note(60, 960, 480),
            note(64, 960, 240),
            note(64, 960, 480),
            note(67, 960, 480),
        ]
    );
}

#[test]
fn add_note_leaves_the_phrase_it_was_called_on() {
    let before = Phrase::new().add_note(note(60, 0, 480));
    let after = before.add_note(note(62, 0, 480));
    assert_eq!(before.notes().len(), 1);
    assert_eq!(after.notes().len(), 2);
}

#[test]
fn set_length_keeps_the_notes() {
    let phrase = Phrase::new().add_note(note(60, 0, 480)).set_length(Beat::from_beats(4));
    assert_eq!(phrase.length(), Beat::from_beats(4));
    assert_eq!(phrase.notes().clone(), vec![note(60, 0, 480)]);
}

#[test]
fn change_key_moves_every_pitch_and_nothing_else() {
    let phrase = Phrase::new()
        .add_note(note(60, 0, 480))
        .add_note(note(64, 0, 480))
        .add_note(note(67, 960, 240))
        .set_length(Beat::from_beats(2));
    let moved = change_key(phrase, -200).unwrap();
    assert_eq!(
        moved.notes().clone(),
        vec![note(58, 0, 480), note(62, 0, 480), note(65, 960, 240)]
    );
    assert_eq!(moved.length(), Beat::from_beats(2));
}

#[test]
fn change_key_by_a_fraction_of_a_semitone() {
    let phrase = Phrase::new().add_note(note(60, 0, 480));
    let moved = change_key(phrase, 50).unwrap();
    assert_eq!(moved.notes()[0].pitch.cents, 6050);
}

#[test]
fn change_key_out_of_the_range_of_pitches() {
    let high = Note {
        pitch: Pitch { cents: i32::MAX - 10 },
        duration: Beat::from_beats(1),
        start: Beat::from_beats(1),
    };
    let phrase = Phrase::new().add_note(note(60, 0, 480)).add_note(high);
    assert!(change_key(phrase, 11).is_none());
    let phrase = Phrase::new().add_note(note(60, 0, 480)).add_note(high);
    assert_eq!(change_key(phrase, 10).unwrap().notes()[1].pitch.cents, i32::MAX);
    assert!(change_key(Phrase::new(), i32::MAX).is_some());
}
