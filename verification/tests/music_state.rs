use std::sync::Arc;
use toid::beat::Beat;
use toid::music_state::{MusicState, MusicStateEvent, ReduceError, StateError};
use toid::note::{Note, Pitch};
use toid::phrase::Phrase;
use toid::scheduling_state::SchedulingStateEvent;
use toid::section::Track;
use toid::sf2_state::SF2StateEvent;
use toid::store::Store;
use toid::tempo::{Bpm, TempoEvent};

fn name(s: &str) -> String {
    String::from(s)
}

fn phrase(key: i16) -> Phrase {
    Phrase::new()
        .add_note(Note {
            pitch: Pitch::from_semitones(key),
            duration: Beat::from_beats(1),
            start: Beat::from_beats(0),
        })
        .set_length(Beat::from_beats(4))
}

fn tempo(beats: i32, milli: u32) -> MusicStateEvent {
    MusicStateEvent::SchedulingStateEvent(SchedulingStateEvent::ChangeBPM(
        Beat::from_beats(beats),
        Bpm::new(milli).unwrap(),
    ))
}

fn track(phrase: &str) -> Track {
    Track { phrase: name(phrase), instrument: None, vol: 1000, pan: 0 }
}

fn tempo_points(state: &MusicState) -> Vec<(i64, u32)> {
    state.scheduling.bpm_schedule.events().iter().map(|e| (e.beat.ticks(), e.bpm.milli())).collect()
}

fn phrase_names(state: &MusicState) -> Vec<String> {
    (0..state.phrase_map.len()).map(|i| state.phrase_map.name_at(i).clone()).collect()
}

fn section_starts(state: &MusicState) -> Vec<i64> {
    (0..state.sections.len()).map(|i| state.sections.section(i).start.ticks()).collect()
}

#[test]
fn new_state_holds_the_default_tempo_only() {
    let state = MusicState::new();
    assert_eq!(tempo_points(&state), vec![(0, 120_000)]);
    assert_eq!(state.phrase_map.len(), 0);
    assert!(state.sf2.sf2_name.is_none());
    assert_eq!(state.sections.len(), 0);
}

#[test]
fn new_phrase_adds_and_replaces() {
    let state = MusicState::new();
    let one = state.reduce(MusicStateEvent::NewPhrase(name("a"), phrase(60))).ok().unwrap();
    let two = one.reduce(MusicStateEvent::NewPhrase(name("b"), phrase(62))).ok().unwrap();
    let three = two.reduce(MusicStateEvent::NewPhrase(name("a"), phrase(64))).ok().unwrap();
    assert_eq!(phrase_names(&three), vec![name("a"), name("b")]);
    assert_eq!(three.phrase_map.get(&name("a")).unwrap().notes()[0].pitch.cents, 6400);
    assert_eq!(two.phrase_map.get(&name("a")).unwrap().notes()[0].pitch.cents, 6000);
    assert_eq!(state.phrase_map.len(), 0);
}

#[test]
fn tempo_events_keep_the_map_sorted_without_duplicates() {
    let mut state = MusicState::new();
    for (beats, milli) in [(8, 180_000), (16, 120_000), (4, 90_000), (8, 150_000), (0, 100_000), (-2, 60_000)] {
        state = state.reduce(tempo(beats, milli)).ok().unwrap();
        let points = tempo_points(&state);
        for pair in points.windows(2) {
            assert!(pair[0].0 < pair[1].0);
        }
    }
    assert_eq!(
        tempo_points(&state),
        vec![(-1920, 60_000), (0, 100_000), (3840, 90_000), (7680, 150_000), (15360, 120_000)]
    );
}

#[test]
fn sf2_event_sets_the_instrument_in_use() {
    let state = MusicState::new();
    let next = state.reduce(MusicStateEvent::SF2StateEvent(SF2StateEvent::SetSF2Name(name("piano")))).ok().unwrap();
    assert_eq!(next.sf2.sf2_name, Some(name("piano")));
    assert!(state.sf2.sf2_name.is_none());
}

#[test]
fn new_section_creates_once() {
    let state = MusicState::new()
        .reduce(MusicStateEvent::NewSection(Beat::from_beats(8))).ok().unwrap()
        .reduce(MusicStateEvent::NewSection(Beat::from_beats(0))).ok().unwrap()
        .reduce(MusicStateEvent::NewSection(Beat::from_beats(8))).ok().unwrap();
    assert_eq!(section_starts(&state), vec![0, 7680]);
}

#[test]
fn new_track_needs_its_section_and_its_phrase() {
    let state = MusicState::new().reduce(MusicStateEvent::NewPhrase(name("a"), phrase(60))).ok().unwrap();
    let no_section = state.reduce(MusicStateEvent::NewTrack(Beat::from_beats(0), name("lead"), track("a")));
    assert!(matches!(no_section, Err(ReduceError::UnknownSection)));
    let state = state.reduce(MusicStateEvent::NewSection(Beat::from_beats(0))).ok().unwrap();
    let no_phrase = state.reduce(MusicStateEvent::NewTrack(Beat::from_beats(0), name("lead"), track("b")));
    assert!(matches!(no_phrase, Err(ReduceError::UnknownPhrase)));
    let neither = state.reduce(MusicStateEvent::NewTrack(Beat::from_beats(1), name("lead"), track("b")));
    assert!(matches!(neither, Err(ReduceError::UnknownSection)));
    assert_eq!(state.sections.section(0).tracks.len(), 0);
    let bound = state.reduce(MusicStateEvent::NewTrack(Beat::from_beats(0), name("lead"), track("a"))).ok().unwrap();
    assert_eq!(bound.sections.section(0).tracks.len(), 1);
    assert_eq!(bound.sections.section(0).tracks.name_at(0), "lead");
    assert_eq!(bound.sections.section(0).tracks.value_at(0).phrase, "a");
    assert_eq!(state.sections.section(0).tracks.len(), 0);
}

#[test]
fn reduction_shares_what_it_does_not_change() {
    let state = MusicState::new().reduce(MusicStateEvent::NewPhrase(name("a"), phrase(60))).ok().unwrap();
    let next = state.reduce(tempo(4, 90_000)).ok().unwrap();
    assert!(Arc::ptr_eq(&state.phrase_map, &next.phrase_map));
    assert!(Arc::ptr_eq(&state.sf2, &next.sf2));
    assert!(Arc::ptr_eq(&state.sections, &next.sections));
    assert!(!Arc::ptr_eq(&state.scheduling, &next.scheduling));
}

#[test]
fn two_reductions_equal_one_fold() {
    let state = MusicState::new();
    let twice = state
        .reduce(tempo(8, 180_000)).ok().unwrap()
        .reduce(MusicStateEvent::NewPhrase(name("a"), phrase(60))).ok().unwrap();
    let once = state
        .reduce_all(vec![tempo(8, 180_000), MusicStateEvent::NewPhrase(name("a"), phrase(60))])
        .ok()
        .unwrap();
    let swapped = state
        .reduce_all(vec![MusicStateEvent::NewPhrase(name("a"), phrase(60)), tempo(8, 180_000)])
        .ok()
        .unwrap();
    for other in [&once, &swapped] {
        assert_eq!(tempo_points(&twice), tempo_points(other));
        assert_eq!(phrase_names(&twice), phrase_names(other));
        assert_eq!(
            twice.phrase_map.get(&name("a")).unwrap().notes().clone(),
            other.phrase_map.get(&name("a")).unwrap().notes().clone()
        );
    }
}

#[test]
fn a_fold_with_a_bad_event_applies_nothing() {
    let state = MusicState::new();
    let result = state.reduce_all(vec![
        tempo(8, 180_000),
        MusicStateEvent::NewTrack(Beat::from_beats(0), name("lead"), track("a")),
        tempo(16, 90_000),
    ]);
    assert!(matches!(result, Err(ReduceError::UnknownSection)));
    assert_eq!(tempo_points(&state), vec![(0, 120_000)]);
    assert!(matches!(state.reduce_all(vec![]), Ok(_)));
}

#[test]
fn snapshot_taken_before_a_reduction_keeps_its_data() {
    let mut store = Store::new(MusicState::new());
    let before = store.get_state();
    let replaced = store.update_state(tempo(8, 180_000)).ok().unwrap();
    let after = store.get_state();
    assert_eq!(tempo_points(&before), vec![(0, 120_000)]);
    assert_eq!(tempo_points(&replaced), vec![(0, 120_000)]);
    assert!(Arc::ptr_eq(&before, &replaced));
    assert_eq!(tempo_points(&after), vec![(0, 120_000), (7680, 180_000)]);
    store.update_state(MusicStateEvent::NewPhrase(name("a"), phrase(60))).ok().unwrap();
    assert_eq!(after.phrase_map.len(), 0);
    assert_eq!(store.get_state().phrase_map.len(), 1);
}

#[test]
fn store_keeps_its_snapshot_when_an_event_is_turned_down() {
    let mut store = Store::new(MusicState::new());
    let before = store.get_state();
    let result = store.update_state(MusicStateEvent::NewTrack(Beat::from_beats(0), name("lead"), track("a")));
    assert!(matches!(result, Err(ReduceError::UnknownSection)));
    assert!(Arc::ptr_eq(&before, &store.get_state()));
}

fn tempo_event(beats: i32, milli: u32) -> TempoEvent {
    TempoEvent { beat: Beat::from_beats(beats), bpm: Bpm::new(milli).unwrap() }
}

fn parts_ok() -> (
    Vec<TempoEvent>,
    Vec<(String, Phrase)>,
    Option<String>,
    Vec<(Beat, Vec<(String, Track)>)>,
) {
    (
        vec![tempo_event(0, 120_000), tempo_event(8, 90_000)],
        vec![(name("a"), phrase(60)), (name("b"), phrase(62))],
        Some(name("piano")),
        vec![
            (Beat::from_beats(0), vec![(name("lead"), track("a")), (name("bass"), track("b"))]),
            (Beat::from_beats(8), vec![(name("lead"), track("b"))]),
        ],
    )
}

#[test]
fn from_parts_makes_the_state_that_the_values_describe() {
    let (tempo, phrases, sf2, sections) = parts_ok();
    let state = MusicState::from_parts(tempo, phrases, sf2, sections).ok().unwrap();
    assert_eq!(tempo_points(&state), vec![(0, 120_000), (7680, 90_000)]);
    assert_eq!(phrase_names(&state), vec![name("a"), name("b")]);
    assert_eq!(state.phrase_map.get(&name("b")).unwrap().notes()[0].pitch.cents, 6200);
    assert_eq!(state.sf2.sf2_name, Some(name("piano")));
    assert_eq!(section_starts(&state), vec![0, 7680]);
    assert_eq!(state.sections.section(0).tracks.len(), 2);
    assert_eq!(state.sections.section(0).tracks.name_at(1), "bass");
    assert_eq!(state.sections.section(1).tracks.value_at(0).phrase, "b");
    let empty = MusicState::from_parts(vec![tempo_event(0, 120_000)], vec![], None, vec![]).ok().unwrap();
    assert_eq!(empty.sections.len(), 0);
    assert_eq!(empty.phrase_map.len(), 0);
}

#[test]
fn from_parts_turns_down_what_is_no_tempo_map() {
    let (_, phrases, sf2, sections) = parts_ok();
    assert!(matches!(
        MusicState::from_parts(vec![], phrases, sf2, sections),
        Err(StateError::TempoMapNotSorted)
    ));
    let (_, phrases, sf2, sections) = parts_ok();
    assert!(matches!(
        MusicState::from_parts(vec![tempo_event(8, 90_000), tempo_event(0, 120_000)], phrases, sf2, sections),
        Err(StateError::TempoMapNotSorted)
    ));
    let (_, phrases, sf2, sections) = parts_ok();
    assert!(matches!(
        MusicState::from_parts(vec![tempo_event(8, 90_000), tempo_event(8, 120_000)], phrases, sf2, sections),
        Err(StateError::TempoMapNotSorted)
    ));
}

#[test]
fn from_parts_turns_down_a_name_that_occurs_twice() {
    let (tempo, _, sf2, sections) = parts_ok();
    let phrases = vec![(name("a"), phrase(60)), (name("b"), phrase(62)), (name("a"), phrase(64))];
    assert!(matches!(MusicState::from_parts(tempo, phrases, sf2, sections), Err(StateError::NameTwice)));
    let (tempo, phrases, sf2, _) = parts_ok();
    let sections = vec![
        (Beat::from_beats(0), vec![(name("lead"), track("a"))]),
        (Beat::from_beats(8), vec![(name("lead"), track("a")), (name("lead"), track("b"))]),
    ];
    assert!(matches!(MusicState::from_parts(tempo, phrases, sf2, sections), Err(StateError::NameTwice)));
}

#[test]
fn from_parts_turns_down_sections_out_of_order() {
    for starts in [(8, 0), (4, 4)] {
        let (tempo, phrases, sf2, _) = parts_ok();
        let sections = vec![
            (Beat::from_beats(starts.0), vec![(name("lead"), track("a"))]),
            (Beat::from_beats(starts.1), vec![(name("lead"), track("b"))]),
        ];
        assert!(matches!(
            MusicState::from_parts(tempo, phrases, sf2, sections),
            Err(StateError::SectionsNotSorted)
        ));
    }
}

#[test]
fn from_parts_names_the_first_failure() {
    let twice = vec![(name("a"), phrase(60)), (name("a"), phrase(62))];
    let unordered = vec![(Beat::from_beats(8), vec![]), (Beat::from_beats(0), vec![])];
    assert!(matches!(
        MusicState::from_parts(vec![], twice, None, unordered),
        Err(StateError::TempoMapNotSorted)
    ));
    let twice = vec![(name("a"), phrase(60)), (name("a"), phrase(62))];
    let unordered = vec![(Beat::from_beats(8), vec![]), (Beat::from_beats(0), vec![])];
    assert!(matches!(
        MusicState::from_parts(vec![tempo_event(0, 120_000)], twice, None, unordered),
        Err(StateError::NameTwice)
    ));
}

fn track_names(state: &MusicState, section: usize) -> Vec<(String, String)> {
    let tracks = &state.sections.section(section).tracks;
    let mut names: Vec<(String, String)> =
        (0..tracks.len()).map(|i| (tracks.name_at(i).clone(), tracks.value_at(i).phrase.clone())).collect();
    names.sort();
    names
}

fn both_orders(state: &MusicState, e1: fn() -> MusicStateEvent, e2: fn() -> MusicStateEvent) -> (MusicState, MusicState) {
    (
        state.reduce_all(vec![e1(), e2()]).ok().unwrap(),
        state.reduce_all(vec![e2(), e1()]).ok().unwrap(),
    )
}

fn assert_same_music(a: &MusicState, b: &MusicState) {
    assert_eq!(tempo_points(a), tempo_points(b));
    assert_eq!(a.sf2.sf2_name, b.sf2.sf2_name);
    let mut names_a = phrase_names(a);
    let mut names_b = phrase_names(b);
    names_a.sort();
    names_b.sort();
    assert_eq!(names_a, names_b);
    for key in names_a {
        assert_eq!(
            a.phrase_map.get(&key).unwrap().notes().clone(),
            b.phrase_map.get(&key).unwrap().notes().clone()
        );
    }
    assert_eq!(section_starts(a), section_starts(b));
    for i in 0..a.sections.len() {
        assert_eq!(track_names(a, i), track_names(b, i));
    }
}

#[test]
fn independent_events_commute() {
    let base = MusicState::new()
        .reduce_all(vec![
            MusicStateEvent::NewPhrase(name("a"), phrase(60)),
            MusicStateEvent::NewPhrase(name("b"), phrase(62)),
            MusicStateEvent::NewSection(Beat::from_beats(0)),
            MusicStateEvent::NewSection(Beat::from_beats(8)),
        ])
        .ok()
        .unwrap();
    let pairs: Vec<(fn() -> MusicStateEvent, fn() -> MusicStateEvent)> = vec![
        (|| MusicStateEvent::NewPhrase(name("c"), phrase(64)), || MusicStateEvent::NewPhrase(name("d"), phrase(65))),
        (|| MusicStateEvent::NewPhrase(name("c"), phrase(64)), || tempo(4, 90_000)),
        (|| tempo(4, 90_000), || tempo(2, 60_000)),
        (|| tempo(4, 90_000), || MusicStateEvent::SF2StateEvent(SF2StateEvent::SetSF2Name(name("piano")))),
        (|| MusicStateEvent::NewSection(Beat::from_beats(4)), || MusicStateEvent::NewSection(Beat::from_beats(2))),
        (|| MusicStateEvent::NewSection(Beat::from_beats(4)), || MusicStateEvent::NewSection(Beat::from_beats(4))),
        (
            || MusicStateEvent::NewSection(Beat::from_beats(4)),
            || MusicStateEvent::NewTrack(Beat::from_beats(8), name("lead"), track("a")),
        ),
        (
            || MusicStateEvent::NewTrack(Beat::from_beats(0), name("lead"), track("a")),
            || MusicStateEvent::NewTrack(Beat::from_beats(8), name("lead"), track("b")),
        ),
        (
            || MusicStateEvent::NewTrack(Beat::from_beats(0), name("lead"), track("a")),
            || MusicStateEvent::NewTrack(Beat::from_beats(0), name("bass"), track("b")),
        ),
        (
            || MusicStateEvent::NewPhrase(name("c"), phrase(64)),
            || MusicStateEvent::NewTrack(Beat::from_beats(0), name("lead"), track("a")),
        ),
    ];
    for (e1, e2) in pairs {
        let (first, second) = both_orders(&base, e1, e2);
        assert_same_music(&first, &second);
    }
}

#[test]
fn events_that_get_in_each_others_way_do_not_commute() {
    let base = MusicState::new();
    let first = base.reduce_all(vec![tempo(4, 90_000), tempo(4, 60_000)]).ok().unwrap();
    let second = base.reduce_all(vec![tempo(4, 60_000), tempo(4, 90_000)]).ok().unwrap();
    assert_ne!(tempo_points(&first), tempo_points(&second));
    let opened_first = base.reduce_all(vec![
        MusicStateEvent::NewPhrase(name("a"), phrase(60)),
        MusicStateEvent::NewSection(Beat::from_beats(0)),
        MusicStateEvent::NewTrack(Beat::from_beats(0), name("lead"), track("a")),
    ]);
    let bound_first = base.reduce_all(vec![
        MusicStateEvent::NewPhrase(name("a"), phrase(60)),
        MusicStateEvent::NewTrack(Beat::from_beats(0), name("lead"), track("a")),
        MusicStateEvent::NewSection(Beat::from_beats(0)),
    ]);
    assert!(opened_first.is_ok());
    assert!(matches!(bound_first, Err(ReduceError::UnknownSection)));
}
