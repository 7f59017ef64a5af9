use toid::beat::{Beat, MAX_TICKS};
use toid::tempo::{Bpm, TempoEvent, TempoMap, DEFAULT_BPM_MILLI, MAX_BPM_MILLI, MIN_BPM_MILLI};

fn event(beats: i32, milli: u32) -> TempoEvent {
    TempoEvent { beat: Beat::from_beats(beats), bpm: Bpm::new(milli).unwrap() }
}

fn points(map: &TempoMap) -> Vec<(i64, u32)> {
    map.events().iter().map(|e| (e.beat.ticks(), e.bpm.milli())).collect()
}

#[test]
fn bpm_range() {
    assert!(Bpm::new(0).is_none());
    assert!(Bpm::new(MIN_BPM_MILLI - 1).is_none());
    assert_eq!(Bpm::new(MIN_BPM_MILLI).unwrap().milli(), 1000);
    assert_eq!(Bpm::new(MAX_BPM_MILLI).unwrap().milli(), 2_756_250);
    assert!(Bpm::new(MAX_BPM_MILLI + 1).is_none());
}

#[test]
fn new_map_has_default_tempo_at_beat_zero() {
    assert_eq!(points(&TempoMap::new()), vec![(0, DEFAULT_BPM_MILLI)]);
}

#[test]
fn events_stay_sorted_and_replace_at_equal_beat() {
    let map = TempoMap::new()
        .with_event(event(16, 120_000))
        .with_event(event(8, 180_000))
        .with_event(event(-4, 90_000))
        .with_event(event(8, 60_000))
        .with_event(event(0, 100_000));
    assert_eq!(
        points(&map),
        vec![(-3840, 90_000), (0, 100_000), (7680, 60_000), (15360, 120_000)]
    );
}

#[test]
fn from_events_turns_down_what_is_no_map() {
    assert!(TempoMap::from_events(vec![]).is_none());
    assert!(TempoMap::from_events(vec![event(1, 120_000), event(1, 90_000)]).is_none());
    assert!(TempoMap::from_events(vec![event(2, 120_000), event(1, 90_000)]).is_none());
    let map = TempoMap::from_events(vec![event(1, 120_000), event(2, 90_000)]).unwrap();
    assert_eq!(points(&map), vec![(960, 120_000), (1920, 90_000)]);
}

#[test]
fn beat_to_time_at_constant_tempo() {
    let map = TempoMap::new();
    assert_eq!(map.beat_to_time(Beat::from_beats(0)), 0);
    assert_eq!(map.beat_to_time(Beat::from_beats(1)), 22050);
    assert_eq!(map.beat_to_time(Beat::from_beats(8)), 176400);
    assert_eq!(map.beat_to_time(Beat::new(1).unwrap()), 23);
    assert_eq!(map.beat_to_time(Beat::new(2).unwrap()), 46);
    assert_eq!(map.beat_to_time(Beat::new(480).unwrap()), 11025);
}

#[test]
fn beat_to_time_accumulates_segments() {
    let map = TempoMap::new().with_event(event(8, 180_000)).with_event(event(16, 120_000));
    assert_eq!(map.beat_to_time(Beat::from_beats(8)), 176400);
    assert_eq!(map.beat_to_time(Beat::from_beats(9)), 176400 + 14700);
    assert_eq!(map.beat_to_time(Beat::from_beats(16)), 176400 + 8 * 14700);
    assert_eq!(map.beat_to_time(Beat::from_beats(17)), 176400 + 8 * 14700 + 22050);
}

#[test]
fn tempo_extends_before_the_first_event_and_after_the_last() {
    let map = TempoMap::from_events(vec![event(4, 60_000), event(8, 120_000)]).unwrap();
    assert_eq!(map.beat_to_time(Beat::from_beats(4)), 0);
    assert_eq!(map.beat_to_time(Beat::from_beats(3)), -44100);
    assert_eq!(map.beat_to_time(Beat::from_beats(0)), -4 * 44100);
    assert_eq!(map.beat_to_time(Beat::from_beats(8)), 4 * 44100);
    assert_eq!(map.beat_to_time(Beat::from_beats(1000)), 4 * 44100 + 992 * 22050);
    assert_eq!(map.time_to_beat(-44100), Beat::from_beats(3));
    assert_eq!(map.time_to_beat(4 * 44100 + 992 * 22050), Beat::from_beats(1000));
}

#[test]
fn time_to_beat_gives_the_last_tick_reached() {
    let map = TempoMap::new();
    assert_eq!(map.time_to_beat(0).ticks(), 0);
    assert_eq!(map.time_to_beat(22).ticks(), 0);
    assert_eq!(map.time_to_beat(23).ticks(), 1);
    assert_eq!(map.time_to_beat(45).ticks(), 1);
    assert_eq!(map.time_to_beat(46).ticks(), 2);
    assert_eq!(map.time_to_beat(22050).ticks(), 960);
    assert_eq!(map.time_to_beat(-1).ticks(), -1);
    assert_eq!(map.time_to_beat(-22050).ticks(), -960);
    assert_eq!(map.time_to_beat(-22051).ticks(), -961);
}

#[test]
fn round_trip_gives_the_beat_back() {
    let map = TempoMap::new()
        .with_event(event(2, 1000))
        .with_event(event(3, MAX_BPM_MILLI))
        .with_event(event(5, 133_333))
        .with_event(event(-7, 77_777));
    let mut ticks = -20_000i64;
    while ticks < 20_000 {
        let beat = Beat::new(ticks).unwrap();
        assert_eq!(map.time_to_beat(map.beat_to_time(beat)), beat);
        assert_eq!(map.beat_at(map.beat_to_time(beat)), Some(beat));
        ticks += 7;
    }
    for ticks in [-MAX_TICKS, -MAX_TICKS + 1, MAX_TICKS - 1, MAX_TICKS] {
        let beat = Beat::new(ticks).unwrap();
        assert_eq!(map.time_to_beat(map.beat_to_time(beat)), beat);
    }
}

#[test]
fn beyond_musical_time_the_beat_is_its_end() {
    let map = TempoMap::from_events(vec![event(0, MAX_BPM_MILLI)]).unwrap();
    assert_eq!(map.time_to_beat(i64::MAX).ticks(), MAX_TICKS);
    assert_eq!(map.time_to_beat(i64::MIN).ticks(), -MAX_TICKS);
    assert_eq!(map.time_to_beat(MAX_TICKS).ticks(), MAX_TICKS);
    assert!(map.beat_at(MAX_TICKS + 1).is_none());
    assert!(map.beat_at(i64::MIN).is_none());
    assert_eq!(map.beat_at(MAX_TICKS).unwrap().ticks(), MAX_TICKS);
}

#[test]
fn later_beats_have_later_frames() {
    let map = TempoMap::new().with_event(event(1, MAX_BPM_MILLI)).with_event(event(2, 1000));
    let mut last = map.beat_to_time(Beat::new(-100).unwrap());
    for ticks in -99..3000 {
        let time = map.beat_to_time(Beat::new(ticks).unwrap());
        assert!(time > last);
        last = time;
    }
}

#[test]
fn tempo_changes_at_different_beats_commute() {
    let base = TempoMap::new().with_event(event(8, 180_000));
    for (first, second) in [(4, 2), (4, 12), (-3, 8), (0, 16)] {
        let a = base.with_event(event(first, 90_000)).with_event(event(second, 60_000));
        let b = base.with_event(event(second, 60_000)).with_event(event(first, 90_000));
        assert_eq!(points(&a), points(&b));
    }
}

#[test]
fn audio_time_starts_at_the_first_event() {
    let map = TempoMap::from_events(vec![event(-2, 90_000), event(3, 120_000)]).unwrap();
    assert_eq!(map.beat_to_time(Beat::from_beats(-2)), 0);
    assert_eq!(map.time_to_beat(0), Beat::from_beats(-2));
}
