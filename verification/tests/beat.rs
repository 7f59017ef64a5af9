use toid::beat::{Beat, MAX_BEATS, MAX_TICKS, TICKS_PER_BEAT};

#[test]
fn beat_range_is_whole_beats() {
    assert_eq!(MAX_TICKS, MAX_BEATS * TICKS_PER_BEAT);
    assert_eq!(Beat::new(MAX_TICKS).unwrap().ticks(), MAX_TICKS);
    assert_eq!(Beat::new(-MAX_TICKS).unwrap().ticks(), -MAX_TICKS);
    assert!(Beat::new(MAX_TICKS + 1).is_none());
    assert!(Beat::new(-MAX_TICKS - 1).is_none());
    assert_eq!(Beat::from_beats(i32::MIN).ticks(), -MAX_TICKS);
    assert_eq!(Beat::from_beats(3).ticks(), 2880);
    assert_eq!(Beat::from_beats(-2).ticks(), -1920);
}

#[test]
fn beat_arithmetic_is_exact() {
    let third = Beat::new(320).unwrap();
    let sum = third.checked_add(third).unwrap().checked_add(third).unwrap();
    assert_eq!(sum, Beat::from_beats(1));
    assert_eq!(third.checked_scale(3).unwrap(), Beat::from_beats(1));
    assert_eq!(Beat::from_beats(1).checked_sub(third).unwrap().ticks(), 640);
    assert_eq!(third.checked_scale(-6).unwrap(), Beat::from_beats(-2));
}

#[test]
fn beat_arithmetic_stops_at_the_range() {
    let top = Beat::new(MAX_TICKS).unwrap();
    let one = Beat::new(1).unwrap();
    assert!(top.checked_add(one).is_none());
    assert_eq!(top.checked_sub(one).unwrap().ticks(), MAX_TICKS - 1);
    assert!(Beat::new(-MAX_TICKS).unwrap().checked_sub(one).is_none());
    assert!(top.checked_scale(2).is_none());
    assert!(top.checked_scale(i32::MIN).is_none());
    assert_eq!(top.checked_scale(-1).unwrap().ticks(), -MAX_TICKS);
    assert_eq!(Beat::from_beats(1).checked_scale(i32::MAX).unwrap().ticks(), 960 * (i32::MAX as i64));
}

#[test]
fn beat_saturates_at_the_ends() {
    assert_eq!(Beat::saturating(5).ticks(), 5);
    assert_eq!(Beat::saturating(i128::MAX).ticks(), MAX_TICKS);
    assert_eq!(Beat::saturating(i128::MIN).ticks(), -MAX_TICKS);
    assert_eq!(Beat::saturating(-(MAX_TICKS as i128)).ticks(), -MAX_TICKS);
}

#[test]
fn beats_are_ordered_by_ticks() {
    assert!(Beat::from_beats(1) < Beat::from_beats(2));
    assert!(Beat::new(-1).unwrap() < Beat::new(0).unwrap());
    assert!(Beat::new(959).unwrap() < Beat::from_beats(1));
}
