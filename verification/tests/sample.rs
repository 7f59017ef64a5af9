use std::sync::Arc;
use toid::sample::{Sample, SampleError, SampleType};

fn ramp(len: usize) -> Arc<Vec<i16>> {
    Arc::new((0..len).map(|i| (i as i16) * 3 + 1).collect())
}

fn looped() -> Sample {
    Sample::new(ramp(40), 0, 10, 20, 30, 44100).unwrap()
}

#[test]
fn loop_indexing_wraps_at_loop_end() {
    let sample = looped();
    assert_eq!(sample.calculate_idx_of_sample_access(9), 9);
    assert_eq!(sample.calculate_idx_of_sample_access(10), 10);
    assert_eq!(sample.calculate_idx_of_sample_access(20), 10);
    assert_eq!(sample.calculate_idx_of_sample_access(25), 15);
}

#[test]
fn loop_indexing_counts_from_start() {
    let sample = Sample::new(ramp(40), 5, 8, 12, 20, 44100).unwrap();
    assert_eq!(sample.calculate_idx_of_sample_access(0), 5);
    assert_eq!(sample.calculate_idx_of_sample_access(2), 7);
    assert_eq!(sample.calculate_idx_of_sample_access(3), 8);
    assert_eq!(sample.calculate_idx_of_sample_access(6), 11);
    assert_eq!(sample.calculate_idx_of_sample_access(7), 8);
    assert_eq!(sample.calculate_idx_of_sample_access(7 + 4 * 1000 + 1), 9);
}

#[test]
fn from_flg_names_four_types() {
    assert!(matches!(SampleType::from_flg(1), Some(SampleType::Monoral)));
    assert!(matches!(SampleType::from_flg(2), Some(SampleType::Right)));
    assert!(matches!(SampleType::from_flg(4), Some(SampleType::Left)));
    assert!(matches!(SampleType::from_flg(8), Some(SampleType::LinkSample)));
    assert!(SampleType::from_flg(0).is_none());
    assert!(SampleType::from_flg(3).is_none());
    assert!(SampleType::from_flg(16).is_none());
    assert!(SampleType::from_flg(0xffff).is_none());
}

#[test]
fn get_sample_reads_one_value_for_each_frame() {
    let sample = looped();
    let got = sample.get_sample(8, 23);
    let data = ramp(40);
    let places = [8, 9, 10, 11, 12, 13, 14, 15, 16, 17, 18, 19, 10, 11, 12];
    assert_eq!(got.len(), 15);
    for (i, place) in places.iter().enumerate() {
        assert_eq!(got[i], data[*place]);
    }
}

#[test]
fn get_sample_wraps_round_a_loop_of_twenty_frames() {
    let sample = Sample::new(Arc::new((0..20).collect::<Vec<i16>>()), 0, 10, 20, 20, 44100).unwrap();
    assert_eq!(
        sample.get_sample(8, 23),
        vec![8, 9, 10, 11, 12, 13, 14, 15, 16, 17, 18, 19, 10, 11, 12]
    );
    assert_eq!(sample.get_sample(0, 20), (0..20).collect::<Vec<i16>>());
    assert_eq!(sample.get_sample(19, 22), vec![19, 10, 11]);
}

#[test]
fn get_sample_of_empty_range_is_empty() {
    let sample = looped();
    assert_eq!(sample.get_sample(4, 4), Vec::<i16>::new());
}

#[test]
fn value_at_is_total() {
    let sample = looped();
    let data = ramp(40);
    assert_eq!(sample.value_at(0), Some(data[0]));
    assert_eq!(sample.value_at(25), Some(data[15]));
    let unlooped = Sample::new(ramp(40), 2, 6, 6, 30, 44100).unwrap();
    assert_eq!(unlooped.value_at(3), Some(data[5]));
    assert_eq!(unlooped.value_at(4), None);
    let mut broken = looped();
    broken.loopend = 5;
    assert!(!broken.is_wf());
    assert_eq!(broken.value_at(0), None);
}

#[test]
fn new_turns_down_bad_offsets() {
    assert!(matches!(Sample::new(ramp(40), 11, 10, 20, 30, 44100), Err(SampleError::InvalidLoopBounds)));
    assert!(matches!(Sample::new(ramp(40), 0, 21, 20, 30, 44100), Err(SampleError::InvalidLoopBounds)));
    assert!(matches!(Sample::new(ramp(40), 0, 10, 31, 30, 44100), Err(SampleError::InvalidLoopBounds)));
    assert!(matches!(Sample::new(ramp(40), 0, 10, 20, 41, 44100), Err(SampleError::OutOfData)));
    let sample = Sample::new(ramp(40), 0, 0, 40, 40, 22050).unwrap();
    assert!(sample.is_wf());
    assert_eq!(sample.sample_rate, 22050);
    assert_eq!(sample.end, 40);
}
