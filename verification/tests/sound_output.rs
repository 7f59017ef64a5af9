use std::sync::Arc;
use toid::sound_output::{FlexState, SoundState, SoundStateEvent, SoundStateManager, SoundStateReduce};

fn assert_is_close(a: f32, b: f32, delta: f32) {
    if (a - b).abs() > delta {
        panic!("is not close: {} {}", a, b)
    }
}

fn sine(phase: u32) -> f32 {
    ((phase as f64) / 4294967296.0 * 2.0 * std::f64::consts::PI).sin() as f32
}

fn get_hertz_milli(pitch: i32) -> u32 {
    let hertz = (440 as f32) * (2.0 as f32).powf(((pitch - 69) as f32) / 12 as f32);
    (hertz * 1000.0).round() as u32
}

#[test]
fn state_works() {
    let initial_state = FlexState::ManualState(Arc::new(SoundState::new(512)));
    let manual_state = initial_state.unwrap_manual_state();
    assert_eq!(
        manual_state
            .get_by_address(String::from("phase"))
            .unwrap()
            .unwrap_phase(),
        0
    );
    assert_eq!(
        manual_state
            .get_by_address(String::from("pitch"))
            .unwrap()
            .unwrap_i32(),
        60
    );
    assert_eq!(
        manual_state
            .get_by_address(String::from("sound_on"))
            .unwrap()
            .unwrap_bool(),
        true
    );
    assert_eq!(
        manual_state
            .get_by_address(String::from("wave_length"))
            .unwrap()
            .unwrap_usize(),
        512
    );

    let mut manager = SoundStateManager::new(manual_state, SoundStateReduce {});
    manager.reduce(SoundStateEvent::ChangePitch(69));
    let manual_state = manager.get_state();
    let pitch = manual_state
        .get_by_address(String::from("pitch"))
        .unwrap()
        .unwrap_i32();
    assert_eq!(pitch, 69);

    let wave: Vec<f32> = manager.get_wave(get_hertz_milli(pitch)).iter().map(|p| sine(*p)).collect();

    let true_wave = [
        0., 0.06268834, 0.12537667, 0.188065, 0.25075334, 0.3134417, 0.37613, 0.43881837,
        0.5015067, 0.56419504,
    ];

    for i in 0..10 {
        assert_is_close(wave[i], true_wave[i], 0.03);
    }

    let manual_state = manager.get_state();
    let now_phase = manual_state
        .get_by_address(String::from("phase"))
        .unwrap()
        .unwrap_phase();
    assert_is_close((now_phase as f64 / 4294967296.0) as f32, 0.108390026, 0.01);
}

#[test]
fn wave_phases_are_exact() {
    let mut manager = SoundStateManager::new(Arc::new(SoundState::new(512)), SoundStateReduce {});
    let wave = manager.get_wave(440_000);
    assert_eq!(wave.len(), 512);
    assert_eq!(wave[0], 0);
    assert_eq!(wave[1], 42_852_281);
    assert_eq!(wave[2], 85_704_562);
    assert_eq!(wave[511], ((511u64 * 42_852_281) % 4_294_967_296) as u32);
    let phase = manager.get_state().get_by_address(String::from("phase")).unwrap().unwrap_phase();
    assert_eq!(phase, 465_531_392);
    let next = manager.get_wave(440_000);
    assert_eq!(next[0], 465_531_392);
    assert_eq!(next[1], 465_531_392 + 42_852_281);
}

#[test]
fn wave_is_silent_while_sound_is_off() {
    let mut manager = SoundStateManager::new(Arc::new(SoundState::new(8)), SoundStateReduce {});
    manager.reduce(SoundStateEvent::ChangePhase(1234));
    manager.reduce(SoundStateEvent::SoundOff);
    assert_eq!(manager.get_wave(440_000), vec![0u32; 8]);
    let state = manager.get_state();
    assert_eq!(state.get_by_address(String::from("phase")).unwrap().unwrap_phase(), 1234);
    assert_eq!(state.get_by_address(String::from("sound_on")).unwrap().unwrap_bool(), false);
    manager.reduce(SoundStateEvent::SoundOn);
    assert_eq!(manager.get_wave(0), vec![1234u32; 8]);
}

#[test]
fn addresses_name_the_four_fields() {
    let state = SoundState::new(16);
    for address in ["phase", "pitch", "sound_on", "wave_length"] {
        assert!(state.contains_address(String::from(address)));
    }
    for address in ["", "Phase", "phase ", "volume"] {
        assert!(!state.contains_address(String::from(address)));
        assert_eq!(state.get_by_address(String::from(address)).err(), Some(String::from("invalid address")));
        assert_eq!(
            state.update(String::from(address), FlexState::Bool(true)).err(),
            Some(String::from("invalid address"))
        );
    }
}

#[test]
fn update_sets_one_field_and_leaves_the_state() {
    let state = SoundState::new(16);
    let next = state.update(String::from("wave_length"), FlexState::Usize(32)).ok().unwrap().unwrap_manual_state();
    assert_eq!(next.get_by_address(String::from("wave_length")).unwrap().unwrap_usize(), 32);
    assert_eq!(next.get_by_address(String::from("pitch")).unwrap().unwrap_i32(), 60);
    assert_eq!(state.get_by_address(String::from("wave_length")).unwrap().unwrap_usize(), 16);
    let next = next.update(String::from("phase"), FlexState::Phase(77)).ok().unwrap().unwrap_manual_state();
    assert_eq!(next.get_by_address(String::from("phase")).unwrap().unwrap_phase(), 77);
    assert_eq!(next.get_by_address(String::from("wave_length")).unwrap().unwrap_usize(), 32);
}

#[test]
fn reduce_applies_each_event() {
    let reduce = SoundStateReduce {};
    let state = FlexState::ManualState(Arc::new(SoundState::new(4)));
    let state = reduce.reduce(state, SoundStateEvent::ChangePitch(72));
    let state = reduce.reduce(state, SoundStateEvent::SoundOff);
    let state = reduce.reduce(state, SoundStateEvent::ChangePhase(9));
    let manual = state.unwrap_manual_state();
    assert_eq!(manual.get_by_address(String::from("pitch")).unwrap().unwrap_i32(), 72);
    assert_eq!(manual.get_by_address(String::from("sound_on")).unwrap().unwrap_bool(), false);
    assert_eq!(manual.get_by_address(String::from("phase")).unwrap().unwrap_phase(), 9);
    let state = reduce.reduce(FlexState::ManualState(manual), SoundStateEvent::SoundOn);
    assert_eq!(state.unwrap_manual_state().get_by_address(String::from("sound_on")).unwrap().unwrap_bool(), true);
}

#[test]
fn a_sounding_wave_leaves_the_zero_crossing() {
    let mut manager = SoundStateManager::new(Arc::new(SoundState::new(512)), SoundStateReduce {});
    let wave = manager.get_wave(261_626);
    assert_eq!(wave.len(), 512);
    assert_eq!(wave[0], 0);
    assert_eq!(wave[1], 25_480_161);
    assert!(wave[1] % 2_147_483_648 != 0);
    assert!(sine(wave[1]) != 0.0);
    assert!(wave.iter().any(|phase| sine(*phase) != 0.0));
}
