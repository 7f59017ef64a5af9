//! A single oscillator as a state: its phase, its pitch, whether it sounds,
//! and how many frames a wave has. The fields are reached by name.
//!
//! A phase is a fraction of a cycle, counted in units of one cycle over
//! 2^32, so that adding phases wraps round the cycle by itself.

use crate::tempo::SAMPLE_RATE;
use std::sync::Arc;
use vstd::arithmetic::div_mod::lemma_add_mod_noop;
use vstd::prelude::*;
use vstd::string::StringExecFns;

verus! {

/// The number of phase units in one cycle.
pub open spec fn cycle() -> int {
    0x1_0000_0000
}

/// The phase that an oscillator of `hertz_milli` thousandths of a hertz
/// gains with each frame.
pub open spec fn phase_step(hertz_milli: int) -> int {
    ((hertz_milli * cycle()) / (SAMPLE_RATE * 1000)) % cycle()
}

/// The phase of an oscillator after `frames` frames, from `phase` on, with
/// `step` gained in each.
pub open spec fn phase_after(phase: int, step: int, frames: int) -> int {
    (phase + frames * step) % cycle()
}

/// `phase` is a whole number of half cycles: a place where the wave of the
/// oscillator crosses zero.
pub open spec fn at_zero_crossing(phase: int) -> bool {
    phase % (cycle() / 2) == 0
}

/// An oscillator that starts at phase 0 and gains less than half a cycle
/// with each frame has left the zero crossing at its second frame.
pub proof fn lemma_wave_leaves_zero(step: int)
    requires
        0 < step < cycle() / 2,
    ensures
        phase_after(0, step, 0) == 0,
        phase_after(0, step, 1) == step,
        !at_zero_crossing(phase_after(0, step, 1)),
{
    assert(cycle() / 2 == 0x8000_0000);
    assert(0 + 0 * step == 0 && 0 + 1 * step == step);
    assert(step % 0x1_0000_0000 == step);
    assert(step % 0x8000_0000 == step);
}

/// The state of the oscillator.
pub struct SoundState {
    phase: u32,
    pitch: i32,
    sound_on: bool,
    wave_length: usize,
}

/// A value of one of the kinds that the fields of a state have, or a state
/// itself.
pub enum FlexState {
    /// A phase, in units of one cycle over 2^32.
    Phase(u32),
    I32(i32),
    Bool(bool),
    Usize(usize),
    /// A state of the oscillator.
    ManualState(Arc<SoundState>),
}

/// `address` names the phase.
pub open spec fn is_phase(address: Seq<char>) -> bool {
    address == "phase"@
}

/// `address` names the pitch.
pub open spec fn is_pitch(address: Seq<char>) -> bool {
    address == "pitch"@
}

/// `address` names the switch that tells whether the oscillator sounds.
pub open spec fn is_sound_on(address: Seq<char>) -> bool {
    address == "sound_on"@
}

/// `address` names the length of a wave.
pub open spec fn is_wave_length(address: Seq<char>) -> bool {
    address == "wave_length"@
}

/// `address` names a field.
pub open spec fn is_address(address: Seq<char>) -> bool {
    is_phase(address) || is_pitch(address) || is_sound_on(address) || is_wave_length(address)
}

/// `value` is of the kind of the field that `address` names.
pub open spec fn fits(address: Seq<char>, value: FlexState) -> bool {
    &&& is_phase(address) ==> value is Phase
    &&& is_pitch(address) ==> value is I32
    &&& is_sound_on(address) ==> value is Bool
    &&& is_wave_length(address) ==> value is Usize
}

/// No two fields share a name.
proof fn lemma_names_differ()
    ensures
        "phase"@ != "pitch"@,
        "phase"@ != "sound_on"@,
        "phase"@ != "wave_length"@,
        "pitch"@ != "sound_on"@,
        "pitch"@ != "wave_length"@,
        "sound_on"@ != "wave_length"@,
{
    reveal_strlit("phase");
    reveal_strlit("pitch");
    reveal_strlit("sound_on");
    reveal_strlit("wave_length");
    assert("phase"@[1] != "pitch"@[1]);
    assert("phase"@.len() != "sound_on"@.len());
    assert("phase"@.len() != "wave_length"@.len());
    assert("pitch"@.len() != "sound_on"@.len());
    assert("pitch"@.len() != "wave_length"@.len());
    assert("sound_on"@.len() != "wave_length"@.len());
}

impl FlexState {
    /// The phase that the value is.
    pub fn unwrap_phase(&self) -> (phase: u32)
        requires
            self is Phase,
        ensures
            *self == FlexState::Phase(phase),
    {
        match self {
            FlexState::Phase(phase) => *phase,
            _ => 0,
        }
    }

    /// The number that the value is.
    pub fn unwrap_i32(&self) -> (n: i32)
        requires
            self is I32,
        ensures
            *self == FlexState::I32(n),
    {
        match self {
            FlexState::I32(n) => *n,
            _ => 0,
        }
    }

    /// The truth value that the value is.
    pub fn unwrap_bool(&self) -> (b: bool)
        requires
            self is Bool,
        ensures
            *self == FlexState::Bool(b),
    {
        match self {
            FlexState::Bool(b) => *b,
            _ => false,
        }
    }

    /// The size that the value is.
    pub fn unwrap_usize(&self) -> (n: usize)
        requires
            self is Usize,
        ensures
            *self == FlexState::Usize(n),
    {
        match self {
            FlexState::Usize(n) => *n,
            _ => 0,
        }
    }

    /// The state that the value is.
    pub fn unwrap_manual_state(self) -> (state: Arc<SoundState>)
        requires
            self is ManualState,
        ensures
            self == FlexState::ManualState(state),
    {
        match self {
            FlexState::ManualState(state) => state,
            _ => Arc::new(SoundState::new(0)),
        }
    }
}

impl SoundState {
    /// The phase at which the next wave starts.
    pub closed spec fn phase(&self) -> u32 {
        self.phase
    }

    /// The pitch as a key number.
    pub closed spec fn pitch(&self) -> i32 {
        self.pitch
    }

    /// Whether the oscillator sounds.
    pub closed spec fn sound_on(&self) -> bool {
        self.sound_on
    }

    /// The number of frames of a wave.
    pub closed spec fn wave_length(&self) -> usize {
        self.wave_length
    }

    /// The state with the field that `address` names set to `value`, and
    /// the state itself where `address` names none.
    pub open spec fn updated(&self, address: Seq<char>, value: FlexState) -> SoundState {
        if is_phase(address) {
            Self::of(value->Phase_0, self.pitch(), self.sound_on(), self.wave_length())
        } else if is_pitch(address) {
            Self::of(self.phase(), value->I32_0, self.sound_on(), self.wave_length())
        } else if is_sound_on(address) {
            Self::of(self.phase(), self.pitch(), value->Bool_0, self.wave_length())
        } else if is_wave_length(address) {
            Self::of(self.phase(), self.pitch(), self.sound_on(), value->Usize_0)
        } else {
            *self
        }
    }

    /// The state with these fields.
    pub closed spec fn of(phase: u32, pitch: i32, sound_on: bool, wave_length: usize) -> SoundState {
        SoundState { phase, pitch, sound_on, wave_length }
    }

    /// What the fields of `of` are.
    pub proof fn lemma_of(phase: u32, pitch: i32, sound_on: bool, wave_length: usize)
        ensures
            Self::of(phase, pitch, sound_on, wave_length).phase() == phase,
            Self::of(phase, pitch, sound_on, wave_length).pitch() == pitch,
            Self::of(phase, pitch, sound_on, wave_length).sound_on() == sound_on,
            Self::of(phase, pitch, sound_on, wave_length).wave_length() == wave_length,
    {
    }

    /// The state at the start: phase 0, pitch 60, sounding.
    pub fn new(wave_length: usize) -> (state: SoundState)
        ensures
            state == Self::of(0, 60, true, wave_length),
    {
        SoundState { phase: 0, pitch: 60, sound_on: true, wave_length }
    }

    /// The field that `address` names.
    pub fn get_by_address(&self, address: String) -> (r: Result<FlexState, String>)
        ensures
            is_phase(address@) ==> r == Ok::<FlexState, String>(FlexState::Phase(self.phase())),
            is_pitch(address@) ==> r == Ok::<FlexState, String>(FlexState::I32(self.pitch())),
            is_sound_on(address@) ==> r == Ok::<FlexState, String>(FlexState::Bool(self.sound_on())),
            is_wave_length(address@) ==> r == Ok::<FlexState, String>(
                FlexState::Usize(self.wave_length()),
            ),
            !is_address(address@) ==> (r matches Err(message) && message@ == "invalid address"@),
    {
        proof {
            lemma_names_differ();
        }
        if address == String::from_str("phase") {
            Ok(FlexState::Phase(self.phase))
        } else if address == String::from_str("pitch") {
            Ok(FlexState::I32(self.pitch))
        } else if address == String::from_str("sound_on") {
            Ok(FlexState::Bool(self.sound_on))
        } else if address == String::from_str("wave_length") {
            Ok(FlexState::Usize(self.wave_length))
        } else {
            Err(String::from_str("invalid address"))
        }
    }

    /// The state with the field that `address` names set to `value`. This
    /// state stays as it is.
    pub fn update(&self, address: String, value: FlexState) -> (r: Result<FlexState, String>)
        requires
            fits(address@, value),
        ensures
            is_address(address@) ==> (r matches Ok(FlexState::ManualState(state)) && *state
                == self.updated(address@, value)),
            !is_address(address@) ==> (r matches Err(message) && message@ == "invalid address"@),
    {
        proof {
            lemma_names_differ();
        }
        if address == String::from_str("phase") {
            Ok(
                FlexState::ManualState(
                    Arc::new(
                        SoundState {
                            phase: value.unwrap_phase(),
                            pitch: self.pitch,
                            sound_on: self.sound_on,
                            wave_length: self.wave_length,
                        },
                    ),
                ),
            )
        } else if address == String::from_str("pitch") {
            Ok(
                FlexState::ManualState(
                    Arc::new(
                        SoundState {
                            phase: self.phase,
                            pitch: value.unwrap_i32(),
                            sound_on: self.sound_on,
                            wave_length: self.wave_length,
                        },
                    ),
                ),
            )
        } else if address == String::from_str("sound_on") {
            Ok(
                FlexState::ManualState(
                    Arc::new(
                        SoundState {
                            phase: self.phase,
                            pitch: self.pitch,
                            sound_on: value.unwrap_bool(),
                            wave_length: self.wave_length,
                        },
                    ),
                ),
            )
        } else if address == String::from_str("wave_length") {
            Ok(
                FlexState::ManualState(
                    Arc::new(
                        SoundState {
                            phase: self.phase,
                            pitch: self.pitch,
                            sound_on: self.sound_on,
                            wave_length: value.unwrap_usize(),
                        },
                    ),
                ),
            )
        } else {
            Err(String::from_str("invalid address"))
        }
    }

    /// Whether `address` names a field.
    pub fn contains_address(&self, address: String) -> (r: bool)
        ensures
            r == is_address(address@),
    {
        address == String::from_str("phase") || address == String::from_str("pitch") || address
            == String::from_str("sound_on") || address == String::from_str("wave_length")
    }
}

/// What can happen to the oscillator.
#[derive(Clone, Copy, Debug, PartialEq, Eq, Structural)]
pub enum SoundStateEvent {
    /// The pitch is the given key number.
    ChangePitch(i32),
    /// The oscillator sounds.
    SoundOn,
    /// The oscillator is silent.
    SoundOff,
    /// The next wave starts at the given phase.
    ChangePhase(u32),
}

/// The state that `event` leads to from `state`.
pub open spec fn sound_reduced(state: SoundState, event: SoundStateEvent) -> SoundState {
    match event {
        SoundStateEvent::ChangePitch(pitch) => SoundState::of(
            state.phase(),
            pitch,
            state.sound_on(),
            state.wave_length(),
        ),
        SoundStateEvent::SoundOn => SoundState::of(
            state.phase(),
            state.pitch(),
            true,
            state.wave_length(),
        ),
        SoundStateEvent::SoundOff => SoundState::of(
            state.phase(),
            state.pitch(),
            false,
            state.wave_length(),
        ),
        SoundStateEvent::ChangePhase(phase) => SoundState::of(
            phase,
            state.pitch(),
            state.sound_on(),
            state.wave_length(),
        ),
    }
}

/// The reduction of the oscillator's state.
pub struct SoundStateReduce {}

impl SoundStateReduce {
    /// The state that `event` leads to from `state`: one field is set, the
    /// others stay.
    pub fn reduce(&self, state: FlexState, event: SoundStateEvent) -> (r: FlexState)
        requires
            state is ManualState,
        ensures
            r matches FlexState::ManualState(next) && *next == sound_reduced(
                *state->ManualState_0,
                event,
            ),
    {
        let current = state.unwrap_manual_state();
        proof {
            lemma_names_differ();
        }
        let result = match event {
            SoundStateEvent::ChangePitch(pitch) => current.update(
                String::from_str("pitch"),
                FlexState::I32(pitch),
            ),
            SoundStateEvent::SoundOn => current.update(
                String::from_str("sound_on"),
                FlexState::Bool(true),
            ),
            SoundStateEvent::SoundOff => current.update(
                String::from_str("sound_on"),
                FlexState::Bool(false),
            ),
            SoundStateEvent::ChangePhase(phase) => current.update(
                String::from_str("phase"),
                FlexState::Phase(phase),
            ),
        };
        match result {
            Ok(next) => next,
            Err(_) => FlexState::ManualState(current),
        }
    }
}

/// The holder of the oscillator's current state, and the source of its
/// waves.
pub struct SoundStateManager {
    state: Arc<SoundState>,
    reducer: SoundStateReduce,
}

impl SoundStateManager {
    /// The current state.
    pub closed spec fn state(&self) -> SoundState {
        *self.state
    }

    /// A manager whose current state is `state`.
    pub fn new(state: Arc<SoundState>, reducer: SoundStateReduce) -> (manager: SoundStateManager)
        ensures
            manager.state() == *state,
    {
        SoundStateManager { state, reducer }
    }

    /// The current state. It is shared, and never changes.
    pub fn get_state(&self) -> (state: Arc<SoundState>)
        ensures
            *state == self.state(),
    {
        self.state.clone()
    }

    /// Applies `event` to the current state and puts the state that it
    /// leads to in its place.
    pub fn reduce(&mut self, event: SoundStateEvent)
        ensures
            final(self).state() == sound_reduced(old(self).state(), event),
    {
        let next = self.reducer.reduce(FlexState::ManualState(self.state.clone()), event);
        self.state = next.unwrap_manual_state();
    }

    /// The phases of the next wave of an oscillator of `hertz_milli`
    /// thousandths of a hertz, one for each frame.
    ///
    /// While the oscillator sounds, each frame gains `phase_step` on the one
    /// before, and the phase after the last frame is kept for the next
    /// wave. While it does not sound, every phase is zero and the state
    /// stays.
    pub fn get_wave(&mut self, hertz_milli: u32) -> (wave: Vec<u32>)
        ensures
            wave@.len() == old(self).state().wave_length(),
            old(self).state().sound_on() ==> (forall|i: int|
                0 <= i < wave@.len() ==> #[trigger] wave@[i] == phase_after(
                    old(self).state().phase() as int,
                    phase_step(hertz_milli as int),
                    i,
                )),
            old(self).state().sound_on() ==> final(self).state() == sound_reduced(
                old(self).state(),
                SoundStateEvent::ChangePhase(
                    phase_after(
                        old(self).state().phase() as int,
                        phase_step(hertz_milli as int),
                        old(self).state().wave_length() as int,
                    ) as u32,
                ),
            ),
            !old(self).state().sound_on() ==> (forall|i: int|
                0 <= i < wave@.len() ==> #[trigger] wave@[i] == 0),
            !old(self).state().sound_on() ==> final(self).state() == old(self).state(),
    {
        let mut ret: Vec<u32> = Vec::new();
        let state = self.state.clone();
        let phase = state.phase;
        let sound_on = state.sound_on;
        let wave_length = state.wave_length;
        let step: u32 = (((hertz_milli as u64) * 0x1_0000_0000) / 44_100_000 % 0x1_0000_0000) as u32;

        if sound_on {
            let mut next_phase: u32 = phase;
            for wave_idx in 0..wave_length
                invariant
                    step == phase_step(hertz_milli as int),
                    ret@.len() == wave_idx,
                    next_phase == phase_after(phase as int, step as int, wave_idx as int),
                    forall|i: int|
                        0 <= i < wave_idx ==> #[trigger] ret@[i] == phase_after(
                            phase as int,
                            step as int,
                            i,
                        ),
            {
                ret.push(next_phase);
                proof {
                    let x = phase + wave_idx * step;
                    lemma_add_mod_noop(x, step as int, cycle());
                    assert((wave_idx + 1) * step == wave_idx * step + step) by (nonlinear_arith);
                }
                next_phase = (((next_phase as u64) + (step as u64)) % 0x1_0000_0000) as u32;
            }
            self.reduce(SoundStateEvent::ChangePhase(next_phase));
        } else {
            for wave_idx in 0..wave_length
                invariant
                    ret@.len() == wave_idx,
                    forall|i: int| 0 <= i < wave_idx ==> #[trigger] ret@[i] == 0,
            {
                ret.push(0);
            }
        }
        ret
    }
}

} // verus!
