//! The part of the musical state that schedules: the tempo map.

use crate::beat::Beat;
use crate::tempo::{inserted, valid_map, Bpm, TempoEvent, TempoMap, TempoPoint, DEFAULT_BPM_MILLI};
use vstd::prelude::*;

verus! {

/// The tempo of the music over its beats.
pub struct SchedulingState {
    pub bpm_schedule: TempoMap,
}

/// What can happen to the scheduling state.
#[derive(Clone, Copy, Debug, PartialEq, Eq, Structural)]
pub enum SchedulingStateEvent {
    /// From the beat on, the tempo is the given one.
    ChangeBPM(Beat, Bpm),
}

impl View for SchedulingStateEvent {
    type V = TempoPoint;

    /// The tempo change that the event asks for.
    open spec fn view(&self) -> TempoPoint {
        match *self {
            SchedulingStateEvent::ChangeBPM(beat, bpm) => TempoPoint { ticks: beat@, milli: bpm@ },
        }
    }
}

impl View for SchedulingState {
    type V = Seq<TempoPoint>;

    open spec fn view(&self) -> Seq<TempoPoint> {
        self.bpm_schedule@
    }
}

impl SchedulingState {
    /// The state of a single tempo: `DEFAULT_BPM_MILLI` from beat 0 on.
    pub fn new() -> (state: SchedulingState)
        ensures
            state@ == seq![TempoPoint { ticks: 0, milli: DEFAULT_BPM_MILLI as int }],
            valid_map(state@),
    {
        SchedulingState { bpm_schedule: TempoMap::new() }
    }

    /// The state after `event`: the tempo change is put into the map, in
    /// the place of the change at that beat if there is one.
    pub fn reduce(&self, event: SchedulingStateEvent) -> (state: SchedulingState)
        ensures
            state@ == inserted(self@, event@),
            valid_map(state@),
    {
        match event {
            SchedulingStateEvent::ChangeBPM(beat, bpm) => SchedulingState {
                bpm_schedule: self.bpm_schedule.with_event(TempoEvent { beat, bpm }),
            },
        }
    }
}

} // verus!
