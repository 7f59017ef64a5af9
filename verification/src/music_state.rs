//! The musical state and its reduction: every event gives a new state, and
//! the state it was applied to stays as it was.

use crate::beat::Beat;
use crate::name_map::{
    distinct, lemma_put, lemma_put_commutes, lookup, named, put, same_names, NameMap,
};
use crate::phrase::Phrase;
use crate::scheduling_state::{SchedulingState, SchedulingStateEvent};
use crate::section::{
    bound, lemma_bind_commutes, lemma_open_bind_commutes, lemma_opened_commutes, opened,
    same_sections, section_starts, section_views, tracks_distinct, Section, SectionMap,
    SectionView, Track,
};
use crate::sorted_keys::increasing;
use crate::sf2_state::{SF2State, SF2StateEvent};
use crate::tempo::{
    inserted, lemma_inserted_commutes, lemma_inserted_sorted, strictly_sorted, valid_map,
    TempoEvent, TempoMap, TempoPoint, DEFAULT_BPM_MILLI,
};
use std::sync::Arc;
use vstd::prelude::*;

verus! {

/// One version of the music: tempo, phrases, the instrument in use, and the
/// sections with their tracks. A state is never changed once it is made.
pub struct MusicState {
    pub scheduling: Arc<SchedulingState>,
    pub phrase_map: Arc<NameMap<Phrase>>,
    pub sf2: Arc<SF2State>,
    pub sections: Arc<SectionMap>,
}

/// What a state holds, as contracts see it.
pub struct MusicStateView {
    /// The tempo changes in the order of their beats.
    pub tempo: Seq<TempoPoint>,
    /// The phrases under their names.
    pub phrases: Seq<(Seq<char>, Phrase)>,
    /// The name of the instrument in use.
    pub sf2: Option<Seq<char>>,
    /// The sections in the order of their starts.
    pub sections: Seq<SectionView>,
}

impl View for MusicState {
    type V = MusicStateView;

    open spec fn view(&self) -> MusicStateView {
        MusicStateView {
            tempo: self.scheduling@,
            phrases: self.phrase_map@,
            sf2: self.sf2@,
            sections: self.sections@,
        }
    }
}

/// What can happen to the musical state.
pub enum MusicStateEvent {
    /// The phrase is kept under the name, in the place of the one that was
    /// there.
    NewPhrase(String, Phrase),
    /// The tempo changes.
    SchedulingStateEvent(SchedulingStateEvent),
    /// Another instrument is in use.
    SF2StateEvent(SF2StateEvent),
    /// A section starts at the beat.
    NewSection(Beat),
    /// The track is bound, under the name, into the section that starts at
    /// the beat.
    NewTrack(Beat, String, Track),
}

/// Why an event was turned down.
#[derive(Clone, Copy, Debug, PartialEq, Eq, Structural)]
pub enum ReduceError {
    /// No section starts at the beat that the event names.
    UnknownSection,
    /// No phrase is kept under the name that the track names.
    UnknownPhrase,
}

/// Why plain values are no state.
#[derive(Clone, Copy, Debug, PartialEq, Eq, Structural)]
pub enum StateError {
    /// There is no tempo event, or the beats of the tempo events are not
    /// strictly increasing.
    TempoMapNotSorted,
    /// A name occurs twice among the phrases, or among the tracks of a
    /// section.
    NameTwice,
    /// The starts of the sections are not strictly increasing.
    SectionsNotSorted,
}

/// The tempo events of `v`, as contracts see them.
pub open spec fn tempo_points(v: Seq<TempoEvent>) -> Seq<TempoPoint> {
    Seq::new(v.len(), |i: int| v[i]@)
}

/// The sections of `v`, each a start and its tracks, as contracts see them.
pub open spec fn section_parts(v: Seq<(Beat, Vec<(String, Track)>)>) -> Seq<SectionView> {
    Seq::new(v.len(), |i: int| SectionView { start: v[i].0@, tracks: named(v[i].1@) })
}

/// The tempo events are a tempo map: there is one, and their beats are
/// strictly increasing.
pub open spec fn tempo_ok(tempo: Seq<TempoPoint>) -> bool {
    tempo.len() >= 1 && strictly_sorted(tempo)
}

/// No name occurs twice among the phrases, nor among the tracks of any one
/// section.
pub open spec fn names_ok(phrases: Seq<(Seq<char>, Phrase)>, sections: Seq<SectionView>) -> bool {
    &&& distinct(phrases)
    &&& forall|i: int| 0 <= i < sections.len() ==> distinct(#[trigger] sections[i].tracks)
}

/// The state that `event` leads to from `state`, or the reason why the event
/// is turned down. An event that is turned down changes nothing.
pub open spec fn reduced(state: MusicStateView, event: MusicStateEvent) -> Result<
    MusicStateView,
    ReduceError,
> {
    match event {
        MusicStateEvent::NewPhrase(key, phrase) => Ok(
            MusicStateView { phrases: put(state.phrases, key@, phrase), ..state },
        ),
        MusicStateEvent::SchedulingStateEvent(e) => Ok(
            MusicStateView { tempo: inserted(state.tempo, e@), ..state },
        ),
        MusicStateEvent::SF2StateEvent(e) => Ok(MusicStateView { sf2: Some(e@), ..state }),
        MusicStateEvent::NewSection(beat) => Ok(
            MusicStateView { sections: opened(state.sections, beat@), ..state },
        ),
        MusicStateEvent::NewTrack(beat, name, track) => match bound(
            state.sections,
            beat@,
            name@,
            track,
        ) {
            None => Err(ReduceError::UnknownSection),
            Some(sections) => if lookup(state.phrases, track.phrase@).is_none() {
                Err(ReduceError::UnknownPhrase)
            } else {
                Ok(MusicStateView { sections, ..state })
            },
        },
    }
}

/// The state that `events`, applied one after the other, lead to from
/// `state`, or the reason why the first event that is turned down is.
pub open spec fn reduced_all(state: MusicStateView, events: Seq<MusicStateEvent>) -> Result<
    MusicStateView,
    ReduceError,
>
    decreases events.len(),
{
    if events.len() == 0 {
        Ok(state)
    } else {
        match reduced(state, events.first()) {
            Ok(next) => reduced_all(next, events.drop_first()),
            Err(error) => Err(error),
        }
    }
}

impl MusicState {
    /// Every state is valid: its parts keep their order and their names
    /// apart.
    fn is_valid(&self)
        ensures
            valid_state(self@),
            valid_map(self@.tempo),
    {
        let phrases: usize = self.phrase_map.len();
        let sections: usize = self.sections.len();
        proof {
            use_type_invariant(&self.scheduling.bpm_schedule);
        }
    }

    /// The state at the start: one tempo, no phrase, no instrument, no
    /// section.
    pub fn new() -> (state: MusicState)
        ensures
            valid_state(state@),
            state@ == (MusicStateView {
                tempo: seq![TempoPoint { ticks: 0, milli: DEFAULT_BPM_MILLI as int }],
                phrases: Seq::empty(),
                sf2: None,
                sections: Seq::empty(),
            }),
    {
        let state = MusicState {
            scheduling: Arc::new(SchedulingState::new()),
            phrase_map: Arc::new(NameMap::new()),
            sf2: Arc::new(SF2State::new()),
            sections: Arc::new(SectionMap::new()),
        };
        state.is_valid();
        state
    }

    /// The state that plain values describe: tempo events, phrases under
    /// their names, the name of the instrument in use, and sections, each a
    /// start and its tracks under their names.
    ///
    /// The values are a state where the tempo events are a tempo map, no
    /// name occurs twice among the phrases nor among the tracks of a
    /// section, and the sections come in strictly increasing order of their
    /// starts. Where they are none, the first of these that fails, in this
    /// order, is the error.
    #[verifier::loop_isolation(false)]
    pub fn from_parts(
        tempo: Vec<TempoEvent>,
        phrases: Vec<(String, Phrase)>,
        sf2: Option<String>,
        sections: Vec<(Beat, Vec<(String, Track)>)>,
    ) -> (r: Result<MusicState, StateError>)
        ensures
            match r {
                Ok(state) => {
                    &&& tempo_ok(tempo_points(tempo@))
                    &&& names_ok(named(phrases@), section_parts(sections@))
                    &&& increasing(section_starts(section_parts(sections@)))
                    &&& state@ == (MusicStateView {
                        tempo: tempo_points(tempo@),
                        phrases: named(phrases@),
                        sf2: match sf2 {
                            Some(name) => Some(name@),
                            None => None,
                        },
                        sections: section_parts(sections@),
                    })
                    &&& valid_map(state@.tempo)
                    &&& valid_state(state@)
                },
                Err(StateError::TempoMapNotSorted) => !tempo_ok(tempo_points(tempo@)),
                Err(StateError::NameTwice) => tempo_ok(tempo_points(tempo@)) && !names_ok(
                    named(phrases@),
                    section_parts(sections@),
                ),
                Err(StateError::SectionsNotSorted) => {
                    &&& tempo_ok(tempo_points(tempo@))
                    &&& names_ok(named(phrases@), section_parts(sections@))
                    &&& !increasing(section_starts(section_parts(sections@)))
                },
            },
    {
        let ghost parts = section_parts(sections@);
        let ghost points = tempo_points(tempo@);
        assert(points =~= Seq::new(tempo@.len(), |i: int| tempo@[i]@));
        let bpm_schedule = match TempoMap::from_events(tempo) {
            Some(map) => map,
            None => {
                return Err(StateError::TempoMapNotSorted);
            },
        };
        proof {
            use_type_invariant(&bpm_schedule);
            assert(tempo_ok(points));
        }
        let phrase_map = match NameMap::from_entries(phrases) {
            Some(map) => map,
            None => {
                return Err(StateError::NameTwice);
            },
        };
        let ghost given = sections@;
        let mut made: Vec<Section> = Vec::new();
        for part in it: sections
            invariant
                it.seq() == given,
                parts == section_parts(given),
                tempo_ok(points),
                made@.len() == it.index(),
                forall|a: int| 0 <= a < it.index() ==> (#[trigger] made@[a])@ == parts[a],
                forall|a: int| 0 <= a < it.index() ==> distinct(#[trigger] parts[a].tracks),
        {
            let (start, tracks) = part;
            let ghost place = it.index() as int;
            assert(parts[place].tracks == named(tracks@));
            match NameMap::from_entries(tracks) {
                Some(tracks) => {
                    made.push(Section { start, tracks });
                },
                None => {
                    assert(!distinct(parts[place].tracks));
                    return Err(StateError::NameTwice);
                },
            }
        }
        assert(section_views(made@) =~= parts);
        let section_map = match SectionMap::from_sections(made) {
            Some(map) => map,
            None => {
                return Err(StateError::SectionsNotSorted);
            },
        };
        Ok(
            MusicState {
                scheduling: Arc::new(SchedulingState { bpm_schedule }),
                phrase_map: Arc::new(phrase_map),
                sf2: Arc::new(SF2State { sf2_name: sf2 }),
                sections: Arc::new(section_map),
            },
        )
    }

    /// The state with `phrase` kept under `key`. The rest is shared with
    /// this state.
    pub fn new_phrase(&self, key: String, phrase: Phrase) -> (state: MusicState)
        ensures
            state@ == (MusicStateView { phrases: put(self@.phrases, key@, phrase), ..self@ }),
    {
        let new_phrase_map = self.phrase_map.with(key, Arc::new(phrase));
        MusicState {
            scheduling: self.scheduling.clone(),
            phrase_map: Arc::new(new_phrase_map),
            sf2: self.sf2.clone(),
            sections: self.sections.clone(),
        }
    }

    /// The state with the tempo change of `e` in its tempo map. The rest is
    /// shared with this state.
    pub fn scheduling_state_event(&self, e: SchedulingStateEvent) -> (state: MusicState)
        ensures
            state@ == (MusicStateView { tempo: inserted(self@.tempo, e@), ..self@ }),
            valid_map(state@.tempo),
    {
        let new_scheduling = Arc::new(self.scheduling.reduce(e));
        MusicState {
            scheduling: new_scheduling,
            phrase_map: self.phrase_map.clone(),
            sf2: self.sf2.clone(),
            sections: self.sections.clone(),
        }
    }

    /// The state with the instrument of `e` in use. The rest is shared with
    /// this state.
    pub fn sf2_state_event(&self, e: SF2StateEvent) -> (state: MusicState)
        ensures
            state@ == (MusicStateView { sf2: Some(e@), ..self@ }),
    {
        let new_sf2 = Arc::new(self.sf2.reduce(e));
        MusicState {
            scheduling: self.scheduling.clone(),
            phrase_map: self.phrase_map.clone(),
            sf2: new_sf2,
            sections: self.sections.clone(),
        }
    }

    /// The state with a section that starts at `start`. Where one starts
    /// there already, the state is the same.
    pub fn new_section(&self, start: Beat) -> (state: MusicState)
        ensures
            state@ == (MusicStateView { sections: opened(self@.sections, start@), ..self@ }),
    {
        let new_sections = Arc::new(self.sections.with_section(start));
        MusicState {
            scheduling: self.scheduling.clone(),
            phrase_map: self.phrase_map.clone(),
            sf2: self.sf2.clone(),
            sections: new_sections,
        }
    }

    /// The state with `track` bound under `name` into the section that
    /// starts at `start`. The event is turned down where no section starts
    /// there, and else where the state holds no phrase of the name that the
    /// track names.
    pub fn new_track(&self, start: Beat, name: String, track: Track) -> (r: Result<
        MusicState,
        ReduceError,
    >)
        ensures
            match r {
                Ok(state) => reduced(self@, MusicStateEvent::NewTrack(start, name, track)) == Ok::<
                    MusicStateView,
                    ReduceError,
                >(state@),
                Err(error) => reduced(self@, MusicStateEvent::NewTrack(start, name, track))
                    == Err::<MusicStateView, ReduceError>(error),
            },
    {
        let known = self.phrase_map.get(&track.phrase).is_some();
        match self.sections.with_track(start, name, Arc::new(track)) {
            None => Err(ReduceError::UnknownSection),
            Some(sections) => {
                if !known {
                    Err(ReduceError::UnknownPhrase)
                } else {
                    Ok(
                        MusicState {
                            scheduling: self.scheduling.clone(),
                            phrase_map: self.phrase_map.clone(),
                            sf2: self.sf2.clone(),
                            sections: Arc::new(sections),
                        },
                    )
                }
            },
        }
    }

    /// The state that `event` leads to, or the reason why the event is
    /// turned down. This state stays as it is either way.
    pub fn reduce(&self, event: MusicStateEvent) -> (r: Result<MusicState, ReduceError>)
        ensures
            match r {
                Ok(state) => reduced(self@, event) == Ok::<MusicStateView, ReduceError>(state@),
                Err(error) => reduced(self@, event) == Err::<MusicStateView, ReduceError>(error),
            },
            r matches Ok(state) ==> valid_map(state@.tempo) && valid_state(state@),
            valid_state(self@),
    {
        self.is_valid();
        let r = match event {
            MusicStateEvent::NewPhrase(key, phrase) => Ok(self.new_phrase(key, phrase)),
            MusicStateEvent::SchedulingStateEvent(e) => Ok(self.scheduling_state_event(e)),
            MusicStateEvent::SF2StateEvent(e) => Ok(self.sf2_state_event(e)),
            MusicStateEvent::NewSection(start) => Ok(self.new_section(start)),
            MusicStateEvent::NewTrack(start, name, track) => self.new_track(start, name, track),
        };
        match &r {
            Ok(state) => {
                state.is_valid();
            },
            Err(_) => {},
        }
        r
    }

    /// The state that `events`, applied one after the other, lead to, or the
    /// reason why the first event that is turned down is. Nothing of a
    /// sequence with such an event is applied.
    pub fn reduce_all(&self, events: Vec<MusicStateEvent>) -> (r: Result<MusicState, ReduceError>)
        ensures
            match r {
                Ok(state) => reduced_all(self@, events@) == Ok::<MusicStateView, ReduceError>(
                    state@,
                ),
                Err(error) => reduced_all(self@, events@) == Err::<MusicStateView, ReduceError>(
                    error,
                ),
            },
            r matches Ok(state) ==> valid_map(state@.tempo) && valid_state(state@),
            valid_state(self@),
    {
        self.is_valid();
        let mut state = MusicState {
            scheduling: self.scheduling.clone(),
            phrase_map: self.phrase_map.clone(),
            sf2: self.sf2.clone(),
            sections: self.sections.clone(),
        };
        let ghost all = events@;
        assert(all.skip(0) =~= all);
        for event in it: events
            invariant
                it.seq() == all,
                valid_map(state@.tempo),
                valid_state(state@),
                valid_state(self@),
                reduced_all(self@, all) == reduced_all(state@, all.skip(it.index() as int)),
        {
            let ghost rest = all.skip(it.index() as int);
            assert(rest.first() == event);
            assert(rest.drop_first() =~= all.skip(it.index() + 1));
            match state.reduce(event) {
                Ok(next) => {
                    state = next;
                },
                Err(error) => {
                    return Err(error);
                },
            }
        }
        Ok(state)
    }
}

/// Applying two runs of events one after the other is applying the one run
/// that they make together.
pub proof fn lemma_reduced_all_concat(
    state: MusicStateView,
    first: Seq<MusicStateEvent>,
    second: Seq<MusicStateEvent>,
)
    ensures
        reduced_all(state, first + second) == match reduced_all(state, first) {
            Ok(middle) => reduced_all(middle, second),
            Err(error) => Err(error),
        },
    decreases first.len(),
{
    if first.len() == 0 {
        assert(first + second =~= second);
    } else {
        assert((first + second).first() == first.first());
        assert((first + second).drop_first() =~= first.drop_first() + second);
        match reduced(state, first.first()) {
            Ok(next) => {
                lemma_reduced_all_concat(next, first.drop_first(), second);
            },
            Err(_) => {},
        }
    }
}

/// Two events applied by two reductions lead to the state that one
/// reduction of both leads to.
pub proof fn lemma_reduce_twice(state: MusicStateView, e1: MusicStateEvent, e2: MusicStateEvent)
    ensures
        reduced_all(state, seq![e1, e2]) == match reduced(state, e1) {
            Ok(middle) => reduced(middle, e2),
            Err(error) => Err(error),
        },
{
    reveal_with_fuel(reduced_all, 3);
    let both = seq![e1, e2];
    assert(both.first() == e1);
    assert(both.drop_first() =~= seq![e2]);
    assert(seq![e2].first() == e2);
    assert(seq![e2].drop_first().len() == 0);
}

/// Two events do not get in each other's way.
///
/// Phrases do not where their names differ, tempo changes where their beats
/// differ, tracks where their sections or their names differ. Opening a
/// section gets in the way of no other opening, and of a track only where
/// the track goes into that section. A phrase and a track get in each
/// other's way where the track names the phrase. Setting the instrument
/// gets in the way of setting it, and events of different kinds apart from
/// these never get in each other's way.
pub open spec fn independent(e1: MusicStateEvent, e2: MusicStateEvent) -> bool {
    match (e1, e2) {
        (MusicStateEvent::NewPhrase(k1, _), MusicStateEvent::NewPhrase(k2, _)) => k1@ != k2@,
        (
            MusicStateEvent::SchedulingStateEvent(c1),
            MusicStateEvent::SchedulingStateEvent(c2),
        ) => c1@.ticks != c2@.ticks,
        (MusicStateEvent::SF2StateEvent(_), MusicStateEvent::SF2StateEvent(_)) => false,
        (MusicStateEvent::NewPhrase(k, _), MusicStateEvent::NewTrack(_, _, track)) => k@
            != track.phrase@,
        (MusicStateEvent::NewTrack(_, _, track), MusicStateEvent::NewPhrase(k, _)) => k@
            != track.phrase@,
        (MusicStateEvent::NewSection(b), MusicStateEvent::NewTrack(start, _, _)) => b@ != start@,
        (MusicStateEvent::NewTrack(start, _, _), MusicStateEvent::NewSection(b)) => b@ != start@,
        (MusicStateEvent::NewTrack(b1, n1, _), MusicStateEvent::NewTrack(b2, n2, _)) => b1@ != b2@
            || n1@ != n2@,
        _ => true,
    }
}

/// Two states hold the same music: the same tempo map, the same instrument
/// in use, the same phrase under every name, and sections that start at
/// the same beats with the same track under every name.
pub open spec fn same_state(a: MusicStateView, b: MusicStateView) -> bool {
    &&& a.tempo == b.tempo
    &&& a.sf2 == b.sf2
    &&& same_names(a.phrases, b.phrases)
    &&& same_sections(a.sections, b.sections)
}

/// What holds of every state that events lead to: the tempo map and the
/// sections are sorted, and no name occurs twice among the phrases nor
/// among the tracks of a section.
pub open spec fn valid_state(state: MusicStateView) -> bool {
    &&& strictly_sorted(state.tempo)
    &&& increasing(section_starts(state.sections))
    &&& names_ok(state.phrases, state.sections)
}

/// Two independent events lead to the same music in either order. Where
/// one order is turned down, the other is, and for the same reason unless
/// both events bind a track; and else both lead to states that hold the
/// same.
pub proof fn lemma_independent_events_commute(
    state: MusicStateView,
    e1: MusicStateEvent,
    e2: MusicStateEvent,
)
    requires
        valid_state(state),
        independent(e1, e2),
    ensures
        match (reduced_all(state, seq![e1, e2]), reduced_all(state, seq![e2, e1])) {
            (Ok(a), Ok(b)) => same_state(a, b),
            (Err(first), Err(second)) => first == second || (e1 is NewTrack && e2 is NewTrack),
            _ => false,
        },
{
    lemma_reduce_twice(state, e1, e2);
    lemma_reduce_twice(state, e2, e1);
    assert(tracks_distinct(state.sections));
    match (e1, e2) {
        (MusicStateEvent::NewPhrase(k1, first), MusicStateEvent::NewPhrase(k2, second)) => {
            lemma_put_commutes(state.phrases, k1@, first, k2@, second);
        },
        (
            MusicStateEvent::SchedulingStateEvent(c1),
            MusicStateEvent::SchedulingStateEvent(c2),
        ) => {
            lemma_inserted_commutes(state.tempo, c1@, c2@);
        },
        (MusicStateEvent::NewPhrase(k, p), MusicStateEvent::NewTrack(_, _, track)) => {
            lemma_put(state.phrases, k@, p, track.phrase@);
        },
        (MusicStateEvent::NewTrack(_, _, track), MusicStateEvent::NewPhrase(k, p)) => {
            lemma_put(state.phrases, k@, p, track.phrase@);
        },
        (MusicStateEvent::NewSection(b1), MusicStateEvent::NewSection(b2)) => {
            lemma_opened_commutes(state.sections, b1@, b2@);
        },
        (MusicStateEvent::NewSection(b), MusicStateEvent::NewTrack(start, name, track)) => {
            lemma_open_bind_commutes(state.sections, b@, start@, name@, track);
        },
        (MusicStateEvent::NewTrack(start, name, track), MusicStateEvent::NewSection(b)) => {
            lemma_open_bind_commutes(state.sections, b@, start@, name@, track);
        },
        (MusicStateEvent::NewTrack(b1, n1, t1), MusicStateEvent::NewTrack(b2, n2, t2)) => {
            lemma_bind_commutes(state.sections, b1@, n1@, t1, b2@, n2@, t2);
        },
        _ => {},
    }
}

/// Whatever events are applied, the tempo map stays sorted by beat, with no
/// beat twice.
pub proof fn lemma_tempo_stays_sorted(state: MusicStateView, events: Seq<MusicStateEvent>)
    requires
        strictly_sorted(state.tempo),
    ensures
        reduced_all(state, events) matches Ok(last) ==> strictly_sorted(last.tempo),
    decreases events.len(),
{
    if events.len() > 0 {
        match reduced(state, events.first()) {
            Ok(next) => {
                match events.first() {
                    MusicStateEvent::SchedulingStateEvent(e) => {
                        lemma_inserted_sorted(state.tempo, e@);
                    },
                    _ => {},
                }
                lemma_tempo_stays_sorted(next, events.drop_first());
            },
            Err(_) => {},
        }
    }
}

} // verus!
