//! The part of the musical state that names the instrument in use.

use vstd::prelude::*;

verus! {

/// The instrument that tracks play which name none of their own.
pub struct SF2State {
    pub sf2_name: Option<String>,
}

/// What can happen to the instrument state.
pub enum SF2StateEvent {
    /// The instrument of this name is the one in use.
    SetSF2Name(String),
}

impl View for SF2StateEvent {
    type V = Seq<char>;

    /// The name that the event sets.
    open spec fn view(&self) -> Seq<char> {
        match *self {
            SF2StateEvent::SetSF2Name(name) => name@,
        }
    }
}

impl View for SF2State {
    type V = Option<Seq<char>>;

    open spec fn view(&self) -> Option<Seq<char>> {
        match self.sf2_name {
            Some(name) => Some(name@),
            None => None,
        }
    }
}

impl SF2State {
    /// The state in which no instrument is in use.
    pub fn new() -> (state: SF2State)
        ensures
            state@ == None::<Seq<char>>,
    {
        SF2State { sf2_name: None }
    }

    /// The state after `event`: the instrument in use is the one named.
    pub fn reduce(&self, event: SF2StateEvent) -> (state: SF2State)
        ensures
            state@ == Some(event@),
    {
        match event {
            SF2StateEvent::SetSF2Name(name) => SF2State { sf2_name: Some(name) },
        }
    }
}

} // verus!
