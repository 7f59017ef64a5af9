//! The store: the one place that holds the current snapshot of the musical
//! state. Readers take the snapshot; the writer puts the next one in its
//! place.

use crate::music_state::{reduced, MusicState, MusicStateEvent, MusicStateView, ReduceError};
use std::sync::Arc;
use vstd::prelude::*;

verus! {

/// The holder of the current snapshot.
pub struct Store {
    state: Arc<MusicState>,
}

impl View for Store {
    type V = MusicStateView;

    /// What the current snapshot holds.
    closed spec fn view(&self) -> MusicStateView {
        self.state@
    }
}

impl Store {
    /// A store whose current snapshot is `state`.
    pub fn new(state: MusicState) -> (store: Store)
        ensures
            store@ == state@,
    {
        Store { state: Arc::new(state) }
    }

    /// The current snapshot. It is shared, and never changes.
    pub fn get_state(&self) -> (snapshot: Arc<MusicState>)
        ensures
            snapshot@ == self@,
    {
        self.state.clone()
    }

    /// Puts `state` in the place of the current snapshot: the one step that
    /// readers and the writer share. What comes back is the snapshot that
    /// was current before, unchanged.
    pub fn publish(&mut self, state: Arc<MusicState>) -> (before: Arc<MusicState>)
        ensures
            final(self)@ == state@,
            before@ == old(self)@,
    {
        let before = self.state.clone();
        self.state = state;
        before
    }

    /// Applies `event` to the current snapshot and puts the state that it
    /// leads to in its place.
    ///
    /// What comes back is the snapshot that was current before: it holds
    /// what it held, whatever the event did. Where the event is turned
    /// down, the current snapshot stays.
    pub fn update_state(&mut self, event: MusicStateEvent) -> (r: Result<
        Arc<MusicState>,
        ReduceError,
    >)
        ensures
            match r {
                Ok(before) => before@ == old(self)@ && reduced(old(self)@, event) == Ok::<
                    MusicStateView,
                    ReduceError,
                >(final(self)@),
                Err(error) => final(self)@ == old(self)@ && reduced(old(self)@, event) == Err::<
                    MusicStateView,
                    ReduceError,
                >(error),
            },
    {
        match self.state.reduce(event) {
            Ok(next) => Ok(self.publish(Arc::new(next))),
            Err(error) => Err(error),
        }
    }
}

} // verus!
