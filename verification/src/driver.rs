//! The rounds of the demonstration. A round draws a new grid, searches it
//! and pauses; then the next round begins. What is drawn, searched and
//! waited for lies outside this crate: here is only the order of things, and
//! what follows when one of them fails.

use vstd::prelude::*;

verus! {

/// The number of rows and columns of the grid of a round.
pub const GRID_SIZE: usize = 20;

/// The length of the pause between two rounds, in milliseconds.
pub const PAUSE_MILLIS: u64 = 3000;

/// Where the demonstration stands.
#[derive(Clone, Copy, Debug, PartialEq, Eq, Structural)]
pub enum Phase {
    /// A new grid is to be made and drawn.
    Drawing,
    /// The grid is to be searched, and what the search did is to be shown.
    Searching,
    /// The round is over, and the pause before the next is to be kept.
    Pausing,
    /// The demonstration has ended.
    Halted,
}

/// What is to be done in a phase.
#[derive(Clone, Copy, Debug, PartialEq, Eq, Structural)]
pub enum Action {
    /// Make a grid of `size` rows and columns and draw it.
    DrawGrid { size: usize },
    /// Search the grid and show what the search did.
    RunSearch,
    /// Wait for `millis` milliseconds.
    Wait { millis: u64 },
    /// Do nothing more.
    Stop,
}

/// How what was to be done went.
#[derive(Clone, Copy, Debug, PartialEq, Eq, Structural)]
pub enum Event {
    /// It was done.
    Done,
    /// It failed: the grid could not be made, or the renderer refused.
    Failed,
}

/// What is to be done in the phase `phase`.
pub open spec fn action_in(phase: Phase) -> Action {
    match phase {
        Phase::Drawing => Action::DrawGrid { size: GRID_SIZE },
        Phase::Searching => Action::RunSearch,
        Phase::Pausing => Action::Wait { millis: PAUSE_MILLIS },
        Phase::Halted => Action::Stop,
    }
}

/// The phase that follows `phase` when what was to be done in it went as
/// `event` says. A grid that cannot be drawn ends the demonstration. A search
/// that cannot be shown ends its round only: the pause and the next round
/// follow as after any search. The pause leads to the next round however it
/// went.
pub open spec fn phase_after(phase: Phase, event: Event) -> Phase {
    match phase {
        Phase::Drawing => match event {
            Event::Done => Phase::Searching,
            Event::Failed => Phase::Halted,
        },
        Phase::Searching => Phase::Pausing,
        Phase::Pausing => Phase::Drawing,
        Phase::Halted => Phase::Halted,
    }
}

/// The phase that is reached from `phase` through `events`, one after the
/// other.
pub open spec fn phase_after_all(phase: Phase, events: Seq<Event>) -> Phase
    decreases events.len(),
{
    if events.len() == 0 {
        phase
    } else {
        phase_after(phase_after_all(phase, events.drop_last()), events.last())
    }
}

/// What is to be done in the phase `phase`.
pub fn action(phase: Phase) -> (todo: Action)
    ensures
        todo == action_in(phase),
{
    match phase {
        Phase::Drawing => Action::DrawGrid { size: GRID_SIZE },
        Phase::Searching => Action::RunSearch,
        Phase::Pausing => Action::Wait { millis: PAUSE_MILLIS },
        Phase::Halted => Action::Stop,
    }
}

/// The phase that follows `phase` after `event`: see [`phase_after`].
pub fn advance(phase: Phase, event: Event) -> (next: Phase)
    ensures
        next == phase_after(phase, event),
{
    match phase {
        Phase::Drawing => match event {
            Event::Done => Phase::Searching,
            Event::Failed => Phase::Halted,
        },
        Phase::Searching => Phase::Pausing,
        Phase::Pausing => Phase::Drawing,
        Phase::Halted => Phase::Halted,
    }
}

/// A round in which the grid is drawn takes three steps and leads to the
/// next round, whether the search could be shown or not and however the
/// pause went.
pub proof fn lemma_round(searched: Event, paused: Event)
    ensures
        phase_after_all(Phase::Drawing, seq![Event::Done, searched, paused]) == Phase::Drawing,
{
    let events = seq![Event::Done, searched, paused];
    let two = events.drop_last();
    let one = two.drop_last();
    assert(one.drop_last().len() == 0);
    assert(phase_after_all(Phase::Drawing, one.drop_last()) == Phase::Drawing);
    assert(phase_after_all(Phase::Drawing, one) == Phase::Searching);
    assert(phase_after_all(Phase::Drawing, two) == Phase::Pausing);
}

/// The demonstration ends only where a grid cannot be drawn, and once ended
/// it stays so.
pub proof fn lemma_halts(phase: Phase, event: Event)
    ensures
        phase_after(phase, event) == Phase::Halted <==> phase == Phase::Halted || (phase
            == Phase::Drawing && event == Event::Failed),
{
}

/// Nothing leads out of the end of the demonstration.
pub proof fn lemma_halted_stays(events: Seq<Event>)
    ensures
        phase_after_all(Phase::Halted, events) == Phase::Halted,
    decreases events.len(),
{
    if events.len() > 0 {
        lemma_halted_stays(events.drop_last());
    }
}

} // verus!
