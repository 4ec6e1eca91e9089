use astar_grid::driver::{action, advance, Action, Event, Phase, GRID_SIZE, PAUSE_MILLIS};

#[test]
fn each_phase_has_its_action() {
    assert_eq!(action(Phase::Drawing), Action::DrawGrid { size: 20 });
    assert_eq!(action(Phase::Searching), Action::RunSearch);
    assert_eq!(action(Phase::Pausing), Action::Wait { millis: 3000 });
    assert_eq!(action(Phase::Halted), Action::Stop);
    assert_eq!(GRID_SIZE, 20);
    assert_eq!(PAUSE_MILLIS, 3000);
}

#[test]
fn a_round_leads_to_the_next() {
    let mut phase = Phase::Drawing;
    for _ in 0..5 {
        phase = advance(phase, Event::Done);
        assert_eq!(phase, Phase::Searching);
        phase = advance(phase, Event::Done);
        assert_eq!(phase, Phase::Pausing);
        phase = advance(phase, Event::Done);
        assert_eq!(phase, Phase::Drawing);
    }
}

#[test]
fn a_grid_that_cannot_be_drawn_ends_the_demonstration() {
    assert_eq!(advance(Phase::Drawing, Event::Failed), Phase::Halted);
    assert_eq!(advance(Phase::Halted, Event::Done), Phase::Halted);
    assert_eq!(advance(Phase::Halted, Event::Failed), Phase::Halted);
}

#[test]
fn a_search_that_cannot_be_shown_ends_its_round_only() {
    assert_eq!(advance(Phase::Searching, Event::Failed), Phase::Pausing);
    assert_eq!(advance(Phase::Pausing, Event::Failed), Phase::Drawing);
}
