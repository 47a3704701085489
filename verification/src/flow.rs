use vstd::prelude::*;

verus! {

/// The phases of the show.
#[derive(Clone, Copy, PartialEq, Eq, Structural, Debug, Hash)]
pub enum GameState {
    Loading,
    Intro,
    Setup,
    Simulate,
}

impl Default for GameState {
    fn default() -> (s: GameState)
        ensures
            s == GameState::Loading,
    {
        GameState::Loading
    }
}

/// What happens during the show that may change its phase.
#[derive(Clone, Copy, PartialEq, Eq, Structural, Debug)]
pub enum GameEvent {
    /// No model is still waiting to be loaded.
    AllLoaded,
    /// The player asked to leave the simulation.
    ExitPressed,
    /// The player chose a pattern from the menu.
    PatternChosen,
    /// The lecturer reached the end of the walk and began to speak.
    LecturerSpeaks,
}

/// The phase that `event` leads to from `state`, if it changes the phase:
/// loading ends in the menu, a chosen pattern starts the simulation, leaving
/// the simulation returns to the menu, and the lecturer's speech opens the
/// menu from any phase.
pub open spec fn next_phase(state: GameState, event: GameEvent) -> Option<GameState> {
    match (state, event) {
        (GameState::Loading, GameEvent::AllLoaded) => Some(GameState::Setup),
        (GameState::Setup, GameEvent::PatternChosen) => Some(GameState::Simulate),
        (GameState::Simulate, GameEvent::ExitPressed) => Some(GameState::Setup),
        (_, GameEvent::LecturerSpeaks) => Some(GameState::Setup),
        _ => None,
    }
}

impl GameState {
    /// The phase that `event` leads to, as `next_phase` states it.
    pub fn next(self, event: GameEvent) -> (r: Option<GameState>)
        ensures
            r == next_phase(self, event),
    {
        match (self, event) {
            (GameState::Loading, GameEvent::AllLoaded) => Some(GameState::Setup),
            (GameState::Setup, GameEvent::PatternChosen) => Some(GameState::Simulate),
            (GameState::Simulate, GameEvent::ExitPressed) => Some(GameState::Setup),
            (_, GameEvent::LecturerSpeaks) => Some(GameState::Setup),
            _ => None,
        }
    }
}

/// While loading: once no model is waiting to be loaded, the show moves on
/// to the menu.
pub fn check_ready(not_ready: usize) -> (r: Option<GameState>)
    ensures
        r == (if not_ready == 0 { next_phase(GameState::Loading, GameEvent::AllLoaded) } else { None }),
        not_ready == 0 <==> r == Some(GameState::Setup),
{
    if not_ready == 0 {
        GameState::Loading.next(GameEvent::AllLoaded)
    } else {
        None
    }
}

/// No event leads back to loading or into the introduction.
pub proof fn lemma_no_return_to_loading_or_intro(state: GameState, event: GameEvent)
    ensures
        next_phase(state, event) != Some(GameState::Loading),
        next_phase(state, event) != Some(GameState::Intro),
{
}

/// The simulation starts only from the menu, when a pattern is chosen.
pub proof fn lemma_simulation_needs_a_pattern(state: GameState, event: GameEvent)
    ensures
        next_phase(state, event) == Some(GameState::Simulate) <==> (state == GameState::Setup
            && event == GameEvent::PatternChosen),
{
}

/// Every phase change out of the simulation returns to the menu.
pub proof fn lemma_simulation_returns_to_menu(event: GameEvent)
    ensures
        next_phase(GameState::Simulate, event) is Some ==> next_phase(GameState::Simulate, event)
            == Some(GameState::Setup),
{
}

} // verus!
