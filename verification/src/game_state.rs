//! The coarse phases the surrounding application moves through. The rules
//! engine itself only runs while the game is in [`GameState::Running`]; the
//! other phases belong to loading and menu screens that merely gate when
//! moves may be submitted.

use vstd::prelude::*;

verus! {

/// The application-level phase of the game.
#[derive(Clone, Eq, PartialEq, Debug, Hash)]
pub enum GameState {
    /// The menu is drawn and waits for player interaction.
    Menu,
    /// The actual game logic is executed: moves are accepted and resolved.
    Running,
    /// The game is paused and can resume.
    Paused,
    /// Global assets are still being fetched.
    PreLoading,
    /// Level-specific assets are still being fetched.
    WorldLoading,
}

} // verus!
