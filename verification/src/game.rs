//! Round lifecycle: setting up a fresh round, and the game-state machine
//! the driving loop folds tick outcomes into.

use vstd::prelude::*;

use crate::board::{initial_cells, player_count, size_height, size_width, Board, BoardSettings};
use crate::grid::{live, snake_len};

verus! {

/// The phases of a round.
#[derive(Clone, Copy, Debug, PartialEq, Eq, Structural, Hash)]
pub enum GameState {
    Setup,
    Start,
    InGame,
    GameOver,
}

/// Set up a fresh round: a board laid out for the given settings.
pub fn setup(settings: &BoardSettings) -> (r: Board)
    ensures
        r@.wf(),
        r@.apples_eaten == 0,
        r@.width == size_width(settings.board_size),
        r@.height == size_height(settings.board_size),
        r@.cells == initial_cells(*settings),
        forall|id: u8| live(r@.cells, id) <==> id < player_count(settings.players),
        forall|id: u8| live(r@.cells, id) ==> snake_len(r@.cells, id) == 4,
{
    Board::new(*settings)
}

/// One step of the game-state machine: a fresh round starts immediately; a
/// running round ends when at most one snake is left in multiplayer, or
/// none in single player; a finished round restarts on request.
pub fn game_state_transition(
    state: GameState,
    living_snakes: usize,
    players: usize,
    restart_requested: bool,
) -> (r: GameState)
    ensures
        state == GameState::Setup ==> r == GameState::Start,
        state == GameState::Start ==> r == GameState::InGame,
        state == GameState::InGame ==> r == (if living_snakes <= (if players != 1 {
            1int
        } else {
            0int
        }) {
            GameState::GameOver
        } else {
            GameState::InGame
        }),
        state == GameState::GameOver ==> r == (if restart_requested {
            GameState::Start
        } else {
            GameState::GameOver
        }),
{
    match state {
        GameState::Setup => GameState::Start,
        GameState::Start => GameState::InGame,
        GameState::InGame => {
            let threshold: usize = if players != 1 {
                1
            } else {
                0
            };
            if living_snakes <= threshold {
                GameState::GameOver
            } else {
                GameState::InGame
            }
        },
        GameState::GameOver => {
            if restart_requested {
                GameState::Start
            } else {
                GameState::GameOver
            }
        },
    }
}

} // verus!
