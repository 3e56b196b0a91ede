use vstd::prelude::*;

pub mod free_placement;
pub mod play;
pub mod scoring;

pub use self::free_placement::{FreePlacement, FreePlacementModel};
pub use self::play::{PlayModel, PlayState};
pub use self::scoring::{ScoringModel, ScoringState};

use crate::game::{Board, Color};
use self::scoring::territory_fits;

verus! {

/// The phase a game is in.
#[derive(Debug)]
pub enum GameState {
    FreePlacement(FreePlacement),
    Play(PlayState),
    Scoring(ScoringState),
    Done(ScoringState),
}

/// What a game state holds.
pub enum GameStateModel {
    FreePlacement(FreePlacementModel),
    Play(PlayModel),
    Scoring(ScoringModel),
    Done(ScoringModel),
}

impl View for GameState {
    type V = GameStateModel;

    open spec fn view(&self) -> GameStateModel {
        match self {
            GameState::FreePlacement(s) => GameStateModel::FreePlacement(s@),
            GameState::Play(s) => GameStateModel::Play(s@),
            GameState::Scoring(s) => GameStateModel::Scoring(s@),
            GameState::Done(s) => GameStateModel::Done(s@),
        }
    }
}

impl GameState {
    /// The play phase with a fresh play state.
    pub fn play(seat_count: usize) -> (s: GameState)
        ensures
            s@ == GameStateModel::Play(
                PlayModel { players_passed: Seq::new(seat_count as nat, |i: int| false), last_stone: None, capture_count: 0 },
            ),
    {
        GameState::Play(PlayState::new(seat_count))
    }

    /// The scoring phase for `board`: see `ScoringState::new`.
    pub fn scoring(board: &Board<Color>, seat_count: usize, scores: &[i32]) -> (s: GameState)
        requires
            board.wf(),
            forall|i: int| 0 <= i < board.points@.len() ==> (#[trigger] board.points@[i]).0 <= scores@.len(),
            territory_fits(scores@, board.points@.len()),
        ensures
            s matches GameState::Scoring(st) && st.scores_position(*board, seat_count as nat, scores@),
    {
        GameState::Scoring(ScoringState::new(board, seat_count, scores))
    }

    /// The placement phase of hidden move go: see `FreePlacement::new`.
    pub fn free_placement(seat_count: usize, team_count: usize, board: Board<Color>, teams_share_stones: bool) -> (s: GameState)
        ensures
            s matches GameState::FreePlacement(fp) && {
                &&& fp.boards@.len() == if teams_share_stones { team_count } else { seat_count }
                &&& forall|k: int| 0 <= k < fp.boards@.len() ==> (#[trigger] fp.boards@[k])@ == board@
                &&& fp.stones_placed@ == Seq::new(fp.boards@.len(), |i: int| 0u32)
                &&& fp.players_ready@ == Seq::new(seat_count as nat, |i: int| false)
                &&& fp.teams_share_stones == teams_share_stones
            },
    {
        GameState::FreePlacement(FreePlacement::new(seat_count, team_count, &board, teams_share_stones))
    }

    /// A copy of the state.
    pub fn copy(&self) -> (s: GameState)
        ensures
            s@ == self@,
    {
        match self {
            GameState::FreePlacement(s) => GameState::FreePlacement(s.copy()),
            GameState::Play(s) => GameState::Play(s.copy()),
            GameState::Scoring(s) => GameState::Scoring(s.copy()),
            GameState::Done(s) => GameState::Done(s.copy()),
        }
    }
}

} // verus!
