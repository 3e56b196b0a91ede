use vstd::prelude::*;

use crate::states::{FreePlacement, GameState, PlayState, ScoringState};

verus! {

/// Access to a value known to be held inside a `T`: the phase inside a game
/// state.
pub trait AssumeFrom<T>: Sized {
    /// `x` holds a value of this type.
    spec fn holds(x: &T) -> bool;

    /// The value of this type held in `x`.
    spec fn held(x: &T) -> Self;

    /// The value held in `x`.
    fn held_value(x: &T) -> (r: &Self)
        requires
            Self::holds(x),
        ensures
            *r == Self::held(x),
    ;
}

impl AssumeFrom<GameState> for PlayState {
    open spec fn holds(x: &GameState) -> bool {
        x is Play
    }

    open spec fn held(x: &GameState) -> PlayState {
        x->Play_0
    }

    fn held_value(x: &GameState) -> (r: &PlayState) {
        match x {
            GameState::Play(s) => s,
            _ => vstd::pervasive::unreached(),
        }
    }
}

impl AssumeFrom<GameState> for ScoringState {
    open spec fn holds(x: &GameState) -> bool {
        x is Scoring
    }

    open spec fn held(x: &GameState) -> ScoringState {
        x->Scoring_0
    }

    fn held_value(x: &GameState) -> (r: &ScoringState) {
        match x {
            GameState::Scoring(s) => s,
            _ => vstd::pervasive::unreached(),
        }
    }
}

impl AssumeFrom<GameState> for FreePlacement {
    open spec fn holds(x: &GameState) -> bool {
        x is FreePlacement
    }

    open spec fn held(x: &GameState) -> FreePlacement {
        x->FreePlacement_0
    }

    fn held_value(x: &GameState) -> (r: &FreePlacement) {
        match x {
            GameState::FreePlacement(s) => s,
            _ => vstd::pervasive::unreached(),
        }
    }
}

} // verus!
