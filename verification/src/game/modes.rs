use vstd::prelude::*;

use super::clock::Millisecond;
use super::controller::{change_applied, clocks_before_move, game_action, phase_step, timed_action, timed_play_step, Game};
use super::{ActionChange, ActionKind, Color, MakeActionError, Point, SharedState, VisibilityMode};
use crate::states::free_placement::{placement_step, ready_action};
use crate::states::play::capture::capture_stage;
use crate::states::play::{
    cancel_action, captured_then, extra_stage, pass_action, place_action, placed_then, play_action, play_step,
    resign_action, stone_placed, tetris_stage, tetris_then, turn_ended, zen_applied,
};
use crate::states::scoring::scoring_step;
use crate::states::{FreePlacement, GameState, PlayState, ScoringState};

verus! {

/// `sh` displayed in the visibility mode `m`.
pub open spec fn with_mode(sh: SharedState, m: Option<VisibilityMode>) -> SharedState {
    SharedState { mods: super::GameModifier { visibility_mode: m, ..sh.mods }, ..sh }
}

/// The game `g` displayed in the visibility mode `m`.
pub open spec fn game_with_mode(g: Game, m: Option<VisibilityMode>) -> Game {
    Game { shared: with_mode(g.shared, m), ..g }
}

proof fn lemma_captured_then_mode(
    sa: PlayState,
    shc: SharedState,
    pc: Seq<Point>,
    captures: int,
    revealed: bool,
    s1: PlayState,
    sh1: SharedState,
    r: Result<ActionChange, MakeActionError>,
    m: Option<VisibilityMode>,
)
    requires
        captured_then(sa, shc, pc, captures, revealed, s1, sh1, r),
    ensures
        captured_then(sa, with_mode(shc, m), pc, captures, revealed, s1, with_mode(sh1, m), r),
{
    if pc.len() != 0 && !crate::states::play::repeats_position(shc, sa.capture_count as int, captures) {
        let (shd, extra) = choose|shd: SharedState, extra: bool| #[trigger] extra_stage(shc, pc, shd, extra) && {
            let state = crate::states::play::PlayModel {
                players_passed: Seq::new(sa.players_passed@.len(), |i: int| false),
                last_stone: Some(pc),
                capture_count: sa.capture_count,
            };
            &&& turn_ended(state, shd, extra, sh1)
            &&& s1@ == crate::states::play::PlayModel { capture_count: crate::states::play::saturating_sum(sa.capture_count as int, captures) as usize, ..state }
            &&& r matches Ok(ActionChange::NoChange)
        };
        assert(extra_stage(with_mode(shc, m), pc, with_mode(shd, m), extra));
    }
}

proof fn lemma_place_action_mode(
    s0: PlayState,
    sh0: SharedState,
    p: Point,
    color: Color,
    s1: PlayState,
    sh1: SharedState,
    r: Result<ActionChange, MakeActionError>,
    m: Option<VisibilityMode>,
)
    requires
        place_action(s0, sh0, p, color, s1, sh1, r),
    ensures
        place_action(s0, with_mode(sh0, m), p, color, s1, with_mode(sh1, m), r),
{
    let (sa, sha, ra) = choose|sa: PlayState, sha: SharedState, ra: Result<Seq<Point>, MakeActionError>|
        #[trigger] stone_placed(s0, sh0, p, color, sa, sha, ra) && placed_then(sa, sha, ra, s1, sh1, r);
    assert(stone_placed(s0, with_mode(sh0, m), p, color, sa, with_mode(sha, m), ra));
    if let Ok(played) = ra {
        if played.len() > 0 {
            let (shb, pb) = choose|shb: SharedState, pb: Seq<Point>| #[trigger] tetris_stage(sha, played, shb, pb) && tetris_then(sa, shb, pb, s1, sh1, r);
            assert(tetris_stage(with_mode(sha, m), played, with_mode(shb, m), pb));
            if !(shb.mods.tetris is Some && pb.len() == 0) {
                let (shc, pc, captures, revealed) = choose|shc: SharedState, pc: Seq<Point>, captures: int, revealed: bool|
                    #[trigger] capture_stage(shb, pb, shc, pc, captures, revealed) && captured_then(sa, shc, pc, captures, revealed, s1, sh1, r);
                assert(capture_stage(with_mode(shb, m), pb, with_mode(shc, m), pc, captures, revealed));
                lemma_captured_then_mode(sa, shc, pc, captures, revealed, s1, sh1, r, m);
            }
            assert(tetris_then(sa, with_mode(shb, m), pb, s1, with_mode(sh1, m), r));
        }
    }
    assert(placed_then(sa, with_mode(sha, m), ra, s1, with_mode(sh1, m), r));
}

proof fn lemma_play_action_mode(
    s0: PlayState,
    sh0: SharedState,
    player_id: u64,
    action: ActionKind,
    s1: PlayState,
    sh1: SharedState,
    r: Result<ActionChange, MakeActionError>,
    m: Option<VisibilityMode>,
)
    requires
        play_action(s0, sh0, player_id, action, s1, sh1, r),
    ensures
        play_action(s0, with_mode(sh0, m), player_id, action, s1, with_mode(sh1, m), r),
{
    if sh0.active_seat().player == Some(player_id) {
        let (sa, sha, ra) = choose|sa: PlayState, sha: SharedState, ra: Result<ActionChange, MakeActionError>|
            #[trigger] play_step(s0, sh0, action, sa, sha, ra) && s1 == sa && r == ra && if ra is Ok {
                zen_applied(sha, sh1)
            } else {
                sh1 == sha
            };
        match action {
            ActionKind::Place(x, y) => {
                lemma_place_action_mode(s0, sh0, (x, y), sh0.active_seat().team, sa, sha, ra, m);
            },
            ActionKind::Pass => {
                assert(pass_action(s0, with_mode(sh0, m), sa, with_mode(sha, m), ra));
            },
            ActionKind::Cancel => {
                assert(cancel_action(s0, with_mode(sh0, m), sa, with_mode(sha, m), ra));
            },
            ActionKind::Resign => {
                assert(resign_action(s0, with_mode(sh0, m), sa, with_mode(sha, m), ra));
            },
        }
        assert(play_step(s0, with_mode(sh0, m), action, sa, with_mode(sha, m), ra));
        if ra is Ok {
            assert(zen_applied(with_mode(sha, m), with_mode(sh1, m)));
        }
    }
}

/// A visibility mode only changes how the game is displayed, never how it
/// is played: an action that takes a game to `g1` with result `r` takes the
/// same game in any other visibility mode to `g1` in that mode, with the same
/// result.
pub proof fn law_visibility_mode_does_not_change_play(
    g0: Game,
    player_id: u64,
    action: ActionKind,
    t: Millisecond,
    g1: Game,
    r: Result<(), MakeActionError>,
    m: Option<VisibilityMode>,
)
    requires
        game_action(g0, player_id, action, t, g1, r),
    ensures
        game_action(game_with_mode(g0, m), player_id, action, t, game_with_mode(g1, m), r),
{
    let sh0 = g0.shared;
    if crate::states::free_placement::holds_seat(sh0.seats@, player_id) {
        let (st1, sh1, res) = choose|st1: GameState, sh1: SharedState, res: Result<ActionChange, MakeActionError>|
            #[trigger] phase_step(g0.state, sh0, player_id, action, t, st1, sh1, res) && change_applied(
                g0,
                st1,
                sh1,
                res,
                player_id,
                action,
                t,
                g1,
                r,
            );
        match g0.state {
            GameState::FreePlacement(s0) => {
                let s1 = choose|s1: FreePlacement| #[trigger] placement_step(s0, sh0, player_id, action, s1, sh1, res) && st1 == GameState::FreePlacement(s1);
                if action == ActionKind::Pass {
                    assert(ready_action(s0, with_mode(sh0, m), player_id, s1, with_mode(sh1, m), res));
                }
                assert(placement_step(s0, with_mode(sh0, m), player_id, action, s1, with_mode(sh1, m), res));
            },
            GameState::Play(s0) => {
                let (sh_a, sh_b, left, s1, sh_c) = choose|sh_a: SharedState, sh_b: SharedState, left: i128, s1: PlayState, sh_c: SharedState|
                    #[trigger] clocks_before_move(sh0, t, sh_a, sh_b, left) && #[trigger] play_action(
                        s0,
                        sh_b,
                        player_id,
                        timed_action(action, left),
                        s1,
                        sh_c,
                        res,
                    ) && st1 == GameState::Play(s1) && if res is Ok && sh0.board_history@.len() != 1 {
                        sh1 == (SharedState { clock: sh1.clock, ..sh_c }) && crate::game::controller::clock_turn_ended(sh_c.clock, sh1.clock, sh0.turn as int, t)
                    } else {
                        sh1 == sh_c
                    };
                lemma_play_action_mode(s0, sh_b, player_id, timed_action(action, left), s1, sh_c, res, m);
                assert(clocks_before_move(with_mode(sh0, m), t, with_mode(sh_a, m), with_mode(sh_b, m), left));
                assert(timed_play_step(s0, with_mode(sh0, m), player_id, action, t, st1, with_mode(sh1, m), res));
            },
            GameState::Scoring(s0) => {
                let s1 = choose|s1: ScoringState| #[trigger] scoring_step(s0, sh0, player_id, action, s1, res) && st1 == GameState::Scoring(s1) && sh1 == sh0;
                assert(scoring_step(s0, with_mode(sh0, m), player_id, action, s1, res));
            },
            GameState::Done(_) => {},
        }
        assert(phase_step(g0.state, with_mode(sh0, m), player_id, action, t, st1, with_mode(sh1, m), res));
        assert(change_applied(game_with_mode(g0, m), st1, with_mode(sh1, m), res, player_id, action, t, game_with_mode(g1, m), r));
    }
}

} // verus!
