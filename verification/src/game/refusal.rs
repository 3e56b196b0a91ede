use vstd::prelude::*;

use super::board::{lemma_coord_in_range, lemma_index_in_range};
use super::clock::{restarted, Millisecond};
use super::controller::{
    change_applied, clocks_before_move, created, game_action, phase_step, seat_left, seat_taken, timed_action, Game,
};
use super::visibility::Visibility;
use super::{ActionChange, ActionKind, Board, Color, MakeActionError, Point, SharedState, TakeSeatError};
use crate::states::free_placement::{holds_seat, placement_step};
use crate::states::play::capture::capture_stage;
use crate::states::play::tetris::drop_tetrominoes;
use crate::states::play::{
    cancel_action, captured_then, extra_stage, opt_vis_points, pass_action, pixel_fold, pixel_points, place_action,
    placed_then, play_action, play_step, repeats_position, resign_action, restored, stone_placed, tetris_stage,
    tetris_then, turn_ended, zen_applied,
};
use crate::states::scoring::scoring_step;
use crate::states::{FreePlacement, GameState, PlayState, ScoringState};

verus! {

/// No seat has resigned.
pub open spec fn none_resigned(seats: Seq<super::Seat>) -> bool {
    forall|i: int| 0 <= i < seats.len() ==> !(#[trigger] seats[i]).resigned
}

/// The board and the scores are those of the last recorded position, and so
/// is the turn while no seat has resigned (a resignation passes the turn
/// without recording a position).
pub open spec fn synced(sh: SharedState) -> bool {
    let last = sh.board_history@.last();
    &&& sh.board@ == last.board@
    &&& sh.points@ == last.points@
    &&& none_resigned(sh.seats@) ==> sh.turn == last.turn
}

/// Placing a pixel changes the board only where it places a stone: with no
/// stone placed the board is as it was, and a changed point was empty and
/// is among the points played. Without hidden stones nothing is revealed
/// and every point played was empty.
proof fn lemma_pixel_fold_board(b: Board<Color>, vis: Option<Seq<Visibility>>, cands: Seq<Option<Point>>, color: Color)
    requires
        b.wf(),
        color.0 != 0,
    ensures
        ({
            let o = pixel_fold(b, vis, cands, color);
            &&& o.board.len() == b.points@.len()
            &&& !o.placed ==> o.board == b.points@
            &&& o.placed ==> o.played.len() > 0
            &&& forall|i: int|
                0 <= i < b.points@.len() && o.board[i] != b.points@[i] ==> b.points@[i].0 == 0 && o.played.contains(
                    b.coord_of(i),
                )
            &&& vis is None ==> {
                &&& o.vis is None
                &&& !o.revealed
                &&& forall|k: int| 0 <= k < o.played.len() ==> b.within(#[trigger] o.played[k]) && b.at(o.played[k]).0 == 0
            }
        }),
    decreases cands.len(),
{
    if cands.len() > 0 {
        lemma_pixel_fold_board(b, vis, cands.drop_last(), color);
        let o = pixel_fold(b, vis, cands.drop_last(), color);
        let o2 = pixel_fold(b, vis, cands, color);
        if let Some(c) = cands.last() {
            if b.within(c) {
                let i = b.index_of(c);
                lemma_index_in_range(&b, c);
                assert(b.at(c) == b.points@[i]);
                if o.board[i].0 == 0 {
                    assert(b.points@[i].0 == 0);
                    assert forall|j: int| 0 <= j < b.points@.len() && o2.board[j] != b.points@[j] implies b.points@[j].0 == 0
                        && o2.played.contains(b.coord_of(j)) by {
                        if j == i {
                            assert(o2.played.last() == c);
                        } else {
                            let w = choose|w: int| 0 <= w < o.played.len() && o.played[w] == b.coord_of(j);
                            assert(o2.played[w] == o.played[w]);
                        }
                    }
                } else {
                    assert forall|j: int| 0 <= j < b.points@.len() && o2.board[j] != b.points@[j] implies b.points@[j].0 == 0
                        && o2.played.contains(b.coord_of(j)) by {
                        let w = choose|w: int| 0 <= w < o.played.len() && o.played[w] == b.coord_of(j);
                        assert(o2.played[w] == o.played[w]);
                    }
                }
            }
        }
    }
}

/// Dropping the tetromino points leaves nothing only when every point is in
/// a tetromino.
proof fn lemma_drop_tetrominoes_empty(b: Board<Color>, s: Seq<Point>)
    requires
        drop_tetrominoes(b, s).len() == 0,
    ensures
        forall|k: int| 0 <= k < s.len() ==> b.in_tetromino(#[trigger] s[k]),
    decreases s.len(),
{
    if s.len() > 0 {
        lemma_drop_tetrominoes_empty(b, s.drop_last());
        assert forall|k: int| 0 <= k < s.len() implies b.in_tetromino(#[trigger] s[k]) by {
            if k < s.len() - 1 {
                assert(s[k] == s.drop_last()[k]);
            }
        }
    }
}

/// `sh1` is `sh0` with the same board and scores.
pub open spec fn same_shared(sh0: SharedState, sh1: SharedState) -> bool {
    &&& sh1 == (SharedState { board: sh1.board, points: sh1.points, ..sh0 })
    &&& sh1.board@ == sh0.board@
    &&& sh1.points@ == sh0.points@
}

/// A refused move in play, on a board without hidden stones, leaves the
/// play state, the board and the scores as they were.
proof fn lemma_place_refused(
    s0: PlayState,
    sh0: SharedState,
    p: Point,
    color: Color,
    s1: PlayState,
    sh1: SharedState,
    r: Result<ActionChange, MakeActionError>,
)
    requires
        sh0.wf(),
        synced(sh0),
        sh0.board_visibility is None,
        color.0 != 0,
        place_action(s0, sh0, p, color, s1, sh1, r),
        r is Err,
    ensures
        s1 == s0,
        same_shared(sh0, sh1),
{
    let b = sh0.board;
    let (sa, sha, ra) = choose|sa: PlayState, sha: SharedState, ra: Result<Seq<Point>, MakeActionError>|
        #[trigger] stone_placed(s0, sh0, p, color, sa, sha, ra) && placed_then(sa, sha, ra, s1, sh1, r);
    let cands = pixel_points(b, p.0 as int, p.1 as int);
    let vis = opt_vis_points(sh0.board_visibility);
    assert(vis is None);
    if sh0.mods.pixel {
        lemma_pixel_fold_board(b, vis, cands, color);
    }
    assert(sha.board_visibility is None);
    assert(sa == s0 || ra is Ok);
    match ra {
        Err(e) => {
            assert(sha.board.points@ =~= b.points@);
            assert(sa == s0);
        },
        Ok(played) => {
            assert(played.len() > 0);
            assert(sa == s0);
            let (shb, pb) = choose|shb: SharedState, pb: Seq<Point>| #[trigger] tetris_stage(sha, played, shb, pb) && tetris_then(sa, shb, pb, s1, sh1, r);
            if shb.mods.tetris is Some && pb.len() == 0 {
                lemma_drop_tetrominoes_empty(sha.board, played);
                if !sh0.mods.pixel {
                    assert(b.within(p) && b.at(p).0 == 0);
                    lemma_index_in_range(&b, p);
                    assert(sha.board.points@ == b.points@.update(b.index_of(p), color));
                } else {
                    assert(crate::states::play::pixel_fits(b, p));
                }
                assert(sha.board.points@.len() == b.points@.len());
                assert forall|i: int| 0 <= i < b.points@.len() implies shb.board.points@[i] == b.points@[i] by {
                    lemma_coord_in_range(&b, i);
                    let q = b.coord_of(i);
                    if played.contains(q) {
                        let k = choose|k: int| 0 <= k < played.len() && played[k] == q;
                        assert(sha.board.in_tetromino(played[k]));
                        if !sh0.mods.pixel {
                            assert(q == p);
                        }
                    } else if !sh0.mods.pixel {
                        lemma_index_in_range(&b, p);
                        assert(i != b.index_of(p));
                    }
                }
                assert(shb.board.points@ =~= b.points@);
            } else {
                let (shc, pc, captures, revealed) = choose|shc: SharedState, pc: Seq<Point>, captures: int, revealed: bool|
                    #[trigger] capture_stage(shb, pb, shc, pc, captures, revealed) && captured_then(sa, shc, pc, captures, revealed, s1, sh1, r);
                assert(shc.board_history == sh0.board_history);
                assert(restored(shc, sh1));
            }
        },
    }
}

/// A move in play keeps the game `synced` with the last recorded
/// position, except a refused pixel under tetris go with hidden stones on
/// the board.
proof fn lemma_place_keeps_synced(
    s0: PlayState,
    sh0: SharedState,
    p: Point,
    color: Color,
    s1: PlayState,
    sh1: SharedState,
    r: Result<ActionChange, MakeActionError>,
)
    requires
        sh0.wf(),
        synced(sh0),
        color.0 != 0,
        place_action(s0, sh0, p, color, s1, sh1, r),
        !(sh0.mods.pixel && sh0.mods.tetris is Some && sh0.board_visibility is Some),
    ensures
        synced(sh1),
{
    if r is Err && sh0.board_visibility is None {
        lemma_place_refused(s0, sh0, p, color, s1, sh1, r);
    } else {
        let b = sh0.board;
        let (sa, sha, ra) = choose|sa: PlayState, sha: SharedState, ra: Result<Seq<Point>, MakeActionError>|
            #[trigger] stone_placed(s0, sh0, p, color, sa, sha, ra) && placed_then(sa, sha, ra, s1, sh1, r);
        let vis = opt_vis_points(sh0.board_visibility);
        let cands = pixel_points(b, p.0 as int, p.1 as int);
        if sh0.mods.pixel {
            lemma_pixel_fold_board(b, vis, cands, color);
        } else if b.within(p) {
            lemma_index_in_range(&b, p);
        }
        match ra {
            Err(e) => {
                assert(sha.board.points@ =~= b.points@);
                assert(sha.board@ == b@);
            },
            Ok(played) => {
                if played.len() == 0 {
                    assert(sha.board.points@ =~= b.points@);
                    assert(sha.board@ == b@);
                } else {
                    let (shb, pb) = choose|shb: SharedState, pb: Seq<Point>| #[trigger] tetris_stage(sha, played, shb, pb) && tetris_then(sa, shb, pb, s1, sh1, r);
                    if shb.mods.tetris is Some && pb.len() == 0 {
                        assert(!sh0.mods.pixel);
                        lemma_drop_tetrominoes_empty(sha.board, played);
                        assert(b.within(p) && b.at(p).0 == 0);
                        assert(sha.board.points@ == b.points@.update(b.index_of(p), color));
                        assert forall|i: int| 0 <= i < b.points@.len() implies shb.board.points@[i] == b.points@[i] by {
                            lemma_coord_in_range(&b, i);
                            let q = b.coord_of(i);
                            if played.contains(q) {
                                let k = choose|k: int| 0 <= k < played.len() && played[k] == q;
                                assert(sha.board.in_tetromino(played[k]));
                                assert(q == p);
                            } else {
                                assert(i != b.index_of(p));
                            }
                        }
                        assert(shb.board.points@ =~= b.points@);
                        assert(shb.board@ == b@);
                    } else {
                        let (shc, pc, captures, revealed) = choose|shc: SharedState, pc: Seq<Point>, captures: int, revealed: bool|
                            #[trigger] capture_stage(shb, pb, shc, pc, captures, revealed) && captured_then(sa, shc, pc, captures, revealed, s1, sh1, r);
                        if pc.len() == 0 || repeats_position(shc, sa.capture_count as int, captures) {
                            assert(restored(shc, sh1));
                        } else {
                            let (shd, extra) = choose|shd: SharedState, extra: bool| #[trigger] extra_stage(shc, pc, shd, extra) && {
                                let state = crate::states::play::PlayModel {
                                    players_passed: Seq::new(sa.players_passed@.len(), |i: int| false),
                                    last_stone: Some(pc),
                                    capture_count: sa.capture_count,
                                };
                                &&& turn_ended(state, shd, extra, sh1)
                                &&& s1@ == crate::states::play::PlayModel { capture_count: crate::states::play::saturating_sum(sa.capture_count as int, captures) as usize, ..state }
                                &&& r matches Ok(ActionChange::NoChange)
                            };
                        }
                    }
                }
            },
        }
    }
}

/// A refused action in play, on a board without hidden stones, leaves the
/// play state, the board and the scores as they were.
proof fn lemma_play_refused(
    s0: PlayState,
    sh0: SharedState,
    player_id: u64,
    action: ActionKind,
    s1: PlayState,
    sh1: SharedState,
    r: Result<ActionChange, MakeActionError>,
)
    requires
        sh0.wf(),
        synced(sh0),
        sh0.board_visibility is None,
        play_action(s0, sh0, player_id, action, s1, sh1, r),
        r is Err,
    ensures
        s1 == s0,
        same_shared(sh0, sh1),
{
    if sh0.active_seat().player == Some(player_id) {
        let (sa, sha, ra) = choose|sa: PlayState, sha: SharedState, ra: Result<ActionChange, MakeActionError>|
            #[trigger] play_step(s0, sh0, action, sa, sha, ra) && s1 == sa && r == ra && if ra is Ok {
                crate::states::play::zen_applied(sha, sh1)
            } else {
                sh1 == sha
            };
        match action {
            ActionKind::Place(x, y) => {
                let team = sh0.active_seat().team;
                assert(sh0.seats@[sh0.turn as int] == sh0.active_seat());
                lemma_place_refused(s0, sh0, (x, y), team, sa, sha, ra);
            },
            ActionKind::Pass => {
                assert(pass_action(s0, sh0, sa, sha, ra));
            },
            ActionKind::Cancel => {
                assert(cancel_action(s0, sh0, sa, sha, ra));
            },
            ActionKind::Resign => {
                assert(resign_action(s0, sh0, sa, sha, ra));
            },
        }
    }
}

/// An action that is refused changes nothing in a game without hidden
/// stones and clocks: the phase, the phases to return to, the recorded
/// actions, the seats, the board, the scores, the turn and the history are
/// as they were. (With hidden stones a refused move may still reveal some,
/// and with clocks the clock has run.) `synced` holds of a new game
/// (`lemma_created_synced`) and actions keep it (`law_actions_keep_synced`
/// states its one exception).
pub proof fn law_refused_action_changes_nothing(
    g0: Game,
    player_id: u64,
    action: ActionKind,
    t: Millisecond,
    g1: Game,
    r: Result<(), MakeActionError>,
)
    requires
        g0.wf(),
        synced(g0.shared),
        g0.shared.board_visibility is None,
        g0.shared.clock is None,
        game_action(g0, player_id, action, t, g1, r),
        r is Err,
    ensures
        g1.state@ == g0.state@,
        g1.state_stack == g0.state_stack,
        g1.actions == g0.actions,
        same_shared(g0.shared, g1.shared),
{
    let sh0 = g0.shared;
    if holds_seat(sh0.seats@, player_id) {
        let (st1, sh1, res) = choose|st1: GameState, sh1: SharedState, res: Result<ActionChange, MakeActionError>|
            #[trigger] phase_step(g0.state, sh0, player_id, action, t, st1, sh1, res) && change_applied(
                g0,
                st1,
                sh1,
                res,
                player_id,
                action,
                t,
                g1,
                r,
            );
        assert(res is Err);
        match g0.state {
            GameState::FreePlacement(s0) => {
                let s1 = choose|s1: FreePlacement| #[trigger] placement_step(s0, sh0, player_id, action, s1, sh1, res) && st1 == GameState::FreePlacement(s1);
                assert(sh1 == sh0);
                assert(s1@ == s0@);
            },
            GameState::Play(s0) => {
                let (sh_a, sh_b, left, s1, sh_c) = choose|sh_a: SharedState, sh_b: SharedState, left: i128, s1: PlayState, sh_c: SharedState|
                    #[trigger] clocks_before_move(sh0, t, sh_a, sh_b, left) && #[trigger] play_action(
                        s0,
                        sh_b,
                        player_id,
                        timed_action(action, left),
                        s1,
                        sh_c,
                        res,
                    ) && st1 == GameState::Play(s1) && if res is Ok && sh0.board_history@.len() != 1 {
                        sh1 == (SharedState { clock: sh1.clock, ..sh_c }) && crate::game::controller::clock_turn_ended(sh_c.clock, sh1.clock, sh0.turn as int, t)
                    } else {
                        sh1 == sh_c
                    };
                assert(sh_a == sh0);
                assert(sh_b == sh0);
                assert(timed_action(action, left) == action);
                lemma_play_refused(s0, sh0, player_id, action, s1, sh_c, res);
            },
            GameState::Scoring(s0) => {
                let s1 = choose|s1: ScoringState| #[trigger] scoring_step(s0, sh0, player_id, action, s1, res) && st1 == GameState::Scoring(s1) && sh1 == sh0;
                assert(s1@ == s0@);
            },
            GameState::Done(_) => {},
        }
    }
}

/// An action in play keeps the game `synced` with the last recorded
/// position, except a refused pixel under tetris go with hidden stones on
/// the board.
proof fn lemma_play_keeps_synced(
    s0: PlayState,
    sh0: SharedState,
    player_id: u64,
    action: ActionKind,
    s1: PlayState,
    sh1: SharedState,
    r: Result<ActionChange, MakeActionError>,
)
    requires
        sh0.wf(),
        synced(sh0),
        play_action(s0, sh0, player_id, action, s1, sh1, r),
        !(sh0.mods.pixel && sh0.mods.tetris is Some && sh0.board_visibility is Some),
    ensures
        synced(sh1),
{
    if sh0.active_seat().player == Some(player_id) {
        let (sa, sha, ra) = choose|sa: PlayState, sha: SharedState, ra: Result<ActionChange, MakeActionError>|
            #[trigger] play_step(s0, sh0, action, sa, sha, ra) && s1 == sa && r == ra && if ra is Ok {
                zen_applied(sha, sh1)
            } else {
                sh1 == sha
            };
        match action {
            ActionKind::Place(x, y) => {
                let team = sh0.active_seat().team;
                assert(sh0.seats@[sh0.turn as int] == sh0.active_seat());
                lemma_place_keeps_synced(s0, sh0, (x, y), team, sa, sha, ra);
            },
            ActionKind::Pass => {
                assert(pass_action(s0, sh0, sa, sha, ra));
            },
            ActionKind::Cancel => {
                assert(cancel_action(s0, sh0, sa, sha, ra));
                if sh0.board_history@.len() >= 2 {
                    assert(sha.board_history@.last() == sh0.board_history@[sh0.board_history@.len() - 2]);
                }
            },
            ActionKind::Resign => {
                assert(resign_action(s0, sh0, sa, sha, ra));
                assert(sha.seats@[sh0.turn as int].resigned);
                assert(!none_resigned(sha.seats@));
            },
        }
        assert(synced(sha));
        if ra is Ok && sh0.mods.zen_go is Some {
            assert forall|i: int| 0 <= i < sha.seats@.len() implies sh1.seats@[i].resigned == (#[trigger] sha.seats@[i]).resigned by {
                assert(sh1.seats@[i].resigned == sha.seats@[i].resigned);
            }
            if none_resigned(sh1.seats@) {
                assert forall|i: int| 0 <= i < sha.seats@.len() implies !(#[trigger] sha.seats@[i]).resigned by {
                    assert(!sh1.seats@[i].resigned);
                }
            }
        }
    }
}

/// A new game starts `synced` with its recorded position.
pub proof fn lemma_created_synced(seats: Seq<u8>, komis: Seq<i32>, size: (u8, u8), mods: super::GameModifier, now: Millisecond, g: Game)
    requires
        created(seats, komis, size, mods, now, g),
    ensures
        synced(g.shared),
{
}

/// Every action keeps the game `synced` with the last recorded
/// position: taking and leaving seats, and the actions of every phase,
/// except a refused pixel under tetris go with hidden stones on the board
/// (whose tetris check may remove revealed stones before refusing it).
pub proof fn law_actions_keep_synced(
    g0: Game,
    player_id: u64,
    action: ActionKind,
    t: Millisecond,
    g1: Game,
    r: Result<(), MakeActionError>,
)
    requires
        g0.wf(),
        synced(g0.shared),
        game_action(g0, player_id, action, t, g1, r),
        !(g0.shared.mods.pixel && g0.shared.mods.tetris is Some && g0.shared.board_visibility is Some),
    ensures
        synced(g1.shared),
{
    let sh0 = g0.shared;
    if holds_seat(sh0.seats@, player_id) {
        let (st1, sh1, res) = choose|st1: GameState, sh1: SharedState, res: Result<ActionChange, MakeActionError>|
            #[trigger] phase_step(g0.state, sh0, player_id, action, t, st1, sh1, res) && change_applied(
                g0,
                st1,
                sh1,
                res,
                player_id,
                action,
                t,
                g1,
                r,
            );
        match g0.state {
            GameState::FreePlacement(s0) => {
                let s1 = choose|s1: FreePlacement| #[trigger] placement_step(s0, sh0, player_id, action, s1, sh1, res) && st1 == GameState::FreePlacement(s1);
            },
            GameState::Play(s0) => {
                let (sh_a, sh_b, left, s1, sh_c) = choose|sh_a: SharedState, sh_b: SharedState, left: i128, s1: PlayState, sh_c: SharedState|
                    #[trigger] clocks_before_move(sh0, t, sh_a, sh_b, left) && #[trigger] play_action(
                        s0,
                        sh_b,
                        player_id,
                        timed_action(action, left),
                        s1,
                        sh_c,
                        res,
                    ) && st1 == GameState::Play(s1) && if res is Ok && sh0.board_history@.len() != 1 {
                        sh1 == (SharedState { clock: sh1.clock, ..sh_c }) && crate::game::controller::clock_turn_ended(sh_c.clock, sh1.clock, sh0.turn as int, t)
                    } else {
                        sh1 == sh_c
                    };
                assert(sh_b == (SharedState { clock: sh_b.clock, ..sh0 }));
                assert(sh_b.wf());
                lemma_play_keeps_synced(s0, sh_b, player_id, timed_action(action, left), s1, sh_c, res);
            },
            GameState::Scoring(s0) => {},
            GameState::Done(_) => {},
        }
    }
}

/// A finished game takes no more actions: every action is refused and the
/// game stays as it was.
pub proof fn law_done_is_final(
    g0: Game,
    player_id: u64,
    action: ActionKind,
    t: Millisecond,
    g1: Game,
    r: Result<(), MakeActionError>,
)
    requires
        g0.state is Done,
        game_action(g0, player_id, action, t, g1, r),
    ensures
        r is Err,
        holds_seat(g0.shared.seats@, player_id) ==> r == Err::<(), MakeActionError>(MakeActionError::GameDone),
        g1 == g0,
{
    if holds_seat(g0.shared.seats@, player_id) {
        let (st1, sh1, res) = choose|st1: GameState, sh1: SharedState, res: Result<ActionChange, MakeActionError>|
            #[trigger] phase_step(g0.state, g0.shared, player_id, action, t, st1, sh1, res) && change_applied(
                g0,
                st1,
                sh1,
                res,
                player_id,
                action,
                t,
                g1,
                r,
            );
    }
}

/// During play only the player of the seat whose turn it is may act: any
/// other seated player is refused with `NotTurn`, and the game keeps its
/// phase, board, scores, turn and history.
pub proof fn law_play_waits_for_turn(
    g0: Game,
    player_id: u64,
    action: ActionKind,
    t: Millisecond,
    g1: Game,
    r: Result<(), MakeActionError>,
)
    requires
        g0.wf(),
        g0.state is Play,
        holds_seat(g0.shared.seats@, player_id),
        g0.shared.active_seat().player != Some(player_id),
        game_action(g0, player_id, action, t, g1, r),
    ensures
        r == Err::<(), MakeActionError>(MakeActionError::NotTurn),
        g1.state == g0.state,
        g1.shared == (SharedState { clock: g1.shared.clock, ..g0.shared }),
        g1.actions == g0.actions,
{
    let sh0 = g0.shared;
    let (st1, sh1, res) = choose|st1: GameState, sh1: SharedState, res: Result<ActionChange, MakeActionError>|
        #[trigger] phase_step(g0.state, sh0, player_id, action, t, st1, sh1, res) && change_applied(
            g0,
            st1,
            sh1,
            res,
            player_id,
            action,
            t,
            g1,
            r,
        );
    if let GameState::Play(s0) = g0.state {
        let (sh_a, sh_b, left, s1, sh_c) = choose|sh_a: SharedState, sh_b: SharedState, left: i128, s1: PlayState, sh_c: SharedState|
            #[trigger] clocks_before_move(sh0, t, sh_a, sh_b, left) && #[trigger] play_action(
                s0,
                sh_b,
                player_id,
                timed_action(action, left),
                s1,
                sh_c,
                res,
            ) && st1 == GameState::Play(s1) && if res is Ok && sh0.board_history@.len() != 1 {
                sh1 == (SharedState { clock: sh1.clock, ..sh_c }) && crate::game::controller::clock_turn_ended(sh_c.clock, sh1.clock, sh0.turn as int, t)
            } else {
                sh1 == sh_c
            };
        assert(sh_b.active_seat() == sh0.active_seat());
    }
}

/// Taking a seat keeps the game `synced` with the last recorded
/// position.
pub proof fn law_take_seat_keeps_synced(g0: Game, player_id: u64, seat_id: usize, g1: Game, r: Result<(), TakeSeatError>)
    requires
        synced(g0.shared),
        seat_taken(g0, player_id, seat_id, g1, r),
    ensures
        synced(g1.shared),
{
    if r is Ok && none_resigned(g1.shared.seats@) {
        assert forall|i: int| 0 <= i < g0.shared.seats@.len() implies !(#[trigger] g0.shared.seats@[i]).resigned by {
            assert(!g1.shared.seats@[i].resigned);
        }
    }
}

/// Leaving a seat keeps the game `synced` with the last recorded
/// position.
pub proof fn law_leave_seat_keeps_synced(g0: Game, player_id: u64, seat_id: usize, g1: Game, r: Result<(), TakeSeatError>)
    requires
        synced(g0.shared),
        seat_left(g0, player_id, seat_id, g1, r),
    ensures
        synced(g1.shared),
{
    if r is Ok && none_resigned(g1.shared.seats@) {
        assert forall|i: int| 0 <= i < g0.shared.seats@.len() implies !(#[trigger] g0.shared.seats@[i]).resigned by {
            assert(!g1.shared.seats@[i].resigned);
        }
    }
}

/// A move in play that succeeds on a board without hidden stones records
/// one more position after the recorded ones.
proof fn lemma_place_records(
    s0: PlayState,
    sh0: SharedState,
    p: Point,
    color: Color,
    s1: PlayState,
    sh1: SharedState,
    r: Result<ActionChange, MakeActionError>,
)
    requires
        sh0.wf(),
        sh0.board_visibility is None,
        color.0 != 0,
        place_action(s0, sh0, p, color, s1, sh1, r),
        r is Ok,
    ensures
        sh1.board_history@.len() == sh0.board_history@.len() + 1,
        sh1.board_history@.drop_last() == sh0.board_history@,
{
    let b = sh0.board;
    let (sa, sha, ra) = choose|sa: PlayState, sha: SharedState, ra: Result<Seq<Point>, MakeActionError>|
        #[trigger] stone_placed(s0, sh0, p, color, sa, sha, ra) && placed_then(sa, sha, ra, s1, sh1, r);
    let vis = opt_vis_points(sh0.board_visibility);
    assert(vis is None);
    if sh0.mods.pixel {
        lemma_pixel_fold_board(b, vis, pixel_points(b, p.0 as int, p.1 as int), color);
    }
    if !sh0.mods.pixel && b.within(p) {
        lemma_index_in_range(&b, p);
        assert(!crate::states::play::vis_hidden_at(vis, b.index_of(p)));
    }
    if let Ok(played) = ra {
        assert(played.len() > 0);
        let (shb, pb) = choose|shb: SharedState, pb: Seq<Point>| #[trigger] tetris_stage(sha, played, shb, pb) && tetris_then(sa, shb, pb, s1, sh1, r);
        let (shc, pc, captures, revealed) = choose|shc: SharedState, pc: Seq<Point>, captures: int, revealed: bool|
            #[trigger] capture_stage(shb, pb, shc, pc, captures, revealed) && captured_then(sa, shc, pc, captures, revealed, s1, sh1, r);
        assert(sha.board_visibility is None);
        assert(!revealed);
        let (shd, extra) = choose|shd: SharedState, extra: bool| #[trigger] extra_stage(shc, pc, shd, extra) && {
            let state = crate::states::play::PlayModel {
                players_passed: Seq::new(sa.players_passed@.len(), |i: int| false),
                last_stone: Some(pc),
                capture_count: sa.capture_count,
            };
            &&& turn_ended(state, shd, extra, sh1)
            &&& s1@ == crate::states::play::PlayModel { capture_count: crate::states::play::saturating_sum(sa.capture_count as int, captures) as usize, ..state }
            &&& r matches Ok(ActionChange::NoChange)
        };
    }
}

/// Every clock that a move at `t` reads is in time: without clocks, or
/// paused, or with more than a second's overrun still to go.
pub open spec fn in_time(g: Game, t: Millisecond) -> bool {
    match g.shared.clock {
        None => true,
        Some(c) => c.paused || {
            let pc = c.clocks@[g.shared.turn as int];
            let last: int = if g.shared.board_history@.len() == 1 {
                t.0 as int
            } else {
                pc.last_time() as int
            };
            pc.time_left() - (t.0 - last) >= -1000
        },
    }
}

/// A move in time is made as asked, on the game with its clocks read.
proof fn lemma_in_time_action(g: Game, t: Millisecond, sh_a: SharedState, sh_b: SharedState, left: i128, action: ActionKind)
    requires
        g.wf(),
        in_time(g, t),
        clocks_before_move(g.shared, t, sh_a, sh_b, left),
    ensures
        timed_action(action, left) == action,
        sh_b == (SharedState { clock: sh_b.clock, ..g.shared }),
        sh_b.wf(),
{
    let sh0 = g.shared;
    if let Some(c) = sh0.clock {
        let ca = sh_a.clock.unwrap();
        assert(ca.clocks@.len() == c.clocks@.len());
        if !c.paused {
            assert(sh0.turn < c.clocks@.len());
            if sh0.board_history@.len() == 1 {
                assert(ca.clocks@[sh0.turn as int] == restarted(c.clocks@[sh0.turn as int], t));
            } else {
                assert(ca == c);
            }
        }
        let cb = sh_b.clock.unwrap();
        assert(cb.clocks@.len() == c.clocks@.len());
    }
}

/// Cancel undoes a move: after a successful move in play (without hidden
/// stones, while no seat has resigned, and with every clock read in time),
/// the player whose turn it then is may cancel it, and the board, the
/// scores, the turn and the number of recorded positions are those from
/// before the move.
pub proof fn law_cancel_undoes_place(
    g0: Game,
    player_id: u64,
    x: u32,
    y: u32,
    t: Millisecond,
    g1: Game,
    next_player: u64,
    t2: Millisecond,
    g2: Game,
    r2: Result<(), MakeActionError>,
)
    requires
        g0.wf(),
        synced(g0.shared),
        none_resigned(g0.shared.seats@),
        g0.state is Play,
        g0.shared.board_visibility is None,
        in_time(g0, t),
        game_action(g0, player_id, ActionKind::Place(x, y), t, g1, Ok(())),
        g1.wf(),
        g1.shared.active_seat().player == Some(next_player),
        in_time(g1, t2),
        game_action(g1, next_player, ActionKind::Cancel, t2, g2, r2),
    ensures
        r2 is Ok,
        g2.state is Play,
        g2.shared.board@ == g0.shared.board@,
        g2.shared.points@ == g0.shared.points@,
        g2.shared.turn == g0.shared.turn,
        g2.shared.board_history@.len() == g0.shared.board_history@.len(),
{
    let sh0 = g0.shared;
    let action = ActionKind::Place(x, y);
    // The move.
    assert(holds_seat(sh0.seats@, player_id));
    let (st1, sh1, res) = choose|st1: GameState, sh1: SharedState, res: Result<ActionChange, MakeActionError>|
        #[trigger] phase_step(g0.state, sh0, player_id, action, t, st1, sh1, res) && change_applied(
            g0,
            st1,
            sh1,
            res,
            player_id,
            action,
            t,
            g1,
            Ok(()),
        );
    if let GameState::Play(s0) = g0.state {
        let (sh_a, sh_b, left, s1, sh_c) = choose|sh_a: SharedState, sh_b: SharedState, left: i128, s1: PlayState, sh_c: SharedState|
            #[trigger] clocks_before_move(sh0, t, sh_a, sh_b, left) && #[trigger] play_action(
                s0,
                sh_b,
                player_id,
                timed_action(action, left),
                s1,
                sh_c,
                res,
            ) && st1 == GameState::Play(s1) && if res is Ok && sh0.board_history@.len() != 1 {
                sh1 == (SharedState { clock: sh1.clock, ..sh_c }) && crate::game::controller::clock_turn_ended(sh_c.clock, sh1.clock, sh0.turn as int, t)
            } else {
                sh1 == sh_c
            };
        lemma_in_time_action(g0, t, sh_a, sh_b, left, action);
        assert(sh_b.wf());
        let (sa, sha, ra) = choose|sa: PlayState, sha: SharedState, ra: Result<ActionChange, MakeActionError>|
            #[trigger] play_step(s0, sh_b, action, sa, sha, ra) && s1 == sa && res == ra && if ra is Ok {
                zen_applied(sha, sh_c)
            } else {
                sh_c == sha
            };
        assert(sh0.seats@[sh0.turn as int] == sh0.active_seat());
        assert(sh_b.active_seat() == sh0.active_seat());
        lemma_place_records(s0, sh_b, (x, y), sh0.active_seat().team, sa, sha, ra);
        assert(sh1.board_history == sha.board_history);
        assert(res matches Ok(ActionChange::NoChange));
        assert(g1.shared == sh1);
        assert(g1.state == GameState::Play(s1));
        // The cancel.
        let h = sh0.board_history@.last();
        assert(sh1.board_history@[sh1.board_history@.len() - 2] == h);
        assert(holds_seat(sh1.seats@, next_player));
        let (st2, sh2, res2) = choose|st2: GameState, sh2: SharedState, res2: Result<ActionChange, MakeActionError>|
            #[trigger] phase_step(g1.state, sh1, next_player, ActionKind::Cancel, t2, st2, sh2, res2) && change_applied(
                g1,
                st2,
                sh2,
                res2,
                next_player,
                ActionKind::Cancel,
                t2,
                g2,
                r2,
            );
        let (sh_a2, sh_b2, left2, s2, sh_c2) = choose|sh_a2: SharedState, sh_b2: SharedState, left2: i128, s2: PlayState, sh_c2: SharedState|
            #[trigger] clocks_before_move(sh1, t2, sh_a2, sh_b2, left2) && #[trigger] play_action(
                s1,
                sh_b2,
                next_player,
                timed_action(ActionKind::Cancel, left2),
                s2,
                sh_c2,
                res2,
            ) && st2 == GameState::Play(s2) && if res2 is Ok && sh1.board_history@.len() != 1 {
                sh2 == (SharedState { clock: sh2.clock, ..sh_c2 }) && crate::game::controller::clock_turn_ended(sh_c2.clock, sh2.clock, sh1.turn as int, t2)
            } else {
                sh2 == sh_c2
            };
        lemma_in_time_action(g1, t2, sh_a2, sh_b2, left2, ActionKind::Cancel);
        let (sa2, sha2, ra2) = choose|sa2: PlayState, sha2: SharedState, ra2: Result<ActionChange, MakeActionError>|
            #[trigger] play_step(s1, sh_b2, ActionKind::Cancel, sa2, sha2, ra2) && s2 == sa2 && res2 == ra2 && if ra2 is Ok {
                zen_applied(sha2, sh_c2)
            } else {
                sh_c2 == sha2
            };
        assert(cancel_action(s1, sh_b2, sa2, sha2, ra2));
        assert(sha2.board_history@ == sh0.board_history@);
    }
}

} // verus!
