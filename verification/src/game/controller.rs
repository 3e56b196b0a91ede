use vstd::prelude::*;

use super::clock::{restarted, ClockRule, GameClock, Millisecond, PlayerClock};
use super::vecs::copy_vec;
use super::visibility::bit;
use super::{
    copy_visibility, opt_board_view, Point, Visibility, VisibilityBoard, VisibilityMode, ActionChange, ActionKind, Board, BoardHistory, Color, GameAction, GameModifier, MakeActionError, ReplayActionKind, Seat,
    SharedState, TakeSeatError,
};
use crate::states::free_placement::{fresh_play, holds_seat};
use crate::game::board::BoardModel;
use crate::states::scoring::territory_fits;
use crate::states::free_placement::placement_step;
use crate::states::free_placement::{find_seat, seat_of};
use crate::states::play::{lemma_room_territory, opt_points_view, opt_vis_points, play_action, PlayModel};
use crate::states::{FreePlacementModel, ScoringModel};
use crate::states::scoring::scoring_step;
use crate::states::{FreePlacement, GameState, GameStateModel, PlayState, ScoringState};

verus! {

/// A game: its current phase, the phases it can go back to, the state all
/// phases share, and every action taken, for replays.
#[derive(Debug)]
pub struct Game {
    pub state: GameState,
    pub state_stack: Vec<GameState>,
    pub shared: SharedState,
    pub actions: Vec<GameAction>,
}

/// What a replay holds: enough to rebuild a game by playing its actions
/// again.
#[derive(Debug)]
pub struct GameReplay {
    pub actions: Vec<GameAction>,
    pub mods: GameModifier,
    pub komis: Vec<i32>,
    pub seats: Vec<u8>,
    pub size: (u8, u8),
}

/// A seat list, a komi list and modifiers that a game can be played with:
/// every team has a score, and Zen go cycles through existing teams.
pub open spec fn valid_setup(seats: Seq<u8>, komis: Seq<i32>, mods: GameModifier) -> bool {
    &&& forall|i: int| 0 <= i < seats.len() ==> 1 <= #[trigger] seats[i] <= komis.len()
    &&& (mods.zen_go matches Some(z) ==> 1 <= z.color_count <= komis.len())
}

/// The checks `Game::standard` makes: one to four teams per seat, one to
/// seven seats, one to four komis, and at most 25 by 25 points.
pub open spec fn accepted_setup(seats: Seq<u8>, komis: Seq<i32>, size: (u8, u8)) -> bool {
    &&& forall|i: int| 0 <= i < seats.len() ==> 1 <= #[trigger] seats[i] <= 4
    &&& 1 <= seats.len() <= 7
    &&& 1 <= komis.len() <= 4
    &&& size.0 <= 25
    &&& size.1 <= 25
}

/// The setups `Game::standard` accepts (it gives a game exactly for these):
/// every seat of team 1 to 4, one to seven seats (seven seats is three
/// colours of rengo), one to four komis, and a board of at most 25 by 25.
pub proof fn law_standard_setups(seats: Seq<u8>, komis: Seq<i32>, size: (u8, u8))
    ensures
        accepted_setup(seats, komis, size) <==> {
            &&& forall|i: int| 0 <= i < seats.len() ==> 1 <= #[trigger] seats[i] && seats[i] <= 4
            &&& 1 <= seats.len() && seats.len() <= 7
            &&& 1 <= komis.len() && komis.len() <= 4
            &&& size.0 <= 25 && size.1 <= 25
        },
{
}

/// `player_id` takes the seat `seat_id` of `g0`, giving `g1`: with hidden
/// moves a player may hold only one seat; the seat must exist and be open.
pub open spec fn seat_taken(g0: Game, player_id: u64, seat_id: usize, g1: Game, r: Result<(), TakeSeatError>) -> bool {
    if g0.shared.mods.hidden_move is Some && holds_seat(g0.shared.seats@, player_id) {
        r == Err::<(), TakeSeatError>(TakeSeatError::CanOnlyHoldOne) && g1 == g0
    } else if seat_id >= g0.shared.seats@.len() {
        r == Err::<(), TakeSeatError>(TakeSeatError::DoesNotExist) && g1 == g0
    } else if g0.shared.seats@[seat_id as int].player is Some {
        r == Err::<(), TakeSeatError>(TakeSeatError::NotOpen) && g1 == g0
    } else {
        &&& r is Ok
        &&& g1.shared == (SharedState { seats: g1.shared.seats, ..g0.shared })
        &&& g1.shared.seats@ == g0.seated(seat_id as int, Some(player_id))
        &&& g1.actions@ == g0.actions@.push(GameAction { user_id: player_id, action: ReplayActionKind::TakeSeat(seat_id as u32) })
        &&& g1.state == g0.state
        &&& g1.state_stack == g0.state_stack
    }
}

/// `player_id` leaves the seat `seat_id` of `g0`, giving `g1`: the seat must
/// exist and be theirs.
pub open spec fn seat_left(g0: Game, player_id: u64, seat_id: usize, g1: Game, r: Result<(), TakeSeatError>) -> bool {
    if seat_id >= g0.shared.seats@.len() {
        r == Err::<(), TakeSeatError>(TakeSeatError::DoesNotExist) && g1 == g0
    } else if g0.shared.seats@[seat_id as int].player != Some(player_id) {
        r == Err::<(), TakeSeatError>(TakeSeatError::NotOpen) && g1 == g0
    } else {
        &&& r is Ok
        &&& g1.shared == (SharedState { seats: g1.shared.seats, ..g0.shared })
        &&& g1.shared.seats@ == g0.seated(seat_id as int, None)
        &&& g1.actions@ == g0.actions@.push(GameAction { user_id: player_id, action: ReplayActionKind::LeaveSeat(seat_id as u32) })
        &&& g1.state == g0.state
        &&& g1.state_stack == g0.state_stack
    }
}

impl Game {
    /// The game is consistent: the shared state is, the current phase
    /// belongs to it, the phases to go back to are play phases, and a
    /// scoring phase always has one to go back to.
    pub open spec fn wf(&self) -> bool {
        &&& self.shared.wf()
        &&& match self.state {
            GameState::FreePlacement(s) => s.fits(&self.shared),
            GameState::Play(s) => s.fits(&self.shared),
            GameState::Scoring(s) => s.fits(&self.shared) && self.state_stack@.len() >= 1,
            GameState::Done(_) => true,
        }
        &&& forall|k: int|
            0 <= k < self.state_stack@.len() ==> (#[trigger] self.state_stack@[k] matches GameState::Play(p) && p.fits(&self.shared))
    }

    /// The seats with `seat_id` held by `player_id`.
    pub open spec fn seated(&self, seat_id: int, player: Option<u64>) -> Seq<Seat> {
        self.shared.seats@.update(seat_id, Seat { player, ..self.shared.seats@[seat_id] })
    }

    /// `player_id` takes the open seat `seat_id`; with hidden moves a player
    /// may hold only one seat. The action is recorded.
    pub fn take_seat(&mut self, player_id: u64, seat_id: usize) -> (r: Result<(), TakeSeatError>)
        ensures
            old(self).wf() ==> final(self).wf(),
            seat_taken(*old(self), player_id, seat_id, *final(self), r),
    {
        if self.shared.mods.hidden_move.is_some() {
            let mut i: usize = 0;
            while i < self.shared.seats.len()
                invariant
                    *self == *old(self),
                    self.shared.mods.hidden_move is Some,
                    i <= self.shared.seats@.len(),
                    forall|j: int| 0 <= j < i ==> (#[trigger] self.shared.seats@[j]).player != Some(player_id),
                decreases self.shared.seats@.len() - i,
            {
                if self.shared.seats[i].is_held_by(player_id) {
                    return Err(TakeSeatError::CanOnlyHoldOne);
                }
                i = i + 1;
            }
        }
        if seat_id >= self.shared.seats.len() {
            return Err(TakeSeatError::DoesNotExist);
        }
        let mut seat = self.shared.seats[seat_id];
        if seat.player.is_some() {
            return Err(TakeSeatError::NotOpen);
        }
        seat.player = Some(player_id);
        self.shared.seats.set(seat_id, seat);
        self.actions.push(GameAction::new(player_id, ReplayActionKind::TakeSeat(seat_id as u32)));
        proof {
            if old(self).wf() {
                lemma_seats_change_keeps_wf(*old(self), *self);
            }
        }
        Ok(())
    }

    /// `player_id` leaves the seat `seat_id`, which must be theirs. The action
    /// is recorded.
    pub fn leave_seat(&mut self, player_id: u64, seat_id: usize) -> (r: Result<(), TakeSeatError>)
        ensures
            old(self).wf() ==> final(self).wf(),
            seat_left(*old(self), player_id, seat_id, *final(self), r),
    {
        if seat_id >= self.shared.seats.len() {
            return Err(TakeSeatError::DoesNotExist);
        }
        let mut seat = self.shared.seats[seat_id];
        if !seat.is_held_by(player_id) {
            return Err(TakeSeatError::NotOpen);
        }
        seat.player = None;
        self.shared.seats.set(seat_id, seat);
        self.actions.push(GameAction::new(player_id, ReplayActionKind::LeaveSeat(seat_id as u32)));
        proof {
            if old(self).wf() {
                lemma_seats_change_keeps_wf(*old(self), *self);
            }
        }
        Ok(())
    }
}

/// Changing who holds the seats keeps a game consistent.
proof fn lemma_seats_change_keeps_wf(g0: Game, g1: Game)
    requires
        g0.wf(),
        g1.shared == (SharedState { seats: g1.shared.seats, ..g0.shared }),
        g1.shared.seats@.len() == g0.shared.seats@.len(),
        forall|i: int| 0 <= i < g0.shared.seats@.len() ==> (#[trigger] g1.shared.seats@[i]).team == g0.shared.seats@[i].team,
        g1.state == g0.state,
        g1.state_stack == g0.state_stack,
    ensures
        g1.wf(),
{
    assert forall|k: int| 0 <= k < g1.shared.board_history@.len() implies g1.shared.history_fits(#[trigger] g1.shared.board_history@[k]) by {
        assert(g0.shared.history_fits(g0.shared.board_history@[k]));
    }
    assert forall|i: int| 0 <= i < g1.shared.seats@.len() implies 1 <= (#[trigger] g1.shared.seats@[i]).team.0 <= g1.shared.points@.len()
        && g1.shared.seats@[i].team.0 < 16 by {
        assert(g0.shared.seats@[i].team == g1.shared.seats@[i].team);
    }
    assert forall|k: int| 0 <= k < g1.state_stack@.len() implies (#[trigger] g1.state_stack@[k] matches GameState::Play(p) && p.fits(&g1.shared)) by {
        assert(g0.state_stack@[k] matches GameState::Play(p) && p.fits(&g0.shared));
    }
}

/// The system clock's distance from the Unix epoch in whole milliseconds
/// (`SystemTime::now().duration_since(UNIX_EPOCH)`, then
/// `Duration::as_millis`): `Ok` at or after the epoch, `Err` before it.
/// Nothing is promised of the reading.
#[verifier::external_body]
fn epoch_millis() -> Result<u128, u128> {
    match std::time::SystemTime::now().duration_since(std::time::UNIX_EPOCH) {
        Ok(d) => Ok(d.as_millis()),
        Err(e) => Err(e.duration().as_millis()),
    }
}

/// The time of a clock reading (see `epoch_millis`) in milliseconds since
/// the Unix epoch, negative before it, held to the range of `Millisecond`
/// without its least value.
pub open spec fn millis_of_reading(reading: Result<u128, u128>) -> i128 {
    match reading {
        Ok(ms) => if ms <= i128::MAX {
            ms as i128
        } else {
            i128::MAX
        },
        Err(ms) => if ms <= i128::MAX {
            -ms as i128
        } else {
            -i128::MAX as i128
        },
    }
}

/// The time of the clock reading `reading`: see `millis_of_reading`.
fn millis_from_reading(reading: Result<u128, u128>) -> (t: Millisecond)
    ensures
        t.0 == millis_of_reading(reading),
{
    let max: u128 = 0x7fff_ffff_ffff_ffff_ffff_ffff_ffff_ffff;
    match reading {
        Ok(ms) => if ms <= max {
            Millisecond(ms as i128)
        } else {
            Millisecond(0x7fff_ffff_ffff_ffff_ffff_ffff_ffff_ffff)
        },
        Err(ms) => if ms <= max {
            Millisecond(-(ms as i128))
        } else {
            Millisecond(-0x7fff_ffff_ffff_ffff_ffff_ffff_ffff_ffff)
        },
    }
}

/// The current time in milliseconds since the Unix epoch, negative before
/// it: the time of one reading of the system clock, whatever it reads.
fn now_millis() -> (t: Millisecond)
    ensures
        exists|reading: Result<u128, u128>| t.0 == millis_of_reading(reading),
{
    let reading = epoch_millis();
    let t = millis_from_reading(reading);
    proof {
        assert(t.0 == millis_of_reading(reading));
    }
    t
}

/// `g` is the game `Game::standard` creates at time `now`: open seats of the
/// given teams, the komis as scores, an empty board of the given size
/// (wrapping under toroidal go), the starting position recorded, clocks
/// (if any) started at `now`, and the placement phase under hidden moves or
/// the play phase otherwise.
pub open spec fn created(seats: Seq<u8>, komis: Seq<i32>, size: (u8, u8), mods: GameModifier, now: Millisecond, g: Game) -> bool {
    let sh = g.shared;
    &&& sh.seats@ == Seq::new(seats.len(), |i: int| Seat { player: None, team: Color(seats[i]), resigned: false })
    &&& sh.points@ == komis
    &&& sh.komis@ == komis
    &&& sh.setup_teams@ == seats
    &&& sh.turn == 0
    &&& sh.pass_count == 0
    &&& sh.board.wf()
    &&& sh.board.width == size.0
    &&& sh.board.height == size.1
    &&& sh.board.toroidal == (mods.toroidal is Some)
    &&& forall|i: int| 0 <= i < sh.board.points@.len() ==> (#[trigger] sh.board.points@[i]).0 == 0
    &&& sh.board_visibility is None
    &&& sh.board_history@.len() == 1
    &&& sh.records(sh.board_history@[0], fresh_play(seats.len()))
    &&& sh.mods == mods
    &&& match mods.clock {
        Some(c) => sh.clock matches Some(gc) && gc.rule == c.rule && gc.paused && gc.clocks@ == Seq::new(
            seats.len(),
            |i: int| restarted(c.rule.spec_clock(), now),
        ),
        None => sh.clock is None,
    }
    &&& match mods.hidden_move {
        Some(h) => g.state matches GameState::FreePlacement(fp) && {
            &&& fp.teams_share_stones == h.teams_share_stones
            &&& fp.boards@.len() == if h.teams_share_stones { komis.len() } else { seats.len() }
            &&& forall|k: int| 0 <= k < fp.boards@.len() ==> (#[trigger] fp.boards@[k])@ == sh.board@
            &&& fp.stones_placed@ == Seq::new(fp.boards@.len(), |i: int| 0u32)
            &&& fp.players_ready@ == Seq::new(seats.len(), |i: int| false)
        },
        None => g.state@ == GameStateModel::Play(fresh_play(seats.len())),
    }
    &&& g.state_stack@.len() == 0
    &&& g.actions@.len() == 0
}

impl Game {
    /// A new game at time `now`, if the setup is one `Game::standard`
    /// accepts (see `accepted_setup`): see `created`. It is consistent when
    /// every team has a score (see `valid_setup`).
    pub fn standard_at(seats: &[u8], komis: Vec<i32>, size: (u8, u8), mods: GameModifier, now: Millisecond) -> (r: Option<Game>)
        ensures
            r is Some <==> accepted_setup(seats@, komis@, size),
            r matches Some(g) ==> created(seats@, komis@, size, mods, now, g),
            valid_setup(seats@, komis@, mods) ==> (r matches Some(g) ==> g.wf()),
    {
        let mut i: usize = 0;
        while i < seats.len()
            invariant
                i <= seats@.len(),
                forall|j: int| 0 <= j < i ==> 1 <= #[trigger] seats@[j] <= 4,
            decreases seats@.len() - i,
        {
            if !(seats[i] > 0 && seats[i] <= 4) {
                return None;
            }
            i = i + 1;
        }
        if !(1 <= seats.len() && seats.len() <= 7) || !(1 <= komis.len() && komis.len() <= 4) {
            return None;
        }
        if size.0 > 25 || size.1 > 25 {
            return None;
        }
        proof {
            let w = size.0 as int;
            let h = size.1 as int;
            assert(w * h <= 625) by (nonlinear_arith)
                requires
                    0 <= w <= 25,
                    0 <= h <= 25,
            ;
        }
        let board = Board::<Color>::empty(size.0 as u32, size.1 as u32, mods.toroidal.is_some());
        let n = seats.len();
        let state = match mods.hidden_move {
            Some(rules) => GameState::FreePlacement(FreePlacement::new(n, komis.len(), &board, rules.teams_share_stones)),
            None => GameState::play(n),
        };
        let clock = match mods.clock {
            Some(c) => {
                let mut clock = GameClock::new(c.rule, n);
                clock.initialize_clocks(now);
                proof {
                    assert(clock.clocks@ =~= Seq::new(n as nat, |i: int| restarted(c.rule.spec_clock(), now)));
                }
                Some(clock)
            },
            None => None,
        };
        let mut seat_list: Vec<Seat> = Vec::new();
        let mut setup_teams: Vec<u8> = Vec::new();
        let mut k: usize = 0;
        while k < n
            invariant
                k <= n,
                n == seats@.len(),
                seat_list@ == Seq::new(k as nat, |j: int| Seat { player: None, team: Color(seats@[j]), resigned: false }),
                setup_teams@ == seats@.subrange(0, k as int),
            decreases n - k,
        {
            seat_list.push(Seat::new(Color(seats[k])));
            setup_teams.push(seats[k]);
            k = k + 1;
            proof {
                assert(seat_list@ =~= Seq::new(k as nat, |j: int| Seat { player: None, team: Color(seats@[j]), resigned: false }));
                assert(setup_teams@ =~= seats@.subrange(0, k as int));
            }
        }
        proof {
            assert(setup_teams@ =~= seats@);
        }
        let h = BoardHistory {
            hash: board.hash(),
            board: board.copy(),
            board_visibility: None,
            state: GameState::play(n),
            points: copy_vec(&komis),
            turn: 0,
        };
        let game = Game {
            state,
            state_stack: Vec::new(),
            shared: SharedState {
                setup_teams,
                seats: seat_list,
                points: copy_vec(&komis),
                turn: 0,
                pass_count: 0,
                board,
                board_visibility: None,
                board_history: vec![h],
                komis,
                mods,
                clock,
            },
            actions: Vec::new(),
        };
        proof {
            let g = game;
            assert(g.shared.board_history@.len() == 1);
            if valid_setup(seats@, g.shared.komis@, mods) {
                assert forall|k2: int| 0 <= k2 < g.shared.board_history@.len() implies g.shared.history_fits(#[trigger] g.shared.board_history@[k2]) by {
                    assert(k2 == 0);
                }
                assert forall|j: int| 0 <= j < g.shared.seats@.len() implies 1 <= (#[trigger] g.shared.seats@[j]).team.0 <= g.shared.points@.len()
                    && g.shared.seats@[j].team.0 < 16 by {
                    assert(1 <= seats@[j] <= 4);
                }
                assert(g.shared.wf());
            }
        }
        Some(game)
    }

    /// A new game started now: see `standard_at`.
    pub fn standard(seats: &[u8], komis: Vec<i32>, size: (u8, u8), mods: GameModifier) -> (r: Option<Game>)
        ensures
            r is Some <==> accepted_setup(seats@, komis@, size),
            r matches Some(g) ==> exists|now: Millisecond| #[trigger] created(seats@, komis@, size, mods, now, g),
            valid_setup(seats@, komis@, mods) ==> (r matches Some(g) ==> g.wf()),
    {
        let now = now_millis();
        Game::standard_at(seats, komis, size, mods, now)
    }

    /// The replay of the game: its actions, komis, size, the teams its seats
    /// were created with, and modifiers.
    pub fn dump(&self) -> (r: GameReplay)
        ensures
            r.actions@ == self.actions@,
            r.komis@ == self.shared.komis@,
            r.size == (self.shared.board.width as u8, self.shared.board.height as u8),
            r.seats@ == self.shared.setup_teams@,
            r.mods == self.shared.mods,
    {
        GameReplay {
            actions: copy_vec(&self.actions),
            mods: self.shared.mods,
            komis: copy_vec(&self.shared.komis),
            seats: copy_vec(&self.shared.setup_teams),
            size: (self.shared.board.width as u8, self.shared.board.height as u8),
        }
    }
}

/// `c1` is `c0` with every clock's last reading moved to `t`.
pub open spec fn clocks_restarted(c0: Option<GameClock>, c1: Option<GameClock>, t: Millisecond) -> bool {
    match (c0, c1) {
        (Some(a), Some(b)) => b.clocks@ == a.clocks@.map_values(|c: PlayerClock| restarted(c, t)) && b.rule == a.rule && b.paused == a.paused,
        (None, None) => true,
        _ => false,
    }
}

/// Charging clock `idx` of `c0` the time up to `t`, which becomes its last
/// reading, gives `c1` and the time `left` on it; without clocks, or paused,
/// `left` is 0.
pub open spec fn clock_charged(c0: Option<GameClock>, c1: Option<GameClock>, idx: int, t: Millisecond, left: i128) -> bool {
    match (c0, c1) {
        (Some(a), Some(b)) => if a.paused {
            left == 0 && b == a
        } else {
            let c = a.clocks@[idx];
            &&& left == c.time_left() - (t.0 - c.last_time())
            &&& b.clocks@ == a.clocks@.update(idx, PlayerClock::Plain { last_time: t, time_left: Millisecond(left) })
            &&& b.rule == a.rule
            &&& b.paused == a.paused
        },
        (None, None) => left == 0,
        _ => false,
    }
}

/// Ending the turn on clock `idx` of `c0` at `t` gives `c1`: Simple time
/// refills it, Fischer time adds the increment, and every clock's last
/// reading becomes `t`; a paused clock is left alone.
pub open spec fn clock_turn_ended(c0: Option<GameClock>, c1: Option<GameClock>, idx: int, t: Millisecond) -> bool {
    match (c0, c1) {
        (Some(a), Some(b)) => if a.paused {
            b == a
        } else {
            let c = a.clocks@[idx];
            let refilled = match a.rule {
                ClockRule::Simple(rule) => rule.turn_time,
                ClockRule::Fischer(rule) => Millisecond((c.time_left() + rule.increment.0) as i128),
            };
            &&& b.clocks@ == a.clocks@.update(idx, PlayerClock::Plain { last_time: Millisecond(c.last_time()), time_left: refilled }).map_values(
                |x: PlayerClock| restarted(x, t),
            )
            &&& b.rule == a.rule
            &&& b.paused == a.paused
        },
        (None, None) => true,
        _ => false,
    }
}

/// Before a move in play at `t`: on the first move the clocks start at `t`
/// (`sh_a`), then the clock of the seat to move is charged (`sh_b`),
/// leaving `left` on it.
pub open spec fn clocks_before_move(sh0: SharedState, t: Millisecond, sh_a: SharedState, sh_b: SharedState, left: i128) -> bool {
    &&& if sh0.board_history@.len() == 1 {
        sh_a == (SharedState { clock: sh_a.clock, ..sh0 }) && clocks_restarted(sh0.clock, sh_a.clock, t)
    } else {
        sh_a == sh0
    }
    &&& sh_b == (SharedState { clock: sh_b.clock, ..sh_a })
    &&& clock_charged(sh_a.clock, sh_b.clock, sh0.turn as int, t, left)
}

/// The action a seat takes with `left` milliseconds on its clock: it
/// resigns once it is more than a second over its time.
pub open spec fn timed_action(action: ActionKind, left: i128) -> ActionKind {
    if left < -1000 {
        ActionKind::Resign
    } else {
        action
    }
}

/// A move in play at time `t`: the clocks run (see `clocks_before_move`); a
/// seat more than a second over its time resigns instead of acting; after a
/// successful move other than the first, its turn ends on the clock.
pub open spec fn timed_play_step(
    s0: PlayState,
    sh0: SharedState,
    player_id: u64,
    action: ActionKind,
    t: Millisecond,
    st1: GameState,
    sh1: SharedState,
    res: Result<ActionChange, MakeActionError>,
) -> bool {
    exists|sh_a: SharedState, sh_b: SharedState, left: i128, s1: PlayState, sh_c: SharedState|
        #[trigger] clocks_before_move(sh0, t, sh_a, sh_b, left) && #[trigger] play_action(
            s0,
            sh_b,
            player_id,
            timed_action(action, left),
            s1,
            sh_c,
            res,
        ) && st1 == GameState::Play(s1) && if res is Ok && sh0.board_history@.len() != 1 {
            sh1 == (SharedState { clock: sh1.clock, ..sh_c }) && clock_turn_ended(sh_c.clock, sh1.clock, sh0.turn as int, t)
        } else {
            sh1 == sh_c
        }
}

/// The current phase acts: placement, play (with clocks), scoring; a game
/// that is done takes no action.
pub open spec fn phase_step(
    st0: GameState,
    sh0: SharedState,
    player_id: u64,
    action: ActionKind,
    t: Millisecond,
    st1: GameState,
    sh1: SharedState,
    res: Result<ActionChange, MakeActionError>,
) -> bool {
    match st0 {
        GameState::FreePlacement(s) => exists|s1: FreePlacement|
            #[trigger] placement_step(s, sh0, player_id, action, s1, sh1, res) && st1 == GameState::FreePlacement(s1),
        GameState::Play(s) => timed_play_step(s, sh0, player_id, action, t, st1, sh1, res),
        GameState::Scoring(s) => exists|s1: ScoringState|
            #[trigger] scoring_step(s, sh0, player_id, action, s1, res) && st1 == GameState::Scoring(s1) && sh1 == sh0,
        GameState::Done(_) => res == Err::<ActionChange, MakeActionError>(MakeActionError::GameDone) && st1 == st0 && sh1 == sh0,
    }
}

/// The phase change an action asks for is made, and a successful action is
/// recorded; returning to an earlier phase restarts the clocks at `t`.
pub open spec fn change_applied(
    g0: Game,
    st1: GameState,
    sh1: SharedState,
    res: Result<ActionChange, MakeActionError>,
    player_id: u64,
    action: ActionKind,
    t: Millisecond,
    g1: Game,
    r: Result<(), MakeActionError>,
) -> bool {
    match res {
        Err(e) => r == Err::<(), MakeActionError>(e) && g1 == (Game { state: st1, shared: sh1, ..g0 }),
        Ok(change) => {
            &&& r is Ok
            &&& g1.actions@ == g0.actions@.push(GameAction { user_id: player_id, action: ReplayActionKind::Play(action) })
            &&& match change {
                ActionChange::NoChange => g1.state == st1 && g1.state_stack == g0.state_stack && g1.shared == sh1,
                ActionChange::SwapState(n) => g1.state == n && g1.state_stack == g0.state_stack && g1.shared == sh1,
                ActionChange::PushState(n) => g1.state == n && g1.state_stack@ == g0.state_stack@.push(st1) && g1.shared == sh1,
                ActionChange::PopState => {
                    &&& g1.state == g0.state_stack@.last()
                    &&& g1.state_stack@ == g0.state_stack@.drop_last()
                    &&& g1.shared == (SharedState { clock: g1.shared.clock, ..sh1 })
                    &&& clocks_restarted(sh1.clock, g1.shared.clock, t)
                },
            }
        },
    }
}

/// An action of `player_id` at time `t`: only players holding a seat may act;
/// the current phase acts (see `phase_step`) and its change is applied (see
/// `change_applied`).
pub open spec fn game_action(g0: Game, player_id: u64, action: ActionKind, t: Millisecond, g1: Game, r: Result<(), MakeActionError>) -> bool {
    if !holds_seat(g0.shared.seats@, player_id) {
        r == Err::<(), MakeActionError>(MakeActionError::NotPlayer) && g1 == g0
    } else {
        exists|st1: GameState, sh1: SharedState, res: Result<ActionChange, MakeActionError>|
            #[trigger] phase_step(g0.state, g0.shared, player_id, action, t, st1, sh1, res) && change_applied(
                g0,
                st1,
                sh1,
                res,
                player_id,
                action,
                t,
                g1,
                r,
            )
    }
}

impl Game {
    /// The clock arithmetic of a move at `t` in play fits in `i128`.
    pub open spec fn clock_room(&self, t: Millisecond) -> bool {
        (self.state is Play) ==> match self.shared.clock {
            Some(c) => !c.paused ==> {
                let start = self.shared.board_history@.len() == 1;
                let pc = c.clocks@[self.shared.turn as int];
                let last: int = if start { t.0 as int } else { pc.last_time() as int };
                let left = pc.time_left() - (t.0 - last);
                &&& i128::MIN <= t.0 - last <= i128::MAX
                &&& i128::MIN <= left <= i128::MAX
                &&& !start ==> match c.rule {
                    ClockRule::Fischer(rule) => i128::MIN <= left + rule.increment.0 <= i128::MAX,
                    ClockRule::Simple(_) => true,
                }
            },
            None => true,
        }
    }

    /// An action of `player_id` at time `t`: see `game_action`.
    #[verifier::rlimit(60)]
    #[verifier::spinoff_prover]
    pub fn make_action(&mut self, player_id: u64, action: ActionKind, time: Millisecond) -> (r: Result<(), MakeActionError>)
        requires
            old(self).wf(),
            old(self).shared.score_room(),
            old(self).clock_room(time),
        ensures
            final(self).wf(),
            game_action(*old(self), player_id, action, time, *final(self), r),
    {
        let ghost g0 = *self;
        let mut held = false;
        let mut i: usize = 0;
        while i < self.shared.seats.len()
            invariant
                *self == g0,
                i <= self.shared.seats@.len(),
                held == exists|j: int| 0 <= j < i && (#[trigger] self.shared.seats@[j]).player == Some(player_id),
            decreases self.shared.seats@.len() - i,
        {
            if self.shared.seats[i].is_held_by(player_id) {
                held = true;
            }
            i = i + 1;
        }
        if !held {
            return Err(MakeActionError::NotPlayer);
        }
        let mut st = GameState::Play(PlayState::new(0));
        std::mem::swap(&mut st, &mut self.state);
        let ghost sh0 = self.shared;
        proof {
            lemma_room_territory(&self.shared);
        }
        let (st1, res) = match st {
            GameState::FreePlacement(mut s) => {
                let ghost s0 = s;
                let res = s.make_action(&mut self.shared, player_id, action);
                proof {
                    assert(placement_step(s0, sh0, player_id, action, s, self.shared, res));
                }
                (GameState::FreePlacement(s), res)
            },
            GameState::Play(mut s) => {
                let seat_idx = self.shared.turn;
                let start_clock = self.shared.board_history.len() == 1;
                let mut clock = self.shared.clock.take();
                let ghost c0 = clock;
                if start_clock {
                    match &mut clock {
                        Some(c) => c.initialize_clocks(time),
                        None => {},
                    }
                }
                let ghost ca = clock;
                let time_left = match &mut clock {
                    Some(c) => c.advance_clock(seat_idx, time),
                    None => Millisecond(0),
                };
                self.shared.clock = clock;
                let ghost sh_a = SharedState { clock: ca, ..sh0 };
                let ghost sh_b = self.shared;
                let ghost s0 = s;
                proof {
                    assert(clocks_before_move(sh0, time, sh_a, sh_b, time_left.0));
                }
                let act = if time_left.0 < -1000 {
                    ActionKind::Resign
                } else {
                    action
                };
                let res = s.make_action(&mut self.shared, player_id, act);
                let ghost sh_c = self.shared;
                proof {
                    assert(play_action(s0, sh_b, player_id, timed_action(action, time_left.0), s, sh_c, res));
                }
                if res.is_ok() && !start_clock {
                    let mut clock = self.shared.clock.take();
                    match &mut clock {
                        Some(c) => c.end_turn(seat_idx, time),
                        None => {},
                    }
                    self.shared.clock = clock;
                }
                proof {
                    assert(timed_play_step(s0, sh0, player_id, action, time, GameState::Play(s), self.shared, res));
                }
                (GameState::Play(s), res)
            },
            GameState::Scoring(mut s) => {
                let ghost s0 = s;
                let res = s.make_action(&mut self.shared, player_id, action);
                proof {
                    assert(scoring_step(s0, sh0, player_id, action, s, res));
                }
                (GameState::Scoring(s), res)
            },
            GameState::Done(s) => (GameState::Done(s), Err(MakeActionError::GameDone)),
        };
        let ghost st1_g = st1;
        let ghost sh1_g = self.shared;
        proof {
            assert(phase_step(g0.state, sh0, player_id, action, time, st1, self.shared, res));
        }
        match res {
            Ok(change) => {
                match change {
                    ActionChange::NoChange => {
                        self.state = st1;
                    },
                    ActionChange::SwapState(new_state) => {
                        self.state = new_state;
                    },
                    ActionChange::PushState(new_state) => {
                        self.state_stack.push(st1);
                        self.state = new_state;
                    },
                    ActionChange::PopState => {
                        self.state = match self.state_stack.pop() {
                            Some(prev) => prev,
                            None => st1,
                        };
                        let mut clock = self.shared.clock.take();
                        match &mut clock {
                            Some(c) => c.initialize_clocks(time),
                            None => {},
                        }
                        self.shared.clock = clock;
                    },
                }
                self.actions.push(GameAction::play(player_id, action));
                Ok(())
            },
            Err(e) => {
                self.state = st1;
                Err(e)
            },
        }
    }
}

/// What a placement phase shows: which seats are ready.
#[derive(Debug)]
pub struct FreePlacementView {
    pub players_ready: Vec<bool>,
}

/// What a phase shows to the players.
#[derive(Debug)]
pub enum GameStateView {
    FreePlacement(FreePlacementView),
    Play(PlayState),
    Scoring(ScoringState),
    Done(ScoringState),
}

impl From<GameState> for GameStateView {
    fn from(state: GameState) -> (v: GameStateView) {
        match state {
            GameState::FreePlacement(state) => GameStateView::FreePlacement(FreePlacementView { players_ready: state.players_ready }),
            GameState::Play(state) => GameStateView::Play(state),
            GameState::Scoring(state) => GameStateView::Scoring(state),
            GameState::Done(state) => GameStateView::Done(state),
        }
    }
}

impl vstd::std_specs::convert::FromSpecImpl<GameState> for GameStateView {
    open spec fn obeys_from_spec() -> bool {
        true
    }

    open spec fn from_spec(state: GameState) -> GameStateView {
        match state {
            GameState::FreePlacement(state) => GameStateView::FreePlacement(FreePlacementView { players_ready: state.players_ready }),
            GameState::Play(state) => GameStateView::Play(state),
            GameState::Scoring(state) => GameStateView::Scoring(state),
            GameState::Done(state) => GameStateView::Done(state),
        }
    }
}

/// `v` shows the phase `s`.
pub open spec fn shows_state(v: GameStateView, s: GameStateModel) -> bool {
    match (v, s) {
        (GameStateView::FreePlacement(fv), GameStateModel::FreePlacement(fs)) => fv.players_ready@ == fs.players_ready,
        (GameStateView::Play(a), GameStateModel::Play(b)) => a@ == b,
        (GameStateView::Scoring(a), GameStateModel::Scoring(b)) => a@ == b,
        (GameStateView::Done(a), GameStateModel::Done(b)) => a@ == b,
        _ => false,
    }
}

/// What a player sees of the game.
#[derive(Debug)]
pub struct GameView {
    pub state: GameStateView,
    pub seats: Vec<Seat>,
    pub turn: u32,
    pub board: Vec<Color>,
    pub board_visibility: Option<Vec<Visibility>>,
    pub hidden_stones_left: u32,
    pub size: (u8, u8),
    pub mods: GameModifier,
    pub points: Vec<i32>,
    pub move_number: u32,
    pub clock: Option<GameClock>,
}

/// What a player sees of a past position.
#[derive(Debug)]
pub struct GameHistory {
    pub board: Vec<u8>,
    pub board_visibility: Option<Vec<u16>>,
    pub last_stone: Option<Vec<Point>>,
    pub move_number: u32,
}

/// The colour every stone shows under one colour go.
pub open spec fn one_color_team() -> Color {
    Color(2)
}

/// What a seat of `seat_team` (showing as `team`) sees of a point holding
/// `c` and seen by the teams `v`: its own or shared stones as `team`, other
/// hidden stones as empty.
pub open spec fn seen_color(c: Color, v: Visibility, seat_team: Color, team: Color) -> Color {
    if bit(v.0, seat_team.0 as u16) {
        team
    } else if v.0 != 0 {
        Color(0)
    } else {
        c
    }
}

/// The visibility a seat of `seat_team` (showing as `team`) is shown of a
/// point seen by the teams `v`.
pub open spec fn seen_visibility(v: Visibility, seat_team: Color, team: Color) -> Visibility {
    if bit(v.0, seat_team.0 as u16) {
        Visibility(1u16 << (team.0 as u16))
    } else if v.0 != 0 {
        Visibility(0)
    } else {
        v
    }
}

/// A point seen by the teams `v` holds a hidden stone for a seat of
/// `seat_team`: one of another team, or one it shares with another team.
pub open spec fn hidden_for(v: Visibility, seat_team: Color) -> bool {
    if bit(v.0, seat_team.0 as u16) {
        v.count() > 1
    } else {
        v.0 != 0
    }
}

/// What `player_id` sees in the phase `state` of the points `board` with
/// visibility `vis`: the points, the visibility, and the number of hidden
/// stones left. In placement a seated player sees their group's board; in
/// play, unless the game is done, one colour go shows every stone in one
/// colour, and hidden stones show only to the teams that see them.
pub open spec fn board_view(
    sh: SharedState,
    player_id: u64,
    state: GameState,
    board: Seq<Color>,
    vis: Option<Seq<Visibility>>,
    done: bool,
) -> (Seq<Color>, Option<Seq<Visibility>>, nat) {
    match state {
        GameState::FreePlacement(fp) => if holds_seat(sh.seats@, player_id) {
            (fp.boards@[fp.board_index(sh.seats@, seat_of(sh.seats@, player_id))].points@, None, 0)
        } else {
            (sh.board.points@, None, 0)
        },
        GameState::Play(_) => if done {
            (board, vis, 0)
        } else {
            let one = sh.mods.visibility_mode is Some;
            let b1 = if one {
                Seq::new(board.len(), |i: int| if board[i].0 != 0 { one_color_team() } else { board[i] })
            } else {
                board
            };
            if holds_seat(sh.seats@, player_id) {
                let seat_team = sh.seats@[seat_of(sh.seats@, player_id)].team;
                let team = if one { one_color_team() } else { seat_team };
                match vis {
                    Some(v) => (
                        Seq::new(b1.len(), |i: int| seen_color(b1[i], v[i], seat_team, team)),
                        Some(Seq::new(v.len(), |i: int| seen_visibility(v[i], seat_team, team))),
                        crate::game::count::count_true(Seq::new(v.len(), |i: int| hidden_for(v[i], seat_team))),
                    ),
                    None => (b1, None, 0),
                }
            } else {
                match vis {
                    Some(v) => (Seq::new(b1.len(), |i: int| if v[i].0 != 0 { Color(0) } else { b1[i] }), None, 0),
                    None => (b1, None, 0),
                }
            }
        },
        _ => (board, None, 0),
    }
}

/// Hidden stones stay private during play: a hidden point that the
/// player's team does not see is shown to them as empty (to a player without
/// a seat, every hidden point is), and a hidden point that their team sees
/// shows in their colour.
pub proof fn law_hidden_stones_stay_private(
    sh: SharedState,
    player_id: u64,
    p: PlayState,
    board: Seq<Color>,
    vis: Seq<Visibility>,
    i: int,
)
    requires
        0 <= i < board.len(),
        board.len() == vis.len(),
        vis[i].0 != 0,
    ensures
        ({
            let shown = board_view(sh, player_id, GameState::Play(p), board, Some(vis), false).0[i];
            let seated = holds_seat(sh.seats@, player_id);
            let team = sh.seats@[seat_of(sh.seats@, player_id)].team;
            &&& !seated ==> shown == Color(0)
            &&& seated && !bit(vis[i].0, team.0 as u16) ==> shown == Color(0)
            &&& seated && bit(vis[i].0, team.0 as u16) ==> shown == if sh.mods.visibility_mode is Some {
                one_color_team()
            } else {
                team
            }
        }),
{
}

/// The visibility values, if any.
pub open spec fn opt_vis_seq(o: Option<Vec<Visibility>>) -> Option<Seq<Visibility>> {
    match o {
        Some(v) => Some(v@),
        None => None,
    }
}

impl Game {
    /// What `player_id` sees in the phase `state` of `board` with
    /// `board_visibility`: see `board_view`.
    pub fn get_board_view(
        &self,
        player_id: u64,
        state: &GameState,
        board: &Board<Color>,
        board_visibility: &Option<VisibilityBoard>,
        game_done: bool,
    ) -> (r: (Vec<Color>, Option<Vec<Visibility>>, u32))
        requires
            self.wf(),
            state matches GameState::FreePlacement(fp) ==> fp.fits(&self.shared),
            board.wf(),
            crate::game::opt_visibility_fits(*board_visibility, *board),
        ensures
            (r.0@, opt_vis_seq(r.1), r.2 as nat) == board_view(self.shared, player_id, *state, board.points@, opt_vis_points(*board_visibility), game_done),
    {
        let shared = &self.shared;
        match state {
            GameState::FreePlacement(fp) => {
                match find_seat(&shared.seats, player_id) {
                    Some(seat_idx) => {
                        let team = shared.seats[seat_idx].team;
                        proof {
                            assert(1 <= shared.seats@[seat_idx as int].team.0 <= shared.points@.len());
                        }
                        let k = if fp.teams_share_stones {
                            (team.0 - 1) as usize
                        } else {
                            seat_idx
                        };
                        proof {
                            assert(k == fp.board_index(shared.seats@, seat_idx as int));
                            assert(k < fp.boards@.len());
                        }
                        let pts = copy_vec(&fp.boards[k].points);
                        proof {
                            assert(pts@ == fp.boards@[fp.board_index(shared.seats@, seat_of(shared.seats@, player_id))].points@);
                            assert(holds_seat(shared.seats@, player_id));
                            assert(board_view(self.shared, player_id, *state, board.points@, opt_vis_points(*board_visibility), game_done) == (pts@, opt_vis_seq(None), 0nat));
                        }
                        (pts, None, 0)
                    },
                    None => {
                        let pts = copy_vec(&shared.board.points);
                        proof {
                            assert(board_view(self.shared, player_id, *state, board.points@, opt_vis_points(*board_visibility), game_done) == (pts@, opt_vis_seq(None), 0nat));
                        }
                        (pts, None, 0)
                    },
                }
            },
            GameState::Play(_) => {
                let mut b = copy_vec(&board.points);
                let n = b.len();
                if game_done {
                    let v = match board_visibility {
                        Some(v) => Some(copy_vec(&v.points)),
                        None => None,
                    };
                    return (b, v, 0);
                }
                // the only visibility mode is one colour go
                let one = shared.mods.visibility_mode.is_some();
                if one {
                    let mut i: usize = 0;
                    while i < n
                        invariant
                            i <= n,
                            n == board.points@.len(),
                            b@.len() == n,
                            forall|j: int| 0 <= j < n ==> #[trigger] b@[j] == if j < i && board.points@[j].0 != 0 {
                                one_color_team()
                            } else {
                                board.points@[j]
                            },
                        decreases n - i,
                    {
                        if !b[i].is_empty() {
                            b.set(i, Color(2));
                        }
                        i = i + 1;
                    }
                }
                let ghost b1 = b@;
                proof {
                    if one {
                        assert(b1 =~= Seq::new(board.points@.len(), |i: int| if board.points@[i].0 != 0 { one_color_team() } else { board.points@[i] }));
                    } else {
                        assert(b1 =~= board.points@);
                    }
                }
                match find_seat(&shared.seats, player_id) {
                    Some(seat_idx) => {
                        let seat_team = shared.seats[seat_idx].team;
                        proof {
                            assert(1 <= shared.seats@[seat_idx as int].team.0 < 16);
                        }
                        let team = if one {
                            Color(2)
                        } else {
                            seat_team
                        };
                        match board_visibility {
                            Some(vb) => {
                                let mut v = copy_vec(&vb.points);
                                let ghost v0 = v@;
                                let mut hidden: u32 = 0;
                                let mut i: usize = 0;
                                while i < n
                                    invariant
                                        i <= n,
                                        n == b1.len(),
                                        v0.len() == n,
                                        b@.len() == n,
                                        v@.len() == n,
                                        seat_team.0 < 16,
                                        team.0 < 16,
                                        n <= i32::MAX,
                                        forall|j: int| 0 <= j < n ==> #[trigger] b@[j] == if j < i { seen_color(b1[j], v0[j], seat_team, team) } else { b1[j] },
                                        forall|j: int| 0 <= j < n ==> #[trigger] v@[j] == if j < i { seen_visibility(v0[j], seat_team, team) } else { v0[j] },
                                        hidden == crate::game::count::count_true(Seq::new(n as nat, |j: int| hidden_for(v0[j], seat_team)).subrange(0, i as int)),
                                        hidden <= i,
                                    decreases n - i,
                                {
                                    let vi = v[i];
                                    proof {
                                        let m = Seq::new(n as nat, |j: int| hidden_for(v0[j], seat_team));
                                        assert(m.subrange(0, i + 1).drop_last() =~= m.subrange(0, i as int));
                                        crate::game::count::lemma_count_true_bound(m.subrange(0, i + 1));
                                    }
                                    if vi.get(seat_team.as_usize()) {
                                        b.set(i, team);
                                        if vi.len() > 1 {
                                            hidden = hidden + 1;
                                        }
                                        v.set(i, Visibility(1u16 << (team.0 as u16)));
                                    } else if !vi.is_empty() {
                                        hidden = hidden + 1;
                                        b.set(i, Color(0));
                                        v.set(i, Visibility(0));
                                    }
                                    i = i + 1;
                                }
                                proof {
                                    let m = Seq::new(n as nat, |j: int| hidden_for(v0[j], seat_team));
                                    assert(m.subrange(0, n as int) =~= m);
                                    assert(b@ =~= Seq::new(b1.len(), |j: int| seen_color(b1[j], v0[j], seat_team, team)));
                                    assert(v@ =~= Seq::new(v0.len(), |j: int| seen_visibility(v0[j], seat_team, team)));
                                }
                                proof {
                                    assert(board_view(self.shared, player_id, *state, board.points@, opt_vis_points(*board_visibility), game_done) == (b@, opt_vis_seq(Some(v)), hidden as nat));
                                }
                                (b, Some(v), hidden)
                            },
                            None => {
                                proof {
                                    assert(board_view(self.shared, player_id, *state, board.points@, opt_vis_points(*board_visibility), game_done) == (b@, opt_vis_seq(None), 0nat));
                                }
                                (b, None, 0)
                            },
                        }
                    },
                    None => {
                        match board_visibility {
                            Some(vb) => {
                                let mut i: usize = 0;
                                while i < n
                                    invariant
                                        i <= n,
                                        n == b1.len(),
                                        vb.points@.len() == n,
                                        b@.len() == n,
                                        forall|j: int| 0 <= j < n ==> #[trigger] b@[j] == if j < i && vb.points@[j].0 != 0 { Color(0) } else { b1[j] },
                                    decreases n - i,
                                {
                                    if !vb.points[i].is_empty() {
                                        b.set(i, Color(0));
                                    }
                                    i = i + 1;
                                }
                                proof {
                                    assert(b@ =~= Seq::new(b1.len(), |j: int| if vb.points@[j].0 != 0 { Color(0) } else { b1[j] }));
                                }
                                proof {
                                    assert(board_view(self.shared, player_id, *state, board.points@, opt_vis_points(*board_visibility), game_done) == (b@, opt_vis_seq(None), 0nat));
                                }
                                (b, None, 0)
                            },
                            None => {
                                proof {
                                    assert(board_view(self.shared, player_id, *state, board.points@, opt_vis_points(*board_visibility), game_done) == (b@, opt_vis_seq(None), 0nat));
                                }
                                (b, None, 0)
                            },
                        }
                    },
                }
            },
            _ => {
                let pts = copy_vec(&board.points);
                proof {
                    assert(board_view(self.shared, player_id, *state, board.points@, opt_vis_points(*board_visibility), game_done) == (pts@, opt_vis_seq(None), 0nat));
                }
                (pts, None, 0)
            },
        }
    }
}

/// The colour values of `b`.
pub open spec fn color_values(b: Seq<Color>) -> Seq<u8> {
    Seq::new(b.len(), |i: int| b[i].0)
}

/// The visibility values, as bit masks.
pub open spec fn visibility_values(v: Option<Seq<Visibility>>) -> Option<Seq<u16>> {
    match v {
        Some(v) => Some(Seq::new(v.len(), |i: int| v[i].0)),
        None => None,
    }
}

/// The clocks, if any.
pub open spec fn clock_view(c: Option<GameClock>) -> Option<(Seq<PlayerClock>, ClockRule, bool)> {
    match c {
        Some(c) => Some((c.clocks@, c.rule, c.paused)),
        None => None,
    }
}

impl Game {
    /// What `player_id` sees of the game: the phase, seats, turn, the board
    /// as `board_view` shows it, the size, modifiers, scores, the move number
    /// and, during play, the clocks.
    pub fn get_view(&self, player_id: u64) -> (v: GameView)
        requires
            self.wf(),
            self.shared.board_history@.len() <= u32::MAX,
        ensures
            shows_state(v.state, self.state@),
            v.seats@ == self.shared.seats@,
            v.turn == self.shared.turn as u32,
            (v.board@, opt_vis_seq(v.board_visibility), v.hidden_stones_left as nat) == board_view(
                self.shared,
                player_id,
                self.state,
                self.shared.board.points@,
                opt_vis_points(self.shared.board_visibility),
                self.state is Done,
            ),
            v.size == (self.shared.board.width as u8, self.shared.board.height as u8),
            v.mods == self.shared.mods,
            v.points@ == self.shared.points@,
            v.move_number == self.shared.board_history@.len() - 1,
            clock_view(v.clock) == if self.state is Play { clock_view(self.shared.clock) } else { None },
    {
        let shared = &self.shared;
        let game_done = match self.state {
            GameState::Done(_) => true,
            _ => false,
        };
        let game_active = match self.state {
            GameState::Play(_) => true,
            _ => false,
        };
        let (board, board_visibility, hidden_stones_left) = self.get_board_view(
            player_id,
            &self.state,
            &shared.board,
            &shared.board_visibility,
            game_done,
        );
        let state = self.state.copy();
        let ghost sv = state@;
        let state_view = GameStateView::from(state);
        proof {
            assert(shows_state(state_view, sv));
        }
        GameView {
            state: state_view,
            seats: copy_vec(&shared.seats),
            turn: shared.turn as u32,
            board,
            board_visibility,
            hidden_stones_left,
            size: (shared.board.width as u8, shared.board.height as u8),
            mods: shared.mods,
            points: copy_vec(&shared.points),
            move_number: (shared.board_history.len() - 1) as u32,
            clock: if game_active {
                match &shared.clock {
                    Some(c) => Some(c.copy()),
                    None => None,
                }
            } else {
                None
            },
        }
    }

    /// What `player_id` sees of the position after move `turn`, unless the
    /// game hides its history until it is done: the board and visibility as
    /// `board_view` shows them, and the last move.
    pub fn get_view_at(&self, player_id: u64, turn: u32) -> (r: Option<GameHistory>)
        requires
            self.wf(),
        ensures
            turn >= self.shared.board_history@.len() ==> r is None,
            turn < self.shared.board_history@.len() && !(self.state is Done) && self.shared.mods.no_history ==> r is None,
            turn < self.shared.board_history@.len() && !(!(self.state is Done) && self.shared.mods.no_history) ==> (r matches Some(h) && {
                let e = self.shared.board_history@[turn as int];
                let view = board_view(
                    self.shared,
                    player_id,
                    e.state,
                    e.board.points@,
                    opt_vis_points(e.board_visibility),
                    self.state is Done,
                );
                &&& h.board@ == color_values(view.0)
                &&& opt_u16_seq(h.board_visibility) == visibility_values(view.1)
                &&& e.state matches GameState::Play(p) && opt_points_view(h.last_stone) == opt_points_view(p.last_stone)
                &&& h.move_number == turn
            }),
    {
        let shared = &self.shared;
        if turn as usize >= shared.board_history.len() {
            return None;
        }
        let e = &shared.board_history[turn as usize];
        let game_done = match self.state {
            GameState::Done(_) => true,
            _ => false,
        };
        if !game_done && shared.mods.no_history {
            return None;
        }
        proof {
            assert(shared.history_fits(shared.board_history@[turn as int]));
        }
        let (board, board_visibility, _hidden) = self.get_board_view(player_id, &e.state, &e.board, &e.board_visibility, game_done);
        let mut values: Vec<u8> = Vec::new();
        let mut i: usize = 0;
        while i < board.len()
            invariant
                i <= board@.len(),
                values@ == Seq::new(i as nat, |j: int| board@[j].0),
            decreases board@.len() - i,
        {
            values.push(board[i].0);
            i = i + 1;
            proof {
                assert(values@ =~= Seq::new(i as nat, |j: int| board@[j].0));
            }
        }
        let vis_values = match board_visibility {
            Some(v) => {
                let mut out: Vec<u16> = Vec::new();
                let mut i: usize = 0;
                while i < v.len()
                    invariant
                        i <= v@.len(),
                        out@ == Seq::new(i as nat, |j: int| v@[j].0),
                    decreases v@.len() - i,
                {
                    out.push(v[i].into_value());
                    i = i + 1;
                    proof {
                        assert(out@ =~= Seq::new(i as nat, |j: int| v@[j].0));
                    }
                }
                Some(out)
            },
            None => None,
        };
        let last_stone = match &e.state {
            GameState::Play(p) => match &p.last_stone {
                Some(pts) => Some(copy_vec(pts)),
                None => None,
            },
            _ => None,
        };
        Some(GameHistory { board: values, board_visibility: vis_values, last_stone, move_number: turn })
    }
}

/// The bit masks, if any.
pub open spec fn opt_u16_seq(o: Option<Vec<u16>>) -> Option<Seq<u16>> {
    match o {
        Some(v) => Some(v@),
        None => None,
    }
}

impl Game {
    /// Whether an action at time `time` may be made now: the scores have
    /// room for what a move adds (`SharedState::score_room`) and the clock
    /// arithmetic of a move in play fits (`clock_room`). `make_action` asks
    /// for both.
    pub fn has_room_for_action(&self, time: Millisecond) -> (b: bool)
        requires
            self.wf(),
        ensures
            b == (self.shared.score_room() && self.clock_room(time)),
    {
        if !has_score_room(&self.shared) {
            return false;
        }
        let in_play = match self.state {
            GameState::Play(_) => true,
            _ => false,
        };
        if !in_play {
            return true;
        }
        match &self.shared.clock {
            None => true,
            Some(c) => {
                if c.paused {
                    return true;
                }
                let start = self.shared.board_history.len() == 1;
                let (last_time, time_left) = match c.clocks[self.shared.turn] {
                    PlayerClock::Plain { last_time, time_left } => (last_time.0, time_left.0),
                };
                let last = if start {
                    time.0
                } else {
                    last_time
                };
                let spent = match time.0.checked_sub(last) {
                    Some(d) => d,
                    None => {
                        return false;
                    },
                };
                let left = match time_left.checked_sub(spent) {
                    Some(l) => l,
                    None => {
                        return false;
                    },
                };
                if start {
                    return true;
                }
                match c.rule {
                    ClockRule::Fischer(rule) => left.checked_add(rule.increment.0).is_some(),
                    ClockRule::Simple(_) => true,
                }
            },
        }
    }
}

/// Whether the scores have room for a move: see `SharedState::score_room`.
fn has_score_room(shared: &SharedState) -> (b: bool)
    requires
        shared.board.wf(),
    ensures
        b == shared.score_room(),
{
    let n = shared.board.points.len() as i64;
    let pv: i64 = match shared.mods.ponnuki_is_points {
        Some(v) => if v < 0 {
            -(v as i64)
        } else {
            v as i64
        },
        None => 0,
    };
    proof {
        assert((pv + 4) * n <= 0x8000_0004 * 0x7fff_ffff) by (nonlinear_arith)
            requires
                0 <= pv <= 0x8000_0000,
                0 <= n <= 0x7fff_ffff,
        ;
        assert(0 <= (pv + 4) * n) by (nonlinear_arith)
            requires
                0 <= pv,
                0 <= n,
        ;
    }
    let room = (pv + 4) * n;
    let mut i: usize = 0;
    while i < shared.points.len()
        invariant
            i <= shared.points@.len(),
            room == ({
                let pv: int = match shared.mods.ponnuki_is_points {
                    Some(v) => if v < 0 { -v } else { v as int },
                    None => 0,
                };
                (pv + 4) * (shared.board.points@.len() as int)
            }),
            forall|j: int| 0 <= j < i ==> i32::MIN + room <= #[trigger] shared.points@[j] <= i32::MAX - room,
        decreases shared.points@.len() - i,
    {
        let p = shared.points[i] as i64;
        if p < -0x8000_0000 + room || p > 0x7fff_ffff - room {
            return false;
        }
        i = i + 1;
    }
    true
}

/// Replaying the action `a` on `g` gives `g1`, and `ok` tells whether it
/// succeeded: seat changes as `take_seat` and `leave_seat` make them, moves
/// as `make_action` makes them at time 0. A move fails when the scores lack
/// room for it, or the game has clocks (a replay has none).
pub open spec fn action_replayed(g: Game, a: GameAction, g1: Game, ok: bool) -> bool {
    match a.action {
        ReplayActionKind::TakeSeat(id) => exists|r: Result<(), TakeSeatError>|
            #[trigger] seat_taken(g, a.user_id, id as usize, g1, r) && ok == (r is Ok),
        ReplayActionKind::LeaveSeat(id) => exists|r: Result<(), TakeSeatError>|
            #[trigger] seat_left(g, a.user_id, id as usize, g1, r) && ok == (r is Ok),
        ReplayActionKind::Play(p) => if !g.shared.score_room() || g.shared.clock is Some {
            !ok && g1 == g
        } else {
            exists|r: Result<(), MakeActionError>| #[trigger] game_action(g, a.user_id, p, Millisecond(0), g1, r) && ok == (r is Ok)
        },
    }
}

/// Replaying `actions` on `g` gives `r`: the actions apply in turn, and the
/// replay fails at the first one that fails.
pub open spec fn replayed(g: Game, actions: Seq<GameAction>, r: Option<Game>) -> bool
    decreases actions.len(),
{
    if actions.len() == 0 {
        r == Some(g)
    } else {
        exists|g1: Game, ok: bool|
            #[trigger] action_replayed(g, actions[0], g1, ok) && if ok {
                replayed(g1, actions.drop_first(), r)
            } else {
                r is None
            }
    }
}

/// The modifiers of a replay: its clocks are not kept.
pub open spec fn replay_mods(mods: GameModifier) -> GameModifier {
    GameModifier { clock: None, ..mods }
}

impl Game {
    /// Loads a game from a replay: a game is created from its setup (without
    /// clocks) and its actions are replayed (see `replayed`); a setup that is
    /// refused, or in which a team has no score, loads nothing.
    pub fn load(replay: GameReplay) -> (r: Option<Game>)
        ensures
            !(accepted_setup(replay.seats@, replay.komis@, replay.size) && valid_setup(replay.seats@, replay.komis@, replay.mods)) ==> r is None,
            accepted_setup(replay.seats@, replay.komis@, replay.size) && valid_setup(replay.seats@, replay.komis@, replay.mods) ==> exists|
                g0: Game,
            | #[trigger] created(replay.seats@, replay.komis@, replay.size, replay_mods(replay.mods), Millisecond(0), g0) && replayed(
                g0,
                replay.actions@,
                r,
            ),
            r matches Some(g) ==> g.wf(),
    {
        let mut mods = replay.mods;
        mods.clock = None;
        let mut i: usize = 0;
        while i < replay.seats.len()
            invariant
                i <= replay.seats@.len(),
                forall|j: int| 0 <= j < i ==> 1 <= #[trigger] replay.seats@[j] <= replay.komis@.len(),
            decreases replay.seats@.len() - i,
        {
            if replay.seats[i] == 0 || replay.seats[i] as usize > replay.komis.len() {
                return None;
            }
            i = i + 1;
        }
        match mods.zen_go {
            Some(z) => {
                if z.color_count == 0 || z.color_count as usize > replay.komis.len() {
                    return None;
                }
            },
            None => {},
        }
        let ghost seats = replay.seats@;
        let ghost komis = replay.komis@;
        let ghost size = replay.size;
        let ghost rmods = replay.mods;
        let ghost all = replay.actions@;
        let actions = replay.actions;
        let mut game = match Game::standard_at(replay.seats.as_slice(), replay.komis, replay.size, mods, Millisecond(0)) {
            Some(g) => g,
            None => {
                return None;
            },
        };
        let ghost g0 = game;
        let n = actions.len();
        proof {
            assert(mods == replay_mods(rmods));
            assert(created(seats, komis, size, replay_mods(rmods), Millisecond(0), g0));
            assert(actions@.subrange(0, n as int) =~= actions@);
        }
        let mut k: usize = 0;
        while k < n
            invariant
                created(seats, komis, size, replay_mods(rmods), Millisecond(0), g0),
                seats == replay.seats@,
                komis == replay.komis@,
                all == replay.actions@,
                rmods == replay.mods,
                size == replay.size,
                actions@ == all,
                n == actions@.len(),
                k <= n,
                game.wf(),
                forall|r: Option<Game>| #[trigger] replayed(game, actions@.subrange(k as int, n as int), r) ==> replayed(g0, actions@, r),
            decreases n - k,
        {
            let a = actions[k];
            let ghost gk = game;
            let ghost rest = actions@.subrange(k as int, n as int);
            let ghost next = actions@.subrange(k + 1, n as int);
            proof {
                assert(rest[0] == a);
                assert(rest.drop_first() =~= next);
            }
            let ok = match a.action {
                ReplayActionKind::TakeSeat(seat_id) => {
                    let r = game.take_seat(a.user_id, seat_id as usize);
                    proof {
                        assert(seat_taken(gk, a.user_id, seat_id as usize, game, r));
                    }
                    r.is_ok()
                },
                ReplayActionKind::LeaveSeat(seat_id) => {
                    let r = game.leave_seat(a.user_id, seat_id as usize);
                    proof {
                        assert(seat_left(gk, a.user_id, seat_id as usize, game, r));
                    }
                    r.is_ok()
                },
                ReplayActionKind::Play(play) => {
                    if !has_score_room(&game.shared) || game.shared.clock.is_some() {
                        false
                    } else {
                        let r = game.make_action(a.user_id, play, Millisecond(0));
                        proof {
                            assert(game_action(gk, a.user_id, play, Millisecond(0), game, r));
                        }
                        r.is_ok()
                    }
                },
            };
            proof {
                assert(action_replayed(gk, a, game, ok));
            }
            if !ok {
                proof {
                    assert(replayed(gk, rest, None));
                    assert(created(seats, komis, size, replay_mods(rmods), Millisecond(0), g0) && replayed(g0, all, None));
                }
                return None;
            }
            proof {
                assert forall|r: Option<Game>| #[trigger] replayed(game, next, r) implies replayed(g0, actions@, r) by {
                    assert(replayed(gk, rest, r));
                }
            }
            k = k + 1;
        }
        proof {
            assert(actions@.subrange(n as int, n as int).len() == 0);
            assert(replayed(game, actions@.subrange(n as int, n as int), Some(game)));
            assert(actions@.subrange(0, n as int) =~= actions@);
        }
        Some(game)
    }
}

/// No player holds two seats.
pub open spec fn one_seat_each(seats: Seq<Seat>) -> bool {
    forall|i: int, j: int|
        0 <= i < seats.len() && 0 <= j < seats.len() && i != j && (#[trigger] seats[i]).player is Some ==> (#[trigger] seats[j]).player
            != seats[i].player
}

/// Leaving a seat just taken gives the seats back as they were: taking and
/// leaving a seat are inverse.
pub proof fn law_leave_undoes_take(g0: Game, player_id: u64, seat_id: usize, g1: Game, g2: Game, r2: Result<(), TakeSeatError>)
    requires
        seat_taken(g0, player_id, seat_id, g1, Ok(())),
        seat_left(g1, player_id, seat_id, g2, r2),
    ensures
        r2 is Ok,
        g2.shared.seats@ == g0.shared.seats@,
        g2.shared == (SharedState { seats: g2.shared.seats, ..g0.shared }),
        g2.state == g0.state,
{
    assert(g2.shared.seats@ =~= g0.shared.seats@);
}

/// Under hidden move go no player ever holds two seats: taking a seat keeps
/// it so.
pub proof fn law_hidden_move_one_seat(g0: Game, player_id: u64, seat_id: usize, g1: Game, r: Result<(), TakeSeatError>)
    requires
        g0.shared.mods.hidden_move is Some,
        one_seat_each(g0.shared.seats@),
        seat_taken(g0, player_id, seat_id, g1, r),
    ensures
        one_seat_each(g1.shared.seats@),
{
    if r is Ok {
        let s0 = g0.shared.seats@;
        let s1 = g1.shared.seats@;
        assert forall|i: int, j: int|
            0 <= i < s1.len() && 0 <= j < s1.len() && i != j && (#[trigger] s1[i]).player is Some implies (#[trigger] s1[j]).player
                != s1[i].player by {
            if i == seat_id as int {
                assert(s1[j] == s0[j]);
                if s0[j].player == Some(player_id) {
                    assert(holds_seat(s0, player_id));
                }
            } else if j == seat_id as int {
                assert(s1[i] == s0[i]);
                if s0[i].player == Some(player_id) {
                    assert(holds_seat(s0, player_id));
                }
            } else {
                assert(s1[i] == s0[i] && s1[j] == s0[j]);
            }
        }
    }
}

/// The replay of a game records exactly the actions that succeeded: a
/// successful action is appended to the game's actions (which `dump`
/// returns), a refused one leaves them as they were.
pub proof fn law_replay_records_actions(g0: Game, player_id: u64, action: ActionKind, t: Millisecond, g1: Game, r: Result<(), MakeActionError>)
    requires
        game_action(g0, player_id, action, t, g1, r),
    ensures
        r is Ok ==> g1.actions@ == g0.actions@.push(GameAction { user_id: player_id, action: ReplayActionKind::Play(action) }),
        r is Err ==> g1.actions@ == g0.actions@,
{
    if holds_seat(g0.shared.seats@, player_id) {
        let (st1, sh1, res) = choose|st1: GameState, sh1: SharedState, res: Result<ActionChange, MakeActionError>|
            #[trigger] phase_step(g0.state, g0.shared, player_id, action, t, st1, sh1, res) && change_applied(
                g0,
                st1,
                sh1,
                res,
                player_id,
                action,
                t,
                g1,
                r,
            );
        assert(change_applied(g0, st1, sh1, res, player_id, action, t, g1, r));
    }
}

} // verus!
