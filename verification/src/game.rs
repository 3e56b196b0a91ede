use vstd::prelude::*;

pub mod board;
pub mod clock;
pub mod controller;
pub mod count;
pub mod export;
pub mod vecs;
pub mod groups;
pub mod modes;
pub mod refusal;
pub mod result;
pub mod visibility;

pub use board::{Board, Point};
pub use visibility::Visibility;
pub use groups::{find_groups, Group};
pub use controller::{Game, GameReplay};

use crate::states::{GameState, GameStateModel, PlayModel};
use board::BoardModel;
use clock::GameClock;

verus! {

/// A stone color or team. `0` is the empty point, teams are numbered from `1`.
#[derive(Copy, Clone, PartialEq, Eq, Structural, Debug, Hash)]
pub struct Color(pub u8);

impl Color {
    pub fn empty() -> (c: Color)
        ensures
            c.0 == 0,
    {
        Color(0)
    }

    pub fn black() -> (c: Color)
        ensures
            c.0 == 1,
    {
        Color(1)
    }

    pub fn white() -> (c: Color)
        ensures
            c.0 == 2,
    {
        Color(2)
    }

    pub fn is_empty(self) -> (b: bool)
        ensures
            b == (self.0 == 0),
    {
        self.0 == 0
    }

    pub fn as_usize(self) -> (u: usize)
        ensures
            u == self.0,
    {
        self.0 as usize
    }
}

impl Color {
    /// The display name of a team.
    pub fn name(item: Color) -> (s: &'static str)
        ensures
            item.0 == 1 ==> s@ == "Black"@,
            item.0 == 2 ==> s@ == "White"@,
            item.0 == 3 ==> s@ == "Blue"@,
            item.0 == 4 ==> s@ == "Red"@,
            !(1 <= item.0 <= 4) ==> s@ == "???"@,
    {
        match item.0 {
            1 => "Black",
            2 => "White",
            3 => "Blue",
            4 => "Red",
            _ => "???",
        }
    }

    /// The empty point.
    pub fn default() -> (c: Color)
        ensures
            c.0 == 0,
    {
        Color::empty()
    }
}

// Seat ///////////////////////////////////////////////////////////////////////

/// A seat at the table: the player holding it (if any), its team, and
/// whether it resigned.
#[derive(Copy, Clone, Debug, PartialEq, Eq, Structural)]
pub struct Seat {
    pub player: Option<u64>,
    pub team: Color,
    pub resigned: bool,
}

impl Seat {
    /// The seat is held by `player_id`.
    pub fn is_held_by(&self, player_id: u64) -> (b: bool)
        ensures
            b == (self.player == Some(player_id)),
    {
        match self.player {
            Some(p) => p == player_id,
            None => false,
        }
    }

    /// An open seat of the given team.
    pub fn new(color: Color) -> (s: Seat)
        ensures
            s == (Seat { player: None, team: color, resigned: false }),
    {
        Seat { player: None, team: color, resigned: false }
    }
}

// Game action ////////////////////////////////////////////////////////////////

#[derive(Copy, Clone, Debug, PartialEq, Eq, Structural)]
pub enum ActionKind {
    Place(u32, u32),
    Pass,
    Cancel,
    Resign,
}

#[derive(Copy, Clone, Debug, PartialEq, Eq, Structural)]
pub enum ReplayActionKind {
    Play(ActionKind),
    TakeSeat(u32),
    LeaveSeat(u32),
}

/// An action of a user, as recorded for replays.
#[derive(Copy, Clone, Debug, PartialEq, Eq, Structural)]
pub struct GameAction {
    pub user_id: u64,
    pub action: ReplayActionKind,
}

impl GameAction {
    pub fn new(user_id: u64, action: ReplayActionKind) -> (a: GameAction)
        ensures
            a == (GameAction { user_id, action }),
    {
        GameAction { user_id, action }
    }

    pub fn play(user_id: u64, action: ActionKind) -> (a: GameAction)
        ensures
            a == (GameAction { user_id, action: ReplayActionKind::Play(action) }),
    {
        GameAction::new(user_id, ReplayActionKind::Play(action))
    }
}

// Game modifiers /////////////////////////////////////////////////////////////

#[derive(Copy, Clone, Debug, PartialEq, Eq, Structural)]
pub struct ZenGo {
    pub color_count: u8,
}

#[derive(Copy, Clone, Debug, PartialEq, Eq, Structural)]
pub struct HiddenMoveGo {
    pub placement_count: u32,
    pub teams_share_stones: bool,
}

/// Visibility modes describe how the game state should be displayed, without
/// affecting the actual gameplay in any way.
#[derive(Copy, Clone, Debug, PartialEq, Eq, Structural)]
pub enum VisibilityMode {
    /// Display all stones as the same color for both players.
    OneColor,
}

/// Based on the 4+1 variant where a player gets an extra turn if they make
/// exactly four in a row. Adjusted for any N, giving N+1.
#[derive(Copy, Clone, Debug, PartialEq, Eq, Structural)]
pub struct NPlusOne {
    pub length: u8,
}

#[derive(Copy, Clone, Debug, PartialEq, Eq, Structural)]
pub struct CapturesGivePoints {}

#[derive(Copy, Clone, Debug, PartialEq, Eq, Structural)]
pub struct TetrisGo {}

#[derive(Copy, Clone, Debug, PartialEq, Eq, Structural)]
pub struct ToroidalGo {}

#[derive(Copy, Clone, Debug, PartialEq, Eq, Structural)]
pub struct Clock {
    pub rule: clock::ClockRule,
}

/// Traitor go: some of each team's stones are played in another team's colour.
#[derive(Copy, Clone, Debug, PartialEq, Eq, Structural)]
pub struct TraitorGo {
    pub traitor_count: u32,
}

#[derive(Copy, Clone, Debug, PartialEq, Eq, Structural)]
pub struct GameModifier {
    /// Pixel go is a game mode where you place 2x2 blobs instead of a single stone.
    /// Overlapping existing stones are ignored.
    /// The blob must fit on the board.
    pub pixel: bool,
    /// "Ponnuki is 30 points". Whenever a player captures a single stone, forming a ponnuki
    /// they get (or lose) points.
    pub ponnuki_is_points: Option<i32>,
    pub zen_go: Option<ZenGo>,
    pub hidden_move: Option<HiddenMoveGo>,
    pub visibility_mode: Option<VisibilityMode>,
    /// Prevents looking at history during the game. Especially handy for one color go.
    pub no_history: bool,
    pub n_plus_one: Option<NPlusOne>,
    /// Captures giving points promotes more aggressive play.
    pub captures_give_points: Option<CapturesGivePoints>,
    pub tetris: Option<TetrisGo>,
    pub toroidal: Option<ToroidalGo>,
    pub clock: Option<Clock>,
}

impl GameModifier {
    /// No modifier at all.
    pub fn default() -> (m: GameModifier)
        ensures
            !m.pixel && m.ponnuki_is_points is None && m.zen_go is None && m.hidden_move is None
                && m.visibility_mode is None && !m.no_history && m.n_plus_one is None
                && m.captures_give_points is None && m.tetris is None && m.toroidal is None
                && m.clock is None,
    {
        GameModifier {
            pixel: false,
            ponnuki_is_points: None,
            zen_go: None,
            hidden_move: None,
            visibility_mode: None,
            no_history: false,
            n_plus_one: None,
            captures_give_points: None,
            tetris: None,
            toroidal: None,
            clock: None,
        }
    }
}

// Actions ////////////////////////////////////////////////////////////////////

#[derive(Copy, Clone, Debug, PartialEq, Eq, Structural)]
pub enum TakeSeatError {
    DoesNotExist,
    NotOpen,
    CanOnlyHoldOne,
}

#[derive(Copy, Clone, Debug, PartialEq, Eq, Structural)]
pub enum MakeActionError {
    NotPlayer,
    NotTurn,
    OutOfBounds,
    PointOccupied,
    Suicide,
    Ko,
    Illegal,
    GameDone,
}

/// How an action changes the stack of game states.
pub enum ActionChange {
    /// The state stays as it is.
    NoChange,
    SwapState(GameState),
    PushState(GameState),
    PopState,
}

// State //////////////////////////////////////////////////////////////////////

/// The board of hidden-stone visibility: which teams see each point's stone.
pub type VisibilityBoard = Board<Visibility>;

pub open spec fn opt_board_view(o: Option<VisibilityBoard>) -> Option<BoardModel<Visibility>> {
    match o {
        Some(b) => Some(b@),
        None => None,
    }
}

/// A copy of an optional visibility board.
pub fn copy_visibility(o: &Option<VisibilityBoard>) -> (r: Option<VisibilityBoard>)
    ensures
        opt_board_view(r) == opt_board_view(*o),
{
    match o {
        Some(b) => Some(b.copy()),
        None => None,
    }
}

/// A position of the game as it stood after a move.
#[derive(Debug)]
pub struct BoardHistory {
    pub hash: u64,
    pub board: Board<Color>,
    pub board_visibility: Option<VisibilityBoard>,
    pub state: GameState,
    pub points: Vec<i32>,
    pub turn: usize,
}

/// What a history entry holds.
pub struct HistoryModel {
    pub hash: u64,
    pub board: BoardModel<Color>,
    pub board_visibility: Option<BoardModel<Visibility>>,
    pub state: GameStateModel,
    pub points: Seq<i32>,
    pub turn: usize,
}

impl View for BoardHistory {
    type V = HistoryModel;

    open spec fn view(&self) -> HistoryModel {
        HistoryModel {
            hash: self.hash,
            board: self.board@,
            board_visibility: opt_board_view(self.board_visibility),
            state: self.state@,
            points: self.points@,
            turn: self.turn,
        }
    }
}

/// The state every game phase shares.
#[derive(Debug)]
pub struct SharedState {
    pub seats: Vec<Seat>,
    pub points: Vec<i32>,
    pub turn: usize,
    pub pass_count: usize,
    pub board: Board<Color>,
    pub board_visibility: Option<VisibilityBoard>,
    pub board_history: Vec<BoardHistory>,
    pub komis: Vec<i32>,
    pub mods: GameModifier,
    pub clock: Option<GameClock>,
    /// The teams of the seats when the game was created; zen go recolours
    /// the seats during play, these stay.
    pub setup_teams: Vec<u8>,
}

/// The seat `k` places after `turn`, going round, if it has not resigned;
/// otherwise the first such seat further on, or `turn` when every seat has
/// resigned.
pub open spec fn seat_after(seats: Seq<Seat>, turn: int, k: nat) -> int
    decreases seats.len() + 1 - k,
{
    if k > seats.len() || seats.len() == 0 {
        turn
    } else {
        let c = (turn + k) % (seats.len() as int);
        if !seats[c].resigned {
            c
        } else {
            seat_after(seats, turn, k + 1)
        }
    }
}

/// The seat that plays after `turn`: the next one, going round, that has not
/// resigned.
pub open spec fn next_seat(seats: Seq<Seat>, turn: int) -> int {
    seat_after(seats, turn, 1)
}

/// `v` has the shape of `b`.
pub open spec fn visibility_fits(v: VisibilityBoard, b: Board<Color>) -> bool {
    &&& v.wf()
    &&& v.width == b.width
    &&& v.height == b.height
    &&& v.toroidal == b.toroidal
}

/// An optional visibility board that, if present, has the shape of `b`.
pub open spec fn opt_visibility_fits(v: Option<VisibilityBoard>, b: Board<Color>) -> bool {
    match v {
        Some(v) => visibility_fits(v, b),
        None => true,
    }
}

impl SharedState {
    /// The seat whose turn it is.
    pub open spec fn active_seat(&self) -> Seat {
        self.seats@[self.turn as int]
    }

    /// A history entry fits the game: a play position of the same board shape.
    pub open spec fn history_fits(&self, h: BoardHistory) -> bool {
        &&& h.board.wf()
        &&& h.board.width == self.board.width
        &&& h.board.height == self.board.height
        &&& h.board.toroidal == self.board.toroidal
        &&& opt_visibility_fits(h.board_visibility, self.board)
        &&& h.points@.len() == self.points@.len()
        &&& forall|i: int| 0 <= i < h.board.points@.len() ==> (#[trigger] h.board.points@[i]).0 <= h.points@.len()
        &&& h.turn < self.seats@.len()
        &&& h.state matches GameState::Play(p) && p.players_passed@.len() == self.seats@.len()
    }

    /// The shared state is consistent: board shapes agree, the turn names a
    /// seat, every team has a score slot and a visibility bit, and the
    /// history holds at least the starting position.
    pub open spec fn wf(&self) -> bool {
        &&& self.board.wf()
        &&& opt_visibility_fits(self.board_visibility, self.board)
        &&& forall|i: int| 0 <= i < self.board.points@.len() ==> (#[trigger] self.board.points@[i]).0 <= self.points@.len()
        &&& self.seats@.len() >= 1
        &&& self.turn < self.seats@.len()
        &&& self.points@.len() == self.komis@.len()
        &&& forall|i: int| 0 <= i < self.seats@.len() ==> 1 <= (#[trigger] self.seats@[i]).team.0 <= self.points@.len()
            && self.seats@[i].team.0 < 16
        &&& (self.mods.zen_go matches Some(z) ==> 1 <= z.color_count <= self.points@.len() && z.color_count < 16)
        &&& self.board_history@.len() >= 1
        &&& forall|k: int| 0 <= k < self.board_history@.len() ==> self.history_fits(#[trigger] self.board_history@[k])
        &&& (self.clock matches Some(c) ==> c.clocks@.len() == self.seats@.len())
    }

    /// Every score has room, within `i32`, for what one move can add to or
    /// take from it: a ponnuki value and four points per point of the board.
    pub open spec fn score_room(&self) -> bool {
        let n = self.board.points@.len() as int;
        let pv: int = match self.mods.ponnuki_is_points {
            Some(v) => if v < 0 { -v } else { v as int },
            None => 0,
        };
        forall|i: int| 0 <= i < self.points@.len() ==> i32::MIN + (pv + 4) * n <= #[trigger] self.points@[i] <= i32::MAX - (pv + 4) * n
    }

    /// `h` records the current position of the game with `state` as the
    /// play state (its hash aside).
    pub open spec fn records(&self, h: BoardHistory, state: PlayModel) -> bool {
        &&& h.board@ == self.board@
        &&& opt_board_view(h.board_visibility) == opt_board_view(self.board_visibility)
        &&& h.state@ == GameStateModel::Play(state)
        &&& h.points@ == self.points@
        &&& h.turn == self.turn
    }

    /// The seat whose turn it is.
    pub fn get_active_seat(&self) -> (s: Seat)
        requires
            self.turn < self.seats@.len(),
        ensures
            s == self.active_seat(),
    {
        self.seats[self.turn]
    }
}

} // verus!
