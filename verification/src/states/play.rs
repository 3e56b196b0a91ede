use vstd::prelude::*;

pub mod capture;
pub mod n_plus_one;
pub mod tetris;
pub mod traitor;

use crate::game::board::{lemma_coord_in_range, lemma_index_in_range, lemma_neighbors};
use crate::game::vecs::copy_vec;
use crate::game::{
    copy_visibility, next_seat, opt_board_view, seat_after, ActionChange, ActionKind, Board, BoardHistory, Color, Group, MakeActionError, Point, Seat, SharedState, Visibility,
    VisibilityBoard,
};
use crate::states::scoring::territory_fits;
use crate::states::{GameState, GameStateModel, ScoringState};
use crate::game::count::count_true;

verus! {

/// The playing phase: which seats passed since the last stone, the points of
/// the last move, and the number of stones captured so far.
#[derive(Debug)]
pub struct PlayState {
    pub players_passed: Vec<bool>,
    pub last_stone: Option<Vec<Point>>,
    /// Optimization for superko
    pub capture_count: usize,
}

/// What a play state holds.
pub struct PlayModel {
    pub players_passed: Seq<bool>,
    pub last_stone: Option<Seq<Point>>,
    pub capture_count: usize,
}

pub open spec fn opt_points_view(o: Option<Vec<Point>>) -> Option<Seq<Point>> {
    match o {
        Some(v) => Some(v@),
        None => None,
    }
}

impl View for PlayState {
    type V = PlayModel;

    open spec fn view(&self) -> PlayModel {
        PlayModel {
            players_passed: self.players_passed@,
            last_stone: opt_points_view(self.last_stone),
            capture_count: self.capture_count,
        }
    }
}

impl PlayState {
    /// A fresh play state: nobody passed, no last move, no captures.
    pub fn new(seat_count: usize) -> (s: PlayState)
        ensures
            s@ == (PlayModel { players_passed: Seq::new(seat_count as nat, |i: int| false), last_stone: None, capture_count: 0 }),
    {
        PlayState { players_passed: crate::game::vecs::repeat(false, seat_count), last_stone: None, capture_count: 0 }
    }

    /// A copy of the state.
    pub fn copy(&self) -> (s: PlayState)
        ensures
            s@ == self@,
    {
        let last_stone = match &self.last_stone {
            Some(v) => Some(copy_vec(v)),
            None => None,
        };
        PlayState { players_passed: copy_vec(&self.players_passed), last_stone, capture_count: self.capture_count }
    }
}

/// `q` is a point of `pts` or next to one.
pub open spec fn in_area(b: Board<Color>, pts: Seq<Point>, q: Point) -> bool {
    pts.contains(q) || exists|j: int| 0 <= j < pts.len() && #[trigger] b.adjacent(pts[j], q)
}

/// `v` with every point satisfying `f` made visible to everyone, that is,
/// no longer hidden.
pub open spec fn cleared(v: Seq<Visibility>, b: Board<Color>, f: spec_fn(Point) -> bool) -> Seq<Visibility> {
    Seq::new(v.len(), |i: int| if f(b.coord_of(i)) { Visibility(0) } else { v[i] })
}

/// Some point satisfying `f` held a hidden stone in `v`.
pub open spec fn any_hidden(v: Seq<Visibility>, b: Board<Color>, f: spec_fn(Point) -> bool) -> bool {
    exists|i: int| 0 <= i < v.len() && f(b.coord_of(i)) && #[trigger] v[i].0 != 0
}

/// `new` is `old` with every point satisfying `f` made visible to everyone,
/// and `revealed` tells whether any of those points held a hidden stone.
pub open spec fn reveals(old: Option<VisibilityBoard>, new: Option<VisibilityBoard>, b: Board<Color>, f: spec_fn(Point) -> bool, revealed: bool) -> bool {
    match (old, new) {
        (Some(ov), Some(nv)) => {
            &&& nv.points@ == cleared(ov.points@, b, f)
            &&& revealed == any_hidden(ov.points@, b, f)
        },
        (None, None) => !revealed,
        _ => false,
    }
}

/// Reveals `q`: returns whether it held a hidden stone.
fn reveal_point(v: &mut VisibilityBoard, b: &Board<Color>, q: Point) -> (r: bool)
    requires
        b.wf(),
        b.within(q),
        crate::game::visibility_fits(*old(v), *b),
    ensures
        crate::game::visibility_fits(*final(v), *b),
        final(v).points@ == old(v).points@.update(b.index_of(q), Visibility(0)),
        r == (old(v).points@[b.index_of(q)].0 != 0),
{
    proof {
        lemma_index_in_range(b, q);
    }
    let r = !v.get_point(q).is_empty();
    v.set_point(q, Visibility::new());
    r
}

/// Reveals the stones of `group` and of the points next to it; returns
/// whether any of them was hidden.
pub fn reveal_group(visibility: &mut Option<VisibilityBoard>, group: &Group, board: &Board<Color>) -> (revealed: bool)
    requires
        board.wf(),
        forall|j: int| 0 <= j < group.points@.len() ==> board.within(#[trigger] group.points@[j]),
        crate::game::opt_visibility_fits(*old(visibility), *board),
    ensures
        crate::game::opt_visibility_fits(*final(visibility), *board),
        match (*old(visibility), *final(visibility)) {
            (Some(ov), Some(nv)) => {
                &&& nv.points@ == cleared(ov.points@, *board, |q: Point| in_area(*board, group.points@, q))
                &&& revealed == any_hidden(ov.points@, *board, |q: Point| in_area(*board, group.points@, q))
            },
            (None, None) => !revealed,
            _ => false,
        },
{
    let ghost pts = group.points@;
    let ghost f = |q: Point| in_area(*board, pts, q);
    match visibility {
        None => false,
        Some(v) => {
            let ghost ov = v.points@;
            let ghost n = ov.len();
            let mut revealed = false;
            let mut j: usize = 0;
            while j < group.points.len()
                invariant
                    board.wf(),
                    pts == group.points@,
                    forall|jj: int| 0 <= jj < pts.len() ==> board.within(#[trigger] pts[jj]),
                    crate::game::visibility_fits(*v, *board),
                    n == ov.len(),
                    n == board.points@.len(),
                    j <= pts.len(),
                    forall|i: int| 0 <= i < n ==> #[trigger] v.points@[i] == if in_area(*board, pts.subrange(0, j as int), board.coord_of(i)) {
                        Visibility(0)
                    } else {
                        ov[i]
                    },
                    revealed == exists|i: int| 0 <= i < n && in_area(*board, pts.subrange(0, j as int), board.coord_of(i)) && #[trigger] ov[i].0 != 0,
                decreases pts.len() - j,
            {
                let p = group.points[j];
                let ghost s0 = pts.subrange(0, j as int);
                let ghost s1 = pts.subrange(0, j + 1);
                let nbrs = board.surrounding_points(p);
                proof {
                    lemma_neighbors(board, p);
                    assert(s1 =~= s0.push(p));
                }
                let ghost area = |q: Point| q == p || board.adjacent(p, q);
                let ghost v_start = v.points@;
                let ghost r_start = revealed;
                let r0 = reveal_point(v, board, p);
                proof {
                    lemma_index_in_range(board, p);
                    let pi = board.index_of(p);
                    assert forall|i: int| 0 <= i < n implies (board.coord_of(i) == p <==> i == pi) by {
                        lemma_coord_in_range(board, i);
                    }
                    assert(nbrs@.subrange(0, 0) =~= Seq::<Point>::empty());
                    if r0 {
                        assert(board.coord_of(pi) == p);
                    }
                }
                revealed = revealed || r0;
                let mut k: usize = 0;
                while k < nbrs.len()
                    invariant
                        board.wf(),
                        board.within(p),
                        nbrs@ == board.neighbors(p),
                        forall|q: Point| #[trigger] board.neighbors(p).contains(q) ==> board.within(q),
                        crate::game::visibility_fits(*v, *board),
                        n == board.points@.len(),
                        k <= nbrs@.len(),
                        v_start.len() == n,
                        forall|i: int| 0 <= i < n ==> #[trigger] v.points@[i] == if board.coord_of(i) == p || nbrs@.subrange(0, k as int).contains(board.coord_of(i)) {
                            Visibility(0)
                        } else {
                            v_start[i]
                        },
                        revealed == (r_start || exists|i: int| 0 <= i < n && (board.coord_of(i) == p || nbrs@.subrange(0, k as int).contains(board.coord_of(i))) && #[trigger] v_start[i].0 != 0),
                    decreases nbrs@.len() - k,
                {
                    let q = nbrs[k];
                    proof {
                        assert(board.neighbors(p).contains(q));
                        lemma_index_in_range(board, q);
                    }
                    let ghost prev = v.points@;
                    let r = reveal_point(v, board, q);
                    proof {
                        let t0 = nbrs@.subrange(0, k as int);
                        let t1 = nbrs@.subrange(0, k + 1);
                        assert(t1 =~= t0.push(q));
                        assert forall|c: Point| t1.contains(c) <==> (t0.contains(c) || c == q) by {
                            if t1.contains(c) && c != q {
                                let m = choose|m: int| 0 <= m < t1.len() && t1[m] == c;
                                assert(t0[m] == c);
                            }
                            if t0.contains(c) {
                                let m = choose|m: int| 0 <= m < t0.len() && t0[m] == c;
                                assert(t1[m] == c);
                            }
                            if c == q {
                                assert(t1[k as int] == c);
                            }
                        }
                        let qi = board.index_of(q);
                        lemma_coord_in_range(board, qi);
                        assert forall|i: int| 0 <= i < n implies #[trigger] v.points@[i] == if board.coord_of(i) == p || t1.contains(board.coord_of(i)) {
                            Visibility(0)
                        } else {
                            v_start[i]
                        } by {
                            lemma_coord_in_range(board, i);
                            if i != qi {
                                assert(prev[i] == v.points@[i]);
                                if board.coord_of(i) == q {
                                    assert(board.index_of(board.coord_of(i)) == i);
                                }
                            }
                        }
                        if r {
                            if prev[qi].0 != 0 {
                                assert(v_start[qi] == prev[qi]);
                                assert(t1.contains(board.coord_of(qi)));
                            }
                        }
                        if exists|i: int| 0 <= i < n && (board.coord_of(i) == p || t1.contains(board.coord_of(i))) && #[trigger] v_start[i].0 != 0 {
                            let i = choose|i: int| 0 <= i < n && (board.coord_of(i) == p || t1.contains(board.coord_of(i))) && #[trigger] v_start[i].0 != 0;
                            if !(board.coord_of(i) == p || t0.contains(board.coord_of(i))) {
                                lemma_coord_in_range(board, i);
                                assert(board.coord_of(i) == q);
                                assert(i == qi);
                                assert(prev[qi] == v_start[qi]);
                            }
                        }
                    }
                    revealed = revealed || r;
                    k = k + 1;
                }
                proof {
                    assert forall|c: Point| in_area(*board, s1, c) <==> (in_area(*board, s0, c) || c == p || nbrs@.contains(c)) by {
                        if in_area(*board, s1, c) {
                            if s1.contains(c) {
                                let m = choose|m: int| 0 <= m < s1.len() && s1[m] == c;
                                if m < j {
                                    assert(s0[m] == c);
                                }
                            } else {
                                let m = choose|m: int| 0 <= m < s1.len() && #[trigger] board.adjacent(s1[m], c);
                                if m < j {
                                    assert(s0[m] == s1[m]);
                                    assert(board.adjacent(s0[m], c));
                                }
                            }
                        }
                        if in_area(*board, s0, c) {
                            if s0.contains(c) {
                                let m = choose|m: int| 0 <= m < s0.len() && s0[m] == c;
                                assert(s1[m] == c);
                            } else {
                                let m = choose|m: int| 0 <= m < s0.len() && #[trigger] board.adjacent(s0[m], c);
                                assert(s1[m] == s0[m]);
                                assert(board.adjacent(s1[m], c));
                            }
                        }
                        if c == p {
                            assert(s1[j as int] == c);
                        }
                        if nbrs@.contains(c) {
                            assert(board.adjacent(s1[j as int], c));
                        }
                    }
                    assert(nbrs@.subrange(0, nbrs@.len() as int) =~= nbrs@);
                    let nb = nbrs@.subrange(0, nbrs@.len() as int);
                    if revealed {
                        if r_start {
                            let i = choose|i: int| 0 <= i < n && in_area(*board, s0, board.coord_of(i)) && #[trigger] ov[i].0 != 0;
                            assert(in_area(*board, s1, board.coord_of(i)));
                        } else {
                            let i = choose|i: int| 0 <= i < n && (board.coord_of(i) == p || nb.contains(board.coord_of(i))) && #[trigger] v_start[i].0 != 0;
                            assert(in_area(*board, s1, board.coord_of(i)));
                        }
                    }
                    if exists|i: int| 0 <= i < n && in_area(*board, s1, board.coord_of(i)) && #[trigger] ov[i].0 != 0 {
                        let i = choose|i: int| 0 <= i < n && in_area(*board, s1, board.coord_of(i)) && #[trigger] ov[i].0 != 0;
                        if !in_area(*board, s0, board.coord_of(i)) {
                            assert(v_start[i] == ov[i]);
                        }
                    }
                }
                j = j + 1;
            }
            proof {
                assert(pts.subrange(0, pts.len() as int) =~= pts);
                assert(v.points@ =~= cleared(ov, *board, f));
            }
            revealed
        },
    }
}

/// Zen go recolours every seat after a move: each gets the colour of the
/// move number (counted from the history); without it nothing changes.
pub open spec fn zen_applied(sh0: SharedState, sh1: SharedState) -> bool {
    match sh0.mods.zen_go {
        Some(z) => {
            &&& sh1.seats@.len() == sh0.seats@.len()
            &&& forall|i: int|
                0 <= i < sh1.seats@.len() ==> #[trigger] sh1.seats@[i] == (Seat {
                    team: Color((((sh0.board_history@.len() - 1) as int % z.color_count as int) + 1) as u8),
                    ..sh0.seats@[i]
                })
            &&& sh1 == (SharedState { seats: sh1.seats, ..sh0 })
        },
        None => sh1 == sh0,
    }
}

/// Gives the turn to the next seat, going round, that has not resigned.
fn advance_turn(shared: &mut SharedState)
    requires
        old(shared).seats@.len() >= 1,
        old(shared).turn < old(shared).seats@.len(),
    ensures
        *final(shared) == (SharedState { turn: next_seat(old(shared).seats@, old(shared).turn as int) as usize, ..*old(shared) }),
        final(shared).turn < final(shared).seats@.len(),
{
    let n = shared.seats.len();
    let start = shared.turn;
    let ghost seats = shared.seats@;
    let mut k: usize = 0;
    while k < n
        invariant
            n == seats.len(),
            seats == shared.seats@,
            n >= 1,
            start < n,
            0 <= k <= n,
            *shared == *old(shared),
            start == old(shared).turn,
            seat_after(seats, start as int, 1) == seat_after(seats, start as int, (k + 1) as nat),
        decreases n - k,
    {
        let step = k + 1;
        let c = if step < n - start {
            start + step
        } else {
            step - (n - start)
        };
        proof {
            assert(c as int == (start + step) % (n as int)) by (nonlinear_arith)
                requires
                    c == if step < n - start { start + step } else { step - (n - start) },
                    start < n,
                    1 <= step <= n,
            ;
        }
        if !shared.seats[c].resigned {
            proof {
                assert(seat_after(seats, start as int, step as nat) == c);
            }
            shared.turn = c;
            return;
        }
        k = step;
    }
    proof {
        assert(seat_after(seats, start as int, (n + 1) as nat) == start);
    }
}

/// Which seats passed since the last stone: one flag per seat.
impl PlayState {
    /// The play state belongs to the game: one pass flag per seat.
    pub open spec fn fits(&self, shared: &SharedState) -> bool {
        self.players_passed@.len() == shared.seats@.len()
    }

    /// Ends the turn: unless `new_turn` grants the same seat another move,
    /// the turn goes to the next seat that has not resigned; the position is
    /// then recorded in the history.
    fn next_turn(&mut self, shared: &mut SharedState, new_turn: bool)
        requires
            old(shared).wf(),
            old(self).fits(&*old(shared)),
        ensures
            final(shared).wf(),
            *final(self) == *old(self),
            final(shared).turn == if new_turn { old(shared).turn } else { next_seat(old(shared).seats@, old(shared).turn as int) as usize },
            final(shared).board_history@.len() == old(shared).board_history@.len() + 1,
            final(shared).board_history@.drop_last() == old(shared).board_history@,
            final(shared).records(final(shared).board_history@.last(), old(self)@),
            final(shared).seats == old(shared).seats,
            final(shared).points == old(shared).points,
            final(shared).pass_count == old(shared).pass_count,
            final(shared).board == old(shared).board,
            final(shared).board_visibility == old(shared).board_visibility,
            final(shared).komis == old(shared).komis,
            final(shared).mods == old(shared).mods,
            final(shared).clock == old(shared).clock,
            final(shared).setup_teams == old(shared).setup_teams,
    {
        if !new_turn {
            advance_turn(shared);
        }
        let h = BoardHistory {
            hash: shared.board.hash(),
            board: shared.board.copy(),
            board_visibility: copy_visibility(&shared.board_visibility),
            state: GameState::Play(self.copy()),
            points: copy_vec(&shared.points),
            turn: shared.turn,
        };
        shared.board_history.push(h);
        proof {
            assert(shared.board_history@.drop_last() =~= old(shared).board_history@);
            assert forall|k: int| 0 <= k < shared.board_history@.len() implies shared.history_fits(#[trigger] shared.board_history@[k]) by {
                if k < old(shared).board_history@.len() {
                    assert(old(shared).history_fits(old(shared).board_history@[k]));
                }
            }
        }
    }

    /// Under Zen go the seats take the colours in turn, one move each: every
    /// seat gets the colour of the move number.
    fn set_zen_teams(&mut self, shared: &mut SharedState)
        requires
            old(shared).wf(),
        ensures
            final(shared).wf(),
            *final(self) == *old(self),
            zen_applied(*old(shared), *final(shared)),
    {
        let move_number = shared.board_history.len() - 1;
        match shared.mods.zen_go {
            Some(zen) => {
                let team = Color((move_number % (zen.color_count as usize)) as u8 + 1);
                let ghost old_seats = shared.seats@;
                let mut i: usize = 0;
                while i < shared.seats.len()
                    invariant
                        shared.seats@.len() == old_seats.len(),
                        i <= old_seats.len(),
                        old_seats == old(shared).seats@,
                        *shared == (SharedState { seats: shared.seats, ..*old(shared) }),
                        team.0 == ((old(shared).board_history@.len() - 1) as int % zen.color_count as int) + 1,
                        forall|k: int| 0 <= k < old_seats.len() ==> #[trigger] shared.seats@[k] == if k < i {
                            Seat { team, ..old_seats[k] }
                        } else {
                            old_seats[k]
                        },
                    decreases old_seats.len() - i,
                {
                    let mut seat = shared.seats[i];
                    seat.team = team;
                    shared.seats.set(i, seat);
                    i = i + 1;
                }
                proof {
                    assert forall|k: int| 0 <= k < shared.seats@.len() implies 1 <= (#[trigger] shared.seats@[k]).team.0 <= shared.points@.len()
                        && shared.seats@[k].team.0 < 16 by {
                        assert(shared.seats@[k].team == team);
                    }
                    assert forall|k: int| 0 <= k < shared.board_history@.len() implies shared.history_fits(#[trigger] shared.board_history@[k]) by {
                        assert(old(shared).history_fits(old(shared).board_history@[k]));
                    }
                }
            },
            None => {},
        }
    }
}

/// Passing: the active team's seats pass and the turn ends; once every
/// seat has resigned or passed, the flags are cleared and scoring begins.
pub open spec fn pass_action(s0: PlayState, sh0: SharedState, s1: PlayState, sh1: SharedState, r: Result<ActionChange, MakeActionError>) -> bool {
    {
        let passed = passed_by_team(s0.players_passed@, sh0.seats@, sh0.active_seat().team);
        let done = all_passed(passed, sh0.seats@);
        &&& sh1.turn == next_seat(sh0.seats@, sh0.turn as int) as usize
        &&& sh1.board_history@.drop_last() == sh0.board_history@
        &&& sh1.records(sh1.board_history@.last(), PlayModel { players_passed: passed, ..s0@ })
        &&& sh1 == (SharedState { turn: sh1.turn, board_history: sh1.board_history, ..sh0 })
        &&& s1@ == (PlayModel {
            players_passed: if done { Seq::new(passed.len(), |i: int| false) } else { passed },
            ..s0@
        })
        &&& done ==> (r matches Ok(ActionChange::PushState(GameState::Scoring(st))) && st.scores_position(
            sh0.board,
            sh0.seats@.len(),
            sh0.points@,
        ))
        &&& !done ==> r matches Ok(ActionChange::NoChange)
    }
}

/// Cancelling: at the start of the game there is no move to take back;
/// otherwise the last position is dropped and the one before comes back.
pub open spec fn cancel_action(s0: PlayState, sh0: SharedState, s1: PlayState, sh1: SharedState, r: Result<ActionChange, MakeActionError>) -> bool {
    &&& sh0.board_history@.len() < 2 ==> r == Err::<ActionChange, MakeActionError>(MakeActionError::OutOfBounds)
        && sh1 == sh0 && s1 == s0
    &&& sh0.board_history@.len() >= 2 ==> (r matches Ok(ActionChange::NoChange)) && {
        let h = sh0.board_history@[sh0.board_history@.len() - 2];
        &&& sh1.board_history@ == sh0.board_history@.drop_last()
        &&& sh1.board@ == h.board@
        &&& opt_board_view(sh1.board_visibility) == opt_board_view(h.board_visibility)
        &&& sh1.points@ == h.points@
        &&& sh1.turn == h.turn
        &&& h.state@ == GameStateModel::Play(s1@)
        &&& sh1.seats == sh0.seats
        &&& sh1.pass_count == sh0.pass_count
        &&& sh1.komis == sh0.komis
        &&& sh1.mods == sh0.mods
        &&& sh1.clock == sh0.clock
    }
}

/// Resigning: the active seat resigns; once at most one seat is left, the
/// game is over and scored; otherwise the turn goes on.
pub open spec fn resign_action(s0: PlayState, sh0: SharedState, s1: PlayState, sh1: SharedState, r: Result<ActionChange, MakeActionError>) -> bool {
    &&& s1 == s0
    &&& {
        let seats = sh0.seats@.update(sh0.turn as int, Seat { resigned: true, ..sh0.active_seat() });
        &&& sh1.seats@ == seats
        &&& count_true(playing_mask(seats)) <= 1 ==> {
            &&& sh1 == (SharedState { seats: sh1.seats, ..sh0 })
            &&& (r matches Ok(ActionChange::PushState(GameState::Done(st))) && st.scores_position(
                sh0.board,
                sh0.seats@.len(),
                sh0.points@,
            ))
        }
        &&& count_true(playing_mask(seats)) > 1 ==> {
            &&& sh1 == (SharedState { seats: sh1.seats, turn: next_seat(seats, sh0.turn as int) as usize, ..sh0 })
            &&& r matches Ok(ActionChange::NoChange)
        }
    }
}

/// The pass flags after the team `team` passed: every seat of that team has
/// passed.
pub open spec fn passed_by_team(passed: Seq<bool>, seats: Seq<Seat>, team: Color) -> Seq<bool> {
    Seq::new(passed.len(), |i: int| passed[i] || seats[i].team == team)
}

/// Every seat has resigned or passed.
pub open spec fn all_passed(passed: Seq<bool>, seats: Seq<Seat>) -> bool {
    forall|i: int| 0 <= i < seats.len() ==> seats[i].resigned || #[trigger] passed[i]
}

/// Per seat: it has not resigned.
pub open spec fn playing_mask(seats: Seq<Seat>) -> Seq<bool> {
    Seq::new(seats.len(), |i: int| !seats[i].resigned)
}

/// Scores leave room for the territory of the whole board.
pub proof fn lemma_room_territory(shared: &SharedState)
    requires
        shared.score_room(),
    ensures
        territory_fits(shared.points@, shared.board.points@.len()),
{
    let n = shared.board.points@.len() as int;
    let pv: int = match shared.mods.ponnuki_is_points {
        Some(v) => if v < 0 { -v } else { v as int },
        None => 0,
    };
    assert((pv + 4) * n >= 2 * n) by (nonlinear_arith)
        requires
            pv >= 0,
            n >= 0,
    ;
}

impl PlayState {
    /// The active team passes: its seats are marked as passed and the turn
    /// ends. Once every seat has resigned or passed, the flags are cleared
    /// and scoring begins on the current board.
    fn make_action_pass(&mut self, shared: &mut SharedState) -> (r: Result<ActionChange, MakeActionError>)
        requires
            old(shared).wf(),
            old(shared).score_room(),
            old(self).fits(&*old(shared)),
        ensures
            final(shared).wf(),
            final(self).fits(&*final(shared)),
            pass_action(*old(self), *old(shared), *final(self), *final(shared), r),
    {
        let team = shared.get_active_seat().team;
        let ghost passed = passed_by_team(self.players_passed@, shared.seats@, team);
        let mut i: usize = 0;
        while i < self.players_passed.len()
            invariant
                self.players_passed@.len() == shared.seats@.len(),
                *shared == *old(shared),
                team == old(shared).active_seat().team,
                i <= self.players_passed@.len(),
                passed == passed_by_team(old(self).players_passed@, old(shared).seats@, team),
                passed.len() == self.players_passed@.len(),
                old(self).players_passed@.len() == self.players_passed@.len(),
                self.last_stone == old(self).last_stone,
                self.capture_count == old(self).capture_count,
                forall|k: int| 0 <= k < self.players_passed@.len() ==> #[trigger] self.players_passed@[k] == if k < i {
                    passed[k]
                } else {
                    old(self).players_passed@[k]
                },
            decreases self.players_passed@.len() - i,
        {
            if shared.seats[i].team == team {
                self.players_passed.set(i, true);
            }
            i = i + 1;
        }
        proof {
            assert(self.players_passed@ =~= passed);
        }
        self.next_turn(shared, false);
        let mut done = true;
        let mut k: usize = 0;
        while k < shared.seats.len()
            invariant
                self.players_passed@ == passed,
                passed.len() == shared.seats@.len(),
                shared.seats == old(shared).seats,
                k <= shared.seats@.len(),
                done == forall|j: int| 0 <= j < k ==> shared.seats@[j].resigned || #[trigger] passed[j],
            decreases shared.seats@.len() - k,
        {
            if !shared.seats[k].resigned && !self.players_passed[k] {
                done = false;
            }
            k = k + 1;
        }
        if done {
            let n = self.players_passed.len();
            self.players_passed = crate::game::vecs::repeat(false, n);
            proof {
                lemma_room_territory(&*old(shared));
            }
            let st = GameState::scoring(&shared.board, shared.seats.len(), shared.points.as_slice());
            return Ok(ActionChange::PushState(st));
        }
        Ok(ActionChange::NoChange)
    }

    /// Goes back to the position before the last one of the history: the
    /// last entry is dropped and the board, scores, turn and play state (and,
    /// with `roll_visibility`, the visibility) are those of the entry before.
    fn rollback_turn(&mut self, shared: &mut SharedState, roll_visibility: bool) -> (r: Result<ActionChange, MakeActionError>)
        requires
            old(shared).wf(),
            old(shared).board_history@.len() >= 2,
        ensures
            final(shared).wf(),
            final(self).fits(&*final(shared)),
            r matches Ok(ActionChange::NoChange),
            ({
                let h = old(shared).board_history@[old(shared).board_history@.len() - 2];
                &&& final(shared).board_history@ == old(shared).board_history@.drop_last()
                &&& final(shared).board@ == h.board@
                &&& opt_board_view(final(shared).board_visibility) == if roll_visibility {
                    opt_board_view(h.board_visibility)
                } else {
                    opt_board_view(old(shared).board_visibility)
                }
                &&& final(shared).points@ == h.points@
                &&& final(shared).turn == h.turn
                &&& h.state@ == GameStateModel::Play(final(self)@)
                &&& final(shared).seats == old(shared).seats
                &&& final(shared).pass_count == old(shared).pass_count
                &&& final(shared).komis == old(shared).komis
                &&& final(shared).mods == old(shared).mods
                &&& final(shared).clock == old(shared).clock
                &&& final(shared).setup_teams == old(shared).setup_teams
            }),
    {
        let _ = shared.board_history.pop();
        let last = shared.board_history.len() - 1;
        let h = &shared.board_history[last];
        proof {
            assert(old(shared).history_fits(old(shared).board_history@[last as int]));
        }
        let board = h.board.copy();
        let vis = if roll_visibility {
            copy_visibility(&h.board_visibility)
        } else {
            copy_visibility(&shared.board_visibility)
        };
        let points = copy_vec(&h.points);
        let turn = h.turn;
        let state = match &h.state {
            GameState::Play(p) => p.copy(),
            _ => {
                proof {
                    assert(false);
                }
                PlayState::new(0)
            },
        };
        shared.board = board;
        shared.board_visibility = vis;
        shared.points = points;
        shared.turn = turn;
        *self = state;
        proof {
            assert forall|k: int| 0 <= k < shared.board_history@.len() implies shared.history_fits(#[trigger] shared.board_history@[k]) by {
                assert(old(shared).history_fits(old(shared).board_history@[k]));
            }
            assert(crate::game::opt_visibility_fits(shared.board_visibility, shared.board));
        }
        Ok(ActionChange::NoChange)
    }

    /// Takes back the last move; at the start of the game there is none to
    /// take back.
    fn make_action_cancel(&mut self, shared: &mut SharedState) -> (r: Result<ActionChange, MakeActionError>)
        requires
            old(shared).wf(),
            old(self).fits(&*old(shared)),
        ensures
            final(shared).wf(),
            final(self).fits(&*final(shared)),
            cancel_action(*old(self), *old(shared), *final(self), *final(shared), r),
    {
        if shared.board_history.len() < 2 {
            return Err(MakeActionError::OutOfBounds);
        }
        self.rollback_turn(shared, true)
    }

    /// The active seat resigns. Once at most one seat is left in the game, it
    /// is over and its final score is that of the current board; otherwise
    /// the turn goes to the next seat that has not resigned.
    fn make_action_resign(&mut self, shared: &mut SharedState) -> (r: Result<ActionChange, MakeActionError>)
        requires
            old(shared).wf(),
            old(shared).score_room(),
            old(self).fits(&*old(shared)),
        ensures
            final(shared).wf(),
            final(self).fits(&*final(shared)),
            resign_action(*old(self), *old(shared), *final(self), *final(shared), r),
    {
        let t = shared.turn;
        let mut seat = shared.seats[t];
        seat.resigned = true;
        shared.seats.set(t, seat);
        let ghost seats = shared.seats@;
        proof {
            assert forall|k: int| 0 <= k < shared.board_history@.len() implies shared.history_fits(#[trigger] shared.board_history@[k]) by {
                assert(old(shared).history_fits(old(shared).board_history@[k]));
            }
        }
        let mut playing: usize = 0;
        let mut i: usize = 0;
        while i < shared.seats.len()
            invariant
                seats == shared.seats@,
                i <= seats.len(),
                playing == count_true(playing_mask(seats).subrange(0, i as int)),
                playing <= i,
            decreases seats.len() - i,
        {
            proof {
                let s = playing_mask(seats);
                assert(s.subrange(0, i + 1).drop_last() =~= s.subrange(0, i as int));
                crate::game::count::lemma_count_true_bound(s.subrange(0, i + 1));
            }
            if !shared.seats[i].resigned {
                playing = playing + 1;
            }
            i = i + 1;
        }
        proof {
            assert(playing_mask(seats).subrange(0, seats.len() as int) =~= playing_mask(seats));
        }
        if playing <= 1 {
            proof {
                lemma_room_territory(&*old(shared));
            }
            let st = ScoringState::new(&shared.board, shared.seats.len(), shared.points.as_slice());
            return Ok(ActionChange::PushState(GameState::Done(st)));
        }
        advance_turn(shared);
        Ok(ActionChange::NoChange)
    }
}

/// The visibility points, if there is a visibility board.
pub open spec fn opt_vis_points(o: Option<VisibilityBoard>) -> Option<Seq<Visibility>> {
    match o {
        Some(v) => Some(v.points@),
        None => None,
    }
}

/// What placing a pixel has done after some of its points.
pub struct PixelOutcome {
    pub board: Seq<Color>,
    pub vis: Option<Seq<Visibility>>,
    pub played: Seq<Point>,
    pub placed: bool,
    pub revealed: bool,
}

/// The points of a flat board cover the whole pixel whose lower right
/// corner is `p`.
pub open spec fn pixel_on_board(width: u32, height: u32, p: Point) -> bool {
    1 <= p.0 < width && 1 <= p.1 < height
}

/// The pixel whose lower right corner is `p` fits on the board: on a flat
/// board it lies on it whole; on a toroidal board its points wrap onto it,
/// so `p` may lie one past the last row and column.
pub open spec fn pixel_fits(b: Board<Color>, p: Point) -> bool {
    if b.toroidal {
        p.0 <= b.width && p.1 <= b.height
    } else {
        pixel_on_board(b.width, b.height, p)
    }
}

/// The points a pixel covers, for the pixel whose lower right corner is
/// `(x, y)`: up-left, up, left and the point itself, as far as they exist.
pub open spec fn pixel_points(b: Board<Color>, x: int, y: int) -> Seq<Option<Point>> {
    seq![b.wrap(x - 1, y - 1), b.wrap(x, y - 1), b.wrap(x - 1, y), b.wrap(x, y)]
}

/// Placing a pixel of `color` point by point: each point on the board is
/// revealed (recorded as played if it held a hidden stone), then, if empty,
/// gets a stone and is recorded as played.
pub open spec fn pixel_fold(b: Board<Color>, vis: Option<Seq<Visibility>>, cands: Seq<Option<Point>>, color: Color) -> PixelOutcome
    decreases cands.len(),
{
    if cands.len() == 0 {
        PixelOutcome { board: b.points@, vis, played: Seq::empty(), placed: false, revealed: false }
    } else {
        let o = pixel_fold(b, vis, cands.drop_last(), color);
        match cands.last() {
            None => o,
            Some(c) => if !b.within(c) {
                o
            } else {
                let i = b.index_of(c);
                let rev = match o.vis {
                    Some(v) => v[i].0 != 0,
                    None => false,
                };
                let vis2 = match o.vis {
                    Some(v) => Some(v.update(i, Visibility(0))),
                    None => None,
                };
                let played1 = if rev {
                    o.played.push(c)
                } else {
                    o.played
                };
                if o.board[i].0 != 0 {
                    PixelOutcome { board: o.board, vis: vis2, played: played1, placed: o.placed, revealed: o.revealed || rev }
                } else {
                    PixelOutcome { board: o.board.update(i, color), vis: vis2, played: played1.push(c), placed: true, revealed: o.revealed || rev }
                }
            }
        }
    }
}

/// One point of a pixel: reveals `c` and places a stone there if it is
/// empty.
fn pixel_step(
    board: &mut Board<Color>,
    visibility: &mut Option<VisibilityBoard>,
    c: Option<Point>,
    color: Color,
    played: &mut Vec<Point>,
    placed: &mut bool,
    revealed: &mut bool,
    Ghost(b0): Ghost<Board<Color>>,
    Ghost(v0): Ghost<Option<Seq<Visibility>>>,
    Ghost(cands): Ghost<Seq<Option<Point>>>,
)
    requires
        old(board).wf(),
        crate::game::opt_visibility_fits(*old(visibility), *old(board)),
        old(board).width == b0.width,
        old(board).height == b0.height,
        old(board).toroidal == b0.toroidal,
        cands.len() >= 1,
        cands.last() == c,
        ({
            let o = pixel_fold(b0, v0, cands.drop_last(), color);
            &&& old(board).points@ == o.board
            &&& opt_vis_points(*old(visibility)) == o.vis
            &&& old(played)@ == o.played
            &&& *old(placed) == o.placed
            &&& *old(revealed) == o.revealed
        }),
    ensures
        final(board).wf(),
        crate::game::opt_visibility_fits(*final(visibility), *final(board)),
        final(board).width == b0.width,
        final(board).height == b0.height,
        final(board).toroidal == b0.toroidal,
        ({
            let o = pixel_fold(b0, v0, cands, color);
            &&& final(board).points@ == o.board
            &&& opt_vis_points(*final(visibility)) == o.vis
            &&& final(played)@ == o.played
            &&& *final(placed) == o.placed
            &&& *final(revealed) == o.revealed
        }),
{
    match c {
        None => {},
        Some(q) => {
            if !board.point_within(q) {
                return;
            }
            proof {
                lemma_index_in_range(&*board, q);
                assert(cands.drop_last().push(Some(q)) =~= cands);
            }
            let mut rev = false;
            match visibility {
                Some(v) => {
                    rev = !v.get_point(q).is_empty();
                    v.set_point(q, Visibility::new());
                },
                None => {},
            }
            if rev {
                played.push(q);
                *revealed = true;
            }
            if board.get_point(q).is_empty() {
                board.set_point(q, color);
                played.push(q);
                *placed = true;
            }
        },
    }
}

/// The visibility points with the point of index `i` revealed.
pub open spec fn vis_cleared_at(o: Option<Seq<Visibility>>, i: int) -> Option<Seq<Visibility>> {
    match o {
        Some(v) => Some(v.update(i, Visibility(0))),
        None => None,
    }
}

/// The point of index `i` held a hidden stone.
pub open spec fn vis_hidden_at(o: Option<Seq<Visibility>>, i: int) -> bool {
    match o {
        Some(v) => v[i].0 != 0,
        None => false,
    }
}

/// The points played, or the error.
pub open spec fn res_points(r: Result<Vec<Point>, MakeActionError>) -> Result<Seq<Point>, MakeActionError> {
    match r {
        Ok(v) => Ok(v@),
        Err(e) => Err(e),
    }
}

/// Placing a stone of `color` at `p` takes the play state `s0` and the game
/// `sh0` to `s1` and `sh1` with result `r` (the points played): the stone
/// (or, in pixel go, the 2x2 pixel whose lower right corner is `p`) goes on
/// the empty points it covers, which are revealed. A move that only reveals
/// hidden stones plays nothing and makes them the last move.
pub open spec fn stone_placed(
    s0: PlayState,
    sh0: SharedState,
    p: Point,
    color: Color,
    s1: PlayState,
    sh1: SharedState,
    r: Result<Seq<Point>, MakeActionError>,
) -> bool {
    let b = sh0.board;
    let vis = opt_vis_points(sh0.board_visibility);
    &&& sh1 == (SharedState { board: sh1.board, board_visibility: sh1.board_visibility, ..sh0 })
    &&& sh1.board.width == b.width
    &&& sh1.board.height == b.height
    &&& sh1.board.toroidal == b.toroidal
    &&& s1.players_passed == s0.players_passed
    &&& s1.capture_count == s0.capture_count
    &&& !sh0.mods.pixel ==> {
        let i = b.index_of(p);
        &&& !b.within(p) ==> r == Err::<Seq<Point>, MakeActionError>(MakeActionError::OutOfBounds) && sh1 == sh0 && s1 == s0
        &&& b.within(p) ==> {
            &&& opt_vis_points(sh1.board_visibility) == vis_cleared_at(vis, i)
            &&& b.at(p).0 != 0 ==> sh1.board.points@ == b.points@ && if vis_hidden_at(vis, i) {
                r == Ok::<Seq<Point>, MakeActionError>(Seq::empty()) && opt_points_view(s1.last_stone) == Some(seq![p])
            } else {
                r == Err::<Seq<Point>, MakeActionError>(MakeActionError::PointOccupied) && s1.last_stone == s0.last_stone
            }
            &&& b.at(p).0 == 0 ==> sh1.board.points@ == b.points@.update(i, color) && r == Ok::<Seq<Point>, MakeActionError>(seq![p])
                && s1.last_stone == s0.last_stone
        }
    }
    &&& sh0.mods.pixel ==> {
        let o = pixel_fold(b, vis, pixel_points(b, p.0 as int, p.1 as int), color);
        &&& !pixel_fits(b, p) ==> r == Err::<Seq<Point>, MakeActionError>(MakeActionError::OutOfBounds) && sh1 == sh0 && s1 == s0
        &&& pixel_fits(b, p) ==> {
            &&& sh1.board.points@ == o.board
            &&& opt_vis_points(sh1.board_visibility) == o.vis
            &&& o.placed ==> r == Ok::<Seq<Point>, MakeActionError>(o.played) && s1.last_stone == s0.last_stone
            &&& !o.placed && o.revealed ==> r == Ok::<Seq<Point>, MakeActionError>(Seq::empty()) && opt_points_view(s1.last_stone) == Some(o.played)
            &&& !o.placed && !o.revealed ==> r == Err::<Seq<Point>, MakeActionError>(MakeActionError::PointOccupied) && s1.last_stone == s0.last_stone
        }
    }
}

impl PlayState {
    /// Places a stone of `color` at `p` (in pixel go, the 2x2 pixel whose
    /// lower right corner is `p`), revealing the points it covers. Returns
    /// the points played; none when the move only revealed hidden stones, in
    /// which case they become the last move.
    fn place_stone(&mut self, shared: &mut SharedState, p: Point, color: Color) -> (r: Result<Vec<Point>, MakeActionError>)
        requires
            old(shared).wf(),
            color.0 <= old(shared).points@.len(),
        ensures
            final(shared).wf(),
            *final(shared) == (SharedState { board: final(shared).board, board_visibility: final(shared).board_visibility, ..*old(shared) }),
            final(shared).board.width == old(shared).board.width,
            final(shared).board.height == old(shared).board.height,
            final(shared).board.toroidal == old(shared).board.toroidal,
            final(self).players_passed == old(self).players_passed,
            final(self).capture_count == old(self).capture_count,
            r matches Ok(v) ==> forall|j: int| 0 <= j < v@.len() ==> old(shared).board.within(#[trigger] v@[j]),
            stone_placed(*old(self), *old(shared), p, color, *final(self), *final(shared), res_points(r)),
    {
        if shared.mods.pixel {
            let (x, y) = p;
            let fits = if shared.board.toroidal {
                x <= shared.board.width && y <= shared.board.height
            } else {
                1 <= x && x < shared.board.width && 1 <= y && y < shared.board.height
            };
            if !fits {
                return Err(MakeActionError::OutOfBounds);
            }
            let xi = x as i32 - 1;
            let yi = y as i32 - 1;
            let ghost b0 = shared.board;
            let ghost v0 = opt_vis_points(shared.board_visibility);
            let ghost cands = pixel_points(b0, x as int, y as int);
            let mut played: Vec<Point> = Vec::new();
            let mut placed = false;
            let mut revealed = false;
            proof {
                assert(cands.subrange(0, 0) =~= Seq::<Option<Point>>::empty());
                assert(cands.subrange(0, 1).drop_last() =~= cands.subrange(0, 0));
            }
            let c = shared.board.wrap_point(xi, yi);
            pixel_step(&mut shared.board, &mut shared.board_visibility, c, color, &mut played, &mut placed, &mut revealed, Ghost(b0), Ghost(v0), Ghost(cands.subrange(0, 1)));
            proof {
                assert(cands.subrange(0, 2).drop_last() =~= cands.subrange(0, 1));
            }
            let c = shared.board.wrap_point(xi + 1, yi);
            pixel_step(&mut shared.board, &mut shared.board_visibility, c, color, &mut played, &mut placed, &mut revealed, Ghost(b0), Ghost(v0), Ghost(cands.subrange(0, 2)));
            proof {
                assert(cands.subrange(0, 3).drop_last() =~= cands.subrange(0, 2));
            }
            let c = shared.board.wrap_point(xi, yi + 1);
            pixel_step(&mut shared.board, &mut shared.board_visibility, c, color, &mut played, &mut placed, &mut revealed, Ghost(b0), Ghost(v0), Ghost(cands.subrange(0, 3)));
            proof {
                assert(cands.subrange(0, 4).drop_last() =~= cands.subrange(0, 3));
            }
            let c = shared.board.wrap_point(xi + 1, yi + 1);
            pixel_step(&mut shared.board, &mut shared.board_visibility, c, color, &mut played, &mut placed, &mut revealed, Ghost(b0), Ghost(v0), Ghost(cands.subrange(0, 4)));
            proof {
                assert(cands.subrange(0, 4) =~= cands);
                lemma_pixel_fold(b0, v0, cands, color, shared.points@.len() as int);
                assert forall|k: int| 0 <= k < shared.board_history@.len() implies shared.history_fits(#[trigger] shared.board_history@[k]) by {
                    assert(old(shared).history_fits(old(shared).board_history@[k]));
                }
            }
            if !placed {
                if revealed {
                    self.last_stone = Some(played);
                    let none: Vec<Point> = Vec::new();
                    proof {
                        assert(none@ =~= Seq::<Point>::empty());
                    }
                    return Ok(none);
                }
                return Err(MakeActionError::PointOccupied);
            }
            Ok(played)
        } else {
            if !shared.board.point_within(p) {
                return Err(MakeActionError::OutOfBounds);
            }
            proof {
                lemma_index_in_range(&shared.board, p);
            }
            let revealed = match &mut shared.board_visibility {
                Some(v) => {
                    let r = !v.get_point(p).is_empty();
                    v.set_point(p, Visibility::new());
                    r
                },
                None => false,
            };
            proof {
                assert forall|k: int| 0 <= k < shared.board_history@.len() implies shared.history_fits(#[trigger] shared.board_history@[k]) by {
                    assert(old(shared).history_fits(old(shared).board_history@[k]));
                }
            }
            if !shared.board.get_point(p).is_empty() {
                if revealed {
                    let last = vec![p];
                    proof {
                        assert(last@ =~= seq![p]);
                    }
                    self.last_stone = Some(last);
                    let none: Vec<Point> = Vec::new();
                    proof {
                        assert(none@ =~= Seq::<Point>::empty());
                    }
                    return Ok(none);
                }
                return Err(MakeActionError::PointOccupied);
            }
            shared.board.set_point(p, color);
            proof {
                assert forall|k: int| 0 <= k < shared.board_history@.len() implies shared.history_fits(#[trigger] shared.board_history@[k]) by {
                    assert(old(shared).history_fits(old(shared).board_history@[k]));
                }
            }
            let played = vec![p];
            proof {
                assert(played@ =~= seq![p]);
            }
            Ok(played)
        }
    }
}

/// What a pixel does stays on the board: the points it records are on the
/// board, the board and the visibility keep their length, and only `color`
/// is added.
proof fn lemma_pixel_fold(b: Board<Color>, vis: Option<Seq<Visibility>>, cands: Seq<Option<Point>>, color: Color, m: int)
    requires
        b.wf(),
        color.0 <= m,
        forall|i2: int| 0 <= i2 < b.points@.len() ==> (#[trigger] b.points@[i2]).0 <= m,
        vis matches Some(v) ==> v.len() == b.points@.len(),
    ensures
        ({
            let o = pixel_fold(b, vis, cands, color);
            &&& forall|j: int| 0 <= j < o.played.len() ==> b.within(#[trigger] o.played[j])
            &&& o.board.len() == b.points@.len()
            &&& forall|i2: int| 0 <= i2 < o.board.len() ==> (#[trigger] o.board[i2]).0 <= m
            &&& (o.vis matches Some(v) ==> v.len() == b.points@.len())
            &&& (o.vis is None <==> vis is None)
        }),
    decreases cands.len(),
{
    if cands.len() > 0 {
        lemma_pixel_fold(b, vis, cands.drop_last(), color, m);
        let o = pixel_fold(b, vis, cands.drop_last(), color);
        let r = pixel_fold(b, vis, cands, color);
        match cands.last() {
            None => {},
            Some(c) => {
                if b.within(c) {
                    let i = b.index_of(c);
                    lemma_index_in_range(&b, c);
                    assert(r.board == o.board || r.board == o.board.update(i, color));
                    assert forall|i2: int| 0 <= i2 < r.board.len() implies (#[trigger] r.board[i2]).0 <= m by {
                        assert(o.board[i2].0 <= m);
                    }
                    assert forall|j: int| 0 <= j < r.played.len() implies b.within(#[trigger] r.played[j]) by {
                        if j < o.played.len() {
                            assert(b.within(o.played[j]));
                        }
                    }
                }
            },
        }
    }
}

/// Whether two boards are equal.
fn same_board(a: &Board<Color>, b: &Board<Color>) -> (r: bool)
    ensures
        r == (a@ == b@),
{
    if a.width != b.width || a.height != b.height || a.toroidal != b.toroidal || a.points.len() != b.points.len() {
        return false;
    }
    let mut i: usize = 0;
    while i < a.points.len()
        invariant
            a.points@.len() == b.points@.len(),
            i <= a.points@.len(),
            forall|k: int| 0 <= k < i ==> a.points@[k] == b.points@[k],
        decreases a.points@.len() - i,
    {
        if a.points[i].0 != b.points[i].0 {
            return false;
        }
        i = i + 1;
    }
    proof {
        assert(a.points@ =~= b.points@);
    }
    true
}

/// Number of positions of the history that the superko rule looks back at:
/// as many as stones were captured in the game, counting this move.
pub open spec fn ko_window(sh: SharedState, capture_count: int, captures: int) -> int {
    let n = sh.board_history@.len() as int;
    if capture_count + captures < n {
        capture_count + captures
    } else {
        n
    }
}

/// The board repeats one of the last positions of the history (superko).
pub open spec fn repeats_position(sh: SharedState, capture_count: int, captures: int) -> bool {
    let n = sh.board_history@.len() as int;
    exists|j: int| 0 <= j < ko_window(sh, capture_count, captures) && (#[trigger] sh.board_history@[n - 1 - j]).board@ == sh.board@
}

/// `sh1` is `sh0` with the board and scores of the last history entry.
pub open spec fn restored(sh0: SharedState, sh1: SharedState) -> bool {
    let last = sh0.board_history@.last();
    &&& sh1.board@ == last.board@
    &&& sh1.points@ == last.points@
    &&& sh1 == (SharedState { board: sh1.board, points: sh1.points, ..sh0 })
}

/// Puts back the board and scores of the last history entry.
fn restore_last(shared: &mut SharedState)
    requires
        old(shared).wf(),
    ensures
        final(shared).wf(),
        restored(*old(shared), *final(shared)),
{
    let last = shared.board_history.len() - 1;
    proof {
        assert(old(shared).history_fits(old(shared).board_history@[last as int]));
    }
    let board = shared.board_history[last].board.copy();
    let points = copy_vec(&shared.board_history[last].points);
    shared.board = board;
    shared.points = points;
    proof {
        assert forall|k: int| 0 <= k < shared.board_history@.len() implies shared.history_fits(#[trigger] shared.board_history@[k]) by {
            assert(old(shared).history_fits(old(shared).board_history@[k]));
        }
    }
}

impl PlayState {
    /// Superko: the board may not repeat a position of the history. Only as
    /// many positions back as stones were captured can repeat. On a
    /// repetition the board and scores of the last position come back.
    fn superko(&self, shared: &mut SharedState, captures: usize) -> (r: Result<(), MakeActionError>)
        requires
            old(shared).wf(),
        ensures
            final(shared).wf(),
            repeats_position(*old(shared), self.capture_count as int, captures as int) ==> r == Err::<(), MakeActionError>(MakeActionError::Ko)
                && restored(*old(shared), *final(shared)),
            !repeats_position(*old(shared), self.capture_count as int, captures as int) ==> r is Ok && *final(shared) == *old(shared),
    {
        let n = shared.board_history.len();
        let window = if self.capture_count < n && captures < n - self.capture_count {
            self.capture_count + captures
        } else {
            n
        };
        let ghost sh = *shared;
        let mut j: usize = 0;
        while j < window
            invariant
                sh == *shared,
                sh == *old(shared),
                shared.wf(),
                n == shared.board_history@.len(),
                window == ko_window(sh, self.capture_count as int, captures as int),
                window <= n,
                j <= window,
                forall|k: int| 0 <= k < j ==> (#[trigger] sh.board_history@[n - 1 - k]).board@ != sh.board@,
            decreases window - j,
        {
            if same_board(&shared.board_history[n - 1 - j].board, &shared.board) {
                proof {
                    assert(repeats_position(sh, self.capture_count as int, captures as int));
                }
                restore_last(shared);
                return Err(MakeActionError::Ko);
            }
            j = j + 1;
        }
        Ok(())
    }
}

/// The tetris rule applied to the points `played` of the game `sh0` gives
/// `sh1` and the points `played1`: played stones completing a chain of four
/// are taken back. Without the rule nothing changes.
pub open spec fn tetris_stage(sh0: SharedState, played: Seq<Point>, sh1: SharedState, played1: Seq<Point>) -> bool {
    let b = sh0.board;
    if sh0.mods.tetris is Some {
        &&& sh1 == (SharedState { board: sh1.board, ..sh0 })
        &&& sh1.board.width == b.width
        &&& sh1.board.height == b.height
        &&& sh1.board.toroidal == b.toroidal
        &&& sh1.board.points@ == Seq::new(
            b.points@.len(),
            |i: int| if played.contains(b.coord_of(i)) && b.in_tetromino(b.coord_of(i)) { Color(0) } else { b.points@[i] },
        )
        &&& played1 == tetris::drop_tetrominoes(b, played)
    } else {
        sh1 == sh0 && played1 == played
    }
}

/// The N+1 rule on the points `played` of the game `sh0` gives `sh1`:
/// `extra` tells whether they complete a line of exactly N stones, which
/// are then revealed. Without the rule nothing changes.
pub open spec fn extra_stage(sh0: SharedState, played: Seq<Point>, sh1: SharedState, extra: bool) -> bool {
    let b = sh0.board;
    match sh0.mods.n_plus_one {
        Some(rule) => {
            &&& extra == b.makes_line(played, rule.length as int)
            &&& sh1 == (SharedState { board_visibility: sh1.board_visibility, ..sh0 })
            &&& crate::game::opt_visibility_fits(sh1.board_visibility, b)
            &&& opt_vis_points(sh1.board_visibility) == match opt_vis_points(sh0.board_visibility) {
                Some(ov) => Some(
                    Seq::new(ov.len(), |i: int| if b.on_matched_line(played, rule.length as int, b.coord_of(i)) { Visibility(0) } else { ov[i] }),
                ),
                None => None,
            }
        },
        None => !extra && sh1 == sh0,
    }
}

/// The turn ends on the game `sh0` giving `sh1`: unless `extra`, the turn
/// goes to the next seat that has not resigned, and the position is
/// recorded with `state` as the play state.
pub open spec fn turn_ended(state: PlayModel, sh0: SharedState, extra: bool, sh1: SharedState) -> bool {
    &&& sh1.turn == if extra { sh0.turn } else { next_seat(sh0.seats@, sh0.turn as int) as usize }
    &&& sh1.board_history@.len() == sh0.board_history@.len() + 1
    &&& sh1.board_history@.drop_last() == sh0.board_history@
    &&& sh1.records(sh1.board_history@.last(), state)
    &&& sh1 == (SharedState { turn: sh1.turn, board_history: sh1.board_history, ..sh0 })
}

/// `a + b`, or the largest `usize` if that is larger.
pub open spec fn saturating_sum(a: int, b: int) -> int {
    if a + b <= usize::MAX {
        a + b
    } else {
        usize::MAX as int
    }
}

/// A move of the play state `s0` on the game `sh0`: the stone is placed
/// (`stone_placed`), then, if anything was played, the tetris rule, the
/// captures, suicide, superko, the N+1 rule and the end of the turn follow.
pub open spec fn place_action(
    s0: PlayState,
    sh0: SharedState,
    p: Point,
    color: Color,
    s1: PlayState,
    sh1: SharedState,
    r: Result<ActionChange, MakeActionError>,
) -> bool {
    exists|sa: PlayState, sha: SharedState, ra: Result<Seq<Point>, MakeActionError>|
        #[trigger] stone_placed(s0, sh0, p, color, sa, sha, ra) && placed_then(sa, sha, ra, s1, sh1, r)
}

/// After the stone is placed: an error or an empty move ends the action.
pub open spec fn placed_then(
    sa: PlayState,
    sha: SharedState,
    ra: Result<Seq<Point>, MakeActionError>,
    s1: PlayState,
    sh1: SharedState,
    r: Result<ActionChange, MakeActionError>,
) -> bool {
    match ra {
        Err(e) => r == Err::<ActionChange, MakeActionError>(e) && s1 == sa && sh1 == sha,
        Ok(played) => if played.len() == 0 {
            (r matches Ok(ActionChange::NoChange)) && s1 == sa && sh1 == sha
        } else {
            exists|shb: SharedState, pb: Seq<Point>| #[trigger] tetris_stage(sha, played, shb, pb) && tetris_then(sa, shb, pb, s1, sh1, r)
        },
    }
}

/// After the tetris rule: a move with no point left is illegal.
pub open spec fn tetris_then(sa: PlayState, shb: SharedState, pb: Seq<Point>, s1: PlayState, sh1: SharedState, r: Result<ActionChange, MakeActionError>) -> bool {
    if shb.mods.tetris is Some && pb.len() == 0 {
        r == Err::<ActionChange, MakeActionError>(MakeActionError::Illegal) && s1 == sa && sh1 == shb
    } else {
        exists|shc: SharedState, pc: Seq<Point>, captures: int, revealed: bool|
            #[trigger] capture::capture_stage(shb, pb, shc, pc, captures, revealed) && captured_then(sa, shc, pc, captures, revealed, s1, sh1, r)
    }
}

/// After the captures: a move whose played stones all died is suicide (and
/// is taken back), unless it revealed a hidden stone; a repeated position is
/// ko (taken back); otherwise the N+1 rule applies and the turn ends.
pub open spec fn captured_then(
    sa: PlayState,
    shc: SharedState,
    pc: Seq<Point>,
    captures: int,
    revealed: bool,
    s1: PlayState,
    sh1: SharedState,
    r: Result<ActionChange, MakeActionError>,
) -> bool {
    if pc.len() == 0 {
        &&& restored(shc, sh1)
        &&& s1 == sa
        &&& if revealed {
            r matches Ok(ActionChange::NoChange)
        } else {
            r == Err::<ActionChange, MakeActionError>(MakeActionError::Suicide)
        }
    } else if repeats_position(shc, sa.capture_count as int, captures) {
        restored(shc, sh1) && s1 == sa && r == Err::<ActionChange, MakeActionError>(MakeActionError::Ko)
    } else {
        exists|shd: SharedState, extra: bool|
            #[trigger] extra_stage(shc, pc, shd, extra) && {
                let state = PlayModel {
                    players_passed: Seq::new(sa.players_passed@.len(), |i: int| false),
                    last_stone: Some(pc),
                    capture_count: sa.capture_count,
                };
                &&& turn_ended(state, shd, extra, sh1)
                &&& s1@ == PlayModel { capture_count: saturating_sum(sa.capture_count as int, captures) as usize, ..state }
                &&& r matches Ok(ActionChange::NoChange)
            }
    }
}

impl PlayState {
    /// Plays a stone of `color` at `p` for the active seat: see
    /// `place_action`.
    fn make_action_place(&mut self, shared: &mut SharedState, p: Point, color: Color) -> (r: Result<ActionChange, MakeActionError>)
        requires
            old(shared).wf(),
            old(shared).score_room(),
            old(self).fits(&*old(shared)),
            color.0 <= old(shared).points@.len(),
        ensures
            final(shared).wf(),
            final(self).fits(&*final(shared)),
            place_action(*old(self), *old(shared), p, color, *final(self), *final(shared), r),
    {
        let ghost s0 = *self;
        let ghost sh0 = *shared;
        let res = self.place_stone(shared, p, color);
        let ghost sa = *self;
        let ghost sha = *shared;
        let ghost ra = res_points(res);
        proof {
            assert(stone_placed(s0, sh0, p, color, sa, sha, ra));
        }
        let mut played = match res {
            Ok(v) => v,
            Err(e) => {
                return Err(e);
            },
        };
        if played.len() == 0 {
            return Ok(ActionChange::NoChange);
        }
        let ghost pp = played@;
        match shared.mods.tetris {
            Some(rule) => {
                match tetris::check(&mut played, &mut shared.board, &rule) {
                    tetris::TetrisResult::Illegal => {
                        proof {
                            assert(tetris_stage(sha, pp, *shared, played@));
                        }
                        return Err(MakeActionError::Illegal);
                    },
                    tetris::TetrisResult::Nothing => {},
                }
            },
            None => {},
        }
        let ghost shb = *shared;
        let ghost pb = played@;
        proof {
            assert(tetris_stage(sha, pp, shb, pb));
            tetris::lemma_drop_tetrominoes_within(sha.board, pp);
            assert forall|k: int| 0 <= k < shared.board_history@.len() implies shared.history_fits(#[trigger] shared.board_history@[k]) by {
                assert(sha.history_fits(sha.board_history@[k]));
            }
            assert(shared.score_room());
        }
        let (captures, revealed) = capture::capture(shared, &mut played);
        let ghost shc = *shared;
        proof {
            assert(capture::capture_stage(shb, pb, shc, played@, captures as int, revealed));
        }
        if played.len() == 0 {
            restore_last(shared);
            if revealed {
                return Ok(ActionChange::NoChange);
            }
            return Err(MakeActionError::Suicide);
        }
        match self.superko(shared, captures) {
            Err(e) => {
                return Err(e);
            },
            Ok(()) => {},
        }
        let extra = match shared.mods.n_plus_one {
            Some(rule) => match n_plus_one::check(&played, &shared.board, &mut shared.board_visibility, &rule) {
                n_plus_one::NPlusOneResult::ExtraTurn => true,
                n_plus_one::NPlusOneResult::Nothing => false,
            },
            None => false,
        };
        let ghost shd = *shared;
        proof {
            assert(extra_stage(shc, played@, shd, extra));
        }
        self.last_stone = Some(played);
        let n = self.players_passed.len();
        self.players_passed = crate::game::vecs::repeat(false, n);
        self.next_turn(shared, extra);
        self.capture_count = self.capture_count.saturating_add(captures);
        Ok(ActionChange::NoChange)
    }
}

/// One action of the active seat on the play state `s0` and the game `sh0`.
pub open spec fn play_step(
    s0: PlayState,
    sh0: SharedState,
    action: ActionKind,
    s1: PlayState,
    sh1: SharedState,
    r: Result<ActionChange, MakeActionError>,
) -> bool {
    match action {
        ActionKind::Place(x, y) => place_action(s0, sh0, (x, y), sh0.active_seat().team, s1, sh1, r),
        ActionKind::Pass => pass_action(s0, sh0, s1, sh1, r),
        ActionKind::Cancel => cancel_action(s0, sh0, s1, sh1, r),
        ActionKind::Resign => resign_action(s0, sh0, s1, sh1, r),
    }
}

/// An action of `player_id` on the play state `s0` and the game `sh0`: only
/// the seat whose turn it is may act; a successful action is followed by the
/// Zen go recolouring.
pub open spec fn play_action(
    s0: PlayState,
    sh0: SharedState,
    player_id: u64,
    action: ActionKind,
    s1: PlayState,
    sh1: SharedState,
    r: Result<ActionChange, MakeActionError>,
) -> bool {
    if sh0.active_seat().player != Some(player_id) {
        r == Err::<ActionChange, MakeActionError>(MakeActionError::NotTurn) && s1 == s0 && sh1 == sh0
    } else {
        exists|sa: PlayState, sha: SharedState, ra: Result<ActionChange, MakeActionError>|
            #[trigger] play_step(s0, sh0, action, sa, sha, ra) && s1 == sa && r == ra && if ra is Ok {
                zen_applied(sha, sh1)
            } else {
                sh1 == sha
            }
    }
}

impl PlayState {
    /// An action of `player_id` during play: see `play_action`.
    pub fn make_action(&mut self, shared: &mut SharedState, player_id: u64, action: ActionKind) -> (r: Result<ActionChange, MakeActionError>)
        requires
            old(shared).wf(),
            old(shared).score_room(),
            old(self).fits(&*old(shared)),
        ensures
            final(shared).wf(),
            final(self).fits(&*final(shared)),
            final(shared).seats@.len() == old(shared).seats@.len(),
            !(r matches Ok(ActionChange::PopState)),
            play_action(*old(self), *old(shared), player_id, action, *final(self), *final(shared), r),
    {
        let active_seat = shared.get_active_seat();
        if !active_seat.is_held_by(player_id) {
            return Err(MakeActionError::NotTurn);
        }
        let ghost s0 = *self;
        let ghost sh0 = *shared;
        proof {
            assert(1 <= shared.seats@[shared.turn as int].team.0 <= shared.points@.len());
        }
        let res = match action {
            ActionKind::Place(x, y) => self.make_action_place(shared, (x, y), active_seat.team),
            ActionKind::Pass => self.make_action_pass(shared),
            ActionKind::Cancel => self.make_action_cancel(shared),
            ActionKind::Resign => self.make_action_resign(shared),
        };
        let ghost sa = *self;
        let ghost sha = *shared;
        proof {
            assert(play_step(s0, sh0, action, sa, sha, res));
        }
        match res {
            Ok(change) => {
                self.set_zen_teams(shared);
                Ok(change)
            },
            Err(e) => Err(e),
        }
    }
}

/// Cancelling takes a move back: when the position before a move was the
/// last one recorded, and the move succeeded and was recorded, cancelling
/// brings back that position (board, visibility, scores, turn and play
/// state) and the history as it was.
pub proof fn law_cancel_undoes_move(
    s0: PlayState,
    sh0: SharedState,
    p: Point,
    color: Color,
    s1: PlayState,
    sh1: SharedState,
    r1: Result<ActionChange, MakeActionError>,
    s2: PlayState,
    sh2: SharedState,
    r2: Result<ActionChange, MakeActionError>,
)
    requires
        sh0.wf(),
        sh0.records(sh0.board_history@.last(), s0@),
        place_action(s0, sh0, p, color, s1, sh1, r1),
        sh1.board_history@.len() == sh0.board_history@.len() + 1,
        cancel_action(s1, sh1, s2, sh2, r2),
    ensures
        r2 matches Ok(ActionChange::NoChange),
        sh2.board@ == sh0.board@,
        opt_board_view(sh2.board_visibility) == opt_board_view(sh0.board_visibility),
        sh2.points@ == sh0.points@,
        sh2.turn == sh0.turn,
        s2@ == s0@,
        sh2.board_history@ == sh0.board_history@,
{
    let (sa, sha, ra) = choose|sa: PlayState, sha: SharedState, ra: Result<Seq<Point>, MakeActionError>|
        #[trigger] stone_placed(s0, sh0, p, color, sa, sha, ra) && placed_then(sa, sha, ra, s1, sh1, r1);
    assert(sha.board_history == sh0.board_history);
    let played = ra->Ok_0;
    let (shb, pb) = choose|shb: SharedState, pb: Seq<Point>| #[trigger] tetris_stage(sha, played, shb, pb) && tetris_then(sa, shb, pb, s1, sh1, r1);
    assert(shb.board_history == sh0.board_history);
    let (shc, pc, caps, rev) = choose|shc: SharedState, pc: Seq<Point>, captures: int, revealed: bool|
        #[trigger] capture::capture_stage(shb, pb, shc, pc, captures, revealed) && captured_then(sa, shc, pc, captures, revealed, s1, sh1, r1);
    assert(shc.board_history == sh0.board_history);
    let (shd, extra) = choose|shd: SharedState, extra: bool| #[trigger] extra_stage(shc, pc, shd, extra) && {
        let state = PlayModel {
            players_passed: Seq::new(sa.players_passed@.len(), |i: int| false),
            last_stone: Some(pc),
            capture_count: sa.capture_count,
        };
        &&& turn_ended(state, shd, extra, sh1)
        &&& s1@ == PlayModel { capture_count: saturating_sum(sa.capture_count as int, caps) as usize, ..state }
        &&& r1 matches Ok(ActionChange::NoChange)
    };
    assert(shd.board_history == sh0.board_history);
    let n = sh1.board_history@.len();
    assert(sh1.board_history@[n - 2] == sh0.board_history@.last()) by {
        assert(sh1.board_history@.drop_last() == sh0.board_history@);
        assert(sh1.board_history@.drop_last()[n - 2] == sh1.board_history@[n - 2]);
    }
}

} // verus!
