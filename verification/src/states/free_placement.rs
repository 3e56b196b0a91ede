use vstd::prelude::*;

use crate::game::board::{lemma_index_in_range, BoardModel};
use crate::game::vecs::{copy_vec, repeat};
use crate::game::visibility::{bit, count_bits};
use crate::game::{ActionChange, ActionKind, Board, BoardHistory, Color, MakeActionError, Point, Seat, SharedState, Visibility, VisibilityBoard};
use crate::states::{GameState, GameStateModel, PlayModel};

verus! {

/// Hidden move placement: every visibility group (team or seat) places
/// stones on its own board before play starts.
#[derive(Debug)]
pub struct FreePlacement {
    // One board per visibility group (= team or player)
    pub boards: Vec<Board<Color>>,
    pub stones_placed: Vec<u32>,
    pub players_ready: Vec<bool>,
    pub teams_share_stones: bool,
}

/// What a placement state holds.
pub struct FreePlacementModel {
    pub boards: Seq<BoardModel<Color>>,
    pub stones_placed: Seq<u32>,
    pub players_ready: Seq<bool>,
    pub teams_share_stones: bool,
}

impl View for FreePlacement {
    type V = FreePlacementModel;

    open spec fn view(&self) -> FreePlacementModel {
        FreePlacementModel {
            boards: self.boards@.map_values(|b: Board<Color>| b@),
            stones_placed: self.stones_placed@,
            players_ready: self.players_ready@,
            teams_share_stones: self.teams_share_stones,
        }
    }
}

/// A copy of a list of boards.
pub fn copy_boards(bs: &Vec<Board<Color>>) -> (r: Vec<Board<Color>>)
    ensures
        r@.map_values(|b: Board<Color>| b@) == bs@.map_values(|b: Board<Color>| b@),
{
    let mut r: Vec<Board<Color>> = Vec::new();
    let mut i: usize = 0;
    while i < bs.len()
        invariant
            i <= bs@.len(),
            r@.len() == i,
            forall|k: int| 0 <= k < i ==> (#[trigger] r@[k])@ == bs@[k]@,
        decreases bs@.len() - i,
    {
        r.push(bs[i].copy());
        i = i + 1;
    }
    proof {
        assert(r@.map_values(|b: Board<Color>| b@) =~= bs@.map_values(|b: Board<Color>| b@));
    }
    r
}

impl FreePlacement {
    /// A copy of the state.
    pub fn copy(&self) -> (s: FreePlacement)
        ensures
            s@ == self@,
    {
        FreePlacement {
            boards: copy_boards(&self.boards),
            stones_placed: copy_vec(&self.stones_placed),
            players_ready: copy_vec(&self.players_ready),
            teams_share_stones: self.teams_share_stones,
        }
    }
}

/// The first seat, from `k` on, held by `player_id`.
pub open spec fn seat_from(seats: Seq<Seat>, player_id: u64, k: nat) -> int
    decreases seats.len() - k,
{
    if k >= seats.len() {
        k as int
    } else if seats[k as int].player == Some(player_id) {
        k as int
    } else {
        seat_from(seats, player_id, k + 1)
    }
}

/// The first seat held by `player_id`.
pub open spec fn seat_of(seats: Seq<Seat>, player_id: u64) -> int {
    seat_from(seats, player_id, 0)
}

/// `player_id` holds a seat.
pub open spec fn holds_seat(seats: Seq<Seat>, player_id: u64) -> bool {
    exists|i: int| 0 <= i < seats.len() && (#[trigger] seats[i]).player == Some(player_id)
}

/// The first seat held by a player who holds one is a seat they hold.
proof fn lemma_seat_from(seats: Seq<Seat>, player_id: u64, k: nat)
    requires
        exists|i: int| k <= i < seats.len() && (#[trigger] seats[i]).player == Some(player_id),
    ensures
        k <= seat_from(seats, player_id, k) < seats.len(),
        seats[seat_from(seats, player_id, k)].player == Some(player_id),
        forall|i: int| k <= i < seat_from(seats, player_id, k) ==> (#[trigger] seats[i]).player != Some(player_id),
    decreases seats.len() - k,
{
    if k < seats.len() && seats[k as int].player != Some(player_id) {
        let i = choose|i: int| k <= i < seats.len() && (#[trigger] seats[i]).player == Some(player_id);
        assert(k + 1 <= i);
        lemma_seat_from(seats, player_id, k + 1);
    }
}

/// The first seat held by `player_id`, if any.
pub fn find_seat(seats: &Vec<Seat>, player_id: u64) -> (r: Option<usize>)
    ensures
        r is Some <==> holds_seat(seats@, player_id),
        r matches Some(i) ==> i == seat_of(seats@, player_id) && i < seats@.len(),
{
    let mut i: usize = 0;
    while i < seats.len()
        invariant
            i <= seats@.len(),
            forall|j: int| 0 <= j < i ==> (#[trigger] seats@[j]).player != Some(player_id),
        decreases seats@.len() - i,
    {
        if seats[i].is_held_by(player_id) {
            proof {
                lemma_seat_from(seats@, player_id, 0);
            }
            return Some(i);
        }
        i = i + 1;
    }
    None
}

/// The seat of `player_id` and its team.
fn get_seat(seats: &Vec<Seat>, player_id: u64) -> (r: (usize, Seat))
    requires
        holds_seat(seats@, player_id),
    ensures
        r.0 == seat_of(seats@, player_id),
        r.0 < seats@.len(),
        r.1 == seats@[r.0 as int],
{
    proof {
        lemma_seat_from(seats@, player_id, 0);
    }
    let mut i: usize = 0;
    while i < seats.len()
        invariant
            i <= seats@.len(),
            seat_from(seats@, player_id, 0) >= i,
            seat_from(seats@, player_id, 0) < seats@.len(),
            seats@[seat_from(seats@, player_id, 0)].player == Some(player_id),
            forall|j: int| 0 <= j < seat_from(seats@, player_id, 0) ==> (#[trigger] seats@[j]).player != Some(player_id),
        decreases seats@.len() - i,
    {
        if seats[i].is_held_by(player_id) {
            return (i, seats[i]);
        }
        i = i + 1;
    }
    (0, seats[0])
}

/// The points of a pixel in free placement, for the pixel whose lower right
/// corner is `(x, y)`: up-left, up, left and the point itself.
pub open spec fn placement_pixel(x: int, y: int) -> Seq<(int, int)> {
    seq![(x - 1, y - 1), (x, y - 1), (x - 1, y), (x, y)]
}

/// Placing stones of `team` on the empty points of `cands` that lie on the
/// board: the points of the board after it, and whether any was placed.
pub open spec fn place_points(b: Board<Color>, cands: Seq<(int, int)>, team: Color) -> (Seq<Color>, bool)
    decreases cands.len(),
{
    if cands.len() == 0 {
        (b.points@, false)
    } else {
        let (pts, placed) = place_points(b, cands.drop_last(), team);
        let (x, y) = cands.last();
        if x < 0 || y < 0 || x >= b.width || y >= b.height {
            (pts, placed)
        } else {
            let i = y * b.width + x;
            if pts[i].0 != 0 {
                (pts, placed)
            } else {
                (pts.update(i, team), true)
            }
        }
    }
}

/// What the boards of the visibility groups show at index `i`, taken in
/// order up to `k`: the teams seen there, and the colour the point gets
/// (`base` where no group placed a stone, the team where exactly one team
/// did, empty where several did).
pub open spec fn merged(boards: Seq<BoardModel<Color>>, base: Color, i: int, k: nat) -> (u16, Color)
    decreases k,
{
    if k == 0 {
        (0u16, base)
    } else {
        let (v, a) = merged(boards, base, i, (k - 1) as nat);
        let b = boards[k - 1].points[i];
        if b.0 == 0 {
            (v, a)
        } else {
            let v2 = v | (1u16 << (b.0 as u16));
            if count_bits(v2, 16) == 1 {
                (v2, b)
            } else {
                (v2, Color(0))
            }
        }
    }
}

impl FreePlacement {
    /// The placement state belongs to the game: hidden moves are on, there
    /// is one board per team (shared stones) or per seat, each of the shape
    /// of the game's board and holding only team colours below 16.
    pub open spec fn fits(&self, shared: &SharedState) -> bool {
        &&& shared.mods.hidden_move is Some
        &&& self.boards@.len() == if self.teams_share_stones { shared.points@.len() } else { shared.seats@.len() }
        &&& self.stones_placed@.len() == self.boards@.len()
        &&& self.players_ready@.len() == shared.seats@.len()
        &&& forall|i: int| 0 <= i < shared.board.points@.len() ==> (#[trigger] shared.board.points@[i]).0 < 16
        &&& forall|k: int| 0 <= k < self.boards@.len() ==> {
            &&& (#[trigger] self.boards@[k]).wf()
            &&& self.boards@[k].width == shared.board.width
            &&& self.boards@[k].height == shared.board.height
            &&& self.boards@[k].toroidal == shared.board.toroidal
            &&& forall|i: int| 0 <= i < self.boards@[k].points@.len() ==> (#[trigger] self.boards@[k].points@[i]).0 <= shared.points@.len()
                && self.boards@[k].points@[i].0 < 16
        }
    }

    /// The board (and stone count) that seat `seat` places on.
    pub open spec fn board_index(&self, seats: Seq<Seat>, seat: int) -> int {
        if self.teams_share_stones {
            seats[seat].team.0 - 1
        } else {
            seat
        }
    }

    /// A placement phase for `seat_count` seats and `team_count` teams, every
    /// visibility group starting from `board`.
    pub fn new(seat_count: usize, team_count: usize, board: &Board<Color>, teams_share_stones: bool) -> (s: FreePlacement)
        ensures
            s.boards@.len() == if teams_share_stones { team_count } else { seat_count },
            forall|k: int| 0 <= k < s.boards@.len() ==> (#[trigger] s.boards@[k])@ == board@,
            s.stones_placed@ == Seq::new(s.boards@.len(), |i: int| 0u32),
            s.players_ready@ == Seq::new(seat_count as nat, |i: int| false),
            s.teams_share_stones == teams_share_stones,
    {
        let count = if teams_share_stones {
            team_count
        } else {
            seat_count
        };
        let mut boards: Vec<Board<Color>> = Vec::new();
        let mut i: usize = 0;
        while i < count
            invariant
                i <= count,
                boards@.len() == i,
                forall|k: int| 0 <= k < i ==> (#[trigger] boards@[k])@ == board@,
            decreases count - i,
        {
            boards.push(board.copy());
            i = i + 1;
        }
        FreePlacement { boards, stones_placed: repeat(0u32, count), players_ready: repeat(false, seat_count), teams_share_stones }
    }
}

/// One point of a free placement pixel: a stone of `team` goes on `(x, y)`
/// if it lies on the board and is empty.
fn place_point(
    board: &mut Board<Color>,
    x: i32,
    y: i32,
    team: Color,
    placed: &mut bool,
    Ghost(b0): Ghost<Board<Color>>,
    Ghost(cands): Ghost<Seq<(int, int)>>,
)
    requires
        old(board).wf(),
        old(board).width == b0.width,
        old(board).height == b0.height,
        old(board).toroidal == b0.toroidal,
        cands.len() >= 1,
        cands.last() == (x as int, y as int),
        (old(board).points@, *old(placed)) == place_points(b0, cands.drop_last(), team),
    ensures
        final(board).wf(),
        final(board).width == b0.width,
        final(board).height == b0.height,
        final(board).toroidal == b0.toroidal,
        (final(board).points@, *final(placed)) == place_points(b0, cands, team),
{
    if x < 0 || y < 0 {
        return;
    }
    let q = (x as u32, y as u32);
    if !board.point_within(q) {
        return;
    }
    proof {
        lemma_index_in_range(&*board, q);
    }
    if board.get_point(q).is_empty() {
        board.set_point(q, team);
        *placed = true;
    }
}

/// Placing a stone of `team` at `p` on the board `b`: the points after it,
/// or the error.
pub open spec fn placement(b: Board<Color>, pixel: bool, p: Point, team: Color) -> Result<Seq<Color>, MakeActionError> {
    if !pixel {
        if !b.within(p) {
            Err(MakeActionError::OutOfBounds)
        } else if b.at(p).0 != 0 {
            Err(MakeActionError::PointOccupied)
        } else {
            Ok(b.points@.update(b.index_of(p), team))
        }
    } else {
        if !crate::states::play::pixel_on_board(b.width, b.height, p) {
            Err(MakeActionError::OutOfBounds)
        } else {
            let (pts, placed) = place_points(b, placement_pixel(p.0 as int, p.1 as int), team);
            if placed {
                Ok(pts)
            } else {
                Err(MakeActionError::PointOccupied)
            }
        }
    }
}

/// Placing a stone for the seat of `player_id` during placement, on its
/// group's board, as long as the group has stones left to place.
pub open spec fn placement_action(s0: FreePlacement, sh0: SharedState, player_id: u64, p: Point, s1: FreePlacement, r: Result<ActionChange, MakeActionError>) -> bool {
    {
        let seat = seat_of(sh0.seats@, player_id);
        let k = s0.board_index(sh0.seats@, seat);
        let b = s0.boards@[k];
        if s0.stones_placed@[k] >= sh0.mods.hidden_move.unwrap().placement_count {
            r == Err::<ActionChange, MakeActionError>(MakeActionError::PointOccupied) && s1@ == s0@
        } else {
            match placement(b, sh0.mods.pixel, p, sh0.seats@[seat].team) {
                Err(e) => r == Err::<ActionChange, MakeActionError>(e) && s1@ == s0@,
                Ok(pts) => (r matches Ok(ActionChange::NoChange)) && s1@ == (FreePlacementModel {
                    boards: s0@.boards.update(k, BoardModel { points: pts, ..b@ }),
                    stones_placed: s0@.stones_placed.update(k, (s0.stones_placed@[k] + 1) as u32),
                    ..s0@
                }),
            }
        }
    }
}

impl FreePlacement {
    /// Places a stone for the seat of `player_id` on its group's board, as
    /// long as the group has stones left to place.
    fn make_action_place(&mut self, shared: &SharedState, player_id: u64, p: Point) -> (r: Result<ActionChange, MakeActionError>)
        requires
            shared.wf(),
            old(self).fits(shared),
            holds_seat(shared.seats@, player_id),
        ensures
            final(self).fits(shared),
            placement_action(*old(self), *shared, player_id, p, *final(self), r),
    {
        let (seat_idx, active_seat) = get_seat(&shared.seats, player_id);
        let team = active_seat.team;
        proof {
            assert(1 <= shared.seats@[seat_idx as int].team.0 <= shared.points@.len());
        }
        let k = if self.teams_share_stones {
            (team.0 - 1) as usize
        } else {
            seat_idx
        };
        let limit = match shared.mods.hidden_move {
            Some(h) => h.placement_count,
            None => 0,
        };
        if self.stones_placed[k] >= limit {
            return Err(MakeActionError::PointOccupied);
        }
        let ghost b0 = self.boards@[k as int];
        let mut board = self.boards[k].copy();
        if shared.mods.pixel {
            let (x, y) = p;
            if !(1 <= x && x < board.width && 1 <= y && y < board.height) {
                return Err(MakeActionError::OutOfBounds);
            }
            let xi = x as i32 - 1;
            let yi = y as i32 - 1;
            let ghost cands = placement_pixel(x as int, y as int);
            let mut placed = false;
            proof {
                assert(cands.subrange(0, 1).drop_last() =~= Seq::<(int, int)>::empty());
                assert(board.points@ =~= b0.points@);
            }
            place_point(&mut board, xi, yi, team, &mut placed, Ghost(b0), Ghost(cands.subrange(0, 1)));
            proof {
                assert(cands.subrange(0, 2).drop_last() =~= cands.subrange(0, 1));
            }
            place_point(&mut board, xi + 1, yi, team, &mut placed, Ghost(b0), Ghost(cands.subrange(0, 2)));
            proof {
                assert(cands.subrange(0, 3).drop_last() =~= cands.subrange(0, 2));
            }
            place_point(&mut board, xi, yi + 1, team, &mut placed, Ghost(b0), Ghost(cands.subrange(0, 3)));
            proof {
                assert(cands.subrange(0, 4).drop_last() =~= cands.subrange(0, 3));
            }
            place_point(&mut board, xi + 1, yi + 1, team, &mut placed, Ghost(b0), Ghost(cands.subrange(0, 4)));
            proof {
                assert(cands.subrange(0, 4) =~= cands);
            }
            if !placed {
                return Err(MakeActionError::PointOccupied);
            }
            proof {
                lemma_place_points_colors(b0, cands, team, shared.points@.len() as int);
            }
        } else {
            if !board.point_within(p) {
                return Err(MakeActionError::OutOfBounds);
            }
            if !board.get_point(p).is_empty() {
                return Err(MakeActionError::PointOccupied);
            }
            board.set_point(p, team);
            proof {
                lemma_index_in_range(&board, p);
            }
        }
        self.boards.set(k, board);
        let placed_count = self.stones_placed[k] + 1;
        self.stones_placed.set(k, placed_count);
        proof {
            assert(self.boards@.map_values(|b: Board<Color>| b@) =~= old(self)@.boards.update(k as int, BoardModel { points: self.boards@[k as int].points@, ..b0@ }));
            assert forall|kk: int| 0 <= kk < self.boards@.len() implies {
                &&& (#[trigger] self.boards@[kk]).wf()
                &&& self.boards@[kk].width == shared.board.width
                &&& self.boards@[kk].height == shared.board.height
                &&& self.boards@[kk].toroidal == shared.board.toroidal
                &&& forall|i: int| 0 <= i < self.boards@[kk].points@.len() ==> (#[trigger] self.boards@[kk].points@[i]).0 <= shared.points@.len()
                    && self.boards@[kk].points@[i].0 < 16
            } by {
                if kk != k {
                    assert(self.boards@[kk] == old(self).boards@[kk]);
                }
            }
        }
        Ok(ActionChange::NoChange)
    }
}

/// A pixel only places `team`: colours stay within `m` and below 16.
proof fn lemma_place_points_colors(b: Board<Color>, cands: Seq<(int, int)>, team: Color, m: int)
    requires
        b.wf(),
        team.0 <= m,
        team.0 < 16,
        forall|i: int| 0 <= i < b.points@.len() ==> (#[trigger] b.points@[i]).0 <= m && b.points@[i].0 < 16,
    ensures
        place_points(b, cands, team).0.len() == b.points@.len(),
        forall|i: int| 0 <= i < place_points(b, cands, team).0.len() ==> (#[trigger] place_points(b, cands, team).0[i]).0 <= m
            && place_points(b, cands, team).0[i].0 < 16,
    decreases cands.len(),
{
    if cands.len() > 0 {
        lemma_place_points_colors(b, cands.drop_last(), team, m);
        let (x, y) = cands.last();
        if !(x < 0 || y < 0 || x >= b.width || y >= b.height) {
            lemma_index_in_range(&b, (x as u32, y as u32));
        }
    }
}

/// The board and visibility that the placements of all groups make: see
/// `merged`.
pub open spec fn merged_board(boards: Seq<BoardModel<Color>>, base: Seq<Color>) -> Seq<Color> {
    Seq::new(base.len(), |i: int| merged(boards, base[i], i, boards.len()).1)
}

/// The visibility of the merged placements: each point is seen by the
/// teams that placed a stone there.
pub open spec fn merged_visibility(boards: Seq<BoardModel<Color>>, base: Seq<Color>) -> Seq<Visibility> {
    Seq::new(base.len(), |i: int| Visibility(merged(boards, base[i], i, boards.len()).0))
}

/// Merging only puts the groups' colours or nothing on a point.
proof fn lemma_merged_colors(boards: Seq<BoardModel<Color>>, base: Color, i: int, k: nat, m: int)
    requires
        k <= boards.len(),
        base.0 <= m,
        forall|kk: int| 0 <= kk < k ==> (#[trigger] boards[kk].points[i]).0 <= m,
    ensures
        merged(boards, base, i, k).1.0 <= m,
    decreases k,
{
    if k > 0 {
        lemma_merged_colors(boards, base, i, (k - 1) as nat, m);
    }
}

impl FreePlacement {
    /// Merges the groups' placements onto `board`: see `merged`.
    fn build_board(&self, board: Board<Color>, Ghost(m): Ghost<int>) -> (r: (Board<Color>, VisibilityBoard))
        requires
            board.wf(),
            forall|i: int| 0 <= i < board.points@.len() ==> (#[trigger] board.points@[i]).0 <= m,
            forall|k: int| 0 <= k < self.boards@.len() ==> {
                &&& (#[trigger] self.boards@[k]).points@.len() == board.points@.len()
                &&& forall|i: int| 0 <= i < board.points@.len() ==> (#[trigger] self.boards@[k].points@[i]).0 <= m
                    && self.boards@[k].points@[i].0 < 16
            },
        ensures
            r.0.wf(),
            r.0.width == board.width,
            r.0.height == board.height,
            r.0.toroidal == board.toroidal,
            r.0.points@ == merged_board(self@.boards, board.points@),
            forall|i: int| 0 <= i < r.0.points@.len() ==> (#[trigger] r.0.points@[i]).0 <= m,
            r.1.wf(),
            r.1.width == board.width,
            r.1.height == board.height,
            r.1.toroidal == board.toroidal,
            r.1.points@ == merged_visibility(self@.boards, board.points@),
    {
        let ghost base = board.points@;
        let ghost bs = self@.boards;
        let ghost b_in = board;
        let mut board = board;
        let mut visibility = Board::<Visibility>::empty(board.width, board.height, board.toroidal);
        let n = board.points.len();
        let mut k: usize = 0;
        while k < self.boards.len()
            invariant
                bs == self@.boards,
                n == base.len(),
                board.wf(),
                board.width == b_in.width,
                board.height == b_in.height,
                board.toroidal == b_in.toroidal,
                board.points@.len() == n,
                visibility.wf(),
                visibility.width == board.width,
                visibility.height == board.height,
                visibility.toroidal == board.toroidal,
                k <= bs.len(),
                forall|kk: int| 0 <= kk < self.boards@.len() ==> {
                    &&& (#[trigger] self.boards@[kk]).points@.len() == n
                    &&& forall|i: int| 0 <= i < n ==> (#[trigger] self.boards@[kk].points@[i]).0 < 16
                },
                forall|i: int| 0 <= i < n ==> (#[trigger] visibility.points@[i]).0 == merged(bs, base[i], i, k as nat).0 && board.points@[i]
                    == merged(bs, base[i], i, k as nat).1,
            decreases bs.len() - k,
        {
            let view_board = &self.boards[k];
            let mut i: usize = 0;
            while i < n
                invariant
                    bs == self@.boards,
                    n == base.len(),
                    board.wf(),
                    board.width == b_in.width,
                    board.height == b_in.height,
                    board.toroidal == b_in.toroidal,
                    board.points@.len() == n,
                    visibility.wf(),
                    visibility.width == board.width,
                    visibility.height == board.height,
                    visibility.toroidal == board.toroidal,
                    k < bs.len(),
                    *view_board == self.boards@[k as int],
                    view_board.points@.len() == n,
                    forall|i2: int| 0 <= i2 < n ==> (#[trigger] view_board.points@[i2]).0 < 16,
                    i <= n,
                    forall|i2: int| 0 <= i2 < n ==> (#[trigger] visibility.points@[i2]).0 == merged(bs, base[i2], i2, if i2 < i { (k + 1) as nat } else { k as nat }).0
                        && board.points@[i2] == merged(bs, base[i2], i2, if i2 < i { (k + 1) as nat } else { k as nat }).1,
                decreases n - i,
            {
                let b = view_board.points[i];
                let ghost prev = merged(bs, base[i as int], i as int, k as nat);
                let ghost vis_before = visibility.points@;
                let ghost board_before = board.points@;
                proof {
                    assert(bs[k as int].points[i as int] == b);
                    assert(visibility.points@[i as int].0 == prev.0);
                    assert(board.points@[i as int] == prev.1);
                }
                if !b.is_empty() {
                    let v = Visibility(visibility.points[i].0 | (1u16 << (b.0 as u16)));
                    visibility.points.set(i, v);
                    if v.len() == 1 {
                        board.points.set(i, b);
                    } else {
                        board.points.set(i, Color::empty());
                    }
                }
                proof {
                    assert(visibility.points@[i as int].0 == merged(bs, base[i as int], i as int, (k + 1) as nat).0);
                    assert(board.points@[i as int] == merged(bs, base[i as int], i as int, (k + 1) as nat).1);
                    assert forall|i2: int| 0 <= i2 < n && i2 != i implies visibility.points@[i2] == vis_before[i2] && board.points@[i2] == board_before[i2] by {
                    }
                }
                i = i + 1;
            }
            proof {
                assert forall|i2: int| 0 <= i2 < n implies (#[trigger] visibility.points@[i2]).0 == merged(bs, base[i2], i2, (k + 1) as nat).0
                    && board.points@[i2] == merged(bs, base[i2], i2, (k + 1) as nat).1 by {
                    assert(i2 < i);
                }
            }
            k = k + 1;
        }
        proof {
            assert(k == bs.len());
            assert forall|i: int| 0 <= i < n implies #[trigger] board.points@[i] == merged_board(bs, base)[i] by {
                assert(visibility.points@[i].0 == merged(bs, base[i], i, bs.len()).0);
                assert(board.points@[i] == merged(bs, base[i], i, bs.len()).1);
            }
            assert(board.points@ =~= merged_board(bs, base));
            assert forall|i: int| 0 <= i < n implies #[trigger] visibility.points@[i] == merged_visibility(bs, base)[i] by {
                assert(visibility.points@[i].0 == merged(bs, base[i], i, bs.len()).0);
            }
            assert(visibility.points@ =~= merged_visibility(bs, base));
            assert forall|i: int| 0 <= i < n implies (#[trigger] board.points@[i]).0 <= m by {
                assert forall|kk: int| 0 <= kk < bs.len() implies (#[trigger] bs[kk].points[i]).0 <= m by {
                    assert(self.boards@[kk].points@[i].0 <= m);
                }
                lemma_merged_colors(bs, base[i], i, bs.len(), m);
            }
        }
        (board, visibility)
    }
}

/// The play state every game starts with for `seat_count` seats.
pub open spec fn fresh_play(seat_count: nat) -> PlayModel {
    PlayModel { players_passed: Seq::new(seat_count, |i: int| false), last_stone: None, capture_count: 0 }
}

/// The seat of `player_id` becomes ready during placement; once every seat
/// is, the placements are merged and play starts.
pub open spec fn ready_action(s0: FreePlacement, sh0: SharedState, player_id: u64, s1: FreePlacement, sh1: SharedState, r: Result<ActionChange, MakeActionError>) -> bool {
    {
        let ready = s0.players_ready@.update(seat_of(sh0.seats@, player_id), true);
        let all = forall|i: int| 0 <= i < ready.len() ==> #[trigger] ready[i];
        &&& s1@ == (FreePlacementModel { players_ready: ready, ..s0@ })
        &&& !all ==> (r matches Ok(ActionChange::NoChange)) && sh1 == sh0
        &&& all ==> {
            &&& sh1.board.points@ == merged_board(s0@.boards, sh0.board.points@)
            &&& sh1.board.width == sh0.board.width
            &&& sh1.board.height == sh0.board.height
            &&& sh1.board.toroidal == sh0.board.toroidal
            &&& crate::states::play::opt_vis_points(sh1.board_visibility) == Some(
                merged_visibility(s0@.boards, sh0.board.points@),
            )
            &&& sh1.board_history@.len() == 1
            &&& sh1.records(sh1.board_history@[0], fresh_play(sh0.seats@.len()))
            &&& sh1 == (SharedState {
                board: sh1.board,
                board_visibility: sh1.board_visibility,
                board_history: sh1.board_history,
                ..sh0
            })
            &&& (r matches Ok(ActionChange::SwapState(GameState::Play(ps))) && ps@ == fresh_play(sh0.seats@.len()))
        }
    }
}

/// The seat of `player_id` takes its placements back during placement: its
/// group's board is the game's board again, with no stone placed, and it is
/// not ready.
pub open spec fn unplace_action(s0: FreePlacement, sh0: SharedState, player_id: u64, s1: FreePlacement, r: Result<ActionChange, MakeActionError>) -> bool {
    let seat = seat_of(sh0.seats@, player_id);
    let k = s0.board_index(sh0.seats@, seat);
    &&& r matches Ok(ActionChange::NoChange)
    &&& s1@ == (FreePlacementModel {
        boards: s0@.boards.update(k, sh0.board@),
        stones_placed: s0@.stones_placed.update(k, 0),
        players_ready: s0@.players_ready.update(seat, false),
        ..s0@
    })
}

/// An action of `player_id` during placement: Place places a stone, Pass
/// marks the seat ready, Cancel takes its placements back; resigning is not
/// an action of this phase.
pub open spec fn placement_step(
    s0: FreePlacement,
    sh0: SharedState,
    player_id: u64,
    action: ActionKind,
    s1: FreePlacement,
    sh1: SharedState,
    r: Result<ActionChange, MakeActionError>,
) -> bool {
    match action {
        ActionKind::Place(x, y) => sh1 == sh0 && placement_action(s0, sh0, player_id, (x, y), s1, r),
        ActionKind::Pass => ready_action(s0, sh0, player_id, s1, sh1, r),
        ActionKind::Cancel => sh1 == sh0 && unplace_action(s0, sh0, player_id, s1, r),
        ActionKind::Resign => sh1 == sh0 && s1 == s0 && r == Err::<ActionChange, MakeActionError>(MakeActionError::Illegal),
    }
}

impl FreePlacement {
    /// The seat of `player_id` is ready. Once every seat is ready, the
    /// placements are merged onto the board (see `merged`), each point
    /// visible to the teams that placed there, and play starts from that
    /// position.
    fn make_action_pass(&mut self, shared: &mut SharedState, player_id: u64) -> (r: Result<ActionChange, MakeActionError>)
        requires
            old(shared).wf(),
            old(self).fits(&*old(shared)),
            holds_seat(old(shared).seats@, player_id),
        ensures
            final(shared).wf(),
            final(self).fits(&*final(shared)),
            ready_action(*old(self), *old(shared), player_id, *final(self), *final(shared), r),
    {
        let (seat_idx, _seat) = get_seat(&shared.seats, player_id);
        self.players_ready.set(seat_idx, true);
        let mut all = true;
        let mut i: usize = 0;
        while i < self.players_ready.len()
            invariant
                i <= self.players_ready@.len(),
                all == forall|j: int| 0 <= j < i ==> #[trigger] self.players_ready@[j],
            decreases self.players_ready@.len() - i,
        {
            if !self.players_ready[i] {
                all = false;
            }
            i = i + 1;
        }
        proof {
            assert(self.players_ready@ =~= old(self).players_ready@.update(seat_of(old(shared).seats@, player_id), true));
            assert(self@.boards == old(self)@.boards);
        }
        if !all {
            return Ok(ActionChange::NoChange);
        }
        let (board, visibility) = self.build_board(shared.board.copy(), Ghost(shared.points@.len() as int));
        shared.board = board;
        shared.board_visibility = Some(visibility);
        let seat_count = shared.seats.len();
        let h = BoardHistory {
            hash: shared.board.hash(),
            board: shared.board.copy(),
            board_visibility: crate::game::copy_visibility(&shared.board_visibility),
            state: GameState::play(seat_count),
            points: copy_vec(&shared.points),
            turn: shared.turn,
        };
        shared.board_history = vec![h];
        proof {
            assert(shared.board_history@.len() == 1);
            assert forall|k: int| 0 <= k < shared.board_history@.len() implies shared.history_fits(#[trigger] shared.board_history@[k]) by {
                assert(k == 0);
            }
            let bs = old(self)@.boards;
            let base = old(shared).board.points@;
            assert forall|i2: int| 0 <= i2 < shared.board.points@.len() implies (#[trigger] shared.board.points@[i2]).0 < 16 by {
                assert forall|kk: int| 0 <= kk < bs.len() implies (#[trigger] bs[kk].points[i2]).0 <= 15 by {
                    assert(old(self).boards@[kk].points@[i2].0 < 16);
                }
                lemma_merged_colors(bs, base[i2], i2, bs.len(), 15);
            }
        }
        Ok(ActionChange::SwapState(GameState::play(seat_count)))
    }

    /// The seat of `player_id` takes its placements back: its group's board
    /// is the game's board again, with no stone placed, and it is not ready.
    fn make_action_cancel(&mut self, shared: &SharedState, player_id: u64) -> (r: Result<ActionChange, MakeActionError>)
        requires
            shared.wf(),
            old(self).fits(shared),
            holds_seat(shared.seats@, player_id),
        ensures
            final(self).fits(shared),
            unplace_action(*old(self), *shared, player_id, *final(self), r),
    {
        let (seat_idx, active_seat) = get_seat(&shared.seats, player_id);
        let team = active_seat.team;
        proof {
            assert(1 <= shared.seats@[seat_idx as int].team.0 <= shared.points@.len());
        }
        let k = if self.teams_share_stones {
            (team.0 - 1) as usize
        } else {
            seat_idx
        };
        self.players_ready.set(seat_idx, false);
        self.boards.set(k, shared.board.copy());
        self.stones_placed.set(k, 0);
        proof {
            assert(self.boards@.map_values(|b: Board<Color>| b@) =~= old(self)@.boards.update(k as int, shared.board@));
            assert forall|kk: int| 0 <= kk < self.boards@.len() implies {
                &&& (#[trigger] self.boards@[kk]).wf()
                &&& self.boards@[kk].width == shared.board.width
                &&& self.boards@[kk].height == shared.board.height
                &&& self.boards@[kk].toroidal == shared.board.toroidal
                &&& forall|i: int| 0 <= i < self.boards@[kk].points@.len() ==> (#[trigger] self.boards@[kk].points@[i]).0 <= shared.points@.len()
                    && self.boards@[kk].points@[i].0 < 16
            } by {
                if kk != k {
                    assert(self.boards@[kk] == old(self).boards@[kk]);
                }
            }
        }
        Ok(ActionChange::NoChange)
    }

    /// An action of `player_id` during placement: see `placement_step`.
    pub fn make_action(&mut self, shared: &mut SharedState, player_id: u64, action: ActionKind) -> (r: Result<ActionChange, MakeActionError>)
        requires
            old(shared).wf(),
            old(self).fits(&*old(shared)),
            holds_seat(old(shared).seats@, player_id),
        ensures
            final(shared).wf(),
            final(self).fits(&*final(shared)),
            final(shared).seats == old(shared).seats,
            !(r matches Ok(ActionChange::PopState)),
            placement_step(*old(self), *old(shared), player_id, action, *final(self), *final(shared), r),
    {
        match action {
            ActionKind::Place(x, y) => self.make_action_place(shared, player_id, (x, y)),
            ActionKind::Pass => self.make_action_pass(shared, player_id),
            ActionKind::Cancel => self.make_action_cancel(shared, player_id),
            ActionKind::Resign => Err(MakeActionError::Illegal),
        }
    }
}

} // verus!
