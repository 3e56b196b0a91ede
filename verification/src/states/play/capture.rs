use vstd::prelude::*;

use crate::game::board::{lemma_coord_in_range, lemma_index_in_range, lemma_index_injective, lemma_neighbors};
use crate::game::count::{count_true, lemma_count_true_all_false, lemma_count_true_bound, lemma_count_true_set};
use crate::game::groups::{group_index, lemma_chains_same_points, lemma_group_of_point, lemma_same_points_same_liberties};
use crate::game::{find_groups, opt_visibility_fits, Board, Color, GameModifier, Group, Point, SharedState, VisibilityBoard};
use crate::states::play::{any_hidden, cleared, in_area, reveal_group, reveals};

verus! {

impl Board<Color> {
    /// The stone at `p` belongs to a chain without liberties.
    pub open spec fn dead(&self, p: Point) -> bool {
        &&& self.occupied(p)
        &&& exists|pts: Seq<Point>| #[trigger] self.is_chain(pts, self.at(p)) && pts.contains(p) && self.liberty_count(pts) == 0
    }

    /// The stone at `p` is of another team than `team` and has no liberties.
    pub open spec fn dead_opponent(&self, team: Color, p: Point) -> bool {
        self.at(p) != team && self.dead(p)
    }

    /// The board after removing every stone of another team than `team`
    /// whose chain has no liberties.
    pub open spec fn without_dead_opponents(&self, team: Color) -> Seq<Color> {
        Seq::new(self.points@.len(), |i: int| if self.dead_opponent(team, self.coord_of(i)) { Color(0) } else { self.points@[i] })
    }

    /// `q` is a dead stone of another team than `team`, or next to one.
    pub open spec fn near_dead_opponent(&self, team: Color, q: Point) -> bool {
        exists|p: Point| self.within(p) && #[trigger] self.dead_opponent(team, p) && (q == p || self.adjacent(p, q))
    }

    /// `p` is a single dead stone of another team than `team` with four
    /// neighbours, all of `team`, and no diagonal neighbour of `team`: its
    /// capture forms a ponnuki.
    pub open spec fn ponnuki_at(&self, team: Color, p: Point) -> bool {
        &&& self.dead_opponent(team, p)
        &&& self.chain_len_is(p, 1)
        &&& self.neighbors(p).len() == 4
        &&& forall|k: int| 0 <= k < 4 ==> self.at(#[trigger] self.neighbors(p)[k]) == team
        &&& forall|k: int| 0 <= k < self.diagonal_neighbors(p).len() ==> self.at(#[trigger] self.diagonal_neighbors(p)[k]) != team
    }

    /// Per index: the stone there is a dead stone of another team.
    pub open spec fn dead_opponent_mask(&self, team: Color) -> Seq<bool> {
        Seq::new(self.points@.len(), |i: int| self.dead_opponent(team, self.coord_of(i)))
    }

    /// Every neighbour of `pts` holds a stone that stays once the dead stones
    /// of teams other than `team` are removed.
    pub open spec fn no_liberty_after(&self, team: Color, pts: Seq<Point>) -> bool {
        forall|j: int, q: Point|
            0 <= j < pts.len() && #[trigger] self.adjacent(pts[j], q) && self.within(q) ==> self.at(q).0 != 0 && !self.dead_opponent(team, q)
    }

    /// `p` is a stone of `team` whose chain has no liberty once the dead
    /// stones of the other teams are removed.
    pub open spec fn dead_own(&self, team: Color, p: Point) -> bool {
        &&& self.occupied(p)
        &&& self.at(p) == team
        &&& exists|pts: Seq<Point>| #[trigger] self.is_chain(pts, team) && pts.contains(p) && self.no_liberty_after(team, pts)
    }

    /// The chain of `team` holding `p` holds one of the points of `played`.
    pub open spec fn chain_touches(&self, team: Color, p: Point, played: Seq<Point>) -> bool {
        exists|pts: Seq<Point>|
            #[trigger] self.is_chain(pts, team) && pts.contains(p) && exists|m: int| 0 <= m < played.len() && pts.contains(played[m])
    }

    /// `q` is a stone of `team` that dies with its chain, or next to one.
    pub open spec fn near_dead_own(&self, team: Color, q: Point) -> bool {
        exists|p: Point| self.within(p) && #[trigger] self.dead_own(team, p) && (q == p || self.adjacent(p, q))
    }

    /// Per index: the stone there is of `team` and dies with its chain.
    pub open spec fn dead_own_mask(&self, team: Color) -> Seq<bool> {
        Seq::new(self.points@.len(), |i: int| self.dead_own(team, self.coord_of(i)))
    }

    /// Per index: the stone there is of `team`, dies with its chain, and that
    /// chain holds none of `played`: it is captured.
    pub open spec fn own_kill_mask(&self, team: Color, played: Seq<Point>) -> Seq<bool> {
        Seq::new(self.points@.len(), |i: int| self.dead_own(team, self.coord_of(i)) && !self.chain_touches(team, self.coord_of(i), played))
    }

    /// The board after a move by `team` that played the points `played`:
    /// dead stones of the other teams are removed; a chain of `team` left
    /// without liberty loses its stones at `played` if it holds any of them,
    /// and is removed whole otherwise.
    pub open spec fn captured(&self, team: Color, played: Seq<Point>) -> Seq<Color> {
        Seq::new(
            self.points@.len(),
            |i: int|
                {
                    let q = self.coord_of(i);
                    if self.dead_opponent(team, q) || (self.dead_own(team, q) && (played.contains(q) || !self.chain_touches(team, q, played))) {
                        Color(0)
                    } else {
                        self.points@[i]
                    }
                },
        )
    }

    /// `q` is next to or at a stone that a move of `team` removes or leaves
    /// without liberty: the area that such a move reveals.
    pub open spec fn capture_area(&self, team: Color, q: Point) -> bool {
        self.near_dead_opponent(team, q) || self.near_dead_own(team, q)
    }

    /// Number of stones a move of `team` that played `played` captures.
    pub open spec fn capture_count(&self, team: Color, played: Seq<Point>) -> nat {
        count_true(self.dead_opponent_mask(team)) + count_true(self.own_kill_mask(team, played))
    }

    /// Per index: the stone there forms a ponnuki when captured.
    pub open spec fn ponnuki_mask(&self, team: Color) -> Seq<bool> {
        Seq::new(self.points@.len(), |i: int| self.ponnuki_at(team, self.coord_of(i)))
    }
}

/// The single stone of `g` forms a ponnuki for `team` on `b`.
spec fn forms_ponnuki(b: Board<Color>, g: Group, team: Color) -> bool {
    let p = g.points@[0];
    &&& g.points@.len() == 1
    &&& b.neighbors(p).len() == 4
    &&& forall|k: int| 0 <= k < 4 ==> b.at(#[trigger] b.neighbors(p)[k]) == team
    &&& forall|k: int| 0 <= k < b.diagonal_neighbors(p).len() ==> b.at(#[trigger] b.diagonal_neighbors(p)[k]) != team
}

fn is_ponnuki(b: &Board<Color>, g: &Group, team: Color) -> (r: bool)
    requires
        b.wf(),
        g.points@.len() >= 1,
        b.within(g.points@[0]),
    ensures
        r == forms_ponnuki(*b, *g, team),
{
    if g.points.len() != 1 {
        return false;
    }
    let p = g.points[0];
    let nbrs = b.surrounding_points(p);
    proof {
        lemma_neighbors(b, p);
    }
    if nbrs.len() != 4 {
        return false;
    }
    let mut k: usize = 0;
    while k < 4
        invariant
            b.wf(),
            g.points@.len() == 1,
            p == g.points@[0],
            nbrs@ == b.neighbors(p),
            nbrs@.len() == 4,
            forall|q: Point| #[trigger] b.neighbors(p).contains(q) ==> b.within(q),
            k <= 4,
            forall|kk: int| 0 <= kk < k ==> b.at(#[trigger] b.neighbors(p)[kk]) == team,
        decreases 4 - k,
    {
        proof {
            assert(b.neighbors(p).contains(nbrs@[k as int]));
        }
        if b.get_point(nbrs[k]) != team {
            return false;
        }
        k = k + 1;
    }
    let diag = b.surrounding_diagonal_points(p);
    proof {
        lemma_diagonal_within(b, p);
    }
    let mut k: usize = 0;
    while k < diag.len()
        invariant
            b.wf(),
            g.points@.len() == 1,
            p == g.points@[0],
            b.neighbors(p).len() == 4,
            forall|kk: int| 0 <= kk < 4 ==> b.at(#[trigger] b.neighbors(p)[kk]) == team,
            diag@ == b.diagonal_neighbors(p),
            forall|q: Point| #[trigger] b.diagonal_neighbors(p).contains(q) ==> b.within(q),
            k <= diag@.len(),
            forall|kk: int| 0 <= kk < k ==> b.at(#[trigger] b.diagonal_neighbors(p)[kk]) != team,
        decreases diag@.len() - k,
    {
        proof {
            assert(b.diagonal_neighbors(p).contains(diag@[k as int]));
        }
        if b.get_point(diag[k]) == team {
            return false;
        }
        k = k + 1;
    }
    true
}

/// The diagonal neighbours of a point on the board are on the board.
proof fn lemma_diagonal_within(b: &Board<Color>, p: Point)
    requires
        b.wf(),
        b.within(p),
    ensures
        forall|q: Point| #[trigger] b.diagonal_neighbors(p).contains(q) ==> b.within(q),
{
    assert forall|q: Point| #[trigger] b.diagonal_neighbors(p).contains(q) implies b.within(q) by {
        let s = b.diagonal_neighbors(p);
        let k = choose|k: int| 0 <= k < s.len() && s[k] == q;
        let a = crate::game::board::opt_seq(b.wrap(p.0 - 1, p.1 - 1));
        let c = crate::game::board::opt_seq(b.wrap(p.0 + 1, p.1 - 1));
        let d = crate::game::board::opt_seq(b.wrap(p.0 + 1, p.1 + 1));
        let e = crate::game::board::opt_seq(b.wrap(p.0 - 1, p.1 + 1));
        assert(s == a + c + d + e);
        let w = b.width as int;
        let h = b.height as int;
        assert(w > 0 && h > 0);
        let x = p.0 as int;
        let y = p.1 as int;
        assert(crate::game::board::spec_wrap_coord(x - 1, w) == if x - 1 < 0 { x - 1 + w } else { x - 1 });
        if k < a.len() {
            assert(a[k] == q);
        } else if k < a.len() + c.len() {
            assert(c[k - a.len()] == q);
        } else if k < a.len() + c.len() + d.len() {
            assert(d[k - a.len() - c.len()] == q);
        } else {
            assert(e[k - a.len() - c.len() - d.len()] == q);
        }
    }
}

/// Facts about the group holding a stone: its team is the stone's colour,
/// it is dead exactly when the stone's chain has no liberty, and it has one
/// point exactly when the stone's chain has one.
proof fn lemma_group_dead(b: &Board<Color>, gs: Seq<Group>, k: int, q: Point)
    requires
        b.wf(),
        b.chains_of(gs),
        0 <= k < gs.len(),
        gs[k].points@.contains(q),
    ensures
        gs[k].team == b.at(q),
        b.occupied(q),
        b.dead(q) <==> gs[k].liberties == 0,
        b.chain_len_is(q, 1) <==> gs[k].points@.len() == 1,
{
    assert(b.is_chain_group(gs[k]));
    let pts = gs[k].points@;
    let j = choose|j: int| 0 <= j < pts.len() && pts[j] == q;
    assert(b.within(pts[j]) && b.at(pts[j]) == gs[k].team);
    if gs[k].liberties == 0 {
        assert(b.is_chain(pts, b.at(q)) && pts.contains(q) && b.liberty_count(pts) == 0);
    }
    if b.dead(q) {
        let p2 = choose|p2: Seq<Point>| #[trigger] b.is_chain(p2, b.at(q)) && p2.contains(q) && b.liberty_count(p2) == 0;
        lemma_group_of_point(b, gs, k, p2, q);
    }
    if gs[k].points@.len() == 1 {
        assert(b.is_chain(pts, b.at(q)) && pts.contains(q) && pts.len() == 1);
    }
    if b.chain_len_is(q, 1) {
        let p2 = choose|p2: Seq<Point>| #[trigger] b.is_chain(p2, b.at(q)) && p2.contains(q) && p2.len() == 1;
        lemma_group_of_point(b, gs, k, p2, q);
    }
}

/// Reveals `q` and its neighbours; returns whether any of them held a hidden
/// stone.
fn reveal_around(visibility: &mut Option<VisibilityBoard>, q: Point, board: &Board<Color>) -> (r: bool)
    requires
        board.wf(),
        board.within(q),
        opt_visibility_fits(*old(visibility), *board),
    ensures
        opt_visibility_fits(*final(visibility), *board),
        reveals(*old(visibility), *final(visibility), *board, |c: Point| c == q || board.adjacent(q, c), r),
{
    let g = Group { points: vec![q], liberties: 0, team: Color(0), alive: false };
    let ghost ov = *visibility;
    let r = reveal_group(visibility, &g, board);
    let ghost nv_all = *visibility;
    proof {
        let f1 = |c: Point| in_area(*board, g.points@, c);
        let f2 = |c: Point| c == q || board.adjacent(q, c);
        assert forall|c: Point| #[trigger] f1(c) == f2(c) by {
            if in_area(*board, g.points@, c) && !g.points@.contains(c) {
                let j = choose|j: int| 0 <= j < g.points@.len() && #[trigger] board.adjacent(g.points@[j], c);
                assert(j == 0);
            }
            if c == q {
                assert(g.points@[0] == c);
            }
            if board.adjacent(q, c) {
                assert(board.adjacent(g.points@[0], c));
            }
        }
        match (ov, nv_all) {
            (Some(o), Some(nv)) => {
                assert(cleared(o.points@, *board, f1) =~= cleared(o.points@, *board, f2));
                if any_hidden(o.points@, *board, f1) {
                    let i = choose|i: int| 0 <= i < o.points@.len() && f1(board.coord_of(i)) && #[trigger] o.points@[i].0 != 0;
                    assert(f2(board.coord_of(i)));
                }
                if any_hidden(o.points@, *board, f2) {
                    let i = choose|i: int| 0 <= i < o.points@.len() && f2(board.coord_of(i)) && #[trigger] o.points@[i].0 != 0;
                    assert(f1(board.coord_of(i)));
                }
            },
            _ => {},
        }
    }
    r
}

/// The first `i` entries of `s` and the next one counted together.
proof fn lemma_count_prefix_step(s: Seq<bool>, i: int)
    requires
        0 <= i < s.len(),
    ensures
        count_true(s.subrange(0, i + 1)) == count_true(s.subrange(0, i)) + if s[i] { 1nat } else { 0nat },
        count_true(s.subrange(0, i + 1)) <= i + 1,
{
    assert(s.subrange(0, i + 1).drop_last() =~= s.subrange(0, i));
    lemma_count_true_bound(s.subrange(0, i + 1));
}

/// Boards of one shape agree on coordinates and adjacency.
proof fn lemma_same_shape(b1: &Board<Color>, b2: &Board<Color>)
    requires
        b1.width == b2.width,
        b1.height == b2.height,
        b1.toroidal == b2.toroidal,
    ensures
        forall|p: Point| #[trigger] b1.neighbors(p) == b2.neighbors(p),
        forall|p: Point, q: Point| #[trigger] b1.adjacent(p, q) == b2.adjacent(p, q),
        forall|i: int| #[trigger] b1.coord_of(i) == b2.coord_of(i),
        forall|p: Point| #[trigger] b1.index_of(p) == b2.index_of(p),
{
    assert forall|p: Point, q: Point| #[trigger] b1.adjacent(p, q) == b2.adjacent(p, q) by {
        assert(b1.neighbors(p) == b2.neighbors(p));
    }
}

/// A `true` entry makes the count positive.
proof fn lemma_count_true_pos(s: Seq<bool>, i: int)
    requires
        0 <= i < s.len(),
        s[i],
    ensures
        count_true(s) > 0,
{
    let t = s.update(i, false);
    lemma_count_true_set(t, i);
    assert(t.update(i, true) =~= s);
}

/// Points connected on one board are connected on a board of the same shape.
proof fn lemma_connected_transfer(ba: &Board<Color>, bb: &Board<Color>, pts: Seq<Point>)
    requires
        ba.connected_in_order(pts),
        bb.width == ba.width,
        bb.height == ba.height,
        bb.toroidal == ba.toroidal,
    ensures
        bb.connected_in_order(pts),
{
    assert forall|k: int| #![trigger pts[k]] 0 < k < pts.len() implies exists|j: int| 0 <= j < k && bb.adjacent(pts[j], pts[k]) by {
        let pk = pts[k];
        let j = choose|j: int| 0 <= j < k && ba.adjacent(pts[j], pts[k]);
        assert(ba.neighbors(pts[j]) == bb.neighbors(pts[j]));
        assert(bb.adjacent(pts[j], pts[k]));
        assert(0 <= j < k);
    }
    if pts.len() > 0 {
        // a point of `pts` as a ground term, from which the unfolded
        // definition reaches its other points
        let first = pts[0];
    }
}

/// A chain of `team` on one board is a chain on another board of the same
/// shape whose points hold `team` at the same places.
proof fn lemma_chain_transfer(ba: &Board<Color>, bb: &Board<Color>, team: Color, pts: Seq<Point>)
    requires
        ba.wf(),
        bb.width == ba.width,
        bb.height == ba.height,
        bb.toroidal == ba.toroidal,
        forall|p: Point| ba.within(p) ==> (#[trigger] bb.at(p) == team <==> ba.at(p) == team),
        ba.is_chain(pts, team),
    ensures
        bb.is_chain(pts, team),
{
    lemma_same_shape(ba, bb);
    assert forall|j: int| 0 <= j < pts.len() implies bb.within(#[trigger] pts[j]) && bb.at(pts[j]) == team by {
        assert(ba.within(pts[j]) && ba.at(pts[j]) == team);
    }
    lemma_connected_transfer(ba, bb, pts);
    assert forall|j: int, q: Point|
        0 <= j < pts.len() && #[trigger] bb.adjacent(pts[j], q) && bb.within(q) && bb.at(q) == team implies pts.contains(q) by {
        assert(ba.adjacent(pts[j], q));
        assert(ba.closed(pts, team));
    }
    assert(pts.len() >= 1);
    assert(Board::<Color>::distinct(pts));
    assert(bb.connected_in_order(pts));
    assert(bb.closed(pts, team));
}

/// Removing the dead stones of the other teams leaves the chains of `team`
/// as they were, and such a chain then has no liberty exactly when every
/// neighbour of it holds a stone that stays.
proof fn lemma_chain_after(b0: &Board<Color>, b1: &Board<Color>, team: Color, pts: Seq<Point>)
    requires
        b0.wf(),
        b1.wf(),
        b1.width == b0.width,
        b1.height == b0.height,
        b1.toroidal == b0.toroidal,
        b1.points@ == b0.without_dead_opponents(team),
        team.0 != 0,
    ensures
        b1.is_chain(pts, team) <==> b0.is_chain(pts, team),
        b1.is_chain(pts, team) ==> (b1.liberty_count(pts) == 0 <==> b0.no_liberty_after(team, pts)),
{
    assert forall|p: Point| b0.within(p) implies (#[trigger] b1.at(p) == team <==> b0.at(p) == team) by {
        lemma_index_in_range(b0, p);
    }
    assert forall|p: Point| b1.within(p) implies (#[trigger] b0.at(p) == team <==> b1.at(p) == team) by {
        lemma_index_in_range(b0, p);
    }
    if b1.is_chain(pts, team) {
        lemma_chain_transfer(b1, b0, team, pts);
    }
    if b0.is_chain(pts, team) {
        lemma_chain_transfer(b0, b1, team, pts);
        lemma_same_shape(b0, b1);
        let mask = b1.liberty_mask(pts);
        if b1.liberty_count(pts) == 0 {
            assert forall|j: int, q: Point|
                0 <= j < pts.len() && #[trigger] b0.adjacent(pts[j], q) && b0.within(q) implies b0.at(q).0 != 0 && !b0.dead_opponent(team, q) by {
                lemma_index_in_range(b0, q);
                assert(b1.adjacent(pts[j], q));
                if b0.at(q).0 == 0 || b0.dead_opponent(team, q) {
                    assert(b1.is_liberty(pts, q));
                    assert(mask[b0.index_of(q)]);
                    lemma_count_true_pos(mask, b0.index_of(q));
                }
            }
        }
        if b0.no_liberty_after(team, pts) {
            assert forall|i: int| 0 <= i < mask.len() implies !mask[i] by {
                lemma_coord_in_range(b0, i);
                let q = b0.coord_of(i);
                if b1.is_liberty(pts, q) {
                    let j = choose|j: int| 0 <= j < pts.len() && b1.adjacent(pts[j], q);
                    assert(b0.adjacent(pts[j], q));
                }
            }
            lemma_count_true_all_false(mask);
        }
    }
}

/// Whether `a` holds one of the points of `b`.
fn shares_point(a: &Vec<Point>, b: &Vec<Point>) -> (r: bool)
    ensures
        r == exists|m: int| 0 <= m < b@.len() && a@.contains(#[trigger] b@[m]),
{
    let mut m: usize = 0;
    while m < b.len()
        invariant
            m <= b@.len(),
            forall|m2: int| 0 <= m2 < m ==> !a@.contains(#[trigger] b@[m2]),
        decreases b@.len() - m,
    {
        if crate::game::groups::contains_point(a, b[m]) {
            return true;
        }
        m = m + 1;
    }
    false
}


/// `c` is, or is next to, a point of index below `i` marked in `mask`.
spec fn marked_near_below(b: Board<Color>, mask: Seq<bool>, i: int, c: Point) -> bool {
    exists|i2: int| 0 <= i2 < i && #[trigger] mask[i2] && (c == b.coord_of(i2) || b.adjacent(b.coord_of(i2), c))
}

/// `v` is `ov` with the points next to the marked points of index below `i`
/// revealed, and `revealed` tells whether any of them was hidden.
spec fn revealed_below(ov: Option<VisibilityBoard>, v: Option<VisibilityBoard>, b: Board<Color>, mask: Seq<bool>, i: int, revealed: bool) -> bool {
    match (ov, v) {
        (Some(o), Some(nv)) => {
            &&& nv.points@.len() == o.points@.len()
            &&& forall|i2: int| 0 <= i2 < o.points@.len() ==> #[trigger] nv.points@[i2] == if marked_near_below(b, mask, i, b.coord_of(i2)) {
                crate::game::Visibility(0)
            } else {
                o.points@[i2]
            }
            &&& revealed == exists|i2: int| 0 <= i2 < o.points@.len() && marked_near_below(b, mask, i, b.coord_of(i2)) && #[trigger] o.points@[i2].0 != 0
        },
        (None, None) => !revealed,
        _ => false,
    }
}

/// One more index: revealing around the point of index `i` when it is
/// marked keeps `revealed_below`.
proof fn lemma_revealed_step(
    ov: Option<VisibilityBoard>,
    vs: Option<VisibilityBoard>,
    v: Option<VisibilityBoard>,
    b: Board<Color>,
    mask: Seq<bool>,
    i: int,
    r_start: bool,
    r: bool,
    revealed: bool,
)
    requires
        b.wf(),
        0 <= i < b.points@.len(),
        i < mask.len(),
        opt_visibility_fits(ov, b),
        revealed_below(ov, vs, b, mask, i, r_start),
        mask[i] ==> reveals(vs, v, b, |c: Point| c == b.coord_of(i) || b.adjacent(b.coord_of(i), c), r) && revealed == (r_start || r),
        !mask[i] ==> v == vs && revealed == r_start,
    ensures
        revealed_below(ov, v, b, mask, i + 1, revealed),
{
    match (ov, v) {
        (Some(o), Some(nv)) => {
            let n = o.points@.len();
            let q = b.coord_of(i);
            let vsb = vs.unwrap();
            assert forall|i2: int| 0 <= i2 < n implies #[trigger] nv.points@[i2] == if marked_near_below(b, mask, i + 1, b.coord_of(i2)) {
                crate::game::Visibility(0)
            } else {
                o.points@[i2]
            } by {
                let c = b.coord_of(i2);
                if marked_near_below(b, mask, i + 1, c) && !marked_near_below(b, mask, i, c) {
                    let i3 = choose|i3: int| 0 <= i3 < i + 1 && #[trigger] mask[i3] && (c == b.coord_of(i3) || b.adjacent(b.coord_of(i3), c));
                    assert(i3 == i);
                }
                if mask[i] && (c == q || b.adjacent(q, c)) {
                    assert(marked_near_below(b, mask, i + 1, c));
                }
            }
            let now = exists|i2: int| 0 <= i2 < n && marked_near_below(b, mask, i + 1, b.coord_of(i2)) && #[trigger] o.points@[i2].0 != 0;
            if now {
                let i2 = choose|i2: int| 0 <= i2 < n && marked_near_below(b, mask, i + 1, b.coord_of(i2)) && #[trigger] o.points@[i2].0 != 0;
                let c = b.coord_of(i2);
                if !marked_near_below(b, mask, i, c) {
                    let i3 = choose|i3: int| 0 <= i3 < i + 1 && #[trigger] mask[i3] && (c == b.coord_of(i3) || b.adjacent(b.coord_of(i3), c));
                    assert(i3 == i);
                    assert(vsb.points@[i2] == o.points@[i2]);
                }
            }
            if revealed && !r_start {
                let i2 = choose|i2: int| 0 <= i2 < vsb.points@.len() && (b.coord_of(i2) == q || b.adjacent(q, b.coord_of(i2))) && #[trigger] vsb.points@[i2].0 != 0;
                assert(marked_near_below(b, mask, i + 1, b.coord_of(i2)));
            }
            if r_start {
                let i2 = choose|i2: int| 0 <= i2 < n && marked_near_below(b, mask, i, b.coord_of(i2)) && #[trigger] o.points@[i2].0 != 0;
                assert(marked_near_below(b, mask, i + 1, b.coord_of(i2)));
            }
        },
        _ => {},
    }
}

/// Once every index is done, the revealed area is that of `f` when `f`
/// holds exactly next to the marked points.
proof fn lemma_revealed_end(ov: Option<VisibilityBoard>, v: Option<VisibilityBoard>, b: Board<Color>, mask: Seq<bool>, f: spec_fn(Point) -> bool, revealed: bool)
    requires
        b.wf(),
        mask.len() == b.points@.len(),
        opt_visibility_fits(ov, b),
        revealed_below(ov, v, b, mask, b.points@.len() as int, revealed),
        forall|c: Point| #[trigger] f(c) <==> marked_near_below(b, mask, b.points@.len() as int, c),
    ensures
        reveals(ov, v, b, f, revealed),
{
    match (ov, v) {
        (Some(o), Some(nv)) => {
            let n = b.points@.len() as int;
            assert(nv.points@ =~= cleared(o.points@, b, f));
            if revealed {
                let i2 = choose|i2: int| 0 <= i2 < o.points@.len() && marked_near_below(b, mask, n, b.coord_of(i2)) && #[trigger] o.points@[i2].0 != 0;
                assert(f(b.coord_of(i2)));
            }
            if any_hidden(o.points@, b, f) {
                let i2 = choose|i2: int| 0 <= i2 < o.points@.len() && f(b.coord_of(i2)) && #[trigger] o.points@[i2].0 != 0;
                assert(marked_near_below(b, mask, n, b.coord_of(i2)));
            }
        },
        _ => {},
    }
}

/// Finds the dead stones of teams other than `team` on `board`, reveals them
/// and their neighbours, and counts those that form a ponnuki. Returns the
/// mask of dead stones by index, the ponnuki count, and whether any revealed
/// point was hidden.
fn find_dead_opponents(board: &Board<Color>, visibility: &mut Option<VisibilityBoard>, team: Color) -> (r: (Vec<bool>, usize, bool))
    requires
        board.wf(),
        opt_visibility_fits(*old(visibility), *board),
    ensures
        r.0@ == board.dead_opponent_mask(team),
        r.1 == count_true(board.ponnuki_mask(team)),
        opt_visibility_fits(*final(visibility), *board),
        reveals(*old(visibility), *final(visibility), *board, |c: Point| board.near_dead_opponent(team, c), r.2),
{
    let ghost ov = *visibility;
    let ghost mask = board.dead_opponent_mask(team);
    let n = board.points.len();
    let groups = find_groups(board);
    let gid = group_index(board, &groups);
    let mut dead: Vec<bool> = Vec::new();
    let mut ponnukis: usize = 0;
    let mut revealed = false;
    let mut i: usize = 0;
    while i < n
        invariant
            board.wf(),
            n == board.points@.len(),
            mask == board.dead_opponent_mask(team),
            board.groups_of(groups@),
            gid@.len() == n,
            forall|i2: int| 0 <= i2 < n ==> (#[trigger] gid@[i2] < groups@.len() <==> board.occupied(board.coord_of(i2))),
            forall|i2: int| 0 <= i2 < n && #[trigger] gid@[i2] < groups@.len() ==> groups@[gid@[i2] as int].points@.contains(board.coord_of(i2)),
            i <= n,
            dead@ == mask.subrange(0, i as int),
            ponnukis == count_true(board.ponnuki_mask(team).subrange(0, i as int)),
            ponnukis <= i,
            opt_visibility_fits(ov, *board),
            opt_visibility_fits(*visibility, *board),
            revealed_below(ov, *visibility, *board, mask, i as int, revealed),
        decreases n - i,
    {
        proof {
            lemma_coord_in_range(board, i as int);
            lemma_count_prefix_step(board.ponnuki_mask(team), i as int);
        }
        let q = board.idx_to_coord(i).unwrap();
        let k = gid[i];
        let mut is_dead = false;
        let ghost v_start = *visibility;
        let ghost r_start = revealed;
        let mut r = false;
        if k < groups.len() {
            let g = &groups[k];
            proof {
                lemma_group_dead(board, groups@, k as int, q);
            }
            if g.liberties == 0 && g.team != team {
                is_dead = true;
                proof {
                    assert(board.is_chain_group(groups@[k as int]));
                    assert(board.within(g.points@[0]));
                    let m = choose|m: int| 0 <= m < g.points@.len() && g.points@[m] == q;
                    if g.points@.len() == 1 {
                        assert(g.points@[0] == q);
                    }
                }
                if is_ponnuki(board, g, team) {
                    ponnukis = ponnukis + 1;
                }
                r = reveal_around(visibility, q, board);
                revealed = revealed || r;
            }
        }
        proof {
            assert(is_dead == board.dead_opponent(team, q));
            assert(mask[i as int] == is_dead);
            assert(board.ponnuki_mask(team)[i as int] == board.ponnuki_at(team, q));
            lemma_revealed_step(ov, v_start, *visibility, *board, mask, i as int, r_start, r, revealed);
        }
        dead.push(is_dead);
        proof {
            assert(dead@ =~= mask.subrange(0, i + 1));
        }
        i = i + 1;
    }
    proof {
        assert(mask.subrange(0, n as int) =~= mask);
        assert(board.ponnuki_mask(team).subrange(0, n as int) =~= board.ponnuki_mask(team));
        assert forall|c: Point| #[trigger] board.near_dead_opponent(team, c) <==> marked_near_below(*board, mask, n as int, c) by {
            if marked_near_below(*board, mask, n as int, c) {
                let i3 = choose|i3: int| 0 <= i3 < n && #[trigger] mask[i3] && (c == board.coord_of(i3) || board.adjacent(board.coord_of(i3), c));
                lemma_coord_in_range(board, i3);
                assert(board.dead_opponent(team, board.coord_of(i3)));
            }
            if board.near_dead_opponent(team, c) {
                let p = choose|p: Point| board.within(p) && #[trigger] board.dead_opponent(team, p) && (c == p || board.adjacent(p, c));
                lemma_index_in_range(board, p);
                assert(mask[board.index_of(p)]);
            }
        }
        lemma_revealed_end(ov, *visibility, *board, mask, |c: Point| board.near_dead_opponent(team, c), revealed);
    }
    (dead, ponnukis, revealed)
}

/// On `board`, the board `b0` without the dead stones of the teams other than
/// `team`: finds the stones of `team` whose chain has no liberty, reveals
/// them and their neighbours, and tells which of them belong to a chain that
/// holds none of `played`. Returns the two masks by index and whether any
/// revealed point was hidden.
#[verifier::rlimit(80)]
#[verifier::spinoff_prover]
fn find_dead_own(
    board: &Board<Color>,
    visibility: &mut Option<VisibilityBoard>,
    team: Color,
    played: &Vec<Point>,
    Ghost(b0): Ghost<Board<Color>>,
) -> (r: (Vec<bool>, Vec<bool>, bool))
    requires
        b0.wf(),
        board.wf(),
        board.width == b0.width,
        board.height == b0.height,
        board.toroidal == b0.toroidal,
        board.points@ == b0.without_dead_opponents(team),
        team.0 != 0,
        opt_visibility_fits(*old(visibility), *board),
    ensures
        r.0@ == b0.dead_own_mask(team),
        r.1@ == b0.own_kill_mask(team, played@),
        opt_visibility_fits(*final(visibility), *board),
        reveals(*old(visibility), *final(visibility), *board, |c: Point| b0.near_dead_own(team, c), r.2),
{
    let ghost ov = *visibility;
    let ghost mask = b0.dead_own_mask(team);
    let n = board.points.len();
    let groups = find_groups(board);
    let gid = group_index(board, &groups);
    let mut own: Vec<bool> = Vec::new();
    let mut kill: Vec<bool> = Vec::new();
    let mut revealed = false;
    proof {
        lemma_same_shape(&b0, board);
    }
    let mut i: usize = 0;
    while i < n
        invariant
            b0.wf(),
            board.wf(),
            board.width == b0.width,
            board.height == b0.height,
            board.toroidal == b0.toroidal,
            board.points@ == b0.without_dead_opponents(team),
            team.0 != 0,
            mask == b0.dead_own_mask(team),
            forall|i2: int| #[trigger] b0.coord_of(i2) == board.coord_of(i2),
            n == board.points@.len(),
            board.groups_of(groups@),
            gid@.len() == n,
            forall|i2: int| 0 <= i2 < n ==> (#[trigger] gid@[i2] < groups@.len() <==> board.occupied(board.coord_of(i2))),
            forall|i2: int| 0 <= i2 < n && #[trigger] gid@[i2] < groups@.len() ==> groups@[gid@[i2] as int].points@.contains(board.coord_of(i2)),
            i <= n,
            own@ == mask.subrange(0, i as int),
            kill@ == b0.own_kill_mask(team, played@).subrange(0, i as int),
            opt_visibility_fits(ov, *board),
            opt_visibility_fits(*visibility, *board),
            revealed_below(ov, *visibility, *board, mask, i as int, revealed),
        decreases n - i,
    {
        proof {
            lemma_coord_in_range(board, i as int);
        }
        let q = board.idx_to_coord(i).unwrap();
        let k = gid[i];
        let mut is_own = false;
        let mut is_kill = false;
        let ghost v_start = *visibility;
        let ghost r_start = revealed;
        let mut r = false;
        proof {
            lemma_index_in_range(&b0, q);
        }
        if k < groups.len() {
            let g = &groups[k];
            proof {
                lemma_group_dead(board, groups@, k as int, q);
                assert(board.is_chain_group(groups@[k as int]));
                lemma_chain_after(&b0, board, team, g.points@);
            }
            if g.liberties == 0 && g.team == team {
                is_own = true;
                is_kill = !shares_point(&g.points, played);
                proof {
                    assert(b0.is_chain(g.points@, team) && g.points@.contains(q) && b0.no_liberty_after(team, g.points@));
                    assert(b0.dead_own(team, q));
                    if b0.chain_touches(team, q, played@) {
                        let pts = choose|pts: Seq<Point>|
                            #[trigger] b0.is_chain(pts, team) && pts.contains(q) && exists|m: int| 0 <= m < played@.len() && pts.contains(played@[m]);
                        let m = choose|m: int| 0 <= m < played@.len() && pts.contains(played@[m]);
                        lemma_chains_same_points(&b0, pts, g.points@, team, q);
                        assert(g.points@.contains(played@[m]));
                    }
                    if !is_kill {
                        let m = choose|m: int| 0 <= m < played@.len() && g.points@.contains(#[trigger] played@[m]);
                        assert(b0.is_chain(g.points@, team) && g.points@.contains(q) && g.points@.contains(played@[m]));
                    }
                }
                r = reveal_around(visibility, q, board);
                revealed = revealed || r;
            }
            proof {
                if b0.dead_own(team, q) {
                    let pts = choose|pts: Seq<Point>| #[trigger] b0.is_chain(pts, team) && pts.contains(q) && b0.no_liberty_after(team, pts);
                    lemma_chain_after(&b0, board, team, pts);
                    lemma_group_of_point(board, groups@, k as int, pts, q);
                }
            }
        }
        proof {
            assert(is_own == b0.dead_own(team, q));
            assert(is_kill == (b0.dead_own(team, q) && !b0.chain_touches(team, q, played@)));
            assert(mask[i as int] == is_own);
            lemma_revealed_step(ov, v_start, *visibility, *board, mask, i as int, r_start, r, revealed);
        }
        own.push(is_own);
        kill.push(is_kill);
        proof {
            assert(own@ =~= mask.subrange(0, i + 1));
            assert(kill@ =~= b0.own_kill_mask(team, played@).subrange(0, i + 1));
        }
        i = i + 1;
    }
    proof {
        assert(mask.subrange(0, n as int) =~= mask);
        assert(b0.own_kill_mask(team, played@).subrange(0, n as int) =~= b0.own_kill_mask(team, played@));
        lemma_same_shape(&b0, board);
        assert forall|c: Point| #[trigger] b0.near_dead_own(team, c) <==> marked_near_below(*board, mask, n as int, c) by {
            if marked_near_below(*board, mask, n as int, c) {
                let i3 = choose|i3: int| 0 <= i3 < n && #[trigger] mask[i3] && (c == board.coord_of(i3) || board.adjacent(board.coord_of(i3), c));
                lemma_coord_in_range(&b0, i3);
                assert(b0.dead_own(team, b0.coord_of(i3)));
                assert(b0.adjacent(b0.coord_of(i3), c) == board.adjacent(board.coord_of(i3), c));
            }
            if b0.near_dead_own(team, c) {
                let p = choose|p: Point| b0.within(p) && #[trigger] b0.dead_own(team, p) && (c == p || b0.adjacent(p, c));
                lemma_index_in_range(&b0, p);
                assert(mask[b0.index_of(p)]);
                assert(b0.adjacent(p, c) == board.adjacent(p, c));
            }
        }
        lemma_revealed_end(ov, *visibility, *board, mask, |c: Point| b0.near_dead_own(team, c), revealed);
    }
    (own, kill, revealed)
}

/// The score of a team after a move that captured `captures` stones, of
/// which `ponnukis` formed a ponnuki.
pub open spec fn score_after_capture(score: int, mods: GameModifier, ponnukis: nat, captures: nat) -> int {
    score + (match mods.ponnuki_is_points {
        Some(v) => v * ponnukis,
        None => 0,
    }) + (if mods.captures_give_points is Some {
        2 * captures
    } else {
        0
    })
}

/// Two reveals in a row reveal the union of their areas.
proof fn lemma_reveals_compose(
    v0: Option<VisibilityBoard>,
    v1: Option<VisibilityBoard>,
    v2: Option<VisibilityBoard>,
    b: Board<Color>,
    b1: Board<Color>,
    f1: spec_fn(Point) -> bool,
    f2: spec_fn(Point) -> bool,
    f: spec_fn(Point) -> bool,
    r1: bool,
    r2: bool,
)
    requires
        b1.width == b.width,
        reveals(v0, v1, b, f1, r1),
        reveals(v1, v2, b1, f2, r2),
        forall|c: Point| #[trigger] f(c) == (f1(c) || f2(c)),
    ensures
        reveals(v0, v2, b, f, r1 || r2),
{
    match (v0, v2) {
        (Some(o), Some(nv)) => {
            let m = v1.unwrap();
            assert(nv.points@ =~= cleared(o.points@, b, f));
            if r1 || r2 {
                if r1 {
                    let i = choose|i: int| 0 <= i < o.points@.len() && f1(b.coord_of(i)) && #[trigger] o.points@[i].0 != 0;
                    assert(f(b.coord_of(i)));
                } else {
                    let i = choose|i: int| 0 <= i < m.points@.len() && f2(b1.coord_of(i)) && #[trigger] m.points@[i].0 != 0;
                    assert(f(b.coord_of(i)));
                }
            }
            if any_hidden(o.points@, b, f) {
                let i = choose|i: int| 0 <= i < o.points@.len() && f(b.coord_of(i)) && #[trigger] o.points@[i].0 != 0;
                if !f1(b.coord_of(i)) {
                    assert(m.points@[i] == o.points@[i]);
                    assert(f2(b1.coord_of(i)));
                }
            }
        },
        _ => {},
    }
}

/// Resolving the captures of a move takes the game `sh0`, where the active
/// team played `played`, to `sh1`, with the played points `played1` that
/// survive, `captures` stones captured and `revealed` telling whether a
/// hidden stone was revealed.
pub open spec fn capture_stage(sh0: SharedState, played: Seq<Point>, sh1: SharedState, played1: Seq<Point>, captures: int, revealed: bool) -> bool {
    let b0 = sh0.board;
    let team = sh0.active_seat().team;
    &&& sh1.board.width == b0.width
    &&& sh1.board.height == b0.height
    &&& sh1.board.toroidal == b0.toroidal
    &&& sh1.board.points@ == b0.captured(team, played)
    &&& played1 == played.filter(|q: Point| !b0.dead_own(team, q))
    &&& captures == b0.capture_count(team, played)
    &&& reveals(sh0.board_visibility, sh1.board_visibility, b0, |c: Point| b0.capture_area(team, c), revealed)
    &&& sh1.points@ == sh0.points@.update(
        team.0 - 1,
        score_after_capture(sh0.points@[team.0 - 1] as int, sh0.mods, count_true(b0.ponnuki_mask(team)), b0.capture_count(team, played)) as i32,
    )
    &&& sh1 == (SharedState { board: sh1.board, board_visibility: sh1.board_visibility, points: sh1.points, ..sh0 })
}

/// Empties the points marked in `mask`.
fn clear_marked(board: &mut Board<Color>, mask: &Vec<bool>)
    requires
        old(board).wf(),
        mask@.len() == old(board).points@.len(),
    ensures
        final(board).wf(),
        final(board).width == old(board).width,
        final(board).height == old(board).height,
        final(board).toroidal == old(board).toroidal,
        final(board).points@ == Seq::new(old(board).points@.len(), |i: int| if mask@[i] { Color(0) } else { old(board).points@[i] }),
{
    let ghost ob = board.points@;
    let ghost b_old = *board;
    let n = board.points.len();
    let mut i: usize = 0;
    while i < n
        invariant
            board.width == b_old.width,
            board.height == b_old.height,
            board.toroidal == b_old.toroidal,
            b_old.wf(),
            i <= n,
            n == ob.len(),
            mask@.len() == n,
            board.points@.len() == n,
            forall|i2: int| 0 <= i2 < n ==> #[trigger] board.points@[i2] == if i2 < i && mask@[i2] { Color(0) } else { ob[i2] },
        decreases n - i,
    {
        if mask[i] {
            board.points.set(i, Color(0));
        }
        i = i + 1;
    }
    proof {
        assert(board.points@ =~= Seq::new(ob.len(), |i: int| if mask@[i] { Color(0) } else { ob[i] }));
    }
}

/// Number of marked entries of `mask`.
fn count_marked(mask: &Vec<bool>) -> (c: usize)
    ensures
        c == count_true(mask@),
{
    let mut c: usize = 0;
    let mut i: usize = 0;
    while i < mask.len()
        invariant
            i <= mask@.len(),
            c == count_true(mask@.subrange(0, i as int)),
            c <= i,
        decreases mask@.len() - i,
    {
        proof {
            lemma_count_prefix_step(mask@, i as int);
        }
        if mask[i] {
            c = c + 1;
        }
        i = i + 1;
    }
    proof {
        assert(mask@.subrange(0, mask@.len() as int) =~= mask@);
    }
    c
}

/// Resolves the captures of a move by the active team that played
/// `points_played`: dead stones of the other teams are removed, then chains
/// of the active team left without liberty lose their played stones, or are
/// removed whole if they hold none. The played points that died leave
/// `points_played`. The stones removed and their neighbours are revealed.
/// Captures and ponnukis score as the modifiers say. Returns the number of
/// stones captured and whether any revealed point held a hidden stone.
pub(crate) fn capture(shared: &mut SharedState, points_played: &mut Vec<Point>) -> (r: (usize, bool))
    requires
        old(shared).wf(),
        old(shared).score_room(),
        forall|j: int| 0 <= j < old(points_played)@.len() ==> old(shared).board.within(#[trigger] old(points_played)@[j]),
    ensures
        ({
            let b0 = old(shared).board;
            let team = old(shared).active_seat().team;
            let played = old(points_played)@;
            &&& final(shared).board.width == b0.width
            &&& final(shared).board.height == b0.height
            &&& final(shared).board.toroidal == b0.toroidal
            &&& final(shared).board.points@ == b0.captured(team, played)
            &&& final(points_played)@ == played.filter(|q: Point| !b0.dead_own(team, q))
            &&& r.0 == b0.capture_count(team, played)
            &&& reveals(old(shared).board_visibility, final(shared).board_visibility, b0, |c: Point| b0.capture_area(team, c), r.1)
            &&& final(shared).points@ == old(shared).points@.update(
                team.0 - 1,
                score_after_capture(
                    old(shared).points@[team.0 - 1] as int,
                    old(shared).mods,
                    count_true(b0.ponnuki_mask(team)),
                    b0.capture_count(team, played),
                ) as i32,
            )
        }),
        final(shared).wf(),
        final(shared).seats == old(shared).seats,
        final(shared).turn == old(shared).turn,
        final(shared).pass_count == old(shared).pass_count,
        final(shared).board_history == old(shared).board_history,
        final(shared).komis == old(shared).komis,
        final(shared).mods == old(shared).mods,
        final(shared).clock == old(shared).clock,
        final(shared).setup_teams == old(shared).setup_teams,
        capture_stage(*old(shared), old(points_played)@, *final(shared), final(points_played)@, r.0 as int, r.1),
        forall|j: int| 0 <= j < final(points_played)@.len() ==> old(shared).board.within(#[trigger] final(points_played)@[j]),
{
    let team = shared.get_active_seat().team;
    let ghost b0 = shared.board;
    let ghost v0 = shared.board_visibility;
    let ghost played = points_played@;
    proof {
        assert(1 <= shared.seats@[shared.turn as int].team.0);
    }
    let (dead, ponnukis, r1) = find_dead_opponents(&shared.board, &mut shared.board_visibility, team);
    let ghost v1 = shared.board_visibility;
    let captured1 = count_marked(&dead);
    clear_marked(&mut shared.board, &dead);
    proof {
        assert(shared.board.points@ =~= b0.without_dead_opponents(team));
    }
    let ghost b1 = shared.board;
    let (own, kill, r2) = find_dead_own(&shared.board, &mut shared.board_visibility, team, points_played, Ghost(b0));
    let captured2 = count_marked(&kill);
    proof {
        crate::game::count::lemma_count_true_bound(b0.dead_opponent_mask(team));
        crate::game::count::lemma_count_true_bound(b0.own_kill_mask(team, played));
    }
    let n = shared.board.points.len();
    let mut remove: Vec<bool> = Vec::new();
    let mut i: usize = 0;
    while i < n
        invariant
            b0.wf(),
            shared.board.wf(),
            shared.board.width == b0.width,
            shared.board.height == b0.height,
            n == b0.points@.len(),
            i <= n,
            own@ == b0.dead_own_mask(team),
            kill@ == b0.own_kill_mask(team, played),
            played == points_played@,
            remove@.len() == i,
            forall|i2: int| 0 <= i2 < i ==> #[trigger] remove@[i2] == (b0.dead_own(team, b0.coord_of(i2)) && (played.contains(b0.coord_of(i2)) || !b0.chain_touches(team, b0.coord_of(i2), played))),
        decreases n - i,
    {
        proof {
            lemma_coord_in_range(&b0, i as int);
        }
        let q = shared.board.idx_to_coord(i).unwrap();
        let rm = kill[i] || (own[i] && crate::game::groups::contains_point(points_played, q));
        remove.push(rm);
        proof {
            assert(q == b0.coord_of(i as int));
            assert(kill@[i as int] == b0.own_kill_mask(team, played)[i as int]);
            assert(own@[i as int] == b0.dead_own_mask(team)[i as int]);
        }
        i = i + 1;
    }
    clear_marked(&mut shared.board, &remove);
    proof {
        assert(shared.board.points@ =~= b0.captured(team, played));
    }
    let mut kept: Vec<Point> = Vec::new();
    let mut m: usize = 0;
    while m < points_played.len()
        invariant
            b0.wf(),
            n == b0.points@.len(),
            own@ == b0.dead_own_mask(team),
            shared.board.width == b0.width,
            played == points_played@,
            forall|j: int| 0 <= j < played.len() ==> b0.within(#[trigger] played[j]),
            m <= played.len(),
            kept@ == played.subrange(0, m as int).filter(|q: Point| !b0.dead_own(team, q)),
        decreases played.len() - m,
    {
        let q = points_played[m];
        proof {
            assert(b0.within(played[m as int]));
            lemma_index_in_range(&b0, q);
        }
        let idx = (q.1 * shared.board.width + q.0) as usize;
        proof {
            reveal(Seq::filter);
            assert(played.subrange(0, m + 1).drop_last() =~= played.subrange(0, m as int));
            assert(played.subrange(0, m + 1).last() == q);
        }
        if !own[idx] {
            kept.push(q);
        }
        m = m + 1;
    }
    proof {
        assert(played.subrange(0, played.len() as int) =~= played);
        lemma_filter_within(b0, played, |q: Point| !b0.dead_own(team, q));
    }
    *points_played = kept;
    let captures = captured1 + captured2;
    let t = (team.0 - 1) as usize;
    proof {
        crate::game::count::lemma_count_true_bound(b0.ponnuki_mask(team));
        crate::game::count::lemma_count_true_bound(b0.dead_opponent_mask(team));
        crate::game::count::lemma_count_true_bound(b0.own_kill_mask(team, played));
    }
    let mut score: i64 = shared.points[t] as i64;
    match shared.mods.ponnuki_is_points {
        Some(v) => {
            proof {
                let pn = ponnukis as int;
                let nn = n as int;
                assert(-0x8000_0000 * nn <= v * pn <= 0x7fff_ffff * nn) by (nonlinear_arith)
                    requires
                        0 <= pn <= nn,
                        -0x8000_0000 <= v <= 0x7fff_ffff,
                ;
            }
            score = score + (v as i64) * (ponnukis as i64);
        },
        None => {},
    }
    if shared.mods.captures_give_points.is_some() {
        score = score + 2 * (captures as i64);
    }
    proof {
        let nn = n as int;
        let pv: int = match shared.mods.ponnuki_is_points {
            Some(v) => if v < 0 { -v } else { v as int },
            None => 0,
        };
        let vpart: int = match shared.mods.ponnuki_is_points {
            Some(v) => v * (ponnukis as int),
            None => 0,
        };
        let pn = ponnukis as int;
        assert(-pv * nn <= vpart <= pv * nn) by (nonlinear_arith)
            requires
                0 <= pn <= nn,
                vpart == pv * pn || vpart == -pv * pn,
                pv >= 0,
        {
        }
        assert(shared.points@[t as int] == old(shared).points@[t as int]);
        assert(i32::MIN + (pv + 4) * nn <= old(shared).points@[t as int] <= i32::MAX - (pv + 4) * nn);
        assert((pv + 4) * nn == pv * nn + 4 * nn) by (nonlinear_arith);
        lemma_reveals_compose(v0, v1, shared.board_visibility, b0, b1, |c: Point| b0.near_dead_opponent(team, c), |c: Point| b0.near_dead_own(team, c), |c: Point| b0.capture_area(team, c), r1, r2);
    }
    shared.points.set(t, score as i32);
    proof {
        assert forall|i: int| 0 <= i < shared.board.points@.len() implies (#[trigger] shared.board.points@[i]).0 <= shared.points@.len() by {
            assert(b0.points@[i].0 <= old(shared).points@.len());
        }
        assert forall|k: int| 0 <= k < shared.board_history@.len() implies shared.history_fits(#[trigger] shared.board_history@[k]) by {
            assert(old(shared).history_fits(old(shared).board_history@[k]));
        }
    }
    (captures, r1 || r2)
}

/// Keeping some of the points of `s` keeps them on the board.
pub proof fn lemma_filter_within(b: Board<Color>, s: Seq<Point>, pred: spec_fn(Point) -> bool)
    requires
        forall|j: int| 0 <= j < s.len() ==> b.within(#[trigger] s[j]),
    ensures
        forall|j: int| 0 <= j < s.filter(pred).len() ==> b.within(#[trigger] s.filter(pred)[j]),
    decreases s.len(),
{
    reveal(Seq::filter);
    if s.len() > 0 {
        assert forall|j: int| 0 <= j < s.drop_last().len() implies b.within(#[trigger] s.drop_last()[j]) by {
            assert(s.drop_last()[j] == s[j]);
        }
        lemma_filter_within(b, s.drop_last(), pred);
        let sub = s.drop_last().filter(pred);
        let f = s.filter(pred);
        assert(b.within(s.last()));
        assert(f == if pred(s.last()) { sub.push(s.last()) } else { sub });
        assert forall|j: int| 0 <= j < f.len() implies b.within(#[trigger] f[j]) by {
            if j < sub.len() {
                assert(f[j] == sub[j]);
            }
        }
    }
}

/// A capture in which every captured stone has a diagonal neighbour of the
/// mover's team forms no ponnuki: where captures give no points, the scores
/// stay as they were.
pub proof fn law_no_ponnuki_next_to_own_diagonal(
    sh0: SharedState,
    played: Seq<Point>,
    sh1: SharedState,
    played1: Seq<Point>,
    captures: int,
    revealed: bool,
)
    requires
        sh0.wf(),
        capture_stage(sh0, played, sh1, played1, captures, revealed),
        sh0.mods.captures_give_points is None,
        forall|p: Point|
            sh0.board.within(p) && #[trigger] sh0.board.dead_opponent(sh0.active_seat().team, p) ==> exists|k: int|
                0 <= k < sh0.board.diagonal_neighbors(p).len() && sh0.board.at(#[trigger] sh0.board.diagonal_neighbors(p)[k])
                    == sh0.active_seat().team,
    ensures
        sh1.points@ == sh0.points@,
{
    let b0 = sh0.board;
    let team = sh0.active_seat().team;
    let mask = b0.ponnuki_mask(team);
    assert forall|i: int| 0 <= i < mask.len() implies !mask[i] by {
        lemma_coord_in_range(&b0, i);
        let p = b0.coord_of(i);
        if b0.dead_opponent(team, p) {
            let k = choose|k: int| 0 <= k < b0.diagonal_neighbors(p).len() && b0.at(#[trigger] b0.diagonal_neighbors(p)[k]) == team;
            assert(b0.at(b0.diagonal_neighbors(p)[k]) == team);
        }
    }
    lemma_count_true_all_false(mask);
    assert(sh0.seats@[sh0.turn as int] == sh0.active_seat());
    assert(sh1.points@ =~= sh0.points@);
}

} // verus!
