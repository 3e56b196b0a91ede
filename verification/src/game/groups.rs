use vstd::prelude::*;

use super::board::{lemma_adjacent_symmetric, lemma_coord_in_range, lemma_index_in_range, lemma_index_injective, lemma_neighbors};
use super::count::{count_true, lemma_count_true_bound, lemma_count_true_set, lemma_count_true_all_false};
use super::vecs::copy_vec;
use super::{Board, Color, Point};

verus! {

/// A chain of stones: connected points of one team, with the number of
/// distinct empty points next to it.
#[derive(Clone, Debug)]
pub struct Group {
    pub points: Vec<Point>,
    pub liberties: i32,
    pub team: Color,
    pub alive: bool,
}

/// What a group holds.
pub struct GroupModel {
    pub points: Seq<Point>,
    pub liberties: i32,
    pub team: Color,
    pub alive: bool,
}

impl View for Group {
    type V = GroupModel;

    open spec fn view(&self) -> GroupModel {
        GroupModel { points: self.points@, liberties: self.liberties, team: self.team, alive: self.alive }
    }
}

impl Group {
    /// A copy of the group.
    pub fn copy(&self) -> (g: Group)
        ensures
            g@ == self@,
    {
        Group { points: copy_vec(&self.points), liberties: self.liberties, team: self.team, alive: self.alive }
    }
}

/// A copy of a list of groups.
pub fn copy_groups(gs: &Vec<Group>) -> (r: Vec<Group>)
    ensures
        r@.len() == gs@.len(),
        forall|k: int| 0 <= k < gs@.len() ==> (#[trigger] r@[k])@ == gs@[k]@,
{
    let mut r: Vec<Group> = Vec::new();
    let mut i: usize = 0;
    while i < gs.len()
        invariant
            i <= gs@.len(),
            r@.len() == i,
            forall|k: int| 0 <= k < i ==> (#[trigger] r@[k])@ == gs@[k]@,
        decreases gs@.len() - i,
    {
        r.push(gs[i].copy());
        i = i + 1;
    }
    r
}

impl Board<Color> {
    /// `q` is an empty point next to one of `pts`.
    pub open spec fn is_liberty(&self, pts: Seq<Point>, q: Point) -> bool {
        &&& self.within(q)
        &&& self.at(q).0 == 0
        &&& exists|j: int| 0 <= j < pts.len() && self.adjacent(pts[j], q)
    }

    /// For every index of the board, whether that point is a liberty of `pts`.
    pub open spec fn liberty_mask(&self, pts: Seq<Point>) -> Seq<bool> {
        Seq::new(self.points@.len(), |i: int| self.is_liberty(pts, self.coord_of(i)))
    }

    /// Number of distinct liberties of `pts`.
    pub open spec fn liberty_count(&self, pts: Seq<Point>) -> nat {
        count_true(self.liberty_mask(pts))
    }

    /// `pts` holds no point twice.
    pub open spec fn distinct(pts: Seq<Point>) -> bool {
        forall|i: int, j: int| 0 <= i < j < pts.len() ==> pts[i] != pts[j]
    }

    /// Every point after the first is next to an earlier one: the points are
    /// connected.
    pub open spec fn connected_in_order(&self, pts: Seq<Point>) -> bool {
        forall|k: int|
            0 < k < pts.len() ==> exists|j: int| 0 <= j < k && self.adjacent(pts[j], #[trigger] pts[k])
    }

    /// Every neighbour of `pts` that holds `team` is in `pts`.
    pub open spec fn closed(&self, pts: Seq<Point>, team: Color) -> bool {
        forall|j: int, q: Point|
            0 <= j < pts.len() && #[trigger] self.adjacent(pts[j], q) && self.within(q) && self.at(q) == team
                ==> pts.contains(q)
    }

    /// `pts` is a chain of `team`: non-empty, on the board, all of `team`,
    /// distinct, connected, and closed under adjacency.
    pub open spec fn is_chain(&self, pts: Seq<Point>, team: Color) -> bool {
        &&& pts.len() >= 1
        &&& forall|j: int| 0 <= j < pts.len() ==> self.within(#[trigger] pts[j]) && self.at(pts[j]) == team
        &&& Self::distinct(pts)
        &&& self.connected_in_order(pts)
        &&& self.closed(pts, team)
    }

    /// `g` is a chain of stones of this board with its first point the last
    /// one in index order and its liberties counted.
    pub open spec fn is_chain_group(&self, g: Group) -> bool {
        &&& self.is_chain(g.points@, g.team)
        &&& g.team.0 != 0
        &&& g.liberties == self.liberty_count(g.points@)
        &&& forall|j: int| 0 <= j < g.points@.len() ==> self.index_of(#[trigger] g.points@[j]) <= self.index_of(g.points@[0])
    }

    /// `g` is a chain group marked alive.
    pub open spec fn is_group(&self, g: Group) -> bool {
        &&& self.is_chain_group(g)
        &&& g.alive
    }

    /// The chain of the stone at `p` has exactly `k` points.
    pub open spec fn chain_len_is(&self, p: Point, k: nat) -> bool {
        exists|pts: Seq<Point>| #[trigger] self.is_chain(pts, self.at(p)) && pts.contains(p) && pts.len() == k
    }

    /// `p` holds a stone of a chain of exactly four stones.
    pub open spec fn in_tetromino(&self, p: Point) -> bool {
        self.occupied(p) && self.chain_len_is(p, 4)
    }

    /// A point holding a stone.
    pub open spec fn occupied(&self, p: Point) -> bool {
        self.within(p) && self.at(p).0 != 0
    }

    /// `gs` are exactly the chains of the board, whatever their life marks:
    /// no point in two of them, every stone in one of them, ordered by their
    /// first point from the last index to the first.
    pub open spec fn chains_of(&self, gs: Seq<Group>) -> bool {
        &&& forall|k: int| 0 <= k < gs.len() ==> self.is_chain_group(#[trigger] gs[k])
        &&& forall|k1: int, k2: int, p: Point|
            0 <= k1 < gs.len() && 0 <= k2 < gs.len() && k1 != k2 && #[trigger] gs[k1].points@.contains(p)
                ==> !#[trigger] gs[k2].points@.contains(p)
        &&& forall|p: Point| #[trigger] self.occupied(p) ==> exists|k: int| 0 <= k < gs.len() && #[trigger] gs[k].points@.contains(p)
        &&& forall|k1: int, k2: int|
            0 <= k1 < k2 < gs.len() ==> self.index_of(#[trigger] gs[k1].points@[0]) > self.index_of(#[trigger] gs[k2].points@[0])
    }

    /// `gs` are exactly the chains of the board, all marked alive.
    pub open spec fn groups_of(&self, gs: Seq<Group>) -> bool {
        &&& self.chains_of(gs)
        &&& forall|k: int| 0 <= k < gs.len() ==> (#[trigger] gs[k]).alive
    }
}

/// If a closed chain `h` holds any point of a connected run `g` of the same
/// team, it holds the run's first point.
proof fn lemma_first_in_closed(b: &Board<Color>, g: Seq<Point>, h: Seq<Point>, team: Color, m: int)
    requires
        b.wf(),
        0 <= m < g.len(),
        forall|j: int| 0 <= j < g.len() ==> b.within(#[trigger] g[j]) && b.at(g[j]) == team,
        b.connected_in_order(g),
        b.closed(h, team),
        h.contains(g[m]),
    ensures
        h.contains(g[0]),
    decreases m,
{
    if m > 0 {
        let j = choose|j: int| 0 <= j < m && b.adjacent(g[j], g[m]);
        lemma_adjacent_symmetric(b, g[j], g[m]);
        let i = choose|i: int| 0 <= i < h.len() && h[i] == g[m];
        assert(b.adjacent(h[i], g[j]));
        assert(h.contains(g[j]));
        lemma_first_in_closed(b, g, h, team, j);
    }
}

/// Which board entries are empty points already reached by the walk.
spec fn seen_empty(board: &Board<Color>, seen: Seq<bool>) -> Seq<bool> {
    Seq::new(seen.len(), |i: int| seen[i] && board.points@[i].0 == 0)
}

/// The state of the walk that collects a chain: `pts` lists the chain's points
/// found so far, `seen` marks every index reached, and `liberties` counts the
/// empty points reached.
#[verifier::opaque]
spec fn flood_state(
    board: &Board<Color>,
    team: Color,
    start: Point,
    seen: Seq<bool>,
    pts: Seq<Point>,
    liberties: int,
) -> bool {
    &&& board.wf()
    &&& seen.len() == board.points@.len()
    &&& team == board.at(start)
    &&& board.within(start)
    &&& pts.len() >= 1
    &&& pts[0] == start
    &&& pts.len() <= count_true(seen)
    &&& forall|j: int| 0 <= j < pts.len() ==> board.within(#[trigger] pts[j]) && board.at(pts[j]) == team
    &&& forall|j: int| 0 <= j < pts.len() ==> #[trigger] seen[board.index_of(pts[j])]
    &&& Board::<Color>::distinct(pts)
    &&& board.connected_in_order(pts)
    &&& forall|i: int|
        0 <= i < seen.len() && #[trigger] seen[i] && board.points@[i] == team ==> pts.contains(board.coord_of(i))
    &&& team.0 != 0 ==> liberties == count_true(seen_empty(board, seen))
}

/// Every index reached is the start or next to one of the first `head` points.
#[verifier::opaque]
spec fn seen_explained(board: &Board<Color>, start: Point, seen: Seq<bool>, pts: Seq<Point>, head: int) -> bool {
    forall|i: int|
        0 <= i < seen.len() && #[trigger] seen[i] ==> i == board.index_of(start) || exists|j: int|
            0 <= j < head && board.adjacent(pts[j], board.coord_of(i))
}

/// `j` is the first point of `pts` next to the point at `k`: the point
/// through which a breadth-first walk reaches it.
pub open spec fn first_parent(b: Board<Color>, pts: Seq<Point>, k: int, j: int) -> bool {
    &&& 0 <= j < k
    &&& b.adjacent(pts[j], pts[k])
    &&& forall|i: int| 0 <= i < j ==> !b.adjacent(pts[i], pts[k])
}

/// `m` is the first position of `q` in `s`.
pub open spec fn first_at(s: Seq<Point>, q: Point, m: int) -> bool {
    &&& 0 <= m < s.len()
    &&& s[m] == q
    &&& forall|i: int| 0 <= i < m ==> s[i] != q
}

/// `pts` lists its points in breadth-first order: after the first, points
/// come in the order of the points that reach them first, and points reached
/// from the same point in the order of its neighbours (left, right, up,
/// down).
pub open spec fn bfs_order(b: Board<Color>, pts: Seq<Point>) -> bool {
    forall|k1: int, k2: int, j1: int, j2: int, m1: int, m2: int|
        1 <= k1 < k2 < pts.len() && #[trigger] first_parent(b, pts, k1, j1) && #[trigger] first_parent(b, pts, k2, j2)
            && #[trigger] first_at(b.neighbors(pts[j1]), pts[k1], m1) && #[trigger] first_at(b.neighbors(pts[j2]), pts[k2], m2)
            ==> j1 < j2 || (j1 == j2 && m1 < m2)
}

/// Every point after the first is reached first from a point before
/// `head - 1`, or from that point through one of its first `k` neighbours.
spec fn reached_before(b: Board<Color>, pts: Seq<Point>, head: int, k: int) -> bool {
    forall|k1: int, j1: int, m1: int|
        #![trigger first_parent(b, pts, k1, j1), first_at(b.neighbors(pts[j1]), pts[k1], m1)]
        1 <= k1 < pts.len() && first_parent(b, pts, k1, j1) && first_at(b.neighbors(pts[j1]), pts[k1], m1) ==> j1 < head - 1 || (
        j1 == head - 1 && m1 < k)
}

/// Appending the `k`-th neighbour of the point at `head - 1`, if it was not
/// reached yet, keeps the points in breadth-first order.
proof fn lemma_bfs_step(
    b: Board<Color>,
    old_pts: Seq<Point>,
    new_pts: Seq<Point>,
    head: int,
    k: int,
    nbrs: Seq<Point>,
    old_seen: Seq<bool>,
)
    requires
        1 <= head <= old_pts.len(),
        nbrs == b.neighbors(old_pts[head - 1]),
        0 <= k < nbrs.len(),
        forall|m: int| 0 <= m < k ==> old_seen[b.index_of(#[trigger] nbrs[m])],
        forall|j: int, q: Point| 0 <= j < head - 1 && #[trigger] b.adjacent(old_pts[j], q) ==> old_seen[b.index_of(q)],
        bfs_order(b, old_pts),
        reached_before(b, old_pts, head, k),
        new_pts == old_pts || (new_pts == old_pts.push(nbrs[k]) && !old_seen[b.index_of(nbrs[k])]),
    ensures
        bfs_order(b, new_pts),
        reached_before(b, new_pts, head, k + 1),
{
    if new_pts == old_pts {
        assert forall|k1: int, j1: int, m1: int|
            1 <= k1 < new_pts.len() && first_parent(b, new_pts, k1, j1) && first_at(b.neighbors(new_pts[j1]), new_pts[k1], m1) implies j1
            < head - 1 || (j1 == head - 1 && m1 < k + 1) by {
            assert(first_parent(b, old_pts, k1, j1) && first_at(b.neighbors(old_pts[j1]), old_pts[k1], m1));
        }
    } else {
        let q = nbrs[k];
        let kk = old_pts.len() as int;
        assert(new_pts[kk] == q);
        assert forall|i: int| 0 <= i < kk implies new_pts[i] == old_pts[i] by {}
        // The new point is reached first from the point at `head - 1`, as its
        // `k`-th neighbour.
        assert(b.neighbors(old_pts[head - 1]).contains(q));
        assert(b.adjacent(new_pts[head - 1], q));
        assert forall|i: int| 0 <= i < head - 1 implies !b.adjacent(new_pts[i], new_pts[kk]) by {
            if b.adjacent(old_pts[i], q) {
                assert(old_seen[b.index_of(q)]);
            }
        }
        assert(first_parent(b, new_pts, kk, head - 1));
        assert forall|i: int| 0 <= i < k implies nbrs[i] != q by {
            if nbrs[i] == q {
                assert(old_seen[b.index_of(nbrs[i])]);
            }
        }
        assert(first_at(nbrs, q, k));
        // Old points keep their first parents and positions.
        assert forall|k1: int, j1: int| 1 <= k1 < kk && first_parent(b, new_pts, k1, j1) implies first_parent(b, old_pts, k1, j1) by {
            assert(new_pts[k1] == old_pts[k1] && new_pts[j1] == old_pts[j1]);
            assert forall|i: int| 0 <= i < j1 implies !b.adjacent(old_pts[i], old_pts[k1]) by {
                assert(new_pts[i] == old_pts[i]);
            }
        }
        assert forall|k1: int, j1: int, m1: int|
            1 <= k1 < new_pts.len() && first_parent(b, new_pts, k1, j1) && first_at(b.neighbors(new_pts[j1]), new_pts[k1], m1) implies j1
            < head - 1 || (j1 == head - 1 && m1 < k + 1) by {
            if k1 == kk {
                if j1 != head - 1 {
                    if j1 < head - 1 {
                        assert(!b.adjacent(new_pts[j1], new_pts[kk]));
                    } else {
                        assert(!b.adjacent(new_pts[head - 1], new_pts[kk]));
                    }
                }
                if m1 > k {
                    assert(b.neighbors(new_pts[j1])[k] == q);
                }
            } else {
                assert(first_parent(b, old_pts, k1, j1));
                assert(new_pts[j1] == old_pts[j1] && new_pts[k1] == old_pts[k1]);
                assert(first_at(b.neighbors(old_pts[j1]), old_pts[k1], m1));
            }
        }
        assert forall|k1: int, k2: int, j1: int, j2: int, m1: int, m2: int|
            1 <= k1 < k2 < new_pts.len() && #[trigger] first_parent(b, new_pts, k1, j1) && #[trigger] first_parent(b, new_pts, k2, j2)
                && #[trigger] first_at(b.neighbors(new_pts[j1]), new_pts[k1], m1) && #[trigger] first_at(
                b.neighbors(new_pts[j2]),
                new_pts[k2],
                m2,
            ) implies j1 < j2 || (j1 == j2 && m1 < m2) by {
            assert(first_parent(b, old_pts, k1, j1));
            assert(new_pts[j1] == old_pts[j1] && new_pts[k1] == old_pts[k1]);
            assert(first_at(b.neighbors(old_pts[j1]), old_pts[k1], m1));
            if k2 == kk {
                if j2 != head - 1 {
                    if j2 < head - 1 {
                        assert(!b.adjacent(new_pts[j2], new_pts[kk]));
                    } else {
                        assert(!b.adjacent(new_pts[head - 1], new_pts[kk]));
                    }
                }
                if m2 != k {
                    if m2 < k {
                        assert(nbrs[m2] != q);
                    } else {
                        assert(b.neighbors(new_pts[j2])[k] == q);
                    }
                }
            } else {
                assert(first_parent(b, old_pts, k2, j2));
                assert(new_pts[j2] == old_pts[j2] && new_pts[k2] == old_pts[k2]);
                assert(first_at(b.neighbors(old_pts[j2]), old_pts[k2], m2));
            }
        }
    }
}

/// Once every neighbour of the point at `head - 1` has been looked at, every
/// point is reached first from a point before `head`.
proof fn lemma_reached_next(b: Board<Color>, pts: Seq<Point>, head: int, k: int)
    requires
        reached_before(b, pts, head, k),
    ensures
        reached_before(b, pts, head + 1, 0),
{
}

/// Every neighbour of the first `head` points has been reached.
#[verifier::opaque]
spec fn processed(board: &Board<Color>, seen: Seq<bool>, pts: Seq<Point>, head: int) -> bool {
    forall|j: int, q: Point| 0 <= j < head && #[trigger] board.adjacent(pts[j], q) ==> seen[board.index_of(q)]
}

/// Reaches `q`, a neighbour of the point at `head - 1`: a new point of the team
/// joins the chain, a new empty point counts as a liberty.
#[verifier::rlimit(80)]
fn visit(
    board: &Board<Color>,
    team: Color,
    start: Point,
    seen: &mut Vec<bool>,
    pts: &mut Vec<Point>,
    liberties: &mut i32,
    head: usize,
    q: Point,
)
    requires
        flood_state(board, team, start, old(seen)@, old(pts)@, *old(liberties) as int),
        seen_explained(board, start, old(seen)@, old(pts)@, head as int),
        1 <= head <= old(pts)@.len(),
        board.adjacent(old(pts)@[head - 1], q),
    ensures
        flood_state(board, team, start, final(seen)@, final(pts)@, *final(liberties) as int),
        seen_explained(board, start, final(seen)@, final(pts)@, head as int),
        final(seen)@[board.index_of(q)],
        forall|i: int| 0 <= i < old(seen)@.len() && old(seen)@[i] ==> final(seen)@[i],
        final(pts)@.len() >= old(pts)@.len(),
        forall|j: int| 0 <= j < old(pts)@.len() ==> final(pts)@[j] == old(pts)@[j],
        final(pts)@ == old(pts)@ || (final(pts)@ == old(pts)@.push(q) && !old(seen)@[board.index_of(q)]),
{
    reveal(flood_state);
    reveal(seen_explained);
    let ghost n = board.points@.len();
    proof {
        lemma_neighbors(board, pts@[head - 1]);
        assert(board.neighbors(pts@[head - 1]).contains(q));
        lemma_index_in_range(board, q);
        lemma_coord_in_range(board, board.index_of(q));
        lemma_index_in_range(board, start);
    }
    let qi = (q.1 * board.width + q.0) as usize;
    if seen[qi] {
        return;
    }
    let ghost old_seen = seen@;
    let ghost old_pts = pts@;
    let ghost old_mask = seen_empty(board, old_seen);
    seen.set(qi, true);
    proof {
        lemma_count_true_set(old_seen, qi as int);
        assert forall|j: int| 0 <= j < pts@.len() implies #[trigger] seen@[board.index_of(pts@[j])] by {
            lemma_index_in_range(board, pts@[j]);
            assert(old_seen[board.index_of(pts@[j])]);
        }
        assert forall|i: int| 0 <= i < seen@.len() && #[trigger] seen@[i] implies i == board.index_of(start) || exists|j: int|
            0 <= j < head && board.adjacent(pts@[j], board.coord_of(i)) by {
            if i == qi {
                assert(board.adjacent(pts@[head - 1], board.coord_of(i)));
            } else {
                assert(old_seen[i]);
            }
        }
    }
    let c = board.get_point(q);
    if c == team {
        proof {
            assert forall|j: int| 0 <= j < pts@.len() implies pts@[j] != q by {
                if pts@[j] == q {
                    lemma_index_in_range(board, pts@[j]);
                    assert(old_seen[board.index_of(pts@[j])]);
                }
            }
        }
        pts.push(q);
        proof {
            lemma_count_true_bound(seen@);
            let last = pts@.len() - 1;
            assert(board.adjacent(pts@[head - 1], pts@[last]));
            assert forall|kk: int| 0 < kk < pts@.len() implies exists|j: int| 0 <= j < kk && board.adjacent(pts@[j], #[trigger] pts@[kk]) by {
                if kk == last {
                    assert(board.adjacent(pts@[head - 1], pts@[kk]));
                } else {
                    assert(old_pts[kk] == pts@[kk]);
                    let j = choose|j: int| 0 <= j < kk && board.adjacent(old_pts[j], #[trigger] old_pts[kk]);
                    assert(pts@[j] == old_pts[j]);
                }
            }
            assert forall|i: int| 0 <= i < seen@.len() && #[trigger] seen@[i] && board.points@[i] == team implies pts@.contains(board.coord_of(i)) by {
                if i == qi {
                    assert(pts@[last] == board.coord_of(i));
                } else {
                    assert(old_seen[i]);
                    let jj = choose|jj: int| 0 <= jj < old_pts.len() && old_pts[jj] == board.coord_of(i);
                    assert(pts@[jj] == board.coord_of(i));
                }
            }
            assert forall|j: int| 0 <= j < pts@.len() implies #[trigger] seen@[board.index_of(pts@[j])] by {
                if j < last {
                    lemma_index_in_range(board, pts@[j]);
                    assert(old_seen[board.index_of(old_pts[j])]);
                }
            }
            assert forall|i: int| 0 <= i < seen@.len() && #[trigger] seen@[i] implies i == board.index_of(start) || exists|j: int|
                0 <= j < head && board.adjacent(pts@[j], board.coord_of(i)) by {
                if i == qi {
                    assert(board.adjacent(pts@[head - 1], board.coord_of(i)));
                } else {
                    assert(old_seen[i]);
                    if i != board.index_of(start) {
                        let j = choose|j: int| 0 <= j < head && board.adjacent(old_pts[j], board.coord_of(i));
                        assert(pts@[j] == old_pts[j]);
                    }
                }
            }
            if team.0 != 0 {
                assert(seen_empty(board, seen@) =~= old_mask);
            }
        }
    } else if c.0 == 0 {
        proof {
            assert(seen_empty(board, seen@) =~= old_mask.update(qi as int, true));
            lemma_count_true_set(old_mask, qi as int);
            lemma_count_true_bound(seen_empty(board, seen@));
            assert forall|i: int| 0 <= i < seen@.len() && #[trigger] seen@[i] && board.points@[i] == team implies pts@.contains(board.coord_of(i)) by {
                assert(old_seen[i]);
            }
        }
        *liberties = *liberties + 1;
    } else {
        proof {
            assert(seen_empty(board, seen@) =~= old_mask);
            assert forall|i: int| 0 <= i < seen@.len() && #[trigger] seen@[i] && board.points@[i] == team implies pts@.contains(board.coord_of(i)) by {
                assert(old_seen[i]);
            }
        }
    }
}

proof fn lemma_flood_facts(
    board: &Board<Color>,
    team: Color,
    start: Point,
    seen: Seq<bool>,
    pts: Seq<Point>,
    liberties: int,
)
    requires
        flood_state(board, team, start, seen, pts, liberties),
    ensures
        board.wf(),
        board.within(start),
        seen.len() == board.points@.len(),
        pts.len() <= seen.len(),
        pts.len() >= 1,
        forall|j: int| 0 <= j < pts.len() ==> board.within(#[trigger] pts[j]),
{
    reveal(flood_state);
    lemma_count_true_bound(seen);
}

/// Collects the chain holding `start`, its points in the order a
/// breadth-first walk reaches them and, for a chain of stones, its liberties.
pub(crate) fn flood_group(board: &Board<Color>, start: Point) -> (g: Group)
    requires
        board.wf(),
        board.within(start),
    ensures
        board.is_chain(g.points@, g.team),
        g.points@[0] == start,
        g.team == board.at(start),
        g.team.0 != 0 ==> g.liberties == board.liberty_count(g.points@),
        g.alive,
        bfs_order(*board, g.points@),
{
    let n = board.points.len();
    let team = board.get_point(start);
    let mut seen: Vec<bool> = Vec::new();
    let mut i: usize = 0;
    while i < n
        invariant
            i <= n,
            n == board.points@.len(),
            seen@.len() == i,
            forall|k: int| 0 <= k < i ==> !seen@[k],
        decreases n - i,
    {
        seen.push(false);
        i = i + 1;
    }
    proof {
        lemma_index_in_range(board, start);
        lemma_count_true_all_false(seen@);
    }
    let ghost empty_seen = seen@;
    let sidx = (start.1 * board.width + start.0) as usize;
    seen.set(sidx, true);
    proof {
        lemma_count_true_set(empty_seen, sidx as int);
    }
    let mut pts: Vec<Point> = Vec::new();
    pts.push(start);
    let mut head: usize = 0;
    let mut liberties: i32 = 0;
    proof {
        assert(pts@[0] == start);
        assert(pts@.contains(start));
        let mask = seen_empty(board, seen@);
        if team.0 != 0 {
            assert forall|k: int| 0 <= k < n implies !mask[k] by {
            }
            lemma_count_true_all_false(mask);
        }
        assert(board.coord_of(sidx as int) == start);
        assert(flood_state(board, team, start, seen@, pts@, liberties as int)) by {
            reveal(flood_state);
            assert forall|i: int| 0 <= i < seen@.len() && #[trigger] seen@[i] && board.points@[i] == team implies pts@.contains(board.coord_of(i)) by {
                assert(i == sidx);
            }
        }
        assert(seen_explained(board, start, seen@, pts@, 0)) by {
            reveal(seen_explained);
        }
        assert(processed(board, seen@, pts@, 0)) by {
            reveal(processed);
        }
    }
    while head < pts.len()
        invariant
            flood_state(board, team, start, seen@, pts@, liberties as int),
            seen_explained(board, start, seen@, pts@, head as int),
            processed(board, seen@, pts@, head as int),
            head <= pts@.len(),
            n == board.points@.len(),
            bfs_order(*board, pts@),
            reached_before(*board, pts@, head + 1, 0),
        decreases n - head,
    {
        proof {
            lemma_flood_facts(board, team, start, seen@, pts@, liberties as int);
        }
        let p = pts[head];
        head = head + 1;
        proof {
            assert(seen_explained(board, start, seen@, pts@, head as int)) by {
                reveal(seen_explained);
                assert forall|i: int| 0 <= i < seen@.len() && #[trigger] seen@[i] implies i == board.index_of(start) || exists|j: int|
                    0 <= j < head && board.adjacent(pts@[j], board.coord_of(i)) by {
                    if i != board.index_of(start) {
                        let j = choose|j: int| 0 <= j < head - 1 && board.adjacent(pts@[j], board.coord_of(i));
                    }
                }
            }
        }
        let nbrs = board.surrounding_points(p);
        let mut k: usize = 0;
        while k < nbrs.len()
            invariant
                flood_state(board, team, start, seen@, pts@, liberties as int),
                seen_explained(board, start, seen@, pts@, head as int),
                processed(board, seen@, pts@, head - 1),
                1 <= head <= pts@.len(),
                p == pts@[head - 1],
                board.wf(),
                board.within(p),
                nbrs@ == board.neighbors(p),
                k <= nbrs@.len(),
                forall|m: int| 0 <= m < k ==> seen@[board.index_of(#[trigger] nbrs@[m])],
                bfs_order(*board, pts@),
                reached_before(*board, pts@, head as int, k as int),
            decreases nbrs@.len() - k,
        {
            let q = nbrs[k];
            let ghost before_seen = seen@;
            let ghost before_pts = pts@;
            proof {
                assert(board.neighbors(p).contains(q));
                lemma_flood_facts(board, team, start, seen@, pts@, liberties as int);
            }
            visit(board, team, start, &mut seen, &mut pts, &mut liberties, head, q);
            proof {
                assert(processed(board, before_seen, before_pts, head - 1));
                reveal(processed);
                lemma_bfs_step(*board, before_pts, pts@, head as int, k as int, nbrs@, before_seen);
                lemma_neighbors(board, p);
                assert forall|m: int| 0 <= m < k + 1 implies seen@[board.index_of(#[trigger] nbrs@[m])] by {
                    if m < k {
                        lemma_index_in_range(board, nbrs@[m]);
                        assert(before_seen[board.index_of(nbrs@[m])]);
                    }
                }
                assert(processed(board, seen@, pts@, head - 1)) by {
                    reveal(processed);
                    assert forall|j: int, q2: Point| 0 <= j < head - 1 && #[trigger] board.adjacent(pts@[j], q2) implies seen@[board.index_of(q2)] by {
                        assert(pts@[j] == before_pts[j]);
                        assert(board.within(before_pts[j]));
                        lemma_adjacent_symmetric(board, pts@[j], q2);
                        lemma_index_in_range(board, q2);
                        assert(board.adjacent(before_pts[j], q2));
                        assert(before_seen[board.index_of(q2)]);
                    }
                }
            }
            k = k + 1;
        }
        proof {
            lemma_reached_next(*board, pts@, head as int, k as int);
            assert(processed(board, seen@, pts@, head as int)) by {
                reveal(processed);
                assert forall|j: int, q: Point| 0 <= j < head && #[trigger] board.adjacent(pts@[j], q) implies seen@[board.index_of(q)] by {
                    if j == head - 1 {
                        let m = choose|m: int| 0 <= m < nbrs@.len() && nbrs@[m] == q;
                    }
                }
            }
        }
    }
    let g = Group { points: pts, liberties, team, alive: true };
    proof {
        reveal(flood_state);
        reveal(seen_explained);
        reveal(processed);
        let mask = seen_empty(board, seen@);
        let sidx_i = board.index_of(start);
        assert forall|i: int| 0 <= i < n && team.0 != 0 implies mask[i] == board.liberty_mask(pts@)[i] by {
            lemma_coord_in_range(board, i);
            let q = board.coord_of(i);
            if mask[i] && team.0 != 0 {
                if i == sidx_i {
                } else {
                    let j = choose|j: int| 0 <= j < head && board.adjacent(pts@[j], board.coord_of(i));
                    assert(board.is_liberty(pts@, q));
                }
            }
            if board.is_liberty(pts@, q) && team.0 != 0 {
                let j = choose|j: int| 0 <= j < pts@.len() && board.adjacent(pts@[j], q);
                assert(seen@[board.index_of(q)]);
            }
        }
        if team.0 != 0 {
            assert(mask =~= board.liberty_mask(pts@));
        }
        assert forall|j: int, q: Point| 0 <= j < pts@.len() && #[trigger] board.adjacent(pts@[j], q) && board.within(q) && board.at(q) == team implies pts@.contains(q) by {
            lemma_index_in_range(board, q);
            assert(seen@[board.index_of(q)]);
        }
    }
    g
}

/// `gs` are the groups `find_groups` gives: the chains of the board (see
/// `groups_of`), each listing its points in breadth-first order from its
/// last point (see `bfs_order`).
pub open spec fn found_groups(b: Board<Color>, gs: Seq<Group>) -> bool {
    &&& b.groups_of(gs)
    &&& forall|k: int| 0 <= k < gs.len() ==> bfs_order(b, (#[trigger] gs[k]).points@)
}

/// The chains of the board (see `groups_of`): every stone belongs to exactly
/// one group, each group lists its distinct liberties, and groups come in
/// decreasing order of their last point.
pub fn find_groups(board: &Board<Color>) -> (groups: Vec<Group>)
    requires
        board.wf(),
    ensures
        found_groups(*board, groups@),
{
    let n = board.points.len();
    let mut assigned: Vec<bool> = Vec::new();
    let mut i: usize = 0;
    while i < n
        invariant
            i <= n,
            n == board.points@.len(),
            assigned@.len() == i,
            forall|k: int| 0 <= k < i ==> !assigned@[k],
        decreases n - i,
    {
        assigned.push(false);
        i = i + 1;
    }
    let mut groups: Vec<Group> = Vec::new();
    let mut idx: usize = n;
    while idx > 0
        invariant
            board.wf(),
            n == board.points@.len(),
            assigned@.len() == n,
            idx <= n,
            forall|k: int| 0 <= k < groups@.len() ==> board.is_group(#[trigger] groups@[k]),
            forall|k: int| 0 <= k < groups@.len() ==> bfs_order(*board, (#[trigger] groups@[k]).points@),
            forall|k1: int, k2: int, p: Point|
                0 <= k1 < groups@.len() && 0 <= k2 < groups@.len() && k1 != k2 && #[trigger] groups@[k1].points@.contains(p)
                    ==> !#[trigger] groups@[k2].points@.contains(p),
            forall|i: int|
                0 <= i < n ==> (#[trigger] assigned@[i] <==> exists|k: int|
                    0 <= k < groups@.len() && groups@[k].points@.contains(board.coord_of(i))),
            forall|i: int| idx <= i < n && board.points@[i].0 != 0 ==> #[trigger] assigned@[i],
            forall|k: int| 0 <= k < groups@.len() ==> board.index_of(#[trigger] groups@[k].points@[0]) >= idx,
            forall|k1: int, k2: int|
                0 <= k1 < k2 < groups@.len() ==> board.index_of(#[trigger] groups@[k1].points@[0]) > board.index_of(#[trigger] groups@[k2].points@[0]),
        decreases idx,
    {
        idx = idx - 1;
        if board.points[idx].0 != 0 && !assigned[idx] {
            proof {
                lemma_coord_in_range(board, idx as int);
            }
            let start = (idx as u32 % board.width, idx as u32 / board.width);
            let g = flood_group(board, start);
            let ghost gp = g.points@;
            proof {
                // The new chain shares no point with an earlier group.
                assert forall|k: int, p: Point| 0 <= k < groups@.len() && #[trigger] groups@[k].points@.contains(p) implies !gp.contains(p) by {
                    if gp.contains(p) {
                        let m = choose|m: int| 0 <= m < gp.len() && gp[m] == p;
                        let h = groups@[k];
                        assert(board.is_group(h));
                        let jh = choose|jh: int| 0 <= jh < h.points@.len() && h.points@[jh] == p;
                        assert(h.team == board.at(p));
                        lemma_first_in_closed(board, gp, h.points@, g.team, m);
                        assert(groups@[k].points@.contains(board.coord_of(idx as int)));
                        assert(assigned@[idx as int]);
                    }
                }
                // Its first point is its last in index order.
                assert forall|j: int| 0 <= j < gp.len() implies board.index_of(#[trigger] gp[j]) <= board.index_of(gp[0]) by {
                    let q = gp[j];
                    lemma_index_in_range(board, q);
                    let qi = board.index_of(q);
                    if qi > idx {
                        assert(board.points@[qi].0 != 0);
                        assert(assigned@[qi]);
                        let k = choose|k: int| 0 <= k < groups@.len() && groups@[k].points@.contains(board.coord_of(qi));
                        assert(groups@[k].points@.contains(q));
                    }
                }
            }
            let ghost before = assigned@;
            let mut j: usize = 0;
            while j < g.points.len()
                invariant
                    board.wf(),
                    n == board.points@.len(),
                    assigned@.len() == n,
                    gp == g.points@,
                    j <= gp.len(),
                    board.is_chain(gp, g.team),
                    forall|i: int|
                        0 <= i < n ==> (#[trigger] assigned@[i] <==> (before[i] || exists|jj: int|
                            0 <= jj < j && board.index_of(gp[jj]) == i)),
                decreases gp.len() - j,
            {
                let p = g.points[j];
                proof {
                    lemma_index_in_range(board, p);
                }
                let pi = (p.1 * board.width + p.0) as usize;
                assigned.set(pi, true);
                proof {
                    assert forall|i: int| 0 <= i < n implies (#[trigger] assigned@[i] <==> (before[i] || exists|jj: int|
                        0 <= jj < j + 1 && board.index_of(gp[jj]) == i)) by {
                        if i == pi {
                            assert(board.index_of(gp[j as int]) == i);
                        } else if exists|jj: int| 0 <= jj < j + 1 && board.index_of(gp[jj]) == i {
                            let jj = choose|jj: int| 0 <= jj < j + 1 && board.index_of(gp[jj]) == i;
                            assert(jj != j);
                        }
                    }
                }
                j = j + 1;
            }
            let ghost old_groups = groups@;
            groups.push(g);
            proof {
                let last = groups@.len() - 1;
                assert(groups@[last] == g);
                assert forall|i: int| 0 <= i < n implies (#[trigger] assigned@[i] <==> exists|k: int|
                    0 <= k < groups@.len() && groups@[k].points@.contains(board.coord_of(i))) by {
                    lemma_coord_in_range(board, i);
                    if assigned@[i] {
                        if before[i] {
                            let k = choose|k: int| 0 <= k < old_groups.len() && old_groups[k].points@.contains(board.coord_of(i));
                            assert(groups@[k] == old_groups[k]);
                        } else {
                            let jj = choose|jj: int| 0 <= jj < gp.len() && board.index_of(gp[jj]) == i;
                            lemma_index_in_range(board, gp[jj]);
                            assert(gp[jj] == board.coord_of(i));
                            assert(groups@[last].points@.contains(board.coord_of(i)));
                        }
                    } else {
                        if exists|k: int| 0 <= k < groups@.len() && groups@[k].points@.contains(board.coord_of(i)) {
                            let k = choose|k: int| 0 <= k < groups@.len() && groups@[k].points@.contains(board.coord_of(i));
                            if k == last {
                                let jj = choose|jj: int| 0 <= jj < gp.len() && gp[jj] == board.coord_of(i);
                                assert(board.index_of(gp[jj]) == i);
                            } else {
                                assert(old_groups[k] == groups@[k]);
                                assert(before[i]);
                            }
                        }
                    }
                }
                assert forall|k1: int, k2: int, p: Point|
                    0 <= k1 < groups@.len() && 0 <= k2 < groups@.len() && k1 != k2 && #[trigger] groups@[k1].points@.contains(p)
                        implies !#[trigger] groups@[k2].points@.contains(p) by {
                    if k1 < last && k2 < last {
                        assert(old_groups[k1] == groups@[k1]);
                        assert(old_groups[k2] == groups@[k2]);
                    } else if k1 == last {
                        assert(old_groups[k2] == groups@[k2]);
                    } else {
                        assert(old_groups[k1] == groups@[k1]);
                    }
                }
                assert forall|k: int| 0 <= k < groups@.len() implies board.is_group(#[trigger] groups@[k]) by {
                    if k < last {
                        assert(old_groups[k] == groups@[k]);
                    }
                }
                assert forall|k: int| 0 <= k < groups@.len() implies board.index_of(#[trigger] groups@[k].points@[0]) >= idx by {
                    if k < last {
                        assert(old_groups[k] == groups@[k]);
                    }
                }
                assert forall|k1: int, k2: int| 0 <= k1 < k2 < groups@.len() implies board.index_of(#[trigger] groups@[k1].points@[0]) > board.index_of(#[trigger] groups@[k2].points@[0]) by {
                    assert(old_groups[k1] == groups@[k1]);
                    if k2 < last {
                        assert(old_groups[k2] == groups@[k2]);
                    }
                }
                assert forall|i: int| idx <= i < n && board.points@[i].0 != 0 implies #[trigger] assigned@[i] by {
                    if i == idx {
                        assert(board.index_of(gp[0]) == i);
                    }
                }
            }
        }
    }
    proof {
        assert forall|p: Point| #[trigger] board.occupied(p) implies exists|k: int| 0 <= k < groups@.len() && #[trigger] groups@[k].points@.contains(p) by {
            lemma_index_in_range(board, p);
            let i = board.index_of(p);
            assert(assigned@[i]);
        }
    }
    groups
}

/// A connected run whose first point lies in a closed chain of the same team
/// lies wholly in that chain.
proof fn lemma_run_in_closed(b: &Board<Color>, g: Seq<Point>, h: Seq<Point>, team: Color, k: int)
    requires
        b.wf(),
        0 <= k < g.len(),
        forall|j: int| 0 <= j < g.len() ==> b.within(#[trigger] g[j]) && b.at(g[j]) == team,
        b.connected_in_order(g),
        b.closed(h, team),
        h.contains(g[0]),
    ensures
        h.contains(g[k]),
    decreases k,
{
    if k > 0 {
        let j = choose|j: int| 0 <= j < k && b.adjacent(g[j], g[k]);
        lemma_run_in_closed(b, g, h, team, j);
        let i = choose|i: int| 0 <= i < h.len() && h[i] == g[j];
        assert(b.adjacent(h[i], g[k]));
    }
}

/// Two chains of one team that share a point hold the same points.
pub proof fn lemma_chains_same_points(b: &Board<Color>, g: Seq<Point>, h: Seq<Point>, team: Color, p: Point)
    requires
        b.wf(),
        b.is_chain(g, team),
        b.is_chain(h, team),
        g.contains(p),
        h.contains(p),
    ensures
        forall|q: Point| g.contains(q) <==> h.contains(q),
{
    let mg = choose|m: int| 0 <= m < g.len() && g[m] == p;
    let mh = choose|m: int| 0 <= m < h.len() && h[m] == p;
    lemma_first_in_closed(b, g, h, team, mg);
    lemma_first_in_closed(b, h, g, team, mh);
    assert forall|q: Point| g.contains(q) <==> h.contains(q) by {
        if g.contains(q) {
            let k = choose|k: int| 0 <= k < g.len() && g[k] == q;
            lemma_run_in_closed(b, g, h, team, k);
        }
        if h.contains(q) {
            let k = choose|k: int| 0 <= k < h.len() && h[k] == q;
            lemma_run_in_closed(b, h, g, team, k);
        }
    }
}

/// For every index of the board, the position in `groups` of the group
/// holding that point, or `groups.len()` for an empty point.
pub fn group_index(board: &Board<Color>, groups: &Vec<Group>) -> (gid: Vec<usize>)
    requires
        board.wf(),
        board.chains_of(groups@),
    ensures
        gid@.len() == board.points@.len(),
        forall|i: int| 0 <= i < gid@.len() ==> (#[trigger] gid@[i] < groups@.len() <==> board.occupied(board.coord_of(i))),
        forall|i: int|
            0 <= i < gid@.len() && #[trigger] gid@[i] < groups@.len() ==> groups@[gid@[i] as int].points@.contains(board.coord_of(i)),
{
    let n = board.points.len();
    let len = groups.len();
    let mut gid = super::vecs::repeat(len, n);
    let mut k: usize = 0;
    while k < len
        invariant
            board.wf(),
            board.chains_of(groups@),
            n == board.points@.len(),
            len == groups@.len(),
            k <= len,
            gid@.len() == n,
            forall|i: int| 0 <= i < n ==> #[trigger] gid@[i] == len || (gid@[i] < k && groups@[gid@[i] as int].points@.contains(board.coord_of(i))),
            forall|k2: int, j: int|
                0 <= k2 < k && 0 <= j < groups@[k2].points@.len() ==> gid@[board.index_of(#[trigger] groups@[k2].points@[j])] != len,
        decreases len - k,
    {
        let g = &groups[k];
        proof {
            assert(board.is_chain_group(groups@[k as int]));
        }
        let mut j: usize = 0;
        while j < g.points.len()
            invariant
                board.wf(),
                board.chains_of(groups@),
                n == board.points@.len(),
                len == groups@.len(),
                k < len,
                *g == groups@[k as int],
                board.is_chain(g.points@, g.team),
                j <= g.points@.len(),
                gid@.len() == n,
                forall|i: int| 0 <= i < n ==> #[trigger] gid@[i] == len || (gid@[i] <= k && groups@[gid@[i] as int].points@.contains(board.coord_of(i))),
                forall|k2: int, j2: int|
                    0 <= k2 < k && 0 <= j2 < groups@[k2].points@.len() ==> gid@[board.index_of(#[trigger] groups@[k2].points@[j2])] != len,
                forall|j2: int| 0 <= j2 < j ==> gid@[board.index_of(#[trigger] g.points@[j2])] != len,
            decreases g.points@.len() - j,
        {
            let p = g.points[j];
            proof {
                assert(board.within(g.points@[j as int]));
                lemma_index_in_range(board, p);
            }
            let idx = (p.1 * board.width + p.0) as usize;
            gid.set(idx, k);
            proof {
                assert forall|i: int| 0 <= i < n implies #[trigger] gid@[i] == len || (gid@[i] <= k && groups@[gid@[i] as int].points@.contains(board.coord_of(i))) by {
                    if i == idx as int {
                        assert(g.points@[j as int] == p);
                    }
                }
                assert forall|k2: int, j2: int|
                    0 <= k2 < k && 0 <= j2 < groups@[k2].points@.len() implies gid@[board.index_of(#[trigger] groups@[k2].points@[j2])] != len by {
                    assert(board.is_chain_group(groups@[k2]));
                    assert(board.within(groups@[k2].points@[j2]));
                    lemma_index_in_range(board, groups@[k2].points@[j2]);
                }
                assert forall|j2: int| 0 <= j2 <= j implies gid@[board.index_of(#[trigger] g.points@[j2])] != len by {
                    assert(board.within(g.points@[j2]));
                    lemma_index_in_range(board, g.points@[j2]);
                }
            }
            j = j + 1;
        }
        k = k + 1;
    }
    proof {
        assert forall|i: int| 0 <= i < gid@.len() implies (#[trigger] gid@[i] < groups@.len() <==> board.occupied(board.coord_of(i))) by {
            lemma_coord_in_range(board, i);
            let q = board.coord_of(i);
            if gid@[i] < len {
                let g = groups@[gid@[i] as int];
                assert(board.is_chain_group(g));
                let m = choose|m: int| 0 <= m < g.points@.len() && g.points@[m] == q;
                assert(board.within(g.points@[m]) && board.at(g.points@[m]) == g.team);
            }
            if board.occupied(q) {
                let k2 = choose|k2: int| 0 <= k2 < groups@.len() && #[trigger] groups@[k2].points@.contains(q);
                let m = choose|m: int| 0 <= m < groups@[k2].points@.len() && groups@[k2].points@[m] == q;
                assert(gid@[board.index_of(groups@[k2].points@[m])] != len);
            }
        }
    }
    gid
}

/// Whether `v` holds `p`.
pub fn contains_point(v: &Vec<Point>, p: Point) -> (b: bool)
    ensures
        b == v@.contains(p),
{
    let mut i: usize = 0;
    while i < v.len()
        invariant
            i <= v@.len(),
            forall|j: int| 0 <= j < i ==> v@[j] != p,
        decreases v@.len() - i,
    {
        if v[i].0 == p.0 && v[i].1 == p.1 {
            return true;
        }
        i = i + 1;
    }
    false
}

/// Two chains with the same points have the same length.
pub proof fn lemma_same_points_same_len(g: Seq<Point>, h: Seq<Point>)
    requires
        Board::<Color>::distinct(g),
        Board::<Color>::distinct(h),
        forall|q: Point| g.contains(q) <==> h.contains(q),
    ensures
        g.len() == h.len(),
{
    assert(g.no_duplicates());
    assert(h.no_duplicates());
    g.unique_seq_to_set();
    h.unique_seq_to_set();
    assert(g.to_set() =~= h.to_set());
}

/// The group of `gs` holding `p`, for a stone `p` of a board whose chains
/// are `gs`: its points are those of any chain of `p`'s colour holding `p`.
pub proof fn lemma_group_of_point(b: &Board<Color>, gs: Seq<Group>, k: int, pts: Seq<Point>, p: Point)
    requires
        b.wf(),
        b.chains_of(gs),
        0 <= k < gs.len(),
        gs[k].points@.contains(p),
        b.is_chain(pts, b.at(p)),
        pts.contains(p),
    ensures
        gs[k].team == b.at(p),
        forall|q: Point| gs[k].points@.contains(q) <==> pts.contains(q),
        gs[k].points@.len() == pts.len(),
        gs[k].liberties == b.liberty_count(pts),
{
    assert(b.is_chain_group(gs[k]));
    let j = choose|j: int| 0 <= j < gs[k].points@.len() && gs[k].points@[j] == p;
    assert(gs[k].team == b.at(p));
    lemma_chains_same_points(b, gs[k].points@, pts, b.at(p), p);
    lemma_same_points_same_len(gs[k].points@, pts);
    lemma_same_points_same_liberties(b, gs[k].points@, pts);
}

/// Chains with the same points have the same liberties.
pub proof fn lemma_same_points_same_liberties(b: &Board<Color>, g: Seq<Point>, h: Seq<Point>)
    requires
        forall|q: Point| g.contains(q) <==> h.contains(q),
    ensures
        b.liberty_count(g) == b.liberty_count(h),
{
    assert forall|i: int| 0 <= i < b.points@.len() implies b.liberty_mask(g)[i] == b.liberty_mask(h)[i] by {
        let q = b.coord_of(i);
        if b.is_liberty(g, q) {
            let j = choose|j: int| 0 <= j < g.len() && b.adjacent(g[j], q);
            assert(h.contains(g[j]));
            let k = choose|k: int| 0 <= k < h.len() && h[k] == g[j];
            assert(b.adjacent(h[k], q));
        }
        if b.is_liberty(h, q) {
            let j = choose|j: int| 0 <= j < h.len() && b.adjacent(h[j], q);
            assert(g.contains(h[j]));
            let k = choose|k: int| 0 <= k < g.len() && g[k] == h[j];
            assert(b.adjacent(g[k], q));
        }
    }
    assert(b.liberty_mask(g) =~= b.liberty_mask(h));
}

} // verus!
