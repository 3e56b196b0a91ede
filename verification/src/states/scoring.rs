use vstd::prelude::*;

use crate::game::board::{lemma_coord_in_range, lemma_index_in_range, lemma_index_injective, lemma_neighbors, BoardModel};
use crate::game::count::{count_true, lemma_count_true_bound};
use crate::game::find_groups;
use crate::game::groups::{contains_point, copy_groups, flood_group, lemma_chains_same_points, GroupModel};
use crate::game::vecs::copy_vec;
use crate::game::{ActionChange, ActionKind, Board, Color, Group, MakeActionError, Point, SharedState};
use crate::states::GameState;

verus! {

/// The team whose live stone covers `p`: the last alive group holding `p`.
pub open spec fn live_color(groups: Seq<Group>, p: Point) -> Color
    decreases groups.len(),
{
    if groups.len() == 0 {
        Color(0)
    } else if groups.last().alive && groups.last().points@.contains(p) {
        groups.last().team
    } else {
        live_color(groups.drop_last(), p)
    }
}

/// The board holding only the stones of live groups.
pub open spec fn live_view(width: u32, height: u32, toroidal: bool, groups: Seq<Group>) -> BoardModel<Color> {
    BoardModel {
        width,
        height,
        toroidal,
        points: Seq::new(
            (width * height) as nat,
            |i: int| live_color(groups, ((i % width as int) as u32, (i / width as int) as u32)),
        ),
    }
}

impl Board<Color> {
    /// The colours of stones next to `pts`.
    pub open spec fn border(&self, pts: Seq<Point>) -> Set<Color> {
        Set::new(
            |c: Color|
                c.0 != 0 && exists|j: int, q: Point|
                    0 <= j < pts.len() && #[trigger] self.adjacent(pts[j], q) && self.within(q) && self.at(q) == c,
        )
    }

    /// The team owning the empty area `pts`: the only colour next to it, or
    /// nobody (`0`) when no stone or stones of several colours touch it.
    pub open spec fn owner(&self, pts: Seq<Point>) -> Color {
        if exists|c: Color| self.border(pts) == set![c] {
            choose|c: Color| self.border(pts) == set![c]
        } else {
            Color(0)
        }
    }

    /// `v` is what scoring shows at `p`: the stone itself, or for an empty
    /// point the owner of the empty area around it.
    pub open spec fn scored_point(&self, p: Point, v: Color) -> bool {
        if self.at(p).0 != 0 {
            v == self.at(p)
        } else {
            &&& exists|pts: Seq<Point>| self.is_chain(pts, Color(0)) && pts.contains(p)
            &&& forall|pts: Seq<Point>| self.is_chain(pts, Color(0)) && pts.contains(p) ==> v == #[trigger] self.owner(pts)
        }
    }

    /// For each of the first `k` points, whether it shows team `team`.
    pub open spec fn color_mask(&self, team: int, k: nat) -> Seq<bool> {
        Seq::new(k, |j: int| self.points@[j].0 == team)
    }

    /// Number of points showing team `team`.
    pub open spec fn count_color(&self, team: int) -> nat {
        count_true(self.color_mask(team, self.points@.len()))
    }
}

/// `result` is the scored board for `groups`: live stones stay, every empty
/// area touched by one colour only belongs to it.
pub open spec fn scored_board(width: u32, height: u32, toroidal: bool, groups: Seq<Group>, result: Board<Color>) -> bool {
    &&& result.wf()
    &&& result.width == width
    &&& result.height == height
    &&& result.toroidal == toroidal
    &&& exists|live: Board<Color>|
        live@ == live_view(width, height, toroidal, groups) && forall|p: Point|
            live.within(p) ==> live.scored_point(p, #[trigger] result.at(p))
}

/// Equal point sets have equal borders and owners.
proof fn lemma_same_points_same_owner(b: &Board<Color>, g: Seq<Point>, h: Seq<Point>)
    requires
        forall|q: Point| g.contains(q) <==> h.contains(q),
    ensures
        b.border(g) == b.border(h),
        b.owner(g) == b.owner(h),
{
    assert forall|c: Color| b.border(g).contains(c) implies b.border(h).contains(c) by {
        let (j, q) = choose|j: int, q: Point| 0 <= j < g.len() && #[trigger] b.adjacent(g[j], q) && b.within(q) && b.at(q) == c;
        assert(h.contains(g[j]));
        let k = choose|k: int| 0 <= k < h.len() && h[k] == g[j];
        assert(b.adjacent(h[k], q));
    }
    assert forall|c: Color| b.border(h).contains(c) implies b.border(g).contains(c) by {
        let (j, q) = choose|j: int, q: Point| 0 <= j < h.len() && #[trigger] b.adjacent(h[j], q) && b.within(q) && b.at(q) == c;
        assert(g.contains(h[j]));
        let k = choose|k: int| 0 <= k < g.len() && g[k] == h[j];
        assert(b.adjacent(g[k], q));
    }
    assert(b.border(g) =~= b.border(h));
}

/// Colours met so far while walking around an empty area.
enum SeenTeams {
    Zero,
    One(Color),
    Many,
}

/// The owner of the area `pts` (see `owner`).
fn region_owner(board: &Board<Color>, pts: &Vec<Point>) -> (o: Color)
    requires
        board.wf(),
        forall|j: int| 0 <= j < pts@.len() ==> board.within(#[trigger] pts@[j]),
    ensures
        o == board.owner(pts@),
{
    let ghost border = board.border(pts@);
    let ghost mut acc: Set<Color> = Set::empty();
    let mut state = SeenTeams::Zero;
    let mut j: usize = 0;
    while j < pts.len()
        invariant
            board.wf(),
            forall|jj: int| 0 <= jj < pts@.len() ==> board.within(#[trigger] pts@[jj]),
            border == board.border(pts@),
            j <= pts@.len(),
            acc.subset_of(border),
            forall|jj: int, q: Point|
                0 <= jj < j && #[trigger] board.adjacent(pts@[jj], q) && board.within(q) && board.at(q).0 != 0 ==> acc.contains(board.at(q)),
            match state {
                SeenTeams::Zero => acc == Set::<Color>::empty(),
                SeenTeams::One(c) => acc == set![c],
                SeenTeams::Many => exists|c1: Color, c2: Color| c1 != c2 && acc.contains(c1) && acc.contains(c2),
            },
        decreases pts@.len() - j,
    {
        let p = pts[j];
        let nbrs = board.surrounding_points(p);
        proof {
            lemma_neighbors(board, p);
        }
        let mut k: usize = 0;
        while k < nbrs.len()
            invariant
                board.wf(),
                forall|jj: int| 0 <= jj < pts@.len() ==> board.within(#[trigger] pts@[jj]),
                border == board.border(pts@),
                j < pts@.len(),
                p == pts@[j as int],
                nbrs@ == board.neighbors(p),
                forall|q: Point| #[trigger] board.neighbors(p).contains(q) ==> board.within(q),
                k <= nbrs@.len(),
                acc.subset_of(border),
                forall|jj: int, q: Point|
                    0 <= jj < j && #[trigger] board.adjacent(pts@[jj], q) && board.within(q) && board.at(q).0 != 0 ==> acc.contains(board.at(q)),
                forall|m: int| 0 <= m < k && board.at(#[trigger] nbrs@[m]).0 != 0 ==> acc.contains(board.at(nbrs@[m])),
                match state {
                    SeenTeams::Zero => acc == Set::<Color>::empty(),
                    SeenTeams::One(c) => acc == set![c],
                    SeenTeams::Many => exists|c1: Color, c2: Color| c1 != c2 && acc.contains(c1) && acc.contains(c2),
                },
            decreases nbrs@.len() - k,
        {
            let q = nbrs[k];
            proof {
                assert(board.neighbors(p).contains(q));
            }
            let c = board.get_point(q);
            if c.0 != 0 {
                let ghost old_acc = acc;
                proof {
                    assert(board.adjacent(pts@[j as int], q));
                    assert(border.contains(c));
                    acc = acc.insert(c);
                    if let SeenTeams::Many = state {
                        let (c1, c2) = choose|c1: Color, c2: Color| c1 != c2 && old_acc.contains(c1) && old_acc.contains(c2);
                        assert(acc.contains(c1) && acc.contains(c2));
                    }
                }
                state = match state {
                    SeenTeams::Zero => SeenTeams::One(c),
                    SeenTeams::One(x) => {
                        if x == c {
                            SeenTeams::One(x)
                        } else {
                            proof {
                                assert(acc.contains(x) && acc.contains(c));
                            }
                            SeenTeams::Many
                        }
                    },
                    SeenTeams::Many => SeenTeams::Many,
                };
                proof {
                    if let SeenTeams::One(x) = state {
                        assert(acc =~= set![x]);
                    }
                }
            }
            k = k + 1;
        }
        proof {
            assert forall|jj: int, q: Point| 0 <= jj < j + 1 && #[trigger] board.adjacent(pts@[jj], q) && board.within(q) && board.at(q).0 != 0 implies acc.contains(board.at(q)) by {
                if jj == j {
                    let m = choose|m: int| 0 <= m < nbrs@.len() && nbrs@[m] == q;
                }
            }
        }
        j = j + 1;
    }
    proof {
        assert forall|c: Color| border.contains(c) implies acc.contains(c) by {
            let (jj, q) = choose|jj: int, q: Point| 0 <= jj < pts@.len() && #[trigger] board.adjacent(pts@[jj], q) && board.within(q) && board.at(q) == c;
        }
        assert(acc =~= border);
    }
    match state {
        SeenTeams::Zero => {
            proof {
                if exists|c: Color| border == set![c] {
                    let c = choose|c: Color| border == set![c];
                    assert(border.contains(c));
                }
            }
            Color(0)
        },
        SeenTeams::One(c) => {
            proof {
                let c2 = choose|c2: Color| border == set![c2];
                assert(border.contains(c));
            }
            c
        },
        SeenTeams::Many => {
            proof {
                if exists|c: Color| border == set![c] {
                    let c = choose|c: Color| border == set![c];
                    let (c1, c2) = choose|c1: Color, c2: Color| c1 != c2 && acc.contains(c1) && acc.contains(c2);
                    assert(border.contains(c1) && border.contains(c2));
                }
            }
            Color(0)
        },
    }
}

/// Index `i` is the index of one of the first `j` points of `pts`.
spec fn indexed_among(b: &Board<Color>, pts: Seq<Point>, j: int, i: int) -> bool {
    exists|jj: int| 0 <= jj < j && b.index_of(pts[jj]) == i
}

/// The board with the stones of the live groups.
fn paint_live(width: u32, height: u32, toroidal: bool, groups: &[Group]) -> (live: Board<Color>)
    requires
        width < 0x4000_0000,
        height < 0x4000_0000,
        width * height <= i32::MAX,
        forall|k: int, j: int|
            0 <= k < groups@.len() && 0 <= j < groups@[k].points@.len() ==> (#[trigger] groups@[k].points@[j]).0 < width
                && groups@[k].points@[j].1 < height,
    ensures
        live.wf(),
        live@ == live_view(width, height, toroidal, groups@),
{
    let mut live = Board::<Color>::empty(width, height, toroidal);
    let ghost n = live.points@.len();
    let mut k: usize = 0;
    while k < groups.len()
        invariant
            live.wf(),
            live.width == width,
            live.height == height,
            live.toroidal == toroidal,
            live.points@.len() == n,
            n == width * height,
            k <= groups@.len(),
            forall|k2: int, j: int|
                0 <= k2 < groups@.len() && 0 <= j < groups@[k2].points@.len() ==> (#[trigger] groups@[k2].points@[j]).0 < width
                    && groups@[k2].points@[j].1 < height,
            forall|i: int| 0 <= i < n ==> live.points@[i] == live_color(groups@.take(k as int), live.coord_of(i)),
        decreases groups@.len() - k,
    {
        let g = &groups[k];
        let ghost before = live.points@;
        if g.alive {
            let mut j: usize = 0;
            while j < g.points.len()
                invariant
                    live.wf(),
                    live.width == width,
                    live.height == height,
                    live.toroidal == toroidal,
                    live.points@.len() == n,
                    k < groups@.len(),
                    *g == groups@[k as int],
                    j <= g.points@.len(),
                    forall|jj: int| 0 <= jj < g.points@.len() ==> live.within(#[trigger] g.points@[jj]),
                    forall|i: int|
                        0 <= i < n ==> live.points@[i] == if exists|jj: int| 0 <= jj < j && live.index_of(g.points@[jj]) == i {
                            g.team
                        } else {
                            before[i]
                        },
                decreases g.points@.len() - j,
            {
                let p = g.points[j];
                proof {
                    assert(live.within(g.points@[j as int]));
                    lemma_index_in_range(&live, p);
                }
                let ghost prev = live.points@;
                live.set_point(p, g.team);
                proof {
                    assert forall|i: int| 0 <= i < n implies live.points@[i] == if exists|jj: int| 0 <= jj < j + 1 && live.index_of(g.points@[jj]) == i {
                        g.team
                    } else {
                        before[i]
                    } by {
                        if i == live.index_of(p) {
                            assert(live.index_of(g.points@[j as int]) == i);
                        } else {
                            if exists|jj: int| 0 <= jj < j + 1 && live.index_of(g.points@[jj]) == i {
                                let jj = choose|jj: int| 0 <= jj < j + 1 && live.index_of(g.points@[jj]) == i;
                                assert(jj != j);
                            }
                        }
                    }
                }
                j = j + 1;
            }
        }
        proof {
            let t = groups@.take(k + 1);
            assert(t.drop_last() =~= groups@.take(k as int));
            assert(t.last() == groups@[k as int]);
            assert forall|i: int| 0 <= i < n implies live.points@[i] == live_color(groups@.take(k + 1), live.coord_of(i)) by {
                lemma_coord_in_range(&live, i);
                let q = live.coord_of(i);
                if g.alive {
                    if g.points@.contains(q) {
                        let jj = choose|jj: int| 0 <= jj < g.points@.len() && g.points@[jj] == q;
                        assert(live.index_of(g.points@[jj]) == i);
                    } else {
                        if exists|jj: int| 0 <= jj < g.points@.len() && live.index_of(g.points@[jj]) == i {
                            let jj = choose|jj: int| 0 <= jj < g.points@.len() && live.index_of(g.points@[jj]) == i;
                            lemma_index_injective(&live, g.points@[jj], q);
                        }
                    }
                }
            }
        }
        k = k + 1;
    }
    proof {
        assert(groups@.take(groups@.len() as int) =~= groups@);
        assert(live.points@ =~= live_view(width, height, toroidal, groups@).points);
    }
    live
}

/// Scores a board by Chinese rules: live stones stay, and every empty area
/// touched by stones of one colour only becomes that colour's territory.
pub fn score_board(width: u32, height: u32, toroidal: bool, groups: &[Group]) -> (b: Board<Color>)
    requires
        width < 0x4000_0000,
        height < 0x4000_0000,
        width * height <= i32::MAX,
        forall|k: int, j: int|
            0 <= k < groups@.len() && 0 <= j < groups@[k].points@.len() ==> (#[trigger] groups@[k].points@[j]).0 < width
                && groups@[k].points@[j].1 < height,
    ensures
        scored_board(width, height, toroidal, groups@, b),
{
    let live = paint_live(width, height, toroidal, groups);
    let mut result = live.copy();
    let n = live.points.len();
    let mut assigned: Vec<bool> = Vec::new();
    let mut i: usize = 0;
    while i < n
        invariant
            i <= n,
            n == live.points@.len(),
            assigned@.len() == i,
            forall|k: int| 0 <= k < i ==> !assigned@[k],
        decreases n - i,
    {
        assigned.push(false);
        i = i + 1;
    }
    let mut idx: usize = n;
    while idx > 0
        invariant
            live.wf(),
            result.wf(),
            result.width == live.width,
            result.height == live.height,
            result.toroidal == live.toroidal,
            n == live.points@.len(),
            assigned@.len() == n,
            idx <= n,
            forall|i: int| 0 <= i < n && live.points@[i].0 != 0 ==> result.points@[i] == live.points@[i],
            forall|i: int| 0 <= i < n && live.points@[i].0 == 0 && !assigned@[i] ==> result.points@[i].0 == 0,
            forall|i: int|
                0 <= i < n && live.points@[i].0 == 0 && #[trigger] assigned@[i] ==> live.scored_point(live.coord_of(i), result.points@[i]),
            forall|i: int| idx <= i < n && live.points@[i].0 == 0 ==> #[trigger] assigned@[i],
        decreases idx,
    {
        idx = idx - 1;
        if live.points[idx].0 == 0 && !assigned[idx] {
            proof {
                lemma_coord_in_range(&live, idx as int);
            }
            let start = (idx as u32 % live.width, idx as u32 / live.width);
            let region = flood_group(&live, start);
            let ghost rp = region.points@;
            let o = region_owner(&live, &region.points);
            proof {
                assert(region.team == Color(0));
            }
            let ghost before_result = result.points@;
            let ghost before_assigned = assigned@;
            let mut j: usize = 0;
            while j < region.points.len()
                invariant
                    live.wf(),
                    result.wf(),
                    result.width == live.width,
                    result.height == live.height,
                    result.toroidal == live.toroidal,
                    n == live.points@.len(),
                    assigned@.len() == n,
                    rp == region.points@,
                    j <= rp.len(),
                    live.is_chain(rp, Color(0)),
                    before_result.len() == n,
                    before_assigned.len() == n,
                    forall|i: int|
                        0 <= i < n && #[trigger] indexed_among(&live, rp, j as int, i) ==> assigned@[i] && (o.0 != 0 ==> result.points@[i] == o) && (o.0 == 0 ==> result.points@[i] == before_result[i]),
                    forall|i: int|
                        0 <= i < n && !#[trigger] indexed_among(&live, rp, j as int, i) ==> assigned@[i] == before_assigned[i] && result.points@[i] == before_result[i],
                decreases rp.len() - j,
            {
                let p = region.points[j];
                proof {
                    lemma_index_in_range(&live, p);
                }
                let ghost prev_result = result.points@;
                let ghost prev_assigned = assigned@;
                if o.0 != 0 {
                    result.set_point(p, o);
                }
                let pi = (p.1 * live.width + p.0) as usize;
                assigned.set(pi, true);
                proof {
                    assert forall|i: int| 0 <= i < n implies (indexed_among(&live, rp, j + 1, i) <==> (indexed_among(&live, rp, j as int, i) || i == pi)) by {
                        if i == pi {
                            assert(live.index_of(rp[j as int]) == i);
                        }
                        if indexed_among(&live, rp, j + 1, i) && i != pi {
                            let jj = choose|jj: int| 0 <= jj < j + 1 && live.index_of(rp[jj]) == i;
                            assert(jj != j);
                        }
                    }
                    if indexed_among(&live, rp, j as int, pi as int) {
                        let jj = choose|jj: int| 0 <= jj < j && live.index_of(rp[jj]) == pi;
                        lemma_index_injective(&live, rp[jj], rp[j as int]);
                    }
                    assert forall|i: int| 0 <= i < n && #[trigger] indexed_among(&live, rp, j + 1, i) implies assigned@[i] && (o.0 != 0 ==> result.points@[i] == o) && (o.0 == 0 ==> result.points@[i] == before_result[i]) by {
                        if i != pi {
                            assert(indexed_among(&live, rp, j as int, i));
                        }
                    }
                    assert forall|i: int| 0 <= i < n && !#[trigger] indexed_among(&live, rp, j + 1, i) implies assigned@[i] == before_assigned[i] && result.points@[i] == before_result[i] by {
                        assert(!indexed_among(&live, rp, j as int, i));
                    }
                }
                j = j + 1;
            }
            proof {
                assert forall|i: int|
                    0 <= i < n && live.points@[i].0 == 0 && #[trigger] assigned@[i] implies live.scored_point(live.coord_of(i), result.points@[i]) by {
                    lemma_coord_in_range(&live, i);
                    let q = live.coord_of(i);
                    if indexed_among(&live, rp, rp.len() as int, i) {
                        let jj = choose|jj: int| 0 <= jj < rp.len() && live.index_of(rp[jj]) == i;
                        lemma_index_injective(&live, rp[jj], q);
                        assert(rp.contains(q));
                        assert forall|pts: Seq<Point>| live.is_chain(pts, Color(0)) && pts.contains(q) implies result.points@[i] == #[trigger] live.owner(pts) by {
                            lemma_chains_same_points(&live, pts, rp, Color(0), q);
                            lemma_same_points_same_owner(&live, pts, rp);
                            if o.0 == 0 {
                                if before_assigned[i] {
                                    assert(live.scored_point(q, before_result[i]));
                                } else {
                                    assert(before_result[i].0 == 0);
                                }
                            }
                        }
                    } else {
                        assert(result.points@[i] == before_result[i]);
                        assert(before_assigned[i]);
                    }
                }
                assert forall|i: int| idx <= i < n && live.points@[i].0 == 0 implies #[trigger] assigned@[i] by {
                    if i == idx {
                        assert(live.index_of(rp[0]) == i);
                        assert(indexed_among(&live, rp, rp.len() as int, i));
                    } else if !indexed_among(&live, rp, rp.len() as int, i) {
                        assert(result.points@[i] == before_result[i]);
                    }
                }
                assert forall|i: int| 0 <= i < n && live.points@[i].0 == 0 && !assigned@[i] implies result.points@[i].0 == 0 by {
                    if !indexed_among(&live, rp, rp.len() as int, i) {
                        assert(result.points@[i] == before_result[i]);
                    }
                }
                assert forall|i: int| 0 <= i < n && live.points@[i].0 != 0 implies result.points@[i] == live.points@[i] by {
                    if indexed_among(&live, rp, rp.len() as int, i) {
                        let jj = choose|jj: int| 0 <= jj < rp.len() && live.index_of(rp[jj]) == i;
                        assert(live.at(rp[jj]) == Color(0));
                    } else {
                        assert(result.points@[i] == before_result[i]);
                    }
                }
            }
        }
    }
    proof {
        assert forall|p: Point| live.within(p) implies live.scored_point(p, #[trigger] result.at(p)) by {
            lemma_index_in_range(&live, p);
            let i = live.index_of(p);
            if live.points@[i].0 == 0 {
                assert(assigned@[i]);
            }
        }
    }
    result
}

} // verus!

verus! {

/// The scoring phase: the groups with their life marks, the scored board,
/// the scores, and who accepted them.
#[derive(Debug)]
pub struct ScoringState {
    pub groups: Vec<Group>,
    /// Vector of the board, marking who owns a point
    pub points: Board<Color>,
    pub scores: Vec<i32>,
    pub players_accepted: Vec<bool>,
}

/// What a scoring state holds.
pub struct ScoringModel {
    pub groups: Seq<GroupModel>,
    pub points: BoardModel<Color>,
    pub scores: Seq<i32>,
    pub players_accepted: Seq<bool>,
}

impl View for ScoringState {
    type V = ScoringModel;

    open spec fn view(&self) -> ScoringModel {
        ScoringModel {
            groups: self.groups@.map_values(|g: Group| g@),
            points: self.points@,
            scores: self.scores@,
            players_accepted: self.players_accepted@,
        }
    }
}

impl ScoringState {
    /// A copy of the state.
    pub fn copy(&self) -> (s: ScoringState)
        ensures
            s@ == self@,
    {
        let groups = copy_groups(&self.groups);
        let s = ScoringState {
            groups,
            points: self.points.copy(),
            scores: copy_vec(&self.scores),
            players_accepted: copy_vec(&self.players_accepted),
        };
        proof {
            assert(s.groups@.map_values(|g: Group| g@) =~= self.groups@.map_values(|g: Group| g@));
        }
        s
    }
}

/// `base` plus two points for every point of the scored board that shows
/// each team.
pub open spec fn add_territory(base: Seq<i32>, b: Board<Color>) -> Seq<i32> {
    Seq::new(base.len(), |i: int| (base[i] + 2 * b.count_color(i + 1)) as i32)
}

/// Adding two points per board point to any score stays in range.
pub open spec fn territory_fits(base: Seq<i32>, n: nat) -> bool {
    forall|i: int| 0 <= i < base.len() ==> base[i] + 2 * n <= i32::MAX
}

proof fn lemma_live_color_bounded(groups: Seq<Group>, p: Point, k: int)
    requires
        forall|j: int| 0 <= j < groups.len() ==> (#[trigger] groups[j]).team.0 <= k,
    ensures
        live_color(groups, p).0 <= k || live_color(groups, p).0 == 0,
    decreases groups.len(),
{
    if groups.len() > 0 {
        lemma_live_color_bounded(groups.drop_last(), p, k);
    }
}

/// Every colour on a scored board is a colour of some group.
pub proof fn lemma_scored_colors_bounded(w: u32, h: u32, tor: bool, groups: Seq<Group>, result: Board<Color>, k: int)
    requires
        scored_board(w, h, tor, groups, result),
        k >= 0,
        forall|j: int| 0 <= j < groups.len() ==> (#[trigger] groups[j]).team.0 <= k,
    ensures
        forall|i: int| 0 <= i < result.points@.len() ==> (#[trigger] result.points@[i]).0 <= k,
{
    let live = choose|live: Board<Color>|
        live@ == live_view(w, h, tor, groups) && forall|p: Point| live.within(p) ==> live.scored_point(p, #[trigger] result.at(p));
    assert forall|q: Point| live.within(q) implies live.at(q).0 <= k by {
        lemma_index_in_range(&live, q);
        lemma_live_color_bounded(groups, q, k);
    }
    assert forall|i: int| 0 <= i < result.points@.len() implies (#[trigger] result.points@[i]).0 <= k by {
        lemma_coord_in_range(&result, i);
        let p = result.coord_of(i);
        assert(live.within(p));
        assert(live.scored_point(p, result.at(p)));
        if live.at(p).0 == 0 {
            let pts = choose|pts: Seq<Point>| live.is_chain(pts, Color(0)) && pts.contains(p);
            assert(result.at(p) == live.owner(pts));
            if exists|c: Color| live.border(pts) == set![c] {
                let c = choose|c: Color| live.border(pts) == set![c];
                assert(live.border(pts).contains(c));
                let (j, q) = choose|j: int, q: Point| 0 <= j < pts.len() && #[trigger] live.adjacent(pts[j], q) && live.within(q) && live.at(q) == c;
            }
        }
    }
}

/// A copy of a slice of scores.
fn copy_slice(s: &[i32]) -> (r: Vec<i32>)
    ensures
        r@ == s@,
{
    let mut r: Vec<i32> = Vec::new();
    let mut i: usize = 0;
    while i < s.len()
        invariant
            i <= s@.len(),
            r@ == s@.subrange(0, i as int),
        decreases s@.len() - i,
    {
        r.push(s[i]);
        i = i + 1;
    }
    proof {
        assert(r@ =~= s@);
    }
    r
}

proof fn lemma_color_mask_step(b: Board<Color>, t: int, k: nat)
    requires
        k < b.points@.len(),
    ensures
        count_true(b.color_mask(t, k + 1)) == count_true(b.color_mask(t, k)) + if b.points@[k as int].0 == t {
            1nat
        } else {
            0nat
        },
        count_true(b.color_mask(t, k)) <= k,
{
    assert(b.color_mask(t, k + 1).drop_last() =~= b.color_mask(t, k));
    lemma_count_true_bound(b.color_mask(t, k));
}

/// `base` plus the territory and stones of `result` (see `add_territory`).
fn territory_scores(base: Vec<i32>, result: &Board<Color>) -> (r: Vec<i32>)
    requires
        result.wf(),
        forall|i: int| 0 <= i < result.points@.len() ==> (#[trigger] result.points@[i]).0 <= base@.len(),
        territory_fits(base@, result.points@.len()),
    ensures
        r@ == add_territory(base@, *result),
{
    let ghost b0 = base@;
    let mut scores = base;
    let n = result.points.len();
    let mut idx: usize = 0;
    while idx < n
        invariant
            result.wf(),
            n == result.points@.len(),
            idx <= n,
            forall|i: int| 0 <= i < n ==> (#[trigger] result.points@[i]).0 <= b0.len(),
            territory_fits(b0, n as nat),
            scores@ == Seq::new(b0.len(), |i: int| (b0[i] + 2 * count_true(result.color_mask(i + 1, idx as nat))) as i32),
        decreases n - idx,
    {
        let c = result.points[idx];
        let ghost prev = scores@;
        proof {
            assert forall|i: int| 0 <= i < b0.len() implies count_true(#[trigger] result.color_mask(i + 1, (idx + 1) as nat))
                == count_true(result.color_mask(i + 1, idx as nat)) + if result.points@[idx as int].0 == i + 1 {
                    1nat
                } else {
                    0nat
                } && count_true(result.color_mask(i + 1, idx as nat)) <= idx by {
                lemma_color_mask_step(*result, i + 1, idx as nat);
            }
        }
        if c.0 != 0 {
            let t = (c.0 - 1) as usize;
            proof {
                assert(count_true(result.color_mask(t + 1, idx as nat)) <= idx) by {
                    lemma_color_mask_step(*result, t + 1, idx as nat);
                }
            }
            let v = scores[t] + 2;
            scores.set(t, v);
        }
        proof {
            assert forall|i: int| 0 <= i < b0.len() implies scores@[i] == (b0[i] + 2 * count_true(result.color_mask(i + 1, (idx + 1) as nat))) as i32 by {
                lemma_color_mask_step(*result, i + 1, idx as nat);
                assert(prev[i] == (b0[i] + 2 * count_true(result.color_mask(i + 1, idx as nat))) as i32);
            }
            assert(scores@ =~= Seq::new(b0.len(), |i: int| (b0[i] + 2 * count_true(result.color_mask(i + 1, (idx + 1) as nat))) as i32));
        }
        idx = idx + 1;
    }
    proof {
        assert(scores@ =~= add_territory(b0, *result));
    }
    scores
}

impl ScoringState {
    /// Scores `board`: finds its groups (all alive), scores the board, adds
    /// the territory to `scores`, and waits for every seat to accept.
    pub fn new(board: &Board<Color>, seat_count: usize, scores: &[i32]) -> (s: ScoringState)
        requires
            board.wf(),
            forall|i: int| 0 <= i < board.points@.len() ==> (#[trigger] board.points@[i]).0 <= scores@.len(),
            territory_fits(scores@, board.points@.len()),
        ensures
            crate::game::groups::found_groups(*board, s.groups@),
            scored_board(board.width, board.height, board.toroidal, s.groups@, s.points),
            s.scores@ == add_territory(scores@, s.points),
            s.players_accepted@ == Seq::new(seat_count as nat, |i: int| false),
    {
        let groups = find_groups(board);
        proof {
            assert forall|k: int, j: int|
                0 <= k < groups@.len() && 0 <= j < groups@[k].points@.len() implies (#[trigger] groups@[k].points@[j]).0 < board.width
                    && groups@[k].points@[j].1 < board.height by {
                assert(board.is_group(groups@[k]));
            }
            assert forall|j: int| 0 <= j < groups@.len() implies (#[trigger] groups@[j]).team.0 <= scores@.len() by {
                assert(board.is_group(groups@[j]));
                let p = groups@[j].points@[0];
                lemma_index_in_range(board, p);
            }
        }
        let points = score_board(board.width, board.height, board.toroidal, groups.as_slice());
        proof {
            lemma_scored_colors_bounded(board.width, board.height, board.toroidal, groups@, points, scores@.len() as int);
        }
        let scores = territory_scores(copy_slice(scores), &points);
        ScoringState { groups, points, scores, players_accepted: crate::game::vecs::repeat(false, seat_count) }
    }
}

impl ScoringState {
    /// The state is the fresh scoring of `board` for `seat_count` seats from
    /// the scores `scores`: the groups of the board as `find_groups` gives
    /// them (see `found_groups`), all alive, the board scored from them, its
    /// territory added, and no acceptance yet.
    pub open spec fn scores_position(&self, board: Board<Color>, seat_count: nat, scores: Seq<i32>) -> bool {
        &&& crate::game::groups::found_groups(board, self.groups@)
        &&& scored_board(board.width, board.height, board.toroidal, self.groups@, self.points)
        &&& self.scores@ == add_territory(scores, self.points)
        &&& self.players_accepted@ == Seq::new(seat_count, |i: int| false)
    }
}

/// `g` with its life mark flipped.
pub open spec fn toggled(g: GroupModel) -> GroupModel {
    GroupModel { alive: !g.alive, ..g }
}

/// Flipping, during scoring, the life mark of the group at `point` (if
/// any): the board is rescored from the game's points and every acceptance
/// is cleared.
pub open spec fn mark_action(s0: ScoringState, sh: SharedState, point: Point, s1: ScoringState, r: Result<ActionChange, MakeActionError>) -> bool {
    &&& r matches Ok(ActionChange::NoChange)
    &&& !(exists|k: int| 0 <= k < s0.groups@.len() && s0.groups@[k].points@.contains(point)) ==> s1@
        == s0@
    &&& (exists|k: int| 0 <= k < s0.groups@.len() && s0.groups@[k].points@.contains(point)) ==> {
        &&& s1.groups@.len() == s0.groups@.len()
        &&& forall|k: int|
            0 <= k < s0.groups@.len() ==> (#[trigger] s1.groups@[k])@ == if s0.groups@[k].points@.contains(point) {
                toggled(s0.groups@[k]@)
            } else {
                s0.groups@[k]@
            }
        &&& s1.scores@ == add_territory(sh.points@, s1.points)
        &&& s1.players_accepted@ == Seq::new(s0.players_accepted@.len(), |i: int| false)
    }
}

/// Accepting the score: every seat the player holds accepts; once every
/// seat accepted, the game is done with this score.
pub open spec fn accept_action(s0: ScoringState, sh: SharedState, player_id: u64, s1: ScoringState, r: Result<ActionChange, MakeActionError>) -> bool {
    &&& s1.groups == s0.groups
    &&& s1.points == s0.points
    &&& s1.scores == s0.scores
    &&& s1.players_accepted@ == Seq::new(
        s0.players_accepted@.len(),
        |i: int| s0.players_accepted@[i] || sh.seats@[i].player == Some(player_id),
    )
    &&& (forall|i: int| 0 <= i < s1.players_accepted@.len() ==> s1.players_accepted@[i]) ==> (r matches Ok(
        ActionChange::SwapState(GameState::Done(s)),
    ) && s@ == s1@)
    &&& !(forall|i: int| 0 <= i < s1.players_accepted@.len() ==> s1.players_accepted@[i]) ==> r matches Ok(ActionChange::NoChange)
}

/// An action of `player_id` during scoring: Place flips a group's life
/// mark, Pass accepts the score, Cancel goes back to play; resigning is not
/// an action of this phase.
pub open spec fn scoring_step(s0: ScoringState, sh: SharedState, player_id: u64, action: ActionKind, s1: ScoringState, r: Result<ActionChange, MakeActionError>) -> bool {
    match action {
        ActionKind::Place(x, y) => mark_action(s0, sh, (x, y), s1, r),
        ActionKind::Pass => accept_action(s0, sh, player_id, s1, r),
        ActionKind::Cancel => (r matches Ok(ActionChange::PopState)) && s1@ == s0@,
        ActionKind::Resign => r == Err::<ActionChange, MakeActionError>(MakeActionError::Illegal) && s1@ == s0@,
    }
}

impl ScoringState {
    /// The scoring state belongs to the game: its groups are the chains of
    /// the board, its board is scored from them, and it has one acceptance
    /// flag per seat and one score per team.
    pub open spec fn fits(&self, shared: &SharedState) -> bool {
        &&& shared.board.chains_of(self.groups@)
        &&& scored_board(shared.board.width, shared.board.height, shared.board.toroidal, self.groups@, self.points)
        &&& self.players_accepted@.len() == shared.seats@.len()
        &&& self.scores@.len() == shared.points@.len()
    }

    /// Flips the life mark of the group at `point` (if any), rescores the
    /// board from the game's points and clears every acceptance.
    pub fn make_action_place(&mut self, shared: &mut SharedState, point: Point) -> (r: Result<ActionChange, MakeActionError>)
        requires
            old(shared).wf(),
            old(self).fits(&*old(shared)),
            territory_fits(old(shared).points@, old(shared).board.points@.len()),
        ensures
            *final(shared) == *old(shared),
            final(self).fits(&*final(shared)),
            mark_action(*old(self), *old(shared), point, *final(self), r),
    {
        let mut k: usize = 0;
        while k < self.groups.len()
            invariant
                k <= self.groups@.len(),
                *self == *old(self),
                *shared == *old(shared),
                forall|j: int| 0 <= j < k ==> !self.groups@[j].points@.contains(point),
            ensures
                k <= self.groups@.len(),
                *self == *old(self),
                *shared == *old(shared),
                forall|j: int| 0 <= j < k ==> !self.groups@[j].points@.contains(point),
                k < self.groups@.len() ==> self.groups@[k as int].points@.contains(point),
            decreases self.groups@.len() - k,
        {
            if contains_point(&self.groups[k].points, point) {
                break;
            }
            k = k + 1;
        }
        if k == self.groups.len() {
            return Ok(ActionChange::NoChange);
        }
        let ghost old_groups = self.groups@;
        let mut g = self.groups[k].copy();
        g.alive = !g.alive;
        self.groups.set(k, g);
        proof {
            assert forall|j: int| 0 <= j < old_groups.len() implies (#[trigger] self.groups@[j])@ == if old_groups[j].points@.contains(point) {
                toggled(old_groups[j]@)
            } else {
                old_groups[j]@
            } by {
                if j != k && old_groups[j].points@.contains(point) {
                    assert(old_groups[k as int].points@.contains(point));
                    assert(shared.board.chains_of(old_groups));
                }
            }
            assert(shared.board.chains_of(self.groups@)) by {
                assert forall|j: int| 0 <= j < self.groups@.len() implies shared.board.is_chain_group(#[trigger] self.groups@[j]) by {
                    assert(shared.board.is_chain_group(old_groups[j]));
                }
                assert forall|k1: int, k2: int, p: Point|
                    0 <= k1 < self.groups@.len() && 0 <= k2 < self.groups@.len() && k1 != k2 && #[trigger] self.groups@[k1].points@.contains(p)
                        implies !#[trigger] self.groups@[k2].points@.contains(p) by {
                    assert(self.groups@[k1].points@ == old_groups[k1].points@);
                    assert(self.groups@[k2].points@ == old_groups[k2].points@);
                }
                assert forall|p: Point| #[trigger] shared.board.occupied(p) implies exists|j: int| 0 <= j < self.groups@.len() && #[trigger] self.groups@[j].points@.contains(p) by {
                    let j = choose|j: int| 0 <= j < old_groups.len() && #[trigger] old_groups[j].points@.contains(p);
                    assert(self.groups@[j].points@ == old_groups[j].points@);
                }
                assert forall|k1: int, k2: int|
                    0 <= k1 < k2 < self.groups@.len() implies shared.board.index_of(#[trigger] self.groups@[k1].points@[0]) > shared.board.index_of(#[trigger] self.groups@[k2].points@[0]) by {
                    assert(self.groups@[k1].points@ == old_groups[k1].points@);
                    assert(self.groups@[k2].points@ == old_groups[k2].points@);
                }
            }
            assert forall|k2: int, j: int|
                0 <= k2 < self.groups@.len() && 0 <= j < self.groups@[k2].points@.len() implies (#[trigger] self.groups@[k2].points@[j]).0 < shared.board.width
                    && self.groups@[k2].points@[j].1 < shared.board.height by {
                assert(shared.board.is_chain_group(self.groups@[k2]));
            }
            assert forall|j: int| 0 <= j < self.groups@.len() implies (#[trigger] self.groups@[j]).team.0 <= shared.points@.len() by {
                assert(shared.board.is_chain_group(self.groups@[j]));
                let p = self.groups@[j].points@[0];
                lemma_index_in_range(&shared.board, p);
            }
        }
        let points = score_board(shared.board.width, shared.board.height, shared.board.toroidal, self.groups.as_slice());
        proof {
            lemma_scored_colors_bounded(shared.board.width, shared.board.height, shared.board.toroidal, self.groups@, points, shared.points@.len() as int);
        }
        self.scores = territory_scores(copy_vec(&shared.points), &points);
        self.points = points;
        self.players_accepted = crate::game::vecs::repeat(false, self.players_accepted.len());
        Ok(ActionChange::NoChange)
    }

    /// Marks every seat the player holds as accepting the score; once every
    /// seat accepted, the game is done with this score.
    pub fn make_action_pass(&mut self, shared: &mut SharedState, player_id: u64) -> (r: Result<ActionChange, MakeActionError>)
        requires
            old(self).players_accepted@.len() == old(shared).seats@.len(),
        ensures
            *final(shared) == *old(shared),
            accept_action(*old(self), *old(shared), player_id, *final(self), r),
    {
        let ghost old_acc = self.players_accepted@;
        let mut i: usize = 0;
        while i < shared.seats.len()
            invariant
                i <= shared.seats@.len(),
                self.players_accepted@.len() == shared.seats@.len(),
                forall|j: int| 0 <= j < i ==> #[trigger] self.players_accepted@[j] == (old_acc[j] || shared.seats@[j].player == Some(player_id)),
                forall|j: int| i <= j < shared.seats@.len() ==> #[trigger] self.players_accepted@[j] == old_acc[j],
                old_acc.len() == shared.seats@.len(),
                *shared == *old(shared),
                self.groups == old(self).groups,
                self.points == old(self).points,
                self.scores == old(self).scores,
            decreases shared.seats@.len() - i,
        {
            let ghost prev = self.players_accepted@;
            proof {
                assert(prev[i as int] == old_acc[i as int]);
            }
            if shared.seats[i].is_held_by(player_id) {
                self.players_accepted.set(i, true);
            }
            proof {
                assert(self.players_accepted@[i as int] == (old_acc[i as int] || shared.seats@[i as int].player == Some(player_id)));
                assert forall|j: int| 0 <= j < i + 1 implies self.players_accepted@[j] == (old_acc[j] || shared.seats@[j].player == Some(player_id)) by {
                    if j < i {
                        assert(prev[j] == (old_acc[j] || shared.seats@[j].player == Some(player_id)));
                        assert(prev[j] == self.players_accepted@[j]);
                    }
                }
            }
            i = i + 1;
        }
        proof {
            assert(self.players_accepted@ =~= Seq::new(old_acc.len(), |i: int| old_acc[i] || shared.seats@[i].player == Some(player_id)));
        }
        let mut all = true;
        let mut j: usize = 0;
        while j < self.players_accepted.len()
            invariant
                j <= self.players_accepted@.len(),
                all == (forall|k: int| 0 <= k < j ==> self.players_accepted@[k]),
            decreases self.players_accepted@.len() - j,
        {
            if !self.players_accepted[j] {
                all = false;
            }
            j = j + 1;
        }
        if all {
            Ok(ActionChange::SwapState(GameState::Done(self.copy())))
        } else {
            Ok(ActionChange::NoChange)
        }
    }

    /// Place flips a group's life mark, Pass accepts the score, Cancel goes
    /// back to play; resigning is not an action of the scoring phase.
    pub fn make_action(&mut self, shared: &mut SharedState, player_id: u64, action: ActionKind) -> (r: Result<ActionChange, MakeActionError>)
        requires
            old(shared).wf(),
            old(self).fits(&*old(shared)),
            territory_fits(old(shared).points@, old(shared).board.points@.len()),
        ensures
            *final(shared) == *old(shared),
            final(self).fits(&*final(shared)),
            scoring_step(*old(self), *old(shared), player_id, action, *final(self), r),
    {
        match action {
            ActionKind::Place(x, y) => self.make_action_place(shared, (x, y)),
            ActionKind::Pass => self.make_action_pass(shared, player_id),
            ActionKind::Cancel => Ok(ActionChange::PopState),
            ActionKind::Resign => Err(MakeActionError::Illegal),
        }
    }
}

/// The live colour of a point depends only on the groups' values.
proof fn lemma_live_color_views(g1: Seq<Group>, g2: Seq<Group>, p: Point)
    requires
        g1.len() == g2.len(),
        forall|k: int| 0 <= k < g1.len() ==> (#[trigger] g1[k])@ == g2[k]@,
    ensures
        live_color(g1, p) == live_color(g2, p),
    decreases g1.len(),
{
    if g1.len() > 0 {
        assert(g1.last()@ == g2[g2.len() - 1]@);
        assert forall|k: int| 0 <= k < g1.drop_last().len() implies (#[trigger] g1.drop_last()[k])@ == g2.drop_last()[k]@ by {
            assert(g1.drop_last()[k] == g1[k]);
            assert(g2.drop_last()[k] == g2[k]);
        }
        lemma_live_color_views(g1.drop_last(), g2.drop_last(), p);
    }
}

/// Scoring a point gives one colour on boards holding the same values.
proof fn lemma_scored_point_views(l1: Board<Color>, l2: Board<Color>, p: Point, v1: Color, v2: Color)
    requires
        l1@ == l2@,
        l1.scored_point(p, v1),
        l2.scored_point(p, v2),
    ensures
        v1 == v2,
{
    assert(l1.points@ == l2.points@ && l1.width == l2.width && l1.height == l2.height && l1.toroidal == l2.toroidal);
    if l1.at(p).0 == 0 {
        let pts = choose|pts: Seq<Point>| l1.is_chain(pts, Color(0)) && pts.contains(p);
        assert forall|a: Point, q: Point| l1.adjacent(a, q) == l2.adjacent(a, q) by {
            assert(l1.neighbors(a) == l2.neighbors(a));
        }
        assert forall|q: Point| l1.at(q) == l2.at(q) by {}
        assert(l2.is_chain(pts, Color(0))) by {
            assert forall|k: int| 0 < k < pts.len() implies exists|j: int| 0 <= j < k && l2.adjacent(pts[j], #[trigger] pts[k]) by {
                let j = choose|j: int| 0 <= j < k && l1.adjacent(pts[j], pts[k]);
                assert(l2.adjacent(pts[j], pts[k]));
            }
            assert forall|j: int, q: Point|
                0 <= j < pts.len() && #[trigger] l2.adjacent(pts[j], q) && l2.within(q) && l2.at(q) == Color(0) implies pts.contains(q) by {
                assert(l1.adjacent(pts[j], q));
            }
        }
        assert forall|c: Color| l1.border(pts).contains(c) <==> l2.border(pts).contains(c) by {
            if l1.border(pts).contains(c) {
                let (j, q) = choose|j: int, q: Point| 0 <= j < pts.len() && #[trigger] l1.adjacent(pts[j], q) && l1.within(q) && l1.at(q) == c;
                assert(l2.adjacent(pts[j], q));
            }
            if l2.border(pts).contains(c) {
                let (j, q) = choose|j: int, q: Point| 0 <= j < pts.len() && #[trigger] l2.adjacent(pts[j], q) && l2.within(q) && l2.at(q) == c;
                assert(l1.adjacent(pts[j], q));
            }
        }
        assert(l1.border(pts) =~= l2.border(pts));
        assert(l1.owner(pts) == l2.owner(pts));
    }
}

/// A scoring of the same groups gives the same board.
proof fn lemma_scored_board_unique(width: u32, height: u32, toroidal: bool, g1: Seq<Group>, b1: Board<Color>, g2: Seq<Group>, b2: Board<Color>)
    requires
        scored_board(width, height, toroidal, g1, b1),
        scored_board(width, height, toroidal, g2, b2),
        g1.len() == g2.len(),
        forall|k: int| 0 <= k < g1.len() ==> (#[trigger] g1[k])@ == g2[k]@,
    ensures
        b1.points@ == b2.points@,
{
    let live1 = choose|live: Board<Color>|
        live@ == live_view(width, height, toroidal, g1) && forall|p: Point| live.within(p) ==> live.scored_point(p, #[trigger] b1.at(p));
    let live2 = choose|live: Board<Color>|
        live@ == live_view(width, height, toroidal, g2) && forall|p: Point| live.within(p) ==> live.scored_point(p, #[trigger] b2.at(p));
    assert forall|i: int| 0 <= i < (width * height) as nat implies live_view(width, height, toroidal, g1).points[i] == live_view(width, height, toroidal, g2).points[i] by {
        lemma_live_color_views(g1, g2, ((i % width as int) as u32, (i / width as int) as u32));
    }
    assert(live_view(width, height, toroidal, g1).points =~= live_view(width, height, toroidal, g2).points);
    assert(live1@ == live2@);
    assert forall|i: int| 0 <= i < b1.points@.len() implies b1.points@[i] == b2.points@[i] by {
        lemma_coord_in_range(&b1, i);
        let p = b1.coord_of(i);
        assert(b2.coord_of(i) == p);
        assert(live1.within(p));
        lemma_scored_point_views(live1, live2, p, b1.at(p), b2.at(p));
    }
    assert(b1.points@ =~= b2.points@);
}

/// Marking the same point twice gives every group its life mark back.
proof fn law_marking_twice_restores_marks(
    s0: ScoringState,
    sh: SharedState,
    point: Point,
    s1: ScoringState,
    r1: Result<ActionChange, MakeActionError>,
    s2: ScoringState,
    r2: Result<ActionChange, MakeActionError>,
)
    requires
        mark_action(s0, sh, point, s1, r1),
        mark_action(s1, sh, point, s2, r2),
    ensures
        r1 matches Ok(ActionChange::NoChange),
        r2 matches Ok(ActionChange::NoChange),
        s2.groups@.len() == s0.groups@.len(),
        forall|k: int| 0 <= k < s0.groups@.len() ==> (#[trigger] s2.groups@[k])@ == s0.groups@[k]@,
        (exists|k: int| 0 <= k < s0.groups@.len() && s0.groups@[k].points@.contains(point)) ==> s2.players_accepted@ == Seq::new(
            s0.players_accepted@.len(),
            |i: int| false,
        ),
        !(exists|k: int| 0 <= k < s0.groups@.len() && s0.groups@[k].points@.contains(point)) ==> s2@ == s0@,
{
    if exists|k: int| 0 <= k < s0.groups@.len() && s0.groups@[k].points@.contains(point) {
        let k0 = choose|k: int| 0 <= k < s0.groups@.len() && s0.groups@[k].points@.contains(point);
        assert(s1.groups@[k0]@.points == s0.groups@[k0]@.points);
        assert(s1.groups@[k0].points@.contains(point));
        assert forall|k: int| 0 <= k < s0.groups@.len() implies (#[trigger] s2.groups@[k])@ == s0.groups@[k]@ by {
            assert(s1.groups@[k]@.points == s0.groups@[k]@.points);
        }
    } else {
        assert(s1@ == s0@);
        assert(s1@.groups.len() == s1.groups@.len());
        if exists|k: int| 0 <= k < s1.groups@.len() && s1.groups@[k].points@.contains(point) {
            let k1 = choose|k: int| 0 <= k < s1.groups@.len() && s1.groups@[k].points@.contains(point);
            assert(s1@.groups[k1] == s1.groups@[k1]@);
            assert(s0@.groups[k1] == s0.groups@[k1]@);
            assert(s0.groups@[k1].points@.contains(point));
        }
        assert(s2@ == s0@);
        assert(s2@.groups.len() == s2.groups@.len());
        assert forall|k: int| 0 <= k < s0.groups@.len() implies (#[trigger] s2.groups@[k])@ == s0.groups@[k]@ by {
            assert(s2@.groups[k] == s2.groups@[k]@);
            assert(s0@.groups[k] == s0.groups@[k]@);
        }
    }
}

/// Marking the same point twice during scoring gives the scoring state back
/// (every group's life mark, the scored board, and, for scores made from
/// the game's points as `ScoringState::new` makes them, the scores), with
/// every acceptance cleared when the point holds a group.
pub proof fn law_marking_twice_restores_scoring(
    s0: ScoringState,
    sh: SharedState,
    point: Point,
    s1: ScoringState,
    r1: Result<ActionChange, MakeActionError>,
    s2: ScoringState,
    r2: Result<ActionChange, MakeActionError>,
)
    requires
        s0.fits(&sh),
        s2.fits(&sh),
        mark_action(s0, sh, point, s1, r1),
        mark_action(s1, sh, point, s2, r2),
    ensures
        r1 matches Ok(ActionChange::NoChange),
        r2 matches Ok(ActionChange::NoChange),
        s2.groups@.len() == s0.groups@.len(),
        forall|k: int| 0 <= k < s0.groups@.len() ==> (#[trigger] s2.groups@[k])@ == s0.groups@[k]@,
        s2.points@ == s0.points@,
        s0.scores@ == add_territory(sh.points@, s0.points) ==> s2.scores@ == s0.scores@,
        (exists|k: int| 0 <= k < s0.groups@.len() && s0.groups@[k].points@.contains(point)) ==> s2.players_accepted@ == Seq::new(
            s0.players_accepted@.len(),
            |i: int| false,
        ),
        !(exists|k: int| 0 <= k < s0.groups@.len() && s0.groups@[k].points@.contains(point)) ==> s2@ == s0@,
{
    law_marking_twice_restores_marks(s0, sh, point, s1, r1, s2, r2);
    lemma_scored_board_unique(sh.board.width, sh.board.height, sh.board.toroidal, s0.groups@, s0.points, s2.groups@, s2.points);
    assert(s2.points@ == s0.points@);
    if exists|k: int| 0 <= k < s0.groups@.len() && s0.groups@[k].points@.contains(point) {
        let k0 = choose|k: int| 0 <= k < s0.groups@.len() && s0.groups@[k].points@.contains(point);
        assert(s1.groups@[k0]@.points == s0.groups@[k0]@.points);
        assert(s1.groups@[k0].points@.contains(point));
        assert forall|t: int| 1 <= t <= sh.points@.len() implies s2.points.count_color(t) == s0.points.count_color(t) by {
            assert(s2.points.color_mask(t, s2.points.points@.len()) =~= s0.points.color_mask(t, s0.points.points@.len()));
        }
        assert(add_territory(sh.points@, s2.points) =~= add_territory(sh.points@, s0.points));
    }
}

} // verus!
