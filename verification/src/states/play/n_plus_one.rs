use vstd::prelude::*;

use crate::game::board::{lemma_coord_in_range, lemma_distinct_points_bound, lemma_index_in_range};
use crate::game::{Board, Color, NPlusOne, Point, Visibility, VisibilityBoard};

verus! {

pub enum NPlusOneResult {
    ExtraTurn,
    Nothing,
}

impl Board<Color> {
    /// The point `(x, y)` names, when that point is on the board.
    pub open spec fn on_board(&self, x: int, y: int) -> Option<Point> {
        match self.wrap(x, y) {
            Some(p) => if self.within(p) {
                Some(p)
            } else {
                None
            },
            None => None,
        }
    }

    /// Walks from `(x, y)` in steps of `(dx, dy)`, adding to `acc` every
    /// point of colour `c` not already in it, and stops at the first point
    /// that is off the board, of another colour, or already in `acc` (or
    /// after `fuel` points).
    pub open spec fn walk(&self, c: Color, x: int, y: int, dx: int, dy: int, acc: Seq<Point>, fuel: nat) -> Seq<Point>
        decreases fuel,
    {
        if fuel == 0 {
            acc
        } else {
            match self.on_board(x, y) {
                Some(p) => if self.at(p) == c && !acc.contains(p) {
                    self.walk(c, x + dx, y + dy, dx, dy, acc.push(p), (fuel - 1) as nat)
                } else {
                    acc
                },
                None => acc,
            }
        }
    }

    /// The run of stones of `p`'s colour through `p` along direction
    /// `(dx, dy)`: first backwards from the point before `p`, then forwards
    /// from `p`.
    pub open spec fn line_through(&self, p: Point, dx: int, dy: int) -> Seq<Point> {
        let c = self.at(p);
        let f = (self.points@.len() + 1) as nat;
        let back = self.walk(c, p.0 - dx, p.1 - dy, -dx, -dy, Seq::empty(), f);
        self.walk(c, p.0 as int, p.1 as int, dx, dy, back, f)
    }

    /// The stone at `p` lies on a run of exactly `len` stones along
    /// direction number `k` (vertical, horizontal, and the two diagonals).
    pub open spec fn line_matches(&self, p: Point, k: int, len: int) -> bool {
        &&& self.at(p).0 != 0
        &&& self.line_through(p, dir_x(k), dir_y(k)).len() == len
    }

    /// Some played stone lies on a run of exactly `len` stones.
    pub open spec fn makes_line(&self, played: Seq<Point>, len: int) -> bool {
        exists|j: int, k: int| 0 <= j < played.len() && 0 <= k < 4 && #[trigger] self.line_matches(played[j], k, len)
    }

    /// `q` lies on a run of exactly `len` stones through a played stone.
    pub open spec fn on_matched_line(&self, played: Seq<Point>, len: int, q: Point) -> bool {
        exists|j: int, k: int|
            0 <= j < played.len() && 0 <= k < 4 && #[trigger] self.line_matches(played[j], k, len) && self.line_through(
                played[j],
                dir_x(k),
                dir_y(k),
            ).contains(q)
    }
}

pub open spec fn dir_x(k: int) -> int {
    if k == 0 {
        0
    } else {
        1
    }
}

pub open spec fn dir_y(k: int) -> int {
    if k == 0 {
        1
    } else if k == 1 {
        0
    } else if k == 2 {
        1
    } else {
        -1
    }
}

/// N+1 looks at lines in the four directions of the board and no others:
/// a move makes a line exactly when a played stone lies on a run of exactly
/// `len` stones vertically `(0, 1)`, horizontally `(1, 0)`, along the
/// diagonal `(1, 1)` or along the anti-diagonal `(1, -1)`.
pub proof fn law_lines_in_four_directions(b: Board<Color>, played: Seq<Point>, len: int)
    ensures
        b.makes_line(played, len) ==> exists|j: int|
            0 <= j < played.len() && b.at(#[trigger] played[j]).0 != 0 && {
                ||| b.line_through(played[j], 0, 1).len() == len
                ||| b.line_through(played[j], 1, 0).len() == len
                ||| b.line_through(played[j], 1, 1).len() == len
                ||| b.line_through(played[j], 1, -1).len() == len
            },
        forall|j: int|
            0 <= j < played.len() && b.at(#[trigger] played[j]).0 != 0 && b.line_through(played[j], 0, 1).len() == len
                ==> b.makes_line(played, len),
        forall|j: int|
            0 <= j < played.len() && b.at(#[trigger] played[j]).0 != 0 && b.line_through(played[j], 1, 0).len() == len
                ==> b.makes_line(played, len),
        forall|j: int|
            0 <= j < played.len() && b.at(#[trigger] played[j]).0 != 0 && b.line_through(played[j], 1, 1).len() == len
                ==> b.makes_line(played, len),
        forall|j: int|
            0 <= j < played.len() && b.at(#[trigger] played[j]).0 != 0 && b.line_through(played[j], 1, -1).len() == len
                ==> b.makes_line(played, len),
{
    if b.makes_line(played, len) {
        let (j, k) = choose|j: int, k: int| 0 <= j < played.len() && 0 <= k < 4 && #[trigger] b.line_matches(played[j], k, len);
        assert(b.at(played[j]).0 != 0);
    }
    assert forall|j: int|
        0 <= j < played.len() && b.at(#[trigger] played[j]).0 != 0 && b.line_through(played[j], 0, 1).len() == len implies b.makes_line(
        played,
        len,
    ) by {
        assert(b.line_matches(played[j], 0, len));
    }
    assert forall|j: int|
        0 <= j < played.len() && b.at(#[trigger] played[j]).0 != 0 && b.line_through(played[j], 1, 0).len() == len implies b.makes_line(
        played,
        len,
    ) by {
        assert(b.line_matches(played[j], 1, len));
    }
    assert forall|j: int|
        0 <= j < played.len() && b.at(#[trigger] played[j]).0 != 0 && b.line_through(played[j], 1, 1).len() == len implies b.makes_line(
        played,
        len,
    ) by {
        assert(b.line_matches(played[j], 2, len));
    }
    assert forall|j: int|
        0 <= j < played.len() && b.at(#[trigger] played[j]).0 != 0 && b.line_through(played[j], 1, -1).len() == len implies b.makes_line(
        played,
        len,
    ) by {
        assert(b.line_matches(played[j], 3, len));
    }
}

fn dir(k: usize) -> (d: (i32, i32))
    requires
        k < 4,
    ensures
        d.0 == dir_x(k as int),
        d.1 == dir_y(k as int),
{
    if k == 0 {
        (0, 1)
    } else if k == 1 {
        (1, 0)
    } else if k == 2 {
        (1, 1)
    } else {
        (1, -1)
    }
}

proof fn lemma_cast_nonneg(c: i32)
    ensures
        (c as u32) < 0x4000_0000 ==> c >= 0,
{
    assert((c as u32) < 0x4000_0000 ==> c >= 0) by (bit_vector);
}

/// A coordinate that wraps to a point on the board was at most one board
/// length off it.
proof fn lemma_wrapped_range(x: int, w: int, t: bool, px: u32)
    requires
        0 < w < 0x4000_0000,
        -w - 1 <= x <= 2 * w,
        px < w,
        (0 <= x < w && px == x as u32) || (t && px == (crate::game::board::spec_wrap_coord(x, w) as u32)),
    ensures
        -w <= x < 2 * w,
{
    if !(0 <= x < w) {
        let wc = crate::game::board::spec_wrap_coord(x, w);
        assert(-1 <= wc <= w);
        let c = wc as i32;
        assert(c == wc);
        lemma_cast_nonneg(c);
        assert((c as u32) == (wc as u32));
    }
}

/// Extends `line` by walking from `(x, y)` (see `walk`).
fn walk_line(board: &Board<Color>, c: Color, x: i32, y: i32, dx: i32, dy: i32, line: &mut Vec<Point>)
    requires
        board.wf(),
        -1 <= dx <= 1,
        -1 <= dy <= 1,
        -(board.width as int) - 1 <= x <= 2 * board.width,
        -(board.height as int) - 1 <= y <= 2 * board.height,
        forall|i: int| 0 <= i < old(line)@.len() ==> board.within(#[trigger] old(line)@[i]),
        forall|i: int, j: int| 0 <= i < j < old(line)@.len() ==> old(line)@[i] != old(line)@[j],
    ensures
        final(line)@ == board.walk(c, x as int, y as int, dx as int, dy as int, old(line)@, (board.points@.len() + 1) as nat),
        forall|i: int| 0 <= i < final(line)@.len() ==> board.within(#[trigger] final(line)@[i]),
        forall|i: int, j: int| 0 <= i < j < final(line)@.len() ==> final(line)@[i] != final(line)@[j],
{
    let ghost f0 = (board.points@.len() + 1) as nat;
    let ghost len0 = line@.len();
    let ghost x0 = x as int;
    let ghost y0 = y as int;
    let mut x = x;
    let mut y = y;
    proof {
        lemma_distinct_points_bound(board, line@);
    }
    loop
        invariant
            board.wf(),
            -1 <= dx <= 1,
            -1 <= dy <= 1,
            -(board.width as int) - 1 <= x <= 2 * board.width,
            -(board.height as int) - 1 <= y <= 2 * board.height,
            forall|i: int| 0 <= i < line@.len() ==> board.within(#[trigger] line@[i]),
            forall|i: int, j: int| 0 <= i < j < line@.len() ==> line@[i] != line@[j],
            len0 <= line@.len() <= board.points@.len(),
            f0 == board.points@.len() + 1,
            board.walk(c, x as int, y as int, dx as int, dy as int, line@, (f0 - (line@.len() - len0)) as nat)
                == board.walk(c, x0, y0, dx as int, dy as int, old(line)@, f0),
        ensures
            forall|i: int| 0 <= i < line@.len() ==> board.within(#[trigger] line@[i]),
            forall|i: int, j: int| 0 <= i < j < line@.len() ==> line@[i] != line@[j],
            line@ == board.walk(c, x0, y0, dx as int, dy as int, old(line)@, f0),
        decreases board.points@.len() - line@.len(),
    {
        let fuel = Ghost((f0 - (line@.len() - len0)) as nat);
        let o = board.wrap_point(x, y);
        let p = match o {
            Some(p) => p,
            None => {
                break;
            },
        };
        if !board.point_within(p) {
            break;
        }
        if board.get_point(p) != c {
            break;
        }
        if crate::game::groups::contains_point(line, p) {
            break;
        }
        proof {
            lemma_index_in_range(board, p);
            assert(board.width > 0 && board.height > 0) by (nonlinear_arith)
                requires
                    p.0 < board.width,
                    p.1 < board.height,
            ;
            if 0 <= x < board.width && 0 <= y < board.height {
            } else {
                assert(board.toroidal);
            }
            lemma_wrapped_range(x as int, board.width as int, board.toroidal, p.0);
            lemma_wrapped_range(y as int, board.height as int, board.toroidal, p.1);
            let l2 = line@.push(p);
            assert forall|i: int, j: int| 0 <= i < j < l2.len() implies l2[i] != l2[j] by {
                if j == l2.len() - 1 {
                    assert(l2[i] == line@[i]);
                }
            }
            assert forall|i: int| 0 <= i < l2.len() implies board.within(#[trigger] l2[i]) by {
            }
            lemma_distinct_points_bound(board, l2);
            assert(fuel@ > 0);
        }
        line.push(p);
        x = x + dx;
        y = y + dy;
    }
}

/// The run through `p` along direction `k` has exactly `length` stones;
/// if so, every point of it is revealed (made visible to everyone).
fn check_line(board: &Board<Color>, p: Point, k: usize, length: u8, visibility: &mut Option<VisibilityBoard>) -> (m: bool)
    requires
        board.wf(),
        board.within(p),
        board.at(p).0 != 0,
        k < 4,
        match *old(visibility) {
            Some(v) => v.wf() && v.width == board.width && v.height == board.height,
            None => true,
        },
    ensures
        m == board.line_matches(p, k as int, length as int),
        match (*old(visibility), *final(visibility)) {
            (Some(ov), Some(nv)) => {
                &&& nv.width == ov.width
                &&& nv.height == ov.height
                &&& nv.toroidal == ov.toroidal
                &&& nv.wf()
                &&& nv.points@ == Seq::new(
                    ov.points@.len(),
                    |i: int|
                        if m && board.line_through(p, dir_x(k as int), dir_y(k as int)).contains(board.coord_of(i)) {
                            Visibility(0)
                        } else {
                            ov.points@[i]
                        },
                )
            },
            (None, None) => true,
            _ => false,
        },
{
    let c = board.get_point(p);
    let (dx, dy) = dir(k);
    let mut line: Vec<Point> = Vec::new();
    walk_line(board, c, p.0 as i32 - dx, p.1 as i32 - dy, -dx, -dy, &mut line);
    walk_line(board, c, p.0 as i32, p.1 as i32, dx, dy, &mut line);
    let m = line.len() == length as usize;
    let ghost lp = line@;
    if m {
        if let Some(v) = visibility {
            let ghost ov = v.points@;
            let ghost ovb = *v;
            let mut j: usize = 0;
            while j < line.len()
                invariant
                    v.wf(),
                    v.width == board.width,
                    v.height == board.height,
                    v.width == ovb.width,
                    v.height == ovb.height,
                    v.toroidal == ovb.toroidal,
                    board.wf(),
                    lp == line@,
                    j <= lp.len(),
                    forall|i: int| 0 <= i < lp.len() ==> board.within(#[trigger] lp[i]),
                    v.points@.len() == ov.len(),
                    forall|i: int|
                        0 <= i < ov.len() ==> #[trigger] v.points@[i] == if lp.subrange(0, j as int).contains(board.coord_of(i)) {
                            Visibility(0)
                        } else {
                            ov[i]
                        },
                decreases lp.len() - j,
            {
                let q = line[j];
                proof {
                    lemma_index_in_range(board, q);
                }
                let ghost prev = v.points@;
                v.set_point(q, Visibility::new());
                proof {
                    assert forall|i: int| 0 <= i < ov.len() implies #[trigger] v.points@[i] == if lp.subrange(0, j + 1).contains(board.coord_of(i)) {
                        Visibility(0)
                    } else {
                        ov[i]
                    } by {
                        lemma_coord_in_range(board, i);
                        let s0 = lp.subrange(0, j as int);
                        let s1 = lp.subrange(0, j + 1);
                        let cq = board.coord_of(i);
                        assert(s1.contains(cq) <==> (s0.contains(cq) || cq == q)) by {
                            if s1.contains(cq) && cq != q {
                                let mm = choose|mm: int| 0 <= mm < s1.len() && s1[mm] == cq;
                                assert(s0[mm] == cq);
                            }
                            if s0.contains(cq) {
                                let mm = choose|mm: int| 0 <= mm < s0.len() && s0[mm] == cq;
                                assert(s1[mm] == cq);
                            }
                            if cq == q {
                                assert(s1[j as int] == cq);
                            }
                        }
                        if i == v.index_of(q) {
                            assert(cq == q);
                        } else {
                            assert(prev[i] == v.points@[i]);
                            if cq == q {
                                assert(board.index_of(cq) == i);
                            }
                        }
                    }
                }
                j = j + 1;
            }
            proof {
                assert(lp.subrange(0, lp.len() as int) =~= lp);
                assert(v.points@ =~= Seq::new(
                    ov.len(),
                    |i: int|
                        if m && board.line_through(p, dir_x(k as int), dir_y(k as int)).contains(board.coord_of(i)) {
                            Visibility(0)
                        } else {
                            ov[i]
                        },
                ));
            }
        }
    } else {
        proof {
            if *visibility is Some {
                let v = (*visibility)->0;
                assert(v.points@ =~= Seq::new(
                    v.points@.len(),
                    |i: int|
                        if m && board.line_through(p, dir_x(k as int), dir_y(k as int)).contains(board.coord_of(i)) {
                            Visibility(0)
                        } else {
                            v.points@[i]
                        },
                ));
            }
        }
    }
    m
}

spec fn ghost_copy(v: &Option<VisibilityBoard>) -> Option<VisibilityBoard> {
    *v
}

/// The pair (played point `jj`, direction `kk`) comes before (`j`, `k`).
pub open spec fn before(jj: int, kk: int, j: int, k: int) -> bool {
    jj < j || (jj == j && kk < k)
}

spec fn matched_before(b: &Board<Color>, played: Seq<Point>, len: int, j: int, k: int) -> bool {
    exists|jj: int, kk: int|
        0 <= jj < played.len() && 0 <= kk < 4 && before(jj, kk, j, k) && #[trigger] b.line_matches(played[jj], kk, len)
}

spec fn cleared_before(b: &Board<Color>, played: Seq<Point>, len: int, j: int, k: int, q: Point) -> bool {
    exists|jj: int, kk: int|
        0 <= jj < played.len() && 0 <= kk < 4 && before(jj, kk, j, k) && #[trigger] b.line_matches(played[jj], kk, len)
            && b.line_through(played[jj], dir_x(kk), dir_y(kk)).contains(q)
}

/// N+1 go: a move that makes a run of exactly `length` stones (vertical,
/// horizontal or diagonal) through a played stone earns an extra turn, and
/// the stones of every such run are revealed.
pub fn check(
    points_played: &Vec<Point>,
    board: &Board<Color>,
    visibility: &mut Option<VisibilityBoard>,
    rule: &NPlusOne,
) -> (r: NPlusOneResult)
    requires
        board.wf(),
        forall|j: int| 0 <= j < points_played@.len() ==> board.within(#[trigger] points_played@[j]),
        match *old(visibility) {
            Some(v) => v.wf() && v.width == board.width && v.height == board.height,
            None => true,
        },
    ensures
        (r is ExtraTurn) == board.makes_line(points_played@, rule.length as int),
        match (*old(visibility), *final(visibility)) {
            (Some(ov), Some(nv)) => {
                &&& nv.width == ov.width
                &&& nv.height == ov.height
                &&& nv.toroidal == ov.toroidal
                &&& nv.wf()
                &&& nv.points@ == Seq::new(
                    ov.points@.len(),
                    |i: int|
                        if board.on_matched_line(points_played@, rule.length as int, board.coord_of(i)) {
                            Visibility(0)
                        } else {
                            ov.points@[i]
                        },
                )
            },
            (None, None) => true,
            _ => false,
        },
{
    let ghost played = points_played@;
    let ghost len = rule.length as int;
    let ghost ov = *visibility;
    let mut matched = false;
    let mut j: usize = 0;
    while j < points_played.len()
        invariant
            board.wf(),
            played == points_played@,
            len == rule.length as int,
            j <= played.len(),
            forall|jj: int| 0 <= jj < played.len() ==> board.within(#[trigger] played[jj]),
            matched == matched_before(board, played, len, j as int, 0),
            match (ov, *visibility) {
                (Some(ovb), Some(nv)) => {
                    &&& nv.width == ovb.width
                    &&& nv.height == ovb.height
                    &&& nv.toroidal == ovb.toroidal
                    &&& nv.wf()
                    &&& nv.width == board.width
                    &&& nv.height == board.height
                    &&& nv.points@.len() == ovb.points@.len()
                    &&& forall|i: int|
                        0 <= i < ovb.points@.len() ==> #[trigger] nv.points@[i] == if cleared_before(board, played, len, j as int, 0, board.coord_of(i)) {
                            Visibility(0)
                        } else {
                            ovb.points@[i]
                        }
                },
                (None, None) => true,
                _ => false,
            },
        decreases played.len() - j,
    {
        let p = points_played[j];
        let c = board.get_point(p);
        if c.0 == 0 {
            proof {
                assert forall|jj: int, kk: int| 0 <= jj < played.len() && 0 <= kk < 4 && before(jj, kk, j + 1, 0) implies (before(jj, kk, j as int, 0) || !board.line_matches(played[jj], kk, len)) by {
                }
                assert(matched_before(board, played, len, j + 1, 0) == matched_before(board, played, len, j as int, 0));
                if let (Some(ovb), Some(nv)) = (ov, ghost_copy(&*visibility)) {
                    assert forall|i: int| 0 <= i < ovb.points@.len() implies cleared_before(board, played, len, j + 1, 0, board.coord_of(i)) == cleared_before(board, played, len, j as int, 0, board.coord_of(i)) by {
                        if cleared_before(board, played, len, j + 1, 0, board.coord_of(i)) {
                            let (jj, kk) = choose|jj: int, kk: int|
                                0 <= jj < played.len() && 0 <= kk < 4 && before(jj, kk, j + 1, 0) && #[trigger] board.line_matches(played[jj], kk, len)
                                    && board.line_through(played[jj], dir_x(kk), dir_y(kk)).contains(board.coord_of(i));
                        }
                    }
                }
            }
        } else {
            let mut k: usize = 0;
            while k < 4
                invariant
                    board.wf(),
                    played == points_played@,
                    len == rule.length as int,
                    j < played.len(),
                    p == played[j as int],
                    board.within(p),
                    board.at(p).0 != 0,
                    k <= 4,
                    forall|jj: int| 0 <= jj < played.len() ==> board.within(#[trigger] played[jj]),
                    matched == matched_before(board, played, len, j as int, k as int),
                    match (ov, *visibility) {
                        (Some(ovb), Some(nv)) => {
                            &&& nv.width == ovb.width
                            &&& nv.height == ovb.height
                            &&& nv.toroidal == ovb.toroidal
                            &&& nv.wf()
                            &&& nv.width == board.width
                            &&& nv.height == board.height
                            &&& nv.points@.len() == ovb.points@.len()
                            &&& forall|i: int|
                                0 <= i < ovb.points@.len() ==> #[trigger] nv.points@[i] == if cleared_before(board, played, len, j as int, k as int, board.coord_of(i)) {
                                    Visibility(0)
                                } else {
                                    ovb.points@[i]
                                }
                        },
                        (None, None) => true,
                        _ => false,
                    },
                decreases 4 - k,
            {
                let ghost before_vis = *visibility;
                let m = check_line(board, p, k, rule.length, visibility);
                proof {
                    assert forall|jj: int, kk: int| 0 <= jj < played.len() && 0 <= kk < 4 implies (before(jj, kk, j as int, k + 1) <==> (before(jj, kk, j as int, k as int) || (jj == j && kk == k))) by {
                    }
                    if m {
                        assert(board.line_matches(played[j as int], k as int, len));
                    }
                    if matched_before(board, played, len, j as int, k + 1) && !m {
                        let (jj, kk) = choose|jj: int, kk: int|
                            0 <= jj < played.len() && 0 <= kk < 4 && before(jj, kk, j as int, k + 1) && #[trigger] board.line_matches(played[jj], kk, len);
                        assert(before(jj, kk, j as int, k as int));
                    }
                    if let (Some(ovb), Some(nv)) = (ov, ghost_copy(&*visibility)) {
                        let bv = before_vis->0;
                        assert forall|i: int| 0 <= i < ovb.points@.len() implies #[trigger] nv.points@[i] == if cleared_before(board, played, len, j as int, k + 1, board.coord_of(i)) {
                            Visibility(0)
                        } else {
                            ovb.points@[i]
                        } by {
                            let q = board.coord_of(i);
                            assert(bv.points@[i] == if cleared_before(board, played, len, j as int, k as int, q) {
                                Visibility(0)
                            } else {
                                ovb.points@[i]
                            });
                            if m && board.line_through(p, dir_x(k as int), dir_y(k as int)).contains(q) {
                                assert(cleared_before(board, played, len, j as int, k + 1, q));
                            }
                            if cleared_before(board, played, len, j as int, k + 1, q) && !cleared_before(board, played, len, j as int, k as int, q) {
                                let (jj, kk) = choose|jj: int, kk: int|
                                    0 <= jj < played.len() && 0 <= kk < 4 && before(jj, kk, j as int, k + 1) && #[trigger] board.line_matches(played[jj], kk, len)
                                        && board.line_through(played[jj], dir_x(kk), dir_y(kk)).contains(q);
                                assert(jj == j && kk == k);
                            }
                            if cleared_before(board, played, len, j as int, k as int, q) {
                                let (jj, kk) = choose|jj: int, kk: int|
                                    0 <= jj < played.len() && 0 <= kk < 4 && before(jj, kk, j as int, k as int) && #[trigger] board.line_matches(played[jj], kk, len)
                                        && board.line_through(played[jj], dir_x(kk), dir_y(kk)).contains(q);
                                assert(before(jj, kk, j as int, k + 1));
                            }
                        }
                    }
                }
                matched = matched || m;
                k = k + 1;
            }
            proof {
                assert forall|jj: int, kk: int| 0 <= jj < played.len() && 0 <= kk < 4 implies (before(jj, kk, j + 1, 0) <==> before(jj, kk, j as int, 4)) by {
                }
                if matched_before(board, played, len, j + 1, 0) {
                    let (jj, kk) = choose|jj: int, kk: int|
                        0 <= jj < played.len() && 0 <= kk < 4 && before(jj, kk, j + 1, 0) && #[trigger] board.line_matches(played[jj], kk, len);
                    assert(before(jj, kk, j as int, 4));
                }
                if matched_before(board, played, len, j as int, 4) {
                    let (jj, kk) = choose|jj: int, kk: int|
                        0 <= jj < played.len() && 0 <= kk < 4 && before(jj, kk, j as int, 4) && #[trigger] board.line_matches(played[jj], kk, len);
                    assert(before(jj, kk, j + 1, 0));
                }
                if let (Some(ovb), Some(nv)) = (ov, ghost_copy(&*visibility)) {
                    assert forall|i: int| 0 <= i < ovb.points@.len() implies cleared_before(board, played, len, j + 1, 0, board.coord_of(i)) == cleared_before(board, played, len, j as int, 4, board.coord_of(i)) by {
                        let q = board.coord_of(i);
                        if cleared_before(board, played, len, j + 1, 0, q) {
                            let (jj, kk) = choose|jj: int, kk: int|
                                0 <= jj < played.len() && 0 <= kk < 4 && before(jj, kk, j + 1, 0) && #[trigger] board.line_matches(played[jj], kk, len)
                                    && board.line_through(played[jj], dir_x(kk), dir_y(kk)).contains(q);
                            assert(before(jj, kk, j as int, 4));
                        }
                        if cleared_before(board, played, len, j as int, 4, q) {
                            let (jj, kk) = choose|jj: int, kk: int|
                                0 <= jj < played.len() && 0 <= kk < 4 && before(jj, kk, j as int, 4) && #[trigger] board.line_matches(played[jj], kk, len)
                                    && board.line_through(played[jj], dir_x(kk), dir_y(kk)).contains(q);
                            assert(before(jj, kk, j + 1, 0));
                        }
                    }
                }
            }
        }
        j = j + 1;
    }
    proof {
        if board.makes_line(played, len) {
            let (jj, kk) = choose|jj: int, kk: int| 0 <= jj < played.len() && 0 <= kk < 4 && #[trigger] board.line_matches(played[jj], kk, len);
            assert(before(jj, kk, played.len() as int, 0));
        }
        if let (Some(ovb), Some(nv)) = (ov, ghost_copy(&*visibility)) {
            assert forall|i: int| 0 <= i < ovb.points@.len() implies cleared_before(board, played, len, played.len() as int, 0, board.coord_of(i)) == board.on_matched_line(played, len, board.coord_of(i)) by {
                let q = board.coord_of(i);
                if board.on_matched_line(played, len, q) {
                    let (jj, kk) = choose|jj: int, kk: int|
                        0 <= jj < played.len() && 0 <= kk < 4 && #[trigger] board.line_matches(played[jj], kk, len)
                            && board.line_through(played[jj], dir_x(kk), dir_y(kk)).contains(q);
                    assert(before(jj, kk, played.len() as int, 0));
                }
            }
            assert(nv.points@ =~= Seq::new(
                ovb.points@.len(),
                |i: int|
                    if board.on_matched_line(played, len, board.coord_of(i)) {
                        Visibility(0)
                    } else {
                        ovb.points@[i]
                    },
            ));
        }
    }
    if matched {
        NPlusOneResult::ExtraTurn
    } else {
        NPlusOneResult::Nothing
    }
}

} // verus!
