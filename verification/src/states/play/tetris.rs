use vstd::prelude::*;

use crate::game::board::{lemma_coord_in_range, lemma_index_in_range, lemma_index_injective};
use crate::game::groups::{contains_point, lemma_group_of_point};
use crate::game::{find_groups, Board, Color, Group, Point, TetrisGo};

verus! {

pub enum TetrisResult {
    Nothing,
    Illegal,
}

/// The points of `s` that are not part of a chain of four stones on `b`, in
/// order.
pub open spec fn drop_tetrominoes(b: Board<Color>, s: Seq<Point>) -> Seq<Point>
    decreases s.len(),
{
    if s.len() == 0 {
        s
    } else {
        let r = drop_tetrominoes(b, s.drop_last());
        if b.in_tetromino(s.last()) {
            r
        } else {
            r.push(s.last())
        }
    }
}

/// Some group of `groups` with exactly four points holds `p`.
fn in_four(groups: &Vec<Group>, p: Point) -> (b: bool)
    ensures
        b == exists|k: int| 0 <= k < groups@.len() && (#[trigger] groups@[k]).points@.len() == 4 && groups@[k].points@.contains(p),
{
    let mut k: usize = 0;
    while k < groups.len()
        invariant
            k <= groups@.len(),
            forall|j: int| 0 <= j < k ==> !((#[trigger] groups@[j]).points@.len() == 4 && groups@[j].points@.contains(p)),
        decreases groups@.len() - k,
    {
        if groups[k].points.len() == 4 && contains_point(&groups[k].points, p) {
            return true;
        }
        k = k + 1;
    }
    false
}

/// Tetris go: a move may not complete a chain of exactly four stones. Every
/// played point whose chain has four stones is taken off the board again and
/// dropped from the played points; the move is illegal when none remain.
pub fn check(points_played: &mut Vec<Point>, board: &mut Board<Color>, _rule: &TetrisGo) -> (r: TetrisResult)
    requires
        old(board).wf(),
        forall|j: int| 0 <= j < old(points_played)@.len() ==> old(board).within(#[trigger] old(points_played)@[j]),
    ensures
        final(board).wf(),
        final(board).width == old(board).width,
        final(board).height == old(board).height,
        final(board).toroidal == old(board).toroidal,
        final(board).points@ == Seq::new(
            old(board).points@.len(),
            |i: int|
                if old(points_played)@.contains(old(board).coord_of(i)) && old(board).in_tetromino(old(board).coord_of(i)) {
                    Color(0)
                } else {
                    old(board).points@[i]
                },
        ),
        final(points_played)@ == drop_tetrominoes(*old(board), old(points_played)@),
        (r is Illegal) <==> final(points_played)@.len() == 0,
{
    let ghost pre = *board;
    let ghost played = points_played@;
    let ghost n = board.points@.len();
    let groups = find_groups(board);
    let mut kept: Vec<Point> = Vec::new();
    let mut j: usize = 0;
    while j < points_played.len()
        invariant
            pre.wf(),
            board.wf(),
            board.width == pre.width,
            board.height == pre.height,
            board.toroidal == pre.toroidal,
            n == pre.points@.len(),
            *points_played == *old(points_played),
            played == points_played@,
            pre == *old(board),
            pre.chains_of(groups@),
            j <= played.len(),
            forall|jj: int| 0 <= jj < played.len() ==> pre.within(#[trigger] played[jj]),
            kept@ == drop_tetrominoes(pre, played.subrange(0, j as int)),
            forall|i: int|
                0 <= i < n ==> #[trigger] board.points@[i] == if played.subrange(0, j as int).contains(pre.coord_of(i)) && pre.in_tetromino(pre.coord_of(i)) {
                    Color(0)
                } else {
                    pre.points@[i]
                },
        decreases played.len() - j,
    {
        let p = points_played[j];
        let four = in_four(&groups, p);
        proof {
            assert(pre.within(played[j as int]));
            if four {
                let k = choose|k: int| 0 <= k < groups@.len() && (#[trigger] groups@[k]).points@.len() == 4 && groups@[k].points@.contains(p);
                assert(pre.is_chain_group(groups@[k]));
                let m = choose|m: int| 0 <= m < groups@[k].points@.len() && groups@[k].points@[m] == p;
                assert(pre.is_chain(groups@[k].points@, pre.at(p)));
                assert(pre.chain_len_is(p, 4));
            } else {
                if pre.in_tetromino(p) {
                    let pts = choose|pts: Seq<Point>| #[trigger] pre.is_chain(pts, pre.at(p)) && pts.contains(p) && pts.len() == 4;
                    assert(pre.occupied(p));
                    let k = choose|k: int| 0 <= k < groups@.len() && #[trigger] groups@[k].points@.contains(p);
                    lemma_group_of_point(&pre, groups@, k, pts, p);
                }
            }
            assert(four == pre.in_tetromino(p));
            assert(played.subrange(0, j + 1).drop_last() =~= played.subrange(0, j as int));
            lemma_index_in_range(&pre, p);
        }
        let ghost prev = board.points@;
        if four {
            board.set_point(p, Color(0));
        } else {
            kept.push(p);
        }
        proof {
            assert forall|i: int| 0 <= i < n implies #[trigger] board.points@[i] == if played.subrange(0, j + 1).contains(pre.coord_of(i)) && pre.in_tetromino(pre.coord_of(i)) {
                Color(0)
            } else {
                pre.points@[i]
            } by {
                lemma_coord_in_range(&pre, i);
                let q = pre.coord_of(i);
                let s0 = played.subrange(0, j as int);
                let s1 = played.subrange(0, j + 1);
                assert(s1 =~= s0.push(p));
                assert(s1.contains(q) <==> (s0.contains(q) || q == p)) by {
                    if s1.contains(q) && q != p {
                        let m = choose|m: int| 0 <= m < s1.len() && s1[m] == q;
                        assert(s0[m] == q);
                    }
                    if s0.contains(q) {
                        let m = choose|m: int| 0 <= m < s0.len() && s0[m] == q;
                        assert(s1[m] == q);
                    }
                    if q == p {
                        assert(s1[j as int] == q);
                    }
                }
                if i == pre.index_of(p) {
                    assert(q == p);
                } else {
                    assert(prev[i] == board.points@[i]);
                    if q == p {
                        assert(pre.index_of(q) == i);
                    }
                }
            }
        }
        j = j + 1;
    }
    proof {
        assert(played.subrange(0, played.len() as int) =~= played);
        assert(board.points@ =~= Seq::new(
            n,
            |i: int|
                if played.contains(pre.coord_of(i)) && pre.in_tetromino(pre.coord_of(i)) {
                    Color(0)
                } else {
                    pre.points@[i]
                },
        ));
    }
    *points_played = kept;
    if points_played.len() == 0 {
        TetrisResult::Illegal
    } else {
        TetrisResult::Nothing
    }
}

/// The points kept are points of `s`: on the board if those are.
pub proof fn lemma_drop_tetrominoes_within(b: Board<Color>, s: Seq<Point>)
    requires
        forall|j: int| 0 <= j < s.len() ==> b.within(#[trigger] s[j]),
    ensures
        forall|j: int| 0 <= j < drop_tetrominoes(b, s).len() ==> b.within(#[trigger] drop_tetrominoes(b, s)[j]),
    decreases s.len(),
{
    if s.len() > 0 {
        assert forall|j: int| 0 <= j < s.drop_last().len() implies b.within(#[trigger] s.drop_last()[j]) by {
            assert(s.drop_last()[j] == s[j]);
        }
        lemma_drop_tetrominoes_within(b, s.drop_last());
        let sub = drop_tetrominoes(b, s.drop_last());
        let f = drop_tetrominoes(b, s);
        assert(b.within(s.last()));
        assert forall|j: int| 0 <= j < f.len() implies b.within(#[trigger] f[j]) by {
            if j < sub.len() {
                assert(f[j] == sub[j]);
            }
        }
    }
}

} // verus!
