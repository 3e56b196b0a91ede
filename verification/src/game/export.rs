use vstd::prelude::*;

use super::controller::Game;
use super::{Board, Color, Point};

verus! {

/// The letter SGF writes for coordinate `n`: `a` to `z`, and `a` past the
/// alphabet.
pub open spec fn coord_letter(n: u32) -> char {
    if n < 26 {
        (97 + n) as char
    } else {
        'a'
    }
}

/// The decimal digits of `n`.
pub open spec fn decimal(n: nat) -> Seq<char>
    decreases n,
{
    if n < 10 {
        seq![(48 + n) as char]
    } else {
        decimal(n / 10) + seq![(48 + n % 10) as char]
    }
}

/// The colour SGF shows for a stone of `c`: teams alternate black and white.
pub open spec fn sgf_color(c: Color) -> int {
    if c.0 == 0 {
        0
    } else {
        (c.0 - 1) % 2 + 1
    }
}

/// The SGF property that sets a point to SGF colour `color`: `AE[xy]`,
/// `AB[xy]` or `AW[xy]`.
pub open spec fn set_text(p: Point, color: int) -> Seq<char> {
    let name = if color == 0 {
        seq!['A', 'E']
    } else if color == 1 {
        seq!['A', 'B']
    } else {
        seq!['A', 'W']
    };
    name + seq!['[', coord_letter(p.0), coord_letter(p.1), ']']
}

/// The SGF label `text` at `p`: `LB[xy:text]`.
pub open spec fn label_text(p: Point, text: char) -> Seq<char> {
    seq!['L', 'B', '[', coord_letter(p.0), coord_letter(p.1), ':', text, ']']
}

/// The size property: `SZ[n]` for a square board, `SZ[w:h]` otherwise.
pub open spec fn size_text(width: u32, height: u32) -> Seq<char> {
    if width == height {
        seq!['S', 'Z', '['] + decimal(width as nat) + seq![']']
    } else {
        seq!['S', 'Z', '['] + decimal(width as nat) + seq![':'] + decimal(height as nat) + seq![']']
    }
}

/// The points among the first `k` of `cur` that differ from `prev`, set to
/// their SGF colour.
pub open spec fn diff_text(b: Board<Color>, prev: Seq<Color>, cur: Seq<Color>, k: nat) -> Seq<char>
    decreases k,
{
    if k == 0 {
        Seq::empty()
    } else {
        let i = (k - 1) as int;
        diff_text(b, prev, cur, (k - 1) as nat) + if prev[i] != cur[i] {
            set_text(b.coord_of(i), sgf_color(cur[i]))
        } else {
            Seq::empty()
        }
    }
}

/// Labels for the stones of the third and fourth teams among the first `k`
/// points: `U` and `R`.
pub open spec fn labels_text(b: Board<Color>, cur: Seq<Color>, k: nat) -> Seq<char>
    decreases k,
{
    if k == 0 {
        Seq::empty()
    } else {
        let i = (k - 1) as int;
        labels_text(b, cur, (k - 1) as nat) + if cur[i].0 == 3 {
            label_text(b.coord_of(i), 'U')
        } else if cur[i].0 == 4 {
            label_text(b.coord_of(i), 'R')
        } else {
            Seq::empty()
        }
    }
}

/// The SGF nodes of the first `k` positions of `boards`, each set against the
/// one before (the first against an empty board `empty`).
pub open spec fn nodes_text(b: Board<Color>, empty: Seq<Color>, boards: Seq<Seq<Color>>, k: nat) -> Seq<char>
    decreases k,
{
    if k == 0 {
        Seq::empty()
    } else {
        let i = (k - 1) as int;
        let prev = if i == 0 { empty } else { boards[i - 1] };
        nodes_text(b, empty, boards, (k - 1) as nat) + diff_text(b, prev, boards[i], boards[i].len()) + labels_text(
            b,
            boards[i],
            boards[i].len(),
        ) + seq![';']
    }
}

/// The SGF record of a game: its size, then one node per position of the
/// history, in two colours with labels for the other teams.
pub open spec fn sgf_text(g: Game) -> Seq<char> {
    let b = g.shared.board;
    let boards = Seq::new(g.shared.board_history@.len(), |k: int| g.shared.board_history@[k].board.points@);
    let empty = Seq::new(b.points@.len(), |i: int| Color(0));
    seq!['(', ';', 'F', 'F', '[', '4', ']', 'G', 'M', '[', '1', ']'] + size_text(b.width, b.height) + nodes_text(
        b,
        empty,
        boards,
        boards.len(),
    ) + seq![')']
}

/// The text of `cs`.
#[verifier::external_body]
fn chars_to_string(cs: &Vec<char>) -> (s: String)
    ensures
        s@ == cs@,
{
    cs.iter().collect()
}

/// Appends `s` to `out`.
fn push_all(out: &mut Vec<char>, s: &Vec<char>)
    ensures
        final(out)@ == old(out)@ + s@,
{
    let mut i: usize = 0;
    while i < s.len()
        invariant
            i <= s@.len(),
            out@ == old(out)@ + s@.subrange(0, i as int),
        decreases s@.len() - i,
    {
        out.push(s[i]);
        i = i + 1;
        proof {
            assert(out@ =~= old(out)@ + s@.subrange(0, i as int));
        }
    }
    proof {
        assert(s@.subrange(0, s@.len() as int) =~= s@);
    }
}

/// The letter of coordinate `n`.
fn letter(n: u32) -> (c: char)
    ensures
        c == coord_letter(n),
{
    if n < 26 {
        ((97 + n) as u8) as char
    } else {
        'a'
    }
}

/// The decimal digits of `n`.
fn digits(n: u32) -> (r: Vec<char>)
    ensures
        r@ == decimal(n as nat),
    decreases n,
{
    if n < 10 {
        vec![((48 + n) as u8) as char]
    } else {
        let mut r = digits(n / 10);
        r.push(((48 + n % 10) as u8) as char);
        r
    }
}

/// Write a simple single-variation representation of the game.
/// Limited to two colors so has to use markers for the other colors and hidden stones.
pub fn sgf_export(game: &Game) -> (s: String)
    requires
        game.wf(),
    ensures
        s@ == sgf_text(*game),
{
    let b = &game.shared.board;
    let mut out: Vec<char> = vec!['(', ';', 'F', 'F', '[', '4', ']', 'G', 'M', '[', '1', ']'];
    out.push('S');
    out.push('Z');
    out.push('[');
    push_all(&mut out, &digits(b.width));
    if b.width != b.height {
        out.push(':');
        push_all(&mut out, &digits(b.height));
    }
    out.push(']');
    let ghost header = out@;
    proof {
        assert(header =~= seq!['(', ';', 'F', 'F', '[', '4', ']', 'G', 'M', '[', '1', ']'] + size_text(b.width, b.height));
    }
    let n = b.points.len();
    let mut last: Vec<Color> = crate::game::vecs::repeat(Color(0), n);
    let ghost empty = last@;
    let ghost boards = Seq::new(game.shared.board_history@.len(), |k: int| game.shared.board_history@[k].board.points@);
    let mut k: usize = 0;
    while k < game.shared.board_history.len()
        invariant
            game.wf(),
            b == game.shared.board,
            n == b.points@.len(),
            empty == Seq::new(n as nat, |i: int| Color(0)),
            boards == Seq::new(game.shared.board_history@.len(), |k2: int| game.shared.board_history@[k2].board.points@),
            k <= boards.len(),
            last@ == if k == 0 { empty } else { boards[k - 1] },
            out@ == header + nodes_text(*b, empty, boards, k as nat),
        decreases boards.len() - k,
    {
        let h = &game.shared.board_history[k];
        proof {
            assert(game.shared.history_fits(game.shared.board_history@[k as int]));
            assert(boards[k as int] == h.board.points@);
        }
        let cur = &h.board.points;
        let ghost prev = last@;
        let ghost before = out@;
        let mut i: usize = 0;
        while i < n
            invariant
                b.wf(),
                n == b.points@.len(),
                cur@.len() == n,
                prev.len() == n,
                i <= n,
                last@.len() == n,
                forall|j: int| 0 <= j < n ==> #[trigger] last@[j] == if j < i { cur@[j] } else { prev[j] },
                out@ == before + diff_text(*b, prev, cur@, i as nat),
            decreases n - i,
        {
            if last[i] != cur[i] {
                let color: u8 = if cur[i].0 == 0 {
                    0
                } else {
                    (cur[i].0 - 1) % 2 + 1
                };
                proof {
                    crate::game::board::lemma_coord_in_range(b, i as int);
                }
                let p = b.idx_to_coord(i).unwrap();
                if color == 0 {
                    out.push('A');
                    out.push('E');
                } else if color == 1 {
                    out.push('A');
                    out.push('B');
                } else {
                    out.push('A');
                    out.push('W');
                }
                out.push('[');
                out.push(letter(p.0));
                out.push(letter(p.1));
                out.push(']');
                last.set(i, cur[i]);
            }
            proof {
                assert(out@ =~= before + diff_text(*b, prev, cur@, (i + 1) as nat));
            }
            i = i + 1;
        }
        let ghost mid = out@;
        let mut i: usize = 0;
        while i < n
            invariant
                b.wf(),
                n == b.points@.len(),
                cur@.len() == n,
                i <= n,
                out@ == mid + labels_text(*b, cur@, i as nat),
            decreases n - i,
        {
            if cur[i].0 == 3 || cur[i].0 == 4 {
                proof {
                    crate::game::board::lemma_coord_in_range(b, i as int);
                }
                let p = b.idx_to_coord(i).unwrap();
                out.push('L');
                out.push('B');
                out.push('[');
                out.push(letter(p.0));
                out.push(letter(p.1));
                out.push(':');
                out.push(if cur[i].0 == 3 {
                    'U'
                } else {
                    'R'
                });
                out.push(']');
            }
            proof {
                assert(out@ =~= mid + labels_text(*b, cur@, (i + 1) as nat));
            }
            i = i + 1;
        }
        out.push(';');
        proof {
            assert(last@ =~= cur@);
            assert(out@ =~= header + nodes_text(*b, empty, boards, (k + 1) as nat));
        }
        k = k + 1;
    }
    out.push(')');
    proof {
        assert(out@ =~= sgf_text(*game));
    }
    chars_to_string(&out)
}

/// `t` occurs in `s` as a contiguous run.
pub open spec fn contains_text(s: Seq<char>, t: Seq<char>) -> bool {
    exists|off: int| 0 <= off && off + t.len() <= s.len() && #[trigger] s.subrange(off, off + t.len()) == t
}

proof fn lemma_contains_prefix(a: Seq<char>, c: Seq<char>, t: Seq<char>)
    requires
        contains_text(a, t),
    ensures
        contains_text(a + c, t),
{
    let off = choose|off: int| 0 <= off && off + t.len() <= a.len() && #[trigger] a.subrange(off, off + t.len()) == t;
    assert((a + c).subrange(off, off + t.len()) =~= a.subrange(off, off + t.len()));
}

proof fn lemma_contains_suffix(a: Seq<char>, c: Seq<char>, t: Seq<char>)
    requires
        contains_text(c, t),
    ensures
        contains_text(a + c, t),
{
    let off = choose|off: int| 0 <= off && off + t.len() <= c.len() && #[trigger] c.subrange(off, off + t.len()) == t;
    assert((a + c).subrange(a.len() + off, a.len() + off + t.len()) =~= c.subrange(off, off + t.len()));
}

proof fn lemma_contains_self(t: Seq<char>)
    ensures
        contains_text(t, t),
{
    let z: int = 0;
    assert(t.subrange(z, z + t.len()) =~= t);
}

/// A point of the third team among the first `k` gets the label `U`, one of
/// the fourth team the label `R`.
proof fn lemma_labels_contain(b: Board<Color>, cur: Seq<Color>, k: nat, i: int)
    requires
        0 <= i < k <= cur.len(),
        cur[i].0 == 3 || cur[i].0 == 4,
    ensures
        contains_text(
            labels_text(b, cur, k),
            seq!['L', 'B', '[', coord_letter(b.coord_of(i).0), coord_letter(b.coord_of(i).1), ':', if cur[i].0 == 3 { 'U' } else { 'R' }, ']'],
        ),
    decreases k,
{
    let t = seq!['L', 'B', '[', coord_letter(b.coord_of(i).0), coord_letter(b.coord_of(i).1), ':', if cur[i].0 == 3 { 'U' } else { 'R' }, ']'];
    let j = (k - 1) as int;
    let last = if cur[j].0 == 3 {
        label_text(b.coord_of(j), 'U')
    } else if cur[j].0 == 4 {
        label_text(b.coord_of(j), 'R')
    } else {
        Seq::empty()
    };
    assert(labels_text(b, cur, k) == labels_text(b, cur, (k - 1) as nat) + last);
    if i == j {
        lemma_contains_self(t);
        assert(last =~= t);
        lemma_contains_suffix(labels_text(b, cur, (k - 1) as nat), last, t);
    } else {
        lemma_labels_contain(b, cur, (k - 1) as nat, i);
        lemma_contains_prefix(labels_text(b, cur, (k - 1) as nat), last, t);
    }
}

/// Every node's labels stand in the record of the nodes.
proof fn lemma_nodes_contain(b: Board<Color>, empty: Seq<Color>, boards: Seq<Seq<Color>>, k: nat, m: int, t: Seq<char>)
    requires
        0 <= m < k <= boards.len(),
        contains_text(labels_text(b, boards[m], boards[m].len()), t),
    ensures
        contains_text(nodes_text(b, empty, boards, k), t),
    decreases k,
{
    let j = (k - 1) as int;
    let prev = if j == 0 { empty } else { boards[j - 1] };
    let d = diff_text(b, prev, boards[j], boards[j].len());
    let l = labels_text(b, boards[j], boards[j].len());
    let before = nodes_text(b, empty, boards, (k - 1) as nat);
    assert(nodes_text(b, empty, boards, k) == before + d + l + seq![';']);
    if m == j {
        lemma_contains_suffix(before + d, l, t);
    } else {
        lemma_nodes_contain(b, empty, boards, (k - 1) as nat, m, t);
        lemma_contains_prefix(before, d, t);
        lemma_contains_prefix(before + d, l, t);
    }
    lemma_contains_prefix(before + d + l, seq![';'], t);
}

/// In the SGF record every stone of the third team, in every position of the
/// history, is labelled `U` at its point, and every stone of the fourth team
/// is labelled `R`.
pub proof fn law_sgf_labels_teams(g: Game, k: int, p: Point)
    requires
        g.wf(),
        0 <= k < g.shared.board_history@.len(),
        g.shared.board.within(p),
        g.shared.board_history@[k].board.at(p).0 == 3 || g.shared.board_history@[k].board.at(p).0 == 4,
    ensures
        g.shared.board_history@[k].board.at(p).0 == 3 ==> contains_text(
            sgf_text(g),
            seq!['L', 'B', '[', coord_letter(p.0), coord_letter(p.1), ':', 'U', ']'],
        ),
        g.shared.board_history@[k].board.at(p).0 == 4 ==> contains_text(
            sgf_text(g),
            seq!['L', 'B', '[', coord_letter(p.0), coord_letter(p.1), ':', 'R', ']'],
        ),
{
    let b = g.shared.board;
    let hb = g.shared.board_history@[k].board;
    assert(g.shared.history_fits(g.shared.board_history@[k]));
    crate::game::board::lemma_index_in_range(&hb, p);
    let i = hb.index_of(p);
    let boards = Seq::new(g.shared.board_history@.len(), |k2: int| g.shared.board_history@[k2].board.points@);
    let empty = Seq::new(b.points@.len(), |j: int| Color(0));
    let cur = boards[k];
    assert(cur == hb.points@);
    assert(b.coord_of(i) == hb.coord_of(i));
    let t = seq!['L', 'B', '[', coord_letter(p.0), coord_letter(p.1), ':', if cur[i].0 == 3 { 'U' } else { 'R' }, ']'];
    lemma_labels_contain(b, cur, cur.len(), i);
    lemma_nodes_contain(b, empty, boards, boards.len(), k, t);
    let head = seq!['(', ';', 'F', 'F', '[', '4', ']', 'G', 'M', '[', '1', ']'] + size_text(b.width, b.height);
    lemma_contains_suffix(head, nodes_text(b, empty, boards, boards.len()), t);
    lemma_contains_prefix(head + nodes_text(b, empty, boards, boards.len()), seq![')'], t);
}

} // verus!
