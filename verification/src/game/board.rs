use vstd::prelude::*;

use super::Color;
use super::Visibility;

verus! {

/// A point on the board, `(x, y)`.
pub type Point = (u32, u32);

/// A rectangular board stored row by row.
#[derive(Clone, Debug, Hash)]
pub struct Board<T = Color> {
    pub width: u32,
    pub height: u32,
    pub toroidal: bool,
    pub points: Vec<T>,
}

/// One coordinate moved by `d`, wrapped around once on a toroidal axis.
pub open spec fn spec_step(a: int, d: int, n: int, toroidal: bool) -> Option<int> {
    if 0 <= a + d < n {
        Some(a + d)
    } else if toroidal {
        Some(spec_wrap_coord(a + d, n))
    } else {
        None
    }
}

/// Wraps a coordinate into range by adding or removing the axis length once.
pub open spec fn spec_wrap_coord(a: int, n: int) -> int {
    if a < 0 {
        a + n
    } else if a >= n {
        a - n
    } else {
        a
    }
}

/// The point that `(x, y)` names on a board of the given size, if any:
/// itself when it lies on the board, wrapped once on a toroidal board,
/// nothing otherwise.
pub open spec fn spec_wrap_point(x: int, y: int, width: int, height: int, toroidal: bool) -> Option<
    Point,
> {
    if 0 <= x < width && 0 <= y < height {
        Some((x as u32, y as u32))
    } else if toroidal {
        Some((spec_wrap_coord(x, width) as u32, spec_wrap_coord(y, height) as u32))
    } else {
        None
    }
}

pub open spec fn opt_seq(o: Option<Point>) -> Seq<Point> {
    match o {
        Some(p) => seq![p],
        None => Seq::empty(),
    }
}

/// What a board holds: its size, whether it wraps, and its points.
pub struct BoardModel<T> {
    pub width: u32,
    pub height: u32,
    pub toroidal: bool,
    pub points: Seq<T>,
}

impl<T> View for Board<T> {
    type V = BoardModel<T>;

    open spec fn view(&self) -> BoardModel<T> {
        BoardModel {
            width: self.width,
            height: self.height,
            toroidal: self.toroidal,
            points: self.points@,
        }
    }
}

impl<T> Board<T> {
    /// The board's shape is consistent: one entry per point, and coordinates
    /// fit the signed arithmetic used for neighbours.
    pub open spec fn wf(&self) -> bool {
        &&& self.width < 0x4000_0000
        &&& self.height < 0x4000_0000
        &&& self.width * self.height <= i32::MAX
        &&& self.points@.len() == self.width * self.height
    }

    pub open spec fn within(&self, p: Point) -> bool {
        p.0 < self.width && p.1 < self.height
    }

    pub open spec fn index_of(&self, p: Point) -> int {
        p.1 * self.width + p.0
    }

    pub open spec fn coord_of(&self, i: int) -> Point {
        ((i % self.width as int) as u32, (i / self.width as int) as u32)
    }

    pub open spec fn at(&self, p: Point) -> T {
        self.points@[self.index_of(p)]
    }

    pub open spec fn wrap(&self, x: int, y: int) -> Option<Point> {
        spec_wrap_point(x, y, self.width as int, self.height as int, self.toroidal)
    }

    /// The orthogonal neighbours of `p`, in the order left, right, up, down.
    pub open spec fn neighbors(&self, p: Point) -> Seq<Point> {
        opt_seq(self.wrap(p.0 - 1, p.1 as int)) + opt_seq(self.wrap(p.0 + 1, p.1 as int)) + opt_seq(
            self.wrap(p.0 as int, p.1 - 1),
        ) + opt_seq(self.wrap(p.0 as int, p.1 + 1))
    }

    /// The diagonal neighbours of `p`: up-left, up-right, down-right, down-left.
    pub open spec fn diagonal_neighbors(&self, p: Point) -> Seq<Point> {
        opt_seq(self.wrap(p.0 - 1, p.1 - 1)) + opt_seq(self.wrap(p.0 + 1, p.1 - 1)) + opt_seq(
            self.wrap(p.0 + 1, p.1 + 1),
        ) + opt_seq(self.wrap(p.0 - 1, p.1 + 1))
    }

    /// `q` is an orthogonal neighbour of `p`.
    pub open spec fn adjacent(&self, p: Point, q: Point) -> bool {
        self.neighbors(p).contains(q)
    }

    /// Adjacency spelled out coordinate by coordinate.
    pub open spec fn adjacent_by_steps(&self, p: Point, q: Point) -> bool {
        ||| (q.1 == p.1 && (spec_step(p.0 as int, -1, self.width as int, self.toroidal) == Some(
            q.0 as int,
        ) || spec_step(p.0 as int, 1, self.width as int, self.toroidal) == Some(q.0 as int)))
        ||| (q.0 == p.0 && (spec_step(p.1 as int, -1, self.height as int, self.toroidal) == Some(
            q.1 as int,
        ) || spec_step(p.1 as int, 1, self.height as int, self.toroidal) == Some(q.1 as int)))
    }
}

/// Index arithmetic of a well-formed board: a point on the board has an index
/// in range, and the index gives the point back.
pub proof fn lemma_index_in_range<T>(b: &Board<T>, p: Point)
    requires
        b.wf(),
        b.within(p),
    ensures
        0 <= b.index_of(p) < b.points@.len(),
        b.coord_of(b.index_of(p)) == p,
{
    let w = b.width as int;
    let h = b.height as int;
    let x = p.0 as int;
    let y = p.1 as int;
    assert(y * w + x < w * h) by (nonlinear_arith)
        requires
            0 <= x < w,
            0 <= y < h,
    ;
    assert(0 <= y * w) by (nonlinear_arith)
        requires
            0 <= y,
            0 <= w,
    ;
    assert((y * w + x) % w == x && (y * w + x) / w == y) by (nonlinear_arith)
        requires
            0 <= x < w,
            0 <= y,
    ;
}

/// An index in range names a point on the board whose index it is.
pub proof fn lemma_coord_in_range<T>(b: &Board<T>, i: int)
    requires
        b.wf(),
        0 <= i < b.points@.len(),
    ensures
        b.within(b.coord_of(i)),
        b.index_of(b.coord_of(i)) == i,
{
    let w = b.width as int;
    let h = b.height as int;
    assert(w > 0) by (nonlinear_arith)
        requires
            0 <= i < w * h,
            w >= 0,
            h >= 0,
    ;
    assert(0 <= i % w < w && 0 <= i / w < h && (i / w) * w + i % w == i) by (nonlinear_arith)
        requires
            w > 0,
            0 <= i < w * h,
    ;
}

/// Distinct points on the board have distinct indices.
pub proof fn lemma_index_injective<T>(b: &Board<T>, p: Point, q: Point)
    requires
        b.wf(),
        b.within(p),
        b.within(q),
        b.index_of(p) == b.index_of(q),
    ensures
        p == q,
{
    lemma_index_in_range(b, p);
    lemma_index_in_range(b, q);
}

/// The neighbours of a point on the board are on the board, and are exactly
/// the points one step away along an axis.
pub proof fn lemma_neighbors<T>(b: &Board<T>, p: Point)
    requires
        b.wf(),
        b.within(p),
    ensures
        forall|q: Point| #[trigger] b.neighbors(p).contains(q) ==> b.within(q),
        forall|q: Point| b.within(q) ==> (#[trigger] b.neighbors(p).contains(q) <==> b.adjacent_by_steps(p, q)),
        b.neighbors(p).len() <= 4,
{
    let l = opt_seq(b.wrap(p.0 - 1, p.1 as int));
    let r = opt_seq(b.wrap(p.0 + 1, p.1 as int));
    let u = opt_seq(b.wrap(p.0 as int, p.1 - 1));
    let d = opt_seq(b.wrap(p.0 as int, p.1 + 1));
    let s = b.neighbors(p);
    assert(s == l + r + u + d);
    let w = b.width as int;
    let h = b.height as int;
    let x = p.0 as int;
    let y = p.1 as int;
    assert forall|q: Point| b.within(q) implies (l.contains(q) <==> (q.1 == p.1 && spec_step(x, -1, w, b.toroidal) == Some(q.0 as int))) by {
        if l.contains(q) {
            let k = choose|k: int| 0 <= k < l.len() && l[k] == q;
        }
        if q.1 == p.1 && spec_step(x, -1, w, b.toroidal) == Some(q.0 as int) {
            assert(l[0] == q);
        }
    }
    assert forall|q: Point| b.within(q) implies (r.contains(q) <==> (q.1 == p.1 && spec_step(x, 1, w, b.toroidal) == Some(q.0 as int))) by {
        if r.contains(q) {
            let k = choose|k: int| 0 <= k < r.len() && r[k] == q;
        }
        if q.1 == p.1 && spec_step(x, 1, w, b.toroidal) == Some(q.0 as int) {
            assert(r[0] == q);
        }
    }
    assert forall|q: Point| b.within(q) implies (u.contains(q) <==> (q.0 == p.0 && spec_step(y, -1, h, b.toroidal) == Some(q.1 as int))) by {
        if u.contains(q) {
            let k = choose|k: int| 0 <= k < u.len() && u[k] == q;
        }
        if q.0 == p.0 && spec_step(y, -1, h, b.toroidal) == Some(q.1 as int) {
            assert(u[0] == q);
        }
    }
    assert forall|q: Point| b.within(q) implies (d.contains(q) <==> (q.0 == p.0 && spec_step(y, 1, h, b.toroidal) == Some(q.1 as int))) by {
        if d.contains(q) {
            let k = choose|k: int| 0 <= k < d.len() && d[k] == q;
        }
        if q.0 == p.0 && spec_step(y, 1, h, b.toroidal) == Some(q.1 as int) {
            assert(d[0] == q);
        }
    }
    assert forall|q: Point| #[trigger] s.contains(q) implies (l.contains(q) || r.contains(q) || u.contains(q) || d.contains(q)) by {
        let k = choose|k: int| 0 <= k < s.len() && s[k] == q;
        if k < l.len() {
            assert(l[k] == q);
        } else if k < l.len() + r.len() {
            assert(r[k - l.len()] == q);
        } else if k < l.len() + r.len() + u.len() {
            assert(u[k - l.len() - r.len()] == q);
        } else {
            assert(d[k - l.len() - r.len() - u.len()] == q);
        }
    }
    assert forall|q: Point| (l.contains(q) || r.contains(q) || u.contains(q) || d.contains(q)) implies #[trigger] s.contains(q) by {
        if l.contains(q) {
            let k = choose|k: int| 0 <= k < l.len() && l[k] == q;
            assert(s[k] == q);
        } else if r.contains(q) {
            let k = choose|k: int| 0 <= k < r.len() && r[k] == q;
            assert(s[l.len() + k] == q);
        } else if u.contains(q) {
            let k = choose|k: int| 0 <= k < u.len() && u[k] == q;
            assert(s[l.len() + r.len() + k] == q);
        } else {
            let k = choose|k: int| 0 <= k < d.len() && d[k] == q;
            assert(s[l.len() + r.len() + u.len() + k] == q);
        }
    }
}

/// Adjacency is symmetric on a well-formed board.
pub proof fn lemma_adjacent_symmetric<T>(b: &Board<T>, p: Point, q: Point)
    requires
        b.wf(),
        b.within(p),
        b.adjacent(p, q),
    ensures
        b.within(q),
        b.adjacent(q, p),
{
    lemma_neighbors(b, p);
    lemma_neighbors(b, q);
}

} // verus!

verus! {

/// The point that `(x, y)` names on a `width` by `height` board: itself when
/// on the board, wrapped once around a toroidal board, nothing otherwise.
pub fn wrap_point(x: i32, y: i32, width: i32, height: i32, toroidal: bool) -> (r: Option<Point>)
    requires
        width >= 0,
        height >= 0,
    ensures
        r == spec_wrap_point(x as int, y as int, width as int, height as int, toroidal),
{
    if x >= 0 && x < width && y >= 0 && y < height {
        Some((x as u32, y as u32))
    } else if toroidal {
        let x = if x < 0 {
            x + width
        } else if x >= width {
            x - width
        } else {
            x
        };
        let y = if y < 0 {
            y + height
        } else if y >= height {
            y - height
        } else {
            y
        };
        Some((x as u32, y as u32))
    } else {
        None
    }
}

fn push_opt(v: &mut Vec<Point>, o: Option<Point>)
    ensures
        final(v)@ == old(v)@ + opt_seq(o),
{
    if let Some(p) = o {
        v.push(p);
    }
}

impl<T: Copy> Board<T> {
    /// A board of the given size with every point set to `value`.
    pub fn filled(width: u32, height: u32, toroidal: bool, value: T) -> (b: Self)
        requires
            width < 0x4000_0000,
            height < 0x4000_0000,
            width * height <= i32::MAX,
        ensures
            b.wf(),
            b.width == width,
            b.height == height,
            b.toroidal == toroidal,
            forall|i: int| 0 <= i < b.points@.len() ==> b.points@[i] == value,
    {
        let n = width * height;
        let mut points: Vec<T> = Vec::new();
        let mut i: u32 = 0;
        while i < n
            invariant
                i <= n,
                points@.len() == i,
                forall|k: int| 0 <= k < i ==> points@[k] == value,
            decreases n - i,
        {
            points.push(value);
            i = i + 1;
        }
        Board { width, height, toroidal, points }
    }

    /// `p` lies on the board.
    pub fn point_within(&self, p: Point) -> (b: bool)
        ensures
            b == self.within(p),
    {
        p.0 < self.width && p.1 < self.height
    }

    /// The value at `p`.
    pub fn get_point(&self, p: Point) -> (v: T)
        requires
            self.wf(),
            self.within(p),
        ensures
            v == self.at(p),
    {
        proof {
            lemma_index_in_range(self, p);
        }
        self.points[(p.1 * self.width + p.0) as usize]
    }

    /// Sets the value at `p`.
    pub fn set_point(&mut self, p: Point, value: T)
        requires
            old(self).wf(),
            old(self).within(p),
        ensures
            final(self).width == old(self).width,
            final(self).height == old(self).height,
            final(self).toroidal == old(self).toroidal,
            final(self).points@ == old(self).points@.update(old(self).index_of(p), value),
            final(self).wf(),
    {
        proof {
            lemma_index_in_range(&*self, p);
        }
        let idx = (p.1 * self.width + p.0) as usize;
        self.points.set(idx, value);
    }

    /// The point at index `idx` of the point list, if the index is in range.
    pub fn idx_to_coord(&self, idx: usize) -> (r: Option<Point>)
        requires
            self.wf(),
        ensures
            idx < self.points@.len() <==> r is Some,
            r matches Some(p) ==> p == self.coord_of(idx as int) && self.within(p) && self.index_of(p) == idx,
    {
        if idx < self.points.len() {
            proof {
                lemma_coord_in_range(self, idx as int);
            }
            Some((idx as u32 % self.width, idx as u32 / self.width))
        } else {
            None
        }
    }

    /// The point that `(x, y)` names on this board, if any.
    pub fn wrap_point(&self, x: i32, y: i32) -> (r: Option<Point>)
        requires
            self.wf(),
        ensures
            r == self.wrap(x as int, y as int),
    {
        wrap_point(x, y, self.width as i32, self.height as i32, self.toroidal)
    }

    /// The orthogonal neighbours of `p`: left, right, up, down, as far as they exist.
    pub fn surrounding_points(&self, p: Point) -> (r: Vec<Point>)
        requires
            self.wf(),
            self.within(p),
        ensures
            r@ == self.neighbors(p),
    {
        let x = p.0 as i32;
        let y = p.1 as i32;
        let width = self.width as i32;
        let height = self.height as i32;
        let mut r: Vec<Point> = Vec::new();
        push_opt(&mut r, wrap_point(x - 1, y, width, height, self.toroidal));
        push_opt(&mut r, wrap_point(x + 1, y, width, height, self.toroidal));
        push_opt(&mut r, wrap_point(x, y - 1, width, height, self.toroidal));
        push_opt(&mut r, wrap_point(x, y + 1, width, height, self.toroidal));
        r
    }

    /// The diagonal neighbours of `p`, as far as they exist.
    pub fn surrounding_diagonal_points(&self, p: Point) -> (r: Vec<Point>)
        requires
            self.wf(),
            self.within(p),
        ensures
            r@ == self.diagonal_neighbors(p),
    {
        let x = p.0 as i32;
        let y = p.1 as i32;
        let width = self.width as i32;
        let height = self.height as i32;
        let mut r: Vec<Point> = Vec::new();
        push_opt(&mut r, wrap_point(x - 1, y - 1, width, height, self.toroidal));
        push_opt(&mut r, wrap_point(x + 1, y - 1, width, height, self.toroidal));
        push_opt(&mut r, wrap_point(x + 1, y + 1, width, height, self.toroidal));
        push_opt(&mut r, wrap_point(x - 1, y + 1, width, height, self.toroidal));
        r
    }

    /// A copy of the board.
    pub fn copy(&self) -> (b: Self)
        ensures
            b@ == self@,
    {
        let mut points: Vec<T> = Vec::new();
        let mut i: usize = 0;
        while i < self.points.len()
            invariant
                i <= self.points@.len(),
                points@ == self.points@.subrange(0, i as int),
            decreases self.points@.len() - i,
        {
            points.push(self.points[i]);
            i = i + 1;
        }
        proof {
            assert(points@ == self.points@);
        }
        Board { width: self.width, height: self.height, toroidal: self.toroidal, points }
    }
}

impl Board<Color> {
    /// An empty board.
    pub fn empty(width: u32, height: u32, toroidal: bool) -> (b: Self)
        requires
            width < 0x4000_0000,
            height < 0x4000_0000,
            width * height <= i32::MAX,
        ensures
            b.wf(),
            b.width == width,
            b.height == height,
            b.toroidal == toroidal,
            forall|i: int| 0 <= i < b.points@.len() ==> b.points@[i].0 == 0,
    {
        Board::filled(width, height, toroidal, Color(0))
    }

    /// A hash of the board (`BuildHasher::hash_one` with std's
    /// `DefaultHasher`). Nothing is stated of the value: std leaves the
    /// hasher's algorithm open, and the lengths it hashes are written in the
    /// machine's word size.
    #[verifier::external_body]
    pub fn hash(&self) -> u64 {
        std::hash::BuildHasher::hash_one(&std::hash::BuildHasherDefault::<std::collections::hash_map::DefaultHasher>::default(), self)
    }
}

impl Board<Visibility> {
    /// A board where no point holds a hidden stone.
    pub fn empty(width: u32, height: u32, toroidal: bool) -> (b: Self)
        requires
            width < 0x4000_0000,
            height < 0x4000_0000,
            width * height <= i32::MAX,
        ensures
            b.wf(),
            b.width == width,
            b.height == height,
            b.toroidal == toroidal,
            forall|i: int| 0 <= i < b.points@.len() ==> b.points@[i].0 == 0,
    {
        Board::filled(width, height, toroidal, Visibility(0))
    }
}

/// A list of distinct points on the board is no longer than the board.
pub proof fn lemma_distinct_points_bound<T>(b: &Board<T>, s: Seq<Point>)
    requires
        b.wf(),
        forall|i: int| 0 <= i < s.len() ==> b.within(#[trigger] s[i]),
        forall|i: int, j: int| 0 <= i < j < s.len() ==> s[i] != s[j],
    ensures
        s.len() <= b.points@.len(),
{
    let idx = s.map_values(|p: Point| b.index_of(p));
    assert forall|i: int, j: int| 0 <= i < j < idx.len() implies idx[i] != idx[j] by {
        if idx[i] == idx[j] {
            lemma_index_injective(b, s[i], s[j]);
        }
    }
    assert(idx.no_duplicates());
    idx.unique_seq_to_set();
    let range = Set::new(|i: int| 0 <= i < b.points@.len());
    assert(range =~= vstd::set_lib::set_int_range(0, b.points@.len() as int));
    vstd::set_lib::lemma_int_range(0, b.points@.len() as int);
    assert forall|i: int| idx.to_set().contains(i) implies range.contains(i) by {
        let k = choose|k: int| 0 <= k < idx.len() && idx[k] == i;
        lemma_index_in_range(b, s[k]);
    }
    vstd::set_lib::lemma_len_subset(idx.to_set(), range);
}

} // verus!
