//! A rectangular grid stored row-major in one vector, and the parser that
//! reads one from text.
use crate::parser::{agrees, parse_all, same_parses, Parser};
use crate::point::{in_extent, Point};
use crate::text::{chars_of, lines, lines_of, text_of, views};
use vstd::prelude::*;
use vstd::std_specs::cmp::PartialEqSpec;

verus! {

/// A `height` by `width` grid of cells, indexed by [`Point`] `(row, col)`.
/// The cells are stored row by row in one vector.
pub struct Grid<T> {
    cells: Vec<T>,
    width: usize,
}

/// The model of a grid: its cells in row-major order and its width.
pub struct GridView<T> {
    pub cells: Seq<T>,
    pub width: nat,
}

impl<T> View for Grid<T> {
    type V = GridView<T>;

    closed spec fn view(&self) -> GridView<T> {
        GridView { cells: self.cells@, width: self.width as nat }
    }
}

impl<T> GridView<T> {
    /// The grid is non-empty and its cells fill whole rows.
    pub open spec fn wf(self) -> bool {
        &&& self.width > 0
        &&& self.cells.len() > 0
        &&& self.cells.len() % self.width == 0
        &&& self.cells.len() <= isize::MAX
    }

    /// Number of rows.
    pub open spec fn height(self) -> int {
        self.cells.len() as int / (self.width as int)
    }

    /// Whether `p` names a cell of the grid.
    pub open spec fn contains(self, p: Point) -> bool {
        in_extent(p, self.height(), self.width as int)
    }

    /// Position of the cell at `p` in the row-major order.
    pub open spec fn index_of(self, p: Point) -> int {
        p.0 * self.width + p.1
    }

    /// The cell at `p`.
    pub open spec fn at(self, p: Point) -> T {
        self.cells[self.index_of(p)]
    }

    /// The grid with the cells at `a` and `b` exchanged; unchanged when
    /// `a == b` or either point is outside.
    pub open spec fn swapped(self, a: Point, b: Point) -> GridView<T> {
        if a != b && self.contains(a) && self.contains(b) {
            GridView {
                cells: self.cells.update(self.index_of(a), self.at(b)).update(
                    self.index_of(b),
                    self.at(a),
                ),
                width: self.width,
            }
        } else {
            self
        }
    }
}

impl<T: DeepView> DeepView for Grid<T> {
    type V = GridView<T::V>;

    closed spec fn deep_view(&self) -> GridView<T::V> {
        GridView { cells: self.cells.deep_view(), width: self.width as nat }
    }
}

/// The text of a character grid: each row followed by a line feed.
pub open spec fn grid_text(g: GridView<char>) -> Seq<char>
    decreases g.cells.len(),
{
    if g.width == 0 || g.cells.len() < g.width {
        Seq::empty()
    } else {
        g.cells.take(g.width as int) + seq!['\n'] + grid_text(
            GridView { cells: g.cells.skip(g.width as int), width: g.width },
        )
    }
}

impl Grid<char> {
    /// The grid as text: each row's characters followed by a line feed.
    pub fn to_text(&self) -> (r: String)
        requires
            self@.wf(),
        ensures
            r@ == grid_text(self@),
    {
        let w = self.width;
        let n = self.cells.len();
        let mut out: Vec<char> = Vec::new();
        let mut i: usize = 0;
        assert(self@.cells.skip(0) =~= self@.cells);
        assert(out@ + grid_text(self@) =~= grid_text(self@));
        while i < n
            invariant
                self@.wf(),
                w == self@.width,
                n == self@.cells.len(),
                i <= n,
                i as int % w as int == 0,
                out@ + grid_text(GridView { cells: self@.cells.skip(i as int), width: w as nat })
                    == grid_text(self@),
            decreases n - i,
        {
            let ghost rest = self@.cells.skip(i as int);
            assert(rest.len() >= w) by (nonlinear_arith)
                requires
                    rest.len() == n - i,
                    i < n,
                    n % w == 0,
                    i % w == 0,
                    w > 0,
            ;
            let ghost before = out@;
            let mut j: usize = 0;
            while j < w
                invariant
                    i + w <= n,
                    n == self@.cells.len(),
                    j <= w,
                    out@ == before + self@.cells.subrange(i as int, i + j),
                decreases w - j,
            {
                out.push(self.cells[i + j]);
                assert(out@ =~= before + self@.cells.subrange(i as int, i + j + 1));
                j = j + 1;
            }
            out.push('\n');
            proof {
                let gv = GridView { cells: rest, width: w as nat };
                assert(grid_text(gv) == rest.take(w as int) + seq!['\n'] + grid_text(
                    GridView { cells: rest.skip(w as int), width: w as nat },
                ));
                assert(rest.skip(w as int) =~= self@.cells.skip(i + w));
                assert(rest.take(w as int) =~= self@.cells.subrange(i as int, i + w));
                assert(out@ =~= before + rest.take(w as int) + seq!['\n']);
                assert((i + w) % (w as int) == 0) by (nonlinear_arith)
                    requires
                        i % w == 0,
                        w > 0,
                ;
            }
            i = i + w;
        }
        proof {
            assert(self@.cells.skip(i as int) =~= Seq::<char>::empty());
            assert(out@ + Seq::<char>::empty() =~= out@);
        }
        crate::text::text_of(out.as_slice())
    }
}

/// The point at row-major position `i` of a grid `width` cells wide.
pub open spec fn point_of(i: int, width: int) -> Point {
    Point((i / width) as isize, (i % width) as isize)
}

/// A point inside the grid has a position inside the cell vector, and that
/// position leads back to it.
pub proof fn lemma_index_in_range<T>(g: GridView<T>, p: Point)
    requires
        g.wf(),
        g.contains(p),
    ensures
        0 <= g.index_of(p) < g.cells.len(),
        point_of(g.index_of(p), g.width as int) == p,
{
    let w = g.width as int;
    let h = g.height();
    let y = p.0 as int;
    let x = p.1 as int;
    assert(g.cells.len() == h * w) by (nonlinear_arith)
        requires
            w > 0,
            g.cells.len() as int % w == 0,
            h == g.cells.len() as int / w,
    ;
    assert(0 <= y * w + x < h * w) by (nonlinear_arith)
        requires
            0 <= y < h,
            0 <= x < w,
    ;
    assert((y * w + x) / w == y && (y * w + x) % w == x) by (nonlinear_arith)
        requires
            0 <= y,
            0 <= x < w,
    ;
}

/// Every position of the cell vector names a point inside the grid, and
/// that point leads back to it.
pub proof fn lemma_point_of_in_range<T>(g: GridView<T>, i: int)
    requires
        g.wf(),
        0 <= i < g.cells.len(),
    ensures
        g.contains(point_of(i, g.width as int)),
        g.index_of(point_of(i, g.width as int)) == i,
{
    let w = g.width as int;
    let h = g.height();
    assert(g.cells.len() == h * w) by (nonlinear_arith)
        requires
            w > 0,
            g.cells.len() as int % w == 0,
            h == g.cells.len() as int / w,
    ;
    assert(0 <= i / w < h && 0 <= i % w < w && (i / w) * w + i % w == i) by (nonlinear_arith)
        requires
            w > 0,
            0 <= i < h * w,
    ;
    assert(i / w <= i) by (nonlinear_arith)
        requires
            w > 0,
            0 <= i,
    ;
}

/// Swapping a cell with itself, or with a point outside the grid, changes
/// nothing.
pub proof fn lemma_swap_same_is_noop<T>(g: GridView<T>, a: Point, b: Point)
    requires
        a == b || !g.contains(a) || !g.contains(b),
    ensures
        g.swapped(a, b) == g,
{
}

/// Swapping two distinct cells inside the grid exchanges exactly their
/// values: every other cell keeps its value and the multiset of all cells
/// stays the same.
pub proof fn lemma_swap_exchanges<T>(g: GridView<T>, a: Point, b: Point)
    requires
        g.wf(),
        g.contains(a),
        g.contains(b),
        a != b,
    ensures
        g.swapped(a, b).wf(),
        g.swapped(a, b).width == g.width,
        g.swapped(a, b).at(a) == g.at(b),
        g.swapped(a, b).at(b) == g.at(a),
        forall|p: Point|
            g.contains(p) && p != a && p != b ==> #[trigger] g.swapped(a, b).at(p) == g.at(p),
        g.swapped(a, b).cells.to_multiset() == g.cells.to_multiset(),
{
    lemma_index_in_range(g, a);
    lemma_index_in_range(g, b);
    let i = g.index_of(a);
    let j = g.index_of(b);
    assert(i != j);
    let s1 = g.cells.update(i, g.at(b));
    assert forall|p: Point| g.contains(p) && p != a && p != b implies #[trigger] g.swapped(
        a,
        b,
    ).at(p) == g.at(p) by {
        lemma_index_in_range(g, p);
        assert(g.index_of(p) != i);
        assert(g.index_of(p) != j);
    }
    broadcast use vstd::seq_lib::to_multiset_update;
    broadcast use vstd::multiset::group_multiset_axioms;

    let x = g.cells[j];
    let y = g.cells[i];
    let m = g.cells.to_multiset();
    assert(s1.len() == g.cells.len());
    assert(s1[j] == x);
    assert(s1.to_multiset() == m.insert(x).remove(y));
    assert(s1.update(j, y).to_multiset() == s1.to_multiset().insert(y).remove(x));
    vstd::seq_lib::to_multiset_contains(g.cells, y);
    vstd::seq_lib::to_multiset_contains(g.cells, x);
    assert(m.count(y) > 0);
    assert(m.count(x) > 0);
    assert(g.swapped(a, b).cells.to_multiset() =~= g.cells.to_multiset());
}

/// Whether `rows` can make a grid: at least one row, a non-empty first row,
/// all rows equally long, and at most `isize::MAX` cells.
pub open spec fn rows_fit<T>(rows: Seq<Vec<T>>) -> bool {
    &&& rows.len() > 0
    &&& rows[0]@.len() > 0
    &&& forall|i: int| 0 <= i < rows.len() ==> (#[trigger] rows[i])@.len() == rows[0]@.len()
    &&& rows.len() * rows[0]@.len() <= isize::MAX
}

/// Relies on `<[T]>::swap`: exchanges the elements at `i` and `j` (panics
/// when either is out of range).
#[verifier::external_body]
fn swap_cells<T>(v: &mut Vec<T>, i: usize, j: usize)
    requires
        i < old(v)@.len(),
        j < old(v)@.len(),
    ensures
        final(v)@ == old(v)@.update(i as int, old(v)@[j as int]).update(j as int, old(v)@[i as int]),
{
    v.swap(i, j)
}

impl<T> Grid<T> {
    /// A `height` by `width` grid whose every cell is a clone of `init`.
    pub fn new(init: T, height: usize, width: usize) -> (r: Grid<T>)
        where
            T: Clone,
        requires
            height >= 1,
            width >= 1,
            height * width <= isize::MAX,
        ensures
            r@.wf(),
            r@.width == width,
            r@.height() == height,
            forall|p: Point| r@.contains(p) ==> cloned(init, #[trigger] r@.at(p)),
    {
        let n = height * width;
        let cells = vec![init; n];
        let r = Grid { cells, width };
        proof {
            assert(n as int % width as int == 0 && n as int / width as int == height) by (nonlinear_arith)
                requires
                    n == height * width,
                    width >= 1,
            ;
            assert forall|p: Point| r@.contains(p) implies cloned(init, #[trigger] r@.at(p)) by {
                lemma_index_in_range(r@, p);
            }
        }
        r
    }

    /// The grid `width` cells wide whose cells, row by row, are `init`; `None`
    /// when `init` is empty, `width` is 0 or `init` does not fill whole rows.
    pub fn new_from(init: Vec<T>, width: usize) -> (r: Option<Grid<T>>)
        ensures
            r is Some <==> (width > 0 && init@.len() > 0 && init@.len() as int % width as int == 0
                && init@.len() <= isize::MAX),
            r matches Some(g) ==> g@.wf() && g@.cells == init@ && g@.width == width,
    {
        if width == 0 || init.len() == 0 || init.len() % width != 0 || init.len()
            > isize::MAX as usize {
            None
        } else {
            Some(Grid { cells: init, width })
        }
    }

    /// The grid whose rows are `rows`; `None` when there are no rows, the
    /// first is empty, the rows differ in length or there are more than
    /// `isize::MAX` cells.
    pub fn from_rows(rows: Vec<Vec<T>>) -> (r: Option<Grid<T>>)
        ensures
            r is Some <==> rows_fit(rows@),
            r matches Some(g) ==> g@.wf() && g@.width == rows@[0]@.len() && g@.height()
                == rows@.len() && forall|p: Point| #[trigger]
                g@.contains(p) ==> g@.at(p) == rows@[p.0 as int]@[p.1 as int],
    {
        let h = rows.len();
        if h == 0 {
            return None;
        }
        let width = rows[0].len();
        if width == 0 {
            return None;
        }
        let mut k: usize = 0;
        while k < h
            invariant
                h == rows@.len(),
                width == rows@[0]@.len(),
                k <= h,
                forall|i: int| 0 <= i < k ==> (#[trigger] rows@[i])@.len() == width,
            decreases h - k,
        {
            if rows[k].len() != width {
                assert(!rows_fit(rows@));
                return None;
            }
            k = k + 1;
        }
        if width > isize::MAX as usize / h {
            assert(h * width > isize::MAX) by (nonlinear_arith)
                requires
                    width > isize::MAX as int / h as int,
                    h > 0,
            ;
            return None;
        }
        assert(h * width <= isize::MAX) by (nonlinear_arith)
            requires
                width <= isize::MAX as int / h as int,
                h > 0,
        ;
        let mut rows = rows;
        let ghost rows0 = rows@;
        let mut cells: Vec<T> = Vec::new();
        let mut i: usize = 0;
        let mut rest: Vec<Vec<T>> = Vec::new();
        // Move the rows out back to front, then append them front to back.
        while rows.len() > 0
            invariant
                rows@ == rows0.take(rows@.len() as int),
                rows0.len() == h,
                rest@.len() + rows@.len() == h,
                forall|q: int| 0 <= q < rest@.len() ==> #[trigger] rest@[q] == rows0[h - 1 - q],
            decreases rows@.len(),
        {
            let row = rows.pop().unwrap();
            rest.push(row);
        }
        while rest.len() > 0
            invariant
                rows0.len() == h,
                i + rest@.len() == h,
                forall|q: int| 0 <= q < rest@.len() ==> #[trigger] rest@[q] == rows0[h - 1 - q],
                forall|q: int| 0 <= q < h ==> (#[trigger] rows0[q])@.len() == width,
                width > 0,
                cells@.len() == i * width,
                h * width <= isize::MAX,
                forall|y: int, x: int|
                    0 <= y < i && 0 <= x < width ==> cells@[y * width + x] == #[trigger] rows0[y]@[x],
            decreases rest@.len(),
        {
            let mut row = rest.pop().unwrap();
            assert(i * width + width <= h * width) by (nonlinear_arith)
                requires
                    i < h,
            ;
            let ghost before = cells@;
            let ghost rv = row@;
            assert(rv == rows0[i as int]@);
            cells.append(&mut row);
            proof {
                assert(cells@ == before + rv);
                assert forall|y: int, x: int| 0 <= y < i + 1 && 0 <= x < width implies cells@[y
                    * width + x] == #[trigger] rows0[y]@[x] by {
                    if y < i {
                        assert(y * width + x < i * width) by (nonlinear_arith)
                            requires
                                0 <= y < i,
                                0 <= x < width,
                        ;
                    } else {
                        assert(y * width + x == i * width + x) by (nonlinear_arith)
                            requires
                                y == i,
                        ;
                    }
                }
                assert((i + 1) * width == i * width + width) by (nonlinear_arith);
            }
            i = i + 1;
        }
        let g = Grid { cells, width };
        proof {
            assert(i == h);
            assert((h * width) as int % width as int == 0 && (h * width) as int / width as int == h)
                by (nonlinear_arith)
                requires
                    width > 0,
            ;
            assert(h * width > 0) by (nonlinear_arith)
                requires
                    width > 0,
                    h > 0,
            ;
        }
        Some(g)
    }

    /// `(height, width)`.
    pub fn size(&self) -> (r: (usize, usize))
        requires
            self@.wf(),
        ensures
            r.0 == self@.height(),
            r.1 == self@.width,
    {
        (self.cells.len() / self.width, self.width)
    }

    /// Number of columns.
    pub fn width(&self) -> (r: usize)
        ensures
            r == self@.width,
    {
        self.width
    }

    /// Number of rows.
    pub fn height(&self) -> (r: usize)
        requires
            self@.wf(),
        ensures
            r == self@.height(),
    {
        self.cells.len() / self.width
    }

    /// Whether `p` names a cell of the grid.
    pub fn inbounds(&self, p: Point) -> (r: bool)
        requires
            self@.wf(),
        ensures
            r == self@.contains(p),
    {
        p.as_usize_lim(self.size()).is_some()
    }

    /// Position of the in-bounds point `p` in the cell vector.
    fn index(&self, p: Point) -> (r: usize)
        requires
            self@.wf(),
            self@.contains(p),
        ensures
            r == self@.index_of(p),
            r < self@.cells.len(),
    {
        proof {
            lemma_index_in_range(self@, p);
        }
        p.0 as usize * self.width + p.1 as usize
    }

    /// The cell at `p`, or `None` when `p` is outside the grid.
    pub fn get(&self, p: Point) -> (r: Option<&T>)
        requires
            self@.wf(),
        ensures
            r is Some <==> self@.contains(p),
            r matches Some(v) ==> *v == self@.at(p),
    {
        if self.inbounds(p) {
            Some(&self.cells[self.index(p)])
        } else {
            None
        }
    }

    /// Writes `value` into the cell at `p`; returns whether `p` is inside
    /// the grid (outside it, nothing changes).
    pub fn set(&mut self, p: Point, value: T) -> (r: bool)
        requires
            old(self)@.wf(),
        ensures
            r == old(self)@.contains(p),
            final(self)@.width == old(self)@.width,
            final(self)@.cells == if r {
                old(self)@.cells.update(old(self)@.index_of(p), value)
            } else {
                old(self)@.cells
            },
    {
        if self.inbounds(p) {
            let i = self.index(p);
            self.cells.set(i, value);
            true
        } else {
            false
        }
    }

    /// Exchanges the cells at `a` and `b`. Does nothing when `a == b` or
    /// either point is outside the grid.
    pub fn swap(&mut self, a: Point, b: Point)
        requires
            old(self)@.wf(),
        ensures
            final(self)@ == old(self)@.swapped(a, b),
    {
        if a == b || !self.inbounds(a) || !self.inbounds(b) {
            return ;
        }
        let i = self.index(a);
        let j = self.index(b);
        swap_cells(&mut self.cells, i, j);
    }

    /// Whether `p` is inside the grid and its cell equals `other`.
    pub fn is(&self, p: Point, other: &T) -> (r: bool)
        where
            T: PartialEq,
        requires
            self@.wf(),
        ensures
            T::obeys_eq_spec() ==> r == (self@.contains(p) && self@.at(p).eq_spec(other)),
            !self@.contains(p) ==> !r,
    {
        if !self.inbounds(p) {
            return false;
        }
        let v = &self.cells[self.index(p)];
        v == other
    }

    /// Whether both points are inside the grid and hold equal cells.
    pub fn is_point(&self, a: Point, b: Point) -> (r: bool)
        where
            T: PartialEq,
        requires
            self@.wf(),
        ensures
            T::obeys_eq_spec() ==> r == (self@.contains(a) && self@.contains(b) && self@.at(
                a,
            ).eq_spec(&self@.at(b))),
            !(self@.contains(a) && self@.contains(b)) ==> !r,
    {
        if !self.inbounds(b) {
            return false;
        }
        let other = &self.cells[self.index(b)];
        self.is(a, other)
    }

    /// The first point, in row-major order, whose cell equals `other`;
    /// `None` when no cell does.
    pub fn find(&self, other: &T) -> (r: Option<Point>)
        where
            T: PartialEq,
        requires
            self@.wf(),
        ensures
            r matches Some(p) ==> self@.contains(p),
            T::obeys_eq_spec() ==> (r matches Some(p) ==> self@.at(p).eq_spec(other) && forall|
                i: int,
            |
                0 <= i < self@.index_of(p) ==> !(#[trigger] self@.cells[i]).eq_spec(other)),
            T::obeys_eq_spec() ==> (r is None ==> forall|i: int|
                0 <= i < self@.cells.len() ==> !(#[trigger] self@.cells[i]).eq_spec(other)),
    {
        let n = self.cells.len();
        let mut i: usize = 0;
        while i < n
            invariant
                self@.wf(),
                n == self@.cells.len(),
                i <= n,
                T::obeys_eq_spec() ==> forall|k: int|
                    0 <= k < i ==> !(#[trigger] self@.cells[k]).eq_spec(other),
            decreases n - i,
        {
            if &self.cells[i] == other {
                let p = Point::from_1d(i, self.width);
                proof {
                    lemma_point_of_in_range(self@, i as int);
                }
                return Some(p);
            }
            i = i + 1;
        }
        None
    }

    /// The grid of the same shape whose cell at `p` is `f(cell, p)`.
    pub fn map<K, F: Fn(&T, Point) -> K>(&self, f: F) -> (r: Grid<K>)
        requires
            self@.wf(),
            forall|i: int|
                0 <= i < self@.cells.len() ==> call_requires(
                    f,
                    (&#[trigger] self@.cells[i], point_of(i, self@.width as int)),
                ),
        ensures
            r@.wf(),
            r@.width == self@.width,
            r@.cells.len() == self@.cells.len(),
            forall|i: int|
                0 <= i < self@.cells.len() ==> call_ensures(
                    f,
                    (&#[trigger] self@.cells[i], point_of(i, self@.width as int)),
                    r@.cells[i],
                ),
    {
        let n = self.cells.len();
        let mut out: Vec<K> = Vec::new();
        let mut i: usize = 0;
        while i < n
            invariant
                self@.wf(),
                n == self@.cells.len(),
                i <= n,
                out@.len() == i,
                forall|k: int|
                    0 <= k < n ==> call_requires(
                        f,
                        (&#[trigger] self@.cells[k], point_of(k, self@.width as int)),
                    ),
                forall|k: int|
                    0 <= k < i ==> call_ensures(
                        f,
                        (&#[trigger] self@.cells[k], point_of(k, self@.width as int)),
                        out@[k],
                    ),
            decreases n - i,
        {
            let p = Point::from_1d(i, self.width);
            let c = &self.cells[i];
            assert(p == point_of(i as int, self@.width as int));
            assert(call_requires(f, (&self@.cells[i as int], point_of(i as int, self@.width as int))));
            let v = f(c, p);
            out.push(v);
            i = i + 1;
        }
        Grid { cells: out, width: self.width }
    }

    /// Every cell with its point, in row-major order.
    pub fn iter(&self) -> (r: Vec<(Point, &T)>)
        requires
            self@.wf(),
        ensures
            r@.len() == self@.cells.len(),
            forall|i: int|
                0 <= i < r@.len() ==> (#[trigger] r@[i]).0 == point_of(i, self@.width as int)
                    && *r@[i].1 == self@.cells[i],
    {
        let n = self.cells.len();
        let mut out: Vec<(Point, &T)> = Vec::new();
        let mut i: usize = 0;
        while i < n
            invariant
                self@.wf(),
                n == self@.cells.len(),
                i <= n,
                out@.len() == i,
                forall|k: int|
                    0 <= k < i ==> (#[trigger] out@[k]).0 == point_of(k, self@.width as int)
                        && *out@[k].1 == self@.cells[k],
            decreases n - i,
        {
            out.push((Point::from_1d(i, self.width), &self.cells[i]));
            i = i + 1;
        }
        out
    }

    /// Every cell with its point, in row-major order, consuming the grid.
    pub fn into_entries(self) -> (r: Vec<(Point, T)>)
        requires
            self@.wf(),
        ensures
            r@.len() == self@.cells.len(),
            forall|i: int|
                0 <= i < r@.len() ==> (#[trigger] r@[i]).0 == point_of(i, self@.width as int)
                    && r@[i].1 == self@.cells[i],
    {
        let ghost g = self@;
        let width = self.width;
        let mut cells = self.cells;
        let n = cells.len();
        let mut rev: Vec<(Point, T)> = Vec::new();
        while cells.len() > 0
            invariant
                g.wf(),
                width == g.width,
                n == g.cells.len(),
                cells@ == g.cells.take(cells@.len() as int),
                rev@.len() + cells@.len() == n,
                forall|k: int|
                    0 <= k < rev@.len() ==> (#[trigger] rev@[k]).0 == point_of(
                        n - 1 - k,
                        width as int,
                    ) && rev@[k].1 == g.cells[n - 1 - k],
            decreases cells@.len(),
        {
            let k = cells.len() - 1;
            let v = cells.pop().unwrap();
            rev.push((Point::from_1d(k, width), v));
        }
        let mut out: Vec<(Point, T)> = Vec::new();
        while rev.len() > 0
            invariant
                rev@.len() + out@.len() == n,
                forall|k: int|
                    0 <= k < rev@.len() ==> (#[trigger] rev@[k]).0 == point_of(
                        n - 1 - k,
                        width as int,
                    ) && rev@[k].1 == g.cells[n - 1 - k],
                forall|k: int|
                    0 <= k < out@.len() ==> (#[trigger] out@[k]).0 == point_of(k, width as int)
                        && out@[k].1 == g.cells[k],
            decreases rev@.len(),
        {
            let e = rev.pop().unwrap();
            out.push(e);
        }
        out
    }
}

/// Something told of every cell as a grid is read, before the cell is
/// parsed: how markers such as a start square are located in the same pass.
pub trait CellHook {
    /// Every `(character, point)` told so far, in order.
    spec fn visits(&self) -> Seq<(char, Point)>;

    /// Told that character `c` stands at `p`.
    fn visit(&mut self, c: char, p: Point)
        ensures
            final(self).visits() == old(self).visits().push((c, p)),
    ;
}

/// A hook that does nothing.
pub struct NoHook {
    seen: Ghost<Seq<(char, Point)>>,
}

impl NoHook {
    /// A hook that does nothing.
    pub fn new() -> (r: NoHook)
        ensures
            r.visits() == Seq::<(char, Point)>::empty(),
    {
        NoHook { seen: Ghost(Seq::empty()) }
    }
}

impl CellHook for NoHook {
    closed spec fn visits(&self) -> Seq<(char, Point)> {
        self.seen@
    }

    fn visit(&mut self, c: char, p: Point) {
        self.seen = Ghost(self.seen@.push((c, p)));
    }
}

/// A hook that records every cell it is told of.
pub struct Recorder {
    pub seen: Vec<(char, Point)>,
}

impl Recorder {
    /// A recorder that has seen nothing yet.
    pub fn new() -> (r: Recorder)
        ensures
            r.seen@ == Seq::<(char, Point)>::empty(),
    {
        Recorder { seen: Vec::new() }
    }

    /// The points at which `c` was seen, in order.
    pub fn points_of(&self, c: char) -> (r: Vec<Point>)
        ensures
            r@ == self.seen@.filter(|v: (char, Point)| v.0 == c).map_values(
                |v: (char, Point)| v.1,
            ),
    {
        let ghost pick = |v: (char, Point)| v.0 == c;
        let ghost second = |v: (char, Point)| v.1;
        let mut out: Vec<Point> = Vec::new();
        let mut i: usize = 0;
        assert(self.seen@.take(0).filter(pick) =~= Seq::<(char, Point)>::empty());
        while i < self.seen.len()
            invariant
                i <= self.seen@.len(),
                pick == (|v: (char, Point)| v.0 == c),
                second == (|v: (char, Point)| v.1),
                out@ == self.seen@.take(i as int).filter(pick).map_values(second),
            decreases self.seen@.len() - i,
        {
            let v = self.seen[i];
            proof {
                assert(self.seen@.take(i + 1) =~= self.seen@.take(i as int).push(v));
                self.seen@.take(i as int).lemma_filter_push(v, pick);
            }
            if v.0 == c {
                out.push(v.1);
                proof {
                    assert(out@ =~= self.seen@.take(i + 1).filter(pick).map_values(second));
                }
            } else {
                proof {
                    assert(out@ =~= self.seen@.take(i + 1).filter(pick).map_values(second));
                }
            }
            i = i + 1;
        }
        assert(self.seen@.take(i as int) =~= self.seen@);
        out
    }
}

impl CellHook for Recorder {
    open spec fn visits(&self) -> Seq<(char, Point)> {
        self.seen@
    }

    fn visit(&mut self, c: char, p: Point) {
        self.seen.push((c, p));
    }
}

/// The cells of line `i` as `(character, point)` pairs.
pub open spec fn row_cells(line: Seq<char>, i: int) -> Seq<(char, Point)> {
    Seq::new(line.len(), |j: int| (line[j], Point(i as isize, j as isize)))
}

/// The cells of all lines as `(character, point)` pairs, row by row.
pub open spec fn grid_cells(rows: Seq<Seq<char>>) -> Seq<(char, Point)>
    decreases rows.len(),
{
    if rows.len() == 0 {
        Seq::empty()
    } else {
        grid_cells(rows.drop_last()) + row_cells(rows.last(), rows.len() - 1)
    }
}

/// Each cell as the one-character text handed to the cell parser.
pub open spec fn cell_texts(cells: Seq<(char, Point)>) -> Seq<Seq<char>> {
    cells.map_values(|v: (char, Point)| seq![v.0])
}

/// Whether `rows` has the shape of a grid: at least one non-empty row, all
/// rows equally long, at most `isize::MAX` cells.
pub open spec fn grid_shape(rows: Seq<Seq<char>>) -> bool {
    &&& rows.len() > 0
    &&& rows[0].len() > 0
    &&& forall|i: int| 0 <= i < rows.len() ==> (#[trigger] rows[i]).len() == rows[0].len()
    &&& rows.len() * rows[0].len() <= isize::MAX
}

/// Lines that all have `w` characters have `w` cells each.
pub proof fn lemma_grid_cells_len(rows: Seq<Seq<char>>, w: int)
    requires
        forall|i: int| 0 <= i < rows.len() ==> (#[trigger] rows[i]).len() == w,
    ensures
        grid_cells(rows).len() == rows.len() * w,
    decreases rows.len(),
{
    if rows.len() > 0 {
        let prefix = rows.drop_last();
        assert forall|i: int| 0 <= i < prefix.len() implies (#[trigger] prefix[i]).len() == w by {
            assert(prefix[i] == rows[i]);
        }
        lemma_grid_cells_len(prefix, w);
        assert(rows.last().len() == w);
        assert((rows.len() - 1) * w + w == rows.len() * w) by (nonlinear_arith);
    }
}

/// In lines all `w` long, the cell at row-major position `i * w + j` is
/// the `j`-th character of line `i`, told with the point `(i, j)`.
pub proof fn lemma_grid_cells_at(rows: Seq<Seq<char>>, w: int, i: int, j: int)
    requires
        forall|k: int| 0 <= k < rows.len() ==> (#[trigger] rows[k]).len() == w,
        0 <= i < rows.len(),
        0 <= j < w,
    ensures
        grid_cells(rows).len() == rows.len() * w,
        grid_cells(rows)[i * w + j] == (rows[i][j], Point(i as isize, j as isize)),
    decreases rows.len(),
{
    let prefix = rows.drop_last();
    assert forall|k: int| 0 <= k < prefix.len() implies (#[trigger] prefix[k]).len() == w by {
        assert(prefix[k] == rows[k]);
    }
    lemma_grid_cells_len(rows, w);
    lemma_grid_cells_len(prefix, w);
    if i < rows.len() - 1 {
        lemma_grid_cells_at(prefix, w, i, j);
        assert(i * w + j < (rows.len() - 1) * w) by (nonlinear_arith)
            requires
                0 <= i < rows.len() - 1,
                0 <= j < w,
        ;
    } else {
        assert(i * w + j - (rows.len() - 1) * w == j) by (nonlinear_arith)
            requires
                i == rows.len() - 1,
        ;
    }
}

/// Reading a grid: the hook is told of the character at row `i`, column
/// `j` exactly at its row-major turn, with the point `(i, j)`, and the
/// grid's cell there is what the cell parser makes of that character.
pub proof fn lemma_grid_parse_cell<T: Parser, H: CellHook>(
    p: GridParser<T, H>,
    s: Seq<char>,
    i: int,
    j: int,
)
    requires
        p.spec_parse(s) is Some,
        0 <= i < lines_of(s).len(),
        0 <= j < lines_of(s)[0].len(),
    ensures
        ({
            let rows = lines_of(s);
            let w = rows[0].len() as int;
            let g = p.spec_parse(s)->0;
            &&& grid_cells(rows).len() == rows.len() * w
            &&& grid_cells(rows)[i * w + j] == (rows[i][j], Point(i as isize, j as isize))
            &&& g.width == w
            &&& g.cells.len() == rows.len() * w
            &&& p.inner.spec_parse(seq![rows[i][j]]) == Some(g.cells[i * w + j])
        }),
{
    let rows = lines_of(s);
    let w = rows[0].len() as int;
    assert(grid_shape(rows));
    lemma_grid_cells_at(rows, w, i, j);
    let ct = cell_texts(grid_cells(rows));
    assert(i * w + j < rows.len() * w) by (nonlinear_arith)
        requires
            0 <= i < rows.len(),
            0 <= j < w,
    ;
    assert(ct.len() == grid_cells(rows).len());
    crate::parser::lemma_parse_all_index(p.inner, ct, i * w + j);
    assert(ct[i * w + j] == seq![rows[i][j]]);
}

/// The cells of `ls` as `(character, point)` pairs, row by row.
fn cell_list(ls: &Vec<Vec<char>>) -> (r: Vec<(char, Point)>)
    ensures
        r@ == grid_cells(views(ls@)),
{
    let ghost lv = views(ls@);
    let mut out: Vec<(char, Point)> = Vec::new();
    let mut i: usize = 0;
    assert(lv.take(0) =~= Seq::<Seq<char>>::empty());
    while i < ls.len()
        invariant
            i <= ls@.len(),
            lv == views(ls@),
            out@ == grid_cells(lv.take(i as int)),
        decreases ls@.len() - i,
    {
        let line = &ls[i];
        let ghost before = out@;
        let mut j: usize = 0;
        while j < line.len()
            invariant
                j <= line@.len(),
                out@ == before + row_cells(line@, i as int).take(j as int),
            decreases line@.len() - j,
        {
            #[verifier::truncate]
            let p = Point(i as isize, j as isize);
            out.push((line[j], p));
            assert(row_cells(line@, i as int).take(j + 1) =~= row_cells(line@, i as int).take(
                j as int,
            ).push((line@[j as int], p)));
            j = j + 1;
        }
        proof {
            assert(row_cells(line@, i as int).take(j as int) =~= row_cells(line@, i as int));
            assert(lv.take(i + 1).drop_last() =~= lv.take(i as int));
            assert(lv[i as int] == line@);
        }
        i = i + 1;
    }
    assert(lv.take(i as int) =~= lv);
    out
}

/// Whether the lines have the shape of a grid (see [`grid_shape`]).
fn shape_ok(ls: &Vec<Vec<char>>) -> (r: bool)
    ensures
        r == grid_shape(views(ls@)),
{
    let ghost lv = views(ls@);
    let h = ls.len();
    if h == 0 {
        return false;
    }
    let w = ls[0].len();
    if w == 0 {
        return false;
    }
    let mut i: usize = 0;
    while i < h
        invariant
            h == ls@.len(),
            lv == views(ls@),
            w == lv[0].len(),
            i <= h,
            forall|k: int| 0 <= k < i ==> (#[trigger] lv[k]).len() == w,
        decreases h - i,
    {
        if ls[i].len() != w {
            assert(lv[i as int].len() != w);
            return false;
        }
        i = i + 1;
    }
    if w > isize::MAX as usize / h {
        assert(h * w > isize::MAX) by (nonlinear_arith)
            requires
                w > isize::MAX as int / h as int,
                h > 0,
        ;
        return false;
    }
    assert(h * w <= isize::MAX) by (nonlinear_arith)
        requires
            w <= isize::MAX as int / h as int,
            h > 0,
    ;
    true
}

/// Reads a grid from text: one row per line, one cell per character, each
/// character parsed by the cell parser as a one-character text. The hook is
/// told of every cell, row by row, just before the cell is parsed.
pub struct GridParser<T: Parser, H: CellHook> {
    pub inner: T,
    pub hook: H,
}

impl<T: Parser> GridParser<T, NoHook> {
    /// A grid parser without a hook.
    pub fn new(inner: T) -> (r: Self)
        ensures
            r.inner == inner,
    {
        GridParser { inner, hook: NoHook::new() }
    }
}

impl<T: Parser, H: CellHook> GridParser<T, H> {
    /// A grid parser that tells `hook` of every cell.
    pub fn with_f(inner: T, hook: H) -> (r: Self)
        ensures
            r.inner == inner,
            r.hook == hook,
    {
        GridParser { inner, hook }
    }

    /// Reads a grid from `s`. On success the hook has been told of every
    /// cell in row-major order; on failure, of the cells up to the one that
    /// failed.
    pub fn parse_grid(&mut self, s: &str) -> (r: Option<Grid<T::Output>>)
        ensures
            agrees(r, old(self).spec_parse(s@)),
            same_parses(final(self).inner, old(self).inner),
            r is Some ==> final(self).hook.visits() == old(self).hook.visits() + grid_cells(
                lines_of(s@),
            ),
            exists|k: int|
                0 <= k <= grid_cells(lines_of(s@)).len() && final(self).hook.visits()
                    == old(self).hook.visits() + grid_cells(lines_of(s@)).take(k),
    {
        let cs = chars_of(s);
        let ls = lines(cs.as_slice());
        let ghost lv = views(ls@);
        let cells = cell_list(&ls);
        let ghost start = *self;
        let mut out: Vec<T::Output> = Vec::new();
        let mut i: usize = 0;
        assert(cell_texts(cells@).take(0) =~= Seq::<Seq<char>>::empty());
        assert(self.hook.visits() + cells@.take(0) =~= self.hook.visits());
        while i < cells.len()
            invariant
                i <= cells@.len(),
                out@.len() == i,
                lv == lines_of(s@),
                cells@ == grid_cells(lv),
                start == *old(self),
                same_parses(self.inner, start.inner),
                self.hook.visits() == start.hook.visits() + cells@.take(i as int),
                parse_all(start.inner, cell_texts(cells@).take(i as int)) == Some(
                    out.deep_view(),
                ),
            decreases cells@.len() - i,
        {
            let (c, p) = cells[i];
            self.hook.visit(c, p);
            let one = vec![c];
            let text = text_of(one.as_slice());
            let r = self.inner.parse(text.as_str());
            proof {
                assert(one@ =~= seq![c]);
                assert(self.hook.visits() =~= start.hook.visits() + cells@.take(i + 1));
                let ct = cell_texts(cells@);
                assert(ct[i as int] == seq![c]);
                assert(ct.take(i + 1).drop_last() =~= ct.take(i as int));
            }
            match r {
                Some(v) => {
                    let ghost old_dv = out.deep_view();
                    out.push(v);
                    assert(out.deep_view() =~= old_dv.push(v.deep_view()));
                },
                None => {
                    proof {
                        let ct = cell_texts(cells@);
                        crate::parser::lemma_parse_all_fails(
                            start.inner,
                            ct.take(i + 1),
                            ct.skip(i + 1),
                        );
                        assert(ct.take(i + 1) + ct.skip(i + 1) =~= ct);
                    }
                    return None;
                },
            }
            i = i + 1;
        }
        proof {
            assert(cell_texts(cells@).take(i as int) =~= cell_texts(cells@));
            assert(cells@.take(i as int) =~= cells@);
        }
        if !shape_ok(&ls) {
            return None;
        }
        let width = ls[0].len();
        proof {
            lemma_grid_cells_len(lv, width as int);
            assert(lv.len() * width > 0) by (nonlinear_arith)
                requires
                    lv.len() > 0,
                    width > 0,
            ;
            assert((lv.len() * width) % (width as int) == 0) by (nonlinear_arith)
                requires
                    width > 0,
            ;
        }
        let ghost out_dv = out.deep_view();
        let ghost out_v = out@;
        let g = Grid::new_from(out, width);
        proof {
            assert(lv[0] == ls@[0]@);
            assert(grid_shape(lv));
            assert(parse_all(old(self).inner, cell_texts(grid_cells(lv))) == Some(out_dv));
            assert(g is Some);
            assert(g->0.cells@ == out_v);
            assert(g->0.deep_view().cells =~= out_dv);
            assert(g->0.deep_view() == GridView { cells: out_dv, width: lv[0].len() });
        }
        g
    }
}

impl<T: Parser, H: CellHook> Parser for GridParser<T, H> {
    type Output = Grid<T::Output>;

    open spec fn spec_parse(&self, s: Seq<char>) -> Option<GridView<<T::Output as DeepView>::V>> {
        let rows = lines_of(s);
        match parse_all(self.inner, cell_texts(grid_cells(rows))) {
            Some(vs) => if grid_shape(rows) {
                Some(GridView { cells: vs, width: rows[0].len() })
            } else {
                None
            },
            None => None,
        }
    }

    /// Also tells the hook of every cell, as [`GridParser::parse_grid`]
    /// does.
    fn parse(&mut self, s: &str) -> (r: Option<Grid<T::Output>>)
        ensures
            r is Some ==> final(self).hook.visits() == old(self).hook.visits() + grid_cells(
                lines_of(s@),
            ),
            exists|k: int|
                0 <= k <= grid_cells(lines_of(s@)).len() && final(self).hook.visits()
                    == old(self).hook.visits() + grid_cells(lines_of(s@)).take(k),
    {
        let ghost start = *self;
        let r = self.parse_grid(s);
        proof {
            assert forall|t: Seq<char>| #[trigger] self.spec_parse(t) == start.spec_parse(t) by {
                crate::parser::lemma_parse_all_same(
                    self.inner,
                    start.inner,
                    cell_texts(grid_cells(lines_of(t))),
                );
            }
        }
        r
    }
}

} // verus!
