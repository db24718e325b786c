//! Coordinates (`Point`), displacements (`Offset`) and the four unit
//! directions (`Direction`). Everything is `(y, x)`.
use crate::text::{chars_of, int_in, parse_int, split, split_on, views, Delim, Separator};
use vstd::prelude::*;

verus! {

/// An absolute position `(row, col)`. May be negative; it only becomes a
/// valid index relative to a particular grid's extent.
#[derive(Clone, Copy, Debug, PartialEq, Eq, Structural, Hash)]
pub struct Point(pub isize, pub isize);

/// A displacement `(dy, dx)` that can be added to a [`Point`].
#[derive(Clone, Copy, Debug, PartialEq, Eq, Structural, Hash)]
pub struct Offset(pub isize, pub isize);

/// True when `v` fits in an `isize`.
pub open spec fn fits_isize(v: int) -> bool {
    isize::MIN <= v <= isize::MAX
}

/// True when `p + o` can be computed without overflow.
pub open spec fn can_offset(p: Point, o: Offset) -> bool {
    fits_isize(p.0 + o.0) && fits_isize(p.1 + o.1)
}

/// `|v|`.
pub open spec fn abs_int(v: int) -> int {
    if v < 0 {
        -v
    } else {
        v
    }
}

/// True when `p` lies inside a `height` by `width` extent anchored at the
/// origin.
pub open spec fn in_extent(p: Point, height: int, width: int) -> bool {
    0 <= p.0 < height && 0 <= p.1 < width
}

/// True when neither component of `o` is `isize::MIN`.
pub open spec fn can_negate(o: Offset) -> bool {
    o.0 != isize::MIN && o.1 != isize::MIN
}

/// The opposite displacement of `o`.
pub open spec fn negate(o: Offset) -> Offset
    recommends
        can_negate(o),
{
    Offset((-o.0) as isize, (-o.1) as isize)
}

/// `p` translated by `o`.
pub open spec fn translate(p: Point, o: Offset) -> Point
    recommends
        can_offset(p, o),
{
    Point((p.0 + o.0) as isize, (p.1 + o.1) as isize)
}

/// The first two pieces of `s` split on `sep`, read as `isize`; `None` if
/// there are fewer than two pieces or either is not an `isize`. Pieces after
/// the second are ignored.
pub open spec fn pair_of(s: Seq<char>, sep: Seq<char>) -> Option<(isize, isize)> {
    let parts = split_on(s, Delim::Text(sep));
    if parts.len() < 2 {
        None
    } else {
        match (
            int_in(parts[0], isize::MIN as int, isize::MAX as int),
            int_in(parts[1], isize::MIN as int, isize::MAX as int),
        ) {
            (Some(a), Some(b)) => Some((a as isize, b as isize)),
            _ => None,
        }
    }
}

/// Reads the pair of integers at the start of `s` (see [`pair_of`]).
pub fn parse_pair(s: &str, sep: &str) -> (r: Option<(isize, isize)>)
    ensures
        r == pair_of(s@, sep@),
{
    let cs = chars_of(s);
    let sp = Separator::Text(chars_of(sep));
    let parts = split(cs.as_slice(), &sp);
    proof {
        assert(views(parts@).len() == parts@.len());
    }
    if parts.len() < 2 {
        return None;
    }
    proof {
        assert(views(parts@)[0] == parts@[0]@);
        assert(views(parts@)[1] == parts@[1]@);
    }
    let a = parse_int(parts[0].as_slice(), isize::MIN as i128, isize::MAX as i128);
    let b = parse_int(parts[1].as_slice(), isize::MIN as i128, isize::MAX as i128);
    match (a, b) {
        (Some(a), Some(b)) => Some((a as isize, b as isize)),
        _ => None,
    }
}

impl Offset {
    /// Reads `"x<sep>y"` as the offset `(y, x)`.
    pub fn parse_xy(s: &str, sep: &str) -> (r: Option<Offset>)
        ensures
            r == (match pair_of(s@, sep@) {
                Some((x, y)) => Some(Offset(y, x)),
                None => None,
            }),
    {
        match parse_pair(s, sep) {
            Some((x, y)) => Some(Offset(y, x)),
            None => None,
        }
    }

    /// Reads `"y<sep>x"` as the offset `(y, x)`.
    pub fn parse_yx(s: &str, sep: &str) -> (r: Option<Offset>)
        ensures
            r == (match pair_of(s@, sep@) {
                Some((y, x)) => Some(Offset(y, x)),
                None => None,
            }),
    {
        match parse_pair(s, sep) {
            Some((y, x)) => Some(Offset(y, x)),
            None => None,
        }
    }

    /// Row component.
    pub fn y(&self) -> (r: isize)
        ensures
            r == self.0,
    {
        self.0
    }

    /// Column component.
    pub fn x(&self) -> (r: isize)
        ensures
            r == self.1,
    {
        self.1
    }

    /// The opposite displacement. Both components must not be `isize::MIN`.
    pub fn neg(self) -> (r: Offset)
        requires
            can_negate(self),
        ensures
            r == negate(self),
    {
        Offset(-self.0, -self.1)
    }

    /// The displacement scaled by `k`.
    pub fn scale(self, k: isize) -> (r: Offset)
        requires
            fits_isize(self.0 * k),
            fits_isize(self.1 * k),
        ensures
            r.0 == self.0 * k,
            r.1 == self.1 * k,
    {
        Offset(self.0 * k, self.1 * k)
    }
}

impl Point {
    /// Reads `"x<sep>y"` as the point `(y, x)`.
    pub fn parse_xy(s: &str, sep: &str) -> (r: Option<Point>)
        ensures
            r == (match pair_of(s@, sep@) {
                Some((x, y)) => Some(Point(y, x)),
                None => None,
            }),
    {
        match parse_pair(s, sep) {
            Some((x, y)) => Some(Point(y, x)),
            None => None,
        }
    }

    /// Reads `"y<sep>x"` as the point `(y, x)`.
    pub fn parse_yx(s: &str, sep: &str) -> (r: Option<Point>)
        ensures
            r == (match pair_of(s@, sep@) {
                Some((y, x)) => Some(Point(y, x)),
                None => None,
            }),
    {
        match parse_pair(s, sep) {
            Some((y, x)) => Some(Point(y, x)),
            None => None,
        }
    }

    /// The point `(y, x)`.
    pub fn new(y: usize, x: usize) -> (r: Point)
        requires
            y <= isize::MAX,
            x <= isize::MAX,
        ensures
            r.0 == y,
            r.1 == x,
    {
        Point(y as isize, x as isize)
    }

    /// Row component.
    pub fn y(&self) -> (r: isize)
        ensures
            r == self.0,
    {
        self.0
    }

    /// Column component.
    pub fn x(&self) -> (r: isize)
        ensures
            r == self.1,
    {
        self.1
    }

    /// Component-wise translation by `offset`.
    pub fn offset(&self, offset: Offset) -> (r: Point)
        requires
            can_offset(*self, offset),
        ensures
            r == translate(*self, offset),
            r.0 == self.0 + offset.0,
            r.1 == self.1 + offset.1,
    {
        Point(self.0 + offset.0, self.1 + offset.1)
    }

    /// Replaces each coordinate by its Euclidean remainder modulo the
    /// matching component of `(y, x)`, as used for wrap-around movement.
    pub fn rem(&mut self, bounds: (isize, isize))
        requires
            bounds.0 != 0,
            bounds.1 != 0,
            !(old(self).0 == isize::MIN && bounds.0 == -1),
            !(old(self).1 == isize::MIN && bounds.1 == -1),
        ensures
            final(self).0 == old(self).0 as int % bounds.0 as int,
            final(self).1 == old(self).1 as int % bounds.1 as int,
            0 <= final(self).0 < abs_int(bounds.0 as int),
            0 <= final(self).1 < abs_int(bounds.1 as int),
    {
        let (y, x) = bounds;
        match self.0.checked_rem_euclid(y) {
            Some(r) => self.0 = r,
            None => {},
        }
        match self.1.checked_rem_euclid(x) {
            Some(r) => self.1 = r,
            None => {},
        }
    }

    /// Differences `(self.x - other.x, self.y - other.y)`: column first.
    pub fn ortho_diff(&self, other: Point) -> (r: (isize, isize))
        requires
            fits_isize(self.0 - other.0),
            fits_isize(self.1 - other.1),
        ensures
            r.0 == self.1 - other.1,
            r.1 == self.0 - other.0,
    {
        let Point(x1, y1) = *self;
        let Point(x2, y2) = other;
        let dx = x1 - x2;
        let dy = y1 - y2;
        (dy, dx)
    }

    /// Manhattan (taxicab) distance between the two points.
    pub fn manhattan(&self, other: Point) -> (r: usize)
        requires
            fits_isize(self.0 - other.0),
            fits_isize(self.1 - other.1),
            abs_int(self.0 - other.0) + abs_int(self.1 - other.1) <= usize::MAX,
        ensures
            r == abs_int(self.0 - other.0) + abs_int(self.1 - other.1),
    {
        let (dy, dx) = self.ortho_diff(other);
        unsigned_abs(dy) + unsigned_abs(dx)
    }

    /// Both coordinates as `usize`, or `None` when one is negative.
    pub fn as_usize(&self) -> (r: Option<(usize, usize)>)
        ensures
            r == (if self.0 < 0 || self.1 < 0 {
                None
            } else {
                Some((self.0 as usize, self.1 as usize))
            }),
    {
        if self.0 < 0 || self.1 < 0 {
            None
        } else {
            Some((self.0 as usize, self.1 as usize))
        }
    }

    /// The index `(row, col)` of this point in a grid of size
    /// `(height, width)`, or `None` when the point lies outside it.
    pub fn as_usize_lim(&self, lim: (usize, usize)) -> (r: Option<(usize, usize)>)
        ensures
            r == (if in_extent(*self, lim.0 as int, lim.1 as int) {
                Some((self.0 as usize, self.1 as usize))
            } else {
                None
            }),
    {
        let (y, x) = match self.as_usize() {
            Some(yx) => yx,
            None => return None,
        };
        if y >= lim.0 || x >= lim.1 {
            None
        } else {
            Some((y, x))
        }
    }

    /// The point at row-major position `i` of a grid with `width` columns.
    /// The column is cast to `isize` as it stands (it only wraps when
    /// `width` itself exceeds `isize::MAX`).
    pub fn from_1d(i: usize, width: usize) -> (r: Point)
        requires
            width > 0,
            i / width <= isize::MAX,
        ensures
            r.0 == i / width,
            r.1 == (i % width) as isize,
            i % width <= isize::MAX ==> r.1 == i % width,
    {
        let y = i / width;
        let x = i % width;
        #[verifier::truncate]
        let xc = x as isize;
        Point(y as isize, xc)
    }

    /// Translation by the opposite of `offset`.
    pub fn offset_back(&self, offset: Offset) -> (r: Point)
        requires
            fits_isize(self.0 - offset.0),
            fits_isize(self.1 - offset.1),
        ensures
            r.0 == self.0 - offset.0,
            r.1 == self.1 - offset.1,
    {
        Point(self.0 - offset.0, self.1 - offset.1)
    }
}

impl std::ops::Add<Offset> for Point {
    type Output = Point;

    fn add(self, offset: Offset) -> (r: Point) {
        self.offset(offset)
    }
}

impl vstd::std_specs::ops::AddSpecImpl<Offset> for Point {
    open spec fn obeys_add_spec() -> bool {
        true
    }

    open spec fn add_req(self, offset: Offset) -> bool {
        can_offset(self, offset)
    }

    open spec fn add_spec(self, offset: Offset) -> Point {
        translate(self, offset)
    }
}

impl std::ops::Sub<Offset> for Point {
    type Output = Point;

    fn sub(self, offset: Offset) -> (r: Point) {
        self.offset_back(offset)
    }
}

impl vstd::std_specs::ops::SubSpecImpl<Offset> for Point {
    open spec fn obeys_sub_spec() -> bool {
        true
    }

    open spec fn sub_req(self, offset: Offset) -> bool {
        fits_isize(self.0 - offset.0) && fits_isize(self.1 - offset.1)
    }

    open spec fn sub_spec(self, offset: Offset) -> Point {
        Point((self.0 - offset.0) as isize, (self.1 - offset.1) as isize)
    }
}

impl std::ops::Neg for Offset {
    type Output = Offset;

    fn neg(self) -> (r: Offset) {
        Offset(-self.0, -self.1)
    }
}

impl vstd::std_specs::ops::NegSpecImpl for Offset {
    open spec fn obeys_neg_spec() -> bool {
        true
    }

    open spec fn neg_req(self) -> bool {
        can_negate(self)
    }

    open spec fn neg_spec(self) -> Offset {
        negate(self)
    }
}

impl std::ops::Mul<isize> for Offset {
    type Output = Offset;

    fn mul(self, k: isize) -> (r: Offset) {
        self.scale(k)
    }
}

impl vstd::std_specs::ops::MulSpecImpl<isize> for Offset {
    open spec fn obeys_mul_spec() -> bool {
        true
    }

    open spec fn mul_req(self, k: isize) -> bool {
        fits_isize(self.0 * k) && fits_isize(self.1 * k)
    }

    open spec fn mul_spec(self, k: isize) -> Offset {
        Offset((self.0 * k) as isize, (self.1 * k) as isize)
    }
}

impl std::ops::Mul<usize> for Offset {
    type Output = Offset;

    fn mul(self, k: usize) -> (r: Offset) {
        self.scale(k as isize)
    }
}

impl vstd::std_specs::ops::MulSpecImpl<usize> for Offset {
    open spec fn obeys_mul_spec() -> bool {
        true
    }

    open spec fn mul_req(self, k: usize) -> bool {
        k <= isize::MAX && fits_isize(self.0 * k) && fits_isize(self.1 * k)
    }

    open spec fn mul_spec(self, k: usize) -> Offset {
        Offset((self.0 * k) as isize, (self.1 * k) as isize)
    }
}

/// Translating by `o` and then by its opposite gives back the point.
pub proof fn lemma_offset_round_trip(p: Point, o: Offset)
    requires
        can_offset(p, o),
        can_negate(o),
    ensures
        can_offset(translate(p, o), negate(o)),
        translate(translate(p, o), negate(o)) == p,
{
}

/// One of the four unit directions on the grid.
#[derive(Clone, Copy, Debug, PartialEq, Eq, Structural, PartialOrd, Ord, Hash)]
pub enum Direction {
    Up,
    Right,
    Down,
    Left,
}

/// The unit displacement of a direction.
pub open spec fn unit_of(d: Direction) -> Offset {
    match d {
        Direction::Up => Offset(-1isize, 0isize),
        Direction::Down => Offset(1isize, 0isize),
        Direction::Left => Offset(0isize, -1isize),
        Direction::Right => Offset(0isize, 1isize),
    }
}

/// The direction pointing the other way.
pub open spec fn opposite_of(d: Direction) -> Direction {
    match d {
        Direction::Up => Direction::Down,
        Direction::Down => Direction::Up,
        Direction::Left => Direction::Right,
        Direction::Right => Direction::Left,
    }
}

/// The direction a quarter turn clockwise: Up, Right, Down, Left, Up.
pub open spec fn clockwise_of(d: Direction) -> Direction {
    match d {
        Direction::Up => Direction::Right,
        Direction::Right => Direction::Down,
        Direction::Down => Direction::Left,
        Direction::Left => Direction::Up,
    }
}

impl Direction {
    /// All four directions, clockwise from `Up`.
    pub fn all() -> (r: [Direction; 4])
        ensures
            r@ == seq![Direction::Up, Direction::Right, Direction::Down, Direction::Left],
    {
        let r = [Direction::Up, Direction::Right, Direction::Down, Direction::Left];
        assert(r@ =~= seq![Direction::Up, Direction::Right, Direction::Down, Direction::Left]);
        r
    }

    /// 0 for the vertical axis (`Up`, `Down`), 1 for the horizontal one.
    pub fn axis_ord(&self) -> (r: usize)
        ensures
            r == (match *self {
                Direction::Up | Direction::Down => 0usize,
                Direction::Left | Direction::Right => 1usize,
            }),
    {
        match self {
            Direction::Up | Direction::Down => 0,
            Direction::Left | Direction::Right => 1,
        }
    }

    /// The direction pointing the other way.
    pub fn opposite(&self) -> (r: Direction)
        ensures
            r == opposite_of(*self),
    {
        match self {
            Direction::Up => Direction::Down,
            Direction::Down => Direction::Up,
            Direction::Left => Direction::Right,
            Direction::Right => Direction::Left,
        }
    }

    /// The direction a quarter turn clockwise.
    pub fn rotate_clockwise(&self) -> (r: Direction)
        ensures
            r == clockwise_of(*self),
    {
        match self {
            Direction::Up => Direction::Right,
            Direction::Right => Direction::Down,
            Direction::Down => Direction::Left,
            Direction::Left => Direction::Up,
        }
    }

    /// The unit displacement of this direction (`Up` is `(-1, 0)`).
    pub fn vector(&self) -> (r: Offset)
        ensures
            r == unit_of(*self),
    {
        match self {
            Direction::Up => Offset(-1, 0),
            Direction::Down => Offset(1, 0),
            Direction::Left => Offset(0, -1),
            Direction::Right => Offset(0, 1),
        }
    }
}

/// Taking the opposite twice gives back the direction, and four quarter
/// turns clockwise make a full turn.
pub proof fn lemma_direction_cycles(d: Direction)
    ensures
        opposite_of(opposite_of(d)) == d,
        clockwise_of(clockwise_of(clockwise_of(clockwise_of(d)))) == d,
        opposite_of(d) == clockwise_of(clockwise_of(d)),
        unit_of(opposite_of(d)) == negate(unit_of(d)),
{
}

impl DeepView for Point {
    type V = Point;

    open spec fn deep_view(&self) -> Point {
        *self
    }
}

impl DeepView for Offset {
    type V = Offset;

    open spec fn deep_view(&self) -> Offset {
        *self
    }
}

impl DeepView for Direction {
    type V = Direction;

    open spec fn deep_view(&self) -> Direction {
        *self
    }
}

/// Squared Euclidean distance from the origin.
pub open spec fn norm_sq(p: Point) -> int {
    p.0 * p.0 + p.1 * p.1
}

/// Order of points: by distance from the origin, then by row, then by column.
pub open spec fn point_order(a: Point, b: Point) -> std::cmp::Ordering {
    if norm_sq(a) < norm_sq(b) {
        std::cmp::Ordering::Less
    } else if norm_sq(a) > norm_sq(b) {
        std::cmp::Ordering::Greater
    } else if a.0 < b.0 {
        std::cmp::Ordering::Less
    } else if a.0 > b.0 {
        std::cmp::Ordering::Greater
    } else if a.1 < b.1 {
        std::cmp::Ordering::Less
    } else if a.1 > b.1 {
        std::cmp::Ordering::Greater
    } else {
        std::cmp::Ordering::Equal
    }
}

/// `|v|` as a `u128`.
fn magnitude(v: isize) -> (r: u128)
    ensures
        r == if v < 0 { -v } else { v as int },
{
    if v < 0 {
        ((-(v as i128)) as u128)
    } else {
        v as u128
    }
}

/// `|v|` as a `usize`.
fn unsigned_abs(v: isize) -> (r: usize)
    ensures
        r == abs_int(v as int),
{
    if v < 0 {
        (-(v as i128)) as usize
    } else {
        v as usize
    }
}

/// Squared distance of `p` from the origin, computed exactly.
fn norm_sq_exec(p: Point) -> (r: u128)
    ensures
        r == norm_sq(p),
{
    let a = magnitude(p.0);
    let b = magnitude(p.1);
    assert(a * a <= 0x4000_0000_0000_0000_0000_0000_0000_0000) by (nonlinear_arith)
        requires
            a <= 0x8000_0000_0000_0000,
    ;
    assert(b * b <= 0x4000_0000_0000_0000_0000_0000_0000_0000) by (nonlinear_arith)
        requires
            b <= 0x8000_0000_0000_0000,
    ;
    assert(a * a == p.0 * p.0) by (nonlinear_arith)
        requires
            a == p.0 || a == -p.0,
    ;
    assert(b * b == p.1 * p.1) by (nonlinear_arith)
        requires
            b == p.1 || b == -p.1,
    ;
    a * a + b * b
}

impl PartialOrd for Point {
    fn partial_cmp(&self, other: &Point) -> (r: Option<std::cmp::Ordering>) {
        let na = norm_sq_exec(*self);
        let nb = norm_sq_exec(*other);
        let o = if na < nb {
            std::cmp::Ordering::Less
        } else if na > nb {
            std::cmp::Ordering::Greater
        } else if self.0 < other.0 {
            std::cmp::Ordering::Less
        } else if self.0 > other.0 {
            std::cmp::Ordering::Greater
        } else if self.1 < other.1 {
            std::cmp::Ordering::Less
        } else if self.1 > other.1 {
            std::cmp::Ordering::Greater
        } else {
            std::cmp::Ordering::Equal
        };
        Some(o)
    }
}

impl vstd::std_specs::cmp::PartialOrdSpecImpl for Point {
    open spec fn obeys_partial_cmp_spec() -> bool {
        true
    }

    open spec fn partial_cmp_spec(&self, other: &Point) -> Option<std::cmp::Ordering> {
        Some(point_order(*self, *other))
    }
}

} // verus!
