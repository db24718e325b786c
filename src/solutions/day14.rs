//! Robots moving with constant velocity on a wrap-around floor 101 wide and
//! 103 tall.
use crate::parser::{agrees, IsInput};
use crate::point::{can_offset, fits_isize, pair_of, translate, Offset, Point};
use crate::text::{split, split_on, text_of, views, Delim, Separator};
use vstd::prelude::*;

verus! {

/// Width of the floor.
pub const MAX_W: isize = 101;

/// Height of the floor.
pub const MAX_H: isize = 103;

/// A robot: where it is and how far it moves each second.
#[derive(Clone, Copy, Debug, PartialEq, Eq, Structural)]
pub struct Robot {
    pub position: Point,
    pub velocity: Offset,
}

/// Whether the robot can move `n` seconds at once without overflow.
pub open spec fn can_step(r: Robot, n: int) -> bool {
    &&& 0 <= n <= isize::MAX
    &&& fits_isize(r.velocity.0 * n)
    &&& fits_isize(r.velocity.1 * n)
    &&& fits_isize(r.position.0 + r.velocity.0 * n)
    &&& fits_isize(r.position.1 + r.velocity.1 * n)
}

/// Where the robot stands after `n` seconds, wrapped onto the floor.
pub open spec fn position_after(r: Robot, n: int) -> Point {
    Point(
        ((r.position.0 + r.velocity.0 * n) % (MAX_H as int)) as isize,
        ((r.position.1 + r.velocity.1 * n) % (MAX_W as int)) as isize,
    )
}

/// The quadrant of `p`: 1 top left, 2 bottom left, 3 top right, 4 bottom
/// right; none on the middle row or column.
pub open spec fn quadrant_of(p: Point) -> Option<usize> {
    let hw = MAX_W / 2;
    let hh = MAX_H / 2;
    if p.1 < hw && p.0 < hh {
        Some(1)
    } else if p.1 < hw && p.0 > hh {
        Some(2)
    } else if p.1 > hw && p.0 < hh {
        Some(3)
    } else if p.1 > hw && p.0 > hh {
        Some(4)
    } else {
        None
    }
}

impl Robot {
    /// Moves the robot `n` seconds ahead, wrapping round the floor.
    pub fn step(&mut self, n: usize)
        requires
            can_step(*old(self), n as int),
        ensures
            final(self).position == position_after(*old(self), n as int),
            final(self).velocity == old(self).velocity,
    {
        let delta = self.velocity.scale(n as isize);
        self.position = self.position.offset(delta);
        self.position.rem((MAX_H, MAX_W));
    }

    /// Moves the robot one second ahead.
    pub fn steponce(&mut self)
        requires
            can_step(*old(self), 1),
        ensures
            final(self).position == position_after(*old(self), 1),
            final(self).velocity == old(self).velocity,
    {
        self.step(1);
    }

    /// The quadrant the robot stands in, if any.
    pub fn quadrant(&self) -> (r: Option<usize>)
        ensures
            r == quadrant_of(self.position),
    {
        let halfw = MAX_W / 2;
        let halfh = MAX_H / 2;
        if self.position.x() < halfw {
            if self.position.y() < halfh {
                return Some(1);
            }
            if self.position.y() > halfh {
                return Some(2);
            }
        }
        if self.position.x() > halfw {
            if self.position.y() < halfh {
                return Some(3);
            }
            if self.position.y() > halfh {
                return Some(4);
            }
        }
        None
    }
}

impl DeepView for Robot {
    type V = Robot;

    open spec fn deep_view(&self) -> Robot {
        *self
    }
}

/// The robot written `p=x,y v=dx,dy`: the text after the first two
/// characters of the first two space-separated fields.
pub open spec fn robot_of(s: Seq<char>) -> Option<Robot> {
    let fields = split_on(s, Delim::Text(seq![' ']));
    if fields.len() < 2 || fields[0].len() < 2 || fields[1].len() < 2 {
        None
    } else {
        match (
            pair_of(fields[0].skip(2), seq![',']),
            pair_of(fields[1].skip(2), seq![',']),
        ) {
            (Some((x, y)), Some((dx, dy))) => Some(
                Robot { position: Point(y, x), velocity: Offset(dy, dx) },
            ),
            _ => None,
        }
    }
}

impl IsInput for Robot {
    open spec fn spec_from_text(s: Seq<char>) -> Option<Robot> {
        robot_of(s)
    }

    fn from_text(s: &[char]) -> (r: Option<Robot>) {
        let space = vec![' '];
        assert(space@ =~= seq![' ']);
        let fields = split(s, &Separator::Text(space));
        proof {
            assert(views(fields@).len() == fields@.len());
        }
        if fields.len() < 2 || fields[0].len() < 2 || fields[1].len() < 2 {
            proof {
                if fields@.len() >= 2 {
                    assert(views(fields@)[0] == fields@[0]@);
                    assert(views(fields@)[1] == fields@[1]@);
                }
            }
            return None;
        }
        proof {
            assert(views(fields@)[0] == fields@[0]@);
            assert(views(fields@)[1] == fields@[1]@);
        }
        let p = crate::text::slice_chars(fields[0].as_slice(), 2, fields[0].len());
        let v = crate::text::slice_chars(fields[1].as_slice(), 2, fields[1].len());
        let ps = text_of(p.as_slice());
        let vs = text_of(v.as_slice());
        proof {
            assert(p@ =~= fields@[0]@.skip(2));
            assert(v@ =~= fields@[1]@.skip(2));
        }
        let comma = ",";
        proof {
            reveal_strlit(",");
            assert(comma@ =~= seq![',']);
        }
        match (Point::parse_xy(ps.as_str(), comma), Offset::parse_xy(vs.as_str(), comma)) {
            (Some(position), Some(velocity)) => Some(Robot { position, velocity }),
            _ => None,
        }
    }
}

/// Number of robots that stand in quadrant `q` after `n` seconds.
pub open spec fn in_quadrant(rs: Seq<Robot>, n: int, q: usize) -> nat
    decreases rs.len(),
{
    if rs.len() == 0 {
        0
    } else {
        in_quadrant(rs.drop_last(), n, q) + if quadrant_of(position_after(rs.last(), n)) == Some(
            q,
        ) {
            1nat
        } else {
            0nat
        }
    }
}

/// The safety factor after `n` seconds: the product of the robot counts of
/// the four quadrants.
pub open spec fn safety_factor(rs: Seq<Robot>, n: int) -> int {
    in_quadrant(rs, n, 1) as int * in_quadrant(rs, n, 2) as int * in_quadrant(rs, n, 3) as int
        * in_quadrant(rs, n, 4) as int
}

/// The safety factor after 100 seconds.
pub fn level1(data: Vec<Robot>) -> (r: usize)
    requires
        forall|i: int| 0 <= i < data@.len() ==> can_step(#[trigger] data@[i], 100),
        safety_factor(data@, 100) <= usize::MAX,
    ensures
        r == safety_factor(data@, 100),
{
    let mut counts: [usize; 4] = [0, 0, 0, 0];
    let mut i: usize = 0;
    while i < data.len()
        invariant
            i <= data@.len(),
            forall|k: int| 0 <= k < data@.len() ==> can_step(#[trigger] data@[k], 100),
            forall|q: int|
                0 <= q < 4 ==> #[trigger] counts@[q] == in_quadrant(
                    data@.take(i as int),
                    100,
                    (q + 1) as usize,
                ),
            forall|q: int| 0 <= q < 4 ==> #[trigger] counts@[q] <= i,
        decreases data@.len() - i,
    {
        let mut robot = data[i];
        robot.step(100);
        let quad = robot.quadrant();
        proof {
            assert(data@.take(i + 1).drop_last() =~= data@.take(i as int));
            assert(data@.take(i + 1).last() == data@[i as int]);
        }
        match quad {
            Some(q) => {
                let k = q - 1;
                counts[k] = counts[k] + 1;
            },
            None => {},
        }
        i = i + 1;
    }
    proof {
        assert(data@.take(i as int) =~= data@);
    }
    let a = counts[0];
    let b = counts[1];
    let c = counts[2];
    let d = counts[3];
    assert(a * b * c * d == safety_factor(data@, 100));
    if a == 0 || b == 0 || c == 0 || d == 0 {
        assert(a * b * c * d == 0) by (nonlinear_arith)
            requires
                a == 0 || b == 0 || c == 0 || d == 0,
        ;
        return 0;
    }
    assert(a * b <= a * b * c * d && a * b * c <= a * b * c * d) by (nonlinear_arith)
        requires
            a >= 1,
            b >= 1,
            c >= 1,
            d >= 1,
    ;
    a * b * c * d
}

/// The robots one second later.
pub open spec fn tick(rs: Seq<Robot>) -> Seq<Robot> {
    rs.map_values(|r: Robot| Robot { position: position_after(r, 1), velocity: r.velocity })
}

/// The robots `i` seconds later, moved one second at a time.
pub open spec fn advance(rs: Seq<Robot>, i: nat) -> Seq<Robot>
    decreases i,
{
    if i == 0 {
        rs
    } else {
        tick(advance(rs, (i - 1) as nat))
    }
}

/// The cell of the 10 by 10 coarse map (of 11 by 11 squares) that `p`
/// falls in.
pub open spec fn block_of(p: Point) -> int {
    (p.0 / 11) * 10 + p.1 / 11
}

/// Number of robots in coarse cell `b`.
pub open spec fn block_count(rs: Seq<Robot>, b: int) -> nat
    decreases rs.len(),
{
    if rs.len() == 0 {
        0
    } else {
        block_count(rs.drop_last(), b) + if block_of(rs.last().position) == b {
            1nat
        } else {
            0nat
        }
    }
}

/// Some coarse cell holds at least 60 robots: the robots draw a picture.
pub open spec fn crowded(rs: Seq<Robot>) -> bool {
    exists|b: int| 0 <= b < 100 && block_count(rs, b) >= 60
}

/// The robot stands on the floor and moves less than the room left before
/// overflow.
pub open spec fn on_floor(r: Robot) -> bool {
    &&& 0 <= r.position.0 < MAX_H
    &&& 0 <= r.position.1 < MAX_W
    &&& fits_isize(r.velocity.0 - MAX_H)
    &&& fits_isize(r.velocity.0 + MAX_H)
    &&& fits_isize(r.velocity.1 - MAX_W)
    &&& fits_isize(r.velocity.1 + MAX_W)
}

/// Counts never exceed the number of robots, and grow with the prefix.
pub proof fn lemma_block_count_grows(rs: Seq<Robot>, b: int, k: int)
    requires
        0 <= k <= rs.len(),
    ensures
        block_count(rs.take(k), b) <= block_count(rs, b),
    decreases rs.len(),
{
    if rs.len() > 0 {
        if k == rs.len() {
            assert(rs.take(k) =~= rs);
        } else {
            lemma_block_count_grows(rs.drop_last(), b, k);
            assert(rs.drop_last().take(k) =~= rs.take(k));
        }
    } else {
        assert(rs.take(k) =~= rs);
    }
}

/// Robots on the floor stay on it.
pub proof fn lemma_tick_on_floor(rs: Seq<Robot>)
    requires
        forall|i: int| 0 <= i < rs.len() ==> on_floor(#[trigger] rs[i]),
    ensures
        forall|i: int| 0 <= i < tick(rs).len() ==> on_floor(#[trigger] tick(rs)[i]),
        tick(rs).len() == rs.len(),
{
}

/// The first second, from 1 to `limit`, after which the robots are
/// crowded; 0 if there is none.
pub open spec fn first_crowded(rs: Seq<Robot>, limit: nat) -> nat {
    if exists|i: nat| 1 <= i <= limit && crowded(advance(rs, i)) {
        choose|i: nat|
            1 <= i <= limit && crowded(advance(rs, i)) && forall|j: nat|
                1 <= j < i ==> !crowded(#[trigger] advance(rs, j))
    } else {
        0
    }
}

/// Whether some coarse cell of `rs` holds 60 robots.
fn is_crowded(rs: &Vec<Robot>) -> (r: bool)
    requires
        forall|i: int| 0 <= i < rs@.len() ==> on_floor(#[trigger] rs@[i]),
    ensures
        r == crowded(rs@),
{
    let mut draw: Vec<u32> = vec![0u32; 100];
    let mut k: usize = 0;
    while k < rs.len()
        invariant
            forall|i: int| 0 <= i < rs@.len() ==> on_floor(#[trigger] rs@[i]),
            k <= rs@.len(),
            draw@.len() == 100,
            forall|b: int| 0 <= b < 100 ==> #[trigger] draw@[b] == block_count(rs@.take(k as int), b),
            forall|b: int| 0 <= b < 100 ==> #[trigger] draw@[b] < 60,
        decreases rs@.len() - k,
    {
        let robot = rs[k];
        let re_y = robot.position.y() / 11;
        let re_x = robot.position.x() / 11;
        let idx = (re_y * 10 + re_x) as usize;
        proof {
            assert(rs@.take(k + 1).drop_last() =~= rs@.take(k as int));
            assert(rs@.take(k + 1).last() == robot);
            assert(idx == block_of(robot.position));
        }
        draw.set(idx, draw[idx] + 1);
        if draw[idx] >= 60 {
            proof {
                lemma_block_count_grows(rs@, idx as int, k + 1);
            }
            return true;
        }
        k = k + 1;
    }
    proof {
        assert(rs@.take(k as int) =~= rs@);
        assert forall|b: int| 0 <= b < 100 implies !(block_count(rs@, b) >= 60) by {
            assert(draw@[b] < 60);
        }
    }
    false
}

/// A robot on the floor can move one second.
pub proof fn lemma_on_floor_can_step(r: Robot)
    requires
        on_floor(r),
    ensures
        can_step(r, 1),
{
    assert(r.velocity.0 * 1 == r.velocity.0);
    assert(r.velocity.1 * 1 == r.velocity.1);
}

/// Moves every robot one second ahead.
fn tick_all(data: &mut Vec<Robot>)
    requires
        forall|q: int| 0 <= q < old(data)@.len() ==> on_floor(#[trigger] old(data)@[q]),
    ensures
        final(data)@ == tick(old(data)@),
        forall|q: int| 0 <= q < final(data)@.len() ==> on_floor(#[trigger] final(data)@[q]),
{
    let ghost before = data@;
    let mut k: usize = 0;
    while k < data.len()
        invariant
            data@.len() == before.len(),
            forall|q: int| 0 <= q < before.len() ==> on_floor(#[trigger] before[q]),
            k <= data@.len(),
            forall|q: int| 0 <= q < k ==> #[trigger] data@[q] == tick(before)[q],
            forall|q: int| k <= q < data@.len() ==> #[trigger] data@[q] == before[q],
        decreases data@.len() - k,
    {
        let mut robot = data[k];
        proof {
            assert(robot == before[k as int]);
            lemma_on_floor_can_step(robot);
        }
        robot.steponce();
        data.set(k, robot);
        k = k + 1;
    }
    proof {
        assert(data@ =~= tick(before));
        lemma_tick_on_floor(before);
    }
}

/// A second at which the robots are crowded, with no earlier one, is the
/// first.
pub proof fn lemma_first_crowded_at(rs: Seq<Robot>, i: nat, limit: nat)
    requires
        1 <= i <= limit,
        crowded(advance(rs, i)),
        forall|j: nat| 1 <= j < i ==> !crowded(#[trigger] advance(rs, j)),
    ensures
        first_crowded(rs, limit) == i,
{
    assert(exists|j: nat| 1 <= j <= limit && crowded(advance(rs, j)));
    let w = choose|w: nat|
        1 <= w <= limit && crowded(advance(rs, w)) && forall|j: nat|
            1 <= j < w ==> !crowded(#[trigger] advance(rs, j));
    if w < i {
        assert(!crowded(advance(rs, w)));
    } else if w > i {
        assert(!crowded(advance(rs, i)));
    }
}

/// How long the floor repeats: every robot is back after `101 * 103`
/// seconds.
pub const PERIOD: usize = 10403;

/// The first second at which the robots crowd into one coarse cell, within
/// one period of the floor; 0 if they never do.
pub fn level2(robots: Vec<Robot>) -> (r: usize)
    requires
        forall|i: int| 0 <= i < robots@.len() ==> on_floor(#[trigger] robots@[i]),
    ensures
        r == first_crowded(robots@, PERIOD as nat),
{
    let mut data = robots;
    let ghost start = data@;
    let mut i: usize = 1;
    while i <= PERIOD
        invariant
            1 <= i <= PERIOD + 1,
            start == robots@,
            data@ == advance(start, (i - 1) as nat),
            forall|k: int| 0 <= k < data@.len() ==> on_floor(#[trigger] data@[k]),
            forall|j: nat| 1 <= j < i ==> !crowded(#[trigger] advance(start, j)),
        decreases PERIOD + 1 - i,
    {
        tick_all(&mut data);
        assert(data@ == advance(start, i as nat));
        if is_crowded(&data) {
            proof {
                lemma_first_crowded_at(start, i as nat, PERIOD as nat);
            }
            return i;
        }
        i = i + 1;
    }
    proof {
        assert(!exists|j: nat| 1 <= j <= PERIOD && crowded(advance(start, j)));
    }
    0
}

} // verus!
