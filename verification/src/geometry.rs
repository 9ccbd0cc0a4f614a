//! Geometry primitives: an integer 2D position, the eight unit movement
//! directions, and the two turning senses (chirality) that parameterize
//! corner scans.

use vstd::prelude::*;
use vstd::arithmetic::div_mod::{lemma_add_mod_noop, lemma_small_mod};

verus! {

/// Largest coordinate magnitude the library admits. Keeping coordinates
/// within this bound leaves room for every intermediate sum the search
/// computes to fit in an `i64`.
pub const MAX_COORD: i64 = 0x4000_0000_0000;

/// A position on the lattice: a pair of signed integers.
#[derive(Clone, Copy, PartialEq, Eq, Structural, Debug)]
pub struct Pos {
    pub x: i64,
    pub y: i64,
}

/// One of the eight unit movement directions (four orthogonal, four
/// diagonal). Rotation by one step turns 45 degrees and is closed over
/// the eight-element set.
#[derive(Clone, Copy, PartialEq, Eq, Structural, Debug)]
pub enum Direction {
    North,
    Northeast,
    East,
    Southeast,
    South,
    Southwest,
    West,
    Northwest,
}

/// The turning sense used for corner scans: one code path serves both
/// senses because rotation takes its sign from the chirality.
#[derive(Clone, Copy, PartialEq, Eq, Structural, Debug)]
pub enum Chirality {
    Clockwise,
    Counterclockwise,
}

pub open spec fn abs_val(v: int) -> int {
    if v >= 0 {
        v
    } else {
        -v
    }
}

/// Both coordinates of `p` lie in `[-bound, bound]`.
pub open spec fn within(p: Pos, bound: int) -> bool {
    &&& -bound <= p.x <= bound
    &&& -bound <= p.y <= bound
}

pub open spec fn in_range(p: Pos) -> bool {
    within(p, MAX_COORD as int)
}

/// The direction whose index is `i` (indices count clockwise from north).
pub open spec fn dir_of_index(i: int) -> Direction {
    if i == 0 {
        Direction::North
    } else if i == 1 {
        Direction::Northeast
    } else if i == 2 {
        Direction::East
    } else if i == 3 {
        Direction::Southeast
    } else if i == 4 {
        Direction::South
    } else if i == 5 {
        Direction::Southwest
    } else if i == 6 {
        Direction::West
    } else {
        Direction::Northwest
    }
}

impl Direction {
    pub open spec fn index(self) -> int {
        match self {
            Direction::North => 0,
            Direction::Northeast => 1,
            Direction::East => 2,
            Direction::Southeast => 3,
            Direction::South => 4,
            Direction::Southwest => 5,
            Direction::West => 6,
            Direction::Northwest => 7,
        }
    }

    /// x component of the unit vector.
    pub open spec fn dx(self) -> int {
        match self {
            Direction::North => 0,
            Direction::Northeast => 1,
            Direction::East => 1,
            Direction::Southeast => 1,
            Direction::South => 0,
            Direction::Southwest => -1,
            Direction::West => -1,
            Direction::Northwest => -1,
        }
    }

    /// y component of the unit vector.
    pub open spec fn dy(self) -> int {
        match self {
            Direction::North => 1,
            Direction::Northeast => 1,
            Direction::East => 0,
            Direction::Southeast => -1,
            Direction::South => -1,
            Direction::Southwest => -1,
            Direction::West => 0,
            Direction::Northwest => 1,
        }
    }

    /// Rotation by `n` steps of 45 degrees, clockwise for positive `n`.
    pub open spec fn spec_rotate(self, n: int) -> Direction {
        dir_of_index((self.index() + n) % 8)
    }

    pub fn from_index(i: u8) -> (d: Direction)
        requires
            i < 8,
        ensures
            d == dir_of_index(i as int),
    {
        match i {
            0 => Direction::North,
            1 => Direction::Northeast,
            2 => Direction::East,
            3 => Direction::Southeast,
            4 => Direction::South,
            5 => Direction::Southwest,
            6 => Direction::West,
            _ => Direction::Northwest,
        }
    }

    pub fn to_index(self) -> (i: u8)
        ensures
            i as int == self.index(),
    {
        match self {
            Direction::North => 0,
            Direction::Northeast => 1,
            Direction::East => 2,
            Direction::Southeast => 3,
            Direction::South => 4,
            Direction::Southwest => 5,
            Direction::West => 6,
            Direction::Northwest => 7,
        }
    }

    /// x component as a run-time value.
    pub fn step_x(self) -> (v: i64)
        ensures
            v as int == self.dx(),
    {
        match self {
            Direction::North => 0,
            Direction::Northeast => 1,
            Direction::East => 1,
            Direction::Southeast => 1,
            Direction::South => 0,
            Direction::Southwest => -1,
            Direction::West => -1,
            Direction::Northwest => -1,
        }
    }

    /// y component as a run-time value.
    pub fn step_y(self) -> (v: i64)
        ensures
            v as int == self.dy(),
    {
        match self {
            Direction::North => 1,
            Direction::Northeast => 1,
            Direction::East => 0,
            Direction::Southeast => -1,
            Direction::South => -1,
            Direction::Southwest => -1,
            Direction::West => 0,
            Direction::Northwest => 1,
        }
    }

    /// Rotate by `n` steps of 45 degrees, clockwise for positive `n`.
    pub fn rotate(self, n: i32) -> (d: Direction)
        ensures
            d == self.spec_rotate(n as int),
    {
        let m: i32 = n.checked_rem_euclid(8).unwrap();
        let i: u8 = self.to_index();
        let d = Direction::from_index(((i as u32 + m as u32) % 8) as u8);
        proof {
            lemma_small_mod(self.index() as nat, 8);
            lemma_add_mod_noop(self.index(), n as int, 8);
        }
        d
    }
}

impl Chirality {
    /// Apply `direction.rotate(n)` for the clockwise sense and
    /// `direction.rotate(-n)` for the counterclockwise sense.
    pub open spec fn spec_rotate(self, direction: Direction, n: int) -> Direction {
        match self {
            Chirality::Clockwise => direction.spec_rotate(n),
            Chirality::Counterclockwise => direction.spec_rotate(-n),
        }
    }

    pub fn rotate(self, direction: Direction, n: i32) -> (d: Direction)
        requires
            n > i32::MIN,
        ensures
            d == self.spec_rotate(direction, n as int),
    {
        match self {
            Chirality::Clockwise => direction.rotate(n),
            Chirality::Counterclockwise => direction.rotate(-n),
        }
    }
}

/// Multiply a unit component (one of -1, 0, 1) by a step count without
/// leaving linear arithmetic.
fn mul_unit(v: i64, n: i64) -> (r: i64)
    requires
        -1 <= v <= 1,
        -0x1000_0000_0000_0000 <= n <= 0x1000_0000_0000_0000,
    ensures
        r as int == v * n,
        -0x1000_0000_0000_0000 <= r <= 0x1000_0000_0000_0000,
{
    if v == 1 {
        n
    } else if v == -1 {
        -n
    } else {
        0
    }
}

/// Diagonal (Chebyshev) distance: the number of eight-direction unit steps
/// between two positions.
pub open spec fn spec_distance(a: Pos, b: Pos) -> int {
    let dx = abs_val(a.x - b.x);
    let dy = abs_val(a.y - b.y);
    if dx >= dy {
        dx
    } else {
        dy
    }
}

impl Pos {
    /// The position `n` unit steps from `self` along `d`.
    pub open spec fn spec_step(self, d: Direction, n: int) -> Pos {
        Pos { x: (self.x + d.dx() * n) as i64, y: (self.y + d.dy() * n) as i64 }
    }

    pub fn step(self, d: Direction, n: i64) -> (r: Pos)
        requires
            within(self, 0x1000_0000_0000_0000),
            0 <= n <= 0x1000_0000_0000_0000,
        ensures
            r == self.spec_step(d, n as int),
            r.x == self.x + d.dx() * n,
            r.y == self.y + d.dy() * n,
    {
        Pos { x: self.x + mul_unit(d.step_x(), n), y: self.y + mul_unit(d.step_y(), n) }
    }

    pub fn distance(self, other: Pos) -> (r: u64)
        requires
            within(self, 0x1000_0000_0000_0000),
            within(other, 0x1000_0000_0000_0000),
        ensures
            r as int == spec_distance(self, other),
    {
        let dx: i64 = if self.x >= other.x {
            self.x - other.x
        } else {
            other.x - self.x
        };
        let dy: i64 = if self.y >= other.y {
            self.y - other.y
        } else {
            other.y - self.y
        };
        if dx >= dy {
            dx as u64
        } else {
            dy as u64
        }
    }
}

/// `leaf` lies one 45-degree step from `stem`, on either side.
pub open spec fn adjacent_pair(stem: Direction, leaf: Direction) -> bool {
    leaf == stem.spec_rotate(1) || leaf == stem.spec_rotate(-1)
}

/// `p` is `base` moved `s` steps along `sd` and then `l` steps along `ld`,
/// stated over unbounded integers.
pub open spec fn l_offset(base: Pos, sd: Direction, ld: Direction, s: int, l: int, p: Pos) -> bool {
    &&& p.x == base.x + sd.dx() * s + ld.dx() * l
    &&& p.y == base.y + sd.dy() * s + ld.dy() * l
}

/// Two directions 45 degrees apart are linearly independent, so an offset
/// decomposes into at most one (stem, leaf) pair.
pub proof fn lemma_decompose_unique(
    stem: Direction,
    leaf: Direction,
    s1: int,
    l1: int,
    s2: int,
    l2: int,
)
    requires
        adjacent_pair(stem, leaf),
        stem.dx() * s1 + leaf.dx() * l1 == stem.dx() * s2 + leaf.dx() * l2,
        stem.dy() * s1 + leaf.dy() * l1 == stem.dy() * s2 + leaf.dy() * l2,
    ensures
        s1 == s2,
        l1 == l2,
{
}

/// The stem and leaf run lengths of an offset over two directions 45
/// degrees apart, by Cramer's rule: the determinant is 1 or -1, so
/// dividing by it is multiplying by it.
pub open spec fn spec_decompose(
    offset_x: int,
    offset_y: int,
    stem: Direction,
    leaf: Direction,
) -> (int, int) {
    let det = stem.dx() * leaf.dy() - stem.dy() * leaf.dx();
    (
        det * (leaf.dy() * offset_x - leaf.dx() * offset_y),
        det * (stem.dx() * offset_y - stem.dy() * offset_x),
    )
}

/// An L-shaped run over two directions 45 degrees apart covers a diagonal
/// distance equal to its number of unit steps.
pub proof fn lemma_l_steps_distance(
    base: Pos,
    sd: Direction,
    ld: Direction,
    s: int,
    l: int,
    p: Pos,
)
    requires
        adjacent_pair(sd, ld),
        0 <= s,
        0 <= l,
        l_offset(base, sd, ld, s, l, p),
    ensures
        spec_distance(p, base) == s + l,
{
    match sd {
        Direction::North => {},
        Direction::Northeast => {},
        Direction::East => {},
        Direction::Southeast => {},
        Direction::South => {},
        Direction::Southwest => {},
        Direction::West => {},
        Direction::Northwest => {},
    }
}

/// Two directions 45 degrees apart span the lattice with determinant one,
/// up to sign.
pub proof fn lemma_adjacent_det(stem: Direction, leaf: Direction)
    requires
        adjacent_pair(stem, leaf),
    ensures
        stem.dx() * leaf.dy() - stem.dy() * leaf.dx() == 1
            || stem.dx() * leaf.dy() - stem.dy() * leaf.dx() == -1,
{
    match stem {
        Direction::North => {},
        Direction::Northeast => {},
        Direction::East => {},
        Direction::Southeast => {},
        Direction::South => {},
        Direction::Southwest => {},
        Direction::West => {},
        Direction::Northwest => {},
    }
}

/// Split an offset into its stem and leaf runs. Exact because the two
/// directions, 45 degrees apart, span the lattice with determinant one.
pub fn decompose(offset_x: i64, offset_y: i64, stem: Direction, leaf: Direction) -> (r: (i64, i64))
    requires
        adjacent_pair(stem, leaf),
        -0x1000_0000_0000_0000 <= offset_x <= 0x1000_0000_0000_0000,
        -0x1000_0000_0000_0000 <= offset_y <= 0x1000_0000_0000_0000,
    ensures
        offset_x == stem.dx() * r.0 + leaf.dx() * r.1,
        offset_y == stem.dy() * r.0 + leaf.dy() * r.1,
        (r.0 as int, r.1 as int) == spec_decompose(offset_x as int, offset_y as int, stem, leaf),
{
    let sx = stem.step_x();
    let sy = stem.step_y();
    let lx = leaf.step_x();
    let ly = leaf.step_y();
    let det: i64 = mul_unit(sx, ly) - mul_unit(sy, lx);
    let s_num: i64 = mul_unit(ly, offset_x) - mul_unit(lx, offset_y);
    let l_num: i64 = mul_unit(sx, offset_y) - mul_unit(sy, offset_x);
    proof {
        lemma_adjacent_det(stem, leaf);
    }
    if det == 1 {
        proof {
            assert(offset_x == stem.dx() * (s_num as int) + leaf.dx() * (l_num as int)
                && offset_y == stem.dy() * (s_num as int) + leaf.dy() * (l_num as int))
                by (nonlinear_arith)
                requires
                    s_num as int == leaf.dy() * offset_x - leaf.dx() * offset_y,
                    l_num as int == stem.dx() * offset_y - stem.dy() * offset_x,
                    stem.dx() * leaf.dy() - stem.dy() * leaf.dx() == 1,
            {}
        }
        (s_num, l_num)
    } else {
        proof {
            assert(offset_x == stem.dx() * (-s_num as int) + leaf.dx() * (-l_num as int)
                && offset_y == stem.dy() * (-s_num as int) + leaf.dy() * (-l_num as int))
                by (nonlinear_arith)
                requires
                    s_num as int == leaf.dy() * offset_x - leaf.dx() * offset_y,
                    l_num as int == stem.dx() * offset_y - stem.dy() * offset_x,
                    stem.dx() * leaf.dy() - stem.dy() * leaf.dx() == -1,
            {}
        }
        (-s_num, -l_num)
    }
}

} // verus!
