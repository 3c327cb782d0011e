use vstd::prelude::*;

verus! {

/// Axial hex coordinate (q, r); the cube form is (q, r, -q - r).
#[derive(Debug, Clone, Copy, PartialEq, Eq, Structural, Hash, PartialOrd, Ord)]
pub struct AxialPos {
    pub q: i32,
    pub r: i32,
}

/// q-offset of neighbor direction `dir` (0 = top-right, clockwise).
pub open spec fn dir_dq(dir: int) -> int {
    if dir == 0 { 1 } else if dir == 1 { 1 } else if dir == 2 { 0 }
    else if dir == 3 { -1 } else if dir == 4 { -1 } else { 0 }
}

/// r-offset of neighbor direction `dir` (0 = top-right, clockwise).
pub open spec fn dir_dr(dir: int) -> int {
    if dir == 0 { -1 } else if dir == 1 { 0 } else if dir == 2 { 1 }
    else if dir == 3 { 1 } else if dir == 4 { 0 } else { -1 }
}

/// `x` is an `i32` value.
pub open spec fn i32_fits(x: int) -> bool {
    i32::MIN <= x <= i32::MAX
}

/// The absolute value.
pub open spec fn abs_int(x: int) -> int {
    if x < 0 { -x } else { x }
}

/// The neighbor of `p` in direction `dir % 6`, as mathematical integers.
pub open spec fn spec_neighbor(p: AxialPos, dir: int) -> (int, int) {
    (p.q + dir_dq(dir % 6), p.r + dir_dr(dir % 6))
}

/// The neighbor of `p` in direction `dir` can be represented with `i32` coordinates.
pub open spec fn neighbor_in_range(p: AxialPos, dir: int) -> bool {
    i32_fits(spec_neighbor(p, dir).0) && i32_fits(spec_neighbor(p, dir).1)
}

/// Hex distance as half the sum of the three cube-coordinate differences.
pub open spec fn spec_distance(a: AxialPos, b: AxialPos) -> int {
    let dq = a.q - b.q;
    let dr = a.r - b.r;
    let ds = (-a.q - a.r) - (-b.q - b.r);
    (abs_int(dq) + abs_int(dr) + abs_int(ds)) / 2
}

/// Every intermediate value of the distance computation fits in `i32`.
pub open spec fn distance_in_range(a: AxialPos, b: AxialPos) -> bool {
    let dq = a.q - b.q;
    let dr = a.r - b.r;
    let sa = -a.q - a.r;
    let sb = -b.q - b.r;
    let ds = sa - sb;
    &&& a.q > i32::MIN && b.q > i32::MIN
    &&& i32_fits(dq) && dq > i32::MIN
    &&& i32_fits(dr) && dr > i32::MIN
    &&& i32_fits(sa) && i32_fits(sb)
    &&& i32_fits(ds) && ds > i32::MIN
    &&& i32_fits(abs_int(dq) + abs_int(dr))
    &&& i32_fits(abs_int(dq) + abs_int(dr) + abs_int(ds))
}

impl AxialPos {
    /// The origin (0, 0).
    pub fn zero() -> (p: AxialPos)
        ensures
            p.q == 0 && p.r == 0,
    {
        AxialPos { q: 0, r: 0 }
    }

    pub fn new(q: i32, r: i32) -> (p: AxialPos)
        ensures
            p.q == q && p.r == r,
    {
        AxialPos { q, r }
    }

    /// Unit offset of direction `dir % 6`: 0 top-right (+1,-1), 1 right (+1,0),
    /// 2 bottom-right (0,+1), 3 bottom-left (-1,+1), 4 left (-1,0), 5 top-left (0,-1).
    pub fn direction(dir: usize) -> (p: AxialPos)
        ensures
            p.q == dir_dq(dir as int % 6),
            p.r == dir_dr(dir as int % 6),
    {
        let d = dir % 6;
        if d == 0 {
            AxialPos { q: 1, r: -1 }
        } else if d == 1 {
            AxialPos { q: 1, r: 0 }
        } else if d == 2 {
            AxialPos { q: 0, r: 1 }
        } else if d == 3 {
            AxialPos { q: -1, r: 1 }
        } else if d == 4 {
            AxialPos { q: -1, r: 0 }
        } else {
            AxialPos { q: 0, r: -1 }
        }
    }

    /// Component-wise sum.
    pub fn add(self, rhs: AxialPos) -> (p: AxialPos)
        requires
            i32_fits(self.q + rhs.q),
            i32_fits(self.r + rhs.r),
        ensures
            p.q == self.q + rhs.q,
            p.r == self.r + rhs.r,
    {
        AxialPos { q: self.q + rhs.q, r: self.r + rhs.r }
    }

    /// Component-wise difference.
    pub fn sub(self, rhs: AxialPos) -> (p: AxialPos)
        requires
            i32_fits(self.q - rhs.q),
            i32_fits(self.r - rhs.r),
        ensures
            p.q == self.q - rhs.q,
            p.r == self.r - rhs.r,
    {
        AxialPos { q: self.q - rhs.q, r: self.r - rhs.r }
    }

    pub fn neighbor(self, dir: usize) -> (p: AxialPos)
        requires
            neighbor_in_range(self, dir as int),
        ensures
            p.q == spec_neighbor(self, dir as int).0,
            p.r == spec_neighbor(self, dir as int).1,
    {
        self.add(Self::direction(dir))
    }

    pub fn opposite_dir(dir: usize) -> (d: usize)
        ensures
            d as int == (dir as int + 3) % 6,
    {
        ((dir % 6) + 3) % 6
    }

    pub fn distance(self, other: AxialPos) -> (d: i32)
        requires
            distance_in_range(self, other),
        ensures
            d as int == spec_distance(self, other),
    {
        let dq0 = self.q - other.q;
        let dr0 = self.r - other.r;
        let ds0 = (-self.q - self.r) - (-other.q - other.r);
        let dq = if dq0 < 0 { -dq0 } else { dq0 };
        let dr = if dr0 < 0 { -dr0 } else { dr0 };
        let ds = if ds0 < 0 { -ds0 } else { ds0 };
        (dq + dr + ds) / 2
    }
}

/// Hex distance is symmetric.
pub proof fn lemma_distance_symmetric(a: AxialPos, b: AxialPos)
    ensures
        spec_distance(a, b) == spec_distance(b, a),
{
}

/// A cell is at distance 0 from itself.
pub proof fn lemma_distance_self(a: AxialPos)
    ensures
        spec_distance(a, a) == 0,
{
}

/// Hex distance equals the largest of the three cube-coordinate differences.
pub proof fn lemma_distance_is_max(a: AxialPos, b: AxialPos)
    ensures
        ({
            let dq = abs_int(a.q - b.q);
            let dr = abs_int(a.r - b.r);
            let ds = abs_int((-a.q - a.r) - (-b.q - b.r));
            spec_distance(a, b) == if dq >= dr && dq >= ds { dq } else if dr >= ds { dr } else { ds }
        }),
{
}

/// Every neighbor lies at distance exactly 1.
pub proof fn lemma_neighbor_distance_one(p: AxialPos, dir: int, n: AxialPos)
    requires
        n.q == spec_neighbor(p, dir).0,
        n.r == spec_neighbor(p, dir).1,
    ensures
        spec_distance(p, n) == 1,
{
}

/// Stepping to a neighbor and then in the opposite direction returns to the start.
pub proof fn lemma_opposite_neighbor_returns(p: AxialPos, dir: int, n: AxialPos)
    requires
        0 <= dir,
        n.q == spec_neighbor(p, dir).0,
        n.r == spec_neighbor(p, dir).1,
    ensures
        spec_neighbor(n, (dir + 3) % 6) == (p.q as int, p.r as int),
{
}

/// Taking the opposite direction twice gives back the direction (mod 6).
pub proof fn lemma_opposite_involutive(dir: int)
    requires
        0 <= dir,
    ensures
        (((dir + 3) % 6) + 3) % 6 == dir % 6,
{
}

} // verus!
