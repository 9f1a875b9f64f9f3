use vstd::prelude::*;

verus! {

/// An integer lattice position or extent.
#[derive(Clone, Copy, PartialEq, Eq, Structural, Debug)]
pub struct Vec3i {
    pub x: i32,
    pub y: i32,
    pub z: i32,
}

/// `b - a` is an axis unit vector.
pub open spec fn adjacent(a: Vec3i, b: Vec3i) -> bool {
    let dx = b.x - a.x;
    let dy = b.y - a.y;
    let dz = b.z - a.z;
    (dx == 0 && dy == 0 && (dz == 1 || dz == -1)) || (dx == 0 && dz == 0 && (dy == 1 || dy
        == -1)) || (dy == 0 && dz == 0 && (dx == 1 || dx == -1))
}

/// `start <= p < end` on every axis.
pub open spec fn in_box(p: Vec3i, start: Vec3i, end: Vec3i) -> bool {
    start.x <= p.x < end.x && start.y <= p.y < end.y && start.z <= p.z < end.z
}

/// Number of lattice points of an extent (zero when an axis is not positive).
pub open spec fn volume(s: Vec3i) -> int {
    if s.x <= 0 || s.y <= 0 || s.z <= 0 {
        0
    } else {
        s.x * s.y * s.z
    }
}

/// Linear index of an offset inside an extent: `y·X·Z + x·Z + z`.
pub open spec fn linear(s: Vec3i, x: int, y: int, z: int) -> int {
    (y * s.x + x) * s.z + z
}

/// Linear index of `p` inside the box that starts at `start` and has extent `s`.
pub open spec fn linear_at(s: Vec3i, start: Vec3i, p: Vec3i) -> int {
    linear(s, p.x - start.x, p.y - start.y, p.z - start.z)
}

impl Vec3i {
    pub fn new(x: i32, y: i32, z: i32) -> (r: Vec3i)
        ensures
            r == (Vec3i { x, y, z }),
    {
        Vec3i { x, y, z }
    }
}

proof fn lemma_mul_split(a: int, b: int, r1: int, r2: int, d: int)
    requires
        0 <= r1 < d,
        0 <= r2 < d,
        a * d + r1 == b * d + r2,
    ensures
        a == b,
        r1 == r2,
{
    assert(a == b) by (nonlinear_arith)
        requires
            0 <= r1 < d,
            0 <= r2 < d,
            a * d + r1 == b * d + r2,
    ;
}

/// The linear index is a bijection from the extent's box onto `0 .. volume`.
pub proof fn lemma_linear_bounds(s: Vec3i, x: int, y: int, z: int)
    requires
        0 <= x < s.x,
        0 <= y < s.y,
        0 <= z < s.z,
    ensures
        0 <= linear(s, x, y, z) < volume(s),
{
    assert(0 <= y * s.x + x < s.y * s.x) by (nonlinear_arith)
        requires
            0 <= x < s.x,
            0 <= y < s.y,
    ;
    let a = y * s.x + x;
    assert(0 <= a * s.z + z < (s.y * s.x) * s.z) by (nonlinear_arith)
        requires
            0 <= a < s.y * s.x,
            0 <= z < s.z,
    ;
    assert((s.y * s.x) * s.z == s.x * s.y * s.z) by (nonlinear_arith);
}

/// Two offsets inside an extent with the same linear index are equal.
pub proof fn lemma_linear_injective(s: Vec3i, x1: int, y1: int, z1: int, x2: int, y2: int, z2: int)
    requires
        0 <= x1 < s.x,
        0 <= y1 < s.y,
        0 <= z1 < s.z,
        0 <= x2 < s.x,
        0 <= y2 < s.y,
        0 <= z2 < s.z,
        linear(s, x1, y1, z1) == linear(s, x2, y2, z2),
    ensures
        x1 == x2 && y1 == y2 && z1 == z2,
{
    assert(0 <= y1 * s.x + x1) by (nonlinear_arith)
        requires
            0 <= x1 < s.x,
            0 <= y1 < s.y,
    ;
    lemma_mul_split(y1 * s.x + x1, y2 * s.x + x2, z1, z2, s.z as int);
    lemma_mul_split(y1, y2, x1, x2, s.x as int);
}

} // verus!
