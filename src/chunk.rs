use vstd::prelude::*;

use crate::geometry::{in_box, volume, Vec3i};
use crate::library::{end_of, max_i, min_i, point_at};

verus! {

/// Lifecycle of a chunk: Ready → Active → Collapsed, with a reset back to Ready.
#[derive(Clone, Copy, PartialEq, Eq, Structural, Debug)]
pub enum ChunkState {
    Ready,
    Active,
    Collapsed,
}

/// A cuboid sub-volume of the map, processed as a unit.
#[derive(Clone, Copy, PartialEq, Eq, Structural, Debug)]
pub struct Chunk {
    pub state: ChunkState,
    pub position: Vec3i,
    pub size: Vec3i,
}

/// The chunk's corner and extent can be added without overflow, and the extent is not
/// negative.
pub open spec fn chunk_wf(c: Chunk) -> bool {
    &&& 0 <= c.size.x
    &&& 0 <= c.size.y
    &&& 0 <= c.size.z
    &&& c.position.x + c.size.x <= i32::MAX
    &&& c.position.y + c.size.y <= i32::MAX
    &&& c.position.z + c.size.z <= i32::MAX
}

pub open spec fn chunk_end(c: Chunk) -> Vec3i {
    end_of(c.position, c.size)
}

/// The cuboids touch or share cells (bounds compared inclusively).
pub open spec fn overlapping(a: Chunk, b: Chunk) -> bool {
    let ae = chunk_end(a);
    let be = chunk_end(b);
    &&& ae.x >= b.position.x && a.position.x <= be.x
    &&& ae.y >= b.position.y && a.position.y <= be.y
    &&& ae.z >= b.position.z && a.position.z <= be.z
}

/// Start of the intersection of two chunks.
pub open spec fn overlap_start(a: Chunk, b: Chunk) -> Vec3i {
    Vec3i {
        x: max_i(a.position.x as int, b.position.x as int) as i32,
        y: max_i(a.position.y as int, b.position.y as int) as i32,
        z: max_i(a.position.z as int, b.position.z as int) as i32,
    }
}

/// Extent of the intersection of two chunks (zero on an axis where they do not meet).
pub open spec fn overlap_size(a: Chunk, b: Chunk) -> Vec3i {
    let s = overlap_start(a, b);
    let ae = chunk_end(a);
    let be = chunk_end(b);
    Vec3i {
        x: max_i(0, min_i(ae.x as int, be.x as int) - s.x) as i32,
        y: max_i(0, min_i(ae.y as int, be.y as int) - s.y) as i32,
        z: max_i(0, min_i(ae.z as int, be.z as int) - s.z) as i32,
    }
}

/// Distance from coordinate `p` to the half-open interval `s .. e` (zero inside).
pub open spec fn axis_distance(p: int, s: int, e: int) -> int {
    if p < s {
        s - p
    } else if p >= e {
        p - e + 1
    } else {
        0
    }
}

/// `p` lies outside `c`, within Chebyshev distance `n` of its cuboid: at most `n` cells
/// off on each axis.
pub open spec fn near(c: Chunk, n: int, p: Vec3i) -> bool {
    let e = chunk_end(c);
    let dx = axis_distance(p.x as int, c.position.x as int, e.x as int);
    let dy = axis_distance(p.y as int, c.position.y as int, e.y as int);
    let dz = axis_distance(p.z as int, c.position.z as int, e.z as int);
    &&& c.size.x > 0 && c.size.y > 0 && c.size.z > 0
    &&& (dx > 0 || dy > 0 || dz > 0)
    &&& dx <= n && dy <= n && dz <= n
}

pub open spec fn near_pred(c: Chunk, n: int) -> spec_fn(Vec3i) -> bool {
    |p: Vec3i| near(c, n, p)
}

/// The cells of `c`, in store order.
pub open spec fn cells_of(c: Chunk) -> Seq<Vec3i> {
    Seq::new(volume(c.size) as nat, |j: int| point_at(c.position, c.size, j))
}

/// The cells of `other` that lie within `n` steps of `c` (see `near`), in store order.
pub open spec fn neighbor_cells(c: Chunk, other: Chunk, n: int) -> Seq<Vec3i> {
    cells_of(other).filter(near_pred(c, n))
}

impl Chunk {
    /// A Ready chunk with the given corner and extent.
    pub fn new(position: Vec3i, size: Vec3i) -> (r: Chunk)
        ensures
            r == (Chunk { state: ChunkState::Ready, position, size }),
    {
        Chunk { state: ChunkState::Ready, position, size }
    }

    /// Corner and exclusive far corner.
    pub fn bounds(&self) -> (r: (Vec3i, Vec3i))
        requires
            chunk_wf(*self),
        ensures
            r == (self.position, chunk_end(*self)),
    {
        (
            self.position,
            Vec3i {
                x: self.position.x + self.size.x,
                y: self.position.y + self.size.y,
                z: self.position.z + self.size.z,
            },
        )
    }

    /// True iff the two cuboids touch or share cells (inclusive bounds comparison).
    pub fn is_overlapping(&self, other: &Chunk) -> (r: bool)
        requires
            chunk_wf(*self),
            chunk_wf(*other),
        ensures
            r == overlapping(*self, *other),
    {
        let (ss, se) = self.bounds();
        let (os, oe) = other.bounds();
        se.x >= os.x && ss.x <= oe.x && se.y >= os.y && ss.y <= oe.y && se.z >= os.z && ss.z
            <= oe.z
    }

    /// True iff `position` lies in the chunk (its far faces excluded).
    pub fn contains(&self, position: Vec3i) -> (r: bool)
        requires
            chunk_wf(*self),
        ensures
            r == in_box(position, self.position, chunk_end(*self)),
    {
        let (s, e) = self.bounds();
        position.x >= s.x && position.x < e.x && position.y >= s.y && position.y < e.y
            && position.z >= s.z && position.z < e.z
    }

    /// The cells shared by the two chunks, in store order.
    pub fn get_overlapping(&self, other: &Chunk) -> (r: Vec<Vec3i>)
        requires
            chunk_wf(*self),
            chunk_wf(*other),
        ensures
            r@.len() == volume(overlap_size(*self, *other)),
            forall|j: int|
                0 <= j < r@.len() ==> #[trigger] r@[j] == point_at(
                    overlap_start(*self, *other),
                    overlap_size(*self, *other),
                    j,
                ),
            r@.no_duplicates(),
            forall|q: Vec3i|
                in_box(q, self.position, chunk_end(*self)) && in_box(q, other.position, chunk_end(*other))
                    ==> #[trigger] r@.contains(q),
            forall|j: int|
                0 <= j < r@.len() ==> in_box(#[trigger] r@[j], self.position, chunk_end(*self)) && in_box(
                    r@[j],
                    other.position,
                    chunk_end(*other),
                ),
    {
        let (ss, se) = self.bounds();
        let (os, oe) = other.bounds();
        let start = Vec3i {
            x: if ss.x > os.x { ss.x } else { os.x },
            y: if ss.y > os.y { ss.y } else { os.y },
            z: if ss.z > os.z { ss.z } else { os.z },
        };
        let ex = if se.x < oe.x { se.x } else { oe.x };
        let ey = if se.y < oe.y { se.y } else { oe.y };
        let ez = if se.z < oe.z { se.z } else { oe.z };
        let size = Vec3i {
            x: if ex > start.x { ex - start.x } else { 0 },
            y: if ey > start.y { ey - start.y } else { 0 },
            z: if ez > start.z { ez - start.z } else { 0 },
        };
        assert(start == overlap_start(*self, *other));
        assert(size == overlap_size(*self, *other));
        let r = box_points(start, size);
        proof {
            assert forall|q: Vec3i|
                in_box(q, self.position, chunk_end(*self)) && in_box(q, other.position, chunk_end(*other))
                    implies #[trigger] r@.contains(q) by {
                assert(in_box(q, start, end_of(start, size)));
            }
            assert forall|j: int| 0 <= j < r@.len() implies in_box(#[trigger] r@[j], self.position, chunk_end(*self)) && in_box(
                r@[j],
                other.position,
                chunk_end(*other),
            ) by {
                crate::library::lemma_point_at(start, size, j);
            }
        }
        r
    }

    /// The cells of `other` that lie outside this chunk within Chebyshev distance `n` of
    /// it, in store order.
    pub fn get_neighbors(&self, other: &Chunk, n: i32) -> (r: Vec<Vec3i>)
        requires
            chunk_wf(*self),
            chunk_wf(*other),
        ensures
            r@ == neighbor_cells(*self, *other, n as int),
    {
        let cells = box_points(other.position, other.size);
        let ghost pred = near_pred(*self, n as int);
        let mut out: Vec<Vec3i> = Vec::new();
        let mut i: usize = 0;
        while i < cells.len()
            invariant
                chunk_wf(*self),
                i <= cells@.len(),
                pred == near_pred(*self, n as int),
                out@ == cells@.subrange(0, i as int).filter(pred),
            decreases cells@.len() - i,
        {
            let p = cells[i];
            proof {
                assert(cells@.subrange(0, i + 1) == cells@.subrange(0, i as int).push(p));
                cells@.subrange(0, i as int).lemma_filter_push(p, pred);
            }
            if self.is_near(p, n) {
                out.push(p);
            }
            i = i + 1;
        }
        proof {
            assert(cells@.subrange(0, cells@.len() as int) == cells@);
            assert(cells@ == cells_of(*other));
        }
        out
    }

    fn is_near(&self, p: Vec3i, n: i32) -> (r: bool)
        requires
            chunk_wf(*self),
        ensures
            r == near(*self, n as int, p),
    {
        let (s, e) = self.bounds();
        if self.size.x <= 0 || self.size.y <= 0 || self.size.z <= 0 {
            return false;
        }
        let dx = axis_distance_of(p.x, s.x, e.x);
        let dy = axis_distance_of(p.y, s.y, e.y);
        let dz = axis_distance_of(p.z, s.z, e.z);
        let n = n as i64;
        (dx > 0 || dy > 0 || dz > 0) && dx <= n && dy <= n && dz <= n
    }
}

fn axis_distance_of(p: i32, s: i32, e: i32) -> (r: i64)
    ensures
        r == axis_distance(p as int, s as int, e as int),
{
    if p < s {
        s as i64 - p as i64
    } else if p >= e {
        p as i64 - e as i64 + 1
    } else {
        0
    }
}

/// All points of the box `start .. start + size`, in store order.
pub fn box_points(start: Vec3i, size: Vec3i) -> (r: Vec<Vec3i>)
    requires
        0 <= size.x,
        0 <= size.y,
        0 <= size.z,
        start.x + size.x <= i32::MAX,
        start.y + size.y <= i32::MAX,
        start.z + size.z <= i32::MAX,
    ensures
        r@.len() == volume(size),
        forall|j: int| 0 <= j < r@.len() ==> #[trigger] r@[j] == point_at(start, size, j),
        r@ == Seq::new(volume(size) as nat, |j: int| point_at(start, size, j)),
        r@.no_duplicates(),
        forall|q: Vec3i| in_box(q, start, end_of(start, size)) ==> #[trigger] r@.contains(q),
{
    let mut out: Vec<Vec3i> = Vec::new();
    if size.x == 0 || size.y == 0 || size.z == 0 {
        proof {
            assert(out@ == Seq::new(volume(size) as nat, |j: int| point_at(start, size, j)));
        }
        return out;
    }
    let nx = size.x as u64;
    let ny = size.y as u64;
    let nz = size.z as u64;
    assert(nx * ny <= 0x7fff_ffff * 0x7fff_ffff) by (nonlinear_arith)
        requires
            nx <= 0x7fff_ffff,
            ny <= 0x7fff_ffff,
    ;
    assert(nx * ny * nz <= 0x7fff_ffff * 0x7fff_ffff * 0x7fff_ffff) by (nonlinear_arith)
        requires
            nx * ny <= 0x7fff_ffff * 0x7fff_ffff,
            nz <= 0x7fff_ffff,
            nx * ny >= 0,
    ;
    let total: u128 = (nx as u128) * (ny as u128) * (nz as u128);
    let mut j: u128 = 0;
    while j < total
        invariant
            total == volume(size),
            0 < size.x && 0 < size.y && 0 < size.z,
            start.x + size.x <= i32::MAX,
            start.y + size.y <= i32::MAX,
            start.z + size.z <= i32::MAX,
            j <= total,
            out@.len() == j,
            forall|k: int| 0 <= k < j ==> #[trigger] out@[k] == point_at(start, size, k),
        decreases total - j,
    {
        proof {
            crate::library::lemma_offset(size, j as int);
        }
        let q = j / (size.z as u128);
        let x = q % (size.x as u128);
        let y = q / (size.x as u128);
        let z = j % (size.z as u128);
        assert(x as int == crate::library::offset_x(size, j as int));
        assert(y as int == crate::library::offset_y(size, j as int));
        assert(z as int == crate::library::offset_z(size, j as int));
        let p = Vec3i { x: start.x + x as i32, y: start.y + y as i32, z: start.z + z as i32 };
        out.push(p);
        j = j + 1;
    }
    proof {
        assert(out@ == Seq::new(volume(size) as nat, |j: int| point_at(start, size, j)));
        lemma_points_distinct_complete(start, size, out@);
    }
    out
}

proof fn lemma_points_distinct_complete(start: Vec3i, size: Vec3i, s: Seq<Vec3i>)
    requires
        0 < size.x,
        0 < size.y,
        0 < size.z,
        start.x + size.x <= i32::MAX,
        start.y + size.y <= i32::MAX,
        start.z + size.z <= i32::MAX,
        s == Seq::new(volume(size) as nat, |j: int| point_at(start, size, j)),
    ensures
        s.no_duplicates(),
        forall|q: Vec3i| in_box(q, start, end_of(start, size)) ==> #[trigger] s.contains(q),
{
    assert forall|a: int, b: int| 0 <= a < s.len() && 0 <= b < s.len() && a != b implies s[a] != s[b] by {
        crate::library::lemma_point_at(start, size, a);
        crate::library::lemma_point_at(start, size, b);
    }
    assert forall|q: Vec3i| in_box(q, start, end_of(start, size)) implies #[trigger] s.contains(q) by {
        crate::geometry::lemma_linear_bounds(size, q.x - start.x, q.y - start.y, q.z - start.z);
        let j = crate::geometry::linear_at(size, start, q);
        crate::library::lemma_point_at(start, size, j);
        let p = point_at(start, size, j);
        crate::geometry::lemma_linear_injective(size, q.x - start.x, q.y - start.y, q.z - start.z, p.x - start.x, p.y - start.y, p.z - start.z);
        assert(s[j] == q);
    }
}

/// A cell on an exclusive end face is never inside the box.
pub proof fn lemma_end_faces_excluded(p: Vec3i, start: Vec3i, end: Vec3i)
    requires
        p.x == end.x || p.y == end.y || p.z == end.z,
    ensures
        !in_box(p, start, end),
{
}

/// Disjoint chunks have no cell in common.
pub proof fn lemma_overlap_of_disjoint(a: Chunk, b: Chunk)
    requires
        chunk_wf(a),
        chunk_wf(b),
        !overlapping(a, b),
    ensures
        volume(overlap_size(a, b)) == 0,
{
}

/// A chunk shares all of its cells with itself.
pub proof fn lemma_overlap_of_self(a: Chunk)
    requires
        chunk_wf(a),
    ensures
        overlap_start(a, a) == a.position,
        overlap_size(a, a) == a.size,
{
}

/// With `n == 0` no cell is a neighbour.
pub proof fn lemma_no_neighbors_at_zero(c: Chunk, other: Chunk)
    ensures
        neighbor_cells(c, other, 0) == Seq::<Vec3i>::empty(),
{
    lemma_filter_none(cells_of(other), near_pred(c, 0));
}

/// Raising `n` keeps every neighbour found at `n`: the neighbour list at `n` is a
/// sub-list of the one at `n + 1`.
pub proof fn lemma_neighbors_grow(c: Chunk, other: Chunk, n: int)
    requires
        0 <= n,
    ensures
        neighbor_cells(c, other, n).len() <= neighbor_cells(c, other, n + 1).len(),
        forall|p: Vec3i|
            neighbor_cells(c, other, n).contains(p) ==> #[trigger] neighbor_cells(
                c,
                other,
                n + 1,
            ).contains(p),
{
    lemma_filter_weaker(cells_of(other), near_pred(c, n), near_pred(c, n + 1));
    assert forall|p: Vec3i|
        neighbor_cells(c, other, n).contains(p) implies #[trigger] neighbor_cells(
        c,
        other,
        n + 1,
    ).contains(p) by {
        let f = neighbor_cells(c, other, n);
        let k = choose|k: int| 0 <= k < f.len() && f[k] == p;
        cells_of(other).lemma_filter_pred(near_pred(c, n), k);
        cells_of(other).lemma_filter_contains_rev(near_pred(c, n), p);
        let j = choose|j: int| 0 <= j < cells_of(other).len() && cells_of(other)[j] == p;
        cells_of(other).lemma_filter_contains(near_pred(c, n + 1), j);
    }
}

proof fn lemma_filter_none<A>(s: Seq<A>, pred: spec_fn(A) -> bool)
    requires
        forall|a: A| !#[trigger] pred(a),
    ensures
        s.filter(pred) == Seq::<A>::empty(),
    decreases s.len(),
{
    reveal(Seq::filter);
    if s.len() > 0 {
        lemma_filter_none(s.drop_last(), pred);
    }
}

proof fn lemma_filter_weaker<A>(s: Seq<A>, p: spec_fn(A) -> bool, q: spec_fn(A) -> bool)
    requires
        forall|a: A| #[trigger] p(a) ==> q(a),
    ensures
        s.filter(p).len() <= s.filter(q).len(),
    decreases s.len(),
{
    reveal(Seq::filter);
    if s.len() > 0 {
        lemma_filter_weaker(s.drop_last(), p, q);
    }
}

} // verus!
