use vstd::prelude::*;

use crate::cell::{Cell, CellView};
use crate::chunk::{Chunk, ChunkState};
use crate::geometry::{volume, Vec3i};
use crate::kernel::{all_indices, edge_filtered};
use crate::library::{library_wf, origin, point_at, Library3D};
use crate::prototype::{indices_valid, Prototype};

verus! {

/// Size of the map, of its chunks, and how many cells adjacent chunks share per axis.
#[derive(Clone, Copy, PartialEq, Eq, Structural, Debug)]
pub struct MapParameters {
    pub map_size: Vec3i,
    pub chunk_size: Vec3i,
    pub chunk_overlap: i32,
}

/// Number of chunks along one axis: one chunk when it covers the axis, else one more for
/// every started stride (`chunk - overlap`) left to cover; none for an empty axis or a
/// stride that makes no progress.
pub open spec fn chunks_along(map: int, chunk: int, overlap: int) -> int {
    if map <= 0 || chunk <= 0 {
        0
    } else if map <= chunk {
        1
    } else if chunk - overlap <= 0 {
        0
    } else {
        1 + (map - chunk + (chunk - overlap) - 1) / (chunk - overlap)
    }
}

/// The chunk grid's extent in chunks.
pub open spec fn chunk_counts(p: MapParameters) -> Vec3i {
    Vec3i {
        x: chunks_along(p.map_size.x as int, p.chunk_size.x as int, p.chunk_overlap as int) as i32,
        y: chunks_along(p.map_size.y as int, p.chunk_size.y as int, p.chunk_overlap as int) as i32,
        z: chunks_along(p.map_size.z as int, p.chunk_size.z as int, p.chunk_overlap as int) as i32,
    }
}

/// Corner of a chunk along one axis, and its extent clamped to the map.
pub open spec fn chunk_start(k: int, chunk: int, overlap: int) -> int {
    k * (chunk - overlap)
}

pub open spec fn clamped_extent(start: int, chunk: int, map: int) -> int {
    if start + chunk > map {
        map - start
    } else {
        chunk
    }
}

/// The `j`-th chunk of the grid (grid order: `y`, then `x`, then `z`).
pub open spec fn grid_chunk(p: MapParameters, j: int) -> Chunk {
    let g = point_at(origin(), chunk_counts(p), j);
    let pos = Vec3i {
        x: chunk_start(g.x as int, p.chunk_size.x as int, p.chunk_overlap as int) as i32,
        y: chunk_start(g.y as int, p.chunk_size.y as int, p.chunk_overlap as int) as i32,
        z: chunk_start(g.z as int, p.chunk_size.z as int, p.chunk_overlap as int) as i32,
    };
    Chunk {
        state: ChunkState::Ready,
        position: pos,
        size: Vec3i {
            x: clamped_extent(pos.x as int, p.chunk_size.x as int, p.map_size.x as int) as i32,
            y: clamped_extent(pos.y as int, p.chunk_size.y as int, p.map_size.y as int) as i32,
            z: clamped_extent(pos.z as int, p.chunk_size.z as int, p.map_size.z as int) as i32,
        },
    }
}

/// The parameters the engine accepts: a non-negative map, positive chunk extents, and a
/// non-negative overlap.
pub open spec fn params_wf(p: MapParameters) -> bool {
    &&& 0 <= p.map_size.x && 0 <= p.map_size.y && 0 <= p.map_size.z
    &&& 0 < p.chunk_size.x && 0 < p.chunk_size.y && 0 < p.chunk_size.z
    &&& 0 <= p.chunk_overlap
}

/// The fresh cell at store index `j`: the whole catalogue under the boundary rules.
pub open spec fn initial_cell(p: MapParameters, n_protos: int, protos: Seq<Prototype>, j: int) -> CellView {
    let pos = point_at(origin(), p.map_size, j);
    CellView {
        position: pos,
        possibilities: edge_filtered(protos, all_indices(n_protos), pos, p.map_size, p.map_size.y - 1),
        version: 0,
        locked: false,
    }
}

fn axis_count(map: i32, chunk: i32, overlap: i32) -> (r: i32)
    requires
        0 <= map,
        0 < chunk,
        0 <= overlap,
    ensures
        r == chunks_along(map as int, chunk as int, overlap as int),
        0 <= r <= map,
{
    if map <= 0 {
        0
    } else if map <= chunk {
        1
    } else if chunk - overlap <= 0 {
        0
    } else {
        let stride = chunk - overlap;
        let a = (map - chunk) as i64 + stride as i64 - 1;
        let q = a / stride as i64;
        proof {
            assert(q * stride <= a) by (nonlinear_arith)
                requires
                    q == a / stride as i64,
                    stride > 0,
                    a >= 0,
            ;
            assert(q <= a) by (nonlinear_arith)
                requires
                    q * stride <= a,
                    stride >= 1,
                    q >= 0,
            ;
        }
        (1 + q) as i32
    }
}

impl MapParameters {
    pub fn new(map_size: Vec3i, chunk_size: Vec3i, chunk_overlap: i32) -> (r: MapParameters)
        ensures
            r == (MapParameters { map_size, chunk_size, chunk_overlap }),
    {
        MapParameters { map_size, chunk_size, chunk_overlap }
    }

    /// The chunks of the map, all Ready, laid out with stride `chunk_size - overlap` and
    /// clamped to the map.
    pub fn generate_chunks(&self) -> (r: Vec<Chunk>)
        requires
            params_wf(*self),
        ensures
            r@.len() == volume(chunk_counts(*self)),
            forall|j: int| 0 <= j < r@.len() ==> #[trigger] r@[j] == grid_chunk(*self, j),
    {
        let counts = Vec3i {
            x: axis_count(self.map_size.x, self.chunk_size.x, self.chunk_overlap),
            y: axis_count(self.map_size.y, self.chunk_size.y, self.chunk_overlap),
            z: axis_count(self.map_size.z, self.chunk_size.z, self.chunk_overlap),
        };
        assert(counts == chunk_counts(*self));
        let grid = crate::chunk::box_points(origin_exec(), counts);
        let mut out: Vec<Chunk> = Vec::new();
        let mut j: usize = 0;
        while j < grid.len()
            invariant
                params_wf(*self),
                counts == chunk_counts(*self),
                grid@.len() == volume(counts),
                forall|k: int| 0 <= k < grid@.len() ==> #[trigger] grid@[k] == point_at(origin(), counts, k),
                0 <= counts.x <= self.map_size.x,
                0 <= counts.y <= self.map_size.y,
                0 <= counts.z <= self.map_size.z,
                j <= grid@.len(),
                out@.len() == j,
                forall|k: int| 0 <= k < j ==> #[trigger] out@[k] == grid_chunk(*self, k),
            decreases grid@.len() - j,
        {
            let g = grid[j];
            proof {
                crate::library::lemma_offset(counts, j as int);
            }
            let sx = axis_start(g.x, self.map_size.x, self.chunk_size.x, self.chunk_overlap);
            let sy = axis_start(g.y, self.map_size.y, self.chunk_size.y, self.chunk_overlap);
            let sz = axis_start(g.z, self.map_size.z, self.chunk_size.z, self.chunk_overlap);
            let pos = Vec3i { x: sx, y: sy, z: sz };
            let size = Vec3i {
                x: if pos.x as i64 + self.chunk_size.x as i64 > self.map_size.x as i64 { self.map_size.x - pos.x } else { self.chunk_size.x },
                y: if pos.y as i64 + self.chunk_size.y as i64 > self.map_size.y as i64 { self.map_size.y - pos.y } else { self.chunk_size.y },
                z: if pos.z as i64 + self.chunk_size.z as i64 > self.map_size.z as i64 { self.map_size.z - pos.z } else { self.chunk_size.z },
            };
            out.push(Chunk::new(pos, size));
            j = j + 1;
        }
        out
    }

    /// The store of all cells, each holding the whole catalogue under the boundary rules.
    pub fn generate_cell_library(&self, all_protos: &Vec<Prototype>) -> (r: Library3D)
        requires
            0 <= self.map_size.x,
            0 <= self.map_size.y,
            0 <= self.map_size.z,
        ensures
            library_wf(r@),
            r.size == self.map_size,
            r@.books.len() == volume(self.map_size),
            forall|j: int| 0 <= j < r@.books.len() ==> #[trigger] r@.books[j] == initial_cell(*self, all_protos@.len() as int, all_protos@, j),
    {
        let points = crate::chunk::box_points(origin_exec(), self.map_size);
        let mut books: Vec<Cell> = Vec::new();
        let mut j: usize = 0;
        while j < points.len()
            invariant
                0 <= self.map_size.x,
                0 <= self.map_size.y,
                0 <= self.map_size.z,
                points@.len() == volume(self.map_size),
                forall|k: int| 0 <= k < points@.len() ==> #[trigger] points@[k] == point_at(origin(), self.map_size, k),
                j <= points@.len(),
                books@.len() == j,
                forall|k: int| 0 <= k < j ==> (#[trigger] books@[k])@ == initial_cell(*self, all_protos@.len() as int, all_protos@, k),
            decreases points@.len() - j,
        {
            let p = points[j];
            let mut list: Vec<usize> = Vec::new();
            let mut i: usize = 0;
            while i < all_protos.len()
                invariant
                    i <= all_protos@.len(),
                    list@ == all_indices(i as int),
                decreases all_protos@.len() - i,
            {
                list.push(i);
                i = i + 1;
                proof {
                    assert(list@ == all_indices(i as int));
                }
            }
            assert(indices_valid(all_protos@, list@));
            crate::kernel::apply_edge_rules(all_protos, &mut list, p, self.map_size, self.map_size.y as i64 - 1);
            books.push(Cell::new(p, list));
            j = j + 1;
        }
        proof {
            assert forall|k: int| 0 <= k < books@.len() implies (#[trigger] books@[k]).version < u64::MAX by {
                assert(books@[k]@ == initial_cell(*self, all_protos@.len() as int, all_protos@, k));
            }
            let bv = books@.map_values(|c: Cell| c@);
            assert forall|k: int| 0 <= k < bv.len() implies {
                let p = #[trigger] bv[k].position;
                &&& crate::geometry::in_box(p, origin(), crate::library::end_of(origin(), self.map_size))
                &&& crate::geometry::linear_at(self.map_size, origin(), p) == k
            } by {
                assert(bv[k] == books@[k]@);
                crate::library::lemma_offset(self.map_size, k);
            }
        }
        let lib = Library3D::new(self.map_size, books);
        proof {
            assert forall|j: int| 0 <= j < lib@.books.len() implies #[trigger] lib@.books[j] == initial_cell(*self, all_protos@.len() as int, all_protos@, j) by {
                assert(lib@.books[j] == books@[j]@);
            }
        }
        lib
    }
}

fn origin_exec() -> (r: Vec3i)
    ensures
        r == origin(),
{
    Vec3i { x: 0, y: 0, z: 0 }
}

/// Corner of grid column `k` along an axis; it lies below the map's extent.
fn axis_start(k: i32, map: i32, chunk: i32, overlap: i32) -> (r: i32)
    requires
        0 <= k < chunks_along(map as int, chunk as int, overlap as int),
        0 < chunk,
        0 <= overlap,
    ensures
        r == chunk_start(k as int, chunk as int, overlap as int),
        0 <= r < map,
{
    if k == 0 {
        return 0;
    }
    let stride = chunk - overlap;
    proof {
        let st = stride as int;
        let kk = k as int;
        let a: int = map - chunk + st - 1;
        assert(map > chunk);
        assert(st > 0);
        assert(kk <= a / st);
        assert(a >= 0);
        assert((a / st) * st <= a) by (nonlinear_arith)
            requires
                st > 0,
                a >= 0,
        ;
        assert(kk * st <= (a / st) * st) by (nonlinear_arith)
            requires
                kk <= a / st,
                st > 0,
        ;
        assert(kk * st >= 0) by (nonlinear_arith)
            requires
                kk >= 0,
                st > 0,
        ;
        assert(kk * st <= map - 1);
    }
    k * stride
}

/// Along one axis, coordinate `x` of the map lies in some chunk of the layout.
proof fn lemma_axis_cover(x: int, map: int, chunk: int, overlap: int) -> (k: int)
    requires
        0 <= x < map,
        0 < chunk,
        0 <= overlap,
        map <= chunk || overlap < chunk,
    ensures
        0 <= k < chunks_along(map, chunk, overlap),
        chunk_start(k, chunk, overlap) <= x < chunk_start(k, chunk, overlap) + clamped_extent(
            chunk_start(k, chunk, overlap),
            chunk,
            map,
        ),
        chunks_along(map, chunk, overlap) <= map,
{
    if map <= chunk {
        assert(chunk_start(0, chunk, overlap) == 0) by (nonlinear_arith);
        0
    } else {
        let st = chunk - overlap;
        let a = map - chunk + st - 1;
        let c1 = a / st;
        let q = x / st;
        assert(0 <= c1 * st <= a) by (nonlinear_arith)
            requires
                c1 == a / st,
                st > 0,
                a >= 0,
        ;
        assert(c1 * st > a - st) by (nonlinear_arith)
            requires
                c1 == a / st,
                st > 0,
                a >= 0,
        ;
        assert(q * st <= x < q * st + st) by (nonlinear_arith)
            requires
                q == x / st,
                st > 0,
                x >= 0,
        ;
        assert(0 <= q) by (nonlinear_arith)
            requires
                q == x / st,
                st > 0,
                x >= 0,
        ;
        assert(c1 <= a) by (nonlinear_arith)
            requires
                0 <= c1 * st <= a,
                st >= 1,
                c1 >= 0,
        ;
        if q <= c1 {
            assert(chunk_start(q, chunk, overlap) == q * st);
            q
        } else {
            assert(c1 * st <= q * st) by (nonlinear_arith)
                requires
                    c1 < q,
                    st > 0,
            ;
            assert(chunk_start(c1, chunk, overlap) == c1 * st);
            c1
        }
    }
}

/// Every cell of the map lies in some chunk of `generate_chunks`' layout (each axis either
/// fits in one chunk or advances by a positive stride).
pub proof fn lemma_chunks_cover(p: MapParameters, q: Vec3i)
    requires
        params_wf(p),
        p.map_size.x <= p.chunk_size.x || p.chunk_overlap < p.chunk_size.x,
        p.map_size.y <= p.chunk_size.y || p.chunk_overlap < p.chunk_size.y,
        p.map_size.z <= p.chunk_size.z || p.chunk_overlap < p.chunk_size.z,
        crate::geometry::in_box(q, origin(), p.map_size),
    ensures
        exists|j: int|
            0 <= j < volume(chunk_counts(p)) && crate::geometry::in_box(
                q,
                #[trigger] grid_chunk(p, j).position,
                crate::chunk::chunk_end(grid_chunk(p, j)),
            ),
{
    let kx = lemma_axis_cover(q.x as int, p.map_size.x as int, p.chunk_size.x as int, p.chunk_overlap as int);
    let ky = lemma_axis_cover(q.y as int, p.map_size.y as int, p.chunk_size.y as int, p.chunk_overlap as int);
    let kz = lemma_axis_cover(q.z as int, p.map_size.z as int, p.chunk_size.z as int, p.chunk_overlap as int);
    let counts = chunk_counts(p);
    assert(counts.x as int == chunks_along(p.map_size.x as int, p.chunk_size.x as int, p.chunk_overlap as int));
    assert(counts.y as int == chunks_along(p.map_size.y as int, p.chunk_size.y as int, p.chunk_overlap as int));
    assert(counts.z as int == chunks_along(p.map_size.z as int, p.chunk_size.z as int, p.chunk_overlap as int));
    let j = crate::geometry::linear(counts, kx, ky, kz);
    crate::geometry::lemma_linear_bounds(counts, kx, ky, kz);
    crate::library::lemma_offset(counts, j);
    crate::geometry::lemma_linear_injective(
        counts,
        kx,
        ky,
        kz,
        crate::library::offset_x(counts, j),
        crate::library::offset_y(counts, j),
        crate::library::offset_z(counts, j),
    );
    let g = point_at(origin(), counts, j);
    assert(g.x == kx && g.y == ky && g.z == kz);
    let c = grid_chunk(p, j);
    assert(crate::geometry::in_box(q, c.position, crate::chunk::chunk_end(c)));
}

} // verus!
