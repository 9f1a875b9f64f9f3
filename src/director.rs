use vstd::prelude::*;

use crate::cell::{Cell, CellView};
use crate::chunk::{chunk_end, chunk_wf, overlapping, Chunk, ChunkState};
use crate::geometry::{adjacent, in_box, Vec3i};
use crate::kernel::cells_valid;
use crate::library::{
    check_out_allowed, checked_in, checked_out, library_wf, min_i, range_wf, Library3D, LibraryView, RangeView,
};
use crate::messages::{EngineError, GetNextChunkResponse};
use crate::params::{MapParameters, params_wf};
use crate::prototype::Prototype;

verus! {

/// Owns the chunk catalogue and schedules chunks onto workers.
pub struct MapDirector {
    pub proto_data: Vec<Prototype>,
    pub chunks: Vec<Chunk>,
    pub map_size: Vec3i,
}

/// Corner of a chunk's box grown by one cell on each axis, clamped at zero.
pub open spec fn grown_start(c: Chunk) -> Vec3i {
    Vec3i {
        x: if c.position.x > 0 { (c.position.x - 1) as i32 } else { 0 },
        y: if c.position.y > 0 { (c.position.y - 1) as i32 } else { 0 },
        z: if c.position.z > 0 { (c.position.z - 1) as i32 } else { 0 },
    }
}

/// Far corner of a chunk's box grown by one cell on each axis, clamped to the map.
pub open spec fn grown_end(c: Chunk, size: Vec3i) -> Vec3i {
    let e = chunk_end(c);
    Vec3i {
        x: if e.x + 1 < size.x { (e.x + 1) as i32 } else { size.x },
        y: if e.y + 1 < size.y { (e.y + 1) as i32 } else { size.y },
        z: if e.z + 1 < size.z { (e.z + 1) as i32 } else { size.z },
    }
}

/// A non-Collapsed chunk lies strictly below chunk `i`.
pub open spec fn blocked_below(chunks: Seq<Chunk>, i: int) -> bool {
    exists|c: int|
        0 <= c < chunks.len() && (#[trigger] chunks[c]).state != ChunkState::Collapsed && chunks[c].position.y
            < chunks[i].position.y
}

/// An Active chunk overlaps chunk `i`.
pub open spec fn blocked_active(chunks: Seq<Chunk>, i: int) -> bool {
    exists|c: int|
        0 <= c < chunks.len() && overlapping(#[trigger] chunks[c], chunks[i]) && chunks[c].state
            == ChunkState::Active
}

/// A Collapsed chunk overlaps chunk `i`.
pub open spec fn seeded(chunks: Seq<Chunk>, i: int) -> bool {
    exists|c: int|
        0 <= c < chunks.len() && overlapping(#[trigger] chunks[c], chunks[i]) && chunks[c].state
            == ChunkState::Collapsed
}

/// The chunk touches neither the map's x faces nor its z faces.
pub open spec fn interior(c: Chunk, size: Vec3i) -> bool {
    let e = chunk_end(c);
    c.position.x > 0 && c.position.z > 0 && e.x < size.x && e.z < size.z
}

/// Chunk `i` may start now.
pub open spec fn eligible(chunks: Seq<Chunk>, i: int, size: Vec3i) -> bool {
    &&& 0 <= i < chunks.len()
    &&& chunks[i].state == ChunkState::Ready
    &&& !blocked_below(chunks, i)
    &&& !blocked_active(chunks, i)
    &&& (interior(chunks[i], size) ==> seeded(chunks, i))
}

/// Scheduling priority (lower first): distance to the nearest x/z edge of the map plus
/// 1000 per unit of height.
pub open spec fn score(c: Chunk, size: Vec3i) -> int {
    let e = chunk_end(c);
    min_i(
        min_i(c.position.x as int, c.position.z as int),
        min_i(size.x - min_i(e.x as int, size.x as int), size.z - min_i(e.z as int, size.z as int)),
    ) + 1000 * c.position.y
}

/// `i` is the eligible chunk of lowest score, the first one among equals.
pub open spec fn best_chunk(chunks: Seq<Chunk>, i: int, size: Vec3i) -> bool {
    &&& eligible(chunks, i, size)
    &&& forall|j: int| #[trigger] eligible(chunks, j, size) ==> score(chunks[i], size) <= score(chunks[j], size)
    &&& forall|j: int| 0 <= j < i && #[trigger] eligible(chunks, j, size) ==> score(chunks[i], size) < score(chunks[j], size)
}

/// The chunks after `complete_chunk(i)`: an Active chunk `i` becomes Collapsed.
pub open spec fn completed(chunks: Seq<Chunk>, i: int) -> Seq<Chunk> {
    if 0 <= i < chunks.len() && chunks[i].state == ChunkState::Active {
        chunks.update(i, Chunk { state: ChunkState::Collapsed, ..chunks[i] })
    } else {
        chunks
    }
}

/// The chunks after `release_chunk(i)`: chunk `i`, unless Collapsed, is Ready.
pub open spec fn released(chunks: Seq<Chunk>, i: int) -> Seq<Chunk> {
    if 0 <= i < chunks.len() && chunks[i].state != ChunkState::Collapsed {
        chunks.update(i, Chunk { state: ChunkState::Ready, ..chunks[i] })
    } else {
        chunks
    }
}

/// Every chunk is Collapsed.
pub open spec fn all_collapsed(chunks: Seq<Chunk>) -> bool {
    forall|i: int| 0 <= i < chunks.len() ==> (#[trigger] chunks[i]).state == ChunkState::Collapsed
}

/// No two Active chunks overlap.
pub open spec fn active_disjoint(chunks: Seq<Chunk>) -> bool {
    forall|a: int, b: int|
        0 <= a < chunks.len() && 0 <= b < chunks.len() && a != b && (#[trigger] chunks[a]).state
            == ChunkState::Active && (#[trigger] chunks[b]).state == ChunkState::Active ==> !overlapping(
            chunks[a],
            chunks[b],
        )
}

/// A permitted change of a chunk's state: none, Ready → Active, Active → Collapsed, or
/// Active → Ready (a reset after an error).
pub open spec fn step_ok(a: ChunkState, b: ChunkState) -> bool {
    a == b || (a == ChunkState::Ready && b == ChunkState::Active) || (a == ChunkState::Active && b
        == ChunkState::Collapsed) || (a == ChunkState::Active && b == ChunkState::Ready)
}

/// Every chunk moved by a permitted step, and only states changed.
pub open spec fn steps_ok(before: Seq<Chunk>, after: Seq<Chunk>) -> bool {
    &&& before.len() == after.len()
    &&& forall|i: int|
        0 <= i < before.len() ==> step_ok(before[i].state, (#[trigger] after[i]).state)
            && after[i].position == before[i].position && after[i].size == before[i].size
}

pub open spec fn chunks_wf(chunks: Seq<Chunk>) -> bool {
    forall|i: int| 0 <= i < chunks.len() ==> chunk_wf(#[trigger] chunks[i])
}

/// The library and catalogue a director works on are consistent.
pub open spec fn director_wf(d: MapDirector, lib: LibraryView) -> bool {
    &&& library_wf(lib)
    &&& lib.size == d.map_size
    &&& cells_valid(d.proto_data@, lib.books)
    &&& chunks_wf(d.chunks@)
}

/// A check-out of a store whose cells name catalogue entries hands out such cells.
pub proof fn lemma_check_out_valid(protos: Seq<Prototype>, l0: LibraryView, s: Vec3i, e: Vec3i, r: RangeView, l1: LibraryView)
    requires
        library_wf(l0),
        cells_valid(protos, l0.books),
        checked_out(l0, s, e, r, l1),
    ensures
        cells_valid(protos, r.books),
        cells_valid(protos, l1.books),
{
    assert forall|i: int| 0 <= i < l1.books.len() implies crate::prototype::indices_valid(protos, #[trigger] l1.books[i].possibilities) by {
        assert(crate::prototype::indices_valid(protos, l0.books[i].possibilities));
    }
    assert forall|j: int| 0 <= j < r.books.len() implies crate::prototype::indices_valid(protos, #[trigger] r.books[j].possibilities) by {
        let p = r.books[j].position;
        assert(crate::geometry::in_box(p, r.start, r.end));
        crate::library::lemma_box_position(l0.size, crate::library::origin(), l0.books, p);
        let t = crate::library::store_index(l0, p);
        assert(crate::library::end_of(crate::library::origin(), l0.size) == l0.size);
        assert(in_box(p, crate::library::origin(), l0.size));
        crate::library::lemma_box_position(l0.size, crate::library::origin(), l0.books, p);
        assert(r.books[j] == l1.books[t]);
    }
}

/// A check-in of such cells into such a store keeps it so.
pub proof fn lemma_check_in_valid(protos: Seq<Prototype>, l0: LibraryView, r: RangeView, r2: RangeView, l1: LibraryView)
    requires
        library_wf(l0),
        crate::library::range_wf(r),
        cells_valid(protos, l0.books),
        cells_valid(protos, r.books),
        checked_in(l0, r, r2, l1),
    ensures
        cells_valid(protos, l1.books),
{
    assert forall|i: int| 0 <= i < l1.books.len() implies crate::prototype::indices_valid(protos, #[trigger] l1.books[i].possibilities) by {
        let q = l0.books[i].position;
        if crate::geometry::in_box(q, r.start, r.end) {
            crate::library::lemma_box_position(r.size, r.start, r.books, q);
            let t = crate::geometry::linear_at(r.size, r.start, q);
            assert(r2.books[t].possibilities == r.books[t].possibilities);
        }
    }
}

/// Every possibility of `a` is one of `b`.
pub open spec fn within(a: Seq<usize>, b: Seq<usize>) -> bool {
    forall|e: usize| a.contains(e) ==> b.contains(e)
}

/// Cell `i` is consistent with each of its axis neighbours that lie in `lo .. hi`.
pub open spec fn settled_within(protos: Seq<Prototype>, cells: Seq<CellView>, lo: Vec3i, hi: Vec3i, i: int) -> bool {
    forall|nb: int|
        0 <= nb < cells.len() && in_box(cells[nb].position, lo, hi) && adjacent(cells[i].position, cells[nb].position)
            ==> #[trigger] crate::kernel::arc_ok(protos, cells, i, nb)
}

/// A check-out, work on the range that keeps positions and versions, and a check-in:
/// the store's cells in the box take the range's possibilities, and nothing else changes.
pub proof fn lemma_round_trip(
    l0: LibraryView,
    s: Vec3i,
    e: Vec3i,
    r: RangeView,
    l1: LibraryView,
    r1: RangeView,
    r2: RangeView,
    l2: LibraryView,
)
    requires
        library_wf(l0),
        check_out_allowed(l0, s, e),
        checked_out(l0, s, e, r, l1),
        range_wf(r1),
        r1.start == r.start,
        r1.end == r.end,
        r1.size == r.size,
        r1.books.len() == r.books.len(),
        forall|j: int| 0 <= j < r.books.len() ==> (#[trigger] r1.books[j]).position == r.books[j].position && r1.books[j].version == r.books[j].version,
        checked_in(l1, r1, r2, l2),
    ensures
        l2.books.len() == l0.books.len(),
        forall|i: int| 0 <= i < l0.books.len() ==> (#[trigger] l2.books[i]).position == l0.books[i].position && l2.books[i].locked == l0.books[i].locked,
        forall|i: int| 0 <= i < l0.books.len() && !in_box(l0.books[i].position, r.start, r.end) ==> #[trigger] l2.books[i] == l0.books[i],
        forall|i: int| 0 <= i < l0.books.len() && in_box(l0.books[i].position, r.start, r.end) ==> (#[trigger] l2.books[i]).possibilities
            == r1.books[crate::geometry::linear_at(r.size, r.start, l0.books[i].position)].possibilities,
        forall|i: int| 0 <= i < l0.books.len() && in_box(l0.books[i].position, r.start, r.end) ==> (#[trigger] l2.books[i]).version
            == l1.next_version && !l2.books[i].locked,
        forall|j: int| 0 <= j < r1.books.len() ==> {
            &&& 0 <= crate::library::store_index(l0, #[trigger] r1.books[j].position) < l2.books.len()
            &&& l2.books[crate::library::store_index(l0, r1.books[j].position)].possibilities == r1.books[j].possibilities
            &&& l2.books[crate::library::store_index(l0, r1.books[j].position)].position == r1.books[j].position
        },
{
    assert forall|i: int| 0 <= i < l0.books.len() implies (#[trigger] l2.books[i]).position == l0.books[i].position && l2.books[i].locked == l0.books[i].locked by {
        if in_box(l0.books[i].position, r.start, r.end) {
            crate::library::lemma_box_position(r.size, r.start, r1.books, l0.books[i].position);
            crate::library::lemma_box_position(r.size, r.start, r.books, l0.books[i].position);
        }
    }
    assert forall|i: int| 0 <= i < l0.books.len() && in_box(l0.books[i].position, r.start, r.end) implies (#[trigger] l2.books[i]).possibilities
        == r1.books[crate::geometry::linear_at(r.size, r.start, l0.books[i].position)].possibilities by {
        assert(l1.books[i].position == l0.books[i].position);
        crate::library::lemma_box_position(r.size, r.start, r1.books, l0.books[i].position);
    }
    assert forall|i: int| 0 <= i < l0.books.len() && in_box(l0.books[i].position, r.start, r.end) implies (#[trigger] l2.books[i]).version
        == l1.next_version && !l2.books[i].locked by {
        assert(l1.books[i].position == l0.books[i].position);
        crate::library::lemma_box_position(r.size, r.start, r1.books, l0.books[i].position);
    }
    assert forall|j: int| 0 <= j < r1.books.len() implies {
        &&& 0 <= crate::library::store_index(l0, #[trigger] r1.books[j].position) < l2.books.len()
        &&& l2.books[crate::library::store_index(l0, r1.books[j].position)].possibilities == r1.books[j].possibilities
        &&& l2.books[crate::library::store_index(l0, r1.books[j].position)].position == r1.books[j].position
    } by {
        let p = r1.books[j].position;
        assert(p == r.books[j].position);
        assert(in_box(p, r.start, r.end));
        let t = crate::library::store_index(l0, p);
        assert(crate::library::end_of(crate::library::origin(), l0.size) == l0.size);
        assert(in_box(p, crate::library::origin(), l0.size));
        crate::library::lemma_box_position(l0.size, crate::library::origin(), l0.books, p);
        assert(r.books[j] == l1.books[t]);
        assert(l1.books[t].position == l0.books[t].position);
        assert(l0.books[t].position == p);
        assert(crate::geometry::linear_at(r.size, r.start, p) == j);
    }
}

/// What holds of a range's cells holds of the store's cells in its box after the round
/// trip: consistency with the neighbours in the box.
proof fn lemma_settled_transfer(protos: Seq<Prototype>, l0: LibraryView, r1: RangeView, l2: LibraryView, i: int)
    requires
        library_wf(l0),
        range_wf(r1),
        l2.books.len() == l0.books.len(),
        forall|k: int| 0 <= k < l0.books.len() ==> (#[trigger] l2.books[k]).position == l0.books[k].position,
        forall|k: int| 0 <= k < l0.books.len() && in_box(l0.books[k].position, r1.start, r1.end) ==> (#[trigger] l2.books[k]).possibilities
            == r1.books[crate::geometry::linear_at(r1.size, r1.start, l0.books[k].position)].possibilities,
        forall|j: int| 0 <= j < r1.books.len() ==> #[trigger] crate::kernel::settled(protos, r1.books, j),
        0 <= i < l0.books.len(),
        in_box(l0.books[i].position, r1.start, r1.end),
    ensures
        settled_within(protos, l2.books, r1.start, r1.end, i),
{
    let pi = l0.books[i].position;
    crate::library::lemma_box_position(r1.size, r1.start, r1.books, pi);
    let ji = crate::geometry::linear_at(r1.size, r1.start, pi);
    assert(crate::kernel::settled(protos, r1.books, ji));
    assert forall|nb: int|
        0 <= nb < l2.books.len() && in_box(l2.books[nb].position, r1.start, r1.end) && adjacent(l2.books[i].position, l2.books[nb].position)
            implies #[trigger] crate::kernel::arc_ok(protos, l2.books, i, nb) by {
        let pn = l0.books[nb].position;
        crate::library::lemma_box_position(r1.size, r1.start, r1.books, pn);
        let jn = crate::geometry::linear_at(r1.size, r1.start, pn);
        assert(crate::kernel::arc_ok(protos, r1.books, ji, jn));
    }
}

/// A cell that propagation would empty in the range is one in the store after the round
/// trip.
pub proof fn lemma_emptied_transfer(protos: Seq<Prototype>, l0: LibraryView, r1: RangeView, l2: LibraryView, p: Vec3i)
    requires
        forall|j: int| 0 <= j < r1.books.len() ==> {
            &&& 0 <= crate::library::store_index(l0, #[trigger] r1.books[j].position) < l2.books.len()
            &&& l2.books[crate::library::store_index(l0, r1.books[j].position)].possibilities == r1.books[j].possibilities
            &&& l2.books[crate::library::store_index(l0, r1.books[j].position)].position == r1.books[j].position
        },
        crate::kernel::emptied_at(protos, r1.books, p),
    ensures
        crate::kernel::emptied_at(protos, l2.books, p),
{
    let (i, m) = choose|i: int, m: int|
        0 <= i < r1.books.len() && 0 <= m < r1.books.len() && #[trigger] r1.books[i].position == p && adjacent(
            r1.books[m].position,
            p,
        ) && r1.books[i].possibilities.len() > 0 && #[trigger] crate::cell::constrained_by(protos, r1.books[i], r1.books[m]).len()
            == 0;
    let ti = crate::library::store_index(l0, r1.books[i].position);
    let tm = crate::library::store_index(l0, r1.books[m].position);
    assert(crate::cell::constrained_by(protos, l2.books[ti], l2.books[tm]) == crate::cell::constrained_by(protos, r1.books[i], r1.books[m]));
    assert(l2.books[ti].position == p);
}

/// With positions and versions kept, the range checked out goes back in.
pub proof fn lemma_check_in_ok(l0: LibraryView, s: Vec3i, e: Vec3i, r: RangeView, l1: LibraryView, r1: RangeView)
    requires
        library_wf(l0),
        checked_out(l0, s, e, r, l1),
        l1.next_version < u64::MAX,
        r1.books.len() == r.books.len(),
        forall|j: int| 0 <= j < r.books.len() ==> (#[trigger] r1.books[j]).position == r.books[j].position && r1.books[j].version == r.books[j].version,
    ensures
        crate::library::check_in_allowed(l1, r1),
{
    crate::library::lemma_check_out_in_round_trip(l0, s, e, r, l1, r, l1);
    assert forall|j: int| 0 <= j < r1.books.len() implies {
        let p = #[trigger] r1.books[j].position;
        &&& in_box(p, crate::library::origin(), l1.size)
        &&& l1.books[crate::library::store_index(l1, p)].version == r1.books[j].version
    } by {
        assert(r.books[j].position == r1.books[j].position);
    }
}

/// The catalogue entries a prepared chunk cell may keep: the whole catalogue under the
/// map's boundary rules, then under the chunk's own top layer.
pub open spec fn prepared_bound(protos: Seq<Prototype>, size: Vec3i, c: Chunk, p: Vec3i) -> Seq<usize> {
    crate::kernel::edge_filtered(
        protos,
        crate::kernel::edge_filtered(protos, crate::kernel::all_indices(protos.len() as int), p, size, size.y - 1),
        p,
        size,
        crate::kernel::chunk_top(c, size),
    )
}

/// What preparing chunk `c` did to the store `before`, leaving `after`:
/// - too few fresh versions, a negative corner or a checked-out cell in the grown box is a
///   store error;
/// - an over-collapse names a cell that is emptied in `after`;
/// - on success every cell of the chunk keeps only entries of `prepared_bound`, and every
///   cell of the grown box is consistent with its neighbours there.
pub open spec fn reset_outcome(
    protos: Seq<Prototype>,
    size: Vec3i,
    c: Chunk,
    before: LibraryView,
    res: Result<Vec<Cell>, EngineError>,
    after: LibraryView,
) -> bool {
    let gs = grown_start(c);
    let ge = grown_end(c, size);
    &&& (c.state != ChunkState::Collapsed && before.next_version > u64::MAX - 3) ==> res
        == Err::<Vec<Cell>, EngineError>(EngineError::Library(crate::library::LibraryError::VersionsExhausted))
    &&& (res matches Err(EngineError::Library(_))) ==> (before.next_version > u64::MAX - 3 || !crate::library::nonneg(c.position)
        || exists|i: int| 0 <= i < before.books.len() && #[trigger] before.books[i].locked && in_box(before.books[i].position, gs, ge))
    &&& res matches Err(EngineError::Chunk(crate::kernel::ChunkError::Overcollapsed(p))) ==> crate::kernel::emptied_at(protos, after.books, p)
    &&& (c.state != ChunkState::Collapsed && res is Err) ==> (res->Err_0 is Library || res->Err_0 is Chunk)
    &&& res.is_ok() ==> forall|i: int|
        0 <= i < before.books.len() && in_box(before.books[i].position, c.position, crate::library::clamp_end(c.position, chunk_end(c), size))
        ==> within((#[trigger] after.books[i]).possibilities, prepared_bound(protos, size, c, before.books[i].position))
    &&& res.is_ok() ==> forall|i: int|
        0 <= i < before.books.len() && in_box(before.books[i].position, gs, crate::library::clamp_end(gs, ge, size))
        ==> #[trigger] settled_within(protos, after.books, gs, crate::library::clamp_end(gs, ge, size), i)
}

/// A check-out refused for a non-negative corner, on a store whose flags are those of
/// `l0`, points at a checked-out cell of `l0` in the box it asked for.
proof fn lemma_locked_witness(l0: LibraryView, lk: LibraryView, s: Vec3i, e: Vec3i, gs: Vec3i, ge: Vec3i)
    requires
        library_wf(l0),
        lk.size == l0.size,
        lk.books.len() == l0.books.len(),
        forall|i: int| 0 <= i < l0.books.len() ==> (#[trigger] lk.books[i]).position == l0.books[i].position && lk.books[i].locked == l0.books[i].locked,
        !check_out_allowed(lk, s, e),
        crate::library::nonneg(s),
        forall|p: Vec3i| in_box(p, crate::library::origin(), l0.size) && in_box(p, s, crate::library::clamp_end(s, e, l0.size)) ==> #[trigger] in_box(p, gs, ge),
    ensures
        exists|i: int| 0 <= i < l0.books.len() && #[trigger] l0.books[i].locked && in_box(l0.books[i].position, gs, ge),
{
    let i = choose|i: int| 0 <= i < lk.books.len() && in_box(#[trigger] lk.books[i].position, s, crate::library::clamp_end(s, e, lk.size)) && lk.books[i].locked;
    assert(lk.books[i].position == l0.books[i].position);
    assert(crate::library::end_of(crate::library::origin(), l0.size) == l0.size);
    assert(in_box(l0.books[i].position, crate::library::origin(), l0.size));
    assert(in_box(l0.books[i].position, gs, ge));
    assert(l0.books[i].locked);
}

impl MapDirector {
    /// A director over the chunk grid of `params`, with the given catalogue.
    pub fn new(params: &MapParameters, proto_data: Vec<Prototype>) -> (r: MapDirector)
        requires
            params_wf(*params),
        ensures
            r.proto_data == proto_data,
            r.map_size == params.map_size,
            r.chunks@.len() == crate::geometry::volume(crate::params::chunk_counts(*params)),
            forall|j: int| 0 <= j < r.chunks@.len() ==> #[trigger] r.chunks@[j] == crate::params::grid_chunk(*params, j),
    {
        let chunks = params.generate_chunks();
        MapDirector { proto_data, chunks, map_size: params.map_size }
    }

    /// Puts a chunk that is not Collapsed back to Ready, so that it is scheduled again.
    pub fn release_chunk(&mut self, chunk_index: usize)
        ensures
            final(self).proto_data == old(self).proto_data,
            final(self).map_size == old(self).map_size,
            final(self).chunks@ == released(old(self).chunks@, chunk_index as int),
            steps_ok(old(self).chunks@, final(self).chunks@),
            active_disjoint(old(self).chunks@) ==> active_disjoint(final(self).chunks@),
            chunks_wf(old(self).chunks@) ==> chunks_wf(final(self).chunks@),
    {
        if chunk_index < self.chunks.len() && self.chunks[chunk_index].state != ChunkState::Collapsed {
            let mut c = self.chunks[chunk_index];
            c.state = ChunkState::Ready;
            self.chunks.set(chunk_index, c);
            proof {
                let cs = self.chunks@;
                let os = old(self).chunks@;
                if chunks_wf(os) {
                    assert forall|i: int| 0 <= i < cs.len() implies chunk_wf(#[trigger] cs[i]) by {
                        assert(chunk_wf(os[i]));
                    }
                }
                if active_disjoint(os) {
                    assert forall|p: int, q: int|
                        0 <= p < cs.len() && 0 <= q < cs.len() && p != q && (#[trigger] cs[p]).state
                            == ChunkState::Active && (#[trigger] cs[q]).state == ChunkState::Active implies !overlapping(cs[p], cs[q]) by {
                        assert(os[p].state == ChunkState::Active && os[q].state == ChunkState::Active);
                    }
                }
            }
        }
    }

    /// True iff every chunk is Collapsed.
    pub fn all_chunks_collapsed(&self) -> (r: bool)
        ensures
            r == all_collapsed(self.chunks@),
    {
        let mut i: usize = 0;
        while i < self.chunks.len()
            invariant
                i <= self.chunks@.len(),
                forall|k: int| 0 <= k < i ==> (#[trigger] self.chunks@[k]).state == ChunkState::Collapsed,
            decreases self.chunks@.len() - i,
        {
            if self.chunks[i].state != ChunkState::Collapsed {
                return false;
            }
            i = i + 1;
        }
        true
    }

    /// Marks an Active chunk Collapsed (any other chunk is left as it is).
    pub fn complete_chunk(&mut self, chunk_index: usize)
        ensures
            final(self).proto_data == old(self).proto_data,
            final(self).map_size == old(self).map_size,
            final(self).chunks@ == completed(old(self).chunks@, chunk_index as int),
            steps_ok(old(self).chunks@, final(self).chunks@),
            active_disjoint(old(self).chunks@) ==> active_disjoint(final(self).chunks@),
    {
        if chunk_index < self.chunks.len() && self.chunks[chunk_index].state == ChunkState::Active {
            let mut c = self.chunks[chunk_index];
            c.state = ChunkState::Collapsed;
            self.chunks.set(chunk_index, c);
        }
    }

    /// The eligible chunk of lowest score (the first among equals), if any.
    pub fn select_next_chunk(&self) -> (r: Option<usize>)
        requires
            chunks_wf(self.chunks@),
        ensures
            r.is_none() <==> forall|i: int| !#[trigger] eligible(self.chunks@, i, self.map_size),
            r.is_some() ==> best_chunk(self.chunks@, r.unwrap() as int, self.map_size),
    {
        let ghost cs = self.chunks@;
        let size = self.map_size;
        let mut best: Option<usize> = None;
        let mut best_score: i64 = 0;
        let mut i: usize = 0;
        while i < self.chunks.len()
            invariant
                cs == self.chunks@,
                size == self.map_size,
                chunks_wf(cs),
                i <= cs.len(),
                best.is_none() <==> forall|j: int| 0 <= j < i ==> !#[trigger] eligible(cs, j, size),
                best.is_some() ==> {
                    let b = best.unwrap() as int;
                    &&& b < i
                    &&& eligible(cs, b, size)
                    &&& best_score == score(cs[b], size)
                    &&& forall|j: int| 0 <= j < i && #[trigger] eligible(cs, j, size) ==> best_score <= score(cs[j], size)
                    &&& forall|j: int| 0 <= j < b && #[trigger] eligible(cs, j, size) ==> best_score < score(cs[j], size)
                },
            decreases cs.len() - i,
        {
            if self.is_eligible(i) {
                let s = self.chunk_score(i);
                match best {
                    None => {
                        best = Some(i);
                        best_score = s;
                    },
                    Some(_) => {
                        if s < best_score {
                            best = Some(i);
                            best_score = s;
                        }
                    },
                }
            }
            i = i + 1;
        }
        best
    }

    /// One check-out / kernel step / check-in round over `start .. end`: phase 0 resets
    /// the cells, phase 1 applies the chunk's constraints and propagates, phase 2 only
    /// propagates. The range is checked back in whether or not the step failed.
    fn run_phase(&self, library: &mut Library3D, chunk: Chunk, start: Vec3i, end: Vec3i, phase: u8) -> (res: Result<Vec<Cell>, EngineError>)
        requires
            director_wf(*self, old(library)@),
            chunk_wf(chunk),
            old(library)@.next_version < u64::MAX,
        ensures
            director_wf(*self, final(library)@),
            final(library)@.books.len() == old(library)@.books.len(),
            final(library)@.next_version <= old(library)@.next_version + 1,
            forall|i: int| 0 <= i < old(library)@.books.len() ==> (#[trigger] final(library)@.books[i]).position
                == old(library)@.books[i].position && final(library)@.books[i].locked == old(library)@.books[i].locked,
            forall|i: int|
                0 <= i < old(library)@.books.len() && !in_box(
                    #[trigger] old(library)@.books[i].position,
                    start,
                    crate::library::clamp_end(start, end, old(library)@.size),
                ) ==> final(library)@.books[i] == old(library)@.books[i],
            res matches Err(EngineError::Library(_)) ==> !check_out_allowed(old(library)@, start, end) && final(library)@ == old(library)@,
            res matches Err(EngineError::Chunk(crate::kernel::ChunkError::Overcollapsed(p))) ==> crate::kernel::emptied_at(self.proto_data@, final(library)@.books, p),
            res.is_err() ==> (res matches Err(EngineError::Library(_))) || (res matches Err(EngineError::Chunk(_))),
            phase == 0 && res.is_ok() ==> forall|i: int|
                0 <= i < old(library)@.books.len() && in_box(old(library)@.books[i].position, start, crate::library::clamp_end(start, end, old(library)@.size))
                ==> (#[trigger] final(library)@.books[i]).possibilities == crate::kernel::edge_filtered(
                    self.proto_data@, crate::kernel::all_indices(self.proto_data@.len() as int), old(library)@.books[i].position, self.map_size, self.map_size.y - 1),
            phase == 1 && !(res matches Err(EngineError::Library(_))) ==> forall|i: int|
                0 <= i < old(library)@.books.len() && in_box(old(library)@.books[i].position, start, crate::library::clamp_end(start, end, old(library)@.size))
                ==> within((#[trigger] final(library)@.books[i]).possibilities, crate::kernel::edge_filtered(
                    self.proto_data@, old(library)@.books[i].possibilities, old(library)@.books[i].position, self.map_size,
                    crate::kernel::chunk_top(chunk, self.map_size))),
            phase >= 1 ==> forall|i: int| 0 <= i < old(library)@.books.len() ==> within(
                (#[trigger] final(library)@.books[i]).possibilities, old(library)@.books[i].possibilities) || phase == 1,
            phase >= 1 && res.is_ok() ==> forall|i: int|
                0 <= i < old(library)@.books.len() && in_box(old(library)@.books[i].position, start, crate::library::clamp_end(start, end, old(library)@.size))
                ==> #[trigger] settled_within(self.proto_data@, final(library)@.books, start, crate::library::clamp_end(start, end, old(library)@.size), i),
    {
        let ghost l0 = library@;
        let mut range = match library.check_out_range(start, end) {
            Ok(r) => r,
            Err(e) => return Err(EngineError::Library(e)),
        };
        let ghost r0 = range@;
        let ghost l1 = library@;
        proof {
            lemma_check_out_valid(self.proto_data@, l0, start, end, range@, library@);
        }
        let res: Result<Vec<Cell>, crate::kernel::ChunkError> = if phase == 0 {
            Ok(chunk.reset_cells(&mut range, &self.proto_data, self.map_size))
        } else if phase == 1 {
            chunk.apply_constraints(&mut range, &self.proto_data, self.map_size);
            let ghost rm = range@;
            proof {
                assert forall|k: int| 0 <= k < rm.books.len() implies (#[trigger] rm.books[k]).possibilities == crate::kernel::edge_filtered(
                    self.proto_data@, r0.books[k].possibilities, r0.books[k].position, self.map_size, crate::kernel::chunk_top(chunk, self.map_size)) by {
                    assert(rm.books[k] == range.books@[k]@);
                }
            }
            let r = chunk.propagate_all(&mut range, &self.proto_data);
            proof {
                assert forall|k: int| 0 <= k < r0.books.len() implies within((#[trigger] range@.books[k]).possibilities, crate::kernel::edge_filtered(
                    self.proto_data@, r0.books[k].possibilities, r0.books[k].position, self.map_size, crate::kernel::chunk_top(chunk, self.map_size))) by {
                    assert(rm.books[k].possibilities == crate::kernel::edge_filtered(
                        self.proto_data@, r0.books[k].possibilities, r0.books[k].position, self.map_size, crate::kernel::chunk_top(chunk, self.map_size)));
                }
            }
            r
        } else {
            chunk.propagate_all(&mut range, &self.proto_data)
        };
        let ghost r1 = range@;
        proof {
            assert forall|j: int| 0 <= j < r0.books.len() implies (#[trigger] r1.books[j]).position == r0.books[j].position && r1.books[j].version == r0.books[j].version by {
                assert(r1.books[j] == range.books@[j]@);
            }
            lemma_check_in_ok(l0, start, end, r0, l1, r1);
        }
        match library.check_in_range(&mut range) {
            Ok(()) => {},
            Err(e) => return Err(EngineError::Library(e)),
        }
        let ghost l2 = library@;
        proof {
            lemma_check_in_valid(self.proto_data@, l1, r1, range@, library@);
            lemma_round_trip(l0, start, end, r0, l1, r1, range@, l2);
            assert forall|i: int| 0 <= i < l0.books.len() && in_box(l0.books[i].position, r0.start, r0.end) implies {
                let k = crate::geometry::linear_at(r0.size, r0.start, l0.books[i].position);
                &&& 0 <= k < r0.books.len()
                &&& r0.books[k].position == l0.books[i].position
                &&& r0.books[k].possibilities == l0.books[i].possibilities
                &&& r1.books[k].position == l0.books[i].position
            } by {
                let p = l0.books[i].position;
                crate::library::lemma_box_position(r0.size, r0.start, r0.books, p);
                crate::library::lemma_box_position(r0.size, r0.start, r1.books, p);
                let k = crate::geometry::linear_at(r0.size, r0.start, p);
                assert(crate::library::store_index(l0, p) == i);
                assert(r0.books[k] == l1.books[i]);
            }
            if phase >= 1 {
                if let Ok(_) = res {
                    assert forall|i: int|
                        0 <= i < l0.books.len() && in_box(l0.books[i].position, start, crate::library::clamp_end(start, end, l0.size))
                        implies #[trigger] settled_within(self.proto_data@, l2.books, start, crate::library::clamp_end(start, end, l0.size), i) by {
                        lemma_settled_transfer(self.proto_data@, l0, r1, l2, i);
                    }
                }
            }
            if let Err(crate::kernel::ChunkError::Overcollapsed(p)) = res {
                lemma_emptied_transfer(self.proto_data@, l0, r1, l2, p);
            }
            if phase >= 1 {
                assert forall|i: int| 0 <= i < l0.books.len() implies within(
                    (#[trigger] l2.books[i]).possibilities, l0.books[i].possibilities) || phase == 1 by {
                    if phase == 2 && in_box(l0.books[i].position, r0.start, r0.end) {
                        let k = crate::geometry::linear_at(r0.size, r0.start, l0.books[i].position);
                        assert(crate::kernel::shrunk(r0.books, r1.books));
                        assert(r1.books[k].possibilities.len() >= 0);
                    }
                }
            }
        }
        match res {
            Ok(changes) => Ok(changes),
            Err(e) => Err(EngineError::Chunk(e)),
        }
    }

    /// Prepares chunk `chunk_index` for collapse in three rounds: reset its cells, apply
    /// its constraints and propagate, then propagate over its bounds grown by one cell on
    /// each axis (clamped to the map) to draw in what collapsed neighbours imply. On
    /// success the chunk is Ready; on failure the chunks are left as they were. Returns the
    /// cells reported by the three rounds.
    pub fn reset_chunk(&mut self, library: &mut Library3D, chunk_index: usize) -> (res: Result<Vec<Cell>, EngineError>)
        requires
            director_wf(*old(self), old(library)@),
        ensures
            director_wf(*final(self), final(library)@),
            final(self).proto_data == old(self).proto_data,
            final(self).map_size == old(self).map_size,
            chunk_index >= old(self).chunks@.len() ==> res == Err::<Vec<Cell>, EngineError>(EngineError::MissingChunk(chunk_index)),
            chunk_index < old(self).chunks@.len() && old(self).chunks@[chunk_index as int].state == ChunkState::Collapsed
                ==> res == Err::<Vec<Cell>, EngineError>(EngineError::ChunkCollapsed(chunk_index)),
            res.is_ok() ==> final(self).chunks@ == old(self).chunks@.update(chunk_index as int, Chunk { state: ChunkState::Ready, ..old(self).chunks@[chunk_index as int] }),
            res.is_err() ==> final(self).chunks@ == old(self).chunks@,
            steps_ok(old(self).chunks@, final(self).chunks@),
            active_disjoint(old(self).chunks@) ==> active_disjoint(final(self).chunks@),
            final(library)@.books.len() == old(library)@.books.len(),
            !(chunk_index < old(self).chunks@.len() && old(self).chunks@[chunk_index as int].state != ChunkState::Collapsed)
                ==> final(library)@ == old(library)@,
            chunk_index < old(self).chunks@.len() ==> forall|i: int|
                0 <= i < old(library)@.books.len() && !in_box(
                    #[trigger] old(library)@.books[i].position,
                    grown_start(old(self).chunks@[chunk_index as int]),
                    grown_end(old(self).chunks@[chunk_index as int], old(self).map_size),
                ) ==> final(library)@.books[i] == old(library)@.books[i],
            forall|i: int| 0 <= i < old(library)@.books.len() ==> (#[trigger] final(library)@.books[i]).locked
                == old(library)@.books[i].locked,
            chunk_index < old(self).chunks@.len() ==> reset_outcome(
                old(self).proto_data@,
                old(self).map_size,
                old(self).chunks@[chunk_index as int],
                old(library)@,
                res,
                final(library)@,
            ),
    {
        if chunk_index >= self.chunks.len() {
            return Err(EngineError::MissingChunk(chunk_index));
        }
        let chunk = self.chunks[chunk_index];
        if chunk.state == ChunkState::Collapsed {
            return Err(EngineError::ChunkCollapsed(chunk_index));
        }
        if library.next_version > u64::MAX - 3 {
            return Err(EngineError::Library(crate::library::LibraryError::VersionsExhausted));
        }
        assert(chunk_wf(chunk));
        let (start, end) = chunk.bounds();
        let ghost l0 = library@;
        let ghost gs = grown_start(chunk);
        let ghost ge = grown_end(chunk, self.map_size);
        proof {
            assert(l0.size == self.map_size);
            assert(crate::library::end_of(crate::library::origin(), l0.size) == l0.size);
            assert forall|p: Vec3i| in_box(p, crate::library::origin(), l0.size) && in_box(p, start, crate::library::clamp_end(start, end, l0.size)) implies #[trigger] in_box(p, gs, ge) by {}
        }
        let mut changes: Vec<Cell> = Vec::new();
        let ra = self.run_phase(library, chunk, start, end, 0);
        proof {
            if (ra matches Err(EngineError::Library(_))) && crate::library::nonneg(start) {
                lemma_locked_witness(l0, l0, start, end, gs, ge);
            }
        }
        let mut a = ra?;
        changes.append(&mut a);
        let ghost l1 = library@;
        let rb = self.run_phase(library, chunk, start, end, 1);
        proof {
            if (rb matches Err(EngineError::Library(_))) && crate::library::nonneg(start) {
                lemma_locked_witness(l0, l1, start, end, gs, ge);
            }
        }
        let mut b = rb?;
        changes.append(&mut b);
        let ghost l2 = library@;
        let size = self.map_size;
        let grown_start = Vec3i {
            x: if start.x > 0 { start.x - 1 } else { 0 },
            y: if start.y > 0 { start.y - 1 } else { 0 },
            z: if start.z > 0 { start.z - 1 } else { 0 },
        };
        let grown_end = Vec3i {
            x: if (end.x as i64) + 1 < size.x as i64 { end.x + 1 } else { size.x },
            y: if (end.y as i64) + 1 < size.y as i64 { end.y + 1 } else { size.y },
            z: if (end.z as i64) + 1 < size.z as i64 { end.z + 1 } else { size.z },
        };
        assert(grown_start == gs && grown_end == ge);
        proof {
            assert forall|p: Vec3i| in_box(p, crate::library::origin(), l0.size) && in_box(p, gs, crate::library::clamp_end(gs, ge, l0.size)) implies #[trigger] in_box(p, gs, ge) by {}
        }
        let rc = self.run_phase(library, chunk, grown_start, grown_end, 2);
        proof {
            if rc matches Err(EngineError::Library(_)) {
                lemma_locked_witness(l0, l2, gs, ge, gs, ge);
            }
        }
        let mut c = rc?;
        changes.append(&mut c);
        proof {
            let l3 = library@;
            assert forall|i: int| 0 <= i < l0.books.len() && in_box(l0.books[i].position, start, crate::library::clamp_end(start, end, l0.size))
                implies within((#[trigger] l3.books[i]).possibilities, crate::kernel::edge_filtered(self.proto_data@,
                    crate::kernel::edge_filtered(self.proto_data@, crate::kernel::all_indices(self.proto_data@.len() as int), l0.books[i].position, self.map_size, self.map_size.y - 1),
                    l0.books[i].position, self.map_size, crate::kernel::chunk_top(chunk, self.map_size))) by {
                assert(l1.books[i].position == l0.books[i].position);
                assert(within(l3.books[i].possibilities, l2.books[i].possibilities));
            }
        }
        let mut ready = chunk;
        ready.state = ChunkState::Ready;
        self.chunks.set(chunk_index, ready);
        proof {
            assert(chunks_wf(self.chunks@)) by {
                assert forall|i: int| 0 <= i < self.chunks@.len() implies chunk_wf(#[trigger] self.chunks@[i]) by {
                    assert(chunk_wf(old(self).chunks@[i]));
                }
            }
            let cs = self.chunks@;
            let os = old(self).chunks@;
            if active_disjoint(os) {
                assert forall|p: int, q: int|
                    0 <= p < cs.len() && 0 <= q < cs.len() && p != q && (#[trigger] cs[p]).state
                        == ChunkState::Active && (#[trigger] cs[q]).state == ChunkState::Active implies !overlapping(cs[p], cs[q]) by {
                    assert(os[p].state == ChunkState::Active && os[q].state == ChunkState::Active);
                }
            }
        }
        Ok(changes)
    }

    /// Picks the next chunk (see `select_next_chunk`), prepares it with `reset_chunk` and
    /// marks it Active.
    pub fn get_next_chunk(&mut self, library: &mut Library3D) -> (res: GetNextChunkResponse)
        requires
            director_wf(*old(self), old(library)@),
        ensures
            director_wf(*final(self), final(library)@),
            final(self).proto_data == old(self).proto_data,
            final(self).map_size == old(self).map_size,
            steps_ok(old(self).chunks@, final(self).chunks@),
            active_disjoint(old(self).chunks@) ==> active_disjoint(final(self).chunks@),
            (res matches GetNextChunkResponse::NoChunksLeft) <==> forall|i: int|
                0 <= i < old(self).chunks@.len() ==> (#[trigger] old(self).chunks@[i]).state != ChunkState::Ready,
            (res matches GetNextChunkResponse::NoChunksReady) ==> (exists|i: int|
                0 <= i < old(self).chunks@.len() && (#[trigger] old(self).chunks@[i]).state == ChunkState::Ready)
                && forall|i: int| !#[trigger] eligible(old(self).chunks@, i, old(self).map_size),
            !(res matches GetNextChunkResponse::ChunkReady(_, _, _)) ==> final(self).chunks@ == old(self).chunks@,
            (res matches GetNextChunkResponse::NoChunksLeft) || (res matches GetNextChunkResponse::NoChunksReady)
                ==> final(library)@ == old(library)@,
            forall|i: int| 0 <= i < old(library)@.books.len() ==> (#[trigger] final(library)@.books[i]).locked
                == old(library)@.books[i].locked,
            res matches GetNextChunkResponse::Error(e) ==> exists|i: int| #[trigger] best_chunk(old(self).chunks@, i, old(self).map_size)
                && reset_outcome(old(self).proto_data@, old(self).map_size, old(self).chunks@[i], old(library)@,
                    Err::<Vec<Cell>, EngineError>(e), final(library)@),
            res matches GetNextChunkResponse::ChunkReady(i, c, changes) ==> reset_outcome(old(self).proto_data@, old(self).map_size,
                old(self).chunks@[i as int], old(library)@, Ok::<Vec<Cell>, EngineError>(changes), final(library)@),
            res matches GetNextChunkResponse::ChunkReady(i, c, _) ==> {
                &&& best_chunk(old(self).chunks@, i as int, old(self).map_size)
                &&& final(self).chunks@ == old(self).chunks@.update(i as int, Chunk { state: ChunkState::Active, ..old(self).chunks@[i as int] })
                &&& c == final(self).chunks@[i as int]
            },
    {
        let mut any_ready = false;
        let mut k: usize = 0;
        while k < self.chunks.len()
            invariant
                k <= self.chunks@.len(),
                any_ready <==> exists|i: int| 0 <= i < k && (#[trigger] self.chunks@[i]).state == ChunkState::Ready,
            decreases self.chunks@.len() - k,
        {
            if self.chunks[k].state == ChunkState::Ready {
                any_ready = true;
            }
            k = k + 1;
        }
        if !any_ready {
            return GetNextChunkResponse::NoChunksLeft;
        }
        let i = match self.select_next_chunk() {
            None => return GetNextChunkResponse::NoChunksReady,
            Some(i) => i,
        };
        let ghost os = self.chunks@;
        let changes = match self.reset_chunk(library, i) {
            Ok(c) => c,
            Err(e) => {
                assert(best_chunk(os, i as int, self.map_size));
                return GetNextChunkResponse::Error(e);
            },
        };
        let mut active = self.chunks[i];
        active.state = ChunkState::Active;
        self.chunks.set(i, active);
        proof {
            assert(self.chunks@ =~= os.update(i as int, Chunk { state: ChunkState::Active, ..os[i as int] }));
            assert(chunks_wf(self.chunks@)) by {
                assert forall|j: int| 0 <= j < self.chunks@.len() implies chunk_wf(#[trigger] self.chunks@[j]) by {
                    assert(chunk_wf(os[j]));
                }
            }
            let cs = self.chunks@;
            if active_disjoint(os) {
                assert forall|p: int, q: int|
                    0 <= p < cs.len() && 0 <= q < cs.len() && p != q && (#[trigger] cs[p]).state
                        == ChunkState::Active && (#[trigger] cs[q]).state == ChunkState::Active implies !overlapping(cs[p], cs[q]) by {
                    if p == i {
                        assert(!blocked_active(os, i as int));
                        assert(!(overlapping(os[q], os[i as int]) && os[q].state == ChunkState::Active));
                    } else if q == i {
                        assert(!blocked_active(os, i as int));
                        assert(!(overlapping(os[p], os[i as int]) && os[p].state == ChunkState::Active));
                    } else {
                        assert(os[p].state == ChunkState::Active && os[q].state == ChunkState::Active);
                    }
                }
            }
        }
        GetNextChunkResponse::ChunkReady(i, active, changes)
    }

    fn chunk_score(&self, i: usize) -> (r: i64)
        requires
            i < self.chunks@.len(),
            chunks_wf(self.chunks@),
        ensures
            r == score(self.chunks@[i as int], self.map_size),
    {
        let c = self.chunks[i];
        assert(chunk_wf(c));
        let (s, e) = c.bounds();
        let size = self.map_size;
        let ex: i64 = if (e.x as i64) < size.x as i64 { e.x as i64 } else { size.x as i64 };
        let ez: i64 = if (e.z as i64) < size.z as i64 { e.z as i64 } else { size.z as i64 };
        let a: i64 = if s.x < s.z { s.x as i64 } else { s.z as i64 };
        let b1 = size.x as i64 - ex;
        let b2 = size.z as i64 - ez;
        let b: i64 = if b1 < b2 { b1 } else { b2 };
        let m: i64 = if a < b { a } else { b };
        m + 1000 * (s.y as i64)
    }

    fn is_eligible(&self, i: usize) -> (r: bool)
        requires
            i < self.chunks@.len(),
            chunks_wf(self.chunks@),
        ensures
            r == eligible(self.chunks@, i as int, self.map_size),
    {
        let ghost cs = self.chunks@;
        let me = self.chunks[i];
        assert(chunk_wf(me));
        if me.state != ChunkState::Ready {
            return false;
        }
        let mut below = false;
        let mut active = false;
        let mut seed = false;
        let mut k: usize = 0;
        while k < self.chunks.len()
            invariant
                cs == self.chunks@,
                chunks_wf(cs),
                me == cs[i as int],
                i < cs.len(),
                chunk_wf(me),
                k <= cs.len(),
                below <==> exists|c: int| 0 <= c < k && (#[trigger] cs[c]).state != ChunkState::Collapsed && cs[c].position.y < me.position.y,
                active <==> exists|c: int| 0 <= c < k && overlapping(#[trigger] cs[c], me) && cs[c].state == ChunkState::Active,
                seed <==> exists|c: int| 0 <= c < k && overlapping(#[trigger] cs[c], me) && cs[c].state == ChunkState::Collapsed,
            decreases cs.len() - k,
        {
            let c = self.chunks[k];
            assert(c == cs[k as int]);
            assert(chunk_wf(c));
            if c.state != ChunkState::Collapsed && c.position.y < me.position.y {
                below = true;
            }
            if c.is_overlapping(&me) {
                if c.state == ChunkState::Active {
                    active = true;
                }
                if c.state == ChunkState::Collapsed {
                    seed = true;
                }
            }
            k = k + 1;
        }
        let (s, e) = me.bounds();
        let inner = s.x > 0 && s.z > 0 && e.x < self.map_size.x && e.z < self.map_size.z;
        !below && !active && (!inner || seed)
    }
}

proof fn lemma_stays_collapsed(states: Seq<ChunkState>, k: int, m: int)
    requires
        0 <= k <= m < states.len(),
        states[k] == ChunkState::Collapsed,
        forall|j: int| 0 <= j < states.len() - 1 ==> #[trigger] step_ok(states[j], states[j + 1]),
    ensures
        states[m] == ChunkState::Collapsed,
    decreases m - k,
{
    if k < m {
        assert(step_ok(states[k], states[k + 1]));
        lemma_stays_collapsed(states, k + 1, m);
    }
}

/// Along any run of permitted steps, a chunk that is Collapsed stays Collapsed.
pub proof fn lemma_state_sequence(states: Seq<ChunkState>)
    requires
        forall|k: int| 0 <= k < states.len() - 1 ==> #[trigger] step_ok(states[k], states[k + 1]),
    ensures
        forall|k: int, m: int|
            #![trigger states[k], states[m]]
            0 <= k <= m < states.len() && states[k] == ChunkState::Collapsed ==> states[m]
                == ChunkState::Collapsed,
{
    assert forall|k: int, m: int|
        #![trigger states[k], states[m]]
        0 <= k <= m < states.len() && states[k] == ChunkState::Collapsed implies states[m]
            == ChunkState::Collapsed by {
        lemma_stays_collapsed(states, k, m);
    }
}

} // verus!
