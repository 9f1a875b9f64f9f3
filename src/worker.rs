use vstd::prelude::*;

use crate::chunk::{chunk_end, chunk_wf, Chunk};
use crate::geometry::{in_box, linear_at};
use crate::library::{check_out_allowed, clamp_end, point_at, store_index, LibraryView};
use crate::geometry::{volume, Vec3i};
use crate::kernel::{changed_cells, effective_entropy, GROUND_BIAS};
use crate::cell::{Cell, CellView};
use crate::kernel::cells_valid;
use crate::library::{library_wf, Library3D};
use crate::messages::{EngineError, WorkerCommandType, WorkerUpdate, WorkerUpdateStatus};
use crate::prototype::Prototype;
use crate::random::seeded_rng;

verus! {

/// The collapse loop of one chunk, one command at a time.
pub struct Worker {
    pub index: usize,
    pub chunk: Chunk,
    pub rng: rand::rngs::StdRng,
}

/// What one collapse step of chunk `c` did to the store `before`, leaving `after`:
/// - a store error means no fresh version was left or the chunk could not be checked out;
/// - an over-collapse names a cell that is emptied in `after`;
/// - `Done` exactly when every cell of the chunk has at most one possibility;
/// - `Changed` lists at least one cell, and some cell of the chunk was open.
pub open spec fn collapse_outcome(protos: Seq<Prototype>, c: Chunk, before: LibraryView, status: WorkerUpdateStatus, after: LibraryView) -> bool {
    let start = c.position;
    let end = chunk_end(c);
    let ok_store = before.next_version < u64::MAX && check_out_allowed(before, start, end);
    let all_closed = forall|i: int| 0 <= i < before.books.len() && in_box(before.books[i].position, start, clamp_end(start, end, before.size))
        ==> (#[trigger] before.books[i]).possibilities.len() <= 1;
    &&& (status matches WorkerUpdateStatus::Error(EngineError::Library(_))) <==> !ok_store
    &&& !ok_store ==> after == before
    &&& (status is Error) ==> (status->Error_0 is Library || status->Error_0 is Chunk)
    &&& status matches WorkerUpdateStatus::Error(EngineError::Chunk(crate::kernel::ChunkError::Overcollapsed(p))) ==> crate::kernel::emptied_at(protos, after.books, p)
    &&& ok_store ==> ((status is Done) <==> all_closed)
    &&& (status is Changed) ==> status->Changed_0@.len() > 0 && !all_closed
    &&& (status is Changed) ==> collapsed_step(c, before, status->Changed_0@, after)
}

/// Cell `i` lies in `lo .. hi`, is open, and no open cell there has a lower effective
/// entropy.
pub open spec fn box_candidate(cells: Seq<CellView>, lo: Vec3i, hi: Vec3i, i: int) -> bool {
    &&& 0 <= i < cells.len()
    &&& in_box(cells[i].position, lo, hi)
    &&& cells[i].possibilities.len() > 1
    &&& forall|j: int|
        0 <= j < cells.len() && in_box(cells[j].position, lo, hi) && (#[trigger] cells[j]).possibilities.len() > 1
            ==> effective_entropy(cells[i], GROUND_BIAS as int) <= effective_entropy(cells[j], GROUND_BIAS as int)
}

/// Position and possibilities of a cell.
pub open spec fn shape(c: CellView) -> (Vec3i, Seq<usize>) {
    (c.position, c.possibilities)
}

pub open spec fn shapes(s: Seq<CellView>) -> Seq<(Vec3i, Seq<usize>)> {
    s.map_values(|v: CellView| shape(v))
}

/// The store's cells of the box `start .. start + size`, in store order.
pub open spec fn box_cells(l: LibraryView, start: Vec3i, size: Vec3i) -> Seq<CellView> {
    Seq::new(volume(size) as nat, |j: int| l.books[store_index(l, point_at(start, size, j))])
}

/// The extent of the box a chunk checks out.
pub open spec fn chunk_box_size(c: Chunk, map_size: Vec3i) -> Vec3i {
    let hi = clamp_end(c.position, chunk_end(c), map_size);
    Vec3i { x: (hi.x - c.position.x) as i32, y: (hi.y - c.position.y) as i32, z: (hi.z - c.position.z) as i32 }
}

/// A collapse step of chunk `c` that reported `list`: the chunk's cells only lost
/// possibilities and went back in with one fresh version, nothing else changed, a
/// lowest-entropy open cell now holds exactly one of its entries, and `list` holds the
/// chunk's cells whose count changed, in store order.
pub open spec fn collapsed_step(c: Chunk, before: LibraryView, list: Seq<Cell>, after: LibraryView) -> bool {
    let start = c.position;
    let hi = clamp_end(start, chunk_end(c), before.size);
    let bs = chunk_box_size(c, before.size);
    &&& after.books.len() == before.books.len()
    &&& after.next_version == before.next_version + 1
    &&& forall|i: int| 0 <= i < before.books.len() && !in_box(before.books[i].position, start, hi) ==> #[trigger] after.books[i] == before.books[i]
    &&& forall|i: int| 0 <= i < before.books.len() && in_box(before.books[i].position, start, hi) ==> {
        &&& crate::director::within((#[trigger] after.books[i]).possibilities, before.books[i].possibilities)
        &&& after.books[i].position == before.books[i].position
        &&& after.books[i].version == before.next_version
        &&& !after.books[i].locked
    }
    &&& exists|i: int| #[trigger] box_candidate(before.books, start, hi, i) && exists|k: int|
        0 <= k < before.books[i].possibilities.len() && after.books[i].possibilities == seq![#[trigger] before.books[i].possibilities[k]]
    &&& list.map_values(|x: Cell| shape(x@)) == shapes(changed_cells(box_cells(before, start, bs), box_cells(after, start, bs), volume(bs)))
}

proof fn lemma_changed_shapes(a1: Seq<CellView>, b1: Seq<CellView>, a2: Seq<CellView>, b2: Seq<CellView>, n: int)
    requires
        0 <= n <= a1.len(),
        n <= b1.len(),
        n <= a2.len(),
        n <= b2.len(),
        forall|j: int| 0 <= j < n ==> (#[trigger] a1[j]).possibilities.len() == a2[j].possibilities.len() && shape(b1[j]) == shape(b2[j])
            && b1[j].possibilities.len() == b2[j].possibilities.len(),
    ensures
        shapes(changed_cells(a1, b1, n)) == shapes(changed_cells(a2, b2, n)),
    decreases n,
{
    if n > 0 {
        lemma_changed_shapes(a1, b1, a2, b2, n - 1);
        let p1 = changed_cells(a1, b1, n - 1);
        let p2 = changed_cells(a2, b2, n - 1);
        assert(a1[n - 1].possibilities.len() == a2[n - 1].possibilities.len());
        if b1[n - 1].possibilities.len() != a1[n - 1].possibilities.len() {
            assert(shapes(p1.push(b1[n - 1])) =~= shapes(p1).push(shape(b1[n - 1])));
            assert(shapes(p2.push(b2[n - 1])) =~= shapes(p2).push(shape(b2[n - 1])));
        }
    }
}

/// In a well-formed box, the `j`-th cell sits at the `j`-th point.
proof fn lemma_point_at_cell(size: Vec3i, start: Vec3i, books: Seq<CellView>, j: int)
    requires
        crate::library::box_wf(size, start, books),
        0 <= j < books.len(),
    ensures
        point_at(start, size, j) == books[j].position,
{
    let p = books[j].position;
    crate::library::lemma_point_at(start, size, j);
    let q = point_at(start, size, j);
    crate::geometry::lemma_linear_injective(
        size,
        p.x - start.x,
        p.y - start.y,
        p.z - start.z,
        q.x - start.x,
        q.y - start.y,
        q.z - start.z,
    );
}

impl Worker {
    /// A worker for chunk `index`, whose choices are driven by a generator seeded with
    /// `seed`.
    pub fn new(index: usize, chunk: Chunk, seed: u64) -> (r: Worker)
        ensures
            r.index == index,
            r.chunk == chunk,
    {
        Worker { index, chunk, rng: seeded_rng(seed) }
    }

    /// Handles one command. `Collapse` checks the chunk out, runs one collapse step,
    /// checks it back in and reports; the second result says whether the worker is
    /// finished (after `Stop`, `Done` or an error).
    pub fn tick(&mut self, command: WorkerCommandType, library: &mut Library3D, protos: &Vec<Prototype>) -> (r: (Option<WorkerUpdate>, bool))
        requires
            library_wf(old(library)@),
            cells_valid(protos@, old(library)@.books),
            chunk_wf(old(self).chunk),
        ensures
            library_wf(final(library)@),
            cells_valid(protos@, final(library)@.books),
            final(self).index == old(self).index,
            chunk_wf(final(self).chunk),
            command == WorkerCommandType::NoOp ==> r.0.is_none() && !r.1 && final(library)@ == old(library)@,
            command == WorkerCommandType::Stop ==> r.0.is_none() && r.1 && final(library)@ == old(library)@,
            command == WorkerCommandType::Collapse ==> r.0.is_some() && r.0.unwrap().chunk_index == old(self).index
                && (r.1 <==> !(r.0.unwrap().status matches WorkerUpdateStatus::Changed(_)))
                && collapse_outcome(protos@, old(self).chunk, old(library)@, r.0.unwrap().status, final(library)@),
            forall|i: int| 0 <= i < old(library)@.books.len() ==> (#[trigger] final(library)@.books[i]).locked
                == old(library)@.books[i].locked,
    {
        match command {
            WorkerCommandType::NoOp => (None, false),
            WorkerCommandType::Stop => (None, true),
            WorkerCommandType::Collapse => {
                let status = self.collapse_step(library, protos);
                let stop = match &status {
                    WorkerUpdateStatus::Changed(_) => false,
                    _ => true,
                };
                (Some(WorkerUpdate::new(self.index, status)), stop)
            },
        }
    }

    fn collapse_step(&mut self, library: &mut Library3D, protos: &Vec<Prototype>) -> (r: WorkerUpdateStatus)
        requires
            library_wf(old(library)@),
            cells_valid(protos@, old(library)@.books),
            chunk_wf(old(self).chunk),
        ensures
            library_wf(final(library)@),
            cells_valid(protos@, final(library)@.books),
            final(self).index == old(self).index,
            chunk_wf(final(self).chunk),
            final(self).chunk.position == old(self).chunk.position,
            final(self).chunk.size == old(self).chunk.size,
            collapse_outcome(protos@, old(self).chunk, old(library)@, r, final(library)@),
            forall|i: int| 0 <= i < old(library)@.books.len() ==> (#[trigger] final(library)@.books[i]).locked
                == old(library)@.books[i].locked,
    {
        let ghost l0 = library@;
        if library.next_version == u64::MAX {
            return WorkerUpdateStatus::Error(EngineError::Library(crate::library::LibraryError::VersionsExhausted));
        }
        let (start, end) = self.chunk.bounds();
        let mut range = match library.check_out_range(start, end) {
            Ok(r) => r,
            Err(e) => return WorkerUpdateStatus::Error(EngineError::Library(e)),
        };
        let ghost r0 = range@;
        let ghost l1 = library@;
        proof {
            crate::director::lemma_check_out_valid(protos@, l0, start, end, range@, library@);
        }
        let out = self.chunk.collapse_next(&mut range, protos, &mut self.rng);
        let ghost og = out;
        let ghost r1_now = range@;
        let ghost mut tp: int = 0;
        let ghost mut kp: int = 0;
        proof {
            if og matches Ok(WorkerUpdateStatus::Changed(_)) {
                let (t0, k0) = choose|i: int, k: int|
                    #![trigger crate::kernel::is_candidate(r0.books, i, GROUND_BIAS as int), r0.books[i].possibilities[k]]
                    crate::kernel::is_candidate(r0.books, i, GROUND_BIAS as int) && 0 <= k < r0.books[i].possibilities.len()
                    && r1_now.books[i].possibilities == seq![r0.books[i].possibilities[k]];
                tp = t0;
                kp = k0;
                assert(r1_now.books[tp].possibilities == seq![r0.books[tp].possibilities[kp]]);
            }
        }
        let status = match out {
            Ok(s) => s,
            Err(e) => WorkerUpdateStatus::Error(EngineError::Chunk(e)),
        };
        let ghost r1 = range@;
        proof {
            assert forall|j: int| 0 <= j < r0.books.len() implies (#[trigger] r1.books[j]).position == r0.books[j].position
                && r1.books[j].version == r0.books[j].version by {}
            crate::director::lemma_check_in_ok(l0, start, end, r0, l1, r1);
        }
        match library.check_in_range(&mut range) {
            Ok(()) => {},
            Err(e) => return WorkerUpdateStatus::Error(EngineError::Library(e)),
        }
        proof {
            let l2 = library@;
            crate::director::lemma_check_in_valid(protos@, l1, r1, range@, l2);
            crate::director::lemma_round_trip(l0, start, end, r0, l1, r1, range@, l2);
            if let Err(crate::kernel::ChunkError::Overcollapsed(p)) = og {
                crate::director::lemma_emptied_transfer(protos@, l0, r1, l2, p);
            }
            assert forall|i: int| 0 <= i < l0.books.len() && in_box(l0.books[i].position, start, clamp_end(start, end, l0.size))
                implies (#[trigger] l0.books[i]).possibilities == r0.books[linear_at(r0.size, r0.start, l0.books[i].position)].possibilities by {
                let p = l0.books[i].position;
                crate::library::lemma_box_position(r0.size, r0.start, r0.books, p);
                assert(crate::library::store_index(l0, p) == i);
                assert(r0.books[linear_at(r0.size, r0.start, p)] == l1.books[i]);
            }
            if og matches Ok(WorkerUpdateStatus::Done) {
                assert forall|i: int| 0 <= i < l0.books.len() && in_box(l0.books[i].position, start, clamp_end(start, end, l0.size))
                    implies (#[trigger] l0.books[i]).possibilities.len() <= 1 by {
                    let p = l0.books[i].position;
                    crate::library::lemma_box_position(r0.size, r0.start, r0.books, p);
                    assert(r0.books[linear_at(r0.size, r0.start, p)].possibilities.len() <= 1);
                }
            } else {
                let t = choose|t: int| 0 <= t < r0.books.len() && (#[trigger] r0.books[t]).possibilities.len() > 1;
                let p = r0.books[t].position;
                let i = crate::library::store_index(l0, p);
                assert(in_box(p, r0.start, r0.end));
                assert(crate::library::end_of(crate::library::origin(), l0.size) == l0.size);
                crate::library::lemma_box_position(l0.size, crate::library::origin(), l0.books, p);
                assert(r0.books[t] == l1.books[i]);
                assert(l1.books[i].position == l0.books[i].position);
                crate::library::lemma_box_position(r0.size, r0.start, r0.books, p);
                assert(l0.books[i].possibilities.len() > 1);
            }
            if let Ok(WorkerUpdateStatus::Changed(list)) = og {
                let hi = clamp_end(start, end, l0.size);
                let bs = chunk_box_size(old(self).chunk, l0.size);
                assert(r0.size == bs);
                assert(crate::library::end_of(crate::library::origin(), l0.size) == l0.size);
                // the cells of the box
                assert forall|i: int| 0 <= i < l0.books.len() && in_box(l0.books[i].position, start, hi) implies {
                    &&& crate::director::within((#[trigger] l2.books[i]).possibilities, l0.books[i].possibilities)
                    &&& l2.books[i].position == l0.books[i].position
                    &&& l2.books[i].version == l0.next_version
                    &&& !l2.books[i].locked
                } by {
                    let p = l0.books[i].position;
                    crate::library::lemma_box_position(r0.size, r0.start, r0.books, p);
                    let t = linear_at(r0.size, r0.start, p);
                    assert(crate::kernel::shrunk(r0.books, r1.books));
                    assert(r1.books[t].position == r0.books[t].position);
                    assert forall|e: usize| l2.books[i].possibilities.contains(e) implies l0.books[i].possibilities.contains(e) by {
                        assert(r1.books[t].possibilities.contains(e));
                    }
                }
                // the collapsed cell
                let t = tp;
                let kk = kp;
                assert(r1 == r1_now);
                assert(crate::kernel::is_candidate(r0.books, t, GROUND_BIAS as int));
                assert(r1.books[t].possibilities =~= seq![r0.books[t].possibilities[kk]]);
                let p = r0.books[t].position;
                let i = store_index(l0, p);
                assert(in_box(p, r0.start, r0.end));
                crate::library::lemma_box_position(l0.size, crate::library::origin(), l0.books, p);
                assert(r0.books[t] == l1.books[i]);
                assert(l1.books[i].position == l0.books[i].position);
                assert(l2.books[i].possibilities == r1.books[t].possibilities);
                assert(box_candidate(l0.books, start, hi, i)) by {
                    assert forall|j: int| 0 <= j < l0.books.len() && in_box(l0.books[j].position, start, hi)
                        && (#[trigger] l0.books[j]).possibilities.len() > 1 implies effective_entropy(l0.books[i], GROUND_BIAS as int)
                        <= effective_entropy(l0.books[j], GROUND_BIAS as int) by {
                        let q = l0.books[j].position;
                        crate::library::lemma_box_position(r0.size, r0.start, r0.books, q);
                        let t2 = linear_at(r0.size, r0.start, q);
                        assert(l0.books[j].possibilities == r0.books[t2].possibilities);
                        assert(r0.books[t2].position == q);
                        assert(r0.books[t2].possibilities.len() > 1);
                    }
                }
                assert(l2.books[i].possibilities == seq![l0.books[i].possibilities[kk]]);
                // the reported list
                let n = r0.books.len() as int;
                let bb = box_cells(l0, start, bs);
                let ba = box_cells(l2, start, bs);
                assert forall|j: int| 0 <= j < n implies (#[trigger] r0.books[j]).possibilities.len() == bb[j].possibilities.len()
                    && shape(r1.books[j]) == shape(ba[j]) && r1.books[j].possibilities.len() == ba[j].possibilities.len() by {
                    lemma_point_at_cell(r0.size, r0.start, r0.books, j);
                    let q = r0.books[j].position;
                    assert(in_box(q, r0.start, r0.end));
                    crate::library::lemma_box_position(l0.size, crate::library::origin(), l0.books, q);
                    let s = store_index(l0, q);
                    assert(r0.books[j] == l1.books[s]);
                    assert(r1.books[j].position == q);
                    assert(store_index(l2, q) == s);
                }
                lemma_changed_shapes(r0.books, r1.books, bb, ba, n);
                assert(list@.map_values(|x: Cell| shape(x@)) =~= shapes(changed_cells(r0.books, r1.books, n)));
            }
        }
        status
    }
}

} // verus!
