use vstd::prelude::*;

use crate::cell::Cell;
use crate::chunk::{Chunk, ChunkState};
use crate::director::{
    active_disjoint, best_chunk, completed, director_wf, eligible, released, reset_outcome, steps_ok, MapDirector,
};
use crate::library::LibraryView;
use crate::prototype::Prototype;
use crate::geometry::Vec3i;
use crate::library::Library3D;
use crate::messages::{
    EngineError, GetNextChunkResponse, ManagerState, ManagerUpdate, WorkerPoolState, WorkerUpdate,
    WorkerUpdateStatus,
};
use crate::validator::{pruned, pruned_positions, reachable, solid, unit_index, MapValidator, PruneResult};
use crate::library::{check_out_allowed, origin};

verus! {

/// What became of a worker after one of its updates.
pub enum UpdateOutcome {
    /// It changed these cells and goes on: send it another `Collapse`.
    Continue(Vec<Cell>),
    /// Its chunk is Collapsed; it is retired.
    Finished,
    /// Its step failed; its chunk was reset (these cells changed) and it is retired.
    Reset(Vec<Cell>),
}

/// The decisions of one pool tick, for the caller to carry out.
pub struct PoolTick {
    /// What to report to the host, if anything.
    pub report: Option<ManagerUpdate>,
    /// A worker to start on this chunk, with a first `Collapse`.
    pub spawn: Option<(usize, Chunk)>,
    /// Workers to send another `Collapse`.
    pub continue_workers: Vec<usize>,
}

/// Up to `pool_size` workers in flight, each bound to one chunk index.
pub struct WorkerPool {
    pub state: WorkerPoolState,
    pub pool_size: usize,
    pub workers: Vec<usize>,
}

/// The chunk a tick starts a worker on, or -1.
pub open spec fn spawned(t: PoolTick) -> int {
    match t.spawn {
        Some((i, _)) => i as int,
        None => -1,
    }
}

/// The chunks after one update: `Done` completes its chunk, `Error` puts it back to
/// Ready, `Changed` leaves them.
pub open spec fn step_chunks(c: Seq<Chunk>, u: WorkerUpdate) -> Seq<Chunk> {
    if u.status is Done {
        completed(c, u.chunk_index as int)
    } else if u.status is Error {
        released(c, u.chunk_index as int)
    } else {
        c
    }
}

/// The chunks after the first `n` updates, in order.
pub open spec fn apply_updates(c: Seq<Chunk>, us: Seq<WorkerUpdate>, n: int) -> Seq<Chunk>
    decreases n,
{
    if n <= 0 {
        c
    } else {
        step_chunks(apply_updates(c, us, n - 1), us[n - 1])
    }
}

/// The chunk indices of the `Changed` updates among the first `n`, in order.
pub open spec fn changed_indices(us: Seq<WorkerUpdate>, n: int) -> Seq<usize>
    decreases n,
{
    if n <= 0 {
        Seq::empty()
    } else {
        let p = changed_indices(us, n - 1);
        if us[n - 1].status is Changed {
            p.push(us[n - 1].chunk_index)
        } else {
            p
        }
    }
}

/// One of the first `n` updates retires the worker of chunk `x`.
pub open spec fn retires(us: Seq<WorkerUpdate>, n: int, x: usize) -> bool {
    exists|k: int| 0 <= k < n && #[trigger] us[k].chunk_index == x && !(us[k].status is Changed)
}

/// One of the first `n` updates reports changed cells.
pub open spec fn brings_changes(us: Seq<WorkerUpdate>, n: int) -> bool {
    exists|k: int| 0 <= k < n && (#[trigger] us[k].status is Changed) && us[k].status->Changed_0@.len() > 0
}

/// A prune of `lib` would replace cells: the catalogue has one empty tile, the whole map
/// can be checked out, and some collapsed non-empty cell is unreachable.
pub open spec fn prune_changes(protos: Seq<Prototype>, size: Vec3i, lib: LibraryView) -> bool {
    &&& exists|u: int| unit_index(protos, u)
    &&& check_out_allowed(lib, origin(), lib.size)
    &&& lib.next_version < u64::MAX
    &&& exists|i: int| 0 <= i < lib.books.len() && solid(protos, #[trigger] lib.books[i]) && !reachable(protos, lib.books, size, i)
}

/// The cells an update outcome reports.
pub open spec fn out_cells(o: UpdateOutcome) -> Seq<Cell> {
    match o {
        UpdateOutcome::Continue(c) => c@,
        UpdateOutcome::Finished => Seq::empty(),
        UpdateOutcome::Reset(c) => c@,
    }
}

/// The first `n` lists of `outs`, one after the other.
pub open spec fn flatten(outs: Seq<Seq<Cell>>, n: int) -> Seq<Cell>
    decreases n,
{
    if n <= 0 {
        Seq::empty()
    } else {
        flatten(outs, n - 1) + outs[n - 1]
    }
}

/// Update `u`, applied to chunks `c` and store `la`, left store `lb` and reported `cells`:
/// a `Changed` update's own cells; nothing for `Done`; for `Error`, the cells of the
/// chunk's new preparation (see `reset_outcome`), or nothing when it failed.
pub open spec fn update_cells(
    protos: Seq<Prototype>,
    size: Vec3i,
    c: Seq<Chunk>,
    u: WorkerUpdate,
    la: LibraryView,
    cells: Seq<Cell>,
    lb: LibraryView,
) -> bool {
    let i = u.chunk_index;
    let live = i < c.len() && c[i as int].state != ChunkState::Collapsed;
    &&& (u.status is Changed) ==> cells == u.status->Changed_0@ && lb == la
    &&& (u.status is Done) ==> cells.len() == 0 && lb == la
    &&& (u.status is Error) && live ==> exists|r: Result<Vec<Cell>, EngineError>|
        #[trigger] reset_outcome(protos, size, c[i as int], la, r, lb) && ((r is Ok) ==> cells == r->Ok_0@) && ((r is Err) ==> cells.len() == 0)
    &&& (u.status is Error) && !live ==> cells.len() == 0 && lb == la
}

/// What a tick that was not an idle Deadlocked one reports: the cells of the new chunk's
/// preparation, then those of each update in order (`update_cells`, through the store
/// states `libs`); `Stopped` when nothing changed, no worker is left, none started, the
/// pool is Healthy and every chunk is Collapsed; else nothing.
pub open spec fn tick_report(
    protos: Seq<Prototype>,
    size: Vec3i,
    c0: Seq<Chunk>,
    l0: LibraryView,
    filled: Seq<Chunk>,
    updates: Seq<WorkerUpdate>,
    res: PoolTick,
    c1: Seq<Chunk>,
    l1: LibraryView,
    w1: Seq<usize>,
    s1: WorkerPoolState,
) -> bool {
    exists|prep: Vec<Cell>, outs: Seq<Seq<Cell>>, libs: Seq<LibraryView>|
        #[trigger] tick_report_with(protos, size, c0, l0, filled, updates, res, c1, l1, w1, s1, prep, outs, libs)
}

/// `tick_report`, with its preparation cells, per-update cells and store states named.
pub open spec fn tick_report_with(
    protos: Seq<Prototype>,
    size: Vec3i,
    c0: Seq<Chunk>,
    l0: LibraryView,
    filled: Seq<Chunk>,
    updates: Seq<WorkerUpdate>,
    res: PoolTick,
    c1: Seq<Chunk>,
    l1: LibraryView,
    w1: Seq<usize>,
    s1: WorkerPoolState,
    prep: Vec<Cell>,
    outs: Seq<Seq<Cell>>,
    libs: Seq<LibraryView>,
) -> bool {
        let n = updates.len() as int;
        let all = prep@ + flatten(outs, n);
        &&& outs.len() == n
        &&& libs.len() == n + 1
        &&& libs[n] == l1
        &&& (res.spawn is Some) ==> reset_outcome(protos, size, c0[spawned(res)], l0, Ok::<Vec<Cell>, EngineError>(prep), libs[0])
        &&& (res.spawn is None) ==> prep@.len() == 0
        &&& forall|k: int| 0 <= k < n ==> #[trigger] update_cells(protos, size, apply_updates(filled, updates, k), updates[k], libs[k], outs[k], libs[k + 1])
        &&& all.len() > 0 ==> res.report is Some && res.report->0.new_state is None && res.report->0.changes is Some
            && res.report->0.changes->0@ == all
        &&& all.len() == 0 ==> ((res.report is Some) <==> (w1.len() == 0 && res.spawn is None && s1 == WorkerPoolState::Healthy
            && crate::director::all_collapsed(c1)))
        &&& all.len() == 0 && (res.report is Some) ==> res.report->0.new_state == Some(ManagerState::Stopped) && res.report->0.changes is None
}

proof fn lemma_flatten_push(outs: Seq<Seq<Cell>>, x: Seq<Cell>, k: int)
    requires
        0 <= k == outs.len(),
    ensures
        flatten(outs.push(x), k + 1) == flatten(outs, k) + x,
{
    lemma_flatten_prefix(outs, x, k);
}

proof fn lemma_flatten_prefix(outs: Seq<Seq<Cell>>, x: Seq<Cell>, k: int)
    requires
        0 <= k <= outs.len(),
    ensures
        flatten(outs.push(x), k) == flatten(outs, k),
    decreases k,
{
    if k > 0 {
        lemma_flatten_prefix(outs, x, k - 1);
        assert(outs.push(x)[k - 1] == outs[k - 1]);
    }
}

/// What one pool tick did (see `manage_workers`), from chunks `c0`, store `l0`, workers
/// `w0` and state `s0` to `c1`, `l1`, `w1` and `s1`.
pub open spec fn tick_outcome(
    protos: Seq<Prototype>,
    size: Vec3i,
    c0: Seq<Chunk>,
    l0: LibraryView,
    w0: Seq<usize>,
    s0: WorkerPoolState,
    pool_size: usize,
    updates: Seq<WorkerUpdate>,
    res: PoolTick,
    c1: Seq<Chunk>,
    l1: LibraryView,
    w1: Seq<usize>,
    s1: WorkerPoolState,
) -> bool {
    let idle = s0 == WorkerPoolState::Deadlocked && w0.len() == 0;
    let attempt = s0 == WorkerPoolState::Healthy && w0.len() < pool_size;
    let filled = if res.spawn is Some {
        c0.update(spawned(res), Chunk { state: ChunkState::Active, ..c0[spawned(res)] })
    } else {
        c0
    };
    &&& idle ==> deadlock_tick(protos, size, l0, res, s1, l1) && c1 == c0 && w1 == w0
    &&& !idle ==> {
        &&& !attempt ==> res.spawn is None && s1 == s0
        &&& attempt && (res.spawn is Some) ==> best_chunk(c0, spawned(res), size) && s1 == WorkerPoolState::Healthy
        &&& attempt ==> ((s1 == WorkerPoolState::Deadlocked) <==> (res.spawn is None && exists|i: int| #[trigger] eligible(c0, i, size)))
        &&& c1 == apply_updates(filled, updates, updates.len() as int)
        &&& res.continue_workers@ == changed_indices(updates, updates.len() as int)
        &&& forall|x: usize| #[trigger] w1.contains(x) <==> ((w0.contains(x) || spawned(res) == x as int) && !retires(updates, updates.len() as int, x))
        &&& brings_changes(updates, updates.len() as int) ==> (res.report is Some && res.report->0.changes is Some)
        &&& tick_report(protos, size, c0, l0, filled, updates, res, c1, l1, w1, s1)
    }
}

/// The Deadlocked tick with no worker left: the pool is Healthy again and reports the
/// pruned cells exactly when the prune replaced cells, else it reports `Stopped`.
pub open spec fn deadlock_tick(
    protos: Seq<Prototype>,
    size: Vec3i,
    l0: LibraryView,
    res: PoolTick,
    state: WorkerPoolState,
    l1: LibraryView,
) -> bool {
    &&& res.spawn is None
    &&& res.continue_workers@.len() == 0
    &&& res.report is Some
    &&& (state == WorkerPoolState::Healthy) <==> prune_changes(protos, size, l0)
    &&& state == WorkerPoolState::Healthy || state == WorkerPoolState::Deadlocked
    &&& prune_changes(protos, size, l0) ==> res.report->0.new_state is None && res.report->0.changes is Some
        && res.report->0.changes->0@.map_values(|c: Cell| c.position) == pruned_positions(protos, l0.books, size, l0.books.len() as int)
        && exists|u: int| #[trigger] unit_index(protos, u) && forall|i: int| 0 <= i < l0.books.len() ==> (#[trigger] l1.books[i]).possibilities
            == pruned(protos, l0.books, size, u as usize, i)
    &&& !prune_changes(protos, size, l0) ==> res.report->0.new_state == Some(ManagerState::Stopped)
}

/// What `try_assign_new_worker` did: nothing when no chunk is eligible; else it prepared
/// the best chunk (see `best_chunk`), which is Active on success and untouched on failure.
pub open spec fn assign_outcome(
    protos: Seq<Prototype>,
    size: Vec3i,
    c0: Seq<Chunk>,
    l0: LibraryView,
    res: Result<Option<(usize, Chunk, Vec<Cell>)>, EngineError>,
    c1: Seq<Chunk>,
    l1: LibraryView,
) -> bool {
    &&& (res matches Ok(None)) <==> forall|i: int| !#[trigger] eligible(c0, i, size)
    &&& (res matches Ok(None)) ==> c1 == c0 && l1 == l0
    &&& res matches Err(e) ==> c1 == c0 && exists|i: int| #[trigger] best_chunk(c0, i, size)
        && reset_outcome(protos, size, c0[i], l0, Err::<Vec<Cell>, EngineError>(e), l1)
    &&& res matches Ok(Some((i, c, changes))) ==> best_chunk(c0, i as int, size)
        && c1 == c0.update(i as int, Chunk { state: ChunkState::Active, ..c0[i as int] })
        && reset_outcome(protos, size, c0[i as int], l0, Ok::<Vec<Cell>, EngineError>(changes), l1)
}

/// What `handle_update` did with one worker update: `Changed` changes nothing and goes on;
/// `Done` completes the chunk and retires the worker; `Error` prepares the chunk again
/// (see `reset_outcome`), puts it back to Ready either way, and retires the worker.
pub open spec fn update_outcome(
    protos: Seq<Prototype>,
    size: Vec3i,
    c0: Seq<Chunk>,
    l0: LibraryView,
    w0: Seq<usize>,
    u: WorkerUpdate,
    res: UpdateOutcome,
    c1: Seq<Chunk>,
    l1: LibraryView,
    w1: Seq<usize>,
) -> bool {
    let i = u.chunk_index;
    let live = i < c0.len() && c0[i as int].state != ChunkState::Collapsed;
    &&& (u.status is Changed) ==> (res is Continue) && res->Continue_0 == u.status->Changed_0 && c1 == c0
        && l1 == l0 && w1 == w0
    &&& !(u.status is Changed) ==> forall|x: usize| #[trigger] w1.contains(x) <==> (w0.contains(x) && x != i)
    &&& (u.status is Done) ==> (res is Finished) && c1 == completed(c0, i as int) && l1 == l0
    &&& (u.status is Error) ==> (res is Reset) && c1 == released(c0, i as int)
    &&& (u.status is Error) && live ==> exists|r: Result<Vec<Cell>, EngineError>|
        #[trigger] reset_outcome(protos, size, c0[i as int], l0, r, l1) && ((r is Ok) ==> res->Reset_0 == r->Ok_0)
            && ((r is Err) ==> res->Reset_0@.len() == 0)
    &&& (u.status is Error) && !live ==> l1 == l0 && res->Reset_0@.len() == 0
}

fn remove_worker(workers: &mut Vec<usize>, index: usize)
    ensures
        final(workers)@.len() <= old(workers)@.len(),
        forall|x: usize| #[trigger] final(workers)@.contains(x) <==> (old(workers)@.contains(x) && x != index),
        forall|k: int| 0 <= k < final(workers)@.len() ==> #[trigger] final(workers)@[k] != index,
        forall|k: int| 0 <= k < final(workers)@.len() ==> old(workers)@.contains(#[trigger] final(workers)@[k]),
        forall|k: int| 0 <= k < old(workers)@.len() && #[trigger] old(workers)@[k] != index ==> final(workers)@.contains(old(workers)@[k]),
{
    let mut kept: Vec<usize> = Vec::new();
    let mut i: usize = 0;
    while i < workers.len()
        invariant
            i <= workers@.len(),
            kept@.len() <= i,
            forall|k: int| 0 <= k < kept@.len() ==> #[trigger] kept@[k] != index,
            forall|k: int| 0 <= k < kept@.len() ==> workers@.contains(#[trigger] kept@[k]),
            forall|k: int| 0 <= k < i && #[trigger] workers@[k] != index ==> kept@.contains(workers@[k]),
        decreases workers@.len() - i,
    {
        let w = workers[i];
        if w != index {
            let ghost prev = kept@;
            kept.push(w);
            proof {
                assert forall|k: int| 0 <= k < i + 1 && #[trigger] workers@[k] != index implies kept@.contains(workers@[k]) by {
                    if k < i {
                        let t = choose|t: int| 0 <= t < prev.len() && prev[t] == workers@[k];
                        assert(kept@[t] == workers@[k]);
                    } else {
                        assert(kept@[kept@.len() - 1] == w);
                    }
                }
                assert(workers@.contains(w)) by {
                    assert(workers@[i as int] == w);
                }
            }
        }
        i = i + 1;
    }
    *workers = kept;
}

impl WorkerPool {
    pub fn new(pool_size: usize) -> (r: WorkerPool)
        ensures
            r.state == WorkerPoolState::Healthy,
            r.pool_size == pool_size,
            r.workers@.len() == 0,
    {
        WorkerPool { state: WorkerPoolState::Healthy, pool_size, workers: Vec::new() }
    }

    /// Asks the director for the next chunk. A ready chunk joins the pool and is returned
    /// with the cells its preparation changed; a director error is returned as is.
    pub fn try_assign_new_worker(&mut self, director: &mut MapDirector, library: &mut Library3D) -> (res: Result<Option<(usize, Chunk, Vec<Cell>)>, EngineError>)
        requires
            director_wf(*old(director), old(library)@),
        ensures
            director_wf(*final(director), final(library)@),
            final(director).proto_data == old(director).proto_data,
            final(director).map_size == old(director).map_size,
            steps_ok(old(director).chunks@, final(director).chunks@),
            active_disjoint(old(director).chunks@) ==> active_disjoint(final(director).chunks@),
            final(self).state == old(self).state,
            final(self).pool_size == old(self).pool_size,
            res matches Ok(Some((i, c, _))) ==> final(self).workers@ == old(self).workers@.push(i)
                && final(director).chunks@[i as int] == c && c.state == ChunkState::Active,
            !(res matches Ok(Some(_))) ==> final(self).workers@ == old(self).workers@,
            forall|i: int| 0 <= i < old(library)@.books.len() ==> (#[trigger] final(library)@.books[i]).locked
                == old(library)@.books[i].locked,
            final(library)@.books.len() == old(library)@.books.len(),
            assign_outcome(old(director).proto_data@, old(director).map_size, old(director).chunks@, old(library)@, res,
                final(director).chunks@, final(library)@),
    {
        match director.get_next_chunk(library) {
            GetNextChunkResponse::NoChunksLeft => Ok(None),
            GetNextChunkResponse::NoChunksReady => Ok(None),
            GetNextChunkResponse::ChunkReady(i, chunk, changes) => {
                self.workers.push(i);
                Ok(Some((i, chunk, changes)))
            },
            GetNextChunkResponse::Error(e) => Err(e),
        }
    }

    /// Applies one worker update: `Changed` keeps the worker going, `Done` completes its
    /// chunk and retires it, `Error` resets its chunk and retires it.
    pub fn handle_update(&mut self, director: &mut MapDirector, library: &mut Library3D, update: WorkerUpdate) -> (res: UpdateOutcome)
        requires
            director_wf(*old(director), old(library)@),
        ensures
            director_wf(*final(director), final(library)@),
            final(director).proto_data == old(director).proto_data,
            final(director).map_size == old(director).map_size,
            steps_ok(old(director).chunks@, final(director).chunks@),
            active_disjoint(old(director).chunks@) ==> active_disjoint(final(director).chunks@),
            final(self).state == old(self).state,
            final(self).pool_size == old(self).pool_size,
            forall|i: int| 0 <= i < old(library)@.books.len() ==> (#[trigger] final(library)@.books[i]).locked
                == old(library)@.books[i].locked,
            final(self).workers@.len() <= old(self).workers@.len(),
            update_outcome(old(director).proto_data@, old(director).map_size, old(director).chunks@, old(library)@, old(self).workers@,
                update, res, final(director).chunks@, final(library)@, final(self).workers@),
    {
        let index = update.chunk_index;
        match update.status {
            WorkerUpdateStatus::Changed(cells) => {
                let res = UpdateOutcome::Continue(cells);
                res
            },
            WorkerUpdateStatus::Done => {
                director.complete_chunk(index);
                remove_worker(&mut self.workers, index);
                UpdateOutcome::Finished
            },
            WorkerUpdateStatus::Error(_) => {
                let ghost d0 = *director;
                let ghost l0 = library@;
                let r = director.reset_chunk(library, index);
                let ghost d1 = *director;
                let changes = match r {
                    Ok(c) => c,
                    Err(_) => {
                        director.release_chunk(index);
                        Vec::new()
                    },
                };
                remove_worker(&mut self.workers, index);
                let res = UpdateOutcome::Reset(changes);
                proof {
                    if index < d0.chunks@.len() && d0.chunks@[index as int].state != ChunkState::Collapsed {
                        if r.is_ok() {
                            assert(director.chunks@ =~= released(d0.chunks@, index as int));
                        }
                        assert(reset_outcome(d0.proto_data@, d0.map_size, d0.chunks@[index as int], l0, r, library@)
                            && ((r is Ok) ==> res->Reset_0 == r->Ok_0) && ((r is Err) ==> res->Reset_0@.len() == 0));
                    }
                }
                res
            },
        }
    }

    /// One tick of the pool, given the updates drained from the workers.
    ///
    /// Deadlocked with no worker left: prune; if that changed cells the pool is Healthy
    /// again and reports them, else it reports `Stopped`. Otherwise: while Healthy and not
    /// full, start a worker on the next chunk (a director error makes the pool
    /// Deadlocked); then apply the updates in order (`handle_update`); report the changed
    /// cells, or `Stopped` once every chunk is Collapsed and no worker is left.
    pub fn manage_workers(
        &mut self,
        director: &mut MapDirector,
        validator: &MapValidator,
        library: &mut Library3D,
        updates: Vec<WorkerUpdate>,
    ) -> (res: PoolTick)
        requires
            director_wf(*old(director), old(library)@),
        ensures
            director_wf(*final(director), final(library)@),
            final(director).proto_data == old(director).proto_data,
            final(director).map_size == old(director).map_size,
            active_disjoint(old(director).chunks@) ==> active_disjoint(final(director).chunks@),
            final(self).pool_size == old(self).pool_size,
            forall|i: int| 0 <= i < old(library)@.books.len() ==> (#[trigger] final(library)@.books[i]).locked
                == old(library)@.books[i].locked,
            old(self).workers@.len() <= old(self).pool_size ==> final(self).workers@.len() <= final(self).pool_size,
            tick_outcome(
                old(director).proto_data@, old(director).map_size, old(director).chunks@, old(library)@, old(self).workers@,
                old(self).state, old(self).pool_size, updates@, res, final(director).chunks@, final(library)@, final(self).workers@,
                final(self).state,
            ),
    {
        let ghost l0 = library@;
        let ghost c0 = director.chunks@;
        if self.state == WorkerPoolState::Deadlocked && self.workers.len() == 0 {
            let pr = validator.prune_dead_cells(director, library);
            proof {
                let protos = director.proto_data@;
                let size = director.map_size;
                if pr is Pruned {
                    assert(exists|u: int| unit_index(protos, u));
                    assert(!(!check_out_allowed(l0, origin(), l0.size) || l0.next_version == u64::MAX));
                    assert(!forall|i: int| 0 <= i < l0.books.len() ==> !(solid(protos, #[trigger] l0.books[i]) && !reachable(protos, l0.books, size, i)));
                    assert(prune_changes(protos, size, l0));
                } else {
                    assert(!prune_changes(protos, size, l0));
                }
            }
            return match pr {
                PruneResult::Pruned(changes) => {
                    self.state = WorkerPoolState::Healthy;
                    PoolTick { report: Some(ManagerUpdate::new_changes(changes)), spawn: None, continue_workers: Vec::new() }
                },
                PruneResult::NoEffect => PoolTick {
                    report: Some(ManagerUpdate::new_state(ManagerState::Stopped)),
                    spawn: None,
                    continue_workers: Vec::new(),
                },
                PruneResult::Error(_) => PoolTick {
                    report: Some(ManagerUpdate::new_state(ManagerState::Stopped)),
                    spawn: None,
                    continue_workers: Vec::new(),
                },
            };
        }
        let mut changes: Vec<Cell> = Vec::new();
        let ghost mut prep = changes;
        let mut spawn: Option<(usize, Chunk)> = None;
        if self.state == WorkerPoolState::Healthy && self.workers.len() < self.pool_size {
            match self.try_assign_new_worker(director, library) {
                Ok(Some((i, chunk, mut changed))) => {
                    proof {
                        prep = changed;
                    }
                    changes.append(&mut changed);
                    spawn = Some((i, chunk));
                },
                Ok(None) => {},
                Err(_) => {
                    self.state = WorkerPoolState::Deadlocked;
                },
            }
        }
        let ghost c_fill = director.chunks@;
        let ghost w_fill = self.workers@;
        let ghost s_fill = self.state;
        let ghost attempt = old(self).state == WorkerPoolState::Healthy && old(self).workers@.len() < old(self).pool_size;
        let ghost sp: int = match spawn { Some((i, _)) => i as int, None => -1 };
        proof {
            assert forall|x: usize| #[trigger] w_fill.contains(x) <==> (old(self).workers@.contains(x) || sp == x as int) by {
                if spawn is Some {
                    if sp == x as int {
                        assert(w_fill[w_fill.len() - 1] == x);
                    }
                    if old(self).workers@.contains(x) {
                        let t = choose|t: int| 0 <= t < old(self).workers@.len() && old(self).workers@[t] == x;
                        assert(w_fill[t] == x);
                    }
                }
            }
        }
        let ghost u0 = updates@;
        let ghost n = u0.len() as int;
        let ghost protos = old(director).proto_data@;
        let ghost size = old(director).map_size;
        let ghost mut outs: Seq<Seq<Cell>> = Seq::empty();
        let ghost mut libs: Seq<LibraryView> = seq![library@];
        let mut continue_workers: Vec<usize> = Vec::new();
        let mut updates = updates;
        let ghost mut k: int = 0;
        while updates.len() > 0
            invariant
                0 <= k <= n,
                n == u0.len(),
                updates@ == u0.subrange(k, n),
                director_wf(*director, library@),
                director.proto_data == old(director).proto_data,
                director.map_size == old(director).map_size,
                active_disjoint(old(director).chunks@) ==> active_disjoint(director.chunks@),
                self.pool_size == old(self).pool_size,
                self.state == s_fill,
                library@.books.len() == l0.books.len(),
                forall|i: int| 0 <= i < l0.books.len() ==> (#[trigger] library@.books[i]).locked == l0.books[i].locked,
                director.chunks@ == apply_updates(c_fill, u0, k),
                continue_workers@ == changed_indices(u0, k),
                forall|x: usize| #[trigger] self.workers@.contains(x) <==> (w_fill.contains(x) && !retires(u0, k, x)),
                brings_changes(u0, k) ==> changes@.len() > 0,
                old(self).workers@.len() <= old(self).pool_size ==> self.workers@.len() <= self.pool_size,
                forall|x: usize| #[trigger] w_fill.contains(x) <==> (old(self).workers@.contains(x) || sp == x as int),
                sp == (match spawn { Some((i, _)) => i as int, None => -1 }),
                spawn is Some ==> attempt && s_fill == WorkerPoolState::Healthy
                    && best_chunk(c0, sp, old(director).map_size)
                    && c_fill == c0.update(sp, Chunk { state: ChunkState::Active, ..c0[sp] }),
                spawn is None ==> c_fill == c0,
                attempt && spawn is None ==> ((s_fill == WorkerPoolState::Deadlocked) <==> exists|i: int| #[trigger] eligible(c0, i, old(director).map_size)),
                !attempt ==> spawn is None && s_fill == old(self).state,
                c0 == old(director).chunks@,
                protos == old(director).proto_data@,
                size == old(director).map_size,
                outs.len() == k,
                libs.len() == k + 1,
                libs[k] == library@,
                changes@ == prep@ + flatten(outs, k),
                spawn is Some ==> reset_outcome(protos, size, c0[sp], l0, Ok::<Vec<Cell>, EngineError>(prep), libs[0]),
                spawn is None ==> prep@.len() == 0,
                forall|j: int| 0 <= j < k ==> #[trigger] update_cells(protos, size, apply_updates(c_fill, u0, j), u0[j], libs[j], outs[j], libs[j + 1]),
            decreases updates@.len(),
        {
            let u = updates.remove(0);
            let index = u.chunk_index;
            let ghost w_before = self.workers@;
            let ghost c_before = director.chunks@;
            proof {
                assert(u == u0[k]);
            }
            let ghost l_before = library@;
            let out = self.handle_update(director, library, u);
            let ghost og = out;
            let ghost changes_before = changes@;
            match out {
                UpdateOutcome::Continue(mut cells) => {
                    changes.append(&mut cells);
                    continue_workers.push(index);
                },
                UpdateOutcome::Finished => {},
                UpdateOutcome::Reset(mut cells) => {
                    changes.append(&mut cells);
                },
            }
            proof {
                assert(u0.subrange(k + 1, n) =~= u0.subrange(k, n).remove(0));
                assert forall|x: usize| #[trigger] self.workers@.contains(x) <==> (w_fill.contains(x) && !retires(u0, k + 1, x)) by {
                    if retires(u0, k + 1, x) && !retires(u0, k, x) {
                        let j = choose|j: int| 0 <= j < k + 1 && #[trigger] u0[j].chunk_index == x && !(u0[j].status is Changed);
                        assert(j == k);
                    }
                    if retires(u0, k, x) {
                        let j = choose|j: int| 0 <= j < k && #[trigger] u0[j].chunk_index == x && !(u0[j].status is Changed);
                        assert(retires(u0, k + 1, x));
                    }
                    if !(u0[k].status is Changed) && u0[k].chunk_index == x {
                        assert(retires(u0, k + 1, x));
                    }
                }
                if brings_changes(u0, k + 1) && !brings_changes(u0, k) {
                    let j = choose|j: int| 0 <= j < k + 1 && (#[trigger] u0[j].status is Changed) && u0[j].status->Changed_0@.len() > 0;
                    assert(j == k);
                }
                assert(changes@ == changes_before + out_cells(og));
                assert(update_cells(protos, size, c_before, u0[k], l_before, out_cells(og), library@));
                let outs2 = outs.push(out_cells(og));
                let libs2 = libs.push(library@);
                lemma_flatten_push(outs, out_cells(og), k);
                assert forall|j: int| 0 <= j < k + 1 implies #[trigger] update_cells(protos, size, apply_updates(c_fill, u0, j), u0[j], libs2[j], outs2[j], libs2[j + 1]) by {
                    if j < k {
                        assert(libs2[j] == libs[j] && libs2[j + 1] == libs[j + 1] && outs2[j] == outs[j]);
                    }
                }
                outs = outs2;
                libs = libs2;
                k = k + 1;
            }
        }
        let report = if changes.len() > 0 {
            Some(ManagerUpdate::new_changes(changes))
        } else if self.workers.len() == 0 && spawn.is_none() && self.state == WorkerPoolState::Healthy && director.all_chunks_collapsed() {
            Some(ManagerUpdate::new_state(ManagerState::Stopped))
        } else {
            None
        };
        let res = PoolTick { report, spawn, continue_workers };
        proof {
            assert(u0.subrange(0, n) == u0);
            let filled = if res.spawn is Some {
                c0.update(spawned(res), Chunk { state: ChunkState::Active, ..c0[spawned(res)] })
            } else {
                c0
            };
            assert(filled == c_fill);
            assert(spawned(res) == sp);
            assert(tick_report_with(protos, size, c0, l0, filled, u0, res, director.chunks@, library@, self.workers@, self.state, prep, outs, libs));
        }
        res
    }
}

} // verus!
