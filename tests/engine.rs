use live_wfc::cell::Cell;
use live_wfc::chunk::{Chunk, ChunkState};
use live_wfc::geometry::Vec3i;
use live_wfc::library::{Library3D, LibraryError};
use live_wfc::manager::Manager;
use live_wfc::messages::{
    CellChange, EngineError, ManagerCommandType, ManagerState, ManagerUpdate, WorkerCommandType,
    WorkerPoolState, WorkerUpdate, WorkerUpdateStatus,
};
use live_wfc::params::MapParameters;
use live_wfc::pool::{UpdateOutcome, WorkerPool};
use live_wfc::prototype::Prototype;
use live_wfc::validator::{MapValidator, PruneResult};
use live_wfc::worker::Worker;

fn v(x: i32, y: i32, z: i32) -> Vec3i {
    Vec3i { x, y, z }
}

/// A prototype whose six adjacency lists (catalogue order) are `lists`, with every face
/// descriptor set to `slot`.
fn proto(id: &str, lists: [&[&str]; 6], slot: &str, tag: &str, weight: u32) -> Prototype {
    Prototype {
        id: id.to_string(),
        mesh_name: format!("mesh_{}", id),
        mesh_rotation: 0,
        pos_x: slot.to_string(),
        neg_x: slot.to_string(),
        pos_y: slot.to_string(),
        neg_y: slot.to_string(),
        pos_z: slot.to_string(),
        neg_z: slot.to_string(),
        constrain_to: tag.to_string(),
        constrain_from: String::new(),
        weight,
        no_id: 0,
        no_id_sym: 0,
        valid_neighbors: lists.iter().map(|l| l.iter().map(|s| s.to_string()).collect()).collect(),
    }
}

fn everywhere<'a>(ids: &'a [&'a str]) -> [&'a [&'a str]; 6] {
    [ids, ids, ids, ids, ids, ids]
}

/// `floor` and the empty tile, compatible with each other in every direction.
fn floor_and_empty() -> Vec<Prototype> {
    let both: &[&str] = &["p-1", "floor"];
    vec![proto("p-1", everywhere(both), "-1", "", 10), proto("floor", everywhere(both), "a", "", 10)]
}

struct Driven {
    reports: Vec<ManagerUpdate>,
    spawn_order: Vec<usize>,
    states_at_spawn: Vec<Vec<ChunkState>>,
}

/// Runs the engine single-threaded: each worker handles its pending command, then the
/// manager ticks over the updates.
fn drive(manager: &mut Manager, library: &mut Library3D, seed: u64, max_ticks: usize) -> Driven {
    let protos = manager.map_director.proto_data.clone();
    let mut workers: Vec<(Worker, bool)> = Vec::new();
    let mut out = Driven { reports: Vec::new(), spawn_order: Vec::new(), states_at_spawn: Vec::new() };
    for _ in 0..max_ticks {
        let mut updates: Vec<WorkerUpdate> = Vec::new();
        let mut finished: Vec<usize> = Vec::new();
        for (w, pending) in workers.iter_mut() {
            if *pending {
                *pending = false;
                let (u, stop) = w.tick(WorkerCommandType::Collapse, library, &protos);
                if let Some(u) = u {
                    updates.push(u);
                }
                if stop {
                    finished.push(w.index);
                }
            }
        }
        workers.retain(|(w, _)| !finished.contains(&w.index));
        let tick = manager.tick(library, updates);
        if let Some((i, chunk)) = tick.spawn {
            out.spawn_order.push(i);
            out.states_at_spawn.push(manager.map_director.chunks.iter().map(|c| c.state).collect());
            workers.push((Worker::new(i, chunk, seed + i as u64), true));
        }
        for i in tick.continue_workers {
            for (w, pending) in workers.iter_mut() {
                if w.index == i {
                    *pending = true;
                }
            }
        }
        if let Some(r) = tick.report {
            let stop = r.new_state == Some(ManagerState::Stopped);
            out.reports.push(r);
            if stop {
                break;
            }
        }
    }
    out
}

fn setup(map: Vec3i, chunk: Vec3i, overlap: i32, protos: Vec<Prototype>) -> (Manager, Library3D) {
    let params = MapParameters::new(map, chunk, overlap);
    let library = params.generate_cell_library(&protos);
    let mut manager = Manager::new(&params, protos, 1);
    let started = manager.on_command_received(ManagerCommandType::Start).unwrap();
    assert_eq!(started.new_state, Some(ManagerState::Working));
    (manager, library)
}

fn cell_at(library: &Library3D, p: Vec3i) -> &Cell {
    library.books.iter().find(|c| c.position == p).unwrap()
}

fn assert_consistent(library: &Library3D, protos: &Vec<Prototype>) {
    for a in library.books.iter() {
        assert_eq!(a.entropy(), 1, "cell {:?} not collapsed", a.position);
        for b in library.books.iter() {
            let d = v(b.position.x - a.position.x, b.position.y - a.position.y, b.position.z - a.position.z);
            if d.x.abs() + d.y.abs() + d.z.abs() == 1 {
                let pa = &protos[a.possibilities[0]];
                let pb = &protos[b.possibilities[0]];
                assert!(pa.compatible_with(&pb.id, d));
            }
        }
    }
}

#[test]
fn trivial_map_single_change_then_stopped() {
    let only: &[&str] = &["p-1"];
    let protos = vec![proto("p-1", everywhere(only), "-1", "", 1)];
    let (mut manager, mut library) = setup(v(1, 1, 1), v(1, 1, 1), 1, protos);
    let run = drive(&mut manager, &mut library, 7, 50);
    let changes: Vec<&ManagerUpdate> = run.reports.iter().filter(|r| r.changes.is_some()).collect();
    assert_eq!(changes.len(), 1);
    let cells = changes[0].changes.as_ref().unwrap();
    assert_eq!(cells.len(), 1);
    assert_eq!(cells[0].position, v(0, 0, 0));
    assert_eq!(cells[0].possibilities, vec![0]);
    assert_eq!(run.reports.last().unwrap().new_state, Some(ManagerState::Stopped));
    assert_eq!(manager.state, ManagerState::Stopped);
}

#[test]
fn single_chunk_map_collapses_consistently() {
    let protos = floor_and_empty();
    let (mut manager, mut library) = setup(v(4, 1, 4), v(4, 1, 4), 1, protos.clone());
    let run = drive(&mut manager, &mut library, 11, 500);
    assert_eq!(run.reports.last().unwrap().new_state, Some(ManagerState::Stopped));
    assert_consistent(&library, &protos);
    for c in library.books.iter() {
        assert!(!c.locked);
        let id = &protos[c.possibilities[0]].id;
        assert!(id == "floor" || id == "p-1");
    }
}

#[test]
fn two_chunks_run_one_after_the_other() {
    let protos = floor_and_empty();
    let (mut manager, mut library) = setup(v(6, 1, 4), v(4, 1, 4), 2, protos.clone());
    assert_eq!(manager.map_director.chunks.len(), 2);
    assert_eq!(manager.map_director.chunks[1].position, v(2, 0, 0));
    let run = drive(&mut manager, &mut library, 3, 1000);
    assert_eq!(run.spawn_order, vec![0, 1]);
    assert_eq!(run.states_at_spawn[1][0], ChunkState::Collapsed);
    assert_eq!(run.reports.last().unwrap().new_state, Some(ManagerState::Stopped));
    assert_consistent(&library, &protos);
}

#[test]
fn failed_worker_resets_its_chunk() {
    let protos = floor_and_empty();
    let params = MapParameters::new(v(4, 1, 4), v(4, 1, 4), 1);
    let mut library = params.generate_cell_library(&protos);
    let mut manager = Manager::new(&params, protos, 1);
    let (i, chunk, _) = manager
        .pool
        .try_assign_new_worker(&mut manager.map_director, &mut library)
        .unwrap()
        .unwrap();
    assert_eq!(chunk.state, ChunkState::Active);
    let failed = WorkerUpdate::new(i, WorkerUpdateStatus::Error(EngineError::MissingChunk(9)));
    let outcome = manager.pool.handle_update(&mut manager.map_director, &mut library, failed);
    assert!(matches!(outcome, UpdateOutcome::Reset(_)));
    assert_eq!(manager.map_director.chunks[i].state, ChunkState::Ready);
    assert!(manager.pool.workers.is_empty());
}

#[test]
fn deadlock_prune_fills_unreachable_cells() {
    // A 3x1x3 map: the centre cell is solid but walled off by empty faces.
    let wall: &[&str] = &["p-1", "block", "island"];
    let protos = vec![
        proto("p-1", everywhere(wall), "-1", "", 1),
        proto("block", everywhere(wall), "-1", "", 1),
        proto("island", everywhere(wall), "a", "", 1),
    ];
    let params = MapParameters::new(v(3, 1, 3), v(3, 1, 3), 1);
    let mut library = params.generate_cell_library(&protos);
    for c in library.books.iter_mut() {
        let which = if c.position == v(1, 0, 1) { 2 } else { 1 };
        c.change(&vec![which]);
    }
    let mut manager = Manager::new(&params, protos.clone(), 1);
    manager.pool.state = WorkerPoolState::Deadlocked;
    let tick = manager.tick(&mut library, Vec::new());
    let report = tick.report.unwrap();
    let changed = report.changes.unwrap();
    assert_eq!(changed.len(), 1);
    assert_eq!(changed[0].position, v(1, 0, 1));
    assert_eq!(changed[0].possibilities, vec![0]);
    assert_eq!(manager.pool.state, WorkerPoolState::Healthy);
    assert_eq!(cell_at(&library, v(1, 0, 1)).possibilities, vec![0]);
    // Nothing left to prune: the pool stops the manager.
    manager.pool.state = WorkerPoolState::Deadlocked;
    let tick = manager.tick(&mut library, Vec::new());
    assert_eq!(tick.report.unwrap().new_state, Some(ManagerState::Stopped));
    assert_eq!(manager.state, ManagerState::Stopped);
}

#[test]
fn stop_while_working() {
    let protos = floor_and_empty();
    let (mut manager, mut library) = setup(v(4, 1, 4), v(4, 1, 4), 1, protos.clone());
    let tick = manager.tick(&mut library, Vec::new());
    let (i, chunk) = tick.spawn.unwrap();
    let mut worker = Worker::new(i, chunk, 1);
    let (u, stop) = worker.tick(WorkerCommandType::Collapse, &mut library, &protos);
    assert!(u.is_some());
    assert!(!stop);
    let r = manager.on_command_received(ManagerCommandType::Stop).unwrap();
    assert_eq!(r.new_state, Some(ManagerState::Stopped));
    assert_eq!(manager.state, ManagerState::Stopped);
    assert!(manager.on_command_received(ManagerCommandType::Start).is_none());
    let (u, stop) = worker.tick(WorkerCommandType::Stop, &mut library, &protos);
    assert!(u.is_none());
    assert!(stop);
}

#[test]
fn manager_commands_and_disconnect() {
    let protos = floor_and_empty();
    let params = MapParameters::new(v(2, 1, 2), v(2, 1, 2), 1);
    let mut manager = Manager::new(&params, protos, 2);
    assert_eq!(manager.state, ManagerState::Idle);
    assert!(manager.on_command_received(ManagerCommandType::NoOp).is_none());
    assert_eq!(manager.on_command_received(ManagerCommandType::Start).unwrap().new_state, Some(ManagerState::Working));
    assert_eq!(manager.on_command_received(ManagerCommandType::Pause).unwrap().new_state, Some(ManagerState::Idle));
    let r = manager.on_disconnect();
    assert_eq!(r.new_state, Some(ManagerState::Stopped));
    assert_eq!(manager.state, ManagerState::Stopped);
}

#[test]
fn prune_without_empty_tile_is_an_error() {
    let both: &[&str] = &["floor"];
    let protos = vec![proto("floor", everywhere(both), "a", "", 1)];
    let params = MapParameters::new(v(2, 1, 2), v(2, 1, 2), 1);
    let mut library = params.generate_cell_library(&protos);
    let director = live_wfc::director::MapDirector::new(&params, protos);
    let validator = MapValidator::new();
    let r = validator.prune_dead_cells(&director, &mut library);
    assert!(matches!(r, PruneResult::Error(EngineError::EmptyTileMissing)));
}

#[test]
fn host_cell_change_lists_ids() {
    let protos = floor_and_empty();
    let c = CellChange::from_internal(v(1, 2, 3), &vec![1, 0], &protos);
    assert_eq!(c.position, v(1, 2, 3));
    assert_eq!(c.new_protos, vec!["floor".to_string(), "p-1".to_string()]);
}

#[test]
fn pool_starts_healthy_and_empty() {
    let pool = WorkerPool::new(3);
    assert_eq!(pool.state, WorkerPoolState::Healthy);
    assert_eq!(pool.pool_size, 3);
    assert!(pool.workers.is_empty());
}

#[test]
fn library_errors() {
    let protos = floor_and_empty();
    let params = MapParameters::new(v(2, 1, 2), v(2, 1, 2), 1);
    let mut library = params.generate_cell_library(&protos);
    assert_eq!(library.check_out_range(v(-1, 0, 0), v(1, 1, 1)).err(), Some(LibraryError::NegativeStart));
    let mut r = library.check_out_range(v(0, 0, 0), v(1, 1, 1)).unwrap();
    assert_eq!(library.check_out_range(v(0, 0, 0), v(2, 1, 2)).err(), Some(LibraryError::AlreadyCheckedOut));
    r.books[0].version = 99;
    assert_eq!(library.check_in_range(&mut r), Err(LibraryError::VersionMismatch));
    r.books[0].version = 0;
    r.books[0].position = v(5, 0, 0);
    assert_eq!(library.check_in_range(&mut r), Err(LibraryError::InvalidIndex));
    r.books[0].position = v(0, 0, 0);
    library.next_version = u64::MAX;
    assert_eq!(library.check_in_range(&mut r), Err(LibraryError::VersionsExhausted));
}

#[test]
fn unpreparable_chunk_deadlocks_then_prune_stops() {
    // The empty tile is not open below, so the ground cell starts with no possibility and
    // preparing the only chunk over-collapses the cell above it.
    let p = Prototype {
        valid_neighbors: vec![
            vec!["p-1".to_string()],
            vec!["p-1".to_string()],
            vec!["p-1".to_string()],
            vec!["p-1".to_string()],
            vec!["p-1".to_string()],
            vec![],
        ],
        ..proto("p-1", everywhere(&["p-1"]), "-1", "", 1)
    };
    let (mut manager, mut library) = setup(v(1, 2, 1), v(1, 2, 1), 1, vec![p]);
    let first = manager.tick(&mut library, Vec::new());
    assert!(first.spawn.is_none());
    assert_eq!(manager.pool.state, WorkerPoolState::Deadlocked);
    assert_eq!(manager.map_director.chunks[0].state, ChunkState::Ready);
    let second = manager.tick(&mut library, Vec::new());
    assert_eq!(second.report.unwrap().new_state, Some(ManagerState::Stopped));
    assert_eq!(manager.state, ManagerState::Stopped);
    assert!(library.books.iter().all(|c| !c.locked));
}

#[test]
fn prune_refuses_a_checked_out_map_and_keeps_flags() {
    let protos = floor_and_empty();
    let params = MapParameters::new(v(2, 1, 2), v(2, 1, 2), 1);
    let mut library = params.generate_cell_library(&protos);
    let director = live_wfc::director::MapDirector::new(&params, protos);
    let validator = MapValidator::new();
    let held = library.check_out_range(v(0, 0, 0), v(1, 1, 1)).unwrap();
    let r = validator.prune_dead_cells(&director, &mut library);
    assert!(matches!(r, PruneResult::Error(EngineError::Library(LibraryError::AlreadyCheckedOut))));
    assert_eq!(library.books.iter().filter(|c| c.locked).count(), held.books.len());
    library.next_version = u64::MAX;
    let mut fresh = params.generate_cell_library(&director.proto_data);
    fresh.next_version = u64::MAX;
    let r = validator.prune_dead_cells(&director, &mut fresh);
    assert!(matches!(r, PruneResult::Error(EngineError::Library(LibraryError::VersionsExhausted))));
    let mut ok = params.generate_cell_library(&director.proto_data);
    let r = validator.prune_dead_cells(&director, &mut ok);
    assert!(matches!(r, PruneResult::NoEffect));
    assert!(ok.books.iter().all(|c| !c.locked));
}

#[test]
fn worker_reports_done_on_a_closed_chunk_and_errors_on_a_held_one() {
    let only: &[&str] = &["p-1"];
    let protos = vec![proto("p-1", everywhere(only), "-1", "", 1)];
    let params = MapParameters::new(v(2, 1, 1), v(2, 1, 1), 1);
    let mut library = params.generate_cell_library(&protos);
    let chunk = Chunk::new(v(0, 0, 0), v(2, 1, 1));
    let mut w = Worker::new(0, chunk, 3);
    let held = library.check_out_range(v(1, 0, 0), v(2, 1, 1)).unwrap();
    let (u, stop) = w.tick(WorkerCommandType::Collapse, &mut library, &protos);
    assert!(stop);
    assert!(matches!(u.unwrap().status, WorkerUpdateStatus::Error(EngineError::Library(LibraryError::AlreadyCheckedOut))));
    let mut held = held;
    library.check_in_range(&mut held).unwrap();
    let (u, stop) = w.tick(WorkerCommandType::Collapse, &mut library, &protos);
    assert!(stop);
    assert!(matches!(u.unwrap().status, WorkerUpdateStatus::Done));
    assert!(library.books.iter().all(|c| !c.locked));
}

#[test]
fn reset_chunk_keeps_checked_out_flags_and_settles_cells() {
    let protos = floor_and_empty();
    let params = MapParameters::new(v(4, 1, 4), v(4, 1, 4), 1);
    let mut library = params.generate_cell_library(&protos);
    let mut director = live_wfc::director::MapDirector::new(&params, protos);
    let changes = director.reset_chunk(&mut library, 0).unwrap();
    assert_eq!(changes.len(), 16);
    assert!(library.books.iter().all(|c| !c.locked));
    assert_eq!(director.chunks[0].state, ChunkState::Ready);
    let held = library.check_out_range(v(0, 0, 0), v(1, 1, 1)).unwrap();
    assert!(matches!(director.reset_chunk(&mut library, 0), Err(EngineError::Library(LibraryError::AlreadyCheckedOut))));
    assert_eq!(library.books.iter().filter(|c| c.locked).count(), held.books.len());
    library.next_version = u64::MAX - 1;
    let mut held = held;
    held.books[0].version = library.books[0].version;
    assert!(matches!(director.reset_chunk(&mut library, 0), Err(EngineError::Library(LibraryError::VersionsExhausted))));
}

#[test]
fn pool_tick_reports_the_reset_cells() {
    let protos = floor_and_empty();
    let params = MapParameters::new(v(4, 1, 4), v(4, 1, 4), 1);
    let mut library = params.generate_cell_library(&protos);
    let mut manager = Manager::new(&params, protos, 1);
    let first = manager.tick(&mut library, Vec::new());
    let (i, _) = first.spawn.unwrap();
    assert_eq!(first.report.unwrap().changes.unwrap().len(), 16);
    let failed = WorkerUpdate::new(i, WorkerUpdateStatus::Error(EngineError::MissingChunk(0)));
    let tick = manager.tick(&mut library, vec![failed]);
    let cells = tick.report.unwrap().changes.unwrap();
    assert_eq!(cells.len(), 16);
    assert!(tick.continue_workers.is_empty());
    assert!(manager.pool.workers.is_empty());
    assert_eq!(manager.map_director.chunks[i].state, ChunkState::Ready);
}

#[test]
fn pool_tick_forwards_changed_cells_and_continues() {
    let protos = floor_and_empty();
    let params = MapParameters::new(v(4, 1, 4), v(4, 1, 4), 1);
    let mut library = params.generate_cell_library(&protos);
    let mut manager = Manager::new(&params, protos, 1);
    let first = manager.tick(&mut library, Vec::new());
    let (i, _) = first.spawn.unwrap();
    let cell = Cell::new(v(0, 0, 0), vec![1]);
    let update = WorkerUpdate::new(i, WorkerUpdateStatus::Changed(vec![cell]));
    let tick = manager.tick(&mut library, vec![update]);
    assert_eq!(tick.continue_workers, vec![i]);
    let cells = tick.report.unwrap().changes.unwrap();
    assert_eq!(cells.len(), 1);
    assert_eq!(cells[0].possibilities, vec![1]);
}
