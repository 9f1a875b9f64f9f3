use vstd::prelude::*;

use crate::cell::Cell;
use crate::chunk::Chunk;
use crate::kernel::ChunkError;
use crate::library::LibraryError;

verus! {

/// Any failure of the engine.
#[derive(Clone, Copy, PartialEq, Eq, Structural, Debug)]
pub enum EngineError {
    Library(LibraryError),
    Chunk(ChunkError),
    /// No chunk has this index.
    MissingChunk(usize),
    /// The catalogue does not hold exactly one empty tile.
    EmptyTileMissing,
    /// A Collapsed chunk cannot be reset.
    ChunkCollapsed(usize),
}

/// What a worker reports after a command.
pub enum WorkerUpdateStatus {
    /// A cell was collapsed; these cells changed.
    Changed(Vec<Cell>),
    /// The chunk has no open cell left.
    Done,
    /// The step failed; the chunk is to be reset.
    Error(EngineError),
}

pub struct WorkerUpdate {
    pub chunk_index: usize,
    pub status: WorkerUpdateStatus,
}

impl WorkerUpdate {
    pub fn new(chunk_index: usize, status: WorkerUpdateStatus) -> (r: WorkerUpdate)
        ensures
            r.chunk_index == chunk_index,
            r.status == status,
    {
        WorkerUpdate { chunk_index, status }
    }
}

/// Commands a worker accepts.
#[derive(Clone, Copy, PartialEq, Eq, Structural, Debug)]
pub enum WorkerCommandType {
    NoOp,
    Collapse,
    Stop,
}

/// Top-level state of the engine.
#[derive(Clone, Copy, PartialEq, Eq, Structural, Debug)]
pub enum ManagerState {
    Idle,
    Working,
    Stopped,
}

/// Commands from the host.
#[derive(Clone, Copy, PartialEq, Eq, Structural, Debug)]
pub enum ManagerCommandType {
    NoOp,
    Start,
    Pause,
    Stop,
}

pub struct ManagerCommand {
    pub command: ManagerCommandType,
    pub payload: Option<String>,
}

impl ManagerCommand {
    pub fn new(command: ManagerCommandType) -> (r: ManagerCommand)
        ensures
            r.command == command,
            r.payload.is_none(),
    {
        ManagerCommand { command, payload: None }
    }
}

/// One cell change as the host sees it: a position and the ids now possible there.
pub struct CellChange {
    pub position: crate::geometry::Vec3i,
    pub new_protos: Vec<String>,
}

impl CellChange {
    /// The host's view of a cell: its position and the ids of its possibilities, in order.
    pub fn from_internal(position: crate::geometry::Vec3i, possibilities: &Vec<usize>, protos: &Vec<crate::prototype::Prototype>) -> (r: CellChange)
        requires
            crate::prototype::indices_valid(protos@, possibilities@),
        ensures
            r.position == position,
            r.new_protos@.len() == possibilities@.len(),
            forall|k: int| 0 <= k < possibilities@.len() ==> (#[trigger] r.new_protos@[k])@ == protos@[possibilities@[k] as int].id@,
    {
        let mut ids: Vec<String> = Vec::new();
        let mut k: usize = 0;
        while k < possibilities.len()
            invariant
                crate::prototype::indices_valid(protos@, possibilities@),
                k <= possibilities@.len(),
                ids@.len() == k,
                forall|m: int| 0 <= m < k ==> (#[trigger] ids@[m])@ == protos@[possibilities@[m] as int].id@,
            decreases possibilities@.len() - k,
        {
            ids.push(protos[possibilities[k]].id.clone());
            k = k + 1;
        }
        CellChange { position, new_protos: ids }
    }
}

/// An update for the host: a new state, cell changes, or both.
pub struct ManagerUpdate {
    pub new_state: Option<ManagerState>,
    pub changes: Option<Vec<Cell>>,
}

impl ManagerUpdate {
    pub fn new(new_state: Option<ManagerState>, changes: Option<Vec<Cell>>) -> (r: ManagerUpdate)
        ensures
            r.new_state == new_state,
            r.changes == changes,
    {
        ManagerUpdate { new_state, changes }
    }

    pub fn new_state(new_state: ManagerState) -> (r: ManagerUpdate)
        ensures
            r.new_state == Some(new_state),
            r.changes.is_none(),
    {
        ManagerUpdate::new(Some(new_state), None)
    }

    pub fn new_changes(changes: Vec<Cell>) -> (r: ManagerUpdate)
        ensures
            r.new_state.is_none(),
            r.changes == Some(changes),
    {
        ManagerUpdate::new(None, Some(changes))
    }
}

/// Outcome of asking the director for the next chunk.
pub enum GetNextChunkResponse {
    /// Every chunk is Active or Collapsed.
    NoChunksLeft,
    /// Ready chunks exist, but none may start now.
    NoChunksReady,
    /// This chunk was prepared and is now Active; these cells changed.
    ChunkReady(usize, Chunk, Vec<Cell>),
    Error(EngineError),
}

/// Health of the worker pool.
#[derive(Clone, Copy, PartialEq, Eq, Structural, Debug)]
pub enum WorkerPoolState {
    Healthy,
    Deadlocked,
}

} // verus!
