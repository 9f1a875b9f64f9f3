use vstd::prelude::*;

use crate::director::{active_disjoint, director_wf, MapDirector};
use crate::library::Library3D;
use crate::messages::{ManagerCommandType, ManagerState, ManagerUpdate, WorkerUpdate};
use crate::params::{params_wf, MapParameters};
use crate::pool::{PoolTick, WorkerPool};
use crate::prototype::Prototype;
use crate::validator::MapValidator;

verus! {

/// The state after a host command: `Start` works, `Pause` idles, `Stop` stops, `NoOp`
/// changes nothing; nothing leaves `Stopped`.
pub open spec fn next_state(s: ManagerState, c: ManagerCommandType) -> ManagerState {
    if s == ManagerState::Stopped {
        ManagerState::Stopped
    } else {
        match c {
            ManagerCommandType::NoOp => s,
            ManagerCommandType::Start => ManagerState::Working,
            ManagerCommandType::Pause => ManagerState::Idle,
            ManagerCommandType::Stop => ManagerState::Stopped,
        }
    }
}

/// The top-level state machine: owns the scheduler, the pool and the pruner.
pub struct Manager {
    pub state: ManagerState,
    pub pool: WorkerPool,
    pub map_director: MapDirector,
    pub map_validator: MapValidator,
}

impl Manager {
    /// An Idle manager over the chunk grid of `params`.
    pub fn new(params: &MapParameters, proto_data: Vec<Prototype>, pool_size: usize) -> (r: Manager)
        requires
            params_wf(*params),
        ensures
            r.state == ManagerState::Idle,
            r.pool.pool_size == pool_size,
            r.pool.workers@.len() == 0,
            r.map_director.proto_data == proto_data,
            r.map_director.map_size == params.map_size,
    {
        Manager {
            state: ManagerState::Idle,
            pool: WorkerPool::new(pool_size),
            map_director: MapDirector::new(params, proto_data),
            map_validator: MapValidator::new(),
        }
    }

    /// Applies a host command; reports the new state unless the command was `NoOp` or the
    /// manager has stopped.
    pub fn on_command_received(&mut self, command: ManagerCommandType) -> (r: Option<ManagerUpdate>)
        ensures
            final(self).state == next_state(old(self).state, command),
            final(self).pool == old(self).pool,
            final(self).map_director == old(self).map_director,
            r.is_some() <==> (command != ManagerCommandType::NoOp && old(self).state != ManagerState::Stopped),
            r.is_some() ==> r.unwrap().new_state == Some(final(self).state) && r.unwrap().changes.is_none(),
    {
        if self.state == ManagerState::Stopped {
            return None;
        }
        let new_state = match command {
            ManagerCommandType::NoOp => return None,
            ManagerCommandType::Start => ManagerState::Working,
            ManagerCommandType::Pause => ManagerState::Idle,
            ManagerCommandType::Stop => ManagerState::Stopped,
        };
        self.state = new_state;
        Some(ManagerUpdate::new_state(new_state))
    }

    /// The host went away: stop.
    pub fn on_disconnect(&mut self) -> (r: ManagerUpdate)
        ensures
            final(self).state == ManagerState::Stopped,
            r.new_state == Some(ManagerState::Stopped),
            r.changes.is_none(),
    {
        self.state = ManagerState::Stopped;
        ManagerUpdate::new_state(ManagerState::Stopped)
    }

    /// One working tick: runs the pool over the drained worker updates; a report of
    /// `Stopped` stops the manager.
    pub fn tick(&mut self, library: &mut Library3D, updates: Vec<WorkerUpdate>) -> (r: PoolTick)
        requires
            director_wf(old(self).map_director, old(library)@),
        ensures
            director_wf(final(self).map_director, final(library)@),
            active_disjoint(old(self).map_director.chunks@) ==> active_disjoint(final(self).map_director.chunks@),
            final(self).map_director.proto_data == old(self).map_director.proto_data,
            final(self).map_director.map_size == old(self).map_director.map_size,
            final(self).pool.pool_size == old(self).pool.pool_size,
            old(self).pool.workers@.len() <= old(self).pool.pool_size ==> final(self).pool.workers@.len() <= final(self).pool.pool_size,
            forall|i: int| 0 <= i < old(library)@.books.len() ==> (#[trigger] final(library)@.books[i]).locked
                == old(library)@.books[i].locked,
            crate::pool::tick_outcome(
                old(self).map_director.proto_data@, old(self).map_director.map_size, old(self).map_director.chunks@,
                old(library)@, old(self).pool.workers@, old(self).pool.state, old(self).pool.pool_size, updates@, r,
                final(self).map_director.chunks@, final(library)@, final(self).pool.workers@, final(self).pool.state,
            ),
            final(self).state == if r.report.is_some() && r.report.unwrap().new_state == Some(ManagerState::Stopped) {
                ManagerState::Stopped
            } else {
                old(self).state
            },
    {
        let r = self.pool.manage_workers(&mut self.map_director, &self.map_validator, library, updates);
        let stopped = match &r.report {
            Some(u) => match u.new_state {
                Some(ManagerState::Stopped) => true,
                _ => false,
            },
            None => false,
        };
        if stopped {
            self.state = ManagerState::Stopped;
        }
        r
    }
}

} // verus!
