//! Systems and the stage-bucketed execution driver.
//!
//! A system is a unit of behavior run against the world. Systems are
//! registered into one of two stages and, within a stage, run in strict
//! registration order: the driver never reorders, batches, or skips them.

use vstd::prelude::*;
use crate::resource::{Res, ResMut};
use crate::world::{BorrowError, World};

verus! {

/// The execution bucket of a system: `Startup` systems run exactly once,
/// before the first frame; `Update` systems run once per frame, after the
/// frame's platform events have been applied to resources.
#[derive(Clone, Copy, PartialEq, Eq, Structural, Debug)]
pub enum SystemStage {
    Startup,
    Update,
}

/// A unit of behavior invoked with exclusive access to the world for the
/// duration of one call; any borrows it takes must be released before it
/// returns.
pub trait System<V> {
    /// Runs the system once against the world.
    fn run(&self, world: &mut World<V>);
}

/// A capability that can be resolved from the world right before a system
/// runs: a shared or exclusive resource borrow, looked up under a resource
/// kind key.
pub trait SystemParam<V: Copy>: Sized {
    /// The resource value this resolved parameter carries.
    spec fn carries(self) -> V;

    /// Resolves the parameter from the world: takes the matching borrow of
    /// the resource of kind `key`. An absent kind is `Ok(None)`; a borrow
    /// conflict is reported, changing nothing.
    fn fetch(world: &mut World<V>, key: u64) -> (r: Result<Option<Self>, BorrowError>)
        requires
            old(world).wf(),
        ensures
            final(world).wf(),
            final(world).entity_count() == old(world).entity_count(),
            r matches Ok(Some(p)) ==> old(world).has_resource(key) && p.carries() == old(
                world,
            ).resource_value(key),
            !old(world).has_resource(key) ==> (r matches Ok(o) && o is None),
            r is Err ==> *final(world) == *old(world),
    ;
}

impl<V: Copy> SystemParam<V> for Res<V> {
    open spec fn carries(self) -> V {
        self.value
    }

    fn fetch(world: &mut World<V>, key: u64) -> (r: Result<Option<Self>, BorrowError>) {
        world.get_resource(key)
    }
}

impl<V: Copy> SystemParam<V> for ResMut<V> {
    open spec fn carries(self) -> V {
        self.value
    }

    fn fetch(world: &mut World<V>, key: u64) -> (r: Result<Option<Self>, BorrowError>) {
        world.get_resource_mut(key)
    }
}

/// The stage-bucketed schedule: keeps the registered systems of each stage
/// in registration order and drives their execution.
pub struct Schedule<S> {
    startup: Vec<S>,
    update: Vec<S>,
}

impl<S> Schedule<S> {
    /// The startup systems, in registration order.
    pub closed spec fn startup_systems(self) -> Seq<S> {
        self.startup@
    }

    /// The per-frame systems, in registration order.
    pub closed spec fn update_systems(self) -> Seq<S> {
        self.update@
    }

    /// An empty schedule.
    pub fn new() -> (s: Schedule<S>)
        ensures
            s.startup_systems() == Seq::<S>::empty(),
            s.update_systems() == Seq::<S>::empty(),
    {
        Schedule { startup: Vec::new(), update: Vec::new() }
    }

    /// Registers a system at the back of its stage's bucket; nothing ever
    /// reorders a bucket, so buckets hold their systems in registration
    /// order.
    pub fn add_system(&mut self, stage: SystemStage, system: S)
        ensures
            stage == SystemStage::Startup ==> final(self).startup_systems() == old(
                self,
            ).startup_systems().push(system) && final(self).update_systems() == old(
                self,
            ).update_systems(),
            stage == SystemStage::Update ==> final(self).update_systems() == old(
                self,
            ).update_systems().push(system) && final(self).startup_systems() == old(
                self,
            ).startup_systems(),
    {
        match stage {
            SystemStage::Startup => self.startup.push(system),
            SystemStage::Update => self.update.push(system),
        }
    }

    /// Runs every startup system once against the world, in registration
    /// order; called exactly once, at application launch, before the first
    /// frame.
    pub fn run_startup<V>(&self, world: &mut World<V>) where S: System<V> {
        let n = self.startup.len();
        let mut i: usize = 0;
        while i < n
            invariant
                i <= n,
                n == self.startup@.len(),
            decreases n - i,
        {
            self.startup[i].run(world);
            i = i + 1;
        }
    }

    /// Runs one frame: every update system once against the world, in
    /// registration order.
    pub fn run_update<V>(&self, world: &mut World<V>) where S: System<V> {
        let n = self.update.len();
        let mut i: usize = 0;
        while i < n
            invariant
                i <= n,
                n == self.update@.len(),
            decreases n - i,
        {
            self.update[i].run(world);
            i = i + 1;
        }
    }
}

} // verus!
