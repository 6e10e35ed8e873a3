//! Deferred commands: structural mutations recorded now and applied when the
//! world flushes them.

use vstd::prelude::*;

use crate::component::Bundle;
use crate::entity::Entity;

verus! {

/// One deferred structural mutation.
pub enum Command {
    /// Spawn a new entity from a bundle.
    Spawn(Bundle),
    /// Despawn an entity, silently skipped when it is already dead.
    Despawn(Entity),
    /// Insert one component, silently skipped when the entity is dead.
    Insert(Entity, u64, Vec<u64>),
    /// Remove one component, silently skipped when the entity is dead or the
    /// component absent.
    Remove(Entity, u64),
}

/// A queue of deferred commands, applied in order by the world's flush.
pub struct Commands {
    pub queue: Vec<Command>,
}

impl Commands {
    pub fn new() -> (r: Self)
        ensures
            r.queue@.len() == 0,
    {
        Self { queue: Vec::new() }
    }

    /// Queues spawning an entity from `bundle`; the handle exists only once
    /// the queue is flushed. A bundle naming one component type twice is
    /// rejected when the queue is flushed.
    pub fn spawn(&mut self, bundle: Bundle) -> (r: EntityCommands)
        ensures
            final(self).queue@ == old(self).queue@.push(Command::Spawn(bundle)),
            r.index as int == old(self).queue@.len(),
    {
        let index = self.queue.len();
        self.queue.push(Command::Spawn(bundle));
        EntityCommands { index }
    }

    /// Queues despawning `entity`.
    pub fn despawn(&mut self, entity: Entity)
        ensures
            final(self).queue@ == old(self).queue@.push(Command::Despawn(entity)),
    {
        self.queue.push(Command::Despawn(entity));
    }

    /// A handle for chaining commands about an already-existing entity.
    pub fn entity(&mut self, entity: Entity) -> (r: EntityCommands)
        ensures
            *final(self) == *old(self),
            r.index == usize::MAX,
    {
        let _ = entity;
        EntityCommands { index: usize::MAX }
    }

    /// Queues inserting component `comp` with payload `value` on `entity`.
    pub fn insert(&mut self, entity: Entity, comp: u64, value: Vec<u64>)
        ensures
            final(self).queue@ == old(self).queue@.push(Command::Insert(entity, comp, value)),
    {
        self.queue.push(Command::Insert(entity, comp, value));
    }

    /// Queues removing component `comp` from `entity`.
    pub fn remove(&mut self, entity: Entity, comp: u64)
        ensures
            final(self).queue@ == old(self).queue@.push(Command::Remove(entity, comp)),
    {
        self.queue.push(Command::Remove(entity, comp));
    }

    pub fn is_empty(&self) -> (r: bool)
        ensures
            r == (self.queue@.len() == 0),
    {
        self.queue.is_empty()
    }

    pub fn len(&self) -> (r: usize)
        ensures
            r == self.queue@.len(),
    {
        self.queue.len()
    }
}

/// A placeholder handle naming the queue slot a spawn command went into.
pub struct EntityCommands {
    pub index: usize,
}

impl EntityCommands {
    /// Reserved for chained insertion on the pending entity; records nothing
    /// further, as the pending handle is not known until the flush.
    pub fn insert(self, comp: u64, value: Vec<u64>) -> (r: Self)
        ensures
            r == self,
    {
        let _ = comp;
        let _ = value;
        self
    }

    /// Reserved for chained removal on the pending entity; records nothing
    /// further, as the pending handle is not known until the flush.
    pub fn remove(self, comp: u64) -> (r: Self)
        ensures
            r == self,
    {
        let _ = comp;
        self
    }
}

} // verus!
