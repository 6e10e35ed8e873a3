//! An archetype-based entity-component-system core.
//!
//! Entities are stable `(id, generation)` handles. Each entity's components
//! live in one row of an archetype: a column-major table holding every entity
//! with exactly the same set of component types. Component types are named by
//! `u64` identities and component values are carried as word payloads
//! (`Vec<u64>`), so the storage, migration and query logic is ordinary data
//! manipulation with proved contracts.

pub mod archetype;
pub mod command;
pub mod component;
pub mod entity;
pub mod error;
pub mod events;
pub mod hierarchy;
pub mod query;
pub mod resource;
pub mod system;
pub mod world;

pub use command::{Command, Commands, EntityCommands};
pub use component::{Bundle, BundleEntry};
pub use entity::{Entity, EntityAllocator, EntityInfo, EntityLocation, EntityMeta};
pub use error::EcsError;
pub use events::{EventReader, EventWriter, Events};
pub use hierarchy::{Children, Parent};
pub use query::{Changed, Query, QueryIter, QueryTerm, With, Without};
pub use resource::Resources;
pub use system::{ParallelSchedule, Schedule, Stage, SystemAccess};
pub use world::{QueryRow, World};
