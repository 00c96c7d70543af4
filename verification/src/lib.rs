//! A namespaced, hierarchically scoped key-value store.
//!
//! Keys are `(scope, name)` pairs built from validated path segments; values
//! are JSON documents. The in-memory backend in this crate is verified
//! against a map model; the queue layer schedules, claims and reschedules
//! named tasks on top of it.

pub mod decimal;
pub mod disk;
pub mod dispatch;
pub mod error;
pub mod key;
pub mod locks;
pub mod memory;
pub mod namespace;
pub mod queue;
pub mod scope;
pub mod segment;
pub mod store;
pub mod text;
pub mod value;

pub use disk::Disk;
pub use dispatch::BackendKind;
pub use error::Error;
pub use locks::LockSet;
pub use key::Key;
pub use memory::MemoryStore;
pub use namespace::{Namespace, NamespaceBuf, ParseNamespaceError};
pub use queue::{PendingTask, RunningTask, ScheduleMode};
pub use scope::Scope;
pub use store::KeyValueStore;
pub use segment::{ParseSegmentError, Segment, SegmentBuf};
