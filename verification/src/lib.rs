//! A reconciliation core for a role-mapping operator.
//!
//! Many independent desired role mappings are merged into one shared
//! configuration record whose text field holds a serialized list of
//! entries.  The modules here are the verified heart of that loop:
//!
//! - [`entry`]: the mapping entry type and its well-formedness.
//! - [`codec`]: a canonical, line-oriented serialization of entry lists.
//! - [`merge`]: the pure apply/cleanup merge engine.
//! - [`patch`]: the test-then-replace conditional patch builder.
//! - [`reconcile`]: planning one reconciliation attempt and classifying
//!   the store's answer.
//! - [`lifecycle`]: the finalizer-driven per-object state machine.
//!
//! All I/O (watching objects, fetching and patching the shared record)
//! lives outside this crate; the functions here are pure and take the
//! fetched state as plain values.

pub mod codec;
pub mod entry;
pub mod finalizer;
pub mod lifecycle;
pub mod merge;
pub mod patch;
pub mod reconcile;

pub use entry::MapRoleSpec;
pub use finalizer::Finalizer;
