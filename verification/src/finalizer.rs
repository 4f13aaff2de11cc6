//! Hooks for a driver that owns the finalizer marker of an object.

use vstd::prelude::*;

verus! {

/// Implemented by drivers that carry an object through its lifecycle:
/// `apply` reconciles the desired state in, `delete` cleans it up
/// before the object may go away.
pub trait Finalizer {
    fn apply(&self);

    fn delete(&self);
}

} // verus!
