//! The finalizer-driven lifecycle of one desired-mapping object.
//!
//! The finalizer marker's presence is the single source of truth for
//! "cleanup has not yet provably succeeded": apply never runs before
//! the marker is registered, and the marker is removed only right
//! after a cleanup pass that provably left the shared record without
//! the object's entry.

use vstd::prelude::*;

use crate::reconcile::ReconcileOutcome;

verus! {

/// Where one object stands in its lifecycle.
#[derive(Clone, Copy, Debug, PartialEq, Eq, Structural)]
pub enum LifecycleState {
    /// Observed without the finalizer marker.
    NoFinalizer,
    /// The marker is being added; apply has not run yet.
    Registering,
    /// The marker is in place; apply passes may run.
    Registered,
    /// Marked for deletion; cleanup passes run until one succeeds.
    CleaningUp,
    /// The marker is removed; the store may delete the object.
    Gone,
}

/// What the driver must do next for one object.
#[derive(Clone, Copy, Debug, PartialEq, Eq, Structural)]
pub enum LifecycleAction {
    /// Add the finalizer marker before anything else.
    AddMarker,
    /// Run an apply pass of the reconciler.
    RunApply,
    /// Run a cleanup pass of the reconciler.
    RunCleanup,
    /// Nothing to do for this delivery.
    Idle,
}

/// The next state and action for a delivered event.
pub open spec fn next_action_spec(state: LifecycleState, marked_for_deletion: bool) -> (
    LifecycleState,
    LifecycleAction,
) {
    match state {
        LifecycleState::NoFinalizer => if marked_for_deletion {
            (LifecycleState::Gone, LifecycleAction::Idle)
        } else {
            (LifecycleState::Registering, LifecycleAction::AddMarker)
        },
        LifecycleState::Registering => if marked_for_deletion {
            (LifecycleState::CleaningUp, LifecycleAction::RunCleanup)
        } else {
            (LifecycleState::Registering, LifecycleAction::AddMarker)
        },
        LifecycleState::Registered => if marked_for_deletion {
            (LifecycleState::CleaningUp, LifecycleAction::RunCleanup)
        } else {
            (LifecycleState::Registered, LifecycleAction::RunApply)
        },
        LifecycleState::CleaningUp => (LifecycleState::CleaningUp, LifecycleAction::RunCleanup),
        LifecycleState::Gone => (LifecycleState::Gone, LifecycleAction::Idle),
    }
}

/// Classify a delivered event: an object not yet marked for deletion
/// is applied, but only once the finalizer marker is in place; a
/// marked object is cleaned up first.
pub fn next_action(state: LifecycleState, marked_for_deletion: bool) -> (r: (
    LifecycleState,
    LifecycleAction,
))
    ensures
        r == next_action_spec(state, marked_for_deletion),
{
    match state {
        LifecycleState::NoFinalizer => if marked_for_deletion {
            (LifecycleState::Gone, LifecycleAction::Idle)
        } else {
            (LifecycleState::Registering, LifecycleAction::AddMarker)
        },
        LifecycleState::Registering => if marked_for_deletion {
            (LifecycleState::CleaningUp, LifecycleAction::RunCleanup)
        } else {
            (LifecycleState::Registering, LifecycleAction::AddMarker)
        },
        LifecycleState::Registered => if marked_for_deletion {
            (LifecycleState::CleaningUp, LifecycleAction::RunCleanup)
        } else {
            (LifecycleState::Registered, LifecycleAction::RunApply)
        },
        LifecycleState::CleaningUp => (LifecycleState::CleaningUp, LifecycleAction::RunCleanup),
        LifecycleState::Gone => (LifecycleState::Gone, LifecycleAction::Idle),
    }
}

/// Take the result of adding the finalizer marker.
///
/// Only a confirmed marker lets apply run; a failed addition aborts
/// the attempt, and the next delivery starts over from the beginning.
pub fn after_marker_add(added: bool) -> (r: (LifecycleState, bool))
    ensures
        added ==> r == (LifecycleState::Registered, true),
        !added ==> r == (LifecycleState::NoFinalizer, false),
        r.1 == added,
{
    if added {
        (LifecycleState::Registered, true)
    } else {
        (LifecycleState::NoFinalizer, false)
    }
}

/// Take the outcome of an apply pass: whatever it was, the marker
/// stays and the object remains registered.
pub fn after_apply(outcome: ReconcileOutcome) -> (r: LifecycleState)
    ensures
        r == LifecycleState::Registered,
{
    let _ = outcome;
    LifecycleState::Registered
}

/// Whether a cleanup outcome proves the entry is out of the shared
/// record.
pub open spec fn cleanup_succeeded(outcome: ReconcileOutcome) -> bool {
    outcome == ReconcileOutcome::Removed || outcome == ReconcileOutcome::NoOpAlreadyAbsent
}

/// Take the outcome of a cleanup pass.
///
/// The finalizer marker is released exactly when the pass provably
/// succeeded; on any other outcome the object stays pending deletion
/// rather than risking a silently orphaned entry.
pub fn after_cleanup(outcome: ReconcileOutcome) -> (r: (LifecycleState, bool))
    ensures
        r.1 == cleanup_succeeded(outcome),
        r.1 ==> r.0 == LifecycleState::Gone,
        !r.1 ==> r.0 == LifecycleState::CleaningUp,
{
    match outcome {
        ReconcileOutcome::Removed => (LifecycleState::Gone, true),
        ReconcileOutcome::NoOpAlreadyAbsent => (LifecycleState::Gone, true),
        _ => (LifecycleState::CleaningUp, false),
    }
}

} // verus!
