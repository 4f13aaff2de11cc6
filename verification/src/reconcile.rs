//! One reconciliation attempt, as pure decisions.
//!
//! The driver fetches the shared record's text field, asks this
//! module what to do, performs the one submission it may be handed,
//! and reports the store's answer back for classification.  Every
//! decision in between — decode, merge, encode, patch construction,
//! outcome classification, requeue policy — is verified here.

use vstd::prelude::*;

use crate::codec::decode;
use crate::codec::encode;
use crate::codec::parse_entries;
use crate::entry::MapRoleSpec;
use crate::entry::entries_view;
use crate::entry::entry_ok;
use crate::merge::apply_changes;
use crate::merge::apply_merge;
use crate::merge::apply_merge_spec;
use crate::merge::cleanup_merge;
use crate::merge::cleanup_merge_spec;
use crate::merge::has_key;
use crate::patch::ConditionalPatch;
use crate::patch::build_conditional_patch;

verus! {

/// Result of one reconciliation attempt; drives the requeue policy.
#[derive(Clone, Copy, Debug, PartialEq, Eq, Structural)]
pub enum ReconcileOutcome {
    /// The apply patch went through.
    Applied,
    /// The shared record already held the desired mapping.
    AlreadyUpToDate,
    /// The cleanup patch went through.
    Removed,
    /// The mapping was already absent on cleanup.
    NoOpAlreadyAbsent,
    /// The compare-and-swap lost a race; retry from a fresh fetch.
    ConflictRetry,
    /// The store was unreachable or overloaded; retry with backoff.
    TransientError,
    /// Malformed state or request; surface to the operator.
    FatalError,
}

/// How a submission failed, as the store reports it.
#[derive(Clone, Copy, Debug, PartialEq, Eq, Structural)]
pub enum SubmitError {
    /// The patch's test step failed: the field changed since the fetch.
    Conflict,
    /// Transport, rate-limit or availability failure.
    Transient,
    /// Authentication failure or malformed request.
    Fatal,
}

/// What one attempt should do after the merge decision.
pub enum ReconcilePlan {
    /// Nothing to submit; the attempt ends with this outcome.
    NoSubmit(ReconcileOutcome),
    /// Submit this conditional patch, then classify the answer.
    Submit(ConditionalPatch),
}

/// Plan an apply pass over the fetched text of the shared record.
///
/// A desired mapping the serialization cannot carry, or a malformed
/// field, is fatal; an already-satisfied mapping needs no patch; any
/// other state yields a conditional patch that tests the exact bytes
/// fetched and replaces them with the merged list's encoding.
pub fn plan_apply(field_text: &Vec<u8>, desired: &MapRoleSpec) -> (r: ReconcilePlan)
    ensures
        !entry_ok(desired@) ==> r == ReconcilePlan::NoSubmit(ReconcileOutcome::FatalError),
        entry_ok(desired@) && parse_entries(field_text@) is None ==> r == ReconcilePlan::NoSubmit(
            ReconcileOutcome::FatalError,
        ),
        entry_ok(desired@) && parse_entries(field_text@) is Some && !apply_changes(
            parse_entries(field_text@).unwrap(),
            desired@,
        ) ==> r == ReconcilePlan::NoSubmit(ReconcileOutcome::AlreadyUpToDate),
        entry_ok(desired@) && parse_entries(field_text@) is Some && apply_changes(
            parse_entries(field_text@).unwrap(),
            desired@,
        ) ==> (r matches ReconcilePlan::Submit(p) && p.expect@ == field_text@ && p.replace@
            == crate::codec::encode_entries(
            apply_merge_spec(parse_entries(field_text@).unwrap(), desired@),
        )),
{
    if !desired.well_formed() {
        return ReconcilePlan::NoSubmit(ReconcileOutcome::FatalError);
    }
    match decode(field_text) {
        Err(_) => ReconcilePlan::NoSubmit(ReconcileOutcome::FatalError),
        Ok(es) => {
            let (merged, changed) = apply_merge(es, desired);
            if !changed {
                ReconcilePlan::NoSubmit(ReconcileOutcome::AlreadyUpToDate)
            } else {
                let new_text = encode(&merged);
                ReconcilePlan::Submit(build_conditional_patch(field_text.clone(), new_text))
            }
        },
    }
}

/// Plan a cleanup pass over the fetched text of the shared record.
///
/// A malformed field is fatal; an absent key needs no patch; a
/// present key yields a conditional patch that removes its entry.
pub fn plan_cleanup(field_text: &Vec<u8>, desired: &MapRoleSpec) -> (r: ReconcilePlan)
    ensures
        parse_entries(field_text@) is None ==> r == ReconcilePlan::NoSubmit(
            ReconcileOutcome::FatalError,
        ),
        parse_entries(field_text@) is Some && !has_key(
            parse_entries(field_text@).unwrap(),
            desired@.rolearn,
        ) ==> r == ReconcilePlan::NoSubmit(ReconcileOutcome::NoOpAlreadyAbsent),
        parse_entries(field_text@) is Some && has_key(
            parse_entries(field_text@).unwrap(),
            desired@.rolearn,
        ) ==> (r matches ReconcilePlan::Submit(p) && p.expect@ == field_text@ && p.replace@
            == crate::codec::encode_entries(
            cleanup_merge_spec(parse_entries(field_text@).unwrap(), desired@.rolearn),
        )),
{
    match decode(field_text) {
        Err(_) => ReconcilePlan::NoSubmit(ReconcileOutcome::FatalError),
        Ok(es) => {
            let (remaining, changed) = cleanup_merge(es, desired);
            if !changed {
                ReconcilePlan::NoSubmit(ReconcileOutcome::NoOpAlreadyAbsent)
            } else {
                let new_text = encode(&remaining);
                ReconcilePlan::Submit(build_conditional_patch(field_text.clone(), new_text))
            }
        },
    }
}

/// Classify the store's answer to a submitted patch.
///
/// A conflict is a lost optimistic race, never a failure: the next
/// attempt re-fetches fresh state.
pub fn classify_submit(result: &Result<(), SubmitError>, cleanup: bool) -> (o: ReconcileOutcome)
    ensures
        result is Ok && !cleanup ==> o == ReconcileOutcome::Applied,
        result is Ok && cleanup ==> o == ReconcileOutcome::Removed,
        result == Err::<(), SubmitError>(SubmitError::Conflict) ==> o
            == ReconcileOutcome::ConflictRetry,
        result == Err::<(), SubmitError>(SubmitError::Transient) ==> o
            == ReconcileOutcome::TransientError,
        result == Err::<(), SubmitError>(SubmitError::Fatal) ==> o == ReconcileOutcome::FatalError,
{
    match result {
        Ok(_) => if cleanup {
            ReconcileOutcome::Removed
        } else {
            ReconcileOutcome::Applied
        },
        Err(SubmitError::Conflict) => ReconcileOutcome::ConflictRetry,
        Err(SubmitError::Transient) => ReconcileOutcome::TransientError,
        Err(SubmitError::Fatal) => ReconcileOutcome::FatalError,
    }
}

/// Seconds between a settled attempt and its drift-detection recheck.
pub const LONG_RECHECK_SECS: u64 = 300;

/// Seconds before retrying a lost race or a transient failure.
pub const RETRY_SOON_SECS: u64 = 1;

/// Seconds before re-attempting after a fatal outcome, to avoid a
/// tight error loop while the operator intervenes.
pub const FATAL_PAUSE_SECS: u64 = 60;

/// Requeue delay owed for an outcome, in seconds; always bounded and
/// non-zero.
pub open spec fn requeue_delay_spec(outcome: ReconcileOutcome) -> u64 {
    match outcome {
        ReconcileOutcome::Applied => LONG_RECHECK_SECS,
        ReconcileOutcome::AlreadyUpToDate => LONG_RECHECK_SECS,
        ReconcileOutcome::Removed => LONG_RECHECK_SECS,
        ReconcileOutcome::NoOpAlreadyAbsent => LONG_RECHECK_SECS,
        ReconcileOutcome::ConflictRetry => RETRY_SOON_SECS,
        ReconcileOutcome::TransientError => RETRY_SOON_SECS,
        ReconcileOutcome::FatalError => FATAL_PAUSE_SECS,
    }
}

/// The requeue delay owed to the scheduler for an outcome.
pub fn requeue_delay(outcome: ReconcileOutcome) -> (r: u64)
    ensures
        r == requeue_delay_spec(outcome),
        r > 0,
{
    match outcome {
        ReconcileOutcome::Applied => LONG_RECHECK_SECS,
        ReconcileOutcome::AlreadyUpToDate => LONG_RECHECK_SECS,
        ReconcileOutcome::Removed => LONG_RECHECK_SECS,
        ReconcileOutcome::NoOpAlreadyAbsent => LONG_RECHECK_SECS,
        ReconcileOutcome::ConflictRetry => RETRY_SOON_SECS,
        ReconcileOutcome::TransientError => RETRY_SOON_SECS,
        ReconcileOutcome::FatalError => FATAL_PAUSE_SECS,
    }
}

/// A requeue request: wait the given seconds, or only watch for the
/// next change when no recheck is owed.
pub fn requeue(secs: u64) -> (r: Option<u64>)
    ensures
        r == if secs == 0 {
            Option::<u64>::None
        } else {
            Option::<u64>::Some(secs)
        },
{
    if secs == 0 {
        None
    } else {
        Some(secs)
    }
}

} // verus!
