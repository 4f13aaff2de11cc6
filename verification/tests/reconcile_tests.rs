use operator::codec::encode;
use operator::lifecycle::{
    after_apply, after_cleanup, after_marker_add, next_action, LifecycleAction, LifecycleState,
};
use operator::reconcile::{
    classify_submit, plan_apply, plan_cleanup, requeue, requeue_delay, ReconcileOutcome,
    ReconcilePlan, SubmitError, FATAL_PAUSE_SECS, LONG_RECHECK_SECS, RETRY_SOON_SECS,
};
use operator::MapRoleSpec;

fn mk(key: &str, user: &str, groups: &[&str]) -> MapRoleSpec {
    MapRoleSpec {
        rolearn: key.as_bytes().to_vec(),
        username: user.as_bytes().to_vec(),
        groups: groups.iter().map(|g| g.as_bytes().to_vec()).collect(),
    }
}

#[test]
fn plan_apply_submits_patch_for_new_mapping() {
    let prior = encode(&Vec::new());
    let plan = plan_apply(&prior, &mk("roleA", "alice", &["g1"]));
    match plan {
        ReconcilePlan::Submit(p) => {
            assert_eq!(p.expect, prior);
            assert_eq!(p.replace, b"roleA\talice\tg1\n".to_vec());
        }
        ReconcilePlan::NoSubmit(_) => panic!("expected a patch"),
    }
}

#[test]
fn plan_apply_submits_nothing_when_up_to_date() {
    let prior = encode(&vec![mk("roleA", "alice", &["g1"])]);
    let plan = plan_apply(&prior, &mk("roleA", "alice", &["g1"]));
    assert!(matches!(plan, ReconcilePlan::NoSubmit(ReconcileOutcome::AlreadyUpToDate)));
}

#[test]
fn plan_apply_rewrites_changed_mapping() {
    let prior = encode(&vec![mk("roleA", "alice", &["g1"])]);
    let plan = plan_apply(&prior, &mk("roleA", "bob", &["g2"]));
    match plan {
        ReconcilePlan::Submit(p) => {
            assert_eq!(p.expect, prior);
            assert_eq!(p.replace, b"roleA\tbob\tg2\n".to_vec());
        }
        ReconcilePlan::NoSubmit(_) => panic!("expected a patch"),
    }
}

#[test]
fn plan_apply_is_fatal_on_malformed_field() {
    let plan = plan_apply(&b"no tabs here\n".to_vec(), &mk("roleA", "alice", &["g1"]));
    assert!(matches!(plan, ReconcilePlan::NoSubmit(ReconcileOutcome::FatalError)));
}

#[test]
fn plan_apply_is_fatal_on_uncarriable_desired_mapping() {
    let prior = encode(&Vec::new());
    let plan = plan_apply(&prior, &mk("role\tA", "alice", &["g1"]));
    assert!(matches!(plan, ReconcilePlan::NoSubmit(ReconcileOutcome::FatalError)));
}

#[test]
fn plan_cleanup_removes_entry_and_keeps_the_rest() {
    let prior = encode(&vec![mk("roleA", "alice", &["g1"]), mk("roleB", "carol", &["g3"])]);
    let plan = plan_cleanup(&prior, &mk("roleA", "alice", &["g1"]));
    match plan {
        ReconcilePlan::Submit(p) => {
            assert_eq!(p.expect, prior);
            assert_eq!(p.replace, b"roleB\tcarol\tg3\n".to_vec());
        }
        ReconcilePlan::NoSubmit(_) => panic!("expected a patch"),
    }
}

#[test]
fn plan_cleanup_submits_nothing_for_absent_key() {
    let prior = encode(&vec![mk("roleB", "carol", &["g3"])]);
    let plan = plan_cleanup(&prior, &mk("roleA", "alice", &["g1"]));
    assert!(matches!(plan, ReconcilePlan::NoSubmit(ReconcileOutcome::NoOpAlreadyAbsent)));
}

#[test]
fn plan_cleanup_is_fatal_on_malformed_field() {
    let plan = plan_cleanup(&b"broken line without tabs\n".to_vec(), &mk("roleA", "alice", &["g1"]));
    assert!(matches!(plan, ReconcilePlan::NoSubmit(ReconcileOutcome::FatalError)));
}

#[test]
fn conflict_answer_classifies_as_retry() {
    let outcome = classify_submit(&Err(SubmitError::Conflict), false);
    assert_eq!(outcome, ReconcileOutcome::ConflictRetry);
    assert_eq!(requeue_delay(outcome), RETRY_SOON_SECS);
}

#[test]
fn submit_answers_classify_by_kind() {
    assert_eq!(classify_submit(&Ok(()), false), ReconcileOutcome::Applied);
    assert_eq!(classify_submit(&Ok(()), true), ReconcileOutcome::Removed);
    assert_eq!(classify_submit(&Err(SubmitError::Transient), false), ReconcileOutcome::TransientError);
    assert_eq!(classify_submit(&Err(SubmitError::Fatal), true), ReconcileOutcome::FatalError);
}

#[test]
fn requeue_delays_are_bounded_and_non_zero() {
    assert_eq!(requeue_delay(ReconcileOutcome::Applied), LONG_RECHECK_SECS);
    assert_eq!(requeue_delay(ReconcileOutcome::AlreadyUpToDate), LONG_RECHECK_SECS);
    assert_eq!(requeue_delay(ReconcileOutcome::Removed), LONG_RECHECK_SECS);
    assert_eq!(requeue_delay(ReconcileOutcome::NoOpAlreadyAbsent), LONG_RECHECK_SECS);
    assert_eq!(requeue_delay(ReconcileOutcome::TransientError), RETRY_SOON_SECS);
    assert_eq!(requeue_delay(ReconcileOutcome::FatalError), FATAL_PAUSE_SECS);
}

#[test]
fn requeue_zero_means_wait_for_change() {
    assert_eq!(requeue(0), None);
    assert_eq!(requeue(300), Some(300));
}

#[test]
fn fresh_object_registers_marker_before_apply() {
    let (state, action) = next_action(LifecycleState::NoFinalizer, false);
    assert_eq!(state, LifecycleState::Registering);
    assert_eq!(action, LifecycleAction::AddMarker);
}

#[test]
fn failed_marker_add_aborts_attempt_without_apply() {
    let (state, action) = next_action(LifecycleState::NoFinalizer, false);
    assert_eq!(action, LifecycleAction::AddMarker);
    assert_eq!(state, LifecycleState::Registering);
    let (state, proceed) = after_marker_add(false);
    assert!(!proceed);
    assert_eq!(state, LifecycleState::NoFinalizer);
    let (state, action) = next_action(state, false);
    assert_eq!(action, LifecycleAction::AddMarker);
    assert_eq!(state, LifecycleState::Registering);
}

#[test]
fn registered_object_runs_apply_and_stays_registered() {
    let (state, proceed) = after_marker_add(true);
    assert!(proceed);
    assert_eq!(state, LifecycleState::Registered);
    let (state, action) = next_action(state, false);
    assert_eq!(action, LifecycleAction::RunApply);
    assert_eq!(state, LifecycleState::Registered);
    assert_eq!(after_apply(ReconcileOutcome::ConflictRetry), LifecycleState::Registered);
}

#[test]
fn deletion_runs_cleanup_before_marker_release() {
    let (state, action) = next_action(LifecycleState::Registered, true);
    assert_eq!(state, LifecycleState::CleaningUp);
    assert_eq!(action, LifecycleAction::RunCleanup);
    let (state, release) = after_cleanup(ReconcileOutcome::ConflictRetry);
    assert!(!release);
    assert_eq!(state, LifecycleState::CleaningUp);
    let (state, release) = after_cleanup(ReconcileOutcome::FatalError);
    assert!(!release);
    assert_eq!(state, LifecycleState::CleaningUp);
    let (state, release) = after_cleanup(ReconcileOutcome::Removed);
    assert!(release);
    assert_eq!(state, LifecycleState::Gone);
    let (state, release) = after_cleanup(ReconcileOutcome::NoOpAlreadyAbsent);
    assert!(release);
    assert_eq!(state, LifecycleState::Gone);
}
