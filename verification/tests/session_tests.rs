use rustytag::plan::compute_sync_plan;
use rustytag::session::{
    is_affirmative, SessionState, StoreFailure, SyncFailure, SyncSession,
};

fn names(xs: &[&str]) -> Vec<String> {
    xs.iter().map(|s| s.to_string()).collect()
}

#[test]
fn empty_plan_completes_without_prompting() {
    let plan = compute_sync_plan(&names(&["a"]), &names(&["a"]));
    let mut s = SyncSession::new(plan);
    assert_eq!(s.state, SessionState::Idle);
    s.note_plan();
    assert_eq!(s.state, SessionState::Done);
    assert_eq!(s.pushed, 0);
    assert!(s.finished());
}

#[test]
fn negative_answer_cancels_before_any_store_mutation() {
    let plan = compute_sync_plan(&names(&["a", "b"]), &names(&["b", "c"]));
    let mut s = SyncSession::new(plan);
    s.note_plan();
    assert_eq!(s.state, SessionState::Diffed);
    s.issue_prompt();
    assert_eq!(s.state, SessionState::AwaitingConfirmation);
    s.answer(false);
    assert_eq!(s.state, SessionState::Cancelled);
    assert_eq!(s.pushed, 0);
    assert!(s.finished());
}

#[test]
fn affirmative_answer_pulls_then_pushes_to_done() {
    let plan = compute_sync_plan(&names(&["a", "b"]), &names(&["b", "c"]));
    let mut s = SyncSession::new(plan);
    s.note_plan();
    s.issue_prompt();
    s.answer(true);
    assert_eq!(s.state, SessionState::Pulling);
    s.pull_result(Ok(()));
    assert_eq!(s.state, SessionState::Pushing);
    assert_eq!(s.next_push().cloned(), Some("a".to_string()));
    s.push_succeeded();
    assert_eq!(s.next_push(), None);
    s.finish();
    assert_eq!(s.state, SessionState::Done);
    assert_eq!(s.pushed, 1);
}

#[test]
fn failed_pull_ends_the_session_with_its_cause() {
    let plan = compute_sync_plan(&names(&["a"]), &names(&["c"]));
    let mut s = SyncSession::new(plan);
    s.note_plan();
    s.issue_prompt();
    s.answer(true);
    s.pull_result(Err(StoreFailure::RemoteUnavailable));
    assert_eq!(
        s.state,
        SessionState::Failed(SyncFailure::PullFailed {
            cause: StoreFailure::RemoteUnavailable
        })
    );
    assert!(s.finished());
}

#[test]
fn failed_push_reports_how_many_succeeded() {
    let plan = compute_sync_plan(&names(&["a", "b", "c"]), &names(&[]));
    let mut s = SyncSession::new(plan);
    s.note_plan();
    s.issue_prompt();
    s.answer(true);
    s.pull_result(Ok(()));
    s.push_succeeded();
    s.push_failed(StoreFailure::AuthFailure);
    assert_eq!(
        s.state,
        SessionState::Failed(SyncFailure::PushFailed {
            cause: StoreFailure::AuthFailure,
            completed: 1
        })
    );
    assert_eq!(s.pushed, 1);
}

#[test]
fn confirmation_accepts_only_y() {
    assert!(is_affirmative("y"));
    assert!(is_affirmative("Y"));
    assert!(is_affirmative(" y\n"));
    assert!(is_affirmative("\tY \r\n"));
    assert!(!is_affirmative("yes"));
    assert!(!is_affirmative(""));
    assert!(!is_affirmative("n"));
    assert!(!is_affirmative("\n"));
    assert!(!is_affirmative("y y"));
}
