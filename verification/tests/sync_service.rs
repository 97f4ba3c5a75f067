use mailbox_sync::mail::FetchOutcome;
use mailbox_sync::index::Index;
use mailbox_sync::record::{copy_records, MessageRecord, MessageSummary};
use mailbox_sync::sync::{
    step, ListPage, RemoteFailure, SyncAction, SyncError, SyncEvent, SyncState,
};

fn message(id: &str, date: i64) -> MessageRecord {
    MessageRecord {
        id: id.to_string(),
        internal_date: date,
        snippet: String::new(),
        headers: Vec::new(),
        raw_payload: String::new(),
    }
}

fn listed(id: &str) -> MessageSummary {
    MessageSummary { id: id.to_string(), thread_id: Some(format!("t-{}", id)) }
}

fn page(ids: &[&str], next: Option<&str>) -> ListPage {
    ListPage {
        summaries: ids.iter().map(|id| listed(id)).collect(),
        next_page_token: next.map(|t| t.to_string()),
    }
}

fn shown(state: &SyncState) -> Vec<(String, i64)> {
    state.snapshot().records().iter().map(|r| (r.id.clone(), r.internal_date)).collect()
}

fn expect(expected: &[(&str, i64)]) -> Vec<(String, i64)> {
    expected.iter().map(|(id, d)| (id.to_string(), *d)).collect()
}

fn strings(items: &[&str]) -> Vec<String> {
    items.iter().map(|s| s.to_string()).collect()
}

#[test]
fn run_starts_by_loading() {
    let (state, action) = SyncState::start();
    assert!(matches!(state, SyncState::Idle));
    assert_eq!(action, SyncAction::Load);
    assert!(!state.is_over());
    assert!(state.snapshot().is_empty());
}

#[test]
fn cached_index_is_shown_at_once() {
    let (state, _) = SyncState::start();
    let stored = vec![message("b", 300), message("a", 100)];
    let (state, action) = step(state, SyncEvent::Loaded(Some(stored)), 500);
    assert!(matches!(state, SyncState::Ready { .. }));
    assert_eq!(action, SyncAction::Publish { failed: Vec::new() });
    assert_eq!(shown(&state), expect(&[("b", 300), ("a", 100)]));
    assert!(state.is_over());
}

#[test]
fn empty_cache_is_filled_from_the_listing() {
    let (state, _) = SyncState::start();
    let (state, action) = step(state, SyncEvent::Loaded(None), 500);
    assert!(matches!(state, SyncState::Listing { .. }));
    assert_eq!(action, SyncAction::List { page_token: None });

    let (state, action) = step(state, SyncEvent::Listed(page(&["a", "b", "c"], None)), 500);
    assert!(matches!(state, SyncState::Fetching { .. }));
    assert_eq!(action, SyncAction::Fetch { ids: strings(&["a", "b", "c"]) });

    let outcomes = vec![
        FetchOutcome::Fetched(message("a", 100)),
        FetchOutcome::Fetched(message("b", 300)),
        FetchOutcome::Fetched(message("c", 200)),
    ];
    let (state, action) = step(state, SyncEvent::Fetched(outcomes), 500);
    assert!(matches!(state, SyncState::Storing { .. }));
    assert_eq!(
        action,
        SyncAction::Store { records: vec![message("b", 300), message("c", 200), message("a", 100)] }
    );
    assert!(shown(&state).is_empty());

    let (state, action) = step(state, SyncEvent::Stored, 500);
    assert!(matches!(state, SyncState::Ready { .. }));
    assert_eq!(action, SyncAction::Publish { failed: Vec::new() });
    assert_eq!(shown(&state), expect(&[("b", 300), ("c", 200), ("a", 100)]));
}

#[test]
fn corrupt_cache_counts_as_empty() {
    let (state, _) = SyncState::start();
    let stored = vec![message("a", 100), message("b", 300)];
    let (state, action) = step(state, SyncEvent::Loaded(Some(stored)), 500);
    assert!(matches!(state, SyncState::Listing { .. }));
    assert_eq!(action, SyncAction::List { page_token: None });
    assert!(shown(&state).is_empty());
}

#[test]
fn listing_failure_fails_the_run_and_keeps_the_index() {
    let (state, _) = SyncState::start();
    let (state, _) = step(state, SyncEvent::Loaded(None), 500);
    let before = shown(&state);
    let (state, action) = step(state, SyncEvent::ListFailed(RemoteFailure::Unavailable), 500);
    assert!(matches!(state, SyncState::Failed { error: SyncError::Listing, .. }));
    assert_eq!(action, SyncAction::Report { error: SyncError::Listing });
    assert_eq!(shown(&state), before);
    assert!(state.is_over());
}

#[test]
fn refused_credentials_fail_the_run() {
    let (state, _) = SyncState::start();
    let (state, _) = step(state, SyncEvent::Loaded(None), 500);
    let (state, action) = step(state, SyncEvent::ListFailed(RemoteFailure::Unauthorized), 500);
    assert!(matches!(state, SyncState::Failed { error: SyncError::Authentication, .. }));
    assert_eq!(action, SyncAction::Report { error: SyncError::Authentication });
}

#[test]
fn pages_are_gathered_until_there_is_no_further_page() {
    let (state, _) = SyncState::start();
    let (state, _) = step(state, SyncEvent::Loaded(None), 10);
    let (state, action) = step(state, SyncEvent::Listed(page(&["a", "b"], Some("second-page"))), 10);
    assert!(matches!(state, SyncState::Listing { .. }));
    assert_eq!(action, SyncAction::List { page_token: Some("second-page".to_string()) });
    let (state, action) = step(state, SyncEvent::Listed(page(&["c"], Some("third-page"))), 10);
    assert_eq!(action, SyncAction::List { page_token: Some("third-page".to_string()) });
    let (state, action) = step(state, SyncEvent::Listed(page(&["d"], None)), 10);
    assert!(matches!(state, SyncState::Fetching { .. }));
    assert_eq!(action, SyncAction::Fetch { ids: strings(&["a", "b", "c", "d"]) });
}

#[test]
fn pages_are_gathered_until_the_bound_is_reached() {
    let (state, _) = SyncState::start();
    let (state, _) = step(state, SyncEvent::Loaded(None), 3);
    let (state, action) = step(state, SyncEvent::Listed(page(&["a", "b"], Some("second-page"))), 3);
    assert_eq!(action, SyncAction::List { page_token: Some("second-page".to_string()) });
    let (state, action) = step(state, SyncEvent::Listed(page(&["c", "d"], Some("third-page"))), 3);
    assert!(matches!(state, SyncState::Fetching { .. }));
    assert_eq!(action, SyncAction::Fetch { ids: strings(&["a", "b", "c"]) });
}

#[test]
fn failed_fetches_are_named_when_the_index_is_published() {
    let (state, _) = SyncState::start();
    let (state, _) = step(state, SyncEvent::Loaded(None), 500);
    let (state, _) = step(state, SyncEvent::Listed(page(&["a", "b", "c"], None)), 500);
    let outcomes = vec![
        FetchOutcome::Fetched(message("c", 200)),
        FetchOutcome::Failed("b".to_string()),
        FetchOutcome::Fetched(message("a", 100)),
    ];
    let (state, action) = step(state, SyncEvent::Fetched(outcomes), 500);
    assert_eq!(
        action,
        SyncAction::Store { records: vec![message("c", 200), message("a", 100)] }
    );
    let (state, action) = step(state, SyncEvent::Stored, 500);
    assert_eq!(action, SyncAction::Publish { failed: strings(&["b"]) });
    assert_eq!(shown(&state), expect(&[("c", 200), ("a", 100)]));
}

#[test]
fn fetches_that_cannot_start_fail_the_run() {
    let (state, _) = SyncState::start();
    let (state, _) = step(state, SyncEvent::Loaded(None), 500);
    let (state, _) = step(state, SyncEvent::Listed(page(&["a"], None)), 500);
    let (state, action) = step(state, SyncEvent::FetchFailed(RemoteFailure::Unavailable), 500);
    assert!(matches!(state, SyncState::Failed { error: SyncError::Fetching, .. }));
    assert_eq!(action, SyncAction::Report { error: SyncError::Fetching });
    assert!(shown(&state).is_empty());
}

#[test]
fn store_failure_is_reported_and_the_old_index_stays() {
    let (state, _) = SyncState::start();
    let (state, _) = step(state, SyncEvent::Loaded(None), 500);
    let (state, _) = step(state, SyncEvent::Listed(page(&["a"], None)), 500);
    let (state, _) =
        step(state, SyncEvent::Fetched(vec![FetchOutcome::Fetched(message("a", 1))]), 500);
    let (state, action) = step(state, SyncEvent::StoreFailed, 500);
    assert!(matches!(state, SyncState::Failed { error: SyncError::Storing, .. }));
    assert_eq!(action, SyncAction::Report { error: SyncError::Storing });
    assert!(shown(&state).is_empty());
}

#[test]
fn unexpected_events_change_nothing() {
    let (state, _) = SyncState::start();
    let (state, action) = step(state, SyncEvent::Stored, 500);
    assert!(matches!(state, SyncState::Idle));
    assert_eq!(action, SyncAction::Wait);

    let (state, _) = step(state, SyncEvent::Loaded(None), 500);
    let (state, action) = step(state, SyncEvent::Fetched(Vec::new()), 500);
    assert!(matches!(state, SyncState::Listing { .. }));
    assert_eq!(action, SyncAction::Wait);

    let (state, _) = step(state, SyncEvent::Listed(page(&["a"], None)), 500);
    let (state, action) = step(state, SyncEvent::Listed(page(&["b"], None)), 500);
    assert!(matches!(state, SyncState::Fetching { .. }));
    assert_eq!(action, SyncAction::Wait);

    let (state, _) = step(state, SyncEvent::Fetched(Vec::new()), 500);
    let (state, action) = step(state, SyncEvent::Loaded(None), 500);
    assert!(matches!(state, SyncState::Storing { .. }));
    assert_eq!(action, SyncAction::Wait);

    let (state, _) = step(state, SyncEvent::Stored, 500);
    let (state, action) = step(state, SyncEvent::Stored, 500);
    assert!(matches!(state, SyncState::Ready { .. }));
    assert_eq!(action, SyncAction::Wait);
}

#[test]
fn a_failed_run_stays_failed() {
    let (state, _) = SyncState::start();
    let (state, _) = step(state, SyncEvent::Loaded(None), 500);
    let (state, _) = step(state, SyncEvent::ListFailed(RemoteFailure::Unavailable), 500);
    let (state, action) = step(state, SyncEvent::Listed(page(&["a"], None)), 500);
    assert!(matches!(state, SyncState::Failed { error: SyncError::Listing, .. }));
    assert_eq!(action, SyncAction::Wait);
}

#[test]
fn stored_records_load_back_as_the_index() {
    let (state, _) = SyncState::start();
    let (state, _) = step(state, SyncEvent::Loaded(None), 500);
    let (state, _) = step(state, SyncEvent::Listed(page(&["a", "b"], None)), 500);
    let outcomes =
        vec![FetchOutcome::Fetched(message("a", 7)), FetchOutcome::Fetched(message("b", 9))];
    let (state, action) = step(state, SyncEvent::Fetched(outcomes), 500);
    let written = match action {
        SyncAction::Store { records } => records,
        other => panic!("expected a store, got {:?}", other),
    };
    let (state, _) = step(state, SyncEvent::Stored, 500);
    let reloaded = Index::load(Some(copy_records(&written)));
    assert_eq!(reloaded.records(), state.snapshot().records());
}

#[test]
fn zero_bound_fetches_nothing() {
    let (state, _) = SyncState::start();
    let (state, _) = step(state, SyncEvent::Loaded(None), 0);
    let (state, action) = step(state, SyncEvent::Listed(page(&["a", "b"], Some("second-page"))), 0);
    assert!(matches!(state, SyncState::Fetching { .. }));
    assert_eq!(action, SyncAction::Fetch { ids: Vec::new() });
}

#[test]
fn refresh_lays_the_batch_over_the_index() {
    let index = Index::new().merge(vec![message("x", 500)]);
    let (state, action) = SyncState::refresh(index);
    assert!(matches!(state, SyncState::Listing { .. }));
    assert_eq!(action, SyncAction::List { page_token: None });
    assert_eq!(shown(&state), expect(&[("x", 500)]));

    let (state, action) = step(state, SyncEvent::Listed(page(&["y", "x"], None)), 500);
    assert_eq!(action, SyncAction::Fetch { ids: strings(&["y", "x"]) });

    let outcomes =
        vec![FetchOutcome::Fetched(message("y", 600)), FetchOutcome::Fetched(message("x", 400))];
    let (state, action) = step(state, SyncEvent::Fetched(outcomes), 500);
    assert_eq!(action, SyncAction::Store { records: vec![message("y", 600), message("x", 400)] });
    assert_eq!(shown(&state), expect(&[("x", 500)]));

    let (state, _) = step(state, SyncEvent::Stored, 500);
    assert_eq!(shown(&state), expect(&[("y", 600), ("x", 400)]));
}

#[test]
fn refresh_that_fails_to_list_keeps_the_index() {
    let index = Index::new().merge(vec![message("x", 500), message("w", 700)]);
    let (state, _) = SyncState::refresh(index);
    let (state, action) = step(state, SyncEvent::ListFailed(RemoteFailure::Unavailable), 500);
    assert_eq!(action, SyncAction::Report { error: SyncError::Listing });
    assert_eq!(shown(&state), expect(&[("w", 700), ("x", 500)]));
}

#[test]
fn refresh_that_fails_to_store_keeps_the_index() {
    let index = Index::new().merge(vec![message("x", 500)]);
    let (state, _) = SyncState::refresh(index);
    let (state, _) = step(state, SyncEvent::Listed(page(&["y"], None)), 500);
    let (state, _) =
        step(state, SyncEvent::Fetched(vec![FetchOutcome::Fetched(message("y", 600))]), 500);
    let (state, action) = step(state, SyncEvent::StoreFailed, 500);
    assert_eq!(action, SyncAction::Report { error: SyncError::Storing });
    assert_eq!(shown(&state), expect(&[("x", 500)]));
}

#[test]
fn unauthorized_fetches_fail_the_run() {
    let (state, _) = SyncState::start();
    let (state, _) = step(state, SyncEvent::Loaded(None), 500);
    let (state, _) = step(state, SyncEvent::Listed(page(&["a"], None)), 500);
    let (state, action) = step(state, SyncEvent::FetchFailed(RemoteFailure::Unauthorized), 500);
    assert!(matches!(state, SyncState::Failed { error: SyncError::Authentication, .. }));
    assert_eq!(action, SyncAction::Report { error: SyncError::Authentication });
}

#[test]
fn a_fetch_without_outcome_counts_as_failed() {
    let (state, _) = SyncState::start();
    let (state, _) = step(state, SyncEvent::Loaded(None), 500);
    let (state, _) = step(state, SyncEvent::Listed(page(&["a", "b", "c"], None)), 500);
    let outcomes = vec![FetchOutcome::Fetched(message("c", 9))];
    let (state, action) = step(state, SyncEvent::Fetched(outcomes), 500);
    assert_eq!(action, SyncAction::Store { records: vec![message("c", 9)] });
    let (state, action) = step(state, SyncEvent::Stored, 500);
    assert_eq!(action, SyncAction::Publish { failed: strings(&["a", "b"]) });
    assert_eq!(shown(&state), expect(&[("c", 9)]));
}
