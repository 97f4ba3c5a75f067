use mailbox_sync::mail::{account_for, download_recent_messages, fetch_plan, FetchOutcome};
use mailbox_sync::record::{MessageRecord, MessageSummary};

fn fetched_record(id: &str, date: i64) -> MessageRecord {
    MessageRecord {
        id: id.to_string(),
        internal_date: date,
        snippet: String::new(),
        headers: Vec::new(),
        raw_payload: String::new(),
    }
}

fn ok(id: &str, date: i64) -> FetchOutcome {
    FetchOutcome::Fetched(fetched_record(id, date))
}

fn failed(id: &str) -> FetchOutcome {
    FetchOutcome::Failed(id.to_string())
}

fn summary(id: &str) -> MessageSummary {
    MessageSummary { id: id.to_string(), thread_id: None }
}

fn batch_ids(records: &Vec<MessageRecord>) -> Vec<String> {
    records.iter().map(|r| r.id.clone()).collect()
}

#[test]
fn all_fetches_succeed() {
    let batch = download_recent_messages(vec![ok("a", 100), ok("b", 300), ok("c", 200)]);
    assert_eq!(batch.records.len(), 3);
    assert_eq!(batch_ids(&batch.records), vec!["b", "c", "a"]);
    assert!(batch.failed.is_empty());
}

#[test]
fn completion_order_does_not_matter_for_distinct_dates() {
    let one = download_recent_messages(vec![ok("a", 100), ok("b", 300), ok("c", 200)]);
    let other = download_recent_messages(vec![ok("c", 200), ok("a", 100), ok("b", 300)]);
    assert_eq!(one.records, other.records);
}

#[test]
fn failed_fetches_are_left_out() {
    let batch = download_recent_messages(vec![
        ok("a", 100),
        failed("b"),
        ok("c", 200),
        failed("d"),
        ok("e", 150),
    ]);
    assert_eq!(batch_ids(&batch.records), vec!["c", "e", "a"]);
    assert_eq!(batch.failed, vec!["b".to_string(), "d".to_string()]);
    assert_eq!(batch.records.len() + batch.failed.len(), 5);
}

#[test]
fn every_fetch_failed() {
    let batch = download_recent_messages(vec![failed("a"), failed("b")]);
    assert!(batch.records.is_empty());
    assert_eq!(batch.failed, vec!["a".to_string(), "b".to_string()]);
}

#[test]
fn no_outcomes_no_batch() {
    let batch = download_recent_messages(Vec::new());
    assert!(batch.records.is_empty());
    assert!(batch.failed.is_empty());
}

#[test]
fn plan_takes_the_first_entries() {
    let listing = vec![summary("a"), summary("b"), summary("c")];
    assert_eq!(fetch_plan(&listing, 2), vec!["a".to_string(), "b".to_string()]);
    assert_eq!(fetch_plan(&listing, 3), vec!["a".to_string(), "b".to_string(), "c".to_string()]);
    assert_eq!(fetch_plan(&listing, 500), vec!["a".to_string(), "b".to_string(), "c".to_string()]);
    assert!(fetch_plan(&listing, 0).is_empty());
    assert!(fetch_plan(&Vec::new(), 500).is_empty());
}

#[test]
fn plan_is_capped_at_the_limit() {
    let listing: Vec<MessageSummary> = (0..600).map(|i| summary(&format!("m{}", i))).collect();
    let ids = fetch_plan(&listing, 500);
    assert_eq!(ids.len(), 500);
    assert_eq!(ids[0], "m0");
    assert_eq!(ids[499], "m499");
}

fn asked(ids: &[&str]) -> Vec<String> {
    ids.iter().map(|id| id.to_string()).collect()
}

#[test]
fn lost_fetches_are_accounted_for_as_failures() {
    let outcomes = account_for(&asked(&["a", "b", "c", "d"]), vec![ok("c", 3), failed("a")]);
    assert_eq!(outcomes, vec![ok("c", 3), failed("a"), failed("b"), failed("d")]);
}

#[test]
fn nothing_is_added_where_every_fetch_has_its_outcome() {
    let outcomes = account_for(&asked(&["a", "b"]), vec![ok("b", 2), ok("a", 1)]);
    assert_eq!(outcomes, vec![ok("b", 2), ok("a", 1)]);
    assert!(account_for(&Vec::new(), Vec::new()).is_empty());
}

#[test]
fn every_fetch_lost() {
    let outcomes = account_for(&asked(&["a", "b"]), Vec::new());
    assert_eq!(outcomes, vec![failed("a"), failed("b")]);
    let batch = download_recent_messages(outcomes);
    assert!(batch.records.is_empty());
    assert_eq!(batch.failed, asked(&["a", "b"]));
}

#[test]
fn outcomes_that_were_not_asked_for_stay() {
    let outcomes = account_for(&asked(&["a"]), vec![ok("z", 9)]);
    assert_eq!(outcomes, vec![ok("z", 9), failed("a")]);
}
