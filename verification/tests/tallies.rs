use sttp_core_rs::requests::EmbeddingMigrationMode;
use sttp_core_rs::tallies::{
    migration_candidate, migration_limits, preview_limits, pull_batch_limit, pull_page_size,
    selected_for_migration, MigrationOutcome, MigrationTally, NodeUpsertStatus, PullOutcome,
    SyncPullTally,
};
use sttp_core_rs::models::{ValidationFailureReason, ValidationResult};
use sttp_core_rs::services::{parse_failure_message, validation_failure_message};

#[test]
fn pull_limits_are_clamped() {
    assert_eq!(pull_page_size(0), 1);
    assert_eq!(pull_page_size(50), 50);
    assert_eq!(pull_page_size(10_000), 500);
    assert_eq!(pull_batch_limit(None), usize::MAX);
    assert_eq!(pull_batch_limit(Some(0)), 1);
    assert_eq!(pull_batch_limit(Some(3)), 3);
}

#[test]
fn pull_tally_counts_every_fetched_node() {
    let mut t = SyncPullTally::new();
    assert!(t.wants_page(1));
    assert!(!t.begin_page(3, true));
    t.record(PullOutcome::Filtered);
    t.record(PullOutcome::Stored(NodeUpsertStatus::Created));
    t.record(PullOutcome::Stored(NodeUpsertStatus::Duplicate));
    assert!(!t.end_page(true));
    assert!(!t.wants_page(1));
    assert_eq!((t.batches, t.fetched, t.filtered, t.created, t.duplicate), (1, 3, 1, 1, 1));
    assert_eq!(t.fetched, t.filtered + t.created + t.updated + t.duplicate + t.skipped);
    assert!(t.begin_page(0, false));
    assert!(!t.has_more);
    assert!(t.end_page(false));
}

#[test]
fn migration_tally_counts_each_node_once() {
    let dry = MigrationTally::start(10, 4, true);
    assert_eq!(dry.updated, 4);
    let mut t = MigrationTally::start(10, 5, false);
    t.record(MigrationOutcome::NoInput);
    t.record(MigrationOutcome::EmbedFailed("k1: embedding failed: timeout".to_string()));
    t.record(MigrationOutcome::Stored(NodeUpsertStatus::Updated));
    t.record(MigrationOutcome::Stored(NodeUpsertStatus::Duplicate));
    t.record(MigrationOutcome::StoreFailed("store upsert failed: x".to_string()));
    assert_eq!(t.updated + t.skipped + t.failed + t.duplicate, t.selected);
    assert_eq!(t.failure_reasons.len(), 2);
    assert_eq!(migration_limits(0, 0), (1, 1));
    assert_eq!(migration_limits(60_000, 600), (50_000, 500));
}

#[test]
fn migration_candidates_match_every_given_filter() {
    assert!(selected_for_migration(EmbeddingMigrationMode::MissingOnly, false));
    assert!(!selected_for_migration(EmbeddingMigrationMode::MissingOnly, true));
    assert!(selected_for_migration(EmbeddingMigrationMode::ReindexAll, true));
    let keys = vec!["a".to_string(), "b".to_string()];
    assert!(migration_candidate(true, Some("Nomic"), "a", Some(true), Some("nomic"), Some(&keys)));
    assert!(!migration_candidate(true, None, "a", None, Some("nomic"), None));
    assert!(!migration_candidate(false, None, "a", Some(true), None, None));
    assert!(!migration_candidate(false, None, "c", None, None, Some(&keys)));
    assert!(migration_candidate(false, None, "c", None, None, None));
}

#[test]
fn store_failure_messages() {
    let failed = ValidationResult::fail("Node is empty".to_string(), ValidationFailureReason::ParseFailure);
    assert_eq!(validation_failure_message(&failed), "ParseFailure: Node is empty");
    assert_eq!(parse_failure_message(Some("bad")), "ParseFailure: bad");
    assert_eq!(parse_failure_message(None), "ParseFailure: ");
    assert_eq!(ValidationResult::ok().reason.to_string(), "None");
}

#[test]
fn preview_limits_are_clamped() {
    assert_eq!(preview_limits(0, 0), (1, 1));
    assert_eq!(preview_limits(100, 20), (100, 20));
    assert_eq!(preview_limits(60_000, 500), (50_000, 200));
}
