use sttp_core_rs::memory_store::{
    rekey_scopes, CalibrationLog, CheckpointTable, NodeTable, NodeWrite, SyncCursor,
};
use sttp_core_rs::tallies::NodeUpsertStatus;

// 2026-03-05T06:30:00Z and the minutes after it, in microseconds.
const T0: i64 = 1_772_692_200_000_000;
const MINUTE: i64 = 60_000_000;

fn write(session: &str, sync_key: &str, timestamp: i64, raw: &str) -> NodeWrite<String> {
    NodeWrite {
        session_id: session.to_string(),
        sync_key: sync_key.to_string(),
        canonical_sync_key: format!("canonical-{raw}"),
        timestamp,
        node: raw.to_string(),
    }
}

fn changed(table: &NodeTable<String>, w: &NodeWrite<String>) -> bool {
    let key = sttp_core_rs::upsert::effective_sync_key(&w.sync_key, &w.canonical_sync_key);
    match table.find_identity(&w.session_id, &key) {
        Some(i) => table.row(i).node != w.node || table.row(i).timestamp != w.timestamp,
        None => true,
    }
}

fn upsert(table: &mut NodeTable<String>, w: NodeWrite<String>, now: i64) -> sttp_core_rs::memory_store::UpsertReport {
    let c = changed(table, &w);
    table.upsert_at(w, c, now)
}

#[test]
fn duplicate_upsert_does_not_create_extra_rows() {
    let mut store = NodeTable::new();
    let first = upsert(&mut store, write("sync-session", "", T0, "raw"), T0 + MINUTE);
    let second = upsert(&mut store, write("sync-session", "", T0, "raw"), T0 + 2 * MINUTE);

    assert_eq!(first.status, NodeUpsertStatus::Created);
    assert_eq!(second.status, NodeUpsertStatus::Duplicate);
    assert_eq!(second.node_id, first.node_id);
    assert_eq!(second.updated_at, T0 + MINUTE);

    let nodes = store.query(Some("sync-session"), None, None, 10);
    assert_eq!(nodes.len(), 1);
}

#[test]
fn change_query_returns_incremental_cursor() {
    let mut store = NodeTable::new();
    let first = upsert(&mut store, write("sync-session", "sync-a", T0, "raw"), T0 + MINUTE);
    let second = upsert(&mut store, write("sync-session", "sync-b", T0 + 2 * MINUTE, "raw-b"), T0 + 3 * MINUTE);

    let result = store.changes_since(
        "sync-session",
        Some(SyncCursor { updated_at: first.updated_at, sync_key: first.sync_key.clone() }),
        10,
    );

    assert_eq!(result.positions.len(), 1);
    assert_eq!(store.row(result.positions[0]).sync_key, second.sync_key);
    assert!(!result.has_more);
}

#[test]
fn checkpoints_replace_existing_connector_state() {
    let mut store: CheckpointTable<(Option<SyncCursor>, &str, &str)> = CheckpointTable::new();
    store.put(
        "sync-session".to_string(),
        "cloud-primary".to_string(),
        (Some(SyncCursor { updated_at: T0 + 5 * MINUTE, sync_key: "sync-a".to_string() }), "local", "1"),
    );
    store.put(
        "sync-session".to_string(),
        "cloud-primary".to_string(),
        (Some(SyncCursor { updated_at: T0 + 10 * MINUTE, sync_key: "sync-b".to_string() }), "cloud", "2"),
    );

    let checkpoint = store.get("sync-session", "cloud-primary").expect("checkpoint should exist");
    assert_eq!(checkpoint.0.as_ref().map(|cursor| cursor.sync_key.as_str()), Some("sync-b"));
    assert_eq!(checkpoint.1, "cloud");
    assert_eq!(checkpoint.2, "2");
    assert!(store.get("sync-session", "other").is_none());
}

#[test]
fn upsert_updates_changed_content_in_place() {
    let mut store = NodeTable::new();
    let first = upsert(&mut store, write("s", "  key  ", T0, "one"), T0);
    assert_eq!(first.sync_key, "key");
    let second = upsert(&mut store, write("s", "key", T0, "two"), T0 + MINUTE);
    assert_eq!(second.status, NodeUpsertStatus::Updated);
    assert_eq!(second.node_id, first.node_id);
    assert_eq!(second.updated_at, T0 + MINUTE);
    assert_eq!(store.len(), 1);
    assert_eq!(store.row(0).node, "two");
    assert_eq!(store.row(0).updated_at, T0 + MINUTE);
}

#[test]
fn upsert_uses_canonical_key_for_blank_sync_key() {
    let mut store = NodeTable::new();
    let report = upsert(&mut store, write("s", "   ", T0, "body"), T0);
    assert_eq!(report.sync_key, "canonical-body");
    assert_eq!(report.node_id.len(), 36);
    let other = upsert(&mut store, write("t", "   ", T0, "body"), T0);
    assert_eq!(other.status, NodeUpsertStatus::Created);
    assert_ne!(other.node_id, report.node_id);
    assert_eq!(store.len(), 2);
}

#[test]
fn change_feed_pages_every_change_once() {
    let mut store = NodeTable::new();
    upsert(&mut store, write("s", "c", T0, "1"), T0 + 2 * MINUTE);
    upsert(&mut store, write("s", "a", T0, "2"), T0 + MINUTE);
    upsert(&mut store, write("other", "x", T0, "3"), T0);
    upsert(&mut store, write("s", "b", T0, "4"), T0 + 2 * MINUTE);
    upsert(&mut store, write("s", "d", T0, "5"), T0 + 3 * MINUTE);

    let first = store.changes_since("s", None, 2);
    let keys: Vec<&str> = first.positions.iter().map(|&p| store.row(p).sync_key.as_str()).collect();
    assert_eq!(keys, vec!["a", "b"]);
    assert!(first.has_more);
    let cursor = first.next_cursor.expect("page has a cursor");
    assert_eq!(cursor.updated_at, T0 + 2 * MINUTE);
    assert_eq!(cursor.sync_key, "b");

    let second = store.changes_since("s", Some(cursor), 2);
    let keys: Vec<&str> = second.positions.iter().map(|&p| store.row(p).sync_key.as_str()).collect();
    assert_eq!(keys, vec!["c", "d"]);
    assert!(!second.has_more);

    let third = store.changes_since("s", second.next_cursor, 2);
    assert!(third.positions.is_empty());
    assert!(third.next_cursor.is_none());
    assert!(!third.has_more);

    let zero = store.changes_since("s", None, 0);
    assert_eq!(zero.positions.len(), 1);
    assert!(zero.has_more);
}

#[test]
fn query_returns_newest_first_within_window() {
    let mut store = NodeTable::new();
    upsert(&mut store, write("s", "a", T0 + MINUTE, "1"), T0);
    upsert(&mut store, write("s", "b", T0 + 3 * MINUTE, "2"), T0);
    upsert(&mut store, write("t", "c", T0 + 2 * MINUTE, "3"), T0);
    upsert(&mut store, write("s", "d", T0 + 3 * MINUTE, "4"), T0);

    assert_eq!(store.query(None, None, None, 10), vec![1, 3, 2, 0]);
    assert_eq!(store.query(Some("s"), None, None, 10), vec![1, 3, 0]);
    assert_eq!(store.query(None, Some(T0 + 2 * MINUTE), Some(T0 + 2 * MINUTE), 10), vec![2]);
    assert_eq!(store.query(None, None, None, 2), vec![1, 3]);
    assert_eq!(store.query(None, None, None, 0), vec![1]);
    assert_eq!(store.list(0, Some("s")), vec![1]);
    assert_eq!(store.list(1000, None).len(), 4);
}

#[test]
fn calibrations_keep_latest_and_trigger_history() {
    let mut log = CalibrationLog::new();
    assert!(log.last_for("s").is_none());
    log.store("s".to_string(), 1u32, "manual".to_string());
    log.store("t".to_string(), 2u32, "auto".to_string());
    log.store("s".to_string(), 3u32, "drift".to_string());
    assert_eq!(log.last_for("s"), Some(&3));
    assert_eq!(log.last_for("t"), Some(&2));
    assert_eq!(log.triggers_for("s"), vec!["manual".to_string(), "drift".to_string()]);
    assert_eq!(log.count_session("s"), 2);
}

fn rekey_fixture() -> (NodeTable<String>, CalibrationLog<u32>, String) {
    let source = "tenant:acme::session:source-session";
    let mut nodes = NodeTable::new();
    let mut node_id = String::new();
    for (i, key) in ["a", "b", "c"].iter().enumerate() {
        let r = upsert(&mut nodes, write(source, key, T0 + i as i64, key), T0);
        if i == 0 {
            node_id = r.node_id;
        }
    }
    upsert(&mut nodes, write("elsewhere", "z", T0, "z"), T0);
    let mut calibrations = CalibrationLog::new();
    calibrations.store(source.to_string(), 1, "manual".to_string());
    calibrations.store(source.to_string(), 2, "manual".to_string());
    calibrations.store("elsewhere".to_string(), 3, "manual".to_string());
    (nodes, calibrations, node_id)
}

#[test]
fn memory_rekey_dry_run_reports_scope_counts() {
    let (mut nodes, mut calibrations, node_id) = rekey_fixture();
    let result = rekey_scopes(
        &mut nodes,
        &mut calibrations,
        &[node_id.clone(), "temporal_node:missing".to_string(), "other:x".to_string()],
        "acme",
        "tenant:acme::session:target-session",
        true,
        false,
    )
    .expect("dry-run rekey should succeed");

    assert!(result.dry_run);
    assert_eq!(result.requested_node_ids, 2);
    assert_eq!(result.resolved_node_ids, 1);
    assert_eq!(result.missing_node_ids, vec!["missing".to_string()]);
    assert_eq!(result.scopes.len(), 1);
    assert_eq!(result.scopes[0].source_tenant_id, "acme");
    assert_eq!(result.scopes[0].temporal_nodes, 3);
    assert_eq!(result.scopes[0].calibrations, 2);
    assert!(!result.scopes[0].applied);
    assert_eq!(result.temporal_nodes_updated, 0);
    assert_eq!(nodes.count_session("tenant:acme::session:source-session"), 3);
}

#[test]
fn memory_rekey_apply_updates_both_tables() {
    let (mut nodes, mut calibrations, node_id) = rekey_fixture();
    let result = rekey_scopes(
        &mut nodes,
        &mut calibrations,
        &[format!("temporal_node:{node_id}")],
        "acme",
        "tenant:acme::session:target-session",
        false,
        false,
    )
    .expect("apply rekey should succeed");

    assert!(!result.dry_run);
    assert_eq!(result.temporal_nodes_updated, 3);
    assert_eq!(result.calibrations_updated, 2);
    assert!(result.scopes[0].applied);
    assert!(!result.scopes[0].conflict);
    assert_eq!(nodes.count_session("tenant:acme::session:source-session"), 0);
    assert_eq!(nodes.count_session("tenant:acme::session:target-session"), 3);
    assert_eq!(calibrations.count_session("tenant:acme::session:target-session"), 2);
    assert_eq!(nodes.count_session("elsewhere"), 1);
}

#[test]
fn memory_rekey_conflicts_without_merge() {
    let (mut nodes, mut calibrations, node_id) = rekey_fixture();
    let result = rekey_scopes(&mut nodes, &mut calibrations, &[node_id.clone()], "", "elsewhere", false, false)
        .expect("rekey should succeed");
    assert!(result.scopes[0].conflict);
    assert!(!result.scopes[0].applied);
    assert_eq!(result.scopes[0].target_tenant_id, "default");
    assert_eq!(result.scopes[0].target_temporal_nodes, 1);
    assert_eq!(result.scopes[0].target_calibrations, 1);
    assert_eq!(nodes.count_session("elsewhere"), 1);

    let merged = rekey_scopes(&mut nodes, &mut calibrations, &[node_id], "", "elsewhere", false, true)
        .expect("merge should succeed");
    assert!(merged.scopes[0].applied);
    assert_eq!(nodes.count_session("elsewhere"), 4);
    assert_eq!(calibrations.count_session("elsewhere"), 3);
}

#[test]
fn memory_rekey_rejects_invalid_requests() {
    let (mut nodes, mut calibrations, node_id) = rekey_fixture();
    assert_eq!(
        rekey_scopes(&mut nodes, &mut calibrations, &[], "acme", "t", false, false).unwrap_err(),
        "at least one node id is required"
    );
    assert_eq!(
        rekey_scopes(&mut nodes, &mut calibrations, &[node_id], "acme", "  ", false, false).unwrap_err(),
        "target session id cannot be empty"
    );
    assert_eq!(
        rekey_scopes(&mut nodes, &mut calibrations, &["x:y".to_string()], "acme", "t", false, false).unwrap_err(),
        "no valid node ids were provided"
    );
}

#[test]
fn pulled_rows_written_at_their_time_are_not_local_changes() {
    let mut store = NodeTable::new();
    let remote_time = T0 + 11 * MINUTE;
    let report = upsert(&mut store, write("sync-session", "sync-a", T0, "remote"), remote_time);
    let cursor = SyncCursor { updated_at: remote_time, sync_key: "sync-a".to_string() };
    let changes = store.changes_since("sync-session", Some(cursor), 50);
    assert_eq!(report.updated_at, remote_time);
    assert!(changes.positions.is_empty());
    assert!(!changes.has_more);
}

#[test]
fn upsert_with_the_clock_reports_the_row_write_time() {
    let mut store = NodeTable::new();
    let report = store.upsert(write("s", "k", T0, "x"), true);
    assert_eq!(report.status, NodeUpsertStatus::Created);
    assert_eq!(store.row(0).updated_at, report.updated_at);
    assert!(report.updated_at > 0);
}

#[test]
fn created_rows_get_a_hyphenated_uuid_id() {
    let mut store = NodeTable::new();
    let report = upsert(&mut store, write("s", "k", T0, "raw"), T0);
    assert_eq!(report.status, NodeUpsertStatus::Created);
    assert_eq!(report.node_id.len(), 36);
    assert_eq!(report.node_id.matches('-').count(), 4);
}
