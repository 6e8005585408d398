use sttp_core_rs::requests::{graph_limits, session_group_size};
use sttp_core_rs::services::{
    active_days, chronological_order, find_mood, mood_preset_names, rollup_parent_reference,
    rollup_range_error, rollup_session_token, rollup_source_error,
};
use sttp_core_rs::tallies::NodeUpsertStatus;
use sttp_core_rs::tenant::{display_session_id, resolve_tenant, scope_session_id, session_belongs_to_tenant};
use sttp_core_rs::upsert::{effective_sync_key, plan_upsert, upsert_status, OptionalFields, UpsertAction};

fn fields(parent: bool, metadata: bool, summary: bool) -> OptionalFields {
    OptionalFields {
        parent_node_id: parent,
        source_metadata: metadata,
        context_summary: summary,
        embedding: false,
        embedding_model: false,
        embedding_dimensions: false,
        embedded_at: false,
    }
}

#[test]
fn upsert_plans_follow_the_existing_record() {
    let meta = Some("{\"a\":1}".to_string());
    assert_eq!(plan_upsert(&Some(meta.clone()), &meta, fields(false, true, false)), UpsertAction::Duplicate);
    assert_eq!(plan_upsert(&Some(None), &None, fields(false, false, false)), UpsertAction::Duplicate);
    assert_eq!(
        plan_upsert(&Some(meta.clone()), &None, fields(false, false, false)),
        UpsertAction::UpdateMetadata { clear_source_metadata: true }
    );
    assert_eq!(
        plan_upsert(&Some(None), &meta, fields(false, true, false)),
        UpsertAction::UpdateMetadata { clear_source_metadata: false }
    );
    assert_eq!(
        plan_upsert(&None, &None, fields(true, false, true)),
        UpsertAction::Create { parent: true, source_metadata: false, embedding: true }
    );
    assert_eq!(upsert_status(UpsertAction::Duplicate), NodeUpsertStatus::Duplicate);
    assert_eq!(
        upsert_status(UpsertAction::UpdateMetadata { clear_source_metadata: true }),
        NodeUpsertStatus::Updated
    );
    assert_eq!(
        upsert_status(UpsertAction::Create { parent: false, source_metadata: false, embedding: false }),
        NodeUpsertStatus::Created
    );
    assert_eq!(effective_sync_key("  k ", "canon"), "k");
    assert_eq!(effective_sync_key("  ", "canon"), "canon");
}

#[test]
fn graph_limits_and_sizes() {
    assert_eq!(graph_limits(None, false), (1000, 200));
    assert_eq!(graph_limits(Some(0), true), (1, 1));
    assert_eq!(graph_limits(Some(9000), true), (5000, 5000));
    assert_eq!(session_group_size(0), 16);
    assert_eq!(session_group_size(5), 26);
    assert_eq!(session_group_size(100), 44);
}

#[test]
fn rollup_naming() {
    assert_eq!(rollup_parent_reference(Some("parent-1"), "first-session"), "parent-1");
    assert_eq!(rollup_parent_reference(None, "first-session"), "first-session");
    assert_eq!(rollup_session_token(Some("Sprint 12")), "sprint_12");
    assert_eq!(rollup_session_token(Some("  ")), "all_sessions");
    assert_eq!(rollup_session_token(None), "all_sessions");
}

#[test]
fn resolved_tenants_scope_round_trip() {
    let headers = vec![Some("  ACME ".to_string()), None, None];
    let tenant = resolve_tenant(None, &headers);
    assert_eq!(tenant, "acme");
    let scoped = scope_session_id(&tenant, "s::x");
    assert_eq!(display_session_id(&scoped), "s::x");
    assert!(session_belongs_to_tenant(&scoped, &tenant));
    assert!(!session_belongs_to_tenant(&scoped, "default"));
    assert!(!session_belongs_to_tenant(&scoped, "acm"));
}

#[test]
fn active_days_counts_distinct_utc_days() {
    const DAY: i64 = 86_400_000_000;
    assert_eq!(active_days(&[]), 0);
    assert_eq!(active_days(&[0, DAY - 1, DAY, 3 * DAY + 5, DAY + 7]), 3);
    assert_eq!(active_days(&[-1, 0]), 2);
    assert_eq!(active_days(&[-DAY, -1]), 1);
}

#[test]
fn moods_are_found_by_name_ignoring_ascii_case() {
    assert_eq!(mood_preset_names().len(), 7);
    assert_eq!(find_mood("focused"), Some(0));
    assert_eq!(find_mood("ANALYTICAL"), Some(2));
    assert_eq!(find_mood("Passive"), Some(6));
    assert_eq!(find_mood("bored"), None);
    assert_eq!(find_mood(""), None);
}

#[test]
fn rollup_refuses_backward_ranges_and_empty_sources() {
    assert_eq!(
        rollup_range_error(10, 5),
        Some("InvalidRange: end must be greater than or equal to start.".to_string())
    );
    assert_eq!(rollup_range_error(5, 5), None);
    assert_eq!(
        rollup_source_error(0),
        Some("NoSourceNodes: no nodes found in the requested range.".to_string())
    );
    assert_eq!(rollup_source_error(2), None);
}

#[test]
fn rollup_nodes_are_read_earliest_first_keeping_ties_in_order() {
    assert_eq!(chronological_order(&vec![30, 10, 20, 10]), vec![1, 3, 2, 0]);
    assert!(chronological_order(&Vec::new()).is_empty());
}
