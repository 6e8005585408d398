use sttp_core_rs::raw_queries::{
    create_temporal_node_query, node_query_where, query_changes_since_query, query_nodes_query,
    update_record_tenant_query, update_temporal_node_legacy_sync_query,
    update_temporal_node_query, update_temporal_node_sync_metadata_query,
    upsert_sync_checkpoint_query,
};
use sttp_core_rs::rekey::{
    check_rename_source, decide_scope, finish_rekey, plan_rename, prepare_rekey, rename_outcome, sorted_distinct_ids,
    sorted_scopes, source_not_found_message, unique_scopes, RenamePlan,
};
use sttp_core_rs::settings::{
    embedded_path, signin_plan, EmbeddedPath, SigninPlan,
    parse_cors_allowed_origins, root_directory_name, uses_remote, CorsOrigins, SurrealDbSettings,
};
use sttp_core_rs::store_keys::{
    checkpoint_record_id, derive_tenant_id_from_session, includes_legacy_tenant_bucket,
    normalize_legacy_sync_key, normalize_record_id, normalize_temporal_node_id, normalize_tenant_id,
    RawRecordId, RecordComponent,
};

#[test]
fn create_temporal_node_query_uses_none_for_missing_embedded_at() {
    let query = create_temporal_node_query(
        "abc123", false, false, true, true, false, false, false, false,
    );

    assert!(query.contains("embedded_at = NONE"));
    assert!(!query.contains("embedded_at = <datetime>$embedded_at"));
    assert!(query.contains("embedding = NONE"));
    assert!(query.contains("embedding_model = NONE"));
    assert!(query.contains("embedding_dimensions = NONE"));
}

#[test]
fn create_temporal_node_query_uses_datetime_cast_when_embedded_at_present() {
    let query =
        create_temporal_node_query("abc123", false, false, true, true, true, true, true, true);

    assert!(query.contains("embedded_at = <datetime>$embedded_at"));
}

#[test]
fn create_query_places_record_id_and_optional_assignments() {
    let query = create_temporal_node_query("n1", true, true, false, false, false, false, false, false);
    assert!(query.contains("CREATE temporal_node:`n1` SET"));
    assert!(query.contains("compression_depth = $compression_depth,\n                parent_node_id = $parent_node_id,\n                sync_key = $sync_key,"));
    assert!(query.contains("source_metadata = $source_metadata,"));
    assert!(query.contains("context_summary = NONE,"));
    let bare = create_temporal_node_query("n1", false, false, false, false, false, false, false, false);
    assert!(!bare.contains("parent_node_id"));
    assert!(!bare.contains("source_metadata"));
}

#[test]
fn update_query_clears_what_is_not_given() {
    let query = update_temporal_node_query("n2", false, false, true, false, true, false, true, false);
    assert!(query.contains("UPDATE temporal_node:`n2` SET"));
    assert!(query.contains("parent_node_id = NONE,"));
    assert!(query.contains("source_metadata = NONE,"));
    assert!(query.contains("context_summary = NONE,"));
    assert!(query.contains("embedding = $embedding,"));
    assert!(query.contains("embedding_model = NONE,"));
    assert!(query.contains("embedding_dimensions = $embedding_dimensions,"));
    assert!(query.ends_with("comp_psi = $comp_psi;\n            "));
}

#[test]
fn query_builders_fill_their_templates() {
    let q = query_nodes_query("WHERE session_id = $session_id", 25);
    assert!(q.contains("FROM temporal_node\n            WHERE session_id = $session_id\n            ORDER BY Timestamp DESC\n            LIMIT 25;"));
    assert!(query_changes_since_query(7).contains("LIMIT 7;"));
    assert!(update_temporal_node_legacy_sync_query("x").contains("UPDATE temporal_node:`x` SET"));
    assert!(update_temporal_node_sync_metadata_query("x", true).contains("source_metadata = NONE,"));
    assert!(update_temporal_node_sync_metadata_query("x", false).contains("source_metadata = $source_metadata,"));
    let up = upsert_sync_checkpoint_query("ck", false);
    assert!(up.contains("UPSERT sync_checkpoint:`ck` SET"));
    assert!(up.contains("metadata = NONE,"));
    assert!(upsert_sync_checkpoint_query("ck", true).contains("metadata = $metadata,"));
    assert_eq!(
        update_record_tenant_query("calibration:c1"),
        "\n            UPDATE calibration:c1\n            SET tenant_id = $tenant_id;\n            "
    );
}

#[test]
fn tenant_ids_are_derived_and_normalized() {
    assert_eq!(derive_tenant_id_from_session("tenant:acme::session:alpha"), "acme");
    assert_eq!(derive_tenant_id_from_session("tenant: ::session:alpha"), "default");
    assert_eq!(derive_tenant_id_from_session("legacy-session"), "default");
    assert_eq!(normalize_tenant_id(Some("  acme ")), "acme");
    assert_eq!(normalize_tenant_id(Some("   ")), "default");
    assert_eq!(normalize_tenant_id(None), "default");
    assert!(includes_legacy_tenant_bucket("default"));
    assert!(!includes_legacy_tenant_bucket("acme"));
}

#[test]
fn node_ids_and_sync_keys_are_normalized() {
    assert_eq!(normalize_temporal_node_id(" temporal_node:abc "), Some("abc".to_string()));
    assert_eq!(normalize_temporal_node_id("abc"), Some("abc".to_string()));
    assert_eq!(normalize_temporal_node_id("calibration:abc"), None);
    assert_eq!(normalize_temporal_node_id("temporal_node:  "), None);
    assert_eq!(normalize_temporal_node_id("  "), None);
    assert_eq!(normalize_legacy_sync_key(Some(" k1 "), "n"), "k1");
    assert_eq!(normalize_legacy_sync_key(Some(" "), "n"), "legacy:n");
    assert_eq!(normalize_legacy_sync_key(None, "legacy_sync"), "legacy:legacy_sync");
}

#[test]
fn checkpoint_record_id_is_the_hex_digest_of_the_framed_key() {
    let id = checkpoint_record_id("default", "sync-session", "cloud-primary");
    assert_eq!(id.len(), 64);
    assert!(id.chars().all(|c| c.is_ascii_hexdigit() && !c.is_ascii_uppercase()));
    assert_ne!(id, checkpoint_record_id("default", "sync-session", "cloud-secondary"));
    assert_ne!(
        checkpoint_record_id("a", "bc", "d"),
        checkpoint_record_id("ab", "c", "d")
    );
    assert_eq!(
        checkpoint_record_id("", "", ""),
        "96a296d224f285c67bee93c30f8a309157f0daa35dc5b87e410b78630a09cfc7"
    );
}

#[test]
fn endpoint_prefers_remote_only_in_remote_mode() {
    let mut settings = SurrealDbSettings::default();
    assert_eq!(settings.endpoint(false), Ok("surrealkv://data/sttp-mcp".to_string()));
    assert_eq!(settings.endpoint(true), Ok("surrealkv://data/sttp-mcp".to_string()));
    settings.endpoints.remote = Some("ws://127.0.0.1:8000/rpc".to_string());
    assert_eq!(settings.endpoint(true), Ok("ws://127.0.0.1:8000/rpc".to_string()));
    assert_eq!(settings.endpoint(false), Ok("surrealkv://data/sttp-mcp".to_string()));
    settings.endpoints.embedded = Some("  ".to_string());
    assert_eq!(
        settings.endpoint(false),
        Err("No SurrealDB endpoint configured for mode embedded. Set SurrealDb Endpoints.".to_string())
    );
    settings.endpoints.remote = None;
    assert_eq!(
        settings.endpoint(true),
        Err("No SurrealDB endpoint configured for mode remote. Set SurrealDb Endpoints.".to_string())
    );
    assert_eq!(settings.namespace, "keryx");
    assert_eq!(settings.database, "sttp-mcp");
}

#[test]
fn runtime_arguments_select_remote_and_root_directory() {
    let args = vec!["sttp".to_string(), "--REMOTE".to_string()];
    assert!(uses_remote(&args));
    assert!(!uses_remote(&["--remote-endpoint".to_string()]));
    assert_eq!(root_directory_name(None), ".sttp-mcp");
    assert_eq!(root_directory_name(Some("  ")), ".sttp-mcp");
    assert_eq!(root_directory_name(Some(" .sttp-gateway ")), ".sttp-gateway");
}

#[test]
fn cors_origins_are_split_and_checked() {
    assert!(matches!(parse_cors_allowed_origins(" * "), Ok(CorsOrigins::Any)));
    match parse_cors_allowed_origins("http://a.test, ,https://b.test ") {
        Ok(CorsOrigins::Explicit(v)) => assert_eq!(v, vec!["http://a.test".to_string(), "https://b.test".to_string()]),
        _ => panic!("explicit origins expected"),
    }
    assert_eq!(
        parse_cors_allowed_origins("   ").err(),
        Some("CORS allowed origins cannot be empty when CORS is enabled".to_string())
    );
    assert_eq!(
        parse_cors_allowed_origins(" , ,").err(),
        Some("CORS allowed origins must include at least one origin or '*'".to_string())
    );
}

#[test]
fn rekey_requests_are_validated() {
    assert_eq!(prepare_rekey(&[], "acme", "s").err(), Some("at least one node id is required".to_string()));
    assert_eq!(
        prepare_rekey(&["abc123".to_string()], "acme", "  ").err(),
        Some("target session id cannot be empty".to_string())
    );
    assert_eq!(
        prepare_rekey(&["calibration:x".to_string(), " ".to_string()], "acme", "s").err(),
        Some("no valid node ids were provided".to_string())
    );
    let target = prepare_rekey(
        &["temporal_node:abc123".to_string(), "other:x".to_string(), "def".to_string()],
        "  ",
        "tenant:acme::session:target-session",
    )
    .expect("request should validate");
    assert_eq!(target.tenant_id, "default");
    assert_eq!(target.node_ids, vec!["abc123".to_string(), "def".to_string()]);
}

#[test]
fn rekey_scope_decisions() {
    let same = decide_scope("acme", "s", "acme", "s", 3, 1, 9, 9, false, false);
    assert!(!same.applied && !same.conflict);
    assert_eq!(same.target_temporal_nodes, 0);
    assert_eq!(same.message.as_deref(), Some("source and target scopes are identical"));

    let conflict = decide_scope("acme", "a", "acme", "b", 3, 1, 2, 0, false, false);
    assert!(conflict.conflict && !conflict.applied);
    assert_eq!(
        conflict.message.as_deref(),
        Some("target scope already contains rows; set allow_merge=true to override")
    );

    let merged = decide_scope("acme", "a", "acme", "b", 3, 1, 2, 0, true, false);
    assert!(merged.applied && !merged.conflict && merged.message.is_none());

    let dry = decide_scope("acme", "a", "acme", "b", 3, 1, 0, 0, false, true);
    assert!(!dry.applied && !dry.conflict);

    let result = finish_rekey(false, 3, vec!["missing".to_string()], vec![merged, dry, same, conflict]);
    assert_eq!(result.resolved_node_ids, 2);
    assert_eq!(result.temporal_nodes_updated, 3);
    assert_eq!(result.calibrations_updated, 1);
}

#[test]
fn dry_run_moves_nothing() {
    let a = decide_scope("acme", "a", "acme", "t", 4, 2, 0, 0, false, true);
    let b = decide_scope("default", "b", "acme", "t", 5, 0, 0, 0, true, true);
    let result = finish_rekey(true, 2, vec![], vec![a, b]);
    assert!(result.scopes.iter().all(|s| !s.applied));
    assert_eq!(result.temporal_nodes_updated, 0);
    assert_eq!(result.calibrations_updated, 0);
}

#[test]
fn scopes_are_collected_once_in_order() {
    let pairs = vec![
        ("acme".to_string(), "s1".to_string()),
        ("default".to_string(), "s2".to_string()),
        ("acme".to_string(), "s1".to_string()),
        ("acme".to_string(), "s2".to_string()),
    ];
    let scopes = unique_scopes(&pairs);
    assert_eq!(
        scopes,
        vec![
            ("acme".to_string(), "s1".to_string()),
            ("default".to_string(), "s2".to_string()),
            ("acme".to_string(), "s2".to_string()),
        ]
    );
}

#[test]
fn rename_plans_follow_the_request() {
    match plan_rename("acme", "  ", "target") {
        RenamePlan::Refused(message) => assert_eq!(message, "sourceSessionId and targetSessionId are required"),
        other => panic!("unexpected plan {other:?}"),
    }
    match plan_rename("acme", " same ", "same") {
        RenamePlan::Unchanged { source, target } => {
            assert_eq!(source, "same");
            assert_eq!(target, "same");
        }
        other => panic!("unexpected plan {other:?}"),
    }
    match plan_rename("acme", "old", " new ") {
        RenamePlan::Move { source, target, scoped_source, scoped_target } => {
            assert_eq!(source, "old");
            assert_eq!(target, "new");
            assert_eq!(scoped_source, "tenant:acme::session:old");
            assert_eq!(scoped_target, "tenant:acme::session:new");
        }
        other => panic!("unexpected plan {other:?}"),
    }
    match plan_rename("default", "old", "new") {
        RenamePlan::Move { scoped_source, scoped_target, .. } => {
            assert_eq!(scoped_source, "old");
            assert_eq!(scoped_target, "new");
        }
        other => panic!("unexpected plan {other:?}"),
    }
    assert_eq!(source_not_found_message("old"), "source session not found: old");
}

#[test]
fn rename_outcome_reports_conflicts_or_applied_scopes() {
    let applied = decide_scope("acme", "a", "acme", "t", 2, 0, 0, 0, false, false);
    let same = decide_scope("acme", "t", "acme", "t", 1, 0, 0, 0, false, false);
    let ok = finish_rekey(false, 2, Vec::new(), vec![applied.clone(), same]);
    assert_eq!(rename_outcome(&ok), Ok(1));

    let conflict = decide_scope("acme", "b", "acme", "t", 1, 0, 3, 0, false, false);
    let refused = finish_rekey(false, 2, Vec::new(), vec![applied, conflict]);
    assert_eq!(
        rename_outcome(&refused),
        Err("target scope already contains rows; set allow_merge=true to override".to_string())
    );
}

#[test]
fn anchor_ids_are_sorted_and_distinct() {
    let ids = vec!["b".to_string(), "a".to_string(), "b".to_string(), "ab".to_string(), "a".to_string()];
    assert_eq!(sorted_distinct_ids(&ids), vec!["a".to_string(), "ab".to_string(), "b".to_string()]);
    assert!(sorted_distinct_ids(&Vec::new()).is_empty());
}

#[test]
fn embedded_endpoint_paths_are_classified() {
    assert!(matches!(embedded_path("surrealkv://data/sttp-mcp", true), EmbeddedPath::Unchanged));
    assert!(matches!(embedded_path("ws://127.0.0.1:8000/rpc", false), EmbeddedPath::Unchanged));
    match embedded_path("surrealkv://data/sttp-mcp", false) {
        EmbeddedPath::UnderRoot(path) => assert_eq!(path, "data/sttp-mcp"),
        _ => panic!("expected a path under the root"),
    }
    match embedded_path("surrealkv:///var/lib/store", false) {
        EmbeddedPath::Absolute(path) => assert_eq!(path, "/var/lib/store"),
        _ => panic!("expected an absolute path"),
    }
    match embedded_path("surrealkv://surrealkv://x", false) {
        EmbeddedPath::UnderRoot(path) => assert_eq!(path, "x"),
        _ => panic!("expected a path under the root"),
    }
}

#[test]
fn signin_defaults_to_root_only_in_remote_mode() {
    match signin_plan(true, None, Some("  ")) {
        SigninPlan::Required { user, password } => {
            assert_eq!(user, "root");
            assert_eq!(password, "root");
        }
        _ => panic!("remote mode always signs in"),
    }
    match signin_plan(true, Some("admin"), Some("secret")) {
        SigninPlan::Required { user, password } => {
            assert_eq!(user, "admin");
            assert_eq!(password, "secret");
        }
        _ => panic!("remote mode always signs in"),
    }
    match signin_plan(false, Some(" admin "), Some("secret")) {
        SigninPlan::Attempt { user, password } => {
            assert_eq!(user, " admin ");
            assert_eq!(password, "secret");
        }
        _ => panic!("both credentials given"),
    }
    assert!(matches!(signin_plan(false, Some("admin"), None), SigninPlan::Skip));
    assert!(matches!(signin_plan(false, Some(""), Some("secret")), SigninPlan::Skip));
}

#[test]
fn record_ids_are_read_from_strings_and_objects() {
    assert_eq!(
        normalize_record_id(&RawRecordId::Text("temporal_node:abc".to_string()), "temporal_node"),
        Some("temporal_node:abc".to_string())
    );
    assert_eq!(normalize_record_id(&RawRecordId::Text("   ".to_string()), "temporal_node"), None);
    assert_eq!(
        normalize_record_id(
            &RawRecordId::Object { tb: None, id: Some(RecordComponent::Text("abc".to_string())) },
            "temporal_node"
        ),
        Some("temporal_node:abc".to_string())
    );
    assert_eq!(
        normalize_record_id(
            &RawRecordId::Object {
                tb: Some(RecordComponent::Text("calibration".to_string())),
                id: Some(RecordComponent::Number("42".to_string())),
            },
            "temporal_node"
        ),
        Some("calibration:42".to_string())
    );
    assert_eq!(
        normalize_record_id(
            &RawRecordId::Object { tb: Some(RecordComponent::Other), id: Some(RecordComponent::Bool(true)) },
            "t"
        ),
        Some("t:true".to_string())
    );
    assert_eq!(
        normalize_record_id(&RawRecordId::Object { tb: None, id: Some(RecordComponent::Other) }, "t"),
        None
    );
    assert_eq!(normalize_record_id(&RawRecordId::Other, "t"), None);
}

#[test]
fn node_query_filters_are_joined_in_order() {
    assert_eq!(node_query_where(false, false, false), "");
    assert_eq!(node_query_where(false, true, false), "WHERE timestamp >= <datetime>$from_utc");
    assert_eq!(
        node_query_where(true, false, true),
        "WHERE (tenant_id = $tenant_id OR tenant_id = NONE OR tenant_id = '') AND session_id = $session_id AND timestamp <= <datetime>$to_utc"
    );
    assert_eq!(
        node_query_where(false, true, true),
        "WHERE timestamp >= <datetime>$from_utc AND timestamp <= <datetime>$to_utc"
    );
}

#[test]
fn scopes_are_sorted_by_tenant_then_session_once_each() {
    let pairs = vec![
        ("default".to_string(), "s2".to_string()),
        ("acme".to_string(), "s9".to_string()),
        ("default".to_string(), "s1".to_string()),
        ("default".to_string(), "s2".to_string()),
        ("acme".to_string(), "s10".to_string()),
    ];
    assert_eq!(
        sorted_scopes(&pairs),
        vec![
            ("acme".to_string(), "s10".to_string()),
            ("acme".to_string(), "s9".to_string()),
            ("default".to_string(), "s1".to_string()),
            ("default".to_string(), "s2".to_string()),
        ]
    );
    assert!(sorted_scopes(&Vec::new()).is_empty());
}

#[test]
fn node_update_is_node_creation_with_the_update_verb() {
    for flags in 0u32..64 {
        let f = |i: u32| flags & (1 << i) != 0;
        let create = create_temporal_node_query("abc123", true, true, f(0), f(1), f(2), f(3), f(4), f(5));
        let update = update_temporal_node_query("abc123", true, true, f(0), f(1), f(2), f(3), f(4), f(5));
        assert_eq!(update, create.replacen("CREATE temporal_node:", "UPDATE temporal_node:", 1));
    }
    for (parent, source) in [(false, false), (false, true), (true, false), (true, true)] {
        let update = update_temporal_node_query("abc123", parent, source, false, false, false, false, false, false);
        let create = create_temporal_node_query("abc123", parent, source, false, false, false, false, false, false);
        assert_eq!(update.contains("parent_node_id = NONE,"), !parent);
        assert_eq!(update.contains("source_metadata = NONE,"), !source);
        assert!(!create.contains("parent_node_id = NONE,"));
        assert_eq!(create.contains("parent_node_id = $parent_node_id,"), parent);
    }
}

#[test]
fn rename_is_refused_when_the_source_holds_no_nodes() {
    assert_eq!(check_rename_source("alpha", 0), Err("source session not found: alpha".to_string()));
    assert_eq!(check_rename_source("alpha", 3), Ok(()));
}
