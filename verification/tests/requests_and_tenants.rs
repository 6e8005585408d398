use sttp_core_rs::requests::{
    arg_value, build_embedding_input, clamp_usize_to_i32, context_keyword_score,
    default_batch_size_migration, default_limit_get_context, default_limit_list_nodes,
    default_max_nodes_migration, default_sample_limit_preview_migration, default_true,
    filter_nodes_by_context_keywords, KeywordNode,
    expanded_limit, flag_value, is_read_query, mode_to_string, normalize_context_keywords,
    normalize_model_filter, normalize_request_tiers, normalize_sync_keys, normalize_tiers,
    parse_migration_mode, push_failure_reason, validate_batch_size, validate_limit,
    validate_max_nodes, EmbeddingMigrationMode, EmbeddingsProviderKind,
};
use sttp_core_rs::services::slug;
use sttp_core_rs::tenant::{
    display_session_id, is_default_tenant, normalize_tenant_value, parse_scoped_session_id,
    resolve_tenant, scope_session_id, session_belongs_to_tenant,
};

#[test]
fn tenant_scoping_is_applied_only_for_non_default_tenant() {
    let scoped = scope_session_id("acme", "session-1");
    assert_eq!(scoped, "tenant:acme::session:session-1");
    assert!(session_belongs_to_tenant(&scoped, "acme"));
    assert!(!session_belongs_to_tenant(&scoped, "default"));
    assert_eq!(display_session_id(&scoped), "session-1");

    let legacy = scope_session_id("default", "session-1");
    assert_eq!(legacy, "session-1");
    assert!(session_belongs_to_tenant(&legacy, "default"));
}

#[test]
fn scoped_ids_round_trip_and_isolate_tenants() {
    let scoped = scope_session_id("team_7", "a::b");
    assert_eq!(parse_scoped_session_id(&scoped), Some(("team_7", "a::b")));
    assert_eq!(display_session_id(&scoped), "a::b");
    assert!(session_belongs_to_tenant(&scoped, "team_7"));
    assert!(!session_belongs_to_tenant(&scoped, "team_8"));
    assert_eq!(parse_scoped_session_id("tenant:acme"), None);
    assert_eq!(parse_scoped_session_id("plain"), None);
    assert_eq!(
        parse_scoped_session_id("tenant:a::session:b::session:c"),
        Some(("a", "b::session:c"))
    );
    assert!(is_default_tenant("default"));
    assert!(!is_default_tenant("Default"));
}

#[test]
fn tenant_values_are_normalized_and_resolved() {
    assert_eq!(normalize_tenant_value("  Acme-Corp_1 "), Some("acme-corp_1".to_string()));
    assert_eq!(normalize_tenant_value("   "), None);
    assert_eq!(normalize_tenant_value("acme corp"), None);
    assert_eq!(normalize_tenant_value("acme:x"), None);
    let headers = vec![None, Some("bad value".to_string()), Some("Team".to_string())];
    assert_eq!(resolve_tenant(Some("  "), &headers), "team");
    assert_eq!(resolve_tenant(Some("Explicit"), &headers), "explicit");
    assert_eq!(resolve_tenant(None, &vec![None, None, None]), "default");
}

#[test]
fn limits_are_checked() {
    assert_eq!(validate_limit(1, "limit"), Ok(1));
    assert_eq!(validate_limit(200, "limit"), Ok(200));
    assert_eq!(validate_limit(0, "limit"), Err("limit must be between 1 and 200".to_string()));
    assert_eq!(validate_limit(201, "sample_limit"), Err("sample_limit must be between 1 and 200".to_string()));
    assert_eq!(validate_batch_size(500), Ok(500));
    assert_eq!(validate_batch_size(501), Err("batch_size must be between 1 and 500".to_string()));
    assert_eq!(validate_max_nodes(50000), Ok(50000));
    assert_eq!(validate_max_nodes(0), Err("max_nodes must be between 1 and 50000".to_string()));
    assert_eq!(expanded_limit(0), 1);
    assert_eq!(expanded_limit(3), 15);
    assert_eq!(expanded_limit(40), 200);
    assert_eq!(expanded_limit(usize::MAX), 200);
    assert_eq!(clamp_usize_to_i32(12), 12);
    assert_eq!(clamp_usize_to_i32(usize::MAX), i32::MAX);
}

#[test]
fn migration_modes_round_trip() {
    assert_eq!(parse_migration_mode(None), Ok(EmbeddingMigrationMode::MissingOnly));
    assert_eq!(parse_migration_mode(Some(" REINDEX_ALL ")), Ok(EmbeddingMigrationMode::ReindexAll));
    assert_eq!(
        parse_migration_mode(Some("everything")),
        Err("mode must be one of: missing_only, reindex_all".to_string())
    );
    for mode in [EmbeddingMigrationMode::MissingOnly, EmbeddingMigrationMode::ReindexAll] {
        assert_eq!(parse_migration_mode(Some(mode_to_string(mode))), Ok(mode));
    }
    assert_eq!(EmbeddingsProviderKind::parse(" Ollama "), Some(EmbeddingsProviderKind::Ollama));
    assert_eq!(EmbeddingsProviderKind::parse("candle"), None);
}

#[test]
fn term_filters_are_folded() {
    let tiers = vec![" Raw ".to_string(), "".to_string(), "WEEKLY".to_string()];
    assert_eq!(normalize_tiers(&tiers), vec!["raw".to_string(), "weekly".to_string()]);
    assert_eq!(normalize_request_tiers(Some(&tiers)), Some(vec!["raw".to_string(), "weekly".to_string()]));
    assert_eq!(normalize_request_tiers(Some(&[" ".to_string()])), None);
    assert_eq!(normalize_request_tiers(None), None);
    assert_eq!(normalize_context_keywords(None), Vec::<String>::new());
    assert_eq!(normalize_model_filter(Some(" Nomic ")), Some("nomic".to_string()));
    assert_eq!(normalize_model_filter(Some("  ")), None);
    let keys = vec![" a ".to_string(), "b".to_string(), "a".to_string(), " ".to_string()];
    assert_eq!(normalize_sync_keys(Some(&keys)), Some(vec!["a".to_string(), "b".to_string()]));
    assert_eq!(normalize_sync_keys(None), None);
}

#[test]
fn embedding_input_joins_summary_and_session() {
    assert_eq!(build_embedding_input(Some(" summary "), " s1 "), Some("summary\nsession_id:s1".to_string()));
    assert_eq!(build_embedding_input(Some("summary"), "  "), Some("summary".to_string()));
    assert_eq!(build_embedding_input(Some("  "), "s1"), Some("session_id:s1".to_string()));
    assert_eq!(build_embedding_input(None, " "), None);
}

#[test]
fn failure_reasons_are_capped() {
    let mut reasons = Vec::new();
    for i in 0..120 {
        push_failure_reason(&mut reasons, format!("r{i}"));
    }
    assert_eq!(reasons.len(), 100);
    assert_eq!(reasons[99], "r99");
}

#[test]
fn arguments_flags_and_queries() {
    let args = vec!["--Remote-Endpoint".to_string(), "ws://x".to_string(), "--db".to_string()];
    assert_eq!(arg_value(&args, "--remote-endpoint"), Some("ws://x".to_string()));
    assert_eq!(arg_value(&args, "--db"), None);
    assert!(flag_value(" TRUE "));
    assert!(flag_value("1"));
    assert!(flag_value("yes"));
    assert!(!flag_value("on"));
    assert!(is_read_query("  select * FROM x"));
    assert!(!is_read_query("UPDATE x"));
    assert!(!is_read_query("SELEC"));
}

#[test]
fn keyword_score_counts_matching_keywords() {
    let keywords = vec!["parser".to_string(), "ctx".to_string(), "absent".to_string()];
    assert_eq!(context_keyword_score(Some("Parser hardening"), "CTX-test", &keywords), 2);
    assert_eq!(context_keyword_score(None, "ctx-test", &keywords), 1);
}

#[test]
fn slugs_keep_lowercased_alphanumerics() {
    assert_eq!(slug("__Monthly Roll-up: March__"), "monthly_roll_up__march");
    assert_eq!(slug("Ünïcode Ä"), "ünïcode_ä");
    assert_eq!(slug("---"), "");
}

#[test]
fn request_defaults_match_documented_values() {
    assert_eq!(default_limit_get_context(), 5);
    assert_eq!(default_limit_list_nodes(), 50);
    assert_eq!(default_sample_limit_preview_migration(), 20);
    assert_eq!(default_batch_size_migration(), 100);
    assert_eq!(default_max_nodes_migration(), 5000);
    assert!(default_true());
}

#[test]
fn keyword_filter_ranks_by_score_then_recency() {
    let node = |summary: Option<&str>, session: &str, timestamp: i64| KeywordNode {
        context_summary: summary.map(|s| s.to_string()),
        session_id: session.to_string(),
        timestamp,
    };
    let nodes = vec![
        node(Some("Rust notes"), "s1", 10),
        node(None, "verus-rust", 5),
        node(Some("nothing"), "x", 20),
        node(Some("RUST and Verus"), "y", 30),
        node(Some("rust"), "z", 10),
    ];
    let keywords = vec!["rust".to_string(), "verus".to_string()];
    assert_eq!(filter_nodes_by_context_keywords(&nodes, &keywords, 10), vec![3, 1, 0, 4]);
    assert_eq!(filter_nodes_by_context_keywords(&nodes, &keywords, 3), vec![3, 1, 0]);
    assert!(filter_nodes_by_context_keywords(&nodes, &keywords, 0).is_empty());
    assert!(filter_nodes_by_context_keywords(&nodes, &[], 10).is_empty());
}
