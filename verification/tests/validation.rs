use sttp_core_rs::models::ValidationFailureReason;
use sttp_core_rs::validator::{extract_content_block, max_nesting_depth, TreeSitterValidator};

#[test]
fn should_validate_complete_node() {
    let validator = TreeSitterValidator;
    let node = r#"
⊕⟨ { trigger: manual, response_format: temporal_node, origin_session: "regex-fix-test-2026-03-05", compression_depth: 1, parent_node: null, prime: { attractor_config: { stability: 0.85, friction: 0.25, logic: 0.80, autonomy: 0.70 }, context_summary: "testing after regex patch", relevant_tier: raw, retrieval_budget: 3 } } ⟩
⦿⟨ { timestamp: "2026-03-05T06:30:00Z", tier: raw, session_id: "regex-fix-test-2026-03-05", user_avec: { stability: 0.85, friction: 0.25, logic: 0.80, autonomy: 0.70, psi: 2.60 }, model_avec: { stability: 0.85, friction: 0.25, logic: 0.80, autonomy: 0.70, psi: 2.60 } } ⟩
◈⟨ { test(.99): "regex patch for compression_avec parsing" } ⟩
⍉⟨ { rho: 0.96, kappa: 0.94, psi: 2.60, compression_avec: { stability: 0.85, friction: 0.25, logic: 0.80, autonomy: 0.70, psi: 2.60 } } ⟩
"#;

    let result = validator.validate(node);
    assert!(
        result.is_valid,
        "validation failed: {:?} ({:?})",
        result.error, result.reason
    );
}

#[test]
fn should_reject_node_missing_layer() {
    let validator = TreeSitterValidator;
    let node = r#"
⊕⟨ { trigger: manual } ⟩
⦿⟨ { timestamp: "2026-03-05T06:30:00Z", tier: raw } ⟩
◈⟨ { test: "value" } ⟩
"#;

    let result = validator.validate(node);
    assert!(!result.is_valid);
    assert!(
        result
            .error
            .unwrap_or_default()
            .contains("Missing required layer")
    );
}

#[test]
fn should_reject_node_with_wrong_layer_order() {
    let validator = TreeSitterValidator;
    let node = r#"
⦿⟨ { timestamp: "2026-03-05T06:30:00Z", tier: raw } ⟩
⊕⟨ { trigger: manual } ⟩
◈⟨ { test: "value" } ⟩
⍉⟨ { rho: 0.96, kappa: 0.94, psi: 2.60 } ⟩
"#;

    let result = validator.validate(node);
    assert!(!result.is_valid);
    assert!(
        result
            .error
            .unwrap_or_default()
            .contains("Layer order violation")
    );
}

#[test]
fn empty_node_is_a_parse_failure() {
    let result = TreeSitterValidator.validate("  \n\t ");
    assert!(!result.is_valid);
    assert_eq!(result.error.as_deref(), Some("Node is empty"));
    assert_eq!(result.reason, ValidationFailureReason::ParseFailure);
    assert_eq!(result.reason.to_string(), "ParseFailure");
}

#[test]
fn missing_layer_names_the_first_missing_marker() {
    let result = TreeSitterValidator.validate("⊕⟨ { } ⟩ ◈⟨ { } ⟩ ⍉⟨ { } ⟩");
    assert_eq!(result.error.as_deref(), Some("Missing required layer: ⦿⟨"));
    assert_eq!(result.reason, ValidationFailureReason::MissingLayer);
}

#[test]
fn unknown_tier_is_rejected() {
    let node = "⊕⟨ { } ⟩ ⦿⟨ { tier: hourly } ⟩ ◈⟨ { a(.5): b } ⟩ ⍉⟨ { } ⟩";
    let result = TreeSitterValidator.validate(node);
    assert_eq!(
        result.error.as_deref(),
        Some("Invalid tier - expected one of: raw|daily|weekly|monthly|quarterly|yearly")
    );
    assert_eq!(result.reason, ValidationFailureReason::InvalidTier);
    let upper = "⊕⟨ { } ⟩ ⦿⟨ { TIER: Weekly } ⟩ ◈⟨ { a(.5): b } ⟩ ⍉⟨ { } ⟩";
    assert!(TreeSitterValidator.validate(upper).is_valid);
}

#[test]
fn deep_content_nesting_is_rejected() {
    let node = "⊕⟨ { } ⟩ ⦿⟨ { tier: raw } ⟩ ◈⟨ {{{{{{ }}}}}} ⟩ ⍉⟨ { } ⟩";
    let result = TreeSitterValidator.validate(node);
    assert_eq!(
        result.error.as_deref(),
        Some("Content nesting depth 6 exceeds maximum of 5")
    );
    assert_eq!(result.reason, ValidationFailureReason::NestingDepth);
    let ok = "⊕⟨ { } ⟩ ⦿⟨ { tier: raw } ⟩ ◈⟨ {{{{{ }}}}} ⟩ ⍉⟨ { } ⟩";
    assert!(TreeSitterValidator.validate(ok).is_valid);
}

#[test]
fn nesting_depth_counts_the_deepest_brace() {
    assert_eq!(max_nesting_depth("{ a { b } { c { d } } }"), 3);
    assert_eq!(max_nesting_depth("}}{"), 1);
    assert_eq!(max_nesting_depth(""), 0);
}

#[test]
fn content_block_runs_from_content_to_metrics_marker() {
    assert_eq!(extract_content_block("x ◈⟨ { a } ⟩ ⍉⟨ { } ⟩"), Some("◈⟨ { a } ⟩ "));
    assert_eq!(extract_content_block("⍉⟨ { } ⟩ ◈⟨ { a } ⟩"), None);
    assert_eq!(extract_content_block("◈⟨ { a } ⟩"), None);
}
