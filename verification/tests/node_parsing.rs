use sttp_core_rs::content_schema::{line_col_at, validate_content_schema};
use sttp_core_rs::lexer::Span;
use sttp_core_rs::node_fields::{
    parse_compression_depth, parse_context_summary, parse_parent_node, parse_tier,
    parse_timestamp_text,
};
use sttp_core_rs::node_parser::{ParseProfile, SttpNodeParser};
use sttp_core_rs::validator::TreeSitterValidator;

const CANONICAL_NODE: &str = r#"
⊕⟨ { trigger: manual, response_format: temporal_node, origin_session: "diff-test", compression_depth: 1, parent_node: null, prime: { attractor_config: { stability: 0.85, friction: 0.25, logic: 0.80, autonomy: 0.70 }, context_summary: "canonical", relevant_tier: raw, retrieval_budget: 3 } } ⟩
⦿⟨ { timestamp: "2026-03-05T06:30:00Z", tier: raw, session_id: "diff-test", user_avec: { stability: 0.85, friction: 0.25, logic: 0.80, autonomy: 0.70, psi: 2.60 }, model_avec: { stability: 0.85, friction: 0.25, logic: 0.80, autonomy: 0.70, psi: 2.60 } } ⟩
◈⟨ { test(.99): "canonical" } ⟩
⍉⟨ { rho: 0.96, kappa: 0.94, psi: 2.60, compression_avec: { stability: 0.85, friction: 0.25, logic: 0.80, autonomy: 0.70, psi: 2.60 } } ⟩
"#;

const MISSING_CONTENT_NODE: &str = r#"
⊕⟨ { trigger: manual, response_format: temporal_node, origin_session: "diff-test", compression_depth: 1, parent_node: null, prime: { attractor_config: { stability: 0.85, friction: 0.25, logic: 0.80, autonomy: 0.70 }, context_summary: "missing-content", relevant_tier: raw, retrieval_budget: 3 } } ⟩
⦿⟨ { timestamp: "2026-03-05T06:30:00Z", tier: raw, session_id: "diff-test", user_avec: { stability: 0.85, friction: 0.25, logic: 0.80, autonomy: 0.70, psi: 2.60 }, model_avec: { stability: 0.85, friction: 0.25, logic: 0.80, autonomy: 0.70, psi: 2.60 } } ⟩
⍉⟨ { rho: 0.96, kappa: 0.94, psi: 2.60, compression_avec: { stability: 0.85, friction: 0.25, logic: 0.80, autonomy: 0.70, psi: 2.60 } } ⟩
"#;

const WRONG_ORDER_NODE: &str = r#"
⦿⟨ { timestamp: "2026-03-05T06:30:00Z", tier: raw, session_id: "diff-test", user_avec: { stability: 0.85, friction: 0.25, logic: 0.80, autonomy: 0.70, psi: 2.60 }, model_avec: { stability: 0.85, friction: 0.25, logic: 0.80, autonomy: 0.70, psi: 2.60 } } ⟩
⊕⟨ { trigger: manual, response_format: temporal_node, origin_session: "diff-test", compression_depth: 1, parent_node: null, prime: { attractor_config: { stability: 0.85, friction: 0.25, logic: 0.80, autonomy: 0.70 }, context_summary: "wrong-order", relevant_tier: raw, retrieval_budget: 3 } } ⟩
◈⟨ { test(.99): "wrong-order" } ⟩
⍉⟨ { rho: 0.96, kappa: 0.94, psi: 2.60, compression_avec: { stability: 0.85, friction: 0.25, logic: 0.80, autonomy: 0.70, psi: 2.60 } } ⟩
"#;

const INVALID_CONTENT_SCHEMA_NODE: &str = r#"
⊕⟨ { trigger: manual, response_format: temporal_node, origin_session: "diff-test", compression_depth: 1, parent_node: null, prime: { attractor_config: { stability: 0.85, friction: 0.25, logic: 0.80, autonomy: 0.70 }, context_summary: "invalid-content-schema", relevant_tier: raw, retrieval_budget: 3 } } ⟩
⦿⟨ { timestamp: "2026-03-05T06:30:00Z", tier: raw, session_id: "diff-test", user_avec: { stability: 0.85, friction: 0.25, logic: 0.80, autonomy: 0.70, psi: 2.60 }, model_avec: { stability: 0.85, friction: 0.25, logic: 0.80, autonomy: 0.70, psi: 2.60 } } ⟩
◈⟨ { topic: "missing confidence signature" } ⟩
⍉⟨ { rho: 0.96, kappa: 0.94, psi: 2.60, compression_avec: { stability: 0.85, friction: 0.25, logic: 0.80, autonomy: 0.70, psi: 2.60 } } ⟩
"#;

const VALID_UNQUOTED_CONTENT_VALUE_NODE: &str = r#"
⊕⟨ { trigger: manual, response_format: temporal_node, origin_session: "diff-test", compression_depth: 1, parent_node: null, prime: { attractor_config: { stability: 0.85, friction: 0.25, logic: 0.80, autonomy: 0.70 }, context_summary: "valid-unquoted-content", relevant_tier: raw, retrieval_budget: 3 } } ⟩
⦿⟨ { timestamp: "2026-03-05T06:30:00Z", tier: raw, session_id: "diff-test", user_avec: { stability: 0.85, friction: 0.25, logic: 0.80, autonomy: 0.70, psi: 2.60 }, model_avec: { stability: 0.85, friction: 0.25, logic: 0.80, autonomy: 0.70, psi: 2.60 } } ⟩
◈⟨ { topic(.91): unquoted_value } ⟩
⍉⟨ { rho: 0.96, kappa: 0.94, psi: 2.60, compression_avec: { stability: 0.85, friction: 0.25, logic: 0.80, autonomy: 0.70, psi: 2.60 } } ⟩
"#;

const INVALID_NESTED_CONTENT_SCHEMA_NODE: &str = r#"
⊕⟨ { trigger: manual, response_format: temporal_node, origin_session: "diff-test", compression_depth: 1, parent_node: null, prime: { attractor_config: { stability: 0.85, friction: 0.25, logic: 0.80, autonomy: 0.70 }, context_summary: "invalid-nested-content-schema", relevant_tier: raw, retrieval_budget: 3 } } ⟩
⦿⟨ { timestamp: "2026-03-05T06:30:00Z", tier: raw, session_id: "diff-test", user_avec: { stability: 0.85, friction: 0.25, logic: 0.80, autonomy: 0.70, psi: 2.60 }, model_avec: { stability: 0.85, friction: 0.25, logic: 0.80, autonomy: 0.70, psi: 2.60 } } ⟩
◈⟨ { outer(.90): { inner: "missing confidence in nested field" } } ⟩
⍉⟨ { rho: 0.96, kappa: 0.94, psi: 2.60, compression_avec: { stability: 0.85, friction: 0.25, logic: 0.80, autonomy: 0.70, psi: 2.60 } } ⟩
"#;

#[test]
fn canonical_node_should_agree_between_profiles() {
    let parser = SttpNodeParser::new();

    let strict = parser.parse_outline(CANONICAL_NODE, ParseProfile::Strict);
    let tolerant = parser.parse_outline(CANONICAL_NODE, ParseProfile::Tolerant);

    assert!(strict.success, "strict parse failed: {:?}", strict.error);
    assert!(strict.strict_valid);
    assert!(tolerant.success, "tolerant parse failed: {:?}", tolerant.error);
    assert!(tolerant.strict_valid);
    assert_eq!(strict.profile, ParseProfile::Strict);
    assert_eq!(tolerant.profile, ParseProfile::Tolerant);

    let strict_fields = strict.fields.expect("strict node should exist");
    let tolerant_fields = tolerant.fields.expect("tolerant node should exist");

    assert_eq!(strict_fields.tier, tolerant_fields.tier);
    assert_eq!(strict_fields.compression_depth, tolerant_fields.compression_depth);
    assert_eq!(strict_fields.envelope, tolerant_fields.envelope);
    assert_eq!(strict_fields.metrics, tolerant_fields.metrics);

    let strict_ast = strict.canonical_ast.expect("strict canonical ast should exist");
    let content_layer = strict_ast.content.expect("content layer should exist");
    assert!(content_layer.span.start < content_layer.span.end);
    assert!(content_layer.source.contains("test(.99)"));
}

#[test]
fn missing_content_should_diverge_at_expected_boundary() {
    let parser = SttpNodeParser::new();
    let validator = TreeSitterValidator;

    let strict = parser.parse_outline(MISSING_CONTENT_NODE, ParseProfile::Strict);
    let tolerant = parser.parse_outline(MISSING_CONTENT_NODE, ParseProfile::Tolerant);
    let validation = validator.validate(MISSING_CONTENT_NODE);

    assert!(!validation.is_valid);
    assert!(!strict.success);
    assert!(!strict.strict_valid);
    assert!(tolerant.success);
    assert!(!tolerant.strict_valid);
    assert!(tolerant.diagnostics.iter().any(|d| d.code == "missing_layer_content"));
}

#[test]
fn wrong_order_should_diverge_at_expected_boundary() {
    let parser = SttpNodeParser::new();
    let validator = TreeSitterValidator;

    let strict = parser.parse_outline(WRONG_ORDER_NODE, ParseProfile::Strict);
    let tolerant = parser.parse_outline(WRONG_ORDER_NODE, ParseProfile::Tolerant);
    let validation = validator.validate(WRONG_ORDER_NODE);

    assert!(!validation.is_valid);
    assert!(!strict.success);
    assert!(!strict.strict_valid);
    assert!(tolerant.success);
    assert!(!tolerant.strict_valid);
    assert!(tolerant
        .diagnostics
        .iter()
        .any(|d| d.code == "non_strict_spine_recovered_tolerantly"));
}

#[test]
fn content_schema_signature_should_diverge_at_expected_boundary() {
    let parser = SttpNodeParser::new();

    let strict = parser.parse_outline(INVALID_CONTENT_SCHEMA_NODE, ParseProfile::Strict);
    let tolerant = parser.parse_outline(INVALID_CONTENT_SCHEMA_NODE, ParseProfile::Tolerant);

    assert!(!strict.success);
    assert!(!strict.strict_valid);
    assert!(strict.diagnostics.iter().any(|d| d.code == "STTP_CONTENT_SCHEMA_INVALID_KEY"));
    assert!(strict
        .diagnostics
        .iter()
        .any(|d| d.code == "STTP_CONTENT_SCHEMA_INVALID_KEY" && d.span.is_some()));

    assert!(tolerant.success);
    assert!(!tolerant.strict_valid);
    assert!(tolerant.diagnostics.iter().any(|d| d.code == "STTP_CONTENT_SCHEMA_INVALID_KEY"));
    assert!(tolerant
        .diagnostics
        .iter()
        .any(|d| d.code == "STTP_CONTENT_SCHEMA_INVALID_KEY" && d.span.is_some()));
}

#[test]
fn content_schema_should_accept_unquoted_value_when_signature_is_valid() {
    let parser = SttpNodeParser::new();

    let strict = parser.parse_outline(VALID_UNQUOTED_CONTENT_VALUE_NODE, ParseProfile::Strict);
    let tolerant = parser.parse_outline(VALID_UNQUOTED_CONTENT_VALUE_NODE, ParseProfile::Tolerant);

    assert!(strict.success, "strict parse failed: {:?}", strict.error);
    assert!(strict.strict_valid);
    assert!(tolerant.success, "tolerant parse failed: {:?}", tolerant.error);
    assert!(tolerant.strict_valid);
    assert!(!strict.diagnostics.iter().any(|d| d.code.starts_with("STTP_CONTENT_SCHEMA_")));
}

#[test]
fn nested_content_schema_violation_should_be_reported() {
    let parser = SttpNodeParser::new();

    let strict = parser.parse_outline(INVALID_NESTED_CONTENT_SCHEMA_NODE, ParseProfile::Strict);
    let tolerant = parser.parse_outline(INVALID_NESTED_CONTENT_SCHEMA_NODE, ParseProfile::Tolerant);

    assert!(!strict.success);
    assert!(!strict.strict_valid);
    assert!(strict.diagnostics.iter().any(|d| d.code == "STTP_CONTENT_SCHEMA_INVALID_KEY"));

    assert!(tolerant.success);
    assert!(!tolerant.strict_valid);
    assert!(tolerant.diagnostics.iter().any(|d| d.code == "STTP_CONTENT_SCHEMA_INVALID_KEY"));
}

#[test]
fn strict_profile_should_fail_on_missing_layer() {
    let parser = SttpNodeParser::new();
    let raw = r#"
⊕⟨ { trigger: manual, compression_depth: 1 } ⟩
⦿⟨ { timestamp: "2026-03-05T06:30:00Z", tier: raw, user_avec: { stability: 0.8, friction: 0.2, logic: 0.9, autonomy: 0.7 }, model_avec: { stability: 0.8, friction: 0.2, logic: 0.9, autonomy: 0.7 } } ⟩
⍉⟨ { rho: 0.1, kappa: 0.2, psi: 2.6, compression_avec: { stability: 0.8, friction: 0.2, logic: 0.9, autonomy: 0.7 } } ⟩
"#;

    let parsed = parser.parse_outline(raw, ParseProfile::Strict);
    assert!(!parsed.success);
    assert_eq!(parsed.profile, ParseProfile::Strict);
    assert!(parsed.canonical_ast.is_some());
    assert!(!parsed.diagnostics.is_empty());
    assert_eq!(
        parsed.error.as_deref(),
        Some("strict profile violation: missing or out-of-order layers")
    );
    assert_eq!(
        parsed.diagnostics.last().map(|d| d.code.as_str()),
        Some("STTP_STRICT_PROFILE_VIOLATION")
    );
}

#[test]
fn tolerant_profile_should_recover_with_diagnostics() {
    let parser = SttpNodeParser::new();
    let raw = r#"
⊕⟨ { trigger: manual, compression_depth: 1 } ⟩
⦿⟨ { timestamp: "2026-03-05T06:30:00Z", tier: raw, user_avec: { stability: 0.8, friction: 0.2, logic: 0.9, autonomy: 0.7 }, model_avec: { stability: 0.8, friction: 0.2, logic: 0.9, autonomy: 0.7 } } ⟩
⍉⟨ { rho: 0.1, kappa: 0.2, psi: 2.6, compression_avec: { stability: 0.8, friction: 0.2, logic: 0.9, autonomy: 0.7 } } ⟩
"#;

    let parsed = parser.parse_outline(raw, ParseProfile::Tolerant);
    assert!(parsed.success);
    assert_eq!(parsed.profile, ParseProfile::Tolerant);
    assert!(!parsed.strict_valid);
    assert!(!parsed.diagnostics.is_empty());
    assert!(parsed.canonical_ast.is_some());
}

#[test]
fn text_without_layers_fails_in_every_profile() {
    let parser = SttpNodeParser::new();
    for profile in [ParseProfile::Strict, ParseProfile::Tolerant] {
        let parsed = parser.parse_outline("no layers here", profile);
        assert!(!parsed.success);
        assert_eq!(parsed.error.as_deref(), Some("unable to identify any STTP layers"));
        assert_eq!(parsed.diagnostics.last().map(|d| d.code.as_str()), Some("STTP_PARSE_LAYER_ERROR"));
        assert!(parsed.fields.is_none());
    }
}

#[test]
fn should_extract_context_summary_from_prime() {
    let parser = SttpNodeParser::new();
    let raw = r#"
⊕⟨ { trigger: manual, response_format: temporal_node, origin_session: "ctx-test", compression_depth: 1, parent_node: null, prime: { attractor_config: { stability: 0.8, friction: 0.2, logic: 0.9, autonomy: 0.7 }, context_summary: "parser hardening session", relevant_tier: raw, retrieval_budget: 3 } } ⟩
⦿⟨ { timestamp: "2026-03-05T06:30:00Z", tier: raw, session_id: "ctx-test", user_avec: { stability: 0.8, friction: 0.2, logic: 0.9, autonomy: 0.7, psi: 2.6 }, model_avec: { stability: 0.8, friction: 0.2, logic: 0.9, autonomy: 0.7, psi: 2.6 } } ⟩
◈⟨ { note(.99): "ok" } ⟩
⍉⟨ { rho: 0.9, kappa: 0.9, psi: 2.6, compression_avec: { stability: 0.8, friction: 0.2, logic: 0.9, autonomy: 0.7, psi: 2.6 } } ⟩
"#;

    let parsed = parser.parse_outline(raw, ParseProfile::Tolerant);
    assert!(parsed.success);

    let fields = parsed.fields.expect("parsed node should exist");
    assert_eq!(fields.context_summary.as_deref(), Some("parser hardening session"));
    assert_eq!(fields.tier, "raw");
    assert_eq!(fields.compression_depth, 1);
    assert_eq!(fields.parent_node_id, None);
    assert_eq!(fields.envelope_timestamp.as_deref(), Some("2026-03-05T06:30:00Z"));
}

#[test]
fn should_parse_generic_parent_reference() {
    let parser = SttpNodeParser::new();
    let input = "⊕⟨ { trigger: manual, response_format: temporal_node, origin_session: \"test\", compression_depth: 1, parent_node: ref:parent-fix-check-2026-03-05 } ⟩\n\
                 ⦿⟨ { timestamp: \"2026-03-05T00:00:00Z\", tier: monthly, session_id: \"test\", user_avec: { stability: 0.85, friction: 0.25, logic: 0.80, autonomy: 0.70 }, model_avec: { stability: 0.85, friction: 0.25, logic: 0.80, autonomy: 0.70 } } ⟩\n\
                 ◈⟨ { test(.99): monthly_parent_ref } ⟩\n\
                 ⍉⟨ { rho: 0.96, kappa: 0.94, psi: 2.60, compression_avec: { stability: 0.85, friction: 0.25, logic: 0.80, autonomy: 0.70 } } ⟩";

    let result = parser.parse_outline(input, ParseProfile::Tolerant);
    assert!(result.success, "parse failed: {:?}", result.error);

    let fields = result.fields.expect("node should exist");
    let parent = fields.parent_node_id.expect("parent id should parse");
    assert_eq!(parent, "parent-fix-check-2026-03-05");
    assert_eq!(fields.tier, "monthly");
}

#[test]
fn field_patterns_read_the_first_match() {
    assert_eq!(parse_tier("x TIER:  Weekly y"), Some("Weekly".to_string()));
    assert_eq!(parse_tier("tier: \u{212A}"), None);
    assert_eq!(parse_tier("tier: wee\u{212A}ly"), Some("wee\u{212A}ly".to_string()));
    assert_eq!(parse_tier("tier: none, tier: daily"), Some("daily".to_string()));
    assert_eq!(parse_tier("tier: rawish"), Some("raw".to_string()));
    assert_eq!(parse_compression_depth("compression_depth: 12"), 12);
    assert_eq!(parse_compression_depth("compression_depth: x, compression_depth: 3"), 3);
    assert_eq!(parse_compression_depth("compression_depth: 99999999999"), 0);
    assert_eq!(parse_compression_depth("compression_depth: 2147483647"), 2147483647);
    assert_eq!(parse_compression_depth("compression_depth: \u{0663}"), 0);
    assert_eq!(parse_compression_depth("none"), 0);
    assert_eq!(parse_parent_node("parent_node: \"abc def\""), Some("abc def".to_string()));
    assert_eq!(parse_parent_node("parent_node: null"), None);
    assert_eq!(parse_parent_node("parent_node: \"\", parent_node: ref:x]"), Some("x".to_string()));
    assert_eq!(parse_context_summary("context_summary:   plain words , rest"), Some("plain words".to_string()));
    assert_eq!(parse_context_summary("context_summary: \"  \""), None);
    assert_eq!(parse_context_summary("context_summary: , later context_summary: \"x\""), None);
    assert_eq!(parse_context_summary("context_summary:\n, context_summary: \"x\""), Some("x".to_string()));
    assert_eq!(parse_context_summary("context_summary: \"open, rest"), Some("\"open".to_string()));
    assert_eq!(parse_timestamp_text("timestamp: \"2026-03-05T06:30:00Z\""), Some("2026-03-05T06:30:00Z".to_string()));
    assert_eq!(parse_timestamp_text("timestamp: \"\""), None);
}

#[test]
fn confidence_is_checked_as_an_f32_would_read_it() {
    let codes = |content: &str| -> Vec<String> {
        validate_content_schema(content, content, None).into_iter().map(|d| d.code).collect()
    };
    assert!(codes("{ a(1.0000000596046447): v }").is_empty());
    assert!(codes("{ a(-0.0): v }").is_empty());
    assert!(codes("{ a(+1): v }").is_empty());
    assert!(codes("{ a(-0.000000000000000000000000000000000000000000000000001): v }").is_empty());
    assert_eq!(codes("{ a(1.0000001): v }"), vec!["STTP_CONTENT_SCHEMA_INVALID_CONFIDENCE"]);
    assert_eq!(codes("{ a(-0.00001): v }"), vec!["STTP_CONTENT_SCHEMA_INVALID_CONFIDENCE"]);
    assert_eq!(codes("{ a(\u{0663}): v }"), vec!["STTP_CONTENT_SCHEMA_INVALID_CONFIDENCE"]);
    assert_eq!(codes("{ a(x): v }"), vec!["STTP_CONTENT_SCHEMA_INVALID_KEY"]);
    assert_eq!(codes("{ 1a(.5): v }"), vec!["STTP_CONTENT_SCHEMA_INVALID_KEY"]);
    assert_eq!(codes("{ a( .5 ): v }"), Vec::<String>::new());
}

#[test]
fn schema_messages_name_the_field() {
    let diags = validate_content_schema("{ topic(1.20): x, b(-0.50): , c }", "{ topic(1.20): x, b(-0.50): , c }", None);
    let messages: Vec<&str> = diags.iter().map(|d| d.message.as_str()).collect();
    assert_eq!(
        messages,
        vec![
            "content confidence must be in [0,1]: found 1.2 for key 'topic(1.20)'",
            "content confidence must be in [0,1]: found -0.5 for key 'b(-0.50)'",
            "content value is missing for key 'b(-0.50)'",
            "content field missing ':' separator: c",
        ]
    );
    let missing = validate_content_schema("◈⟨ no object ⟩", "◈⟨ no object ⟩", None);
    assert_eq!(missing.len(), 1);
    assert_eq!(missing[0].code, "STTP_CONTENT_SCHEMA_MISSING_OBJECT");
    assert_eq!(missing[0].message, "content layer must contain an object payload");
}

#[test]
fn schema_spans_point_into_the_node() {
    let raw = "◈⟨ { bad } ⟩";
    let span = Span { start: 0, end: raw.len(), line: 1, column: 1 };
    let diags = validate_content_schema(raw, raw, Some(span));
    assert_eq!(diags.len(), 1);
    assert_eq!(diags[0].message, "content field missing ':' separator: bad");
    let s = diags[0].span.expect("span should be projected");
    assert_eq!((s.start, s.end, s.line, s.column), (17, 20, 1, 13));
}

#[test]
fn line_and_column_of_a_byte_offset() {
    let raw: Vec<char> = "ab\n⊕c".chars().collect();
    assert_eq!(line_col_at(&raw, 0), (1, 1));
    assert_eq!(line_col_at(&raw, 2), (1, 3));
    assert_eq!(line_col_at(&raw, 3), (2, 1));
    assert_eq!(line_col_at(&raw, 4), (2, 2));
    assert_eq!(line_col_at(&raw, 7), (2, 3));
    assert_eq!(line_col_at(&raw, 100), (2, 3));
}
