use sttp_core_rs::content_schema::{extract_first_object, extract_named_object, validate_content_schema};
use sttp_core_rs::lexer::{tokenize, TokenKind};
use sttp_core_rs::lexicon::AVEC_COMPRESSION_KEY;
use sttp_core_rs::state_machine::{ParserState, SttpLayerStateMachine};

#[test]
fn should_tokenize_structural_markers() {
    let raw = "⊕⟨ { a: 1 } ⟩\n⦿⟨ { b: 2 } ⟩\n◈⟨ { c(.9): x } ⟩\n⍉⟨ { rho: 1 } ⟩";
    let tokens = tokenize(raw);

    assert!(tokens.iter().any(|t| t.kind == TokenKind::ProvenanceStart));
    assert!(tokens.iter().any(|t| t.kind == TokenKind::EnvelopeStart));
    assert!(tokens.iter().any(|t| t.kind == TokenKind::ContentStart));
    assert!(tokens.iter().any(|t| t.kind == TokenKind::MetricsStart));
    assert!(tokens.iter().any(|t| t.kind == TokenKind::LayerEnd));
}

#[test]
fn should_track_line_and_column() {
    let raw = "x\n⊕⟨ { a: 1 } ⟩";
    let tokens = tokenize(raw);
    let provenance = tokens
        .iter()
        .find(|t| t.kind == TokenKind::ProvenanceStart)
        .expect("provenance marker should exist");

    assert_eq!(provenance.span.line, 2);
    assert_eq!(provenance.span.column, 1);
}

#[test]
fn should_detect_strict_spine() {
    let raw = r#"
⊕⟨ { trigger: manual } ⟩
⦿⟨ { timestamp: "2026-03-05T06:30:00Z", tier: raw } ⟩
◈⟨ { a(.99): b } ⟩
⍉⟨ { rho: 0.1, kappa: 0.2, psi: 0.3 } ⟩
"#;

    let parsed = SttpLayerStateMachine::parse(raw);
    assert!(parsed.strict_spine);
    assert_eq!(parsed.state, ParserState::Done);
    assert!(parsed.provenance.is_some());
    assert!(parsed.envelope.is_some());
    assert!(parsed.content.is_some());
    assert!(parsed.metrics.is_some());
}

#[test]
fn should_recover_with_missing_layer() {
    let raw = r#"
⊕⟨ { trigger: manual } ⟩
⦿⟨ { timestamp: "2026-03-05T06:30:00Z", tier: raw } ⟩
⍉⟨ { rho: 0.1, kappa: 0.2, psi: 0.3 } ⟩
"#;

    let parsed = SttpLayerStateMachine::parse(raw);
    assert!(!parsed.strict_spine);
    assert_eq!(parsed.state, ParserState::Done);
    assert!(parsed.content.is_none());
    assert!(parsed.metrics.is_some());
    assert!(parsed.diagnostics.len() >= 2);
    assert!(parsed
        .diagnostics
        .iter()
        .any(|d| d == "missing_layer_content"));
}

#[test]
fn should_project_ast_with_spans() {
    let raw = r#"
⊕⟨ { trigger: manual } ⟩
⦿⟨ { timestamp: "2026-03-05T06:30:00Z", tier: raw } ⟩
◈⟨ { topic(.99): x } ⟩
⍉⟨ { rho: 0.1, kappa: 0.2, psi: 0.3 } ⟩
"#;

    let parsed = SttpLayerStateMachine::parse(raw);
    let ast = SttpLayerStateMachine::to_ast(raw, &parsed);

    assert!(ast.provenance.is_some());
    assert!(ast.envelope.is_some());
    assert!(ast.content.is_some());
    assert!(ast.metrics.is_some());

    let content = ast.content.expect("content layer should exist");
    assert!(content.start < content.end);
    assert!(content.source.contains("topic(.99)"));
}

#[test]
fn should_extract_nested_object_block() {
    let input = r#"compression_avec: { stability: 0.8, friction: 0.2, logic: 0.9, autonomy: 0.7, ext: { kept: 1 } }"#;
    let object = extract_named_object(input, AVEC_COMPRESSION_KEY).expect("block should parse");
    assert!(object.contains("stability"));
    assert!(object.contains("ext: { kept: 1 }"));
}

#[test]
fn should_accept_content_value_with_or_without_quotes() {
    let quoted = r#"◈⟨ { topic(.91): \"quoted\" } ⟩"#;
    let unquoted = r#"◈⟨ { topic(.91): unquoted_value } ⟩"#;

    let quoted_diagnostics = validate_content_schema(quoted, quoted, None);
    let unquoted_diagnostics = validate_content_schema(unquoted, unquoted, None);

    assert!(quoted_diagnostics.is_empty());
    assert!(unquoted_diagnostics.is_empty());
}

#[test]
fn should_reject_content_without_confidence_signature() {
    let content = r#"◈⟨ { topic: \"invalid\" } ⟩"#;
    let diagnostics = validate_content_schema(content, content, None);

    assert!(diagnostics
        .iter()
        .any(|d| d.code == "STTP_CONTENT_SCHEMA_INVALID_KEY"));
}

#[test]
fn should_reject_content_confidence_out_of_range() {
    let content = r#"◈⟨ { topic(1.20): \"invalid\" } ⟩"#;
    let diagnostics = validate_content_schema(content, content, None);

    assert!(diagnostics
        .iter()
        .any(|d| d.code == "STTP_CONTENT_SCHEMA_INVALID_CONFIDENCE"));
}

#[test]
fn first_object_is_the_text_inside_the_first_braces() {
    assert_eq!(extract_first_object("◈⟨ { a(.5): { b(.5): c } } ⟩"), Some(" a(.5): { b(.5): c } "));
    assert_eq!(extract_first_object("no object"), None);
    assert_eq!(extract_first_object("{ unclosed"), None);
}

#[test]
fn ast_strict_spine_flag_can_be_set() {
    let raw = "⊕⟨ { trigger: manual } ⟩";
    let parsed = SttpLayerStateMachine::parse(raw);
    let ast = SttpLayerStateMachine::to_ast(raw, &parsed);
    let flipped = ast.clone().with_strict_spine(!ast.strict_spine);
    assert_eq!(flipped.strict_spine, !ast.strict_spine);
    assert_eq!(
        flipped.provenance.as_ref().map(|layer| (layer.source.clone(), layer.start, layer.end)),
        ast.provenance.as_ref().map(|layer| (layer.source.clone(), layer.start, layer.end))
    );
    assert!(flipped.provenance.is_some());
}

#[test]
fn ast_layers_stand_at_the_parse_spans() {
    let raw = "x ⊕⟨ { a: 1 } ⟩ ⦿⟨ { b: \"é\" } ⟩ ◈⟨ { c(.9): x } ⟩ ⍉⟨ { rho: 1 } ⟩";
    let parsed = SttpLayerStateMachine::parse(raw);
    let ast = SttpLayerStateMachine::to_ast(raw, &parsed);
    let layers = [
        (ast.provenance, parsed.provenance, parsed.provenance_span),
        (ast.envelope, parsed.envelope, parsed.envelope_span),
        (ast.content, parsed.content, parsed.content_span),
        (ast.metrics, parsed.metrics, parsed.metrics_span),
    ];
    for (layer, text, span) in layers {
        let layer = layer.expect("layer should exist");
        let text = text.expect("layer text should exist");
        let span = span.expect("layer span should exist");
        assert_eq!(layer.source, text);
        assert_eq!((layer.start, layer.end), (span.start, span.end));
        assert_eq!(&raw[layer.start..layer.end], text);
    }
}
