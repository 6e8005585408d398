//! Parsing of STTP node text into what the node record is built from: the
//! layer recovery, the strict or tolerant profile decision, the content
//! schema check, the canonical syntax tree and the text and integer fields.
//! The AVEC blocks, the metric values and the timestamp are read by the
//! node builder of the application from the layer texts given here.
use vstd::prelude::*;
use crate::content_schema::{content_diagnostics, span_fits, validate_content_schema};
use crate::diagnostics::{
    diag_views, parse_span_of, structured_of, to_parse_span, to_structured_diagnostics, DiagView,
    ParseDiagnostic, ParseDiagnosticSeverity, ParseSpan,
};
use crate::lexer::Span;
use crate::lexicon::LayerKind;
use crate::node_fields::{
    compression_depth_in, compression_depth_of, context_summary_in, context_summary_of,
    opt_string, parent_node_in, parent_node_of, tier_in, tier_of, timestamp_text_in,
    timestamp_text_of,
};
use crate::state_machine::{
    layer_bounds, layer_diagnostics, layer_span, layer_state, layer_text, lemma_layer_bounds,
    opt_view, strict_spine, LayerParseOutcome, ParserState, SttpLayerStateMachine,
};
use crate::text::{byte_at, chars_of, fits, lemma_byte_at_mono, lemma_utf8_len_ge_len, string_of, utf8_len};

verus! {

#[derive(Debug, Clone, Copy, PartialEq, Eq, Structural)]
pub enum ParseProfile {
    Strict,
    Tolerant,
}

/// A recovered layer of the canonical syntax tree: its text and span.
#[derive(Debug, Clone)]
pub struct CanonicalAstLayer {
    pub source: String,
    pub span: ParseSpan,
}

#[derive(Debug, Clone)]
pub struct CanonicalAst {
    pub provenance: Option<CanonicalAstLayer>,
    pub envelope: Option<CanonicalAstLayer>,
    pub content: Option<CanonicalAstLayer>,
    pub metrics: Option<CanonicalAstLayer>,
    pub strict_spine: bool,
    pub profile: ParseProfile,
}

/// The text and integer fields of a parsed node, and the layer texts (the
/// whole node where a layer is missing) that its AVEC blocks, metric values
/// and timestamp are read from.
#[derive(Debug, Clone)]
pub struct NodeFields {
    pub tier: String,
    pub compression_depth: i32,
    pub parent_node_id: Option<String>,
    pub context_summary: Option<String>,
    pub envelope_timestamp: Option<String>,
    pub raw_timestamp: Option<String>,
    pub provenance: String,
    pub envelope: String,
    pub metrics: String,
}

/// The outcome of parsing a node under a profile.
#[derive(Debug, Clone)]
pub struct ParseOutline {
    pub success: bool,
    pub error: Option<String>,
    pub profile: ParseProfile,
    pub strict_valid: bool,
    pub diagnostics: Vec<ParseDiagnostic>,
    pub canonical_ast: Option<CanonicalAst>,
    pub fields: Option<NodeFields>,
}

#[derive(Debug, Default, Clone, Copy)]
pub struct SttpNodeParser;

// ---------------------------------------------------------------------------
// Specification

/// The text of a layer, or the whole node where the layer is missing.
pub open spec fn layer_or_raw(s: Seq<char>, kind: LayerKind) -> Seq<char> {
    match layer_text(s, kind) {
        Some(t) => t,
        None => s,
    }
}

/// All four layers were found and their markers stand in spine order.
pub open spec fn spine_complete(s: Seq<char>) -> bool {
    &&& strict_spine(s)
    &&& layer_text(s, LayerKind::Provenance) is Some
    &&& layer_text(s, LayerKind::Envelope) is Some
    &&& layer_text(s, LayerKind::Content) is Some
    &&& layer_text(s, LayerKind::Metrics) is Some
}

/// The schema diagnostics of the content layer (of the whole node where the
/// layer is missing).
pub open spec fn content_check(s: Seq<char>) -> Seq<DiagView> {
    content_diagnostics(s, layer_or_raw(s, LayerKind::Content), layer_span(s, LayerKind::Content))
}

pub open spec fn layer_error_diag() -> DiagView {
    DiagView {
        code: "STTP_PARSE_LAYER_ERROR"@,
        message: "unable to identify any STTP layers"@,
        severity: ParseDiagnosticSeverity::Fatal,
        strict_impact: true,
        span: None,
    }
}

pub open spec fn strict_violation_diag() -> DiagView {
    DiagView {
        code: "STTP_STRICT_PROFILE_VIOLATION"@,
        message: "strict profile requires full layer spine provenance->envelope->content->metrics"@,
        severity: ParseDiagnosticSeverity::Error,
        strict_impact: true,
        span: None,
    }
}

/// Why parsing fails, if it does: no layer at all; under the strict profile
/// an incomplete or disordered spine, or a content schema violation.
pub open spec fn parse_error(s: Seq<char>, profile: ParseProfile) -> Option<Seq<char>> {
    if layer_state(s) == ParserState::Error {
        Some("unable to identify any STTP layers"@)
    } else if profile == ParseProfile::Strict && !spine_complete(s) {
        Some("strict profile violation: missing or out-of-order layers"@)
    } else if profile == ParseProfile::Strict && content_check(s).len() > 0 {
        Some("strict profile violation: content schema requires field_name(.confidence): value"@)
    } else {
        None
    }
}

/// The diagnostics of parsing: those of layer recovery, then the failure
/// diagnostic or the content schema diagnostics.
pub open spec fn parse_diagnostics(s: Seq<char>, profile: ParseProfile) -> Seq<DiagView> {
    let base = layer_diagnostics(s).map_values(|c: Seq<char>| structured_of(c));
    if layer_state(s) == ParserState::Error {
        base.push(layer_error_diag())
    } else if profile == ParseProfile::Strict && !spine_complete(s) {
        base.push(strict_violation_diag())
    } else {
        base + content_check(s)
    }
}

/// A successful parse is strictly valid when the spine is complete and the
/// content follows the schema; a failed one never is.
pub open spec fn parse_strict_valid(s: Seq<char>, profile: ParseProfile) -> bool {
    parse_error(s, profile) is None && spine_complete(s) && content_check(s).len() == 0
}

pub open spec fn canonical_layer_of(s: Seq<char>, kind: LayerKind) -> Option<(Seq<char>, ParseSpan)> {
    match (layer_text(s, kind), layer_span(s, kind)) {
        (Some(t), Some(sp)) => Some((t, parse_span_of(sp))),
        _ => None,
    }
}

pub open spec fn canonical_layer_view(l: Option<CanonicalAstLayer>) -> Option<(Seq<char>, ParseSpan)> {
    match l {
        Some(l) => Some((l.source@, l.span)),
        None => None,
    }
}

/// `ast` is the canonical syntax tree of `s` under `profile`.
pub open spec fn is_canonical_ast(s: Seq<char>, profile: ParseProfile, ast: CanonicalAst) -> bool {
    &&& canonical_layer_view(ast.provenance) == canonical_layer_of(s, LayerKind::Provenance)
    &&& canonical_layer_view(ast.envelope) == canonical_layer_of(s, LayerKind::Envelope)
    &&& canonical_layer_view(ast.content) == canonical_layer_of(s, LayerKind::Content)
    &&& canonical_layer_view(ast.metrics) == canonical_layer_of(s, LayerKind::Metrics)
    &&& ast.strict_spine == strict_spine(s)
    &&& ast.profile == profile
}

/// A tier read from `t`, else from `s`.
pub open spec fn tier_or(t: Seq<char>, s: Seq<char>) -> Seq<char> {
    match tier_of(t) {
        Some(x) => x,
        None => match tier_of(s) {
            Some(x) => x,
            None => Seq::empty(),
        },
    }
}

pub open spec fn or_else(a: Option<Seq<char>>, b: Option<Seq<char>>) -> Option<Seq<char>> {
    match a {
        Some(x) => Some(x),
        None => b,
    }
}

/// `f` holds the fields of the node `s`.
pub open spec fn is_node_fields(s: Seq<char>, f: NodeFields) -> bool {
    let prov = layer_or_raw(s, LayerKind::Provenance);
    let env = layer_or_raw(s, LayerKind::Envelope);
    &&& f.tier@ == tier_or(env, s)
    &&& f.compression_depth == compression_depth_of(prov)
    &&& opt_string(f.parent_node_id) == or_else(parent_node_of(prov), parent_node_of(s))
    &&& opt_string(f.context_summary) == or_else(context_summary_of(prov), context_summary_of(s))
    &&& opt_string(f.envelope_timestamp) == timestamp_text_of(env)
    &&& opt_string(f.raw_timestamp) == timestamp_text_of(s)
    &&& f.provenance@ == prov
    &&& f.envelope@ == env
    &&& f.metrics@ == layer_or_raw(s, LayerKind::Metrics)
}

/// The strict profile accepts exactly what the tolerant profile accepts as
/// strictly valid, and where it accepts, the two agree on the diagnostics
/// and on strict validity.
pub proof fn lemma_strict_is_tolerant_and_strictly_valid(s: Seq<char>)
    ensures
        (parse_error(s, ParseProfile::Strict) is None) == (parse_error(s, ParseProfile::Tolerant) is None
            && parse_strict_valid(s, ParseProfile::Tolerant)),
        parse_error(s, ParseProfile::Strict) is None ==> parse_diagnostics(s, ParseProfile::Strict)
            == parse_diagnostics(s, ParseProfile::Tolerant) && parse_strict_valid(s, ParseProfile::Strict),
{
    if parse_error(s, ParseProfile::Strict) is None {
        assert(content_check(s).len() == 0);
        assert(content_check(s) =~= Seq::<DiagView>::empty());
    }
}

// ---------------------------------------------------------------------------
// Implementation

fn canonical_layer(source: Option<&str>, span: Option<Span>) -> (r: Option<CanonicalAstLayer>)
    ensures
        canonical_layer_view(r) == match (opt_view(source), span) {
            (Some(t), Some(sp)) => Some((t, parse_span_of(sp))),
            _ => None,
        },
{
    match (source, span) {
        (Some(t), Some(sp)) => Some(CanonicalAstLayer { source: string_of(t), span: to_parse_span(sp) }),
        _ => None,
    }
}

fn text_or<'a>(layer: Option<&'a str>, raw: &'a str) -> (r: &'a str)
    ensures
        r@ == match opt_view(layer) {
            Some(t) => t,
            None => raw@,
        },
{
    match layer {
        Some(t) => t,
        None => raw,
    }
}

fn or_else_string(a: Option<String>, b: Option<String>) -> (r: Option<String>)
    ensures
        opt_string(r) == or_else(opt_string(a), opt_string(b)),
{
    match a {
        Some(x) => Some(x),
        None => b,
    }
}

proof fn lemma_content_span_fits(s: Seq<char>)
    requires
        fits(s),
    ensures
        span_fits(layer_span(s, LayerKind::Content), layer_or_raw(s, LayerKind::Content)),
{
    lemma_layer_bounds(s, LayerKind::Content);
    match layer_bounds(s, LayerKind::Content) {
        Some((a, b)) => {
            lemma_byte_at_mono(s, a, b);
            lemma_byte_at_mono(s, b, s.len() as int);
            assert(byte_at(s, a) + utf8_len(s.subrange(a, b)) <= isize::MAX);
        },
        None => {},
    }
}

fn fail_outline(
    error: &str,
    profile: ParseProfile,
    diagnostics: Vec<ParseDiagnostic>,
    ast: CanonicalAst,
) -> (r: ParseOutline)
    ensures
        !r.success,
        r.error matches Some(e) && e@ == error@,
        r.profile == profile,
        !r.strict_valid,
        r.diagnostics@ == diagnostics@,
        r.canonical_ast == Some(ast),
        r.fields is None,
{
    ParseOutline {
        success: false,
        error: Some(string_of(error)),
        profile,
        strict_valid: false,
        diagnostics,
        canonical_ast: Some(ast),
        fields: None,
    }
}

fn node_fields(raw: &str, v: &Vec<char>, layered: &LayerParseOutcome<'_>) -> (r: NodeFields)
    requires
        v@ == raw@,
        fits(raw@),
        crate::state_machine::is_layer_outcome(raw@, *layered),
    ensures
        is_node_fields(raw@, r),
{
    let prov = chars_of(text_or(layered.provenance, raw));
    let env = chars_of(text_or(layered.envelope, raw));
    let metrics = text_or(layered.metrics, raw);
    let tier = match tier_in(&env) {
        Some(t) => t,
        None => match tier_in(v) {
            Some(t) => t,
            None => String::new(),
        },
    };
    NodeFields {
        tier,
        compression_depth: compression_depth_in(&prov),
        parent_node_id: or_else_string(parent_node_in(&prov), parent_node_in(v)),
        context_summary: or_else_string(context_summary_in(&prov), context_summary_in(v)),
        envelope_timestamp: timestamp_text_in(&env),
        raw_timestamp: timestamp_text_in(v),
        provenance: string_of(text_or(layered.provenance, raw)),
        envelope: string_of(text_or(layered.envelope, raw)),
        metrics: string_of(metrics),
    }
}

impl SttpNodeParser {
    pub fn new() -> (r: Self) {
        SttpNodeParser
    }

    /// Parses `raw` under `profile`: recovers its layers, decides whether
    /// the profile accepts them, checks the content schema and reads the
    /// node fields.
    pub fn parse_outline(&self, raw: &str, profile: ParseProfile) -> (r: ParseOutline)
        requires
            fits(raw@),
        ensures
            r.success == (parse_error(raw@, profile) is None),
            opt_string(r.error) == parse_error(raw@, profile),
            r.profile == profile,
            r.strict_valid == parse_strict_valid(raw@, profile),
            diag_views(r.diagnostics@) == parse_diagnostics(raw@, profile),
            r.canonical_ast matches Some(ast) && is_canonical_ast(raw@, profile, ast),
            match r.fields {
                Some(f) => r.success && is_node_fields(raw@, f),
                None => !r.success,
            },
    {
        let layered = SttpLayerStateMachine::parse(raw);
        let ghost s = raw@;
        let mut diagnostics = to_structured_diagnostics(layered.diagnostics.as_slice());
        proof {
            let codes = layered.diagnostics@.map_values(|d: String| d@);
            assert(codes == layer_diagnostics(s));
            assert(diag_views(diagnostics@) =~= layer_diagnostics(s).map_values(
                |c: Seq<char>| structured_of(c),
            )) by {
                assert forall|k: int| 0 <= k < diagnostics@.len() implies diag_views(diagnostics@)[k]
                    == layer_diagnostics(s).map_values(|c: Seq<char>| structured_of(c))[k] by {
                    assert(codes[k] == layered.diagnostics@[k]@);
                }
            }
        }
        let ast = CanonicalAst {
            provenance: canonical_layer(layered.provenance, layered.provenance_span),
            envelope: canonical_layer(layered.envelope, layered.envelope_span),
            content: canonical_layer(layered.content, layered.content_span),
            metrics: canonical_layer(layered.metrics, layered.metrics_span),
            strict_spine: layered.strict_spine,
            profile,
        };
        let ghost base = diag_views(diagnostics@);
        if layered.state == ParserState::Error {
            let d = ParseDiagnostic {
                code: string_of("STTP_PARSE_LAYER_ERROR"),
                message: string_of("unable to identify any STTP layers"),
                severity: ParseDiagnosticSeverity::Fatal,
                strict_impact: true,
                span: None,
            };
            diagnostics.push(d);
            assert(diag_views(diagnostics@) =~= base.push(layer_error_diag()));
            return fail_outline("unable to identify any STTP layers", profile, diagnostics, ast);
        }
        let complete = layered.strict_spine && layered.provenance.is_some()
            && layered.envelope.is_some() && layered.content.is_some() && layered.metrics.is_some();
        assert(complete == spine_complete(s));
        if profile == ParseProfile::Strict && !complete {
            let d = ParseDiagnostic {
                code: string_of("STTP_STRICT_PROFILE_VIOLATION"),
                message: string_of(
                    "strict profile requires full layer spine provenance->envelope->content->metrics",
                ),
                severity: ParseDiagnosticSeverity::Error,
                strict_impact: true,
                span: None,
            };
            diagnostics.push(d);
            assert(diag_views(diagnostics@) =~= base.push(strict_violation_diag()));
            return fail_outline(
                "strict profile violation: missing or out-of-order layers",
                profile,
                diagnostics,
                ast,
            );
        }
        let content = text_or(layered.content, raw);
        proof {
            lemma_content_span_fits(s);
            lemma_layer_bounds(s, LayerKind::Content);
            if layer_bounds(s, LayerKind::Content) is Some {
                lemma_byte_at_mono(s, 0, s.len() as int);
                let (a, b) = layer_bounds(s, LayerKind::Content)->0;
                lemma_byte_at_mono(s, a, b);
                lemma_byte_at_mono(s, b, s.len() as int);
            }
        }
        let mut content_diags = validate_content_schema(raw, content, layered.content_span);
        let schema_ok = content_diags.len() == 0;
        let ghost cviews = diag_views(content_diags@);
        diagnostics.append(&mut content_diags);
        proof {
            assert(cviews == content_check(s));
            assert(diag_views(diagnostics@) =~= base + cviews);
        }
        if !schema_ok && profile == ParseProfile::Strict {
            return fail_outline(
                "strict profile violation: content schema requires field_name(.confidence): value",
                profile,
                diagnostics,
                ast,
            );
        }
        let v = chars_of(raw);
        let fields = node_fields(raw, &v, &layered);
        ParseOutline {
            success: true,
            error: None,
            profile,
            strict_valid: complete && schema_ok,
            diagnostics,
            canonical_ast: Some(ast),
            fields: Some(fields),
        }
    }
}

} // verus!
