//! Structured parse diagnostics: what the layer parser and the content
//! schema check report, with a severity and, where known, a source span.
use vstd::prelude::*;
use crate::lexer::Span;
use crate::text::{chars_eq, chars_of, string_of};

verus! {

/// A byte range of the node text, with the line and column (both from 1)
/// where it starts.
#[derive(Debug, Clone, Copy, PartialEq, Eq, Structural)]
pub struct ParseSpan {
    pub start: usize,
    pub end: usize,
    pub line: usize,
    pub column: usize,
}

#[derive(Debug, Clone, Copy, PartialEq, Eq, Structural)]
pub enum ParseDiagnosticSeverity {
    Info,
    Warning,
    Error,
    Fatal,
}

#[derive(Debug, Clone)]
pub struct ParseDiagnostic {
    pub code: String,
    pub message: String,
    pub severity: ParseDiagnosticSeverity,
    pub strict_impact: bool,
    pub span: Option<ParseSpan>,
}

/// A diagnostic as plain values.
pub struct DiagView {
    pub code: Seq<char>,
    pub message: Seq<char>,
    pub severity: ParseDiagnosticSeverity,
    pub strict_impact: bool,
    pub span: Option<ParseSpan>,
}

impl View for ParseDiagnostic {
    type V = DiagView;

    open spec fn view(&self) -> DiagView {
        DiagView {
            code: self.code@,
            message: self.message@,
            severity: self.severity,
            strict_impact: self.strict_impact,
            span: self.span,
        }
    }
}

pub open spec fn diag_views(s: Seq<ParseDiagnostic>) -> Seq<DiagView> {
    s.map_values(|d: ParseDiagnostic| d@)
}

pub open spec fn parse_span_of(s: Span) -> ParseSpan {
    ParseSpan { start: s.start, end: s.end, line: s.line, column: s.column }
}

/// The lexer's span as a diagnostic span.
pub fn to_parse_span(span: Span) -> (r: ParseSpan)
    ensures
        r == parse_span_of(span),
{
    ParseSpan { start: span.start, end: span.end, line: span.line, column: span.column }
}

/// Message, severity and strictness impact of a layer-recovery diagnostic
/// code.
pub open spec fn layer_code_info(code: Seq<char>) -> (Seq<char>, ParseDiagnosticSeverity, bool) {
    if code == "non_strict_spine_recovered_tolerantly"@ {
        (
            "layer order deviates from strict spine; tolerant recovery applied"@,
            ParseDiagnosticSeverity::Warning,
            true,
        )
    } else if code == "missing_layer_provenance"@ {
        ("provenance layer marker not found"@, ParseDiagnosticSeverity::Error, true)
    } else if code == "missing_layer_envelope"@ {
        ("envelope layer marker not found"@, ParseDiagnosticSeverity::Error, true)
    } else if code == "missing_layer_content"@ {
        ("content layer marker not found"@, ParseDiagnosticSeverity::Warning, true)
    } else if code == "missing_layer_metrics"@ {
        ("metrics layer marker not found"@, ParseDiagnosticSeverity::Error, true)
    } else {
        ("parser emitted an unknown diagnostic"@, ParseDiagnosticSeverity::Info, false)
    }
}

/// The structured diagnostic for a layer-recovery code.
pub open spec fn structured_of(code: Seq<char>) -> DiagView {
    let (message, severity, strict_impact) = layer_code_info(code);
    DiagView { code, message, severity, strict_impact, span: None }
}

fn code_is(code: &Vec<char>, name: &str) -> (r: bool)
    ensures
        r == (code@ == name@),
{
    let n = chars_of(name);
    chars_eq(code, &n)
}

fn structured_diagnostic(code: &String) -> (r: ParseDiagnostic)
    ensures
        r@ == structured_of(code@),
{
    let v = chars_of(code.as_str());
    let (message, severity, strict_impact) = if code_is(&v, "non_strict_spine_recovered_tolerantly") {
        (
            string_of("layer order deviates from strict spine; tolerant recovery applied"),
            ParseDiagnosticSeverity::Warning,
            true,
        )
    } else if code_is(&v, "missing_layer_provenance") {
        (string_of("provenance layer marker not found"), ParseDiagnosticSeverity::Error, true)
    } else if code_is(&v, "missing_layer_envelope") {
        (string_of("envelope layer marker not found"), ParseDiagnosticSeverity::Error, true)
    } else if code_is(&v, "missing_layer_content") {
        (string_of("content layer marker not found"), ParseDiagnosticSeverity::Warning, true)
    } else if code_is(&v, "missing_layer_metrics") {
        (string_of("metrics layer marker not found"), ParseDiagnosticSeverity::Error, true)
    } else {
        (string_of("parser emitted an unknown diagnostic"), ParseDiagnosticSeverity::Info, false)
    };
    ParseDiagnostic { code: string_of(code.as_str()), message, severity, strict_impact, span: None }
}

/// The structured diagnostics of layer-recovery codes, one per code, in
/// order.
pub fn to_structured_diagnostics(codes: &[String]) -> (r: Vec<ParseDiagnostic>)
    ensures
        r@.len() == codes@.len(),
        forall|k: int| 0 <= k < codes@.len() ==> (#[trigger] r@[k])@ == structured_of(codes@[k]@),
{
    let mut r: Vec<ParseDiagnostic> = Vec::new();
    let mut i: usize = 0;
    while i < codes.len()
        invariant
            i <= codes@.len(),
            r@.len() == i,
            forall|k: int| 0 <= k < i ==> (#[trigger] r@[k])@ == structured_of(codes@[k]@),
        decreases codes@.len() - i,
    {
        let d = structured_diagnostic(&codes[i]);
        r.push(d);
        i = i + 1;
    }
    r
}

} // verus!
