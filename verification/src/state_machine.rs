//! Layer recovery for STTP node text: finds each of the four layers from the
//! token stream, checks the strict spine order and reports what is missing.
use vstd::prelude::*;
use vstd::string::StrSliceExecFns;
use crate::ast::{AstLayer, SttpAst};
use crate::lexer::{
    col_of, lex, lex_chars, line_of, start_kind, LexToken, Span, TokenKind,
};
use crate::lexicon::{layer_order, layer_order_vec, marker_chars, marker_vec, stop_marker, stop_marker_vec, LayerKind};
use crate::text::{
    byte_at, byte_offset, chars_of, find_from, first_match, fits, lemma_byte_at_mono,
    lemma_first_match_at, lemma_first_match_some, matches_at, string_of, utf8_len, byte_len_range,
};

verus! {

#[derive(Debug, Clone, Copy, PartialEq, Eq, Structural)]
pub enum ParserState {
    Start,
    InProvenance,
    InEnvelope,
    InContent,
    InMetrics,
    Done,
    Error,
}

#[derive(Debug, Clone)]
pub struct LayerParseOutcome<'a> {
    pub provenance: Option<&'a str>,
    pub provenance_span: Option<Span>,
    pub envelope: Option<&'a str>,
    pub envelope_span: Option<Span>,
    pub content: Option<&'a str>,
    pub content_span: Option<Span>,
    pub metrics: Option<&'a str>,
    pub metrics_span: Option<Span>,
    pub strict_spine: bool,
    pub state: ParserState,
    pub diagnostics: Vec<String>,
}

pub struct SttpLayerStateMachine;

// ---------------------------------------------------------------------------
// Specification

/// Index of the first token of kind `kind` at or after token index `from`.
pub open spec fn first_token_of(toks: Seq<(TokenKind, int)>, kind: TokenKind, from: int) -> Option<
    int,
>
    decreases toks.len() - from,
{
    if from < 0 || from >= toks.len() {
        None
    } else if toks[from].0 == kind {
        Some(from)
    } else {
        first_token_of(toks, kind, from + 1)
    }
}

/// Character bounds `[start, end)` of a layer: from its first opening marker
/// to the end of the first stop token after it (or, where no stop token
/// follows, the first stop marker after the opening marker).
pub open spec fn layer_bounds(s: Seq<char>, kind: LayerKind) -> Option<(int, int)> {
    let toks = lex(s);
    match first_token_of(toks, start_kind(kind), 0) {
        None => None,
        Some(ti) => {
            let cs = toks[ti].1;
            match first_token_of(toks, TokenKind::LayerEnd, ti + 1) {
                Some(ei) => Some((cs, toks[ei].1 + 1)),
                None => match first_match(s, stop_marker(), cs + 2) {
                    Some(p) => Some((cs, p + 1)),
                    None => None,
                },
            }
        }
    }
}

/// The text of a layer.
pub open spec fn layer_text(s: Seq<char>, kind: LayerKind) -> Option<Seq<char>> {
    match layer_bounds(s, kind) {
        Some((a, b)) => Some(s.subrange(a, b)),
        None => None,
    }
}

/// The span of a layer: its byte range and the line and column where it
/// starts.
pub open spec fn layer_span(s: Seq<char>, kind: LayerKind) -> Option<Span> {
    match layer_bounds(s, kind) {
        Some((a, b)) => Some(
            Span {
                start: byte_at(s, a) as usize,
                end: byte_at(s, b) as usize,
                line: line_of(s.take(a)) as usize,
                column: col_of(s.take(a)) as usize,
            },
        ),
        None => None,
    }
}

/// The markers `kinds` occur in `s` in this order, the first at or after
/// `from`, each after the end of the one before.
pub open spec fn spine_from(s: Seq<char>, kinds: Seq<LayerKind>, from: int) -> bool
    decreases kinds.len(),
{
    if kinds.len() == 0 {
        true
    } else {
        match first_match(s, marker_chars(kinds[0]), from) {
            None => false,
            Some(p) => spine_from(s, kinds.drop_first(), p + 2),
        }
    }
}

/// The four layer markers occur in spine order.
pub open spec fn strict_spine(s: Seq<char>) -> bool {
    spine_from(s, layer_order(), 0)
}

/// The diagnostics of layer recovery, in the order they are reported.
pub open spec fn layer_diagnostics(s: Seq<char>) -> Seq<Seq<char>> {
    (if strict_spine(s) {
        Seq::<Seq<char>>::empty()
    } else {
        seq!["non_strict_spine_recovered_tolerantly"@]
    }) + (if layer_bounds(s, LayerKind::Provenance) is None {
        seq!["missing_layer_provenance"@]
    } else {
        Seq::empty()
    }) + (if layer_bounds(s, LayerKind::Envelope) is None {
        seq!["missing_layer_envelope"@]
    } else {
        Seq::empty()
    }) + (if layer_bounds(s, LayerKind::Content) is None {
        seq!["missing_layer_content"@]
    } else {
        Seq::empty()
    }) + (if layer_bounds(s, LayerKind::Metrics) is None {
        seq!["missing_layer_metrics"@]
    } else {
        Seq::empty()
    })
}

/// The parser state reached: the last layer found along the spine, or
/// `Error` when no layer is found.
pub open spec fn layer_state(s: Seq<char>) -> ParserState {
    if layer_bounds(s, LayerKind::Metrics) is Some {
        ParserState::Done
    } else if layer_bounds(s, LayerKind::Content) is Some {
        ParserState::InContent
    } else if layer_bounds(s, LayerKind::Envelope) is Some {
        ParserState::InEnvelope
    } else if layer_bounds(s, LayerKind::Provenance) is Some {
        ParserState::InProvenance
    } else {
        ParserState::Error
    }
}

pub open spec fn opt_view(o: Option<&str>) -> Option<Seq<char>> {
    match o {
        Some(x) => Some(x@),
        None => None,
    }
}

/// `outcome` is the layer recovery of `s`.
pub open spec fn is_layer_outcome(s: Seq<char>, outcome: LayerParseOutcome) -> bool {
    &&& opt_view(outcome.provenance) == layer_text(s, LayerKind::Provenance)
    &&& outcome.provenance_span == layer_span(s, LayerKind::Provenance)
    &&& opt_view(outcome.envelope) == layer_text(s, LayerKind::Envelope)
    &&& outcome.envelope_span == layer_span(s, LayerKind::Envelope)
    &&& opt_view(outcome.content) == layer_text(s, LayerKind::Content)
    &&& outcome.content_span == layer_span(s, LayerKind::Content)
    &&& opt_view(outcome.metrics) == layer_text(s, LayerKind::Metrics)
    &&& outcome.metrics_span == layer_span(s, LayerKind::Metrics)
    &&& outcome.strict_spine == strict_spine(s)
    &&& outcome.state == layer_state(s)
    &&& outcome.diagnostics@.map_values(|d: String| d@) == layer_diagnostics(s)
}

/// The syntax-tree layer for a recovered layer text: the text and the byte
/// range of its first occurrence in `s`.
pub open spec fn ast_layer_of(s: Seq<char>, kind: LayerKind, source: Option<Seq<char>>) -> Option<
    (LayerKind, Seq<char>, int, int),
> {
    match source {
        None => None,
        Some(t) => match first_match(s, t, 0) {
            None => None,
            Some(p) => Some((kind, t, byte_at(s, p) as int, (byte_at(s, p) + utf8_len(t)) as int)),
        },
    }
}

pub open spec fn ast_layer_view(l: Option<AstLayer>) -> Option<(LayerKind, Seq<char>, int, int)> {
    match l {
        None => None,
        Some(l) => Some((l.kind, l.source@, l.start as int, l.end as int)),
    }
}

pub proof fn lemma_first_token_some(toks: Seq<(TokenKind, int)>, kind: TokenKind, from: int)
    requires
        first_token_of(toks, kind, from) is Some,
    ensures
        from <= first_token_of(toks, kind, from)->0 < toks.len(),
        toks[first_token_of(toks, kind, from)->0].0 == kind,
    decreases toks.len() - from,
{
    if from < 0 || from >= toks.len() {
    } else if toks[from].0 == kind {
    } else {
        lemma_first_token_some(toks, kind, from + 1);
    }
}

/// A recovered layer lies inside the text.
pub proof fn lemma_layer_bounds(s: Seq<char>, kind: LayerKind)
    ensures
        layer_bounds(s, kind) matches Some((a, b)) ==> 0 <= a <= b <= s.len(),
{
    let toks = lex(s);
    crate::lexer::lemma_lex_positions(s);
    match first_token_of(toks, start_kind(kind), 0) {
        None => {},
        Some(ti) => {
            lemma_first_token_some(toks, start_kind(kind), 0);
            assert(toks[ti].1 + crate::lexer::token_chars(toks[ti].0) <= s.len());
            match first_token_of(toks, TokenKind::LayerEnd, ti + 1) {
                Some(ei) => {
                    lemma_first_token_some(toks, TokenKind::LayerEnd, ti + 1);
                    assert(toks[ei].1 + crate::lexer::token_chars(toks[ei].0) <= s.len());
                },
                None => {
                    if first_match(s, stop_marker(), toks[ti].1 + 2) is Some {
                        lemma_first_match_some(s, stop_marker(), toks[ti].1 + 2);
                    }
                },
            }
        },
    }
}

proof fn lemma_first_token_first(toks: Seq<(TokenKind, int)>, kind: TokenKind, from: int)
    requires
        0 <= from,
        first_token_of(toks, kind, from) is Some,
    ensures
        forall|j: int| from <= j < first_token_of(toks, kind, from)->0 ==> toks[j].0 != kind,
    decreases toks.len() - from,
{
    if from < toks.len() && toks[from].0 != kind {
        lemma_first_token_first(toks, kind, from + 1);
    }
}

/// A recovered layer is at least its opening marker long, and its text
/// occurs first in `s` where the layer starts: an earlier occurrence would
/// hold an earlier opening marker, which the lexer would have taken.
pub proof fn lemma_layer_text_first_occurrence(s: Seq<char>, kind: LayerKind)
    requires
        layer_bounds(s, kind) is Some,
    ensures
        ({
            let (a, b) = layer_bounds(s, kind)->0;
            &&& 0 <= a && a + 2 <= b <= s.len()
            &&& first_match(s, s.subrange(a, b), 0) == Some(a)
        }),
{
    let toks = lex(s);
    crate::lexer::lemma_lex_positions(s);
    lemma_layer_bounds(s, kind);
    lemma_first_token_some(toks, start_kind(kind), 0);
    lemma_first_token_first(toks, start_kind(kind), 0);
    let ti = first_token_of(toks, start_kind(kind), 0)->0;
    let (a, b) = layer_bounds(s, kind)->0;
    assert(a == toks[ti].1);
    match first_token_of(toks, TokenKind::LayerEnd, ti + 1) {
        Some(ei) => {
            lemma_first_token_some(toks, TokenKind::LayerEnd, ti + 1);
            assert(toks[ti].1 + crate::lexer::token_chars(toks[ti].0) <= toks[ei].1);
        },
        None => {
            lemma_first_match_some(s, stop_marker(), toks[ti].1 + 2);
        },
    }
    let t = s.subrange(a, b);
    crate::lexer::lemma_lex_start_tokens(s, 0, kind);
    assert(matches_at(s, marker_chars(kind), a));
    assert(matches_at(s, t, a));
    assert forall|q: int| 0 <= q < a implies !matches_at(s, t, q) by {
        if matches_at(s, t, q) {
            assert(s.subrange(q, q + 2) =~= t.subrange(0, 2));
            assert(t.subrange(0, 2) =~= s.subrange(a, a + 2));
            crate::lexer::lemma_lex_reaches_marker(s, 0, q, kind);
            let j = choose|j: int| 0 <= j < toks.len() && toks[j] == (start_kind(kind), q);
            if j >= ti {
                if j > ti {
                    assert(toks[ti].1 + crate::lexer::token_chars(toks[ti].0) <= toks[j].1);
                }
            } else {
                assert(toks[j].0 != start_kind(kind));
            }
        }
    }
    lemma_first_match_at(s, t, 0, a);
}

/// The syntax-tree layer of a recovered layer stands at the layer's span:
/// the same text, over the byte range of the span.
pub proof fn lemma_ast_layer_at_span(s: Seq<char>, kind: LayerKind)
    requires
        fits(s),
    ensures
        ast_layer_of(s, kind, layer_text(s, kind)) == match layer_span(s, kind) {
            Some(sp) => Some((kind, layer_text(s, kind)->0, sp.start as int, sp.end as int)),
            None => None::<(LayerKind, Seq<char>, int, int)>,
        },
{
    if layer_bounds(s, kind) is Some {
        lemma_layer_text_first_occurrence(s, kind);
        let (a, b) = layer_bounds(s, kind)->0;
        lemma_byte_at_mono(s, a, b);
        lemma_byte_at_mono(s, b, s.len() as int);
    }
}

/// The syntax-tree layer `l` stands where the recovery found layer `kind`:
/// both absent, or the same text over the span's byte range.
pub open spec fn ast_at_span(l: Option<AstLayer>, kind: LayerKind, text: Option<&str>, span: Option<Span>) -> bool {
    match (l, text, span) {
        (None, None, None) => true,
        (Some(l), Some(t), Some(sp)) => l.kind == kind && l.source@ == t@ && l.start == sp.start
            && l.end == sp.end,
        _ => false,
    }
}

// ---------------------------------------------------------------------------
// Implementation

fn first_token_exec(
    toks: &Vec<LexToken>,
    Ghost(lexed): Ghost<Seq<(TokenKind, int)>>,
    kind: TokenKind,
    from: usize,
) -> (r: Option<usize>)
    requires
        toks@.len() == lexed.len(),
        forall|j: int| 0 <= j < toks@.len() ==> (#[trigger] toks@[j]).kind == lexed[j].0,
    ensures
        match r {
            Some(i) => first_token_of(lexed, kind, from as int) == Some(i as int) && i
                < toks@.len(),
            None => first_token_of(lexed, kind, from as int) is None,
        },
{
    let mut i = from;
    while i < toks.len()
        invariant
            from <= i,
            toks@.len() == lexed.len(),
            forall|j: int| 0 <= j < toks@.len() ==> (#[trigger] toks@[j]).kind == lexed[j].0,
            first_token_of(lexed, kind, from as int) == first_token_of(lexed, kind, i as int),
        decreases toks.len() - i,
    {
        if toks[i].kind == kind {
            proof {
                lemma_first_token_some(lexed, kind, from as int);
            }
            return Some(i);
        }
        i = i + 1;
    }
    None
}

/// Character bounds and span of a layer.
fn extract_layer(
    v: &Vec<char>,
    toks: &Vec<LexToken>,
    kind: LayerKind,
) -> (r: Option<(usize, usize, Span)>)
    requires
        fits(v@),
        toks@.len() == lex(v@).len(),
        forall|j: int|
            0 <= j < toks@.len() ==> (#[trigger] toks@[j]).kind == lex(v@)[j].0 && toks@[j].at
                == lex(v@)[j].1 && toks@[j].span == crate::lexer::span_of(
                v@,
                lex(v@)[j].0,
                lex(v@)[j].1,
            ),
    ensures
        match r {
            Some((a, b, sp)) => layer_bounds(v@, kind) == Some((a as int, b as int)) && layer_span(
                v@,
                kind,
            ) == Some(sp) && a <= b <= v@.len(),
            None => layer_bounds(v@, kind) is None,
        },
{
    let ghost lexed = lex(v@);
    let ntoks = toks.len();
    let n = v.len();
    let sk = match kind {
        LayerKind::Provenance => TokenKind::ProvenanceStart,
        LayerKind::Envelope => TokenKind::EnvelopeStart,
        LayerKind::Content => TokenKind::ContentStart,
        LayerKind::Metrics => TokenKind::MetricsStart,
    };
    let ti = match first_token_exec(toks, Ghost(lexed), sk, 0) {
        Some(ti) => ti,
        None => return None,
    };
    proof {
        crate::lexer::lemma_lex_positions(v@);
    }
    let start_tok = toks[ti];
    let cs = start_tok.at;
    proof {
        lemma_first_token_some(lexed, start_kind(kind), 0);
        assert(lexed[ti as int].1 + crate::lexer::token_chars(lexed[ti as int].0) <= v@.len());
        assert(cs + 2 <= n);
    }
    let ce: usize = match first_token_exec(toks, Ghost(lexed), TokenKind::LayerEnd, ti + 1) {
        Some(ei) => {
            proof {
                lemma_first_token_some(lexed, TokenKind::LayerEnd, ti + 1);
                assert(lexed[ei as int].1 + crate::lexer::token_chars(lexed[ei as int].0) <= v@.len());
                assert(lexed[ti as int].1 < lexed[ei as int].1);
            }
            toks[ei].at + 1
        },
        None => {
            let stop = stop_marker_vec();
            match find_from(v, &stop, cs + 2) {
                Some(p) => {
                    proof {
                        lemma_first_match_some(v@, stop_marker(), cs + 2);
                    }
                    p + 1
                },
                None => return None,
            }
        },
    };
    let end = byte_offset(v, ce);
    proof {
        assert(cs <= ce);
    }
    Some((cs, ce, Span { start: start_tok.span.start, end, line: start_tok.span.line, column: start_tok.span.column }))
}

fn is_strict_spine_chars(v: &Vec<char>) -> (r: bool)
    ensures
        r == strict_spine(v@),
{
    let order = layer_order_vec();
    let n = v.len();
    let mut last: usize = 0;
    let mut k: usize = 0;
    assert(layer_order().skip(0) =~= layer_order());
    while k < 4
        invariant
            order@ == layer_order(),
            n == v@.len(),
            k <= 4,
            last <= v@.len(),
            strict_spine(v@) == spine_from(v@, layer_order().skip(k as int), last as int),
        decreases 4 - k,
    {
        let m = marker_vec(order[k]);
        proof {
            assert(layer_order().skip(k as int)[0] == order@[k as int]);
            assert(layer_order().skip(k as int).drop_first() =~= layer_order().skip(k + 1));
        }
        match find_from(v, &m, last) {
            None => return false,
            Some(p) => {
                proof {
                    lemma_first_match_some(v@, m@, last as int);
                    assert(m@.len() == 2);
                    assert(p + 2 <= n);
                }
                last = p + 2;
            },
        }
        k = k + 1;
    }
    proof {
        assert(layer_order().skip(4).len() == 0);
    }
    true
}

fn opt_slice<'a>(raw: &'a str, b: &Option<(usize, usize, Span)>) -> (r: Option<&'a str>)
    requires
        *b matches Some((x, y, _)) ==> x <= y <= raw@.len(),
    ensures
        match *b {
            Some((x, y, _)) => r matches Some(t) && t@ == raw@.subrange(x as int, y as int),
            None => r is None,
        },
{
    match b {
        Some((x, y, _)) => Some(raw.substring_char(*x, *y)),
        None => None,
    }
}

fn opt_span(b: &Option<(usize, usize, Span)>) -> (r: Option<Span>)
    ensures
        match *b {
            Some((_, _, sp)) => r == Some(sp),
            None => r is None,
        },
{
    match b {
        Some((_, _, sp)) => Some(*sp),
        None => None,
    }
}

fn make_ast_layer(raw: &str, v: &Vec<char>, kind: LayerKind, source: Option<&str>) -> (r: Option<
    AstLayer,
>)
    requires
        v@ == raw@,
        fits(v@),
    ensures
        ast_layer_view(r) == ast_layer_of(v@, kind, opt_view(source)),
{
    match source {
        None => None,
        Some(slice) => {
            let t = chars_of(slice);
            let n = v.len();
            match find_from(v, &t, 0) {
                None => None,
                Some(p) => {
                    proof {
                        lemma_first_match_some(v@, t@, 0);
                        lemma_byte_at_mono(v@, p as int, p + t@.len());
                        lemma_byte_at_mono(v@, p + t@.len(), v@.len() as int);
                        assert(v@.subrange(p as int, p + t@.len()) == t@);
                    }
                    let start = byte_offset(v, p);
                    let len = byte_len_range(v, p, p + t.len());
                    Some(AstLayer { kind, source: string_of(slice), start, end: start + len })
                },
            }
        },
    }
}

impl SttpLayerStateMachine {
    /// Recovers the four layers of `raw`, whether they stand in spine order
    /// or not, and reports the layers that are missing.
    pub fn parse<'a>(raw: &'a str) -> (r: LayerParseOutcome<'a>)
        requires
            fits(raw@),
        ensures
            is_layer_outcome(raw@, r),
    {
        let v = chars_of(raw);
        let toks = lex_chars(&v);
        let provenance = extract_layer(&v, &toks, LayerKind::Provenance);
        let envelope = extract_layer(&v, &toks, LayerKind::Envelope);
        let content = extract_layer(&v, &toks, LayerKind::Content);
        let metrics = extract_layer(&v, &toks, LayerKind::Metrics);

        let strict_spine = is_strict_spine_chars(&v);
        let mut diagnostics: Vec<String> = Vec::new();
        let ghost mut expected: Seq<Seq<char>> = Seq::empty();
        if !strict_spine {
            diagnostics.push(string_of("non_strict_spine_recovered_tolerantly"));
            proof {
                expected = expected + seq!["non_strict_spine_recovered_tolerantly"@];
            }
        }
        if provenance.is_none() {
            diagnostics.push(string_of("missing_layer_provenance"));
            proof {
                expected = expected + seq!["missing_layer_provenance"@];
            }
        }
        if envelope.is_none() {
            diagnostics.push(string_of("missing_layer_envelope"));
            proof {
                expected = expected + seq!["missing_layer_envelope"@];
            }
        }
        if content.is_none() {
            diagnostics.push(string_of("missing_layer_content"));
            proof {
                expected = expected + seq!["missing_layer_content"@];
            }
        }
        if metrics.is_none() {
            diagnostics.push(string_of("missing_layer_metrics"));
            proof {
                expected = expected + seq!["missing_layer_metrics"@];
            }
        }
        proof {
            assert(diagnostics@.map_values(|d: String| d@) =~= expected);
            assert(expected =~= layer_diagnostics(raw@));
        }

        let state = if metrics.is_some() {
            ParserState::Done
        } else if content.is_some() {
            ParserState::InContent
        } else if envelope.is_some() {
            ParserState::InEnvelope
        } else if provenance.is_some() {
            ParserState::InProvenance
        } else {
            ParserState::Error
        };

        LayerParseOutcome {
            provenance: opt_slice(raw, &provenance),
            provenance_span: opt_span(&provenance),
            envelope: opt_slice(raw, &envelope),
            envelope_span: opt_span(&envelope),
            content: opt_slice(raw, &content),
            content_span: opt_span(&content),
            metrics: opt_slice(raw, &metrics),
            metrics_span: opt_span(&metrics),
            strict_spine,
            state,
            diagnostics,
        }
    }

    /// The syntax tree of a layer recovery: each recovered layer with the
    /// byte range of the first occurrence of its text in `raw`.
    pub fn to_ast(raw: &str, parsed: &LayerParseOutcome<'_>) -> (r: SttpAst)
        requires
            fits(raw@),
        ensures
            ast_layer_view(r.provenance) == ast_layer_of(
                raw@,
                LayerKind::Provenance,
                opt_view(parsed.provenance),
            ),
            ast_layer_view(r.envelope) == ast_layer_of(
                raw@,
                LayerKind::Envelope,
                opt_view(parsed.envelope),
            ),
            ast_layer_view(r.content) == ast_layer_of(
                raw@,
                LayerKind::Content,
                opt_view(parsed.content),
            ),
            ast_layer_view(r.metrics) == ast_layer_of(
                raw@,
                LayerKind::Metrics,
                opt_view(parsed.metrics),
            ),
            r.strict_spine == parsed.strict_spine,
            is_layer_outcome(raw@, *parsed) ==> {
                &&& ast_at_span(r.provenance, LayerKind::Provenance, parsed.provenance, parsed.provenance_span)
                &&& ast_at_span(r.envelope, LayerKind::Envelope, parsed.envelope, parsed.envelope_span)
                &&& ast_at_span(r.content, LayerKind::Content, parsed.content, parsed.content_span)
                &&& ast_at_span(r.metrics, LayerKind::Metrics, parsed.metrics, parsed.metrics_span)
            },
    {
        proof {
            lemma_ast_layer_at_span(raw@, LayerKind::Provenance);
            lemma_ast_layer_at_span(raw@, LayerKind::Envelope);
            lemma_ast_layer_at_span(raw@, LayerKind::Content);
            lemma_ast_layer_at_span(raw@, LayerKind::Metrics);
        }
        let v = chars_of(raw);
        SttpAst {
            provenance: make_ast_layer(raw, &v, LayerKind::Provenance, parsed.provenance),
            envelope: make_ast_layer(raw, &v, LayerKind::Envelope, parsed.envelope),
            content: make_ast_layer(raw, &v, LayerKind::Content, parsed.content),
            metrics: make_ast_layer(raw, &v, LayerKind::Metrics, parsed.metrics),
            strict_spine: parsed.strict_spine,
        }
    }
}

} // verus!
