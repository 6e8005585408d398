//! The content-layer schema of an STTP node: an object whose fields are
//! written `field_name(.confidence): value`, the confidence a number in
//! `[0, 1]`, objects nested in values checked the same way.  Violations are
//! reported as diagnostics whose spans point into the node text.
use vstd::prelude::*;
use vstd::string::StrSliceExecFns;
use crate::content_scan::{
    braced_content, closing_brace, depth_through, find_top_colon, lemma_pairs_bounds, pairs_of,
    split_pairs, top_colon,
};
use crate::diagnostics::{
    diag_views, parse_span_of, to_parse_span, DiagView, ParseDiagnostic, ParseDiagnosticSeverity,
    ParseSpan,
};
use crate::number::{
    confidence_accepted, confidence_in_range, display_number, is_number_text, is_number_text_exec,
    number_display,
};
use crate::lexer::{col_of, lemma_line_col_bound, lemma_line_col_step, line_of, Span};
use crate::text::{
    byte_at, byte_len_range, byte_offset, char_width, chars_of, find_from, first_match, fits,
    lead_ws, lemma_byte_at_mono, lemma_byte_at_step, lemma_first_match_some, lemma_lead_ws,
    lemma_trail_ws, matches_at, push_range, push_str, string_of, sub_vec, trim, trim_bounds,
    utf8_len,
};

verus! {

// ---------------------------------------------------------------------------
// Lines and columns

/// Number of characters of `s`, from index `i` on, that start before byte
/// `target`.
pub open spec fn chars_before(s: Seq<char>, target: int, i: int) -> int
    decreases s.len() - i,
{
    if i < 0 || i >= s.len() || byte_at(s, i) >= target {
        i
    } else {
        chars_before(s, target, i + 1)
    }
}

/// Line and column (both from 1) reached after reading the characters of
/// `s` that start before byte `target`.
pub open spec fn line_col(s: Seq<char>, target: int) -> (usize, usize) {
    let k = chars_before(s, target, 0);
    (line_of(s.take(k)) as usize, col_of(s.take(k)) as usize)
}

proof fn lemma_chars_before_bounds(s: Seq<char>, target: int, i: int)
    requires
        0 <= i <= s.len(),
    ensures
        i <= chars_before(s, target, i) <= s.len(),
    decreases s.len() - i,
{
    if i < s.len() && byte_at(s, i) < target {
        lemma_chars_before_bounds(s, target, i + 1);
    }
}

/// Line and column of byte `target` of `raw`.
pub fn line_col_at(raw: &Vec<char>, target: usize) -> (r: (usize, usize))
    requires
        fits(raw@),
    ensures
        r == line_col(raw@, target as int),
{
    let n = raw.len();
    let mut line: usize = 1;
    let mut column: usize = 1;
    let mut index: usize = 0;
    let mut i: usize = 0;
    proof {
        assert(raw@.take(0) =~= Seq::<char>::empty());
        lemma_byte_at_mono(raw@, 0, n as int);
    }
    while i < n && index < target
        invariant
            n == raw@.len(),
            fits(raw@),
            i <= n,
            index == byte_at(raw@, i as int),
            line == line_of(raw@.take(i as int)),
            column == col_of(raw@.take(i as int)),
            chars_before(raw@, target as int, 0) == chars_before(raw@, target as int, i as int),
        decreases n - i,
    {
        proof {
            lemma_line_col_step(raw@, i as int);
            lemma_line_col_bound(raw@.take(i as int));
            lemma_byte_at_step(raw@, i as int);
            lemma_byte_at_mono(raw@, i + 1, n as int);
            crate::text::lemma_utf8_len_ge_len(raw@);
        }
        let c = raw[i];
        if c == '\n' {
            line = line + 1;
            column = 1;
        } else {
            column = column + 1;
        }
        index = index + char_width(c);
        i = i + 1;
    }
    (line, column)
}

// ---------------------------------------------------------------------------
// Objects

/// The first `{` that `closes`: `j` is the closing brace of the `{` at `i`.
pub proof fn lemma_closing_brace_unique(s: Seq<char>, i: int, j: int, j2: int)
    requires
        closing_brace(s, i, j),
        closing_brace(s, i, j2),
    ensures
        j == j2,
{
    if j < j2 {
        assert(depth_through(s, i, j) > 0);
    } else if j2 < j {
        assert(depth_through(s, i, j2) > 0);
    }
}

/// Character bounds of the text inside the braces that open at `i`, if they
/// close.
pub open spec fn braced_bounds(s: Seq<char>, i: int) -> Option<(int, int)> {
    if exists|j: int| closing_brace(s, i, j) {
        Some((i + 1, choose|j: int| closing_brace(s, i, j)))
    } else {
        None
    }
}

/// Character bounds of the first object of `s`: the text inside the braces
/// that open at its first `{`.
pub open spec fn first_object_bounds(s: Seq<char>) -> Option<(int, int)> {
    match first_match(s, seq!['{'], 0) {
        None => None,
        Some(i) => braced_bounds(s, i),
    }
}

/// Character bounds of the object named `key` in `s`: the braces that open
/// at the first `{` after the first `:` after the first occurrence of `key`.
pub open spec fn named_object_bounds(s: Seq<char>, key: Seq<char>) -> Option<(int, int)> {
    match first_match(s, key, 0) {
        None => None,
        Some(k) => match first_match(s, seq![':'], k + key.len()) {
            None => None,
            Some(c) => match first_match(s, seq!['{'], c + 1) {
                None => None,
                Some(b) => braced_bounds(s, b),
            },
        },
    }
}

fn braced_at(v: &Vec<char>, i: usize) -> (r: Option<(usize, usize)>)
    requires
        i < v@.len(),
        v@[i as int] == '{',
    ensures
        match r {
            Some((a, b)) => braced_bounds(v@, i as int) == Some((a as int, b as int)) && a <= b
                < v@.len(),
            None => braced_bounds(v@, i as int) is None,
        },
{
    match braced_content(v, i) {
        Some((a, b)) => {
            proof {
                let j = choose|j: int| closing_brace(v@, i as int, j);
                lemma_closing_brace_unique(v@, i as int, j, b as int);
            }
            Some((a, b))
        },
        None => None,
    }
}

fn char_vec(c: char) -> (r: Vec<char>)
    ensures
        r@ == seq![c],
{
    let mut r: Vec<char> = Vec::new();
    r.push(c);
    assert(r@ =~= seq![c]);
    r
}

/// Character bounds of the first object of `v` (see `first_object_bounds`).
pub fn first_object(v: &Vec<char>) -> (r: Option<(usize, usize)>)
    ensures
        match r {
            Some((a, b)) => first_object_bounds(v@) == Some((a as int, b as int)) && 0 < a <= b
                < v@.len(),
            None => first_object_bounds(v@) is None,
        },
{
    let open = char_vec('{');
    match find_from(v, &open, 0) {
        None => None,
        Some(i) => {
            proof {
                lemma_first_match_some(v@, open@, 0);
                assert(v@.subrange(i as int, i + 1)[0] == v@[i as int]);
            }
            braced_at(v, i)
        },
    }
}

/// Character bounds of the object named `key` in `v` (see
/// `named_object_bounds`).
pub fn named_object(v: &Vec<char>, key: &Vec<char>) -> (r: Option<(usize, usize)>)
    ensures
        match r {
            Some((a, b)) => named_object_bounds(v@, key@) == Some((a as int, b as int)) && 0 < a
                <= b < v@.len(),
            None => named_object_bounds(v@, key@) is None,
        },
{
    let n = v.len();
    let fk = find_from(v, key, 0);
    if fk.is_none() {
        return None;
    }
    let k = fk.unwrap();
    proof {
        lemma_first_match_some(v@, key@, 0);
        assert(matches_at(v@, key@, k as int));
    }
    let colon = char_vec(':');
    let fc = find_from(v, &colon, k + key.len());
    if fc.is_none() {
        return None;
    }
    let c = fc.unwrap();
    proof {
        lemma_first_match_some(v@, colon@, k + key@.len());
        assert(matches_at(v@, colon@, c as int));
    }
    let open = char_vec('{');
    match find_from(v, &open, c + 1) {
        None => None,
        Some(b) => {
            proof {
                lemma_first_match_some(v@, open@, c + 1);
                assert(v@.subrange(b as int, b + 1)[0] == v@[b as int]);
            }
            braced_at(v, b)
        },
    }
}

/// The text inside the first object of `input`.
pub fn extract_first_object(input: &str) -> (r: Option<&str>)
    requires
        fits(input@),
    ensures
        match first_object_bounds(input@) {
            Some((a, b)) => r matches Some(o) && o@ == input@.subrange(a, b),
            None => r is None,
        },
{
    let v = chars_of(input);
    match first_object(&v) {
        Some((a, b)) => Some(input.substring_char(a, b)),
        None => None,
    }
}

/// The text inside the object named `key` in `source`: the braces that open
/// at the first `{` after the first `:` after the first occurrence of `key`.
pub fn extract_named_object<'a>(source: &'a str, key: &str) -> (r: Option<&'a str>)
    requires
        fits(source@),
    ensures
        match named_object_bounds(source@, key@) {
            Some((a, b)) => r matches Some(o) && o@ == source@.subrange(a, b),
            None => r is None,
        },
{
    let v = chars_of(source);
    let kv = chars_of(key);
    match named_object(&v, &kv) {
        Some((a, b)) => Some(source.substring_char(a, b)),
        None => None,
    }
}

// ---------------------------------------------------------------------------
// Spans of content diagnostics

/// Byte offset, in the content layer, of the text of its first object (0
/// where it has none).
pub open spec fn object_offset(layer: Seq<char>) -> int {
    match first_object_bounds(layer) {
        Some((a, _)) => byte_at(layer, a) as int,
        None => 0,
    }
}

/// The span reported for `len` bytes at byte offset `local` of the content
/// layer: the offset of the layer's first object is added to the layer's
/// start and to `local` (which already counts it, so it is counted twice);
/// the span covers at least one byte and its end saturates at
/// `usize::MAX`.  No span where the layer has none.
pub open spec fn projected_span(
    raw: Seq<char>,
    layer: Seq<char>,
    span: Option<Span>,
    local: int,
    len: int,
) -> Option<ParseSpan> {
    match span {
        None => None,
        Some(sp) => {
            let start = sp.start + object_offset(layer) + local;
            let w = if len < 1 {
                1
            } else {
                len
            };
            let end = if start + w > usize::MAX {
                usize::MAX as int
            } else {
                start + w
            };
            let (line, column) = line_col(raw, start);
            Some(ParseSpan { start: start as usize, end: end as usize, line, column })
        },
    }
}

proof fn lemma_object_offset_bound(layer: Seq<char>)
    ensures
        0 <= object_offset(layer) <= utf8_len(layer),
{
    match first_object_bounds(layer) {
        Some((a, _)) => {
            lemma_first_object_bounds(layer);
            lemma_byte_at_mono(layer, a, layer.len() as int);
        },
        None => {},
    }
}

proof fn lemma_first_object_bounds(layer: Seq<char>)
    ensures
        first_object_bounds(layer) matches Some((a, b)) ==> 0 < a <= b < layer.len(),
{
    match first_match(layer, seq!['{'], 0) {
        None => {},
        Some(i) => {
            lemma_first_match_some(layer, seq!['{'], 0);
            if exists|j: int| closing_brace(layer, i, j) {
                let j = choose|j: int| closing_brace(layer, i, j);
                assert(closing_brace(layer, i, j));
            }
        },
    }
}

/// The span for `len` bytes at byte offset `local` of the content layer
/// (see `projected_span`).
pub fn project_content_span(
    raw: &Vec<char>,
    layer: &Vec<char>,
    span: Option<Span>,
    local: usize,
    len: usize,
) -> (r: Option<ParseSpan>)
    requires
        fits(raw@),
        fits(layer@),
        span matches Some(sp) ==> sp.start + utf8_len(layer@) + local <= usize::MAX,
    ensures
        r == projected_span(raw@, layer@, span, local as int, len as int),
{
    match span {
        None => None,
        Some(sp) => {
            proof {
                lemma_object_offset_bound(layer@);
            }
            let offset = match first_object(layer) {
                Some((a, _)) => byte_offset(layer, a),
                None => 0,
            };
            let start = sp.start + offset + local;
            let w = if len < 1 {
                1
            } else {
                len
            };
            let end = start.saturating_add(w);
            let (line, column) = line_col_at(raw, start);
            Some(ParseSpan { start, end, line, column })
        },
    }
}

// ---------------------------------------------------------------------------
// Content keys

pub open spec fn is_name_start(c: char) -> bool {
    ('A' <= c && c <= 'Z') || ('a' <= c && c <= 'z') || c == '_'
}

pub open spec fn is_name_char(c: char) -> bool {
    is_name_start(c) || ('0' <= c && c <= '9')
}

/// The confidence text of a content key, where the key as a whole matches
/// `[A-Za-z_][A-Za-z0-9_]*\(\s*([-+]?\d*\.?\d+)\s*\)`: a name, then in
/// parentheses, whitespace aside, a number.
pub open spec fn key_confidence(k: Seq<char>) -> Option<Seq<char>> {
    match first_match(k, seq!['('], 0) {
        None => None,
        Some(p) => {
            let inner = trim(k.subrange(p + 1, k.len() - 1));
            if p >= 1 && is_name_start(k[0]) && (forall|i: int|
                1 <= i < p ==> is_name_char(#[trigger] k[i])) && k.len() >= p + 2 && k.last() == ')'
                && is_number_text(inner) {
                Some(inner)
            } else {
                None
            }
        },
    }
}

/// No digit is whitespace.
proof fn lemma_digit_not_ws(c: char)
    requires
        crate::number::is_unicode_digit(c) || c == '.',
    ensures
        !crate::text::is_ws(c),
{
    reveal(crate::number::is_unicode_digit);
    let u = c as u32;
    if crate::text::is_ws(c) {
        assert(u == 9 || u == 10 || u == 11 || u == 12 || u == 13 || u == 32 || u == 0x85 || u == 0xa0
            || u == 0x1680 || (0x2000 <= u && u <= 0x200a) || u == 0x2028 || u == 0x2029 || u == 0x202f
            || u == 0x205f || u == 0x3000);
        assert(!crate::number::is_unicode_digit(c));
    }
}

/// A content key written as a name, an opening parenthesis, a number text
/// and a closing parenthesis has that number as its confidence.  The name
/// is an ASCII letter or `_`, then any ASCII letters, digits and `_`.
pub proof fn lemma_named_key_confidence(name: Seq<char>, c: Seq<char>)
    requires
        name.len() >= 1,
        ('A' <= name[0] && name[0] <= 'Z') || ('a' <= name[0] && name[0] <= 'z') || name[0] == '_',
        forall|i: int|
            1 <= i < name.len() ==> ('A' <= #[trigger] name[i] && name[i] <= 'Z') || ('a' <= name[i]
                && name[i] <= 'z') || ('0' <= name[i] && name[i] <= '9') || name[i] == '_',
        is_number_text(c),
    ensures
        key_confidence(name + seq!['('] + c + seq![')']) == Some(c),
{
    let k = name + seq!['('] + c + seq![')'];
    let p = name.len() as int;
    assert(k[p] == '(');
    assert(matches_at(k, seq!['('], p)) by {
        assert(k.subrange(p, p + 1) =~= seq!['(']);
    }
    assert forall|j: int| 0 <= j < p implies !matches_at(k, seq!['('], j) by {
        assert(k[j] == name[j]);
        if matches_at(k, seq!['('], j) {
            assert(k.subrange(j, j + 1)[0] == k[j]);
        }
    }
    crate::text::lemma_first_match_at(k, seq!['('], 0, p);
    assert(k.subrange(p + 1, k.len() - 1) =~= c);
    assert forall|i: int| 1 <= i < p implies is_name_char(#[trigger] k[i]) by {
        assert(k[i] == name[i]);
    }
    assert(k[0] == name[0]);
    assert(k.last() == ')');
    let b = crate::number::number_body(c);
    assert(c.len() > 0);
    assert(!crate::text::is_ws(c[0])) by {
        if c[0] != '+' && c[0] != '-' {
            assert(c[0] == b[0]);
            assert(crate::number::is_unicode_digit(b[0]) || b[0] == '.');
            lemma_digit_not_ws(b[0]);
        }
    }
    assert(c.last() == b.last());
    lemma_digit_not_ws(c.last());
    assert(lead_ws(c) == 0);
    assert(crate::text::trail_ws(c) == 0);
    assert(trim(c) =~= c);
}

/// Bounds in `k` of the confidence text of the content key `k` (see
/// `key_confidence`).
pub fn key_confidence_bounds(k: &Vec<char>) -> (r: Option<(usize, usize)>)
    ensures
        match r {
            Some((x, y)) => x <= y <= k@.len() && key_confidence(k@) == Some(
                k@.subrange(x as int, y as int),
            ),
            None => key_confidence(k@) is None,
        },
{
    let n = k.len();
    let open = char_vec('(');
    let fp = find_from(k, &open, 0);
    if fp.is_none() {
        return None;
    }
    let p = fp.unwrap();
    proof {
        lemma_first_match_some(k@, open@, 0);
        assert(matches_at(k@, open@, p as int));
    }
    if p < 1 || n - p < 2 || k[n - 1] != ')' {
        return None;
    }
    let c0 = k[0];
    if !(('A' <= c0 && c0 <= 'Z') || ('a' <= c0 && c0 <= 'z') || c0 == '_') {
        assert(!is_name_start(k@[0]));
        return None;
    }
    let mut i: usize = 1;
    while i < p
        invariant
            1 <= i <= p < n,
            n == k@.len(),
            first_match(k@, seq!['('], 0) == Some(p as int),
            forall|m: int| 1 <= m < i ==> is_name_char(#[trigger] k@[m]),
        decreases p - i,
    {
        let c = k[i];
        if !(('A' <= c && c <= 'Z') || ('a' <= c && c <= 'z') || c == '_' || ('0' <= c && c
            <= '9')) {
            assert(!is_name_char(k@[i as int]));
            return None;
        }
        i = i + 1;
    }
    let (x, y) = trim_bounds(k, p + 1, n - 1);
    if !is_number_text_exec(k, x, y) {
        return None;
    }
    Some((x, y))
}

// ---------------------------------------------------------------------------
// The schema check

/// What the check reads: the node text, its content layer and the span of
/// the layer in the node.
pub struct SchemaInput {
    pub raw: Seq<char>,
    pub layer: Seq<char>,
    pub span: Option<Span>,
}

/// Spans of diagnostics stay below `usize::MAX`.
pub open spec fn span_fits(span: Option<Span>, layer: Seq<char>) -> bool {
    span matches Some(sp) ==> sp.start + 2 * utf8_len(layer) <= usize::MAX
}

pub open spec fn schema_error(code: Seq<char>, message: Seq<char>, span: Option<ParseSpan>) -> DiagView {
    DiagView { code, message, severity: ParseDiagnosticSeverity::Error, strict_impact: true, span }
}

/// The span for `len` bytes at character index `pos` of the layer.
pub open spec fn span_at(c: SchemaInput, pos: int, len: int) -> Option<ParseSpan> {
    projected_span(c.raw, c.layer, c.span, byte_at(c.layer, pos) as int, len)
}

/// Character index in the layer of the top-level `:` of the field
/// `layer[pa..pb]`.
pub open spec fn field_colon(c: SchemaInput, pa: int, pb: int) -> Option<int> {
    match top_colon(c.layer.subrange(pa, pb)) {
        Some(x) => Some(pa + x),
        None => None,
    }
}

/// The diagnostics of the field `layer[pa..pb]`, those of an object nested
/// in its value aside: a field without `:`; a key that is not
/// `name(confidence)`; a confidence outside `[0, 1]`; a missing value.
pub open spec fn field_diags(c: SchemaInput, pa: int, pb: int) -> Seq<DiagView> {
    let text = c.layer.subrange(pa, pb);
    match field_colon(c, pa, pb) {
        None => seq![
            schema_error(
                "STTP_CONTENT_SCHEMA_INVALID_PAIR"@,
                "content field missing ':' separator: "@ + text,
                span_at(c, pa, utf8_len(text) as int),
            ),
        ],
        Some(kc) => {
            let key = trim(c.layer.subrange(pa, kc));
            let value = trim(c.layer.subrange(kc + 1, pb));
            match key_confidence(key) {
                None => seq![
                    schema_error(
                        "STTP_CONTENT_SCHEMA_INVALID_KEY"@,
                        "content key must match field_name(.confidence): found '"@ + key + "'"@,
                        span_at(c, pa, utf8_len(key) as int),
                    ),
                ],
                Some(conf) => (if confidence_accepted(conf) {
                    Seq::empty()
                } else {
                    seq![
                        schema_error(
                            "STTP_CONTENT_SCHEMA_INVALID_CONFIDENCE"@,
                            "content confidence must be in [0,1]: found "@ + number_display(conf)
                                + " for key '"@ + key + "'"@,
                            span_at(c, pa, utf8_len(key) as int),
                        ),
                    ]
                }) + (if value.len() == 0 {
                    seq![
                        schema_error(
                            "STTP_CONTENT_SCHEMA_MISSING_VALUE"@,
                            "content value is missing for key '"@ + key + "'"@,
                            span_at(c, kc + 1, 1),
                        ),
                    ]
                } else {
                    Seq::empty()
                }),
            }
        },
    }
}

/// The object nested in the value of the field `layer[pa..pb]`, where the
/// key is well formed and the value is written `{...}`: the character
/// bounds of the text inside the braces.
pub open spec fn field_nested(c: SchemaInput, pa: int, pb: int) -> Option<(int, int)> {
    match field_colon(c, pa, pb) {
        None => None,
        Some(kc) => {
            let key = trim(c.layer.subrange(pa, kc));
            let vseg = c.layer.subrange(kc + 1, pb);
            let value = trim(vseg);
            if key_confidence(key) is Some && value.len() > 0 && value[0] == '{' && value.last()
                == '}' {
                let vs = kc + 1 + lead_ws(vseg);
                Some((vs + 1, vs + value.len() - 1))
            } else {
                None
            }
        },
    }
}

/// The diagnostics of the fields of `layer[lo..hi]` from the `k`-th on,
/// each field's own before those of the object nested in its value.
pub open spec fn fields_diags(c: SchemaInput, lo: int, hi: int, k: int) -> Seq<DiagView>
    decreases hi - lo, pairs_of(c.layer.subrange(lo, hi)).len() - k,
{
    let ps = pairs_of(c.layer.subrange(lo, hi));
    if 0 <= lo <= hi <= c.layer.len() && 0 <= k < ps.len() {
        let pa = lo + ps[k].0;
        let pb = lo + ps[k].1;
        let nested = match field_nested(c, pa, pb) {
            Some((ia, ib)) => if lo < ia <= ib <= hi {
                fields_diags(c, ia, ib, 0)
            } else {
                Seq::empty()
            },
            None => Seq::empty(),
        };
        field_diags(c, pa, pb) + nested + fields_diags(c, lo, hi, k + 1)
    } else {
        Seq::empty()
    }
}

/// The diagnostics of the content layer `layer` of the node `raw`: one for
/// a layer without an object, else those of the fields of its first object.
pub open spec fn content_diagnostics(raw: Seq<char>, layer: Seq<char>, span: Option<Span>) -> Seq<
    DiagView,
> {
    match first_object_bounds(layer) {
        None => seq![
            schema_error(
                "STTP_CONTENT_SCHEMA_MISSING_OBJECT"@,
                "content layer must contain an object payload"@,
                match span {
                    Some(sp) => Some(parse_span_of(sp)),
                    None => None,
                },
            ),
        ],
        Some((a, b)) => fields_diags(SchemaInput { raw, layer, span }, a, b, 0),
    }
}

fn push_diag(diags: &mut Vec<ParseDiagnostic>, d: ParseDiagnostic)
    ensures
        diag_views(final(diags)@) == diag_views(old(diags)@) + seq![d@],
{
    let ghost v = d@;
    diags.push(d);
    assert(diag_views(diags@) =~= diag_views(old(diags)@) + seq![v]);
}

fn error_diag(code: &str, message: String, span: Option<ParseSpan>) -> (r: ParseDiagnostic)
    ensures
        r@ == schema_error(code@, message@, span),
{
    ParseDiagnostic {
        code: string_of(code),
        message,
        severity: ParseDiagnosticSeverity::Error,
        strict_impact: true,
        span,
    }
}

/// Checks the field `layer[pa..pb]` and reports its diagnostics; gives the
/// bounds of the object nested in its value, if any.
fn check_field(
    raw: &Vec<char>,
    layer: &Vec<char>,
    span: Option<Span>,
    pa: usize,
    pb: usize,
    diags: &mut Vec<ParseDiagnostic>,
) -> (nested: Option<(usize, usize)>)
    requires
        pa <= pb <= layer@.len(),
        fits(raw@),
        fits(layer@),
        span_fits(span, layer@),
    ensures
        diag_views(final(diags)@) == diag_views(old(diags)@) + field_diags(
            SchemaInput { raw: raw@, layer: layer@, span },
            pa as int,
            pb as int,
        ),
        match nested {
            Some((a, b)) => field_nested(SchemaInput { raw: raw@, layer: layer@, span }, pa as int, pb as int)
                == Some((a as int, b as int)) && pa < a <= b <= pb,
            None => field_nested(SchemaInput { raw: raw@, layer: layer@, span }, pa as int, pb as int) is None,
        },
{
    let ghost c = SchemaInput { raw: raw@, layer: layer@, span };
    proof {
        lemma_byte_at_mono(layer@, pa as int, pb as int);
        lemma_byte_at_mono(layer@, pb as int, layer@.len() as int);
    }
    let colon = find_top_colon(layer, pa, pb);
    if colon.is_none() {
        let mut m = string_of("content field missing ':' separator: ");
        push_range(&mut m, layer, pa, pb);
        let local = byte_offset(layer, pa);
        let len = byte_len_range(layer, pa, pb);
        let sp = project_content_span(raw, layer, span, local, len);
        push_diag(diags, error_diag("STTP_CONTENT_SCHEMA_INVALID_PAIR", m, sp));
        return None;
    }
    let kc = colon.unwrap();
    proof {
        lemma_byte_at_mono(layer@, kc + 1, layer@.len() as int);
    }
    let (ka, kb) = trim_bounds(layer, pa, kc);
    let (va, vb) = trim_bounds(layer, kc + 1, pb);
    let key = sub_vec(layer, ka, kb);
    let local = byte_offset(layer, pa);
    let key_len = byte_len_range(layer, ka, kb);
    let conf = key_confidence_bounds(&key);
    if conf.is_none() {
        let mut m = string_of("content key must match field_name(.confidence): found '");
        push_range(&mut m, layer, ka, kb);
        push_str(&mut m, "'");
        let sp = project_content_span(raw, layer, span, local, key_len);
        push_diag(diags, error_diag("STTP_CONTENT_SCHEMA_INVALID_KEY", m, sp));
        return None;
    }
    let (x, y) = conf.unwrap();
    if !confidence_in_range(&key, x, y) {
        let mut m = string_of("content confidence must be in [0,1]: found ");
        let shown = display_number(&key, x, y);
        push_str(&mut m, shown.as_str());
        push_str(&mut m, " for key '");
        push_range(&mut m, layer, ka, kb);
        push_str(&mut m, "'");
        let sp = project_content_span(raw, layer, span, local, key_len);
        push_diag(diags, error_diag("STTP_CONTENT_SCHEMA_INVALID_CONFIDENCE", m, sp));
    }
    if va == vb {
        let mut m = string_of("content value is missing for key '");
        push_range(&mut m, layer, ka, kb);
        push_str(&mut m, "'");
        let vlocal = byte_offset(layer, kc + 1);
        let sp = project_content_span(raw, layer, span, vlocal, 1);
        push_diag(diags, error_diag("STTP_CONTENT_SCHEMA_MISSING_VALUE", m, sp));
        proof {
            assert(diag_views(diags@) =~= diag_views(old(diags)@) + field_diags(c, pa as int, pb as int));
        }
        return None;
    }
    proof {
        assert(diag_views(diags@) =~= diag_views(old(diags)@) + field_diags(c, pa as int, pb as int));
        let vseg = layer@.subrange(kc + 1, pb as int);
        assert(trim(vseg) == layer@.subrange(va as int, vb as int));
        assert(trim(vseg)[0] == layer@[va as int]);
        assert(trim(vseg).last() == layer@[vb - 1]);
    }
    if layer[va] == '{' && layer[vb - 1] == '}' {
        assert(va + 1 <= vb - 1);
        Some((va + 1, vb - 1))
    } else {
        None
    }
}

/// Checks the fields of `layer[lo..hi]`, and the objects nested in them,
/// and reports their diagnostics.
fn check_object(
    raw: &Vec<char>,
    layer: &Vec<char>,
    span: Option<Span>,
    lo: usize,
    hi: usize,
    diags: &mut Vec<ParseDiagnostic>,
)
    requires
        lo <= hi <= layer@.len(),
        fits(raw@),
        fits(layer@),
        span_fits(span, layer@),
    ensures
        diag_views(final(diags)@) == diag_views(old(diags)@) + fields_diags(
            SchemaInput { raw: raw@, layer: layer@, span },
            lo as int,
            hi as int,
            0,
        ),
    decreases hi - lo,
{
    let ghost c = SchemaInput { raw: raw@, layer: layer@, span };
    let pairs = split_pairs(layer, lo, hi);
    let ghost ps = pairs_of(layer@.subrange(lo as int, hi as int));
    let ghost init = diag_views(diags@);
    let mut k: usize = 0;
    while k < pairs.len()
        invariant
            lo <= hi <= layer@.len(),
            fits(raw@),
            fits(layer@),
            span_fits(span, layer@),
            c == (SchemaInput { raw: raw@, layer: layer@, span }),
            ps == pairs_of(layer@.subrange(lo as int, hi as int)),
            pairs@.len() == ps.len(),
            forall|j: int|
                0 <= j < pairs@.len() ==> (#[trigger] pairs@[j]).0 - lo == ps[j].0 && pairs@[j].1
                    - lo == ps[j].1,
            forall|j: int| 0 <= j < pairs@.len() ==> lo <= (#[trigger] pairs@[j]).0 < pairs@[j].1 <= hi,
            k <= pairs@.len(),
            init + fields_diags(c, lo as int, hi as int, 0) == diag_views(diags@) + fields_diags(
                c,
                lo as int,
                hi as int,
                k as int,
            ),
        decreases pairs@.len() - k,
    {
        let (pa, pb) = pairs[k];
        let ghost before = diag_views(diags@);
        let nested = check_field(raw, layer, span, pa, pb, diags);
        let ghost own = field_diags(c, pa as int, pb as int);
        match nested {
            Some((ia, ib)) => {
                check_object(raw, layer, span, ia, ib, diags);
                proof {
                    let inner = fields_diags(c, ia as int, ib as int, 0);
                    assert(fields_diags(c, lo as int, hi as int, k as int) == own + inner
                        + fields_diags(c, lo as int, hi as int, k + 1));
                    assert(diag_views(diags@) == before + own + inner);
                    assert(init + fields_diags(c, lo as int, hi as int, 0) =~= diag_views(diags@)
                        + fields_diags(c, lo as int, hi as int, k + 1));
                }
            },
            None => {
                proof {
                    assert(fields_diags(c, lo as int, hi as int, k as int) == own + Seq::empty()
                        + fields_diags(c, lo as int, hi as int, k + 1));
                    assert(init + fields_diags(c, lo as int, hi as int, 0) =~= diag_views(diags@)
                        + fields_diags(c, lo as int, hi as int, k + 1));
                }
            },
        }
        k = k + 1;
    }
    proof {
        assert(fields_diags(c, lo as int, hi as int, k as int) == Seq::<DiagView>::empty());
        assert(init + fields_diags(c, lo as int, hi as int, 0) =~= diag_views(diags@));
    }
}

/// The schema diagnostics of the content layer `content_layer` of the node
/// `raw_node`, whose span in the node is `layer_span` (see
/// `content_diagnostics`).
pub fn validate_content_schema(
    raw_node: &str,
    content_layer: &str,
    layer_span: Option<Span>,
) -> (r: Vec<ParseDiagnostic>)
    requires
        fits(raw_node@),
        fits(content_layer@),
        span_fits(layer_span, content_layer@),
    ensures
        diag_views(r@) == content_diagnostics(raw_node@, content_layer@, layer_span),
{
    let raw = chars_of(raw_node);
    let layer = chars_of(content_layer);
    let mut diags: Vec<ParseDiagnostic> = Vec::new();
    match first_object(&layer) {
        None => {
            let sp = match layer_span {
                Some(s) => Some(to_parse_span(s)),
                None => None,
            };
            push_diag(
                &mut diags,
                error_diag(
                    "STTP_CONTENT_SCHEMA_MISSING_OBJECT",
                    string_of("content layer must contain an object payload"),
                    sp,
                ),
            );
        },
        Some((a, b)) => {
            check_object(&raw, &layer, layer_span, a, b, &mut diags);
        },
    }
    proof {
        assert(diag_views(Seq::<ParseDiagnostic>::empty()) =~= Seq::<DiagView>::empty());
        assert(diag_views(diags@) =~= content_diagnostics(raw_node@, content_layer@, layer_span));
    }
    diags
}

} // verus!
