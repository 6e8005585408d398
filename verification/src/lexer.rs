//! Tokenizer for the structural markers and braces of STTP node text.
//!
//! Positions are reported as in the text's UTF-8 encoding: `start` and `end`
//! are byte offsets, `line` and `column` count characters from 1.
use vstd::prelude::*;
use crate::lexicon::{marker_chars, marker_head, stop_marker, LayerKind};
use crate::text::{
    byte_at, char_width, chars_of, fits, lemma_byte_at_mono, lemma_byte_at_step,
    lemma_utf8_len_ge_len, matches_at, utf8_len,
};

verus! {

#[derive(Debug, Clone, Copy, PartialEq, Eq, Structural)]
pub struct Span {
    pub start: usize,
    pub end: usize,
    pub line: usize,
    pub column: usize,
}

#[derive(Debug, Clone, Copy, PartialEq, Eq, Structural)]
pub enum TokenKind {
    ProvenanceStart,
    EnvelopeStart,
    ContentStart,
    MetricsStart,
    LayerEnd,
    LBrace,
    RBrace,
}

#[derive(Debug, Clone, Copy, PartialEq, Eq, Structural)]
pub struct Token {
    pub kind: TokenKind,
    pub span: Span,
}

/// The token kind that opens a layer.
pub open spec fn start_kind(kind: LayerKind) -> TokenKind {
    match kind {
        LayerKind::Provenance => TokenKind::ProvenanceStart,
        LayerKind::Envelope => TokenKind::EnvelopeStart,
        LayerKind::Content => TokenKind::ContentStart,
        LayerKind::Metrics => TokenKind::MetricsStart,
    }
}

/// The structural marker that begins at character index `i`, if any.  The
/// markers are tried in the order provenance, envelope, content, metrics,
/// stop.
pub open spec fn marker_at(s: Seq<char>, i: int) -> Option<TokenKind> {
    if matches_at(s, marker_chars(LayerKind::Provenance), i) {
        Some(TokenKind::ProvenanceStart)
    } else if matches_at(s, marker_chars(LayerKind::Envelope), i) {
        Some(TokenKind::EnvelopeStart)
    } else if matches_at(s, marker_chars(LayerKind::Content), i) {
        Some(TokenKind::ContentStart)
    } else if matches_at(s, marker_chars(LayerKind::Metrics), i) {
        Some(TokenKind::MetricsStart)
    } else if matches_at(s, stop_marker(), i) {
        Some(TokenKind::LayerEnd)
    } else {
        None
    }
}

/// Number of characters a token of this kind covers.
pub open spec fn token_chars(kind: TokenKind) -> int {
    match kind {
        TokenKind::LayerEnd | TokenKind::LBrace | TokenKind::RBrace => 1,
        _ => 2,
    }
}

/// The tokens of `s` found by scanning from character index `i`: a marker is
/// taken whole; otherwise each `{` and `}` is a token and any other
/// character is skipped.  Each entry is the kind and the character index.
pub open spec fn lex_from(s: Seq<char>, i: int) -> Seq<(TokenKind, int)>
    decreases s.len() - i,
{
    if i < 0 || i >= s.len() {
        Seq::empty()
    } else {
        match marker_at(s, i) {
            Some(k) => seq![(k, i)] + lex_from(s, i + token_chars(k)),
            None => if s[i] == '{' {
                seq![(TokenKind::LBrace, i)] + lex_from(s, i + 1)
            } else if s[i] == '}' {
                seq![(TokenKind::RBrace, i)] + lex_from(s, i + 1)
            } else {
                lex_from(s, i + 1)
            },
        }
    }
}

/// The tokens of `s`.
pub open spec fn lex(s: Seq<char>) -> Seq<(TokenKind, int)> {
    lex_from(s, 0)
}

/// Line (from 1) reached after reading `t`.
pub open spec fn line_of(t: Seq<char>) -> nat
    decreases t.len(),
{
    if t.len() == 0 {
        1
    } else if t.last() == '\n' {
        line_of(t.drop_last()) + 1
    } else {
        line_of(t.drop_last())
    }
}

/// Column (from 1) reached after reading `t`.
pub open spec fn col_of(t: Seq<char>) -> nat
    decreases t.len(),
{
    if t.len() == 0 {
        1
    } else if t.last() == '\n' {
        1
    } else {
        col_of(t.drop_last()) + 1
    }
}

/// The span of a token of kind `kind` at character index `at` of `s`.
pub open spec fn span_of(s: Seq<char>, kind: TokenKind, at: int) -> Span {
    Span {
        start: byte_at(s, at) as usize,
        end: byte_at(s, at + token_chars(kind)) as usize,
        line: line_of(s.take(at)) as usize,
        column: col_of(s.take(at)) as usize,
    }
}

/// The token that a lexed entry denotes.
pub open spec fn token_of(s: Seq<char>, t: (TokenKind, int)) -> Token {
    Token { kind: t.0, span: span_of(s, t.0, t.1) }
}

pub proof fn lemma_line_col_step(s: Seq<char>, i: int)
    requires
        0 <= i < s.len(),
    ensures
        line_of(s.take(i + 1)) == line_of(s.take(i)) + (if s[i] == '\n' { 1int } else { 0 }),
        col_of(s.take(i + 1)) == (if s[i] == '\n' { 1 } else { col_of(s.take(i)) + 1 }),
{
    assert(s.take(i + 1).drop_last() =~= s.take(i));
}

pub proof fn lemma_line_col_bound(s: Seq<char>)
    ensures
        line_of(s) <= s.len() + 1,
        col_of(s) <= s.len() + 1,
        line_of(s) >= 1,
        col_of(s) >= 1,
    decreases s.len(),
{
    if s.len() > 0 {
        lemma_line_col_bound(s.drop_last());
    }
}

pub proof fn lemma_marker_at_fits(s: Seq<char>, i: int)
    requires
        marker_at(s, i) is Some,
    ensures
        0 <= i,
        i + token_chars(marker_at(s, i)->0) <= s.len(),
{
}

pub proof fn lemma_lex_from_positions(s: Seq<char>, i: int)
    requires
        0 <= i,
    ensures
        forall|j: int|
            0 <= j < lex_from(s, i).len() ==> i <= (#[trigger] lex_from(s, i)[j]).1
                && lex_from(s, i)[j].1 + token_chars(lex_from(s, i)[j].0) <= s.len(),
        forall|j: int, k: int|
            0 <= j < k < lex_from(s, i).len() ==> (#[trigger] lex_from(s, i)[j]).1 + token_chars(
                lex_from(s, i)[j].0,
            ) <= (#[trigger] lex_from(s, i)[k]).1,
    decreases s.len() - i,
{
    if i < s.len() {
        let l = lex_from(s, i);
        match marker_at(s, i) {
            Some(k) => {
                lemma_marker_at_fits(s, i);
                let rest = lex_from(s, i + token_chars(k));
                lemma_lex_from_positions(s, i + token_chars(k));
                assert forall|j: int| 0 <= j < l.len() implies i <= (#[trigger] l[j]).1 && l[j].1
                    + token_chars(l[j].0) <= s.len() by {
                    if j > 0 {
                        assert(l[j] == rest[j - 1]);
                    }
                }
                assert forall|j: int, m: int| 0 <= j < m < l.len() implies (#[trigger] l[j]).1
                    + token_chars(l[j].0) <= (#[trigger] l[m]).1 by {
                    assert(l[m] == rest[m - 1]);
                    if j > 0 {
                        assert(l[j] == rest[j - 1]);
                    }
                }
            },
            None => {
                let rest = lex_from(s, i + 1);
                lemma_lex_from_positions(s, i + 1);
                assert forall|j: int| 0 <= j < l.len() implies i <= (#[trigger] l[j]).1 && l[j].1
                    + token_chars(l[j].0) <= s.len() by {
                    if s[i] == '{' || s[i] == '}' {
                        if j > 0 {
                            assert(l[j] == rest[j - 1]);
                        }
                    } else {
                        assert(l[j] == rest[j]);
                    }
                }
                assert forall|j: int, m: int| 0 <= j < m < l.len() implies (#[trigger] l[j]).1
                    + token_chars(l[j].0) <= (#[trigger] l[m]).1 by {
                    if s[i] == '{' || s[i] == '}' {
                        assert(l[m] == rest[m - 1]);
                        if j > 0 {
                            assert(l[j] == rest[j - 1]);
                        }
                    } else {
                        assert(l[j] == rest[j]);
                        assert(l[m] == rest[m]);
                    }
                }
            },
        }
    }
}

/// The scan from `i` reaches every layer marker at or after `i`: where the
/// opening marker of `kind` stands at `q`, a token of its kind is lexed
/// there.  No token runs into it, since a marker's first character is never
/// the second character of another.
pub proof fn lemma_lex_reaches_marker(s: Seq<char>, i: int, q: int, kind: LayerKind)
    requires
        0 <= i <= q,
        matches_at(s, marker_chars(kind), q),
    ensures
        lex_from(s, i).contains((start_kind(kind), q)),
    decreases q - i,
{
    let l = lex_from(s, i);
    assert(s.subrange(q, q + 2)[0] == s[q]);
    assert(s[q] == marker_head(kind));
    if i == q {
        assert(marker_at(s, q) == Some(start_kind(kind)));
        assert(l[0] == (start_kind(kind), q));
    } else {
        match marker_at(s, i) {
            Some(k) => {
                if token_chars(k) == 2 && i + 1 == q {
                    assert(s.subrange(i, i + 2)[1] == s[i + 1]);
                    assert(false);
                }
                lemma_lex_reaches_marker(s, i + token_chars(k), q, kind);
                let rest = lex_from(s, i + token_chars(k));
                let j = choose|j: int| 0 <= j < rest.len() && rest[j] == (start_kind(kind), q);
                assert(l[j + 1] == rest[j]);
            },
            None => {
                lemma_lex_reaches_marker(s, i + 1, q, kind);
                let rest = lex_from(s, i + 1);
                let j = choose|j: int| 0 <= j < rest.len() && rest[j] == (start_kind(kind), q);
                if s[i] == '{' || s[i] == '}' {
                    assert(l[j + 1] == rest[j]);
                } else {
                    assert(l[j] == rest[j]);
                }
            },
        }
    }
}

/// A token that opens a layer stands where that layer's marker stands.
pub proof fn lemma_lex_start_tokens(s: Seq<char>, i: int, kind: LayerKind)
    requires
        0 <= i,
    ensures
        forall|j: int|
            0 <= j < lex_from(s, i).len() && (#[trigger] lex_from(s, i)[j]).0 == start_kind(kind)
                ==> matches_at(s, marker_chars(kind), lex_from(s, i)[j].1),
    decreases s.len() - i,
{
    if i < s.len() {
        let l = lex_from(s, i);
        match marker_at(s, i) {
            Some(k) => {
                lemma_marker_at_fits(s, i);
                let rest = lex_from(s, i + token_chars(k));
                lemma_lex_start_tokens(s, i + token_chars(k), kind);
                assert forall|j: int| 0 <= j < l.len() && (#[trigger] l[j]).0 == start_kind(kind)
                    implies matches_at(s, marker_chars(kind), l[j].1) by {
                    if j > 0 {
                        assert(l[j] == rest[j - 1]);
                    }
                }
            },
            None => {
                let rest = lex_from(s, i + 1);
                lemma_lex_start_tokens(s, i + 1, kind);
                assert forall|j: int| 0 <= j < l.len() && (#[trigger] l[j]).0 == start_kind(kind)
                    implies matches_at(s, marker_chars(kind), l[j].1) by {
                    if s[i] == '{' || s[i] == '}' {
                        if j > 0 {
                            assert(l[j] == rest[j - 1]);
                        }
                    } else {
                        assert(l[j] == rest[j]);
                    }
                }
            },
        }
    }
}

/// Every token lies inside the text.
pub proof fn lemma_lex_positions(s: Seq<char>)
    ensures
        forall|j: int|
            0 <= j < lex(s).len() ==> 0 <= (#[trigger] lex(s)[j]).1 && lex(s)[j].1
                + token_chars(lex(s)[j].0) <= s.len(),
        forall|j: int, k: int|
            0 <= j < k < lex(s).len() ==> (#[trigger] lex(s)[j]).1 + token_chars(lex(s)[j].0)
                <= (#[trigger] lex(s)[k]).1,
{
    lemma_lex_from_positions(s, 0);
}

/// Internal token: kind, character index and span.
#[derive(Debug, Clone, Copy)]
pub struct LexToken {
    pub kind: TokenKind,
    pub at: usize,
    pub span: Span,
}

fn marker_at_exec(v: &Vec<char>, i: usize) -> (r: Option<TokenKind>)
    requires
        i < v@.len(),
    ensures
        r == marker_at(v@, i as int),
        r is Some ==> v@[i as int] != '\n',
        r is Some && r != Some(TokenKind::LayerEnd) ==> i + 1 < v@.len() && v@[i + 1] != '\n',
{
    let c = v[i];
    let next_open = v.len() - i > 1 && v[i + 1] == '⟨';
    proof {
        let s = v@;
        let ii = i as int;
        assert forall|k: LayerKind| matches_at(s, #[trigger] marker_chars(k), ii) <==> (ii + 2
            <= s.len() && s[ii] == marker_head(k) && s[ii + 1] == '⟨') by {
            if ii + 2 <= s.len() && s[ii] == marker_head(k) && s[ii + 1] == '⟨' {
                assert(s.subrange(ii, ii + 2) =~= marker_chars(k));
            }
            if matches_at(s, marker_chars(k), ii) {
                assert(s.subrange(ii, ii + 2)[0] == marker_chars(k)[0]);
                assert(s.subrange(ii, ii + 2)[1] == marker_chars(k)[1]);
            }
        }
        if s[ii] == '⟩' {
            assert(s.subrange(ii, ii + 1) =~= stop_marker());
        }
        if matches_at(s, stop_marker(), ii) {
            assert(s.subrange(ii, ii + 1)[0] == stop_marker()[0]);
        }
    }
    if c == '⊕' && next_open {
        Some(TokenKind::ProvenanceStart)
    } else if c == '⦿' && next_open {
        Some(TokenKind::EnvelopeStart)
    } else if c == '◈' && next_open {
        Some(TokenKind::ContentStart)
    } else if c == '⍉' && next_open {
        Some(TokenKind::MetricsStart)
    } else if c == '⟩' {
        Some(TokenKind::LayerEnd)
    } else {
        None
    }
}

/// The tokens of `v`, with their character indices.
pub fn lex_chars(v: &Vec<char>) -> (r: Vec<LexToken>)
    requires
        fits(v@),
    ensures
        r@.len() == lex(v@).len(),
        forall|j: int|
            0 <= j < r@.len() ==> (#[trigger] r@[j]).kind == lex(v@)[j].0 && r@[j].at
                == lex(v@)[j].1 && r@[j].span == span_of(v@, lex(v@)[j].0, lex(v@)[j].1),
{
    let n = v.len();
    let mut r: Vec<LexToken> = Vec::new();
    let mut i: usize = 0;
    let mut byte: usize = 0;
    let mut line: usize = 1;
    let mut col: usize = 1;
    let ghost mut done: Seq<(TokenKind, int)> = Seq::empty();
    proof {
        lemma_utf8_len_ge_len(v@);
        assert(v@.take(0) =~= Seq::<char>::empty());
    }
    while i < n
        invariant
            n == v@.len(),
            i <= n,
            fits(v@),
            n <= utf8_len(v@),
            lex(v@) == done + lex_from(v@, i as int),
            r@.len() == done.len(),
            forall|j: int|
                0 <= j < r@.len() ==> (#[trigger] r@[j]).kind == done[j].0 && r@[j].at
                    == done[j].1 && r@[j].span == span_of(v@, done[j].0, done[j].1),
            byte == byte_at(v@, i as int),
            line == line_of(v@.take(i as int)),
            col == col_of(v@.take(i as int)),
        decreases n - i,
    {
        proof {
            lemma_line_col_bound(v@.take(i as int));
            lemma_byte_at_mono(v@, i as int, n as int);
        }
        let m = marker_at_exec(v, i);
        match m {
            Some(kind) => {
                let len: usize = if kind == TokenKind::LayerEnd {
                    1
                } else {
                    2
                };
                proof {
                    lemma_byte_at_step(v@, i as int);
                    lemma_line_col_step(v@, i as int);
                    if len == 2 {
                        lemma_byte_at_step(v@, i as int + 1);
                        lemma_line_col_step(v@, i as int + 1);
                    }
                    lemma_byte_at_mono(v@, i as int + len, n as int);
                }
                let mut end = byte + char_width(v[i]);
                if len == 2 {
                    end = end + char_width(v[i + 1]);
                }
                let span = Span { start: byte, end, line, column: col };
                r.push(LexToken { kind, at: i, span });
                proof {
                    done = done + seq![(kind, i as int)];
                    assert(lex_from(v@, i as int) == seq![(kind, i as int)] + lex_from(
                        v@,
                        i + len,
                    ));
                    assert(lex(v@) =~= done + lex_from(v@, i + len));
                }
                i = i + len;
                byte = end;
                col = col + len;
            },
            None => {
                let c = v[i];
                proof {
                    lemma_byte_at_step(v@, i as int);
                    lemma_line_col_step(v@, i as int);
                }
                let w = char_width(c);
                if c == '{' || c == '}' {
                    let kind = if c == '{' {
                        TokenKind::LBrace
                    } else {
                        TokenKind::RBrace
                    };
                    r.push(LexToken { kind, at: i, span: Span { start: byte, end: byte + w, line, column: col } });
                    proof {
                        done = done + seq![(kind, i as int)];
                        assert(lex(v@) =~= done + lex_from(v@, i + 1));
                    }
                }
                if c == '\n' {
                    line = line + 1;
                    col = 1;
                } else {
                    col = col + 1;
                }
                byte = byte + w;
                i = i + 1;
            },
        }
    }
    proof {
        assert(lex(v@) =~= done);
    }
    r
}

/// The tokens of `input`: each structural marker (`⊕⟨`, `⦿⟨`, `◈⟨`, `⍉⟨`,
/// `⟩`) and each brace, with its byte span and the line and column where it
/// starts.
pub fn tokenize(input: &str) -> (tokens: Vec<Token>)
    requires
        fits(input@),
    ensures
        tokens@ == lex(input@).map_values(|t: (TokenKind, int)| token_of(input@, t)),
{
    let v = chars_of(input);
    let lexed = lex_chars(&v);
    let mut tokens: Vec<Token> = Vec::new();
    let mut j: usize = 0;
    while j < lexed.len()
        invariant
            v@ == input@,
            j <= lexed@.len(),
            lexed@.len() == lex(v@).len(),
            forall|k: int|
                0 <= k < lexed@.len() ==> (#[trigger] lexed@[k]).kind == lex(v@)[k].0
                    && lexed@[k].at == lex(v@)[k].1 && lexed@[k].span == span_of(
                    v@,
                    lex(v@)[k].0,
                    lex(v@)[k].1,
                ),
            tokens@ == lex(v@).take(j as int).map_values(|t: (TokenKind, int)| token_of(v@, t)),
        decreases lexed.len() - j,
    {
        let t = lexed[j];
        tokens.push(Token { kind: t.kind, span: t.span });
        j = j + 1;
        assert(tokens@ =~= lex(v@).take(j as int).map_values(
            |t: (TokenKind, int)| token_of(v@, t),
        ));
    }
    assert(lex(v@).take(lexed@.len() as int) =~= lex(v@));
    tokens
}

} // verus!
