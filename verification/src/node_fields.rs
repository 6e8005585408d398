//! Field values read from STTP node text: the tier, the compression depth,
//! the parent node, the context summary and the timestamp text.  Each is
//! read from the first place in the text where its pattern matches, as a
//! leftmost regex search finds it:
//!
//! - tier: `(?i)tier:\s*(raw|daily|weekly|monthly|quarterly|yearly)`
//! - compression depth: `compression_depth:\s*(\d+)`
//! - parent node: `parent_node:\s*(?:ref:([^,\s}\]]+)|"([^"]+)"|(null))`
//! - context summary: `context_summary:\s*(?:"([^"]*)"|([^,}\n]+))`
//! - timestamp: `timestamp:\s*"([^"]+)"`
use vstd::prelude::*;
use crate::number::{all_ascii_digits, digit_val, digits_val, is_unicode_digit, is_unicode_digit_exec};
use crate::text::{
    chars_of, is_ws, is_ws_exec, lead_ws, lemma_lead_ws, lemma_lead_ws_char, matches_at,
    starts_with_at, string_from_range, trim, trim_bounds,
};

verus! {

// ---------------------------------------------------------------------------
// Character classes and runs

#[derive(Clone, Copy, PartialEq, Eq, Structural)]
pub enum CharClass {
    /// `\d`
    Digit,
    /// `[^,\s}\]]`
    RefChar,
    /// `[^"]`
    NonQuote,
    /// `[^,}\n]`
    BareChar,
}

pub open spec fn in_class(k: CharClass, c: char) -> bool {
    match k {
        CharClass::Digit => is_unicode_digit(c),
        CharClass::RefChar => !(c == ',' || is_ws(c) || c == '}' || c == ']'),
        CharClass::NonQuote => c != '"',
        CharClass::BareChar => !(c == ',' || c == '}' || c == '\n'),
    }
}

fn in_class_exec(k: CharClass, c: char) -> (r: bool)
    ensures
        r == in_class(k, c),
{
    match k {
        CharClass::Digit => is_unicode_digit_exec(c),
        CharClass::RefChar => !(c == ',' || is_ws_exec(c) || c == '}' || c == ']'),
        CharClass::NonQuote => c != '"',
        CharClass::BareChar => !(c == ',' || c == '}' || c == '\n'),
    }
}

/// End of the longest run of characters of class `k` starting at `i`.
pub open spec fn run_end(s: Seq<char>, i: int, k: CharClass) -> int
    decreases s.len() - i,
{
    if 0 <= i < s.len() && in_class(k, s[i]) {
        run_end(s, i + 1, k)
    } else {
        i
    }
}

proof fn lemma_run_end(s: Seq<char>, i: int, k: CharClass)
    requires
        0 <= i <= s.len(),
    ensures
        i <= run_end(s, i, k) <= s.len(),
        run_end(s, i, k) < s.len() ==> !in_class(k, s[run_end(s, i, k)]),
    decreases s.len() - i,
{
    if i < s.len() && in_class(k, s[i]) {
        lemma_run_end(s, i + 1, k);
    }
}

fn run_end_exec(v: &Vec<char>, i: usize, k: CharClass) -> (r: usize)
    requires
        i <= v@.len(),
    ensures
        r == run_end(v@, i as int, k),
        i <= r <= v@.len(),
{
    let n = v.len();
    let mut j = i;
    while j < n && in_class_exec(k, v[j])
        invariant
            i <= j <= n,
            n == v@.len(),
            run_end(v@, i as int, k) == run_end(v@, j as int, k),
        decreases n - j,
    {
        j = j + 1;
    }
    j
}

/// Index after the whitespace that starts at `q`.
fn skip_ws(v: &Vec<char>, q: usize) -> (r: usize)
    requires
        q <= v@.len(),
    ensures
        r == q + lead_ws(v@.subrange(q as int, v@.len() as int)),
        q <= r <= v@.len(),
{
    let n = v.len();
    let ghost t = v@.subrange(q as int, n as int);
    let mut j = q;
    while j < n && is_ws_exec(v[j])
        invariant
            q <= j <= n,
            n == v@.len(),
            t == v@.subrange(q as int, n as int),
            forall|k: int| 0 <= k < j - q ==> is_ws(#[trigger] t[k]),
        decreases n - j,
    {
        assert(t[j - q] == v@[j as int]);
        j = j + 1;
    }
    proof {
        if j < n {
            assert(t[j - q] == v@[j as int]);
        }
        lemma_lead_ws_char(t, (j - q) as nat);
    }
    j
}

// ---------------------------------------------------------------------------
// Case-insensitive literals

/// `c` matches the literal character `l` under the regex engine's simple
/// case folding: an ASCII letter matches its other case, `k` also the
/// Kelvin sign and `s` also the long s.
pub open spec fn ci_char(c: char, l: char) -> bool {
    ||| c == l
    ||| ('a' <= l && l <= 'z' && (c as u32) + 32 == (l as u32))
    ||| (l == 'k' && c == '\u{212A}')
    ||| (l == 's' && c == '\u{17F}')
}

fn ci_char_exec(c: char, l: char) -> (r: bool)
    ensures
        r == ci_char(c, l),
{
    c == l || ('a' <= l && l <= 'z' && (c as u32) + 32 == (l as u32)) || (l == 'k' && c
        == '\u{212A}') || (l == 's' && c == '\u{17F}')
}

/// `p` occurs in `s` at `i`, up to case.
pub open spec fn ci_matches_at(s: Seq<char>, p: Seq<char>, i: int) -> bool {
    &&& 0 <= i
    &&& i + p.len() <= s.len()
    &&& forall|k: int| 0 <= k < p.len() ==> ci_char(#[trigger] s[i + k], p[k])
}

fn ci_matches_at_exec(v: &Vec<char>, p: &Vec<char>, i: usize) -> (r: bool)
    ensures
        r == ci_matches_at(v@, p@, i as int),
{
    let n = v.len();
    if i > n || p.len() > n - i {
        return false;
    }
    let mut k: usize = 0;
    while k < p.len()
        invariant
            i + p@.len() <= n,
            n == v@.len(),
            k <= p@.len(),
            forall|m: int| 0 <= m < k ==> ci_char(#[trigger] v@[i + m], p@[m]),
        decreases p.len() - k,
    {
        if !ci_char_exec(v[i + k], p[k]) {
            return false;
        }
        k = k + 1;
    }
    true
}

// ---------------------------------------------------------------------------
// Field patterns

#[derive(Clone, Copy, PartialEq, Eq, Structural)]
pub enum FieldPattern {
    Tier,
    CompressionDepth,
    ParentNode,
    ContextSummary,
    Timestamp,
}

/// The key that opens a field.
pub open spec fn field_key(f: FieldPattern) -> Seq<char> {
    match f {
        FieldPattern::Tier => "tier:"@,
        FieldPattern::CompressionDepth => "compression_depth:"@,
        FieldPattern::ParentNode => "parent_node:"@,
        FieldPattern::ContextSummary => "context_summary:"@,
        FieldPattern::Timestamp => "timestamp:"@,
    }
}

fn field_key_exec(f: FieldPattern) -> (r: Vec<char>)
    ensures
        r@ == field_key(f),
{
    match f {
        FieldPattern::Tier => chars_of("tier:"),
        FieldPattern::CompressionDepth => chars_of("compression_depth:"),
        FieldPattern::ParentNode => chars_of("parent_node:"),
        FieldPattern::ContextSummary => chars_of("context_summary:"),
        FieldPattern::Timestamp => chars_of("timestamp:"),
    }
}

/// The tier names, in the order the pattern tries them.
pub open spec fn tier_names() -> Seq<Seq<char>> {
    seq!["raw"@, "daily"@, "weekly"@, "monthly"@, "quarterly"@, "yearly"@]
}

pub(crate) fn tier_name_exec(i: usize) -> (r: Vec<char>)
    requires
        i < 6,
    ensures
        r@ == tier_names()[i as int],
{
    if i == 0 {
        chars_of("raw")
    } else if i == 1 {
        chars_of("daily")
    } else if i == 2 {
        chars_of("weekly")
    } else if i == 3 {
        chars_of("monthly")
    } else if i == 4 {
        chars_of("quarterly")
    } else {
        chars_of("yearly")
    }
}

/// The first tier name, from the `i`-th on, that occurs at `r` up to case:
/// its index.
pub open spec fn tier_name_at(s: Seq<char>, r: int, i: int) -> Option<int>
    decreases 6 - i,
{
    if i < 0 || i >= 6 {
        None
    } else if ci_matches_at(s, tier_names()[i], r) {
        Some(i)
    } else {
        tier_name_at(s, r, i + 1)
    }
}

/// The key of `f` occurs at `p` (the tier key up to case).
pub open spec fn key_at(f: FieldPattern, s: Seq<char>, p: int) -> bool {
    if f == FieldPattern::Tier {
        ci_matches_at(s, field_key(f), p)
    } else {
        matches_at(s, field_key(f), p)
    }
}

/// The value part of field `f`, whose key ends at `q` and whose value
/// starts at `r` once the whitespace after the key is skipped: which
/// alternative matched, and the bounds of what it captures.
///
/// For the context summary, where neither alternative matches at `r`, the
/// pattern gives back whitespace and matches a bare value made of
/// whitespace only where some skipped character is not a line break; that
/// value is blank, written here as the empty capture at `r`.
pub open spec fn value_at(f: FieldPattern, s: Seq<char>, q: int, r: int) -> Option<(int, int, int)> {
    match f {
        FieldPattern::Tier => match tier_name_at(s, r, 0) {
            Some(i) => Some((i, r, r + tier_names()[i].len())),
            None => None,
        },
        FieldPattern::CompressionDepth => {
            let e = run_end(s, r, CharClass::Digit);
            if e > r {
                Some((0, r, e))
            } else {
                None
            }
        },
        FieldPattern::ParentNode => if matches_at(s, "ref:"@, r) && run_end(
            s,
            r + 4,
            CharClass::RefChar,
        ) > r + 4 {
            Some((0, r + 4, run_end(s, r + 4, CharClass::RefChar)))
        } else if r < s.len() && s[r] == '"' && run_end(s, r + 1, CharClass::NonQuote) > r + 1
            && run_end(s, r + 1, CharClass::NonQuote) < s.len() {
            Some((1, r + 1, run_end(s, r + 1, CharClass::NonQuote)))
        } else if matches_at(s, "null"@, r) {
            Some((2, r, r + 4))
        } else {
            None
        },
        FieldPattern::ContextSummary => if r < s.len() && s[r] == '"' && run_end(
            s,
            r + 1,
            CharClass::NonQuote,
        ) < s.len() {
            Some((0, r + 1, run_end(s, r + 1, CharClass::NonQuote)))
        } else if r < s.len() && in_class(CharClass::BareChar, s[r]) {
            Some((1, r, run_end(s, r, CharClass::BareChar)))
        } else if exists|j: int| q <= j < r && s[j] != '\n' {
            Some((2, r, r))
        } else {
            None
        },
        FieldPattern::Timestamp => if r < s.len() && s[r] == '"' && run_end(
            s,
            r + 1,
            CharClass::NonQuote,
        ) > r + 1 && run_end(s, r + 1, CharClass::NonQuote) < s.len() {
            Some((0, r + 1, run_end(s, r + 1, CharClass::NonQuote)))
        } else {
            None
        },
    }
}

/// The match of field `f` that starts at `p`.
pub open spec fn match_at(f: FieldPattern, s: Seq<char>, p: int) -> Option<(int, int, int)> {
    if key_at(f, s, p) {
        let q = p + field_key(f).len();
        let r = q + lead_ws(s.subrange(q, s.len() as int));
        value_at(f, s, q, r)
    } else {
        None
    }
}

/// The leftmost match of field `f` that starts at or after `p`.
pub open spec fn first_field_match(f: FieldPattern, s: Seq<char>, p: int) -> Option<(int, int, int)>
    decreases s.len() + 1 - p,
{
    if p < 0 || p > s.len() {
        None
    } else if match_at(f, s, p) is Some {
        match_at(f, s, p)
    } else {
        first_field_match(f, s, p + 1)
    }
}

proof fn lemma_tier_name_at(s: Seq<char>, r: int, i: int)
    ensures
        tier_name_at(s, r, i) matches Some(j) ==> i <= j < 6 && ci_matches_at(s, tier_names()[j], r),
    decreases 6 - i,
{
    if 0 <= i < 6 && !ci_matches_at(s, tier_names()[i], r) {
        lemma_tier_name_at(s, r, i + 1);
    }
}

fn tier_name_at_exec(v: &Vec<char>, r: usize) -> (res: Option<usize>)
    ensures
        match res {
            Some(i) => tier_name_at(v@, r as int, 0) == Some(i as int) && i < 6,
            None => tier_name_at(v@, r as int, 0) is None,
        },
{
    let mut i: usize = 0;
    while i < 6
        invariant
            i <= 6,
            tier_name_at(v@, r as int, 0) == tier_name_at(v@, r as int, i as int),
        decreases 6 - i,
    {
        let name = tier_name_exec(i);
        if ci_matches_at_exec(v, &name, r) {
            return Some(i);
        }
        i = i + 1;
    }
    None
}

fn value_at_exec(f: FieldPattern, v: &Vec<char>, q: usize, r: usize) -> (res: Option<(usize, usize, usize)>)
    requires
        q <= r <= v@.len(),
    ensures
        match res {
            Some((t, a, b)) => value_at(f, v@, q as int, r as int) == Some(
                (t as int, a as int, b as int),
            ) && a <= b <= v@.len(),
            None => value_at(f, v@, q as int, r as int) is None,
        },
{
    let n = v.len();
    match f {
        FieldPattern::Tier => match tier_name_at_exec(v, r) {
            Some(i) => {
                let name = tier_name_exec(i);
                proof {
                    lemma_tier_name_at(v@, r as int, 0);
                }
                Some((i, r, r + name.len()))
            },
            None => None,
        },
        FieldPattern::CompressionDepth => {
            let e = run_end_exec(v, r, CharClass::Digit);
            if e > r {
                Some((0, r, e))
            } else {
                None
            }
        },
        FieldPattern::ParentNode => {
            let rf = chars_of("ref:");
            proof {
                reveal_strlit("ref:");
                reveal_strlit("null");
            }
            if starts_with_at(v, &rf, r) {
                let e = run_end_exec(v, r + 4, CharClass::RefChar);
                if e > r + 4 {
                    return Some((0, r + 4, e));
                }
            }
            if r < n && v[r] == '"' {
                let e = run_end_exec(v, r + 1, CharClass::NonQuote);
                if e > r + 1 && e < n {
                    return Some((1, r + 1, e));
                }
            }
            let nl = chars_of("null");
            if starts_with_at(v, &nl, r) {
                return Some((2, r, r + 4));
            }
            None
        },
        FieldPattern::ContextSummary => {
            if r < n && v[r] == '"' {
                let e = run_end_exec(v, r + 1, CharClass::NonQuote);
                if e < n {
                    return Some((0, r + 1, e));
                }
            }
            if r < n && in_class_exec(CharClass::BareChar, v[r]) {
                let e = run_end_exec(v, r, CharClass::BareChar);
                return Some((1, r, e));
            }
            let ghost no_quoted = !(r < n && v@[r as int] == '"' && run_end(
                v@,
                r + 1,
                CharClass::NonQuote,
            ) < n);
            let ghost no_bare = !(r < n && in_class(CharClass::BareChar, v@[r as int]));
            assert(no_quoted && no_bare);
            let mut j = q;
            while j < r
                invariant
                    q <= j <= r <= n,
                    n == v@.len(),
                    no_quoted == !(r < n && v@[r as int] == '"' && run_end(
                        v@,
                        r + 1,
                        CharClass::NonQuote,
                    ) < n),
                    no_bare == !(r < n && in_class(CharClass::BareChar, v@[r as int])),
                    no_quoted && no_bare,
                    f == FieldPattern::ContextSummary,
                    forall|m: int| q <= m < j ==> #[trigger] v@[m] == '\n',
                decreases r - j,
            {
                if v[j] != '\n' {
                    assert(q <= j < r && v@[j as int] != '\n');
                    return Some((2, r, r));
                }
                j = j + 1;
            }
            None
        },
        FieldPattern::Timestamp => {
            if r < n && v[r] == '"' {
                let e = run_end_exec(v, r + 1, CharClass::NonQuote);
                if e > r + 1 && e < n {
                    return Some((0, r + 1, e));
                }
            }
            None
        },
    }
}

fn key_at_exec(f: FieldPattern, v: &Vec<char>, key: &Vec<char>, p: usize) -> (r: bool)
    requires
        key@ == field_key(f),
    ensures
        r == key_at(f, v@, p as int),
{
    if f == FieldPattern::Tier {
        ci_matches_at_exec(v, key, p)
    } else {
        starts_with_at(v, key, p)
    }
}

/// The leftmost match of field `f` in `v`.
pub fn find_field(f: FieldPattern, v: &Vec<char>) -> (res: Option<(usize, usize, usize)>)
    ensures
        match res {
            Some((t, a, b)) => first_field_match(f, v@, 0) == Some((t as int, a as int, b as int))
                && a <= b <= v@.len(),
            None => first_field_match(f, v@, 0) is None,
        },
{
    let n = v.len();
    let key = field_key_exec(f);
    let mut p: usize = 0;
    while p <= n
        invariant
            p <= n + 1,
            n == v@.len(),
            key@ == field_key(f),
            first_field_match(f, v@, 0) == first_field_match(f, v@, p as int),
        decreases n + 1 - p,
    {
        if key_at_exec(f, v, &key, p) {
            let q = p + key.len();
            let r = skip_ws(v, q);
            let m = value_at_exec(f, v, q, r);
            if m.is_some() {
                return m;
            }
        }
        if p == n {
            return None;
        }
        p = p + 1;
    }
    None
}

// ---------------------------------------------------------------------------
// Field values

pub open spec fn opt_string(o: Option<String>) -> Option<Seq<char>> {
    match o {
        Some(s) => Some(s@),
        None => None,
    }
}

/// The tier written in `s`, as written.
pub open spec fn tier_of(s: Seq<char>) -> Option<Seq<char>> {
    match first_field_match(FieldPattern::Tier, s, 0) {
        Some((_, a, b)) => Some(s.subrange(a, b)),
        None => None,
    }
}

/// The parent node of `s`: the reference or quoted id; none where the
/// first parent entry is `null` or there is none.
pub open spec fn parent_node_of(s: Seq<char>) -> Option<Seq<char>> {
    match first_field_match(FieldPattern::ParentNode, s, 0) {
        Some((t, a, b)) => if t == 2 {
            None
        } else {
            Some(s.subrange(a, b))
        },
        None => None,
    }
}

/// The context summary of `s`, trimmed; none where it is blank or absent.
pub open spec fn context_summary_of(s: Seq<char>) -> Option<Seq<char>> {
    match first_field_match(FieldPattern::ContextSummary, s, 0) {
        Some((_, a, b)) => if trim(s.subrange(a, b)).len() == 0 {
            None
        } else {
            Some(trim(s.subrange(a, b)))
        },
        None => None,
    }
}

/// The compression depth of `s`: the digits of the first entry as an
/// `i32`, or 0 where there is none, where a digit is not ASCII, or where
/// the value exceeds `i32::MAX`.
pub open spec fn compression_depth_of(s: Seq<char>) -> i32 {
    match first_field_match(FieldPattern::CompressionDepth, s, 0) {
        Some((_, a, b)) => if all_ascii_digits(s.subrange(a, b)) && digits_val(s.subrange(a, b))
            <= i32::MAX {
            digits_val(s.subrange(a, b)) as i32
        } else {
            0
        },
        None => 0,
    }
}

/// The quoted timestamp text of `s`.
pub open spec fn timestamp_text_of(s: Seq<char>) -> Option<Seq<char>> {
    match first_field_match(FieldPattern::Timestamp, s, 0) {
        Some((_, a, b)) => Some(s.subrange(a, b)),
        None => None,
    }
}

/// A text that opens with `tier: ` and one of the six tier names `raw`,
/// `daily`, `weekly`, `monthly`, `quarterly`, `yearly` has that name as its
/// tier, whatever follows it.
pub proof fn lemma_tier_of_named(t: Seq<char>, rest: Seq<char>)
    requires
        t == "raw"@ || t == "daily"@ || t == "weekly"@ || t == "monthly"@ || t == "quarterly"@
            || t == "yearly"@,
    ensures
        tier_of("tier: "@ + t + rest) == Some(t),
{
    reveal_strlit("tier: ");
    reveal_strlit("tier:");
    reveal_strlit("raw");
    reveal_strlit("daily");
    reveal_strlit("weekly");
    reveal_strlit("monthly");
    reveal_strlit("quarterly");
    reveal_strlit("yearly");
    let s = "tier: "@ + t + rest;
    assert(s.len() == 6 + t.len() + rest.len());
    assert forall|k: int| 0 <= k < 6 implies #[trigger] s[k] == "tier: "@[k] by {}
    assert forall|k: int| 0 <= k < t.len() implies #[trigger] s[6 + k] == t[k] by {}
    assert(ci_matches_at(s, field_key(FieldPattern::Tier), 0)) by {
        assert forall|k: int| 0 <= k < 5 implies ci_char(#[trigger] s[0 + k], "tier:"@[k]) by {
            assert(s[k] == "tier: "@[k]);
        }
    }
    assert(key_at(FieldPattern::Tier, s, 0));
    let w = s.subrange(5, s.len() as int);
    assert(w[0] == ' ');
    assert(w.drop_first()[0] == t[0]);
    assert(!is_ws(t[0]));
    assert(lead_ws(w.drop_first()) == 0);
    assert(lead_ws(w) == 1);
    let names = tier_names();
    assert(names[0] == "raw"@ && names[1] == "daily"@ && names[2] == "weekly"@);
    assert(names[3] == "monthly"@ && names[4] == "quarterly"@ && names[5] == "yearly"@);
    assert(ci_matches_at(s, t, 6));
    assert(t != "raw"@ ==> !ci_matches_at(s, names[0], 6)) by {
        if t != "raw"@ && ci_matches_at(s, names[0], 6) {
            assert(ci_char(s[6int + 0int], names[0][0]));
            assert(s[6int] == t[0]);
        }
    }
    assert(t != "daily"@ ==> !ci_matches_at(s, names[1], 6)) by {
        if t != "daily"@ && ci_matches_at(s, names[1], 6) {
            assert(ci_char(s[6int + 0int], names[1][0]));
            assert(s[6int] == t[0]);
        }
    }
    assert(t != "weekly"@ ==> !ci_matches_at(s, names[2], 6)) by {
        if t != "weekly"@ && ci_matches_at(s, names[2], 6) {
            assert(ci_char(s[6int + 0int], names[2][0]));
            assert(s[6int] == t[0]);
        }
    }
    assert(t != "monthly"@ ==> !ci_matches_at(s, names[3], 6)) by {
        if t != "monthly"@ && ci_matches_at(s, names[3], 6) {
            assert(ci_char(s[6int + 0int], names[3][0]));
            assert(s[6int] == t[0]);
        }
    }
    assert(t != "quarterly"@ ==> !ci_matches_at(s, names[4], 6)) by {
        if t != "quarterly"@ && ci_matches_at(s, names[4], 6) {
            assert(ci_char(s[6int + 0int], names[4][0]));
            assert(s[6int] == t[0]);
        }
    }
    assert(t != "yearly"@ ==> !ci_matches_at(s, names[5], 6)) by {
        if t != "yearly"@ && ci_matches_at(s, names[5], 6) {
            assert(ci_char(s[6int + 0int], names[5][0]));
            assert(s[6int] == t[0]);
        }
    }
    let j: int = if t == "raw"@ { 0 } else if t == "daily"@ { 1 } else if t == "weekly"@ { 2 }
        else if t == "monthly"@ { 3 } else if t == "quarterly"@ { 4 } else { 5 };
    assert(names[j] == t);
    assert(tier_name_at(s, 6, 6) is None);
    assert(tier_name_at(s, 6, 5) == if j == 5 { Some(5int) } else { None::<int> });
    assert(tier_name_at(s, 6, 4) == if j == 4 { Some(4int) } else { tier_name_at(s, 6, 5) });
    assert(tier_name_at(s, 6, 3) == if j == 3 { Some(3int) } else { tier_name_at(s, 6, 4) });
    assert(tier_name_at(s, 6, 2) == if j == 2 { Some(2int) } else { tier_name_at(s, 6, 3) });
    assert(tier_name_at(s, 6, 1) == if j == 1 { Some(1int) } else { tier_name_at(s, 6, 2) });
    assert(tier_name_at(s, 6, 0) == Some(j));
    assert(match_at(FieldPattern::Tier, s, 0) == Some((j, 6int, 6 + t.len() as int)));
    assert(first_field_match(FieldPattern::Tier, s, 0) == Some((j, 6int, 6 + t.len() as int)));
    assert(s.subrange(6, 6 + t.len() as int) =~= t);
}

pub fn tier_in(v: &Vec<char>) -> (r: Option<String>)
    ensures
        opt_string(r) == tier_of(v@),
{
    match find_field(FieldPattern::Tier, v) {
        Some((_, a, b)) => Some(string_from_range(v, a, b)),
        None => None,
    }
}

pub fn parent_node_in(v: &Vec<char>) -> (r: Option<String>)
    ensures
        opt_string(r) == parent_node_of(v@),
{
    match find_field(FieldPattern::ParentNode, v) {
        Some((t, a, b)) => if t == 2 {
            None
        } else {
            Some(string_from_range(v, a, b))
        },
        None => None,
    }
}

pub fn context_summary_in(v: &Vec<char>) -> (r: Option<String>)
    ensures
        opt_string(r) == context_summary_of(v@),
{
    match find_field(FieldPattern::ContextSummary, v) {
        Some((_, a, b)) => {
            let (x, y) = trim_bounds(v, a, b);
            if x == y {
                None
            } else {
                Some(string_from_range(v, x, y))
            }
        },
        None => None,
    }
}

pub fn timestamp_text_in(v: &Vec<char>) -> (r: Option<String>)
    ensures
        opt_string(r) == timestamp_text_of(v@),
{
    match find_field(FieldPattern::Timestamp, v) {
        Some((_, a, b)) => Some(string_from_range(v, a, b)),
        None => None,
    }
}

/// The digits `v[a..b]` as an `i32`, or 0 where one is not ASCII or the
/// value exceeds `i32::MAX`.
fn digits_to_i32(v: &Vec<char>, a: usize, b: usize) -> (r: i32)
    requires
        a <= b <= v@.len(),
    ensures
        r == (if all_ascii_digits(v@.subrange(a as int, b as int)) && digits_val(
            v@.subrange(a as int, b as int),
        ) <= i32::MAX {
            digits_val(v@.subrange(a as int, b as int)) as i32
        } else {
            0i32
        }),
{
    let mut acc: u64 = 0;
    let mut over = false;
    let mut i = a;
    assert(v@.subrange(a as int, a as int).len() == 0);
    while i < b
        invariant
            a <= i <= b <= v@.len(),
            over == (digits_val(v@.subrange(a as int, i as int)) > i32::MAX),
            !over ==> acc == digits_val(v@.subrange(a as int, i as int)),
            all_ascii_digits(v@.subrange(a as int, i as int)),
        decreases b - i,
    {
        let c = v[i];
        if !('0' <= c && c <= '9') {
            proof {
                assert(v@.subrange(a as int, b as int)[i - a] == c);
            }
            return 0;
        }
        let ghost prev = v@.subrange(a as int, i as int);
        let ghost next = v@.subrange(a as int, i + 1);
        assert(next.drop_last() =~= prev);
        assert(digits_val(next) == digits_val(prev) * 10 + digit_val(c));
        assert(all_ascii_digits(next)) by {
            assert forall|k: int| 0 <= k < next.len() implies crate::number::is_ascii_digit(#[trigger] next[k]) by {
                if k < prev.len() {
                    assert(next[k] == prev[k]);
                }
            }
        }
        let d = ((c as u32) - ('0' as u32)) as u64;
        if !over {
            acc = acc * 10 + d;
            if acc > 2147483647 {
                over = true;
            }
        }
        i = i + 1;
    }
    if over {
        0
    } else {
        acc as i32
    }
}

pub fn compression_depth_in(v: &Vec<char>) -> (r: i32)
    ensures
        r == compression_depth_of(v@),
{
    match find_field(FieldPattern::CompressionDepth, v) {
        Some((_, a, b)) => digits_to_i32(v, a, b),
        None => 0,
    }
}

/// The tier that `raw` names, as written (see `tier_of`).
pub fn parse_tier(raw: &str) -> (r: Option<String>)
    ensures
        opt_string(r) == tier_of(raw@),
{
    tier_in(&chars_of(raw))
}

/// The parent node that `raw` names (see `parent_node_of`).
pub fn parse_parent_node(raw: &str) -> (r: Option<String>)
    ensures
        opt_string(r) == parent_node_of(raw@),
{
    parent_node_in(&chars_of(raw))
}

/// The context summary of `raw` (see `context_summary_of`).
pub fn parse_context_summary(raw: &str) -> (r: Option<String>)
    ensures
        opt_string(r) == context_summary_of(raw@),
{
    context_summary_in(&chars_of(raw))
}

/// The compression depth of `raw` (see `compression_depth_of`).
pub fn parse_compression_depth(raw: &str) -> (r: i32)
    ensures
        r == compression_depth_of(raw@),
{
    compression_depth_in(&chars_of(raw))
}

/// The quoted timestamp text of `raw` (see `timestamp_text_of`).
pub fn parse_timestamp_text(raw: &str) -> (r: Option<String>)
    ensures
        opt_string(r) == timestamp_text_of(raw@),
{
    timestamp_text_in(&chars_of(raw))
}

} // verus!
