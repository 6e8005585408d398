//! Rules that the servers apply to request and command-line values before
//! they reach the services: limits and batch sizes, migration modes, tier,
//! keyword, model and sync-key filters, embedding inputs, and flags.
use vstd::prelude::*;
use crate::node_fields::opt_string;
use crate::ranking::{first_page, is_first_page, is_ranked_list, key_view, rank_all, ranks_before};
use crate::tenant::opt_str;
use crate::text::{
    ascii_lower_chars, ascii_lower_seq, chars_eq, chars_of, contains_seq, find_from, push_decimal,
    push_str, string_from_chars, string_from_range, string_of, sub_vec, trim, trim_bounds,
    lemma_contains_iff_first_match, decimal_of, lemma_text_lt_asymmetric,
};

verus! {

// ---------------------------------------------------------------------------
// Limits

/// A result limit must lie in `1..=200`; the error names the field.
pub fn validate_limit(limit: usize, field: &str) -> (r: Result<usize, String>)
    ensures
        match r {
            Ok(v) => 1 <= limit <= 200 && v == limit,
            Err(e) => !(1 <= limit <= 200) && e@ == field@ + " must be between 1 and 200"@,
        },
{
    if 1 <= limit && limit <= 200 {
        Ok(limit)
    } else {
        let mut e = string_of(field);
        push_str(&mut e, " must be between 1 and 200");
        Err(e)
    }
}

/// A migration batch size must lie in `1..=500`.
pub fn validate_batch_size(batch_size: usize) -> (r: Result<usize, String>)
    ensures
        match r {
            Ok(v) => 1 <= batch_size <= 500 && v == batch_size,
            Err(e) => !(1 <= batch_size <= 500) && e@ == "batch_size must be between 1 and 500"@,
        },
{
    if 1 <= batch_size && batch_size <= 500 {
        Ok(batch_size)
    } else {
        Err(string_of("batch_size must be between 1 and 500"))
    }
}

/// A migration node cap must lie in `1..=50000`.
pub fn validate_max_nodes(max_nodes: usize) -> (r: Result<usize, String>)
    ensures
        match r {
            Ok(v) => 1 <= max_nodes <= 50000 && v == max_nodes,
            Err(e) => !(1 <= max_nodes <= 50000) && e@ == "max_nodes must be between 1 and 50000"@,
        },
{
    if 1 <= max_nodes && max_nodes <= 50000 {
        Ok(max_nodes)
    } else {
        Err(string_of("max_nodes must be between 1 and 50000"))
    }
}

/// How many candidates to fetch for a keyword-filtered request: five times
/// the limit, kept in `1..=200`.
pub fn expanded_limit(limit: usize) -> (r: usize)
    ensures
        r == (if limit * 5 > 200 {
            200
        } else if limit * 5 < 1 {
            1
        } else {
            (limit * 5) as usize
        }),
{
    if limit > 40 {
        200
    } else if limit == 0 {
        1
    } else {
        limit * 5
    }
}

/// A count as an `i32`, saturating at `i32::MAX`.
pub fn clamp_usize_to_i32(value: usize) -> (r: i32)
    ensures
        r == (if value > i32::MAX {
            i32::MAX as int
        } else {
            value as int
        }),
{
    if value > 2147483647 {
        2147483647
    } else {
        value as i32
    }
}

pub fn default_limit_get_context() -> (r: usize)
    ensures
        r == 5,
{
    5
}

pub fn default_limit_list_nodes() -> (r: usize)
    ensures
        r == 50,
{
    50
}

pub fn default_sample_limit_preview_migration() -> (r: usize)
    ensures
        r == 20,
{
    20
}

pub fn default_batch_size_migration() -> (r: usize)
    ensures
        r == 100,
{
    100
}

pub fn default_max_nodes_migration() -> (r: usize)
    ensures
        r == 5000,
{
    5000
}

pub fn default_true() -> (r: bool)
    ensures
        r,
{
    true
}

/// Failure reasons of a migration run are kept up to 100.
pub fn push_failure_reason(reasons: &mut Vec<String>, reason: String)
    ensures
        final(reasons)@ == if old(reasons)@.len() < 100 {
            old(reasons)@.push(reason)
        } else {
            old(reasons)@
        },
{
    if reasons.len() < 100 {
        reasons.push(reason);
    }
}

// ---------------------------------------------------------------------------
// Migration modes

#[derive(Debug, Clone, Copy, PartialEq, Eq, Structural)]
pub enum EmbeddingMigrationMode {
    MissingOnly,
    ReindexAll,
}

/// The text `s` trimmed and in ASCII lower case.
pub open spec fn folded(s: Seq<char>) -> Seq<char> {
    ascii_lower_seq(trim(s))
}

fn folded_exec(s: &str) -> (r: Vec<char>)
    ensures
        r@ == folded(s@),
{
    let v = chars_of(s);
    let (a, b) = trim_bounds(&v, 0, v.len());
    assert(v@.subrange(0, v@.len() as int) =~= v@);
    let t = sub_vec(&v, a, b);
    ascii_lower_chars(&t)
}

fn is_word(v: &Vec<char>, word: &str) -> (r: bool)
    ensures
        r == (v@ == word@),
{
    let w = chars_of(word);
    chars_eq(v, &w)
}

/// The migration mode a request names, `missing_only` where it names none.
pub open spec fn migration_mode_of(value: Option<Seq<char>>) -> Result<EmbeddingMigrationMode, Seq<char>> {
    let m = folded(
        match value {
            Some(v) => v,
            None => "missing_only"@,
        },
    );
    if m == "missing_only"@ {
        Ok(EmbeddingMigrationMode::MissingOnly)
    } else if m == "reindex_all"@ {
        Ok(EmbeddingMigrationMode::ReindexAll)
    } else {
        Err("mode must be one of: missing_only, reindex_all"@)
    }
}

pub open spec fn result_view(r: Result<EmbeddingMigrationMode, String>) -> Result<EmbeddingMigrationMode, Seq<char>> {
    match r {
        Ok(m) => Ok(m),
        Err(e) => Err(e@),
    }
}

pub fn parse_migration_mode(value: Option<&str>) -> (r: Result<EmbeddingMigrationMode, String>)
    ensures
        result_view(r) == migration_mode_of(opt_str(value)),
{
    let given = match value {
        Some(v) => v,
        None => "missing_only",
    };
    let m = folded_exec(given);
    if is_word(&m, "missing_only") {
        Ok(EmbeddingMigrationMode::MissingOnly)
    } else if is_word(&m, "reindex_all") {
        Ok(EmbeddingMigrationMode::ReindexAll)
    } else {
        Err(string_of("mode must be one of: missing_only, reindex_all"))
    }
}

pub open spec fn mode_name(mode: EmbeddingMigrationMode) -> Seq<char> {
    match mode {
        EmbeddingMigrationMode::MissingOnly => "missing_only"@,
        EmbeddingMigrationMode::ReindexAll => "reindex_all"@,
    }
}

pub fn mode_to_string(mode: EmbeddingMigrationMode) -> (r: &'static str)
    ensures
        r@ == mode_name(mode),
{
    match mode {
        EmbeddingMigrationMode::MissingOnly => "missing_only",
        EmbeddingMigrationMode::ReindexAll => "reindex_all",
    }
}

/// Embedding providers a server can be configured with.
#[derive(Debug, Clone, Copy, PartialEq, Eq, Structural)]
pub enum EmbeddingsProviderKind {
    Ollama,
}

impl EmbeddingsProviderKind {
    /// The provider a configuration value names, case and surrounding
    /// whitespace aside.
    pub fn parse(value: &str) -> (r: Option<Self>)
        ensures
            r == (if folded(value@) == "ollama"@ {
                Some(EmbeddingsProviderKind::Ollama)
            } else {
                None
            }),
    {
        let m = folded_exec(value);
        if is_word(&m, "ollama") {
            Some(EmbeddingsProviderKind::Ollama)
        } else {
            None
        }
    }
}

/// An environment flag is set by `1`, `true` or `yes`, case and surrounding
/// whitespace aside.
pub fn flag_value(value: &str) -> (r: bool)
    ensures
        r == (folded(value@) == "1"@ || folded(value@) == "true"@ || folded(value@) == "yes"@),
{
    let m = folded_exec(value);
    is_word(&m, "1") || is_word(&m, "true") || is_word(&m, "yes")
}

// ---------------------------------------------------------------------------
// Term lists

pub open spec fn strings_view(s: Seq<String>) -> Seq<Seq<char>> {
    s.map_values(|x: String| x@)
}

/// The terms of `xs`, trimmed and in ASCII lower case, blank ones dropped,
/// in order.
pub open spec fn folded_terms(xs: Seq<Seq<char>>) -> Seq<Seq<char>>
    decreases xs.len(),
{
    if xs.len() == 0 {
        Seq::empty()
    } else {
        let p = folded_terms(xs.drop_last());
        let t = folded(xs.last());
        if t.len() == 0 {
            p
        } else {
            p.push(t)
        }
    }
}

fn folded_terms_exec(xs: &[String]) -> (r: Vec<String>)
    ensures
        strings_view(r@) == folded_terms(strings_view(xs@)),
{
    let mut r: Vec<String> = Vec::new();
    let mut i: usize = 0;
    while i < xs.len()
        invariant
            i <= xs@.len(),
            strings_view(r@) == folded_terms(strings_view(xs@.take(i as int))),
        decreases xs@.len() - i,
    {
        let t = folded_exec(xs[i].as_str());
        proof {
            assert(strings_view(xs@.take(i + 1)).drop_last() =~= strings_view(xs@.take(i as int)));
            assert(strings_view(xs@.take(i + 1)).last() == xs@[i as int]@);
        }
        if t.len() > 0 {
            let s = string_from_chars(&t);
            let ghost before = r@;
            r.push(s);
            assert(strings_view(r@) =~= strings_view(before).push(t@));
        }
        i = i + 1;
    }
    assert(xs@.take(xs@.len() as int) =~= xs@);
    r
}

/// The tiers of a request: trimmed, in ASCII lower case, blank ones dropped.
pub fn normalize_tiers(tiers: &[String]) -> (r: Vec<String>)
    ensures
        strings_view(r@) == folded_terms(strings_view(tiers@)),
{
    folded_terms_exec(tiers)
}

pub open spec fn opt_strings(o: Option<&[String]>) -> Seq<Seq<char>> {
    match o {
        Some(s) => strings_view(s@),
        None => Seq::empty(),
    }
}

/// The tier filter of a request: its folded tiers, none where none remain.
pub fn normalize_request_tiers(tiers: Option<&[String]>) -> (r: Option<Vec<String>>)
    ensures
        match r {
            Some(v) => strings_view(v@) == folded_terms(opt_strings(tiers)) && v@.len() > 0,
            None => folded_terms(opt_strings(tiers)).len() == 0,
        },
{
    let v = match tiers {
        Some(t) => folded_terms_exec(t),
        None => Vec::new(),
    };
    if v.len() == 0 {
        None
    } else {
        Some(v)
    }
}

/// The context keywords of a request, folded, blank ones dropped.
pub fn normalize_context_keywords(keywords: Option<&[String]>) -> (r: Vec<String>)
    ensures
        strings_view(r@) == folded_terms(opt_strings(keywords)),
{
    match keywords {
        Some(k) => folded_terms_exec(k),
        None => {
            let r: Vec<String> = Vec::new();
            assert(strings_view(r@) =~= Seq::<Seq<char>>::empty());
            r
        },
    }
}

/// The embedding model filter of a request: folded, none where blank.
pub fn normalize_model_filter(value: Option<&str>) -> (r: Option<String>)
    ensures
        opt_string(r) == match value {
            Some(v) => if folded(v@).len() == 0 {
                None
            } else {
                Some(folded(v@))
            },
            None => None,
        },
{
    match value {
        Some(v) => {
            let m = folded_exec(v);
            if m.len() == 0 {
                None
            } else {
                Some(string_from_chars(&m))
            }
        },
        None => None,
    }
}

/// The distinct sync keys of `xs`, trimmed, blank ones dropped, each at its
/// first occurrence.
pub open spec fn distinct_keys(xs: Seq<Seq<char>>) -> Seq<Seq<char>>
    decreases xs.len(),
{
    if xs.len() == 0 {
        Seq::empty()
    } else {
        let p = distinct_keys(xs.drop_last());
        let t = trim(xs.last());
        if t.len() == 0 || p.contains(t) {
            p
        } else {
            p.push(t)
        }
    }
}

proof fn lemma_distinct_keys_unique(xs: Seq<Seq<char>>)
    ensures
        forall|i: int, j: int|
            0 <= i < j < distinct_keys(xs).len() ==> distinct_keys(xs)[i] != distinct_keys(xs)[j],
    decreases xs.len(),
{
    if xs.len() > 0 {
        lemma_distinct_keys_unique(xs.drop_last());
        let p = distinct_keys(xs.drop_last());
        let t = trim(xs.last());
        if !(t.len() == 0 || p.contains(t)) {
            let d = p.push(t);
            assert(distinct_keys(xs) == d);
            assert forall|i: int, j: int| 0 <= i < j < d.len() implies d[i] != d[j] by {
                if j == p.len() {
                    assert(d[j] == t);
                    assert(d[i] == p[i]);
                    if p[i] == t {
                        assert(p.contains(t));
                    }
                } else {
                    assert(d[i] == p[i] && d[j] == p[j]);
                }
            }
        }
    }
}

/// The sync-key filter of a request: its distinct trimmed keys, none where
/// none remain.  No key occurs twice.
pub fn normalize_sync_keys(values: Option<&[String]>) -> (r: Option<Vec<String>>)
    ensures
        match r {
            Some(v) => strings_view(v@) == distinct_keys(opt_strings(values)) && v@.len() > 0,
            None => distinct_keys(opt_strings(values)).len() == 0,
        },
        r matches Some(v) ==> forall|i: int, j: int|
            0 <= i < j < v@.len() ==> v@[i]@ != v@[j]@,
{
    let empty: [String; 0] = [];
    let xs: &[String] = match values {
        Some(x) => x,
        None => &empty,
    };
    assert(strings_view(xs@) =~= opt_strings(values));
    let mut r: Vec<String> = Vec::new();
    let mut i: usize = 0;
    while i < xs.len()
        invariant
            i <= xs@.len(),
            strings_view(r@) == distinct_keys(strings_view(xs@.take(i as int))),
        decreases xs@.len() - i,
    {
        let c = chars_of(xs[i].as_str());
        let (a, b) = trim_bounds(&c, 0, c.len());
        assert(c@.subrange(0, c@.len() as int) =~= c@);
        let t = sub_vec(&c, a, b);
        proof {
            assert(strings_view(xs@.take(i + 1)).drop_last() =~= strings_view(xs@.take(i as int)));
            assert(strings_view(xs@.take(i + 1)).last() == xs@[i as int]@);
        }
        if t.len() > 0 {
            let mut seen = false;
            let mut k: usize = 0;
            while k < r.len()
                invariant
                    k <= r@.len(),
                    seen == exists|m: int| 0 <= m < k && strings_view(r@)[m] == t@,
                decreases r@.len() - k,
            {
                let rk = chars_of(r[k].as_str());
                if chars_eq(&rk, &t) {
                    seen = true;
                }
                proof {
                    if rk@ == t@ {
                        assert(strings_view(r@)[k as int] == t@);
                    }
                }
                k = k + 1;
            }
            proof {
                if seen {
                    let m = choose|m: int| 0 <= m < r@.len() && strings_view(r@)[m] == t@;
                    assert(strings_view(r@).contains(t@));
                } else {
                    assert(!strings_view(r@).contains(t@));
                }
            }
            if !seen {
                let ghost before = r@;
                r.push(string_from_chars(&t));
                assert(strings_view(r@) =~= strings_view(before).push(t@));
            }
        }
        i = i + 1;
    }
    assert(xs@.take(xs@.len() as int) =~= xs@);
    proof {
        lemma_distinct_keys_unique(strings_view(xs@));
        assert forall|i: int, j: int| 0 <= i < j < r@.len() implies r@[i]@ != r@[j]@ by {
            assert(strings_view(r@)[i] == r@[i]@);
            assert(strings_view(r@)[j] == r@[j]@);
        }
    }
    if r.len() == 0 {
        None
    } else {
        Some(r)
    }
}

// ---------------------------------------------------------------------------
// Embedding input

/// The text a node is embedded from: its context summary (trimmed) and its
/// session id (trimmed), on two lines as `summary` and
/// `session_id:<session>`, each where present; none where both are blank.
pub open spec fn embedding_input(summary: Option<Seq<char>>, session: Seq<char>) -> Option<Seq<char>> {
    let s = match summary {
        Some(v) if trim(v).len() > 0 => Some(trim(v)),
        _ => None,
    };
    let id = trim(session);
    match s {
        None => if id.len() == 0 {
            None
        } else {
            Some("session_id:"@ + id)
        },
        Some(v) => if id.len() == 0 {
            Some(v)
        } else {
            Some(v + "\nsession_id:"@ + id)
        },
    }
}

pub fn build_embedding_input(context_summary: Option<&str>, session_id: &str) -> (r: Option<String>)
    ensures
        opt_string(r) == embedding_input(opt_str(context_summary), session_id@),
{
    let sv = chars_of(session_id);
    let (sa, sb) = trim_bounds(&sv, 0, sv.len());
    assert(sv@.subrange(0, sv@.len() as int) =~= sv@);
    let summary: Option<(Vec<char>, usize, usize)> = match context_summary {
        Some(v) => {
            let c = chars_of(v);
            let (a, b) = trim_bounds(&c, 0, c.len());
            assert(c@.subrange(0, c@.len() as int) =~= c@);
            if a < b {
                Some((c, a, b))
            } else {
                None
            }
        },
        None => None,
    };
    match summary {
        None => if sa == sb {
            None
        } else {
            let mut r = string_of("session_id:");
            crate::text::push_range(&mut r, &sv, sa, sb);
            Some(r)
        },
        Some((c, a, b)) => {
            let mut r = string_from_range(&c, a, b);
            if sa < sb {
                push_str(&mut r, "\nsession_id:");
                crate::text::push_range(&mut r, &sv, sa, sb);
            }
            Some(r)
        },
    }
}

// ---------------------------------------------------------------------------
// Command-line arguments

/// `a` equals `b` up to ASCII case.
pub open spec fn eq_ignore_ascii_case(a: Seq<char>, b: Seq<char>) -> bool {
    ascii_lower_seq(a) == ascii_lower_seq(b)
}

pub(crate) fn eq_ignore_ascii_case_exec(a: &str, b: &str) -> (r: bool)
    ensures
        r == eq_ignore_ascii_case(a@, b@),
{
    let x = ascii_lower_chars(&chars_of(a));
    let y = ascii_lower_chars(&chars_of(b));
    chars_eq(&x, &y)
}

/// The value after the first argument that is `key` up to ASCII case.
pub open spec fn arg_value_of(args: Seq<Seq<char>>, key: Seq<char>) -> Option<Seq<char>>
    decreases args.len(),
{
    if args.len() < 2 {
        None
    } else if eq_ignore_ascii_case(args[0], key) {
        Some(args[1])
    } else {
        arg_value_of(args.drop_first(), key)
    }
}

pub fn arg_value(args: &[String], key: &str) -> (r: Option<String>)
    ensures
        opt_string(r) == arg_value_of(strings_view(args@), key@),
{
    let ghost a = strings_view(args@);
    let mut i: usize = 0;
    assert(a.skip(0) =~= a);
    while i < args.len() && args.len() - i >= 2
        invariant
            i <= args@.len(),
            a == strings_view(args@),
            arg_value_of(a, key@) == arg_value_of(a.skip(i as int), key@),
        decreases args@.len() - i,
    {
        assert(a.skip(i as int)[0] == args@[i as int]@);
        assert(a.skip(i as int)[1] == args@[i + 1]@);
        if eq_ignore_ascii_case_exec(args[i].as_str(), key) {
            return Some(string_of(args[i + 1].as_str()));
        }
        assert(a.skip(i as int).drop_first() =~= a.skip(i + 1));
        i = i + 1;
    }
    None
}

/// Some argument is `flag` up to ASCII case.
pub open spec fn has_flag(args: Seq<Seq<char>>, flag: Seq<char>) -> bool {
    exists|i: int| 0 <= i < args.len() && eq_ignore_ascii_case(#[trigger] args[i], flag)
}

pub fn any_arg_is(args: &[String], flag: &str) -> (r: bool)
    ensures
        r == has_flag(strings_view(args@), flag@),
{
    let mut i: usize = 0;
    while i < args.len()
        invariant
            i <= args@.len(),
            forall|j: int| 0 <= j < i ==> !eq_ignore_ascii_case(#[trigger] strings_view(args@)[j], flag@),
        decreases args@.len() - i,
    {
        if eq_ignore_ascii_case_exec(args[i].as_str(), flag) {
            assert(strings_view(args@)[i as int] == args@[i as int]@);
            return true;
        }
        assert(strings_view(args@)[i as int] == args@[i as int]@);
        i = i + 1;
    }
    false
}

// ---------------------------------------------------------------------------
// Queries and keywords

/// A statement reads when, leading whitespace aside, it starts with
/// `SELECT` up to ASCII case.
pub open spec fn is_read_statement(q: Seq<char>) -> bool {
    let t = q.skip(crate::text::lead_ws(q) as int);
    t.len() >= 6 && ascii_lower_seq(t.take(6)) == "select"@
}

pub fn is_read_query(query: &str) -> (r: bool)
    ensures
        r == is_read_statement(query@),
{
    let v = chars_of(query);
    let (a, _) = trim_bounds(&v, 0, v.len());
    assert(v@.subrange(0, v@.len() as int) =~= v@);
    let n = v.len();
    if n - a < 6 {
        return false;
    }
    let head = sub_vec(&v, a, a + 6);
    let lowered = ascii_lower_chars(&head);
    assert(v@.skip(a as int).take(6) =~= head@);
    is_word(&lowered, "select")
}

/// How many of the keywords occur in the ASCII-lowercased context summary
/// or session id.
pub open spec fn keyword_score(summary: Seq<char>, session: Seq<char>, keywords: Seq<Seq<char>>) -> nat
    decreases keywords.len(),
{
    if keywords.len() == 0 {
        0
    } else {
        keyword_score(summary, session, keywords.drop_last()) + if contains_seq(
            ascii_lower_seq(summary),
            keywords.last(),
        ) || contains_seq(ascii_lower_seq(session), keywords.last()) {
            1nat
        } else {
            0nat
        }
    }
}

pub fn context_keyword_score(context_summary: Option<&str>, session_id: &str, keywords: &[String]) -> (r: usize)
    ensures
        r == keyword_score(
            match opt_str(context_summary) {
                Some(s) => s,
                None => Seq::empty(),
            },
            session_id@,
            strings_view(keywords@),
        ),
{
    let summary = match context_summary {
        Some(s) => ascii_lower_chars(&chars_of(s)),
        None => Vec::new(),
    };
    let session = ascii_lower_chars(&chars_of(session_id));
    let ghost sm = match opt_str(context_summary) {
        Some(s) => s,
        None => Seq::<char>::empty(),
    };
    assert(summary@ == ascii_lower_seq(sm));
    let mut count: usize = 0;
    let mut i: usize = 0;
    while i < keywords.len()
        invariant
            i <= keywords@.len(),
            summary@ == ascii_lower_seq(sm),
            session@ == ascii_lower_seq(session_id@),
            count == keyword_score(sm, session_id@, strings_view(keywords@.take(i as int))),
            count <= i,
        decreases keywords@.len() - i,
    {
        let k = chars_of(keywords[i].as_str());
        let in_summary = find_from(&summary, &k, 0).is_some();
        let in_session = find_from(&session, &k, 0).is_some();
        proof {
            lemma_contains_iff_first_match(summary@, k@);
            lemma_contains_iff_first_match(session@, k@);
            assert(strings_view(keywords@.take(i + 1)).drop_last() =~= strings_view(keywords@.take(i as int)));
            assert(strings_view(keywords@.take(i + 1)).last() == keywords@[i as int]@);
        }
        if in_summary || in_session {
            count = count + 1;
        }
        i = i + 1;
    }
    assert(keywords@.take(keywords@.len() as int) =~= keywords@);
    count
}

/// What ranking by context keywords reads of a node.
#[derive(Debug, Clone)]
pub struct KeywordNode {
    pub context_summary: Option<String>,
    pub session_id: String,
    pub timestamp: i64,
}

/// The keyword score of a node (see `keyword_score`).
pub open spec fn node_score(node: KeywordNode, keywords: Seq<Seq<char>>) -> nat {
    keyword_score(
        match opt_string(node.context_summary) {
            Some(s) => s,
            None => Seq::empty(),
        },
        node.session_id@,
        keywords,
    )
}

/// Node `i` ranks before node `j`: a higher score, or as high and newer, or
/// as new and earlier in the input.
pub open spec fn keyword_before(nodes: Seq<KeywordNode>, keywords: Seq<Seq<char>>, i: int, j: int) -> bool {
    let si = node_score(nodes[i], keywords);
    let sj = node_score(nodes[j], keywords);
    ||| si > sj
    ||| si == sj && nodes[i].timestamp > nodes[j].timestamp
    ||| si == sj && nodes[i].timestamp == nodes[j].timestamp && i < j
}

/// `r` holds, in rank order, the first `limit` nodes that match a keyword
/// (all of them where there are fewer).
pub open spec fn is_keyword_page(nodes: Seq<KeywordNode>, keywords: Seq<Seq<char>>, limit: usize, r: Seq<usize>) -> bool {
    &&& r.len() <= limit
    &&& forall|a: int|
        0 <= a < r.len() ==> (#[trigger] r[a] as int) < nodes.len() && node_score(nodes[r[a] as int], keywords) > 0
    &&& forall|a: int, b: int| 0 <= a < b < r.len() ==> keyword_before(nodes, keywords, r[a] as int, r[b] as int)
    &&& forall|q: usize|
        q < nodes.len() && node_score(nodes[q as int], keywords) > 0 && !r.contains(q) ==> r.len() == limit
            && (limit > 0 ==> keyword_before(nodes, keywords, r.last() as int, q as int))
}

/// The nodes that match some keyword, highest score first, newest first
/// among equal scores, at most `limit` of them (positions in `nodes`).
pub fn filter_nodes_by_context_keywords(nodes: &Vec<KeywordNode>, keywords: &[String], limit: usize) -> (r: Vec<usize>)
    ensures
        is_keyword_page(nodes@, strings_view(keywords@), limit, r@),
{
    let ghost kw = strings_view(keywords@);
    let n = nodes.len();
    let mut k1: Vec<(i128, Vec<char>)> = Vec::new();
    let mut scores: Vec<usize> = Vec::new();
    let mut i: usize = 0;
    while i < n
        invariant
            n == nodes@.len(),
            kw == strings_view(keywords@),
            i <= n,
            k1@.len() == i,
            scores@.len() == i,
            forall|j: int| 0 <= j < i ==> #[trigger] key_view(k1@)[j] == (-(nodes@[j].timestamp as int), Seq::<char>::empty()),
            forall|j: int| 0 <= j < i ==> #[trigger] scores@[j] == node_score(nodes@[j], kw),
        decreases n - i,
    {
        let node = &nodes[i];
        let sc = context_keyword_score(
            match &node.context_summary {
                Some(t) => Some(t.as_str()),
                None => None,
            },
            node.session_id.as_str(),
            keywords,
        );
        let ghost kb = k1@;
        k1.push((-(node.timestamp as i128), Vec::new()));
        scores.push(sc);
        proof {
            assert forall|j: int| 0 <= j < i + 1 implies #[trigger] key_view(k1@)[j] == (-(nodes@[j].timestamp as int), Seq::<char>::empty()) by {
                if j < i {
                    assert(key_view(k1@)[j] == key_view(kb)[j]);
                } else {
                    assert(key_view(k1@)[j].1 =~= Seq::<char>::empty());
                }
            }
        }
        i = i + 1;
    }
    if limit == 0 {
        return Vec::new();
    }
    let order = rank_all(&k1);
    let ghost g1 = key_view(k1@);
    let mut k2: Vec<(i128, Vec<char>)> = Vec::new();
    let mut eligible: Vec<bool> = Vec::new();
    let mut j: usize = 0;
    while j < order.len()
        invariant
            n == nodes@.len(),
            g1 == key_view(k1@),
            g1.len() == n,
            is_ranked_list(g1, order@),
            scores@.len() == n,
            j <= order@.len(),
            k2@.len() == j,
            eligible@.len() == j,
            forall|x: int| 0 <= x < j ==> #[trigger] key_view(k2@)[x] == (-(scores@[order@[x] as int] as int), Seq::<char>::empty()),
            forall|x: int| 0 <= x < j ==> #[trigger] eligible@[x] == (scores@[order@[x] as int] > 0),
        decreases order@.len() - j,
    {
        let o = order[j];
        assert((order@[j as int] as int) < g1.len());
        let ghost kb = k2@;
        k2.push((-(scores[o] as i128), Vec::new()));
        eligible.push(scores[o] > 0);
        proof {
            assert forall|x: int| 0 <= x < j + 1 implies #[trigger] key_view(k2@)[x] == (-(scores@[order@[x] as int] as int), Seq::<char>::empty()) by {
                if x < j {
                    assert(key_view(k2@)[x] == key_view(kb)[x]);
                } else {
                    assert(key_view(k2@)[x].1 =~= Seq::<char>::empty());
                }
            }
        }
        j = j + 1;
    }
    let ghost g2 = key_view(k2@);
    let (page, more) = first_page(&k2, &eligible, limit);
    let mut r: Vec<usize> = Vec::new();
    let mut a: usize = 0;
    while a < page.len()
        invariant
            a <= page@.len(),
            g2 == key_view(k2@),
            g2.len() == order@.len(),
            is_first_page(g2, eligible@, limit as int, page@, more),
            r@.len() == a,
            forall|x: int| 0 <= x < a ==> #[trigger] r@[x] == order@[page@[x] as int],
        decreases page@.len() - a,
    {
        assert((page@[a as int] as int) < g2.len());
        r.push(order[page[a]]);
        a = a + 1;
    }
    proof {
        // Ranking by score then by the time order ranks by `keyword_before`.
        assert forall|x: int, y: int|
            0 <= x < order@.len() && 0 <= y < order@.len() && ranks_before(g2, x, y) implies keyword_before(
            nodes@,
            kw,
            order@[x] as int,
            order@[y] as int,
        ) by {
            let ox = order@[x] as int;
            let oy = order@[y] as int;
            assert(g2[x] == (-(scores@[ox] as int), Seq::<char>::empty()));
            assert(g2[y] == (-(scores@[oy] as int), Seq::<char>::empty()));
            assert(ox < n && oy < n);
            assert(scores@[ox] == node_score(nodes@[ox], kw));
            assert(scores@[oy] == node_score(nodes@[oy], kw));
            lemma_text_lt_asymmetric(Seq::<char>::empty(), Seq::<char>::empty());
            if scores@[ox] == scores@[oy] {
                assert(x < y);
                assert(ranks_before(g1, ox, oy));
                assert(g1[ox] == (-(nodes@[ox].timestamp as int), Seq::<char>::empty()));
                assert(g1[oy] == (-(nodes@[oy].timestamp as int), Seq::<char>::empty()));
            }
        }
        assert forall|x: int| 0 <= x < r@.len() implies (#[trigger] r@[x] as int) < nodes@.len() && node_score(
            nodes@[r@[x] as int],
            kw,
        ) > 0 by {
            assert(eligible@[page@[x] as int]);
            assert((page@[x] as int) < g2.len());
            assert((order@[page@[x] as int] as int) < g1.len());
        }
        assert forall|x: int, y: int| 0 <= x < y < r@.len() implies keyword_before(
            nodes@,
            kw,
            r@[x] as int,
            r@[y] as int,
        ) by {
            assert(ranks_before(g2, page@[x] as int, page@[y] as int));
            assert(eligible@[page@[x] as int] && eligible@[page@[y] as int]);
        }
        assert forall|q: usize|
            q < nodes@.len() && node_score(nodes@[q as int], kw) > 0 && !r@.contains(q) implies r@.len() == limit
            && (limit > 0 ==> keyword_before(nodes@, kw, r@.last() as int, q as int)) by {
            assert(order@.contains(q));
            let jq = choose|jq: int| 0 <= jq < order@.len() && order@[jq] == q;
            let jqu = jq as usize;
            assert(eligible@[jq]);
            assert(!page@.contains(jqu)) by {
                if page@.contains(jqu) {
                    let x = choose|x: int| 0 <= x < page@.len() && page@[x] == jqu;
                    assert(r@[x] == q);
                }
            }
            assert(page@.len() == limit);
            assert(ranks_before(g2, page@.last() as int, jq));
            assert(eligible@[page@[page@.len() - 1] as int]);
            assert(r@.last() == r@[r@.len() - 1]);
            assert(r@[r@.len() - 1] == order@[page@[page@.len() - 1] as int]);
        }
    }
    r
}

// ---------------------------------------------------------------------------
// The session graph

/// The limits of a graph request: the requested number of nodes (1000 by
/// default) in `1..=5000`, and how many nodes to read for it: that many
/// for one session, else the tenant scan limit.
pub fn graph_limits(limit: Option<usize>, session_filter: bool) -> (r: (usize, usize))
    ensures
        r.0 == ({
            let l = match limit {
                Some(l) => l as int,
                None => 1000,
            };
            if l < 1 {
                1
            } else if l > 5000 {
                5000
            } else {
                l
            }
        }),
        r.1 == (if session_filter {
            r.0
        } else {
            crate::tenant::TENANT_SCAN_LIMIT
        }),
{
    let l = match limit {
        Some(l) => l,
        None => 1000,
    };
    let capped = if l < 1 {
        1
    } else if l > 5000 {
        5000
    } else {
        l
    };
    let backend = if session_filter {
        capped
    } else {
        crate::tenant::TENANT_SCAN_LIMIT
    };
    (capped, backend)
}

/// The drawn size of a session of `node_count` nodes: 16, plus two per
/// node up to 28.
pub fn session_group_size(node_count: usize) -> (r: usize)
    requires
        node_count * 2 <= usize::MAX,
    ensures
        r == 16 + (if node_count * 2 < 28 {
            node_count * 2
        } else {
            28
        }),
{
    let twice = node_count * 2;
    16 + if twice < 28 {
        twice
    } else {
        28
    }
}

} // verus!
