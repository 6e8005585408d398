//! Pieces of the application services that hold no floating-point data: the
//! mood catalog service handle, and the slug, parent and day count of
//! roll-ups.
use vstd::prelude::*;
use crate::models::{reason_name, ValidationResult};
use crate::requests::{eq_ignore_ascii_case, eq_ignore_ascii_case_exec};
use crate::node_fields::opt_string;
use crate::ranking::{key_view, rank_all, ranks_before};
use crate::text::{lemma_text_lt_asymmetric, push_str, string_from_range, string_of};

verus! {

/// The catalog of mood presets.
#[derive(Debug, Default, Clone, Copy)]
pub struct MoodCatalogService;

impl MoodCatalogService {
    pub fn new() -> (r: Self) {
        MoodCatalogService
    }
}

/// Whether `char::is_alphanumeric` holds of `c`.
pub uninterp spec fn is_alphanumeric_char(c: char) -> bool;

/// What `char::to_lowercase` yields for `c`.
pub uninterp spec fn lowercase_of(c: char) -> Seq<char>;

/// `char::is_alphanumeric`: whether `c` is alphabetic or numeric in Unicode.
/// Which characters those are is left to the name `is_alphanumeric_char`.
#[verifier::external_body]
fn char_is_alphanumeric(c: char) -> (r: bool)
    ensures
        r == is_alphanumeric_char(c),
{
    c.is_alphanumeric()
}

/// `char::to_lowercase`, collected: the lower-case mapping of `c`, which may
/// be several characters.  The mapping is left to the name `lowercase_of`.
#[verifier::external_body]
fn char_to_lowercase(c: char) -> (r: Vec<char>)
    ensures
        r@ == lowercase_of(c),
{
    c.to_lowercase().collect()
}

/// Each character of `s` lower-cased where it is alphanumeric, else `_`.
pub open spec fn slug_chars(s: Seq<char>) -> Seq<char>
    decreases s.len(),
{
    if s.len() == 0 {
        Seq::empty()
    } else {
        slug_chars(s.drop_last()) + if is_alphanumeric_char(s.last()) {
            lowercase_of(s.last())
        } else {
            seq!['_']
        }
    }
}

/// Number of leading `_` of `s`.
pub open spec fn lead_underscores(s: Seq<char>) -> nat
    decreases s.len(),
{
    if s.len() > 0 && s[0] == '_' {
        1 + lead_underscores(s.drop_first())
    } else {
        0
    }
}

/// Number of trailing `_` of `s`.
pub open spec fn trail_underscores(s: Seq<char>) -> nat
    decreases s.len(),
{
    if s.len() > 0 && s.last() == '_' {
        1 + trail_underscores(s.drop_last())
    } else {
        0
    }
}

/// `s` without its leading and trailing `_`.
pub open spec fn trim_underscores(s: Seq<char>) -> Seq<char> {
    if lead_underscores(s) == s.len() {
        Seq::empty()
    } else {
        s.subrange(lead_underscores(s) as int, s.len() - trail_underscores(s))
    }
}

/// A name made of `value`: its alphanumeric characters lower-cased, every
/// other character `_`, and no `_` at either end.
pub open spec fn slug_of(value: Seq<char>) -> Seq<char> {
    trim_underscores(slug_chars(value))
}

proof fn lemma_lead_underscores(s: Seq<char>, n: nat)
    requires
        n <= s.len(),
        forall|k: int| 0 <= k < n ==> #[trigger] s[k] == '_',
        n < s.len() ==> s[n as int] != '_',
    ensures
        lead_underscores(s) == n,
    decreases s.len(),
{
    if n > 0 {
        assert forall|k: int| 0 <= k < n - 1 implies #[trigger] s.drop_first()[k] == '_' by {
            assert(s[k + 1] == '_');
        }
        lemma_lead_underscores(s.drop_first(), (n - 1) as nat);
    } else if s.len() > 0 {
        assert(s[0] != '_');
    }
}

proof fn lemma_trail_underscores(s: Seq<char>, n: nat)
    requires
        n <= s.len(),
        forall|k: int| s.len() - n <= k < s.len() ==> #[trigger] s[k] == '_',
        n < s.len() ==> s[s.len() - 1 - n] != '_',
    ensures
        trail_underscores(s) == n,
    decreases s.len(),
{
    if n > 0 {
        assert(s[s.len() - 1] == '_');
        assert forall|k: int| s.drop_last().len() - (n - 1) <= k < s.drop_last().len() implies #[trigger] s.drop_last()[k] == '_' by {
            assert(s[k] == '_');
        }
        lemma_trail_underscores(s.drop_last(), (n - 1) as nat);
    } else if s.len() > 0 {
        assert(s[s.len() - 1] != '_');
    }
}

/// The slug of `value` (see `slug_of`).
pub fn slug(value: &str) -> (r: String)
    ensures
        r@ == slug_of(value@),
{
    let v = crate::text::chars_of(value);
    let mut out: Vec<char> = Vec::new();
    let mut i: usize = 0;
    while i < v.len()
        invariant
            i <= v@.len(),
            out@ == slug_chars(v@.take(i as int)),
        decreases v@.len() - i,
    {
        let c = v[i];
        let ghost before = out@;
        if char_is_alphanumeric(c) {
            let mut low = char_to_lowercase(c);
            out.append(&mut low);
        } else {
            out.push('_');
        }
        proof {
            assert(v@.take(i + 1).drop_last() =~= v@.take(i as int));
            assert(v@.take(i + 1).last() == c);
            assert(out@ =~= slug_chars(v@.take(i + 1)));
        }
        i = i + 1;
    }
    assert(v@.take(v@.len() as int) =~= v@);
    let n = out.len();
    let mut a: usize = 0;
    while a < n && out[a] == '_'
        invariant
            a <= n,
            n == out@.len(),
            forall|k: int| 0 <= k < a ==> #[trigger] out@[k] == '_',
        decreases n - a,
    {
        a = a + 1;
    }
    proof {
        lemma_lead_underscores(out@, a as nat);
    }
    if a == n {
        return String::new();
    }
    let mut b = n;
    while b > a && out[b - 1] == '_'
        invariant
            a < n,
            a <= b <= n,
            n == out@.len(),
            out@[a as int] != '_',
            forall|k: int| b <= k < n ==> #[trigger] out@[k] == '_',
        decreases b,
    {
        b = b - 1;
    }
    proof {
        lemma_trail_underscores(out@, (n - b) as nat);
    }
    string_from_range(&out, a, b)
}

/// The text of an optional message, empty where there is none.
pub open spec fn text_or_empty(o: Option<Seq<char>>) -> Seq<char> {
    match o {
        Some(t) => t,
        None => Seq::empty(),
    }
}

/// Why a node was not stored because it failed validation: the reason,
/// `: `, and the validator's message.
pub fn validation_failure_message(result: &ValidationResult) -> (r: String)
    ensures
        r@ == reason_name(result.reason) + ": "@ + text_or_empty(opt_string(result.error)),
{
    let mut r = result.reason.to_string();
    push_str(&mut r, ": ");
    match &result.error {
        Some(e) => push_str(&mut r, e.as_str()),
        None => {
            assert(r@ =~= r@ + Seq::<char>::empty());
        },
    }
    r
}

/// Why a node was not stored because it did not parse.
pub fn parse_failure_message(error: Option<&str>) -> (r: String)
    ensures
        r@ == "ParseFailure: "@ + text_or_empty(crate::tenant::opt_str(error)),
{
    let mut r = string_of("ParseFailure: ");
    match error {
        Some(e) => push_str(&mut r, e),
        None => {
            assert(r@ =~= r@ + Seq::<char>::empty());
        },
    }
    r
}

/// The node a roll-up names as its parent: the requested one, else the
/// session of the earliest node rolled up.
pub fn rollup_parent_reference(requested: Option<&str>, earliest_session: &str) -> (r: String)
    ensures
        r@ == match crate::tenant::opt_str(requested) {
            Some(p) => p,
            None => earliest_session@,
        },
{
    match requested {
        Some(p) => string_of(p),
        None => string_of(earliest_session),
    }
}

/// How a roll-up names the sessions it covers: the slug of the source
/// session, or `all_sessions` where there is none or it is blank.
pub fn rollup_session_token(source_session: Option<&str>) -> (r: String)
    ensures
        r@ == match crate::tenant::opt_str(source_session) {
            Some(s) => if crate::text::trim(s).len() > 0 {
                slug_of(s)
            } else {
                "all_sessions"@
            },
            None => "all_sessions"@,
        },
{
    match source_session {
        Some(s) => {
            let v = crate::text::chars_of(s);
            let (a, b) = crate::text::trim_bounds(&v, 0, v.len());
            assert(v@.subrange(0, v@.len() as int) =~= v@);
            if a < b {
                slug(s)
            } else {
                string_of("all_sessions")
            }
        },
        None => string_of("all_sessions"),
    }
}


/// Why a roll-up is refused before its nodes are read: where its range ends
/// before it starts (times in any one unit).
pub fn rollup_range_error(start: i128, end: i128) -> (r: Option<String>)
    ensures
        match r {
            None => start <= end,
            Some(m) => end < start && m@ == "InvalidRange: end must be greater than or equal to start."@,
        },
{
    if end < start {
        Some(string_of("InvalidRange: end must be greater than or equal to start."))
    } else {
        None
    }
}

/// Why a roll-up is refused once its nodes are read: where there are none.
pub fn rollup_source_error(source_nodes: usize) -> (r: Option<String>)
    ensures
        match r {
            None => source_nodes > 0,
            Some(m) => source_nodes == 0 && m@ == "NoSourceNodes: no nodes found in the requested range."@,
        },
{
    if source_nodes == 0 {
        Some(string_of("NoSourceNodes: no nodes found in the requested range."))
    } else {
        None
    }
}

/// `p` lists every position of `times` once, earliest time first, positions
/// with equal times in the order given.
pub open spec fn is_chronological(times: Seq<i128>, p: Seq<usize>) -> bool {
    &&& p.len() == times.len()
    &&& forall|q: usize| q < times.len() ==> p.contains(q)
    &&& forall|a: int| 0 <= a < p.len() ==> (#[trigger] p[a] as int) < times.len()
    &&& forall|a: int, b: int|
        0 <= a < b < p.len() ==> times[p[a] as int] < times[p[b] as int] || (times[p[a] as int]
            == times[p[b] as int] && p[a] < p[b])
}

/// The order in which a roll-up reads its nodes: by time, earliest first,
/// nodes of equal time in the order given (see `is_chronological`).
pub fn chronological_order(times: &Vec<i128>) -> (r: Vec<usize>)
    ensures
        is_chronological(times@, r@),
{
    let mut keys: Vec<(i128, Vec<char>)> = Vec::new();
    let mut i: usize = 0;
    while i < times.len()
        invariant
            i <= times@.len(),
            keys@.len() == i,
            forall|j: int| 0 <= j < i ==> #[trigger] key_view(keys@)[j] == (times@[j] as int, Seq::<char>::empty()),
        decreases times@.len() - i,
    {
        let ghost kb = keys@;
        keys.push((times[i], Vec::new()));
        proof {
            assert forall|j: int| 0 <= j < i + 1 implies #[trigger] key_view(keys@)[j] == (times@[j] as int, Seq::<char>::empty()) by {
                if j < i {
                    assert(key_view(keys@)[j] == key_view(kb)[j]);
                }
            }
        }
        i = i + 1;
    }
    let order = rank_all(&keys);
    proof {
        let k = key_view(keys@);
        assert forall|a: int, b: int| 0 <= a < b < order@.len() implies times@[order@[a] as int] < times@[order@[b] as int]
            || (times@[order@[a] as int] == times@[order@[b] as int] && order@[a] < order@[b]) by {
            assert(ranks_before(k, order@[a] as int, order@[b] as int));
            assert(k[order@[a] as int] == (times@[order@[a] as int] as int, Seq::<char>::empty()));
            assert(k[order@[b] as int] == (times@[order@[b] as int] as int, Seq::<char>::empty()));
            lemma_text_lt_asymmetric(Seq::<char>::empty(), Seq::<char>::empty());
        }
    }
    order
}

/// Microseconds in a day.
pub const MICROS_PER_DAY: i64 = 86_400_000_000;

/// The UTC day, counted from the Unix epoch, of a time in microseconds
/// since the epoch.
pub open spec fn utc_day(micros: int) -> int {
    micros / (MICROS_PER_DAY as int)
}

/// The distinct values of `xs`, each at its first occurrence.
pub open spec fn distinct_days(xs: Seq<int>) -> Seq<int>
    decreases xs.len(),
{
    if xs.len() == 0 {
        Seq::empty()
    } else {
        let p = distinct_days(xs.drop_last());
        if p.contains(xs.last()) {
            p
        } else {
            p.push(xs.last())
        }
    }
}

/// The UTC days of the times.
pub open spec fn days_of(times: Seq<i64>) -> Seq<int> {
    times.map_values(|t: i64| utc_day(t as int))
}

/// The UTC day of a time in microseconds since the epoch.
fn day_number(micros: i64) -> (r: i64)
    ensures
        r == utc_day(micros as int),
{
    let q = micros / MICROS_PER_DAY;
    let m = micros % MICROS_PER_DAY;
    if m < 0 {
        q - 1
    } else {
        q
    }
}

/// On how many distinct UTC days the times fall.
pub fn active_days(times: &[i64]) -> (r: usize)
    ensures
        r == distinct_days(days_of(times@)).len(),
{
    let mut seen: Vec<i64> = Vec::new();
    let mut i: usize = 0;
    while i < times.len()
        invariant
            i <= times@.len(),
            seen@.map_values(|d: i64| d as int) == distinct_days(days_of(times@).take(i as int)),
            seen@.len() <= i,
        decreases times@.len() - i,
    {
        let ghost before = seen@;
        let d = day_number(times[i]);
        proof {
            assert(days_of(times@).take(i + 1).drop_last() =~= days_of(times@).take(i as int));
            assert(days_of(times@).take(i + 1).last() == utc_day(times@[i as int] as int));
        }
        let mut found = false;
        let mut k: usize = 0;
        while k < seen.len()
            invariant
                k <= seen@.len(),
                seen@ == before,
                found == exists|m: int| 0 <= m < k && seen@[m] == d,
            decreases seen@.len() - k,
        {
            if seen[k] == d {
                found = true;
            }
            k = k + 1;
        }
        let ghost pv = before.map_values(|x: i64| x as int);
        proof {
            if found {
                let m = choose|m: int| 0 <= m < seen@.len() && seen@[m] == d;
                assert(pv[m] == d as int);
                assert(pv.contains(d as int));
            } else {
                assert(!pv.contains(d as int)) by {
                    if pv.contains(d as int) {
                        let m = choose|m: int| 0 <= m < pv.len() && pv[m] == d as int;
                        assert(before[m] == d);
                    }
                }
            }
        }
        if !found {
            seen.push(d);
            assert(seen@.map_values(|x: i64| x as int) =~= pv.push(d as int));
        }
        i = i + 1;
    }
    assert(days_of(times@).take(times@.len() as int) =~= days_of(times@));
    seen.len()
}

/// The names of the mood presets, in catalog order.
pub open spec fn mood_names() -> Seq<Seq<char>> {
    seq![
        "focused"@,
        "creative"@,
        "analytical"@,
        "exploratory"@,
        "collaborative"@,
        "defensive"@,
        "passive"@,
    ]
}

/// The names of the mood presets, in catalog order.
pub fn mood_preset_names() -> (r: Vec<&'static str>)
    ensures
        r@.map_values(|n: &'static str| n@) == mood_names(),
{
    let r = vec!["focused", "creative", "analytical", "exploratory", "collaborative", "defensive", "passive"];
    proof {
        assert(r@.map_values(|n: &'static str| n@) =~= mood_names());
    }
    r
}

/// The place in the catalog of the first preset named `target`, up to
/// ASCII case.
pub fn find_mood(target: &str) -> (r: Option<usize>)
    ensures
        match r {
            Some(i) => i < mood_names().len() && eq_ignore_ascii_case(mood_names()[i as int], target@)
                && forall|j: int| 0 <= j < i ==> !eq_ignore_ascii_case(#[trigger] mood_names()[j], target@),
            None => forall|j: int|
                0 <= j < mood_names().len() ==> !eq_ignore_ascii_case(#[trigger] mood_names()[j], target@),
        },
{
    let names = mood_preset_names();
    let ghost mv = names@.map_values(|n: &'static str| n@);
    let mut i: usize = 0;
    while i < names.len()
        invariant
            i <= names@.len(),
            mv == names@.map_values(|n: &'static str| n@),
            mv == mood_names(),
            forall|j: int| 0 <= j < i ==> !eq_ignore_ascii_case(#[trigger] mood_names()[j], target@),
        decreases names@.len() - i,
    {
        assert(mv[i as int] == names@[i as int]@);
        if eq_ignore_ascii_case_exec(names[i], target) {
            return Some(i);
        }
        i = i + 1;
    }
    None
}
} // verus!
