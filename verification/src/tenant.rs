//! Tenant scoping of session ids: a session of a tenant other than the
//! default one is stored under `tenant:<tenant>::session:<session>`, and
//! read back, filtered and displayed through that form.
use vstd::prelude::*;
use vstd::string::StrSliceExecFns;
use crate::node_fields::opt_string;
use crate::text::{
    ascii_lower_chars, ascii_lower_seq, chars_eq, chars_of, contains_seq, find_from, first_match,
    is_ascii_alnum, is_ascii_alnum_exec, lemma_first_match_at, lemma_first_match_none, lemma_first_match_some,
    matches_at, push_str, starts_with_at, string_from_chars, string_of, trim, trim_bounds,
};

verus! {

pub const TENANT_HEADER: &'static str = "x-tenant-id";
pub const DEFAULT_TENANT: &'static str = "default";
pub const TENANT_SCOPE_PREFIX: &'static str = "tenant:";
pub const TENANT_SCOPE_SEPARATOR: &'static str = "::session:";
pub const TENANT_SCAN_LIMIT: usize = 200;

/// The request headers that may name a tenant, in the order they are
/// consulted.
pub fn tenant_headers() -> (r: Vec<&'static str>)
    ensures
        r@.len() == 3,
        r@[0]@ == "x-resonantia-tenant"@,
        r@[1]@ == "x-tenant-id"@,
        r@[2]@ == "x-tenant"@,
{
    let mut r: Vec<&'static str> = Vec::new();
    r.push("x-resonantia-tenant");
    r.push("x-tenant-id");
    r.push("x-tenant");
    r
}

pub open spec fn scope_prefix() -> Seq<char> {
    seq!['t', 'e', 'n', 'a', 'n', 't', ':']
}

pub open spec fn scope_separator() -> Seq<char> {
    seq![':', ':', 's', 'e', 's', 's', 'i', 'o', 'n', ':']
}

pub open spec fn default_tenant() -> Seq<char> {
    seq!['d', 'e', 'f', 'a', 'u', 'l', 't']
}

fn prefix_chars() -> (r: Vec<char>)
    ensures
        r@ == scope_prefix(),
{
    let r = chars_of(TENANT_SCOPE_PREFIX);
    proof {
        reveal_strlit("tenant:");
        assert(r@ =~= scope_prefix());
    }
    r
}

fn separator_chars() -> (r: Vec<char>)
    ensures
        r@ == scope_separator(),
{
    let r = chars_of(TENANT_SCOPE_SEPARATOR);
    proof {
        reveal_strlit("::session:");
        assert(r@ =~= scope_separator());
    }
    r
}

// ---------------------------------------------------------------------------
// Tenant names

pub open spec fn is_tenant_char(c: char) -> bool {
    is_ascii_alnum(c) || c == '-' || c == '_'
}

/// A tenant name as given: trimmed and in ASCII lower case; none where it
/// is blank or holds a character other than an ASCII letter or digit, `-`
/// or `_`.
pub open spec fn normalized_tenant(v: Seq<char>) -> Option<Seq<char>> {
    let t = ascii_lower_seq(trim(v));
    if trim(v).len() == 0 {
        None
    } else if forall|k: int| 0 <= k < t.len() ==> is_tenant_char(#[trigger] t[k]) {
        Some(t)
    } else {
        None
    }
}

/// The tenant name that `value` gives (see `normalized_tenant`).
pub fn normalize_tenant_value(value: &str) -> (r: Option<String>)
    ensures
        opt_string(r) == normalized_tenant(value@),
{
    let v = chars_of(value);
    let (a, b) = trim_bounds(&v, 0, v.len());
    proof {
        assert(v@.subrange(0, v@.len() as int) =~= v@);
    }
    if a == b {
        return None;
    }
    let mut t: Vec<char> = Vec::new();
    let mut i = a;
    while i < b
        invariant
            a <= i <= b <= v@.len(),
            a < b,
            v@ == value@,
            trim(v@) == v@.subrange(a as int, b as int),
            t@ == ascii_lower_seq(v@.subrange(a as int, i as int)),
            forall|k: int| 0 <= k < t@.len() ==> is_tenant_char(#[trigger] t@[k]),
        decreases b - i,
    {
        let c = crate::text::ascii_lower_exec(v[i]);
        if !(is_ascii_alnum_exec(c) || c == '-' || c == '_') {
            proof {
                let lowered = ascii_lower_seq(v@.subrange(a as int, b as int));
                assert(lowered[i - a] == c);
                assert(!is_tenant_char(lowered[i - a]));
            }
            return None;
        }
        t.push(c);
        i = i + 1;
        assert(t@ =~= ascii_lower_seq(v@.subrange(a as int, i as int)));
    }
    Some(string_from_chars(&t))
}

/// The tenant of a request: the explicit one where it normalizes, else
/// the first of `header_values` (the values of `tenant_headers()`, in that
/// order) that does, else the default tenant.
pub open spec fn resolved_tenant(explicit: Option<Seq<char>>, header_values: Seq<Option<Seq<char>>>) -> Seq<char>
    decreases header_values.len(),
{
    match explicit {
        Some(e) if normalized_tenant(e) is Some => normalized_tenant(e)->0,
        _ => if header_values.len() == 0 {
            default_tenant()
        } else {
            match header_values[0] {
                Some(h) if normalized_tenant(h) is Some => normalized_tenant(h)->0,
                _ => resolved_tenant(None, header_values.drop_first()),
            }
        },
    }
}

pub open spec fn opt_str(o: Option<&str>) -> Option<Seq<char>> {
    match o {
        Some(s) => Some(s@),
        None => None,
    }
}

/// The tenant of a request (see `resolved_tenant`).
pub fn resolve_tenant(explicit: Option<&str>, header_values: &Vec<Option<String>>) -> (r: String)
    ensures
        r@ == resolved_tenant(opt_str(explicit), header_values@.map_values(|h: Option<String>| opt_string(h))),
{
    let ghost hv = header_values@.map_values(|h: Option<String>| opt_string(h));
    if let Some(e) = explicit {
        if let Some(t) = normalize_tenant_value(e) {
            return t;
        }
    }
    assert(hv.skip(0) =~= hv);
    assert(resolved_tenant(opt_str(explicit), hv) == resolved_tenant(None, hv));
    let mut i: usize = 0;
    while i < header_values.len()
        invariant
            i <= header_values@.len(),
            hv == header_values@.map_values(|h: Option<String>| opt_string(h)),
            resolved_tenant(opt_str(explicit), hv) == resolved_tenant(None, hv.skip(i as int)),
        decreases header_values.len() - i,
    {
        assert(hv.skip(i as int)[0] == opt_string(header_values@[i as int]));
        assert(hv.skip(i as int).drop_first() =~= hv.skip(i + 1));
        match &header_values[i] {
            Some(h) => {
                if let Some(t) = normalize_tenant_value(h.as_str()) {
                    return t;
                }
            },
            None => {},
        }
        i = i + 1;
    }
    proof {
        reveal_strlit("default");
    }
    let d = string_of(DEFAULT_TENANT);
    assert(d@ =~= default_tenant());
    d
}

// ---------------------------------------------------------------------------
// Scoped session ids

/// The tenant and base session of a scoped session id: what follows
/// `tenant:`, split at the first `::session:`.
pub open spec fn scoped_parts(s: Seq<char>) -> Option<(Seq<char>, Seq<char>)> {
    if matches_at(s, scope_prefix(), 0) {
        let rest = s.skip(7);
        match first_match(rest, scope_separator(), 0) {
            Some(i) => Some((rest.take(i), rest.skip(i + 10))),
            None => None,
        }
    } else {
        None
    }
}

/// The session id under which `tenant` keeps `session`.
pub open spec fn scoped_session(tenant: Seq<char>, session: Seq<char>) -> Seq<char> {
    if tenant == default_tenant() {
        session
    } else {
        scope_prefix() + tenant + scope_separator() + session
    }
}

/// The session id `s` belongs to `tenant`: its scope names that tenant, or
/// it is unscoped and the tenant is the default one.
pub open spec fn belongs_to(s: Seq<char>, tenant: Seq<char>) -> bool {
    match scoped_parts(s) {
        Some((t, _)) => t == tenant,
        None => tenant == default_tenant(),
    }
}

/// The session id as shown: the base session of a scoped id, else the id.
pub open spec fn displayed_session(s: Seq<char>) -> Seq<char> {
    match scoped_parts(s) {
        Some((_, b)) => b,
        None => s,
    }
}

pub open spec fn opt_pair(o: Option<(&str, &str)>) -> Option<(Seq<char>, Seq<char>)> {
    match o {
        Some((a, b)) => Some((a@, b@)),
        None => None,
    }
}

fn scoped_bounds(v: &Vec<char>) -> (r: Option<(usize, usize)>)
    ensures
        match r {
            Some((i, j)) => scoped_parts(v@) == Some(
                (v@.subrange(7, i as int), v@.subrange(j as int, v@.len() as int)),
            ) && 7 <= i && i + 10 == j && j <= v@.len(),
            None => scoped_parts(v@) is None,
        },
{
    let p = prefix_chars();
    if !starts_with_at(v, &p, 0) {
        return None;
    }
    let n = v.len();
    let rest = crate::text::sub_vec(v, 7, n);
    let sep = separator_chars();
    match find_from(&rest, &sep, 0) {
        Some(i) => {
            proof {
                lemma_first_match_some(rest@, sep@, 0);
                assert(rest@ =~= v@.skip(7));
                assert(rest@.take(i as int) =~= v@.subrange(7, 7 + i));
                assert(rest@.skip(i + 10) =~= v@.subrange(7 + i + 10, n as int));
            }
            Some((7 + i, 7 + i + 10))
        },
        None => {
            assert(rest@ =~= v@.skip(7));
            None
        },
    }
}

/// The tenant and base session of a scoped session id (see
/// `scoped_parts`).
pub fn parse_scoped_session_id(session_id: &str) -> (r: Option<(&str, &str)>)
    ensures
        opt_pair(r) == scoped_parts(session_id@),
{
    let v = chars_of(session_id);
    match scoped_bounds(&v) {
        Some((i, j)) => Some((session_id.substring_char(7, i), session_id.substring_char(j, v.len()))),
        None => None,
    }
}

pub fn is_default_tenant(tenant: &str) -> (r: bool)
    ensures
        r == (tenant@ == default_tenant()),
{
    let v = chars_of(tenant);
    let d = chars_of(DEFAULT_TENANT);
    proof {
        reveal_strlit("default");
        assert(d@ =~= default_tenant());
    }
    chars_eq(&v, &d)
}

/// The session id under which `tenant` keeps `session_id` (see
/// `scoped_session`).
pub fn scope_session_id(tenant: &str, session_id: &str) -> (r: String)
    ensures
        r@ == scoped_session(tenant@, session_id@),
{
    if is_default_tenant(tenant) {
        string_of(session_id)
    } else {
        let mut r = string_of(TENANT_SCOPE_PREFIX);
        push_str(&mut r, tenant);
        push_str(&mut r, TENANT_SCOPE_SEPARATOR);
        push_str(&mut r, session_id);
        proof {
            reveal_strlit("tenant:");
            reveal_strlit("::session:");
            assert(r@ =~= scoped_session(tenant@, session_id@));
        }
        r
    }
}

/// Whether the session id belongs to `tenant` (see `belongs_to`).
pub fn session_belongs_to_tenant(session_id: &str, tenant: &str) -> (r: bool)
    ensures
        r == belongs_to(session_id@, tenant@),
{
    match parse_scoped_session_id(session_id) {
        Some((scoped_tenant, _)) => {
            let a = chars_of(scoped_tenant);
            let b = chars_of(tenant);
            chars_eq(&a, &b)
        },
        None => is_default_tenant(tenant),
    }
}

/// The session id as shown (see `displayed_session`).
pub fn display_session_id(session_id: &str) -> (r: String)
    ensures
        r@ == displayed_session(session_id@),
{
    match parse_scoped_session_id(session_id) {
        Some((_, base)) => string_of(base),
        None => string_of(session_id),
    }
}

// ---------------------------------------------------------------------------
// Laws

/// The tenant of a request is the default tenant or a name made only of
/// ASCII letters and digits, `-` and `_`.
pub proof fn lemma_resolved_tenant_is_a_name(explicit: Option<Seq<char>>, header_values: Seq<Option<Seq<char>>>)
    ensures
        resolved_tenant(explicit, header_values) == default_tenant() || (forall|k: int|
            0 <= k < resolved_tenant(explicit, header_values).len() ==> is_tenant_char(
                #[trigger] resolved_tenant(explicit, header_values)[k],
            )),
    decreases header_values.len(),
{
    match explicit {
        Some(e) if normalized_tenant(e) is Some => {},
        _ => if header_values.len() > 0 {
            match header_values[0] {
                Some(h) if normalized_tenant(h) is Some => {},
                _ => lemma_resolved_tenant_is_a_name(None, header_values.drop_first()),
            }
        },
    }
}

proof fn lemma_no_early_separator(tenant: Seq<char>, session: Seq<char>)
    requires
        !contains_seq(tenant + scope_separator().take(9), scope_separator()),
    ensures
        forall|j: int|
            0 <= j < tenant.len() ==> !matches_at(
                tenant + scope_separator() + session,
                scope_separator(),
                j,
            ),
{
    let sep = scope_separator();
    let rest = tenant + sep + session;
    let head = tenant + sep.take(9);
    let n = tenant.len() as int;
    assert(head =~= rest.take(n + 9));
    assert forall|j: int| 0 <= j < n implies !matches_at(rest, sep, j) by {
        if matches_at(rest, sep, j) {
            assert forall|k: int| 0 <= k < 10 implies head.subrange(j, j + 10)[k] == sep[k] by {
                assert(head[j + k] == rest[j + k]);
                assert(rest.subrange(j, j + 10)[k] == rest[j + k]);
            }
            assert(head.subrange(j, j + 10) =~= sep);
            assert(matches_at(head, sep, j));
        }
    }
}

/// Scoping a session to a tenant other than the default one, where the
/// tenant name does not itself run into the separator, is undone by
/// reading the scope back: the scoped id splits into that tenant and that
/// session, is displayed as the session, and belongs to that tenant and to
/// no other.
pub proof fn lemma_scope_roundtrip(tenant: Seq<char>, session: Seq<char>, other: Seq<char>)
    requires
        tenant != default_tenant(),
        !contains_seq(tenant + scope_separator().take(9), scope_separator()),
    ensures
        scoped_parts(scoped_session(tenant, session)) == Some((tenant, session)),
        displayed_session(scoped_session(tenant, session)) == session,
        belongs_to(scoped_session(tenant, session), tenant),
        other != tenant ==> !belongs_to(scoped_session(tenant, session), other),
{
    let sep = scope_separator();
    let rest = tenant + sep + session;
    let s = scope_prefix() + rest;
    assert(scoped_session(tenant, session) =~= s);
    assert(s.subrange(0, 7) =~= scope_prefix());
    assert(s.skip(7) =~= rest);
    let n = tenant.len() as int;
    assert(rest.subrange(n, n + 10) =~= sep);
    lemma_no_early_separator(tenant, session);
    lemma_first_match_at(rest, sep, 0, n);
    assert(rest.take(n) =~= tenant);
    assert(rest.skip(n + 10) =~= session);
}

/// A session scoped to a tenant other than the default one whose name is
/// made only of ASCII letters and digits, `-` and `_` (as every normalized
/// tenant name is) reads back as that tenant and that session, and belongs
/// to no other tenant.
pub proof fn lemma_tenant_name_scope(t: Seq<char>, session: Seq<char>, other: Seq<char>)
    requires
        t != default_tenant(),
        forall|k: int| 0 <= k < t.len() ==> is_tenant_char(#[trigger] t[k]),
    ensures
        scoped_parts(scoped_session(t, session)) == Some((t, session)),
        displayed_session(scoped_session(t, session)) == session,
        belongs_to(scoped_session(t, session), t),
        other != t ==> !belongs_to(scoped_session(t, session), other),
{
    let sep = scope_separator();
    let head = t + sep.take(9);
    assert forall|j: int| #![trigger matches_at(head, sep, j)] !matches_at(head, sep, j) by {
        if matches_at(head, sep, j) {
            assert(head.subrange(j, j + 10)[0] == ':');
            assert(head[j] == ':');
            if j < t.len() {
                assert(is_tenant_char(t[j]));
            } else {
                assert(head[j + 2] == sep.take(9)[j + 2 - t.len()]);
                assert(head.subrange(j, j + 10)[2] == 's');
                assert(j + 10 <= t.len() + 9);
            }
        }
    }
    lemma_scope_roundtrip(t, session, other);
}

/// The tenant a request resolves to, where it is not the default tenant,
/// scopes its sessions so that they read back as that tenant and session
/// and belong to no other tenant.
pub proof fn lemma_request_tenant_scope(
    explicit: Option<Seq<char>>,
    header_values: Seq<Option<Seq<char>>>,
    session: Seq<char>,
    other: Seq<char>,
)
    requires
        resolved_tenant(explicit, header_values) != default_tenant(),
    ensures
        ({
            let t = resolved_tenant(explicit, header_values);
            &&& scoped_parts(scoped_session(t, session)) == Some((t, session))
            &&& displayed_session(scoped_session(t, session)) == session
            &&& belongs_to(scoped_session(t, session), t)
            &&& (other != t ==> !belongs_to(scoped_session(t, session), other))
        }),
{
    lemma_resolved_tenant_is_a_name(explicit, header_values);
    lemma_tenant_name_scope(resolved_tenant(explicit, header_values), session, other);
}

} // verus!
