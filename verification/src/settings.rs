//! Configuration of the SurrealDB storage: endpoints, namespace, database
//! and credentials, the endpoint a run connects to, and the runtime options
//! derived from the command line.
use vstd::prelude::*;
use crate::node_fields::opt_string;
use crate::requests::{any_arg_is, has_flag, strings_view};
use crate::text::{sub_vec, string_from_chars};
use crate::tenant::opt_str;
use crate::text::{chars_of, matches_at, push_str, starts_with_at, string_from_range, string_of, trim, trim_bounds};

verus! {

#[derive(Debug, Clone)]
pub struct SurrealDbEndpointsSettings {
    pub embedded: Option<String>,
    pub remote: Option<String>,
}

impl Default for SurrealDbEndpointsSettings {
    /// An embedded store under `data/sttp-mcp`, no remote endpoint.
    fn default() -> (r: Self)
        ensures
            opt_string(r.embedded) == Some("surrealkv://data/sttp-mcp"@),
            r.remote is None,
    {
        SurrealDbEndpointsSettings { embedded: Some(string_of("surrealkv://data/sttp-mcp")), remote: None }
    }
}

#[derive(Debug, Clone)]
pub struct SurrealDbSettings {
    pub endpoints: SurrealDbEndpointsSettings,
    pub namespace: String,
    pub database: String,
    pub user: Option<String>,
    pub password: Option<String>,
}

impl Default for SurrealDbSettings {
    /// The default endpoints, namespace `keryx`, database `sttp-mcp`, user
    /// and password `root`.
    fn default() -> (r: Self)
        ensures
            opt_string(r.endpoints.embedded) == Some("surrealkv://data/sttp-mcp"@),
            r.endpoints.remote is None,
            r.namespace@ == "keryx"@,
            r.database@ == "sttp-mcp"@,
            opt_string(r.user) == Some("root"@),
            opt_string(r.password) == Some("root"@),
    {
        SurrealDbSettings {
            endpoints: SurrealDbEndpointsSettings::default(),
            namespace: string_of("keryx"),
            database: string_of("sttp-mcp"),
            user: Some(string_of("root")),
            password: Some(string_of("root")),
        }
    }
}

/// An endpoint is configured when it is given and not blank.
pub open spec fn configured(e: Option<Seq<char>>) -> bool {
    e matches Some(v) && trim(v).len() > 0
}

/// The endpoint a run connects to: the remote one where remote mode is on
/// and it is configured, else the embedded one where it is configured, else
/// an error that names the mode.
pub open spec fn endpoint_for(embedded: Option<Seq<char>>, remote: Option<Seq<char>>, use_remote: bool) -> Result<Seq<char>, Seq<char>> {
    if use_remote && configured(remote) {
        Ok(remote->0)
    } else if configured(embedded) {
        Ok(embedded->0)
    } else {
        Err(
            "No SurrealDB endpoint configured for mode "@ + (if use_remote {
                "remote"@
            } else {
                "embedded"@
            }) + ". Set SurrealDb Endpoints."@,
        )
    }
}

pub open spec fn string_result(r: Result<String, String>) -> Result<Seq<char>, Seq<char>> {
    match r {
        Ok(v) => Ok(v@),
        Err(e) => Err(e@),
    }
}

fn is_configured(e: &Option<String>) -> (r: bool)
    ensures
        r == configured(opt_string(*e)),
{
    match e {
        Some(v) => {
            let c = chars_of(v.as_str());
            let (a, b) = trim_bounds(&c, 0, c.len());
            assert(c@.subrange(0, c@.len() as int) =~= c@);
            a < b
        },
        None => false,
    }
}

fn clone_string(s: &String) -> (r: String)
    ensures
        r@ == s@,
{
    string_of(s.as_str())
}

impl SurrealDbSettings {
    /// The endpoint a run connects to (see `endpoint_for`).
    pub fn endpoint(&self, use_remote: bool) -> (r: Result<String, String>)
        ensures
            string_result(r) == endpoint_for(
                opt_string(self.endpoints.embedded),
                opt_string(self.endpoints.remote),
                use_remote,
            ),
    {
        if use_remote && is_configured(&self.endpoints.remote) {
            match &self.endpoints.remote {
                Some(v) => return Ok(clone_string(v)),
                None => {},
            }
        }
        if is_configured(&self.endpoints.embedded) {
            match &self.endpoints.embedded {
                Some(v) => return Ok(clone_string(v)),
                None => {},
            }
        }
        let mut e = string_of("No SurrealDB endpoint configured for mode ");
        if use_remote {
            push_str(&mut e, "remote");
        } else {
            push_str(&mut e, "embedded");
        }
        push_str(&mut e, ". Set SurrealDb Endpoints.");
        Err(e)
    }
}

/// Where and how a run reaches its store.
#[derive(Debug, Clone)]
pub struct SurrealDbRuntimeOptions {
    pub root_dir: String,
    pub use_remote: bool,
    pub endpoint: String,
    pub namespace: String,
    pub database: String,
}

/// A run uses the remote store when `--remote` (up to ASCII case) is among
/// its arguments.
pub fn uses_remote(args: &[String]) -> (r: bool)
    ensures
        r == has_flag(strings_view(args@), "--remote"@),
{
    any_arg_is(args, "--remote")
}

/// The name of the run's root directory under the home directory: the given
/// name, trimmed, or `.sttp-mcp` where none or a blank one is given.
pub open spec fn root_name_of(name: Option<Seq<char>>) -> Seq<char> {
    let n = trim(
        match name {
            Some(v) => v,
            None => ".sttp-mcp"@,
        },
    );
    if n.len() == 0 {
        ".sttp-mcp"@
    } else {
        n
    }
}

pub fn root_directory_name(name: Option<&str>) -> (r: String)
    ensures
        r@ == root_name_of(opt_str(name)),
{
    let given = match name {
        Some(v) => v,
        None => ".sttp-mcp",
    };
    let c = chars_of(given);
    let (a, b) = trim_bounds(&c, 0, c.len());
    assert(c@.subrange(0, c@.len() as int) =~= c@);
    if a == b {
        string_of(".sttp-mcp")
    } else {
        string_from_range(&c, a, b)
    }
}

/// The scheme of an embedded store's endpoint.
pub open spec fn embedded_scheme() -> Seq<char> {
    "surrealkv://"@
}

/// `s` with every leading occurrence of `p` removed, one after another.
pub open spec fn strip_leading(s: Seq<char>, p: Seq<char>) -> Seq<char>
    decreases s.len(),
{
    if p.len() > 0 && s.len() >= p.len() && s.subrange(0, p.len() as int) == p {
        strip_leading(s.subrange(p.len() as int, s.len() as int), p)
    } else {
        s
    }
}

/// Where an endpoint puts its store on disk.
#[derive(Debug, Clone)]
pub enum EmbeddedPath {
    /// A remote endpoint, or one of another scheme: it is used as it is.
    Unchanged,
    /// An embedded store at an absolute path.
    Absolute(String),
    /// An embedded store at a path relative to the run's root directory.
    UnderRoot(String),
}

/// The store path of an endpoint: none in remote mode or for an endpoint
/// that does not start with `surrealkv://`; else what follows the scheme
/// (every leading repetition of it removed), absolute where it starts with
/// `/`, else relative to the root directory.
pub open spec fn embedded_path_of(endpoint: Seq<char>, use_remote: bool) -> Option<(bool, Seq<char>)> {
    let scheme = embedded_scheme();
    if use_remote || !(endpoint.len() >= scheme.len() && endpoint.subrange(0, scheme.len() as int) == scheme) {
        None
    } else {
        let path = strip_leading(endpoint, scheme);
        Some((path.len() > 0 && path[0] == '/', path))
    }
}

pub open spec fn embedded_path_view(p: EmbeddedPath) -> Option<(bool, Seq<char>)> {
    match p {
        EmbeddedPath::Unchanged => None,
        EmbeddedPath::Absolute(v) => Some((true, v@)),
        EmbeddedPath::UnderRoot(v) => Some((false, v@)),
    }
}

proof fn lemma_strip_leading_step(s: Seq<char>, p: Seq<char>, i: int)
    requires
        p.len() > 0,
        0 <= i <= s.len(),
        matches_at(s, p, i),
    ensures
        strip_leading(s.subrange(i, s.len() as int), p) == strip_leading(
            s.subrange(i + p.len(), s.len() as int),
            p,
        ),
{
    let t = s.subrange(i, s.len() as int);
    assert(t.subrange(0, p.len() as int) =~= s.subrange(i, i + p.len()));
    assert(t.subrange(p.len() as int, t.len() as int) =~= s.subrange(i + p.len(), s.len() as int));
}

/// Where the endpoint of a run puts its store (see `embedded_path_of`).
pub fn embedded_path(endpoint: &str, use_remote: bool) -> (r: EmbeddedPath)
    ensures
        embedded_path_view(r) == embedded_path_of(endpoint@, use_remote),
{
    let c = chars_of(endpoint);
    let scheme = chars_of("surrealkv://");
    proof {
        reveal_strlit("surrealkv://");
    }
    assert(scheme@ == embedded_scheme());
    assert(scheme@.len() == 12);
    if use_remote || !starts_with_at(&c, &scheme, 0) {
        assert(!use_remote ==> !(c@.len() >= scheme@.len() && c@.subrange(0, scheme@.len() as int) == scheme@)) by {
            if c@.len() >= scheme@.len() && c@.subrange(0, scheme@.len() as int) == scheme@ {
                assert(matches_at(c@, scheme@, 0));
            }
        }
        return EmbeddedPath::Unchanged;
    }
    let mut i: usize = 0;
    assert(c@.subrange(0, c@.len() as int) =~= c@);
    loop
        invariant
            i <= c@.len(),
            scheme@ == embedded_scheme(),
            scheme@.len() > 0,
            strip_leading(c@.subrange(i as int, c@.len() as int), scheme@) == strip_leading(c@, scheme@),
        ensures
            i <= c@.len(),
            !matches_at(c@, scheme@, i as int),
            strip_leading(c@.subrange(i as int, c@.len() as int), scheme@) == strip_leading(c@, scheme@),
        decreases c@.len() - i,
    {
        let more = starts_with_at(&c, &scheme, i);
        if !more {
            break;
        }
        proof {
            lemma_strip_leading_step(c@, scheme@, i as int);
        }
        let end = c.len();
        assert(i + scheme@.len() <= end);
        i = i + scheme.len();
    }
    let ghost rest = c@.subrange(i as int, c@.len() as int);
    assert(!(rest.len() >= scheme@.len() && rest.subrange(0, scheme@.len() as int) == scheme@)) by {
        if rest.len() >= scheme@.len() && rest.subrange(0, scheme@.len() as int) == scheme@ {
            assert(c@.subrange(i as int, i + scheme@.len()) =~= rest.subrange(0, scheme@.len() as int));
            assert(matches_at(c@, scheme@, i as int));
        }
    }
    assert(strip_leading(rest, scheme@) == rest);
    let path = string_from_range(&c, i, c.len());
    if i < c.len() && c[i] == '/' {
        assert(rest[0] == c@[i as int]);
        EmbeddedPath::Absolute(path)
    } else {
        EmbeddedPath::UnderRoot(path)
    }
}

/// A credential counts as given when it is present and not blank; it is
/// then used as written.
pub open spec fn given_credential(v: Option<Seq<char>>) -> Option<Seq<char>> {
    if configured(v) {
        v
    } else {
        None
    }
}

/// How a run signs in to its store.
#[derive(Debug, Clone)]
pub enum SigninPlan {
    /// Remote mode: sign in, and fail the run where it is refused.
    Required { user: String, password: String },
    /// Embedded mode with both credentials given: try, and go on whatever
    /// the answer.
    Attempt { user: String, password: String },
    /// Embedded mode without both credentials: no sign-in.
    Skip,
}

fn given_str(v: Option<&str>) -> (r: bool)
    ensures
        r == configured(opt_str(v)),
{
    match v {
        Some(s) => {
            let c = chars_of(s);
            let (a, b) = trim_bounds(&c, 0, c.len());
            assert(c@.subrange(0, c@.len() as int) =~= c@);
            a < b
        },
        None => false,
    }
}

fn given_or_root(v: Option<&str>) -> (r: String)
    ensures
        r@ == (match given_credential(opt_str(v)) {
            Some(s) => s,
            None => "root"@,
        }),
{
    if given_str(v) {
        match v {
            Some(s) => string_of(s),
            None => string_of("root"),
        }
    } else {
        string_of("root")
    }
}

/// The sign-in of a run: in remote mode always, with each credential that
/// is not given taken as `root`; in embedded mode only where both are given.
pub fn signin_plan(use_remote: bool, user: Option<&str>, password: Option<&str>) -> (r: SigninPlan)
    ensures
        use_remote ==> (r matches SigninPlan::Required { user: u, password: p }
            && u@ == (match given_credential(opt_str(user)) {
                Some(s) => s,
                None => "root"@,
            })
            && p@ == (match given_credential(opt_str(password)) {
                Some(s) => s,
                None => "root"@,
            })),
        !use_remote && configured(opt_str(user)) && configured(opt_str(password)) ==> (r matches SigninPlan::Attempt { user: u, password: p }
            && u@ == opt_str(user)->0 && p@ == opt_str(password)->0),
        !use_remote && !(configured(opt_str(user)) && configured(opt_str(password))) ==> r is Skip,
{
    if use_remote {
        return SigninPlan::Required { user: given_or_root(user), password: given_or_root(password) };
    }
    if given_str(user) && given_str(password) {
        match (user, password) {
            (Some(u), Some(p)) => SigninPlan::Attempt { user: string_of(u), password: string_of(p) },
            _ => SigninPlan::Skip,
        }
    } else {
        SigninPlan::Skip
    }
}

/// A row of the trigger history of a session.
#[derive(Debug, Clone)]
pub struct SurrealTriggerRecord {
    pub trigger: String,
}

// ---------------------------------------------------------------------------
// Allowed CORS origins

/// The origins a gateway accepts cross-origin requests from.
#[derive(Debug, Clone)]
pub enum CorsOrigins {
    Any,
    Explicit(Vec<String>),
}

/// `s` cut at every `,`.
pub open spec fn comma_parts(s: Seq<char>) -> Seq<Seq<char>>
    decreases s.len(),
{
    if s.len() == 0 {
        seq![Seq::empty()]
    } else {
        let p = comma_parts(s.drop_last());
        if s.last() == ',' {
            p.push(Seq::empty())
        } else {
            p.update(p.len() - 1, p.last().push(s.last()))
        }
    }
}

proof fn lemma_comma_parts_len(s: Seq<char>)
    ensures
        comma_parts(s).len() >= 1,
    decreases s.len(),
{
    if s.len() > 0 {
        lemma_comma_parts_len(s.drop_last());
    }
}

/// The parts of `parts`, trimmed, blank ones dropped.
pub open spec fn nonblank_trimmed(parts: Seq<Seq<char>>) -> Seq<Seq<char>>
    decreases parts.len(),
{
    if parts.len() == 0 {
        Seq::empty()
    } else {
        let p = nonblank_trimmed(parts.drop_last());
        if trim(parts.last()).len() == 0 {
            p
        } else {
            p.push(trim(parts.last()))
        }
    }
}

/// The allowed origins a setting names: any for `*`; else the non-blank,
/// trimmed parts between its commas, of which there must be one; a blank
/// setting is an error.
pub open spec fn cors_origins_of(value: Seq<char>) -> Result<Option<Seq<Seq<char>>>, Seq<char>> {
    let t = trim(value);
    if t.len() == 0 {
        Err("CORS allowed origins cannot be empty when CORS is enabled"@)
    } else if t == "*"@ {
        Ok(None)
    } else if nonblank_trimmed(comma_parts(t)).len() == 0 {
        Err("CORS allowed origins must include at least one origin or '*'"@)
    } else {
        Ok(Some(nonblank_trimmed(comma_parts(t))))
    }
}

pub open spec fn cors_view(r: Result<CorsOrigins, String>) -> Result<Option<Seq<Seq<char>>>, Seq<char>> {
    match r {
        Ok(CorsOrigins::Any) => Ok(None),
        Ok(CorsOrigins::Explicit(v)) => Ok(Some(strings_view(v@))),
        Err(e) => Err(e@),
    }
}

/// The allowed origins a setting names (see `cors_origins_of`); the caller
/// turns each into a header value.
pub fn parse_cors_allowed_origins(value: &str) -> (r: Result<CorsOrigins, String>)
    ensures
        cors_view(r) == cors_origins_of(value@),
{
    let v = chars_of(value);
    let (a, b) = trim_bounds(&v, 0, v.len());
    assert(v@.subrange(0, v@.len() as int) =~= v@);
    if a == b {
        return Err(string_of("CORS allowed origins cannot be empty when CORS is enabled"));
    }
    let t = sub_vec(&v, a, b);
    let star = chars_of("*");
    if crate::text::chars_eq(&t, &star) {
        return Ok(CorsOrigins::Any);
    }
    let mut done: Vec<Vec<char>> = Vec::new();
    let mut cur: Vec<char> = Vec::new();
    let mut i: usize = 0;
    assert(t@.take(0) =~= Seq::<char>::empty());
    while i < t.len()
        invariant
            i <= t@.len(),
            comma_parts(t@.take(i as int)) == done@.map_values(|x: Vec<char>| x@).push(cur@),
        decreases t@.len() - i,
    {
        let c = t[i];
        proof {
            assert(t@.take(i + 1).drop_last() =~= t@.take(i as int));
            assert(t@.take(i + 1).last() == c);
        }
        if c == ',' {
            let ghost before = done@;
            let finished = cur;
            done.push(finished);
            cur = Vec::new();
            assert(done@.map_values(|x: Vec<char>| x@) =~= before.map_values(|x: Vec<char>| x@).push(finished@));
            assert(comma_parts(t@.take(i + 1)) =~= done@.map_values(|x: Vec<char>| x@).push(cur@));
        } else {
            cur.push(c);
            assert(comma_parts(t@.take(i + 1)) =~= done@.map_values(|x: Vec<char>| x@).push(cur@));
        }
        i = i + 1;
    }
    assert(t@.take(t@.len() as int) =~= t@);
    done.push(cur);
    let ghost parts = done@.map_values(|x: Vec<char>| x@);
    assert(parts == comma_parts(t@));
    let mut out: Vec<String> = Vec::new();
    let mut k: usize = 0;
    while k < done.len()
        invariant
            k <= done@.len(),
            parts == done@.map_values(|x: Vec<char>| x@),
            strings_view(out@) == nonblank_trimmed(parts.take(k as int)),
        decreases done@.len() - k,
    {
        let n = done[k].len();
        let (x, y) = trim_bounds(&done[k], 0, n);
        proof {
            assert(done@[k as int]@.subrange(0, n as int) =~= done@[k as int]@);
            assert(parts.take(k + 1).drop_last() =~= parts.take(k as int));
            assert(parts.take(k + 1).last() == done@[k as int]@);
        }
        if x < y {
            let ghost before = out@;
            out.push(string_from_range(&done[k], x, y));
            assert(strings_view(out@) =~= strings_view(before).push(trim(done@[k as int]@)));
        }
        k = k + 1;
    }
    assert(parts.take(parts.len() as int) =~= parts);
    if out.len() == 0 {
        return Err(string_of("CORS allowed origins must include at least one origin or '*'"));
    }
    Ok(CorsOrigins::Explicit(out))
}

} // verus!
