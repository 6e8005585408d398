//! Keys and identities of the node stores: the tenant a session is stored
//! under, node and sync keys normalized from legacy rows, and the record id
//! of a sync checkpoint.
use vstd::prelude::*;
use sha2::{Digest, Sha256};
use vstd::utf8::encode_utf8;
use crate::tenant::{default_tenant, scoped_parts, DEFAULT_TENANT};
use crate::text::{
    chars_eq, chars_of, find_from, first_match, lemma_first_match_some, push_str, string_from_range,
    string_of, trim, trim_bounds,
};

verus! {

// ---------------------------------------------------------------------------
// Tenants

/// The tenant a session id is stored under: the tenant of its scope where
/// that is not blank, else the default tenant.
pub open spec fn tenant_of_session(s: Seq<char>) -> Seq<char> {
    match scoped_parts(s) {
        Some((t, _)) if trim(t).len() > 0 => t,
        _ => default_tenant(),
    }
}

fn default_tenant_string() -> (r: String)
    ensures
        r@ == default_tenant(),
{
    let r = string_of(DEFAULT_TENANT);
    proof {
        reveal_strlit("default");
        assert(r@ =~= default_tenant());
    }
    r
}

/// The tenant a session id is stored under (see `tenant_of_session`).
pub fn derive_tenant_id_from_session(session_id: &str) -> (r: String)
    ensures
        r@ == tenant_of_session(session_id@),
{
    match crate::tenant::parse_scoped_session_id(session_id) {
        Some((tenant, _)) => {
            let v = chars_of(tenant);
            let (a, b) = trim_bounds(&v, 0, v.len());
            assert(v@.subrange(0, v@.len() as int) =~= v@);
            if a < b {
                string_of(tenant)
            } else {
                default_tenant_string()
            }
        },
        None => default_tenant_string(),
    }
}

/// A tenant id as stored: trimmed, the default tenant where it is absent or
/// blank.
pub open spec fn normalized_tenant_id(value: Option<Seq<char>>) -> Seq<char> {
    match value {
        Some(v) if trim(v).len() > 0 => trim(v),
        _ => default_tenant(),
    }
}

pub fn normalize_tenant_id(value: Option<&str>) -> (r: String)
    ensures
        r@ == normalized_tenant_id(crate::tenant::opt_str(value)),
{
    match value {
        Some(v) => {
            let c = chars_of(v);
            let (a, b) = trim_bounds(&c, 0, c.len());
            assert(c@.subrange(0, c@.len() as int) =~= c@);
            if a < b {
                string_from_range(&c, a, b)
            } else {
                default_tenant_string()
            }
        },
        None => default_tenant_string(),
    }
}

/// Rows of the default tenant also take in legacy rows without a tenant.
pub fn includes_legacy_tenant_bucket(tenant_id: &str) -> (r: bool)
    ensures
        r == (tenant_id@ == default_tenant()),
{
    crate::tenant::is_default_tenant(tenant_id)
}

// ---------------------------------------------------------------------------
// Record ids as the store returns them

/// A scalar part of a record id as the store returns it: text, a number
/// (with the text it is written as), a boolean, or anything else.
#[derive(Debug, Clone)]
pub enum RecordComponent {
    Text(String),
    Number(String),
    Bool(bool),
    Other,
}

/// The id of a row as the store returns it: a string, an object with a
/// table part `tb` and an id part `id` (each present or not), or anything
/// else.
#[derive(Debug, Clone)]
pub enum RawRecordId {
    Text(String),
    Object { tb: Option<RecordComponent>, id: Option<RecordComponent> },
    Other,
}

/// The text of a scalar part: a string as it is, a number as written,
/// a boolean as `true` or `false`; nothing else has one.
pub open spec fn component_text(c: RecordComponent) -> Option<Seq<char>> {
    match c {
        RecordComponent::Text(s) => Some(s@),
        RecordComponent::Number(s) => Some(s@),
        RecordComponent::Bool(b) => Some(if b { "true"@ } else { "false"@ }),
        RecordComponent::Other => None,
    }
}

pub open spec fn opt_component_text(c: Option<RecordComponent>) -> Option<Seq<char>> {
    match c {
        Some(v) => component_text(v),
        None => None,
    }
}

/// The record id of a row, `table:id`: a string id as it is unless it is
/// blank; for an object, its table part (or `fallback_table`), a colon and
/// its id part, where the id part has a text; else none.
pub open spec fn record_id_of(raw: RawRecordId, fallback_table: Seq<char>) -> Option<Seq<char>> {
    match raw {
        RawRecordId::Text(s) => if trim(s@).len() == 0 {
            None
        } else {
            Some(s@)
        },
        RawRecordId::Object { tb, id } => match opt_component_text(id) {
            Some(i) => Some(
                match opt_component_text(tb) {
                    Some(t) => t,
                    None => fallback_table,
                } + ":"@ + i,
            ),
            None => None,
        },
        RawRecordId::Other => None,
    }
}

fn component_string(c: &Option<RecordComponent>) -> (r: Option<String>)
    ensures
        match r {
            Some(s) => opt_component_text(*c) == Some(s@),
            None => opt_component_text(*c) is None,
        },
{
    match c {
        Some(RecordComponent::Text(s)) => Some(string_of(s.as_str())),
        Some(RecordComponent::Number(s)) => Some(string_of(s.as_str())),
        Some(RecordComponent::Bool(b)) => Some(if *b { string_of("true") } else { string_of("false") }),
        _ => None,
    }
}

/// The record id of a row (see `record_id_of`).
pub fn normalize_record_id(raw: &RawRecordId, fallback_table: &str) -> (r: Option<String>)
    ensures
        match r {
            Some(s) => record_id_of(*raw, fallback_table@) == Some(s@),
            None => record_id_of(*raw, fallback_table@) is None,
        },
{
    match raw {
        RawRecordId::Text(s) => {
            let v = chars_of(s.as_str());
            let (a, b) = trim_bounds(&v, 0, v.len());
            assert(v@.subrange(0, v@.len() as int) =~= v@);
            if a == b {
                None
            } else {
                Some(string_of(s.as_str()))
            }
        },
        RawRecordId::Object { tb, id } => {
            match component_string(id) {
                Some(i) => {
                    let mut r = match component_string(tb) {
                        Some(t) => t,
                        None => string_of(fallback_table),
                    };
                    let ghost t = r@;
                    push_str(&mut r, ":");
                    push_str(&mut r, i.as_str());
                    assert(r@ =~= t + ":"@ + i@);
                    Some(r)
                },
                None => None,
            }
        },
        RawRecordId::Other => None,
    }
}

// ---------------------------------------------------------------------------
// Node ids and sync keys

/// The id of a temporal node given as `id` or `temporal_node:id` (trimmed);
/// none where it is blank or names another table.
pub open spec fn temporal_node_id(v: Seq<char>) -> Option<Seq<char>> {
    let t = trim(v);
    if t.len() == 0 {
        None
    } else {
        match first_match(t, seq![':'], 0) {
            None => Some(t),
            Some(i) => if t.take(i) != "temporal_node"@ {
                None
            } else if trim(t.skip(i + 1)).len() == 0 {
                None
            } else {
                Some(trim(t.skip(i + 1)))
            },
        }
    }
}

pub fn normalize_temporal_node_id(value: &str) -> (r: Option<String>)
    ensures
        crate::node_fields::opt_string(r) == temporal_node_id(value@),
{
    let v = chars_of(value);
    let (a, b) = trim_bounds(&v, 0, v.len());
    assert(v@.subrange(0, v@.len() as int) =~= v@);
    if a == b {
        return None;
    }
    let t = crate::text::sub_vec(&v, a, b);
    let mut colon: Vec<char> = Vec::new();
    colon.push(':');
    assert(colon@ =~= seq![':']);
    match find_from(&t, &colon, 0) {
        None => Some(string_from_range(&v, a, b)),
        Some(i) => {
            proof {
                lemma_first_match_some(t@, colon@, 0);
            }
            let table = crate::text::sub_vec(&t, 0, i);
            let tn = chars_of("temporal_node");
            assert(table@ =~= t@.take(i as int));
            if !chars_eq(&table, &tn) {
                return None;
            }
            let n = t.len();
            let (x, y) = trim_bounds(&t, i + 1, n);
            assert(t@.subrange(i + 1, n as int) =~= t@.skip(i + 1));
            if x == y {
                None
            } else {
                Some(string_from_range(&t, x, y))
            }
        },
    }
}

/// A node's sync key: the given one, trimmed, where it is not blank, else
/// `legacy:<node id>`.
pub open spec fn legacy_sync_key(value: Option<Seq<char>>, node_id: Seq<char>) -> Seq<char> {
    match value {
        Some(v) if trim(v).len() > 0 => trim(v),
        _ => "legacy:"@ + node_id,
    }
}

pub fn normalize_legacy_sync_key(value: Option<&str>, node_id: &str) -> (r: String)
    ensures
        r@ == legacy_sync_key(crate::tenant::opt_str(value), node_id@),
{
    if let Some(v) = value {
        let c = chars_of(v);
        let (a, b) = trim_bounds(&c, 0, c.len());
        assert(c@.subrange(0, c@.len() as int) =~= c@);
        if a < b {
            return string_from_range(&c, a, b);
        }
    }
    let mut r = string_of("legacy:");
    push_str(&mut r, node_id);
    r
}

// ---------------------------------------------------------------------------
// Checkpoint record ids

/// The SHA-256 digest of `data`.
pub uninterp spec fn sha256_of(data: Seq<u8>) -> Seq<u8>;

/// `sha2::Sha256::digest`: the SHA-256 digest of `data`, 32 bytes.  What
/// the digest is, is left to the name `sha256_of`.
#[verifier::external_body]
fn sha256_digest(data: &[u8]) -> (r: Vec<u8>)
    ensures
        r@ == sha256_of(data@),
        r@.len() == 32,
{
    Sha256::digest(data).to_vec()
}

/// The lower-case hex digit for `d < 16`.
pub open spec fn hex_digit(d: nat) -> char {
    if d < 10 {
        ((d + 48) as u8) as char
    } else {
        ((d + 87) as u8) as char
    }
}

/// `bytes` in lower-case hex, two digits a byte.
pub open spec fn hex_of(bytes: Seq<u8>) -> Seq<char>
    decreases bytes.len(),
{
    if bytes.len() == 0 {
        Seq::empty()
    } else {
        hex_of(bytes.drop_last()) + seq![
            hex_digit((bytes.last() / 16) as nat),
            hex_digit((bytes.last() % 16) as nat),
        ]
    }
}

fn hex_digit_exec(d: u8) -> (c: char)
    requires
        d < 16,
    ensures
        c == hex_digit(d as nat),
{
    if d < 10 {
        (d + 48) as char
    } else {
        (d + 87) as char
    }
}

/// The bytes a checkpoint id is hashed from: the tenant, session and
/// connector ids in UTF-8, each pair apart by a zero byte.
pub open spec fn checkpoint_key_bytes(tenant: Seq<char>, session: Seq<char>, connector: Seq<char>) -> Seq<u8> {
    encode_utf8(tenant) + seq![0u8] + encode_utf8(session) + seq![0u8] + encode_utf8(connector)
}

fn push_bytes(out: &mut Vec<u8>, b: &[u8])
    ensures
        final(out)@ == old(out)@ + b@,
{
    let mut i: usize = 0;
    while i < b.len()
        invariant
            i <= b@.len(),
            out@ == old(out)@ + b@.take(i as int),
        decreases b.len() - i,
    {
        out.push(b[i]);
        i = i + 1;
        assert(out@ =~= old(out)@ + b@.take(i as int));
    }
    assert(b@.take(b@.len() as int) =~= b@);
}

/// The record id of the sync checkpoint of a connector in a scope: the
/// SHA-256 digest of the key bytes, in lower-case hex.
pub fn checkpoint_record_id(tenant_id: &str, session_id: &str, connector_id: &str) -> (r: String)
    ensures
        r@ == hex_of(sha256_of(checkpoint_key_bytes(tenant_id@, session_id@, connector_id@))),
{
    let mut data: Vec<u8> = Vec::new();
    push_bytes(&mut data, tenant_id.as_bytes());
    data.push(0u8);
    push_bytes(&mut data, session_id.as_bytes());
    data.push(0u8);
    push_bytes(&mut data, connector_id.as_bytes());
    proof {
        assert(data@ =~= checkpoint_key_bytes(tenant_id@, session_id@, connector_id@));
    }
    let digest = sha256_digest(data.as_slice());
    let mut r = String::new();
    let mut i: usize = 0;
    while i < digest.len()
        invariant
            i <= digest@.len(),
            r@ == hex_of(digest@.take(i as int)),
        decreases digest.len() - i,
    {
        let byte = digest[i];
        r.push(hex_digit_exec(byte / 16));
        r.push(hex_digit_exec(byte % 16));
        proof {
            assert(digest@.take(i + 1).drop_last() =~= digest@.take(i as int));
            assert(r@ =~= hex_of(digest@.take(i + 1)));
        }
        i = i + 1;
    }
    assert(digest@.take(digest@.len() as int) =~= digest@);
    r
}

} // verus!
