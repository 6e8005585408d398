//! Re-keying of session scopes: moving the nodes and calibrations of the
//! scopes that some nodes belong to into a target scope.  The stores count
//! and move rows; the rules here validate a request, decide for each source
//! scope whether it is moved, and total what was moved.  Renaming a session
//! is a re-key of its scope, planned and judged here too.
use vstd::prelude::*;
use crate::node_fields::opt_string;
use crate::requests::strings_view;
use crate::store_keys::{normalize_temporal_node_id, normalize_tenant_id, normalized_tenant_id, temporal_node_id};
use crate::tenant::{scope_session_id, scoped_session};
use crate::ranking::{is_ranked_list, key_view, rank_all, ranks_before};
use crate::text::{
    chars_eq, chars_of, lemma_text_lt_asymmetric, lemma_text_lt_total, lemma_text_lt_transitive, push_str, string_from_range, string_of, text_less, text_lt, trim, trim_bounds,
};

verus! {

/// What happened, or would happen, to one source scope.
#[derive(Debug, Clone)]
pub struct ScopeRekeyResult {
    pub source_tenant_id: String,
    pub source_session_id: String,
    pub target_tenant_id: String,
    pub target_session_id: String,
    pub temporal_nodes: usize,
    pub calibrations: usize,
    pub target_temporal_nodes: usize,
    pub target_calibrations: usize,
    pub applied: bool,
    pub conflict: bool,
    pub message: Option<String>,
}

/// The outcome of a batch re-key.
#[derive(Debug, Clone)]
pub struct BatchRekeyResult {
    pub dry_run: bool,
    pub requested_node_ids: usize,
    pub resolved_node_ids: usize,
    pub missing_node_ids: Vec<String>,
    pub scopes: Vec<ScopeRekeyResult>,
    pub temporal_nodes_updated: usize,
    pub calibrations_updated: usize,
}

/// A validated re-key request: the normalized target tenant, the target
/// session and the node ids that normalize.
#[derive(Debug, Clone)]
pub struct RekeyTarget {
    pub tenant_id: String,
    pub session_id: String,
    pub node_ids: Vec<String>,
}

/// The node ids of `xs` that normalize, normalized, in order.
pub open spec fn valid_node_ids(xs: Seq<Seq<char>>) -> Seq<Seq<char>>
    decreases xs.len(),
{
    if xs.len() == 0 {
        Seq::empty()
    } else {
        let p = valid_node_ids(xs.drop_last());
        match temporal_node_id(xs.last()) {
            Some(id) => p.push(id),
            None => p,
        }
    }
}

/// A request needs a node id, a target session that is not blank, and a
/// node id that normalizes; the target tenant is normalized.
pub open spec fn rekey_target_of(node_ids: Seq<Seq<char>>, tenant: Seq<char>, session: Seq<char>) -> Result<(Seq<char>, Seq<char>, Seq<Seq<char>>), Seq<char>> {
    if node_ids.len() == 0 {
        Err("at least one node id is required"@)
    } else if trim(session).len() == 0 {
        Err("target session id cannot be empty"@)
    } else if valid_node_ids(node_ids).len() == 0 {
        Err("no valid node ids were provided"@)
    } else {
        Ok((normalized_tenant_id(Some(tenant)), session, valid_node_ids(node_ids)))
    }
}

pub open spec fn rekey_target_view(r: Result<RekeyTarget, String>) -> Result<(Seq<char>, Seq<char>, Seq<Seq<char>>), Seq<char>> {
    match r {
        Ok(t) => Ok((t.tenant_id@, t.session_id@, strings_view(t.node_ids@))),
        Err(e) => Err(e@),
    }
}

/// Validates a re-key request (see `rekey_target_of`).
pub fn prepare_rekey(node_ids: &[String], target_tenant_id: &str, target_session_id: &str) -> (r: Result<RekeyTarget, String>)
    ensures
        rekey_target_view(r) == rekey_target_of(strings_view(node_ids@), target_tenant_id@, target_session_id@),
{
    if node_ids.len() == 0 {
        return Err(string_of("at least one node id is required"));
    }
    let sv = chars_of(target_session_id);
    let (a, b) = trim_bounds(&sv, 0, sv.len());
    assert(sv@.subrange(0, sv@.len() as int) =~= sv@);
    if a == b {
        return Err(string_of("target session id cannot be empty"));
    }
    let tenant = normalize_tenant_id(Some(target_tenant_id));
    let mut ids: Vec<String> = Vec::new();
    let mut i: usize = 0;
    while i < node_ids.len()
        invariant
            i <= node_ids@.len(),
            strings_view(ids@) == valid_node_ids(strings_view(node_ids@.take(i as int))),
        decreases node_ids@.len() - i,
    {
        proof {
            assert(strings_view(node_ids@.take(i + 1)).drop_last() =~= strings_view(node_ids@.take(i as int)));
            assert(strings_view(node_ids@.take(i + 1)).last() == node_ids@[i as int]@);
        }
        match normalize_temporal_node_id(node_ids[i].as_str()) {
            Some(id) => {
                let ghost before = ids@;
                ids.push(id);
                assert(strings_view(ids@) =~= strings_view(before).push(ids@.last()@));
            },
            None => {},
        }
        i = i + 1;
    }
    assert(node_ids@.take(node_ids@.len() as int) =~= node_ids@);
    if ids.len() == 0 {
        return Err(string_of("no valid node ids were provided"));
    }
    Ok(RekeyTarget { tenant_id: tenant, session_id: string_of(target_session_id), node_ids: ids })
}

/// The scope moves onto itself.
pub open spec fn is_same_scope(st: Seq<char>, ss: Seq<char>, tt: Seq<char>, ts: Seq<char>) -> bool {
    st == tt && ss == ts
}

pub fn same_scope(source_tenant_id: &str, source_session_id: &str, target_tenant_id: &str, target_session_id: &str) -> (r: bool)
    ensures
        r == is_same_scope(source_tenant_id@, source_session_id@, target_tenant_id@, target_session_id@),
{
    chars_eq(&chars_of(source_tenant_id), &chars_of(target_tenant_id)) && chars_eq(
        &chars_of(source_session_id),
        &chars_of(target_session_id),
    )
}

/// The decision on one source scope, given its row counts and those of the
/// target (not counted, and taken as 0, when the scope moves onto itself):
/// a scope that moves onto itself is left as it is; one whose target holds
/// rows conflicts unless merging is allowed; any other is moved unless the
/// run is dry.
pub open spec fn scope_decided(
    r: ScopeRekeyResult,
    source_tenant_id: Seq<char>,
    source_session_id: Seq<char>,
    target_tenant_id: Seq<char>,
    target_session_id: Seq<char>,
    temporal_nodes: int,
    calibrations: int,
    target_temporal_nodes: int,
    target_calibrations: int,
    allow_merge: bool,
    dry_run: bool,
) -> bool {
    let same = is_same_scope(source_tenant_id, source_session_id, target_tenant_id, target_session_id);
    &&& r.source_tenant_id@ == source_tenant_id
    &&& r.source_session_id@ == source_session_id
    &&& r.target_tenant_id@ == target_tenant_id
    &&& r.target_session_id@ == target_session_id
    &&& r.temporal_nodes == temporal_nodes
    &&& r.calibrations == calibrations
    &&& r.target_temporal_nodes == (if same { 0 } else { target_temporal_nodes })
    &&& r.target_calibrations == (if same { 0 } else { target_calibrations })
    &&& r.conflict == (!allow_merge && !same && (target_temporal_nodes > 0 || target_calibrations > 0))
    &&& r.applied == (!same && !r.conflict && !dry_run)
    &&& opt_string(r.message) == if same {
        Some("source and target scopes are identical"@)
    } else if r.conflict {
        Some("target scope already contains rows; set allow_merge=true to override"@)
    } else {
        None
    }
}

/// The decision on a source scope, in terms of its counts: a scope that
/// moves onto itself is not applied and reports no target rows; otherwise,
/// without `allow_merge`, a target that holds any node or any calibration
/// makes a conflict, which is not applied; every other scope is applied
/// unless the run is dry, and reports what the source and target hold.
pub proof fn lemma_scope_decision(
    r: ScopeRekeyResult,
    source_tenant_id: Seq<char>,
    source_session_id: Seq<char>,
    target_tenant_id: Seq<char>,
    target_session_id: Seq<char>,
    temporal_nodes: int,
    calibrations: int,
    target_temporal_nodes: int,
    target_calibrations: int,
    allow_merge: bool,
    dry_run: bool,
)
    requires
        target_temporal_nodes >= 0,
        target_calibrations >= 0,
        scope_decided(
            r,
            source_tenant_id,
            source_session_id,
            target_tenant_id,
            target_session_id,
            temporal_nodes,
            calibrations,
            target_temporal_nodes,
            target_calibrations,
            allow_merge,
            dry_run,
        ),
    ensures
        r.temporal_nodes == temporal_nodes && r.calibrations == calibrations,
        source_tenant_id == target_tenant_id && source_session_id == target_session_id ==> !r.applied
            && !r.conflict && r.target_temporal_nodes == 0 && r.target_calibrations == 0,
        !(source_tenant_id == target_tenant_id && source_session_id == target_session_id) ==> {
            &&& r.target_temporal_nodes == target_temporal_nodes
            &&& r.target_calibrations == target_calibrations
            &&& (!allow_merge && (target_temporal_nodes > 0 || target_calibrations > 0) ==> r.conflict
                && !r.applied && opt_string(r.message)
                == Some("target scope already contains rows; set allow_merge=true to override"@))
            &&& (allow_merge || (target_temporal_nodes == 0 && target_calibrations == 0) ==> !r.conflict
                && r.applied == !dry_run && r.message is None)
        },
{
}

/// Decides on one source scope: see `scope_decided`.
pub fn decide_scope(
    source_tenant_id: &str,
    source_session_id: &str,
    target_tenant_id: &str,
    target_session_id: &str,
    temporal_nodes: usize,
    calibrations: usize,
    target_temporal_nodes: usize,
    target_calibrations: usize,
    allow_merge: bool,
    dry_run: bool,
) -> (r: ScopeRekeyResult)
    ensures
        scope_decided(
            r,
            source_tenant_id@,
            source_session_id@,
            target_tenant_id@,
            target_session_id@,
            temporal_nodes as int,
            calibrations as int,
            target_temporal_nodes as int,
            target_calibrations as int,
            allow_merge,
            dry_run,
        ),
{
    let same = same_scope(source_tenant_id, source_session_id, target_tenant_id, target_session_id);
    let tt = if same { 0 } else { target_temporal_nodes };
    let tc = if same { 0 } else { target_calibrations };
    let conflict = !allow_merge && !same && (tt > 0 || tc > 0);
    let message = if same {
        Some(string_of("source and target scopes are identical"))
    } else if conflict {
        Some(string_of("target scope already contains rows; set allow_merge=true to override"))
    } else {
        None
    };
    ScopeRekeyResult {
        source_tenant_id: string_of(source_tenant_id),
        source_session_id: string_of(source_session_id),
        target_tenant_id: string_of(target_tenant_id),
        target_session_id: string_of(target_session_id),
        temporal_nodes,
        calibrations,
        target_temporal_nodes: tt,
        target_calibrations: tc,
        applied: !same && !conflict && !dry_run,
        conflict,
        message,
    }
}

/// Nodes moved by the applied scopes among `scopes`.
pub open spec fn moved_nodes(scopes: Seq<ScopeRekeyResult>) -> nat
    decreases scopes.len(),
{
    if scopes.len() == 0 {
        0
    } else {
        moved_nodes(scopes.drop_last()) + if scopes.last().applied {
            scopes.last().temporal_nodes as nat
        } else {
            0
        }
    }
}

/// Calibrations moved by the applied scopes among `scopes`.
pub open spec fn moved_calibrations(scopes: Seq<ScopeRekeyResult>) -> nat
    decreases scopes.len(),
{
    if scopes.len() == 0 {
        0
    } else {
        moved_calibrations(scopes.drop_last()) + if scopes.last().applied {
            scopes.last().calibrations as nat
        } else {
            0
        }
    }
}

proof fn lemma_moved_mono(scopes: Seq<ScopeRekeyResult>, i: int)
    requires
        0 <= i <= scopes.len(),
    ensures
        moved_nodes(scopes.take(i)) <= moved_nodes(scopes),
        moved_calibrations(scopes.take(i)) <= moved_calibrations(scopes),
    decreases scopes.len() - i,
{
    if i < scopes.len() {
        lemma_moved_mono(scopes, i + 1);
        assert(scopes.take(i + 1).drop_last() =~= scopes.take(i));
    } else {
        assert(scopes.take(i) =~= scopes);
    }
}

/// The outcome of a batch re-key from its scope decisions: the rows of the
/// applied scopes are totalled, and the ids that resolved are those
/// requested less the missing ones.
pub fn finish_rekey(
    dry_run: bool,
    requested_node_ids: usize,
    missing_node_ids: Vec<String>,
    scopes: Vec<ScopeRekeyResult>,
) -> (r: BatchRekeyResult)
    requires
        moved_nodes(scopes@) <= usize::MAX,
        moved_calibrations(scopes@) <= usize::MAX,
    ensures
        r.dry_run == dry_run,
        r.requested_node_ids == requested_node_ids,
        r.resolved_node_ids == (if requested_node_ids >= missing_node_ids@.len() {
            requested_node_ids - missing_node_ids@.len()
        } else {
            0
        }),
        r.missing_node_ids@ == missing_node_ids@,
        r.scopes@ == scopes@,
        r.temporal_nodes_updated == moved_nodes(scopes@),
        r.calibrations_updated == moved_calibrations(scopes@),
{
    let mut nodes: usize = 0;
    let mut cals: usize = 0;
    let mut i: usize = 0;
    while i < scopes.len()
        invariant
            i <= scopes@.len(),
            moved_nodes(scopes@) <= usize::MAX,
            moved_calibrations(scopes@) <= usize::MAX,
            nodes == moved_nodes(scopes@.take(i as int)),
            cals == moved_calibrations(scopes@.take(i as int)),
        decreases scopes@.len() - i,
    {
        proof {
            lemma_moved_mono(scopes@, i + 1);
            assert(scopes@.take(i + 1).drop_last() =~= scopes@.take(i as int));
        }
        if scopes[i].applied {
            nodes = nodes + scopes[i].temporal_nodes;
            cals = cals + scopes[i].calibrations;
        }
        i = i + 1;
    }
    assert(scopes@.take(scopes@.len() as int) =~= scopes@);
    let resolved = requested_node_ids.saturating_sub(missing_node_ids.len());
    BatchRekeyResult {
        dry_run,
        requested_node_ids,
        resolved_node_ids: resolved,
        missing_node_ids,
        scopes,
        temporal_nodes_updated: nodes,
        calibrations_updated: cals,
    }
}

/// A dry run moves nothing: no scope decided in it is applied, so it
/// totals no moved rows.
pub proof fn lemma_dry_run_moves_nothing(scopes: Seq<ScopeRekeyResult>)
    requires
        forall|k: int| 0 <= k < scopes.len() ==> !(#[trigger] scopes[k]).applied,
    ensures
        moved_nodes(scopes) == 0,
        moved_calibrations(scopes) == 0,
    decreases scopes.len(),
{
    if scopes.len() > 0 {
        assert forall|k: int| 0 <= k < scopes.drop_last().len() implies !(#[trigger] scopes.drop_last()[k]).applied by {
            assert(scopes.drop_last()[k] == scopes[k]);
        }
        lemma_dry_run_moves_nothing(scopes.drop_last());
        assert(!scopes[scopes.len() - 1].applied);
    }
}

pub open spec fn pair_views(s: Seq<(String, String)>) -> Seq<(Seq<char>, Seq<char>)> {
    s.map_values(|p: (String, String)| (p.0@, p.1@))
}

/// The distinct scopes of `pairs`, each at its first occurrence.
pub open spec fn distinct_scopes(pairs: Seq<(Seq<char>, Seq<char>)>) -> Seq<(Seq<char>, Seq<char>)>
    decreases pairs.len(),
{
    if pairs.len() == 0 {
        Seq::empty()
    } else {
        let p = distinct_scopes(pairs.drop_last());
        if p.contains(pairs.last()) {
            p
        } else {
            p.push(pairs.last())
        }
    }
}

/// The distinct `(tenant, session)` scopes of `pairs`, in order of first
/// occurrence.
pub fn unique_scopes(pairs: &Vec<(String, String)>) -> (r: Vec<(String, String)>)
    ensures
        pair_views(r@) == distinct_scopes(pair_views(pairs@)),
{
    let mut r: Vec<(String, String)> = Vec::new();
    let mut i: usize = 0;
    while i < pairs.len()
        invariant
            i <= pairs@.len(),
            pair_views(r@) == distinct_scopes(pair_views(pairs@.take(i as int))),
        decreases pairs@.len() - i,
    {
        let t = chars_of(pairs[i].0.as_str());
        let s = chars_of(pairs[i].1.as_str());
        let ghost cur = (t@, s@);
        proof {
            assert(pair_views(pairs@.take(i + 1)).drop_last() =~= pair_views(pairs@.take(i as int)));
            assert(pair_views(pairs@.take(i + 1)).last() == cur);
        }
        let mut seen = false;
        let mut k: usize = 0;
        while k < r.len()
            invariant
                k <= r@.len(),
                cur == (t@, s@),
                seen == exists|m: int| 0 <= m < k && pair_views(r@)[m] == cur,
            decreases r@.len() - k,
        {
            let same = chars_eq(&chars_of(r[k].0.as_str()), &t) && chars_eq(&chars_of(r[k].1.as_str()), &s);
            proof {
                assert(pair_views(r@)[k as int] == (r@[k as int].0@, r@[k as int].1@));
            }
            if same {
                seen = true;
            }
            k = k + 1;
        }
        proof {
            if seen {
                let m = choose|m: int| 0 <= m < r@.len() && pair_views(r@)[m] == cur;
                assert(pair_views(r@).contains(cur));
            } else {
                assert(!pair_views(r@).contains(cur));
            }
        }
        if !seen {
            let ghost before = r@;
            r.push((string_of(pairs[i].0.as_str()), string_of(pairs[i].1.as_str())));
            assert(pair_views(r@) =~= pair_views(before).push(cur));
        }
        i = i + 1;
    }
    assert(pairs@.take(pairs@.len() as int) =~= pairs@);
    r
}


/// One scope sorts before another: by tenant, then by session.
pub open spec fn scope_lt(a: (Seq<char>, Seq<char>), b: (Seq<char>, Seq<char>)) -> bool {
    text_lt(a.0, b.0) || (a.0 == b.0 && text_lt(a.1, b.1))
}

/// The scope order is transitive.
pub proof fn lemma_scope_lt_transitive(
    a: (Seq<char>, Seq<char>),
    b: (Seq<char>, Seq<char>),
    c: (Seq<char>, Seq<char>),
)
    requires
        scope_lt(a, b),
        scope_lt(b, c),
    ensures
        scope_lt(a, c),
{
    if text_lt(a.0, b.0) && text_lt(b.0, c.0) {
        lemma_text_lt_transitive(a.0, b.0, c.0);
    } else if a.0 == b.0 && b.0 == c.0 {
        lemma_text_lt_transitive(a.1, b.1, c.1);
    }
}

/// Of two scopes at most one sorts first, and of two different scopes one
/// does.
pub proof fn lemma_scope_lt_strict_total(a: (Seq<char>, Seq<char>), b: (Seq<char>, Seq<char>))
    ensures
        scope_lt(a, b) ==> !scope_lt(b, a) && a != b,
        a != b ==> scope_lt(a, b) || scope_lt(b, a),
{
    lemma_text_lt_asymmetric(a.0, b.0);
    lemma_text_lt_asymmetric(b.0, a.0);
    lemma_text_lt_asymmetric(a.1, b.1);
    lemma_text_lt_asymmetric(b.1, a.1);
    lemma_text_lt_total(a.0, b.0);
    lemma_text_lt_total(a.1, b.1);
    lemma_text_lt_asymmetric(a.0, a.0);
    lemma_text_lt_asymmetric(a.1, a.1);
}

fn scope_view(p: &(String, String)) -> (r: (Vec<char>, Vec<char>))
    ensures
        (r.0@, r.1@) == (p.0@, p.1@),
{
    (chars_of(p.0.as_str()), chars_of(p.1.as_str()))
}

/// The scopes of `pairs`, each once, sorted by tenant and then by session.
pub fn sorted_scopes(pairs: &Vec<(String, String)>) -> (r: Vec<(String, String)>)
    ensures
        forall|a: int, b: int| 0 <= a < b < r@.len() ==> scope_lt(pair_views(r@)[a], pair_views(r@)[b]),
        forall|x: (Seq<char>, Seq<char>)| pair_views(r@).contains(x) <==> pair_views(pairs@).contains(x),
{
    let mut r: Vec<(String, String)> = Vec::new();
    let mut i: usize = 0;
    while i < pairs.len()
        invariant
            i <= pairs@.len(),
            forall|a: int, b: int| 0 <= a < b < r@.len() ==> scope_lt(pair_views(r@)[a], pair_views(r@)[b]),
            forall|x: (Seq<char>, Seq<char>)|
                pair_views(r@).contains(x) <==> pair_views(pairs@.take(i as int)).contains(x),
        decreases pairs@.len() - i,
    {
        let (ct, cs) = scope_view(&pairs[i]);
        let ghost cur = (ct@, cs@);
        let ghost rv = pair_views(r@);
        proof {
            let before = pair_views(pairs@.take(i as int));
            let after = pair_views(pairs@.take(i + 1));
            assert(after =~= before.push(cur));
            assert forall|x: (Seq<char>, Seq<char>)| after.contains(x) <==> (before.contains(x) || x == cur) by {
                if after.contains(x) {
                    let y = choose|y: int| 0 <= y < after.len() && after[y] == x;
                    if y < before.len() {
                        assert(before[y] == x);
                    }
                }
                if before.contains(x) {
                    let y = choose|y: int| 0 <= y < before.len() && before[y] == x;
                    assert(after[y] == x);
                }
                if x == cur {
                    assert(after[before.len() as int] == x);
                }
            }
        }
        let mut pos: usize = 0;
        let mut found = false;
        while pos < r.len()
            invariant_except_break
                !found,
            invariant
                pos <= r@.len(),
                rv == pair_views(r@),
                cur == (ct@, cs@),
                forall|a: int| 0 <= a < pos ==> scope_lt(#[trigger] rv[a], cur),
            ensures
                pos <= r@.len(),
                forall|a: int| 0 <= a < pos ==> scope_lt(#[trigger] rv[a], cur),
                found ==> pos < r@.len() && rv[pos as int] == cur,
                !found && pos < r@.len() ==> scope_lt(cur, rv[pos as int]),
            decreases r@.len() - pos,
        {
            let (et, es) = scope_view(&r[pos]);
            assert(rv[pos as int] == (et@, es@));
            let less = text_less(&et, &ct) || (chars_eq(&et, &ct) && text_less(&es, &cs));
            if !less {
                let same = chars_eq(&et, &ct) && chars_eq(&es, &cs);
                proof {
                    lemma_scope_lt_strict_total(rv[pos as int], cur);
                }
                if same {
                    found = true;
                }
                break;
            }
            pos = pos + 1;
        }
        if !found {
            r.insert(pos, (string_of(pairs[i].0.as_str()), string_of(pairs[i].1.as_str())));
            proof {
                assert(pair_views(r@) =~= rv.insert(pos as int, cur));
                rv.insert_ensures(pos as int, cur);
                let nv = pair_views(r@);
                assert forall|a: int, b: int| 0 <= a < b < nv.len() implies scope_lt(nv[a], nv[b]) by {
                    if b < pos {
                        assert(nv[a] == rv[a] && nv[b] == rv[b]);
                    } else if b == pos {
                        assert(nv[a] == rv[a]);
                    } else if a == pos {
                        assert(nv[b] == rv[b - 1]);
                        if b - 1 > pos {
                            lemma_scope_lt_transitive(cur, rv[pos as int], rv[b - 1]);
                        }
                    } else if a < pos {
                        assert(nv[a] == rv[a] && nv[b] == rv[b - 1]);
                        lemma_scope_lt_transitive(rv[a], cur, rv[pos as int]);
                        if b - 1 > pos {
                            lemma_scope_lt_transitive(rv[a], rv[pos as int], rv[b - 1]);
                        }
                    } else {
                        assert(nv[a] == rv[a - 1] && nv[b] == rv[b - 1]);
                    }
                }
                assert forall|x: (Seq<char>, Seq<char>)| nv.contains(x) <==> (rv.contains(x) || x == cur) by {
                    if nv.contains(x) {
                        let y = choose|y: int| 0 <= y < nv.len() && nv[y] == x;
                        if y < pos {
                            assert(rv[y] == x);
                        } else if y > pos {
                            assert(rv[y - 1] == x);
                        }
                    }
                    if rv.contains(x) {
                        let y = choose|y: int| 0 <= y < rv.len() && rv[y] == x;
                        if y < pos {
                            assert(nv[y] == x);
                        } else {
                            assert(nv[y + 1] == x);
                        }
                    }
                    if x == cur {
                        assert(nv[pos as int] == x);
                    }
                }
            }
        } else {
            assert(rv.contains(cur));
        }
        i = i + 1;
    }
    assert(pairs@.take(pairs@.len() as int) =~= pairs@);
    r
}

// ---------------------------------------------------------------------------
// Renaming a session

/// What a request to rename a session comes to.
#[derive(Debug, Clone)]
pub enum RenamePlan {
    /// The request is refused with this message.
    Refused(String),
    /// The session is renamed onto itself: nothing moves.
    Unchanged { source: String, target: String },
    /// The source session moves into the target; both are also given as the
    /// tenant scopes them.
    Move { source: String, target: String, scoped_source: String, scoped_target: String },
}

/// The plan as texts: a refusal's message, or the trimmed ids and, where
/// something moves, the scoped ones.
pub open spec fn rename_view(p: RenamePlan) -> (int, Seq<char>, Seq<char>, Seq<char>, Seq<char>) {
    match p {
        RenamePlan::Refused(m) => (0, m@, Seq::empty(), Seq::empty(), Seq::empty()),
        RenamePlan::Unchanged { source, target } => (1, source@, target@, Seq::empty(), Seq::empty()),
        RenamePlan::Move { source, target, scoped_source, scoped_target } => (
            2,
            source@,
            target@,
            scoped_source@,
            scoped_target@,
        ),
    }
}

/// Both ids are needed; trimmed, equal ids move nothing; distinct ones move
/// the source session, both scoped to the tenant, into the target.
pub open spec fn rename_plan_of(tenant: Seq<char>, source: Seq<char>, target: Seq<char>) -> (int, Seq<char>, Seq<char>, Seq<char>, Seq<char>) {
    let s = trim(source);
    let t = trim(target);
    if s.len() == 0 || t.len() == 0 {
        (0, "sourceSessionId and targetSessionId are required"@, Seq::empty(), Seq::empty(), Seq::empty())
    } else if s == t {
        (1, s, t, Seq::empty(), Seq::empty())
    } else {
        (2, s, t, scoped_session(tenant, s), scoped_session(tenant, t))
    }
}

/// Plans the renaming of a session (see `rename_plan_of`).
pub fn plan_rename(tenant: &str, source_session_id: &str, target_session_id: &str) -> (r: RenamePlan)
    ensures
        rename_view(r) == rename_plan_of(tenant@, source_session_id@, target_session_id@),
{
    let sv = chars_of(source_session_id);
    let tv = chars_of(target_session_id);
    let (a, b) = trim_bounds(&sv, 0, sv.len());
    let (c, d) = trim_bounds(&tv, 0, tv.len());
    assert(sv@.subrange(0, sv@.len() as int) =~= sv@);
    assert(tv@.subrange(0, tv@.len() as int) =~= tv@);
    if a == b || c == d {
        return RenamePlan::Refused(string_of("sourceSessionId and targetSessionId are required"));
    }
    let source = string_from_range(&sv, a, b);
    let target = string_from_range(&tv, c, d);
    if chars_eq(&chars_of(source.as_str()), &chars_of(target.as_str())) {
        return RenamePlan::Unchanged { source, target };
    }
    let scoped_source = scope_session_id(tenant, source.as_str());
    let scoped_target = scope_session_id(tenant, target.as_str());
    RenamePlan::Move { source, target, scoped_source, scoped_target }
}

/// Whether a rename may go on once its source session is read: it is
/// refused where the source holds no nodes.
pub fn check_rename_source(source: &str, source_nodes: usize) -> (r: Result<(), String>)
    ensures
        match r {
            Ok(()) => source_nodes > 0,
            Err(m) => source_nodes == 0 && m@ == "source session not found: "@ + source@,
        },
{
    if source_nodes == 0 {
        Err(source_not_found_message(source))
    } else {
        Ok(())
    }
}

/// The message that refuses a rename whose source session holds no nodes.
pub fn source_not_found_message(source: &str) -> (r: String)
    ensures
        r@ == "source session not found: "@ + source@,
{
    let mut r = string_of("source session not found: ");
    push_str(&mut r, source);
    r
}

/// The first scope of `scopes` that conflicts, if any.
pub open spec fn first_conflict(scopes: Seq<ScopeRekeyResult>) -> Option<int>
    decreases scopes.len(),
{
    if scopes.len() == 0 {
        None
    } else {
        match first_conflict(scopes.drop_last()) {
            Some(i) => Some(i),
            None => if scopes.last().conflict {
                Some(scopes.len() - 1)
            } else {
                None
            },
        }
    }
}

/// How many of `scopes` were applied.
pub open spec fn applied_count(scopes: Seq<ScopeRekeyResult>) -> nat
    decreases scopes.len(),
{
    if scopes.len() == 0 {
        0
    } else {
        applied_count(scopes.drop_last()) + if scopes.last().applied {
            1nat
        } else {
            0nat
        }
    }
}

/// The outcome of a rename from its re-key: refused with the message of the
/// first conflicting scope (or a default one), else the number of scopes
/// applied.
pub fn rename_outcome(result: &BatchRekeyResult) -> (r: Result<usize, String>)
    ensures
        match first_conflict(result.scopes@) {
            Some(i) => r matches Err(m) && m@ == match opt_string(result.scopes@[i].message) {
                Some(t) => t,
                None => "target session already exists"@,
            },
            None => r == Ok::<usize, String>(applied_count(result.scopes@) as usize),
        },
{
    let scopes = &result.scopes;
    let mut applied: usize = 0;
    let mut i: usize = 0;
    while i < scopes.len()
        invariant
            i <= scopes@.len(),
            scopes@ == result.scopes@,
            first_conflict(scopes@.take(i as int)) is None,
            applied == applied_count(scopes@.take(i as int)),
            applied <= i,
        decreases scopes@.len() - i,
    {
        assert(scopes@.take(i + 1).drop_last() =~= scopes@.take(i as int));
        if scopes[i].conflict {
            proof {
                lemma_first_conflict_prefix(scopes@, i as int);
            }
            let message = match &scopes[i].message {
                Some(m) => string_of(m.as_str()),
                None => string_of("target session already exists"),
            };
            return Err(message);
        }
        if scopes[i].applied {
            applied = applied + 1;
        }
        i = i + 1;
    }
    assert(scopes@.take(scopes@.len() as int) =~= scopes@);
    Ok(applied)
}

/// Where the first `i` scopes hold no conflict and scope `i` does, it is the
/// first conflict.
proof fn lemma_first_conflict_prefix(scopes: Seq<ScopeRekeyResult>, i: int)
    requires
        0 <= i < scopes.len(),
        first_conflict(scopes.take(i)) is None,
        scopes[i].conflict,
    ensures
        first_conflict(scopes) == Some(i),
    decreases scopes.len() - i,
{
    if i + 1 < scopes.len() {
        assert(scopes.take(i + 1).drop_last() =~= scopes.take(i));
        lemma_first_conflict_extend(scopes, i + 1, i);
    } else {
        assert(scopes.drop_last() =~= scopes.take(i));
    }
}

proof fn lemma_first_conflict_extend(scopes: Seq<ScopeRekeyResult>, j: int, i: int)
    requires
        0 <= i < j <= scopes.len(),
        first_conflict(scopes.take(j)) == Some(i),
    ensures
        first_conflict(scopes) == Some(i),
    decreases scopes.len() - j,
{
    if j < scopes.len() {
        assert(scopes.take(j + 1).drop_last() =~= scopes.take(j));
        lemma_first_conflict_extend(scopes, j + 1, i);
    } else {
        assert(scopes.take(j) =~= scopes);
    }
}

/// Some of the first `j` ids in `order` is `x`.
spec fn seen_upto(ids: Seq<String>, order: Seq<usize>, j: int, x: Seq<char>) -> bool {
    exists|a: int| 0 <= a < j && #[trigger] ids[order[a] as int]@ == x
}

/// The ids, sorted and each once (the anchors of a rename).
pub fn sorted_distinct_ids(ids: &Vec<String>) -> (r: Vec<String>)
    ensures
        forall|a: int, b: int| 0 <= a < b < r@.len() ==> text_lt(r@[a]@, r@[b]@),
        forall|x: Seq<char>| strings_view(r@).contains(x) <==> strings_view(ids@).contains(x),
{
    let mut keys: Vec<(i128, Vec<char>)> = Vec::new();
    let mut i: usize = 0;
    while i < ids.len()
        invariant
            i <= ids@.len(),
            keys@.len() == i,
            forall|j: int| 0 <= j < i ==> #[trigger] key_view(keys@)[j] == (0int, ids@[j]@),
        decreases ids@.len() - i,
    {
        let ghost kb = keys@;
        keys.push((0, chars_of(ids[i].as_str())));
        proof {
            assert forall|j: int| 0 <= j < i + 1 implies #[trigger] key_view(keys@)[j] == (0int, ids@[j]@) by {
                if j < i {
                    assert(key_view(keys@)[j] == key_view(kb)[j]);
                }
            }
        }
        i = i + 1;
    }
    let order = rank_all(&keys);
    let ghost k = key_view(keys@);
    let ghost sv = strings_view(ids@);
    let mut r: Vec<String> = Vec::new();
    let mut j: usize = 0;
    while j < order.len()
        invariant
            j <= order@.len(),
            k == key_view(keys@),
            k.len() == ids@.len(),
            sv == strings_view(ids@),
            is_ranked_list(k, order@),
            forall|x: int| 0 <= x < ids@.len() ==> #[trigger] k[x] == (0int, ids@[x]@),
            forall|a: int, b: int| 0 <= a < b < r@.len() ==> text_lt(r@[a]@, r@[b]@),
            j > 0 ==> r@.len() > 0 && r@.last()@ == ids@[order@[j - 1] as int]@,
            j == 0 ==> r@.len() == 0,
            forall|x: Seq<char>| strings_view(r@).contains(x) <==> #[trigger] seen_upto(ids@, order@, j as int, x),
        decreases order@.len() - j,
    {
        let o = order[j];
        assert((order@[j as int] as int) < k.len());
        let ghost before = r@;
        let ghost cur = ids@[o as int]@;
        let fresh = if r.len() == 0 {
            true
        } else {
            !chars_eq(&chars_of(r[r.len() - 1].as_str()), &chars_of(ids[o].as_str()))
        };
        if fresh {
            r.push(string_of(ids[o].as_str()));
            proof {
                if before.len() > 0 {
                    let p = order@[j - 1] as int;
                    assert(ranks_before(k, p, o as int));
                    assert(k[p] == (0int, ids@[p]@));
                    assert(k[o as int] == (0int, cur));
                    assert(before.last()@ == ids@[p]@);
                    assert(text_lt(before.last()@, cur));
                    assert forall|a: int, b: int| 0 <= a < b < r@.len() implies text_lt(r@[a]@, r@[b]@) by {
                        if b == before.len() {
                            if a < before.len() - 1 {
                                assert(text_lt(before[a]@, before[before.len() - 1]@));
                                lemma_text_lt_transitive(before[a]@, before.last()@, cur);
                            }
                            assert(r@[a] == before[a]);
                        } else {
                            assert(r@[a] == before[a] && r@[b] == before[b]);
                        }
                    }
                }
                assert(strings_view(r@) =~= strings_view(before).push(cur));
            }
        } else {
            proof {
                assert(before.last()@ == cur);
            }
        }
        proof {
            assert forall|x: Seq<char>|
                #[trigger] seen_upto(ids@, order@, j + 1, x) <==> (seen_upto(ids@, order@, j as int, x) || cur == x) by {
                if seen_upto(ids@, order@, j + 1, x) {
                    let a = choose|a: int| 0 <= a < j + 1 && #[trigger] ids@[order@[a] as int]@ == x;
                    if a < j {
                        assert(ids@[order@[a] as int]@ == x);
                    }
                }
                if cur == x {
                    assert(ids@[order@[j as int] as int]@ == x);
                }
            }
            if fresh {
                assert forall|x: Seq<char>| strings_view(r@).contains(x) <==> (strings_view(before).contains(x) || cur == x) by {
                    if strings_view(r@).contains(x) {
                        let y = choose|y: int| 0 <= y < strings_view(r@).len() && strings_view(r@)[y] == x;
                        if y < before.len() {
                            assert(strings_view(before)[y] == x);
                        }
                    }
                    if strings_view(before).contains(x) {
                        let y = choose|y: int| 0 <= y < strings_view(before).len() && strings_view(before)[y] == x;
                        assert(strings_view(r@)[y] == x);
                    }
                    if cur == x {
                        assert(strings_view(r@)[before.len() as int] == x);
                    }
                }
            } else {
                assert(strings_view(before)[before.len() - 1] == cur);
                assert(strings_view(before).contains(cur));
            }
            assert forall|x: Seq<char>| strings_view(r@).contains(x) <==> #[trigger] seen_upto(ids@, order@, j + 1, x) by {
                assert(strings_view(before).contains(x) <==> seen_upto(ids@, order@, j as int, x));
                if !fresh && x == cur {
                    assert(seen_upto(ids@, order@, j as int, cur));
                }
            }
        }
        j = j + 1;
    }
    proof {
        assert forall|x: Seq<char>| strings_view(r@).contains(x) <==> sv.contains(x) by {
            if sv.contains(x) {
                let y = choose|y: int| 0 <= y < sv.len() && sv[y] == x;
                let yu = y as usize;
                assert(order@.contains(yu));
                let a = choose|a: int| 0 <= a < order@.len() && order@[a] == yu;
                assert(ids@[order@[a] as int]@ == x);
                assert(seen_upto(ids@, order@, order@.len() as int, x));
            }
            if strings_view(r@).contains(x) {
                assert(seen_upto(ids@, order@, order@.len() as int, x));
                let a = choose|a: int| 0 <= a < order@.len() && #[trigger] ids@[order@[a] as int]@ == x;
                assert((order@[a] as int) < k.len());
                assert(sv[order@[a] as int] == x);
            }
        }
    }
    r
}
} // verus!
